use vstd::prelude::*;
use crate::memory::addr::PhysAddr;

verus! {

/// Physical address where the kernel's code is loaded (1 MiB).
pub const KERNEL_CODE_PHYS: usize = 0x10_0000;

/// The least room reserved for the kernel's code.
pub const KERNEL_CODE_MIN_SIZE: usize = 0x30_0000;

/// Bytes reserved for the kernel's page tables.
pub const PAGES_TABLES_SIZE: usize = 0x40_0000;

/// The highest end of kernel space (1 GiB).
pub const KERNEL_SPACE_MAX_END: usize = 0x4000_0000;

/// The kernel's part of physical memory: it begins after the kernel's code
/// (at least `KERNEL_CODE_MIN_SIZE` of it) and its page tables, and ends at
/// the end of the largest usable region, at most at 1 GiB.
#[derive(Copy, Clone, Debug, PartialEq, Eq, Structural)]
pub struct MemoryMap {
    pub kernel_space: PhysAddr,
    pub kernel_space_end: PhysAddr,
}

impl MemoryMap {
    /// The map for a kernel image of `kernel_code_length` bytes when the
    /// largest usable region ends at `largest_end`; `None` where the image
    /// is so large that the start does not fit an address.
    pub fn new(kernel_code_length: usize, largest_end: usize) -> (r: Option<MemoryMap>)
        ensures
            ({
                let code = if kernel_code_length > KERNEL_CODE_MIN_SIZE {
                    kernel_code_length as int
                } else {
                    KERNEL_CODE_MIN_SIZE as int
                };
                let start = KERNEL_CODE_PHYS + code + PAGES_TABLES_SIZE;
                let end = if largest_end < KERNEL_SPACE_MAX_END {
                    largest_end as int
                } else {
                    KERNEL_SPACE_MAX_END as int
                };
                &&& start > usize::MAX ==> r is None
                &&& start <= usize::MAX ==> r == Some(
                    MemoryMap { kernel_space: PhysAddr(start as usize), kernel_space_end: PhysAddr(end as usize) },
                )
            }),
    {
        let code = if kernel_code_length > KERNEL_CODE_MIN_SIZE {
            kernel_code_length
        } else {
            KERNEL_CODE_MIN_SIZE
        };
        let base = match PhysAddr(KERNEL_CODE_PHYS).checked_add(code) {
            Some(b) => b,
            None => {
                return None;
            },
        };
        let kernel_space = match base.checked_add(PAGES_TABLES_SIZE) {
            Some(s) => s,
            None => {
                return None;
            },
        };
        let end = if largest_end < KERNEL_SPACE_MAX_END {
            largest_end
        } else {
            KERNEL_SPACE_MAX_END
        };
        Some(MemoryMap { kernel_space, kernel_space_end: PhysAddr(end) })
    }
}

} // verus!
