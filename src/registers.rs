use vstd::prelude::*;
use crate::memory::addr::PhysAddr;

verus! {

/// Whether bit `b` of `raw` is set.
pub open spec fn bit_set(raw: u64, b: u64) -> bool {
    (raw >> b) & 1u64 == 1u64
}

/// Control register 0.
#[derive(Copy, Clone, Debug, PartialEq, Eq, Structural)]
pub struct CR0;

/// Control register 3: the page-directory base and its cache flags.
#[derive(Copy, Clone, Debug, PartialEq, Eq, Structural)]
pub struct CR3;

/// Control register 4.
#[derive(Copy, Clone, Debug, PartialEq, Eq, Structural)]
pub struct CR4;

/// The code-segment register.
#[derive(Copy, Clone, Debug, PartialEq, Eq, Structural)]
pub struct CS;

/// The extended-feature-enable model-specific register.
#[derive(Copy, Clone, Debug, PartialEq, Eq, Structural)]
pub struct IA32EFER;

/// Whether bit `b` of `raw` is set.
pub fn test_bit(raw: u64, b: u64) -> (r: bool)
    requires
        b < 64,
    ensures
        r == bit_set(raw, b),
{
    (raw >> b) & 1u64 == 1u64
}

impl CR0 {
    /// Bit of the paging-enable flag.
    pub const PG: u64 = 31;
}

impl CR4 {
    /// Bit of the physical-address-extension flag.
    pub const PAE: u64 = 5;

    /// Bit of the 57-bit linear-address flag.
    pub const LA57: u64 = 12;
}

impl IA32EFER {
    /// Bit of the long-mode-enable flag.
    pub const LME: u64 = 8;
}

impl CR3 {
    /// The page-directory frame number held in a raw CR3 value.
    pub fn read_pdt(raw: u32) -> (r: PhysAddr)
        ensures
            r.0 == raw >> 12u32,
    {
        PhysAddr((raw >> 12u32) as usize)
    }
}

} // verus!
