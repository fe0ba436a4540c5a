use vstd::prelude::*;
use crate::memory::addr::PhysAddr;

verus! {

/// Magic value of a Multiboot header.
pub const MULTIBOOT_HEADER_MAGIC: u32 = 0x1BADB002;

/// Magic value that a Multiboot loader leaves in `eax`.
pub const BOOTLOADER_MAGIC: u32 = 0x2BADB002;

/// The Multiboot header embedded in the kernel image.
#[derive(Debug, Copy, Clone)]
pub struct MultibootHeader {
    pub magic: u32,
    pub flags: u32,
    pub checksum: u32,
    pub header_addr: u32,
    pub load_addr: u32,
    pub load_end_addr: u32,
    pub bss_end_addr: u32,
    pub entry_addr: u32,
    pub mode_type: u32,
    pub width: u32,
    pub height: u32,
    pub depth: u32,
}

/// The information block a Multiboot loader hands to the kernel.
#[derive(Debug, Copy, Clone)]
pub struct MultibootInfo {
    pub flags: u32,
    pub mem_lower: u32,
    pub mem_upper: u32,
    pub boot_device: u32,
    pub cmdline: u32,
    pub mods_count: u32,
    pub mods_addr: u32,
    pub symbols: [u32; 4],
    pub mmap_length: u32,
    pub mmap_addr: PhysAddr,
    pub drives_length: u32,
    pub drives_addr: u32,
    pub config_table: u32,
    pub boot_loader_name: u32,
}

/// Kind of a memory-map region.
#[derive(Debug, Eq, PartialEq, Copy, Clone, Structural)]
pub enum MultibootMmapEntryType {
    Available,
    Reserved,
    AcpiReclamable,
    Nvs,
    Badrram,
}

/// One region of the firmware memory map.
#[derive(Debug, Eq, PartialEq, Copy, Clone, Structural)]
pub struct MultibootMmapEntry {
    pub size: u32,
    pub addr: u64,
    pub len: u64,
    pub entry_type: MultibootMmapEntryType,
}

impl MultibootMmapEntryType {
    /// The type for a raw Multiboot tag (1 = available, ...); unknown tags
    /// are reserved.
    pub fn from_tag(tag: u32) -> (r: MultibootMmapEntryType)
        ensures
            (r == MultibootMmapEntryType::Available) == (tag == 1),
    {
        match tag {
            1 => MultibootMmapEntryType::Available,
            3 => MultibootMmapEntryType::AcpiReclamable,
            4 => MultibootMmapEntryType::Nvs,
            5 => MultibootMmapEntryType::Badrram,
            _ => MultibootMmapEntryType::Reserved,
        }
    }
}

impl MultibootMmapEntry {
    /// Whether the region is usable RAM.
    pub fn is_available(&self) -> (r: bool)
        ensures
            r == (self.entry_type == MultibootMmapEntryType::Available),
    {
        match self.entry_type {
            MultibootMmapEntryType::Available => true,
            _ => false,
        }
    }
}

} // verus!
