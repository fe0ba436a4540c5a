//! Kernel support library: a buddy allocator for physical pages, the boot
//! memory map it is fed from, descriptor-table encodings, ACPI table checks
//! and once-cells.
pub mod commun;
pub mod cpu;
pub mod drivers;
pub mod memory;
pub mod multiboot;
pub mod qemu;
pub mod registers;
pub mod sync;
