use kernel_core::memory::addr::PhysAddr;
use kernel_core::memory::mmap::MemoryMap;
use kernel_core::memory::paging::{current_paging_mode, PagingModes};
use kernel_core::multiboot::{MultibootMmapEntry, MultibootMmapEntryType};
use kernel_core::qemu::QemuExitCode;
use kernel_core::registers::CR3;
use kernel_core::sync::once::{Once, OnceState};
use kernel_core::sync::oncelock::OnceLock;

#[test]
fn paging_modes_from_registers() {
    let pg = 1u64 << 31;
    let pae = 1u64 << 5;
    let la57 = 1u64 << 12;
    let lme = 1u64 << 8;
    assert_eq!(current_paging_mode(0, pae, lme), PagingModes::Disabled);
    assert_eq!(current_paging_mode(pg, 0, 0), PagingModes::X86Bits);
    assert_eq!(current_paging_mode(pg, pae, 0), PagingModes::PAE);
    assert_eq!(current_paging_mode(pg, pae, lme), PagingModes::FourLevel);
    assert_eq!(current_paging_mode(pg, pae | la57, lme), PagingModes::FiveLevel);
    assert_eq!(current_paging_mode(pg, la57, 0), PagingModes::Disabled);
}

#[test]
fn cr3_page_directory() {
    assert_eq!(CR3::read_pdt(0x0040_3018), PhysAddr(0x403));
}

#[test]
fn phys_addr_conversions() {
    let p = PhysAddr(0x1_2345_6789);
    assert_eq!(p.inner(), 0x1_2345_6789);
    assert_eq!(p.as_u64(), 0x1_2345_6789);
    assert_eq!(p.as_u32(), 0x2345_6789);
    assert_eq!(PhysAddr::from(7usize), PhysAddr(7));
    assert_eq!(PhysAddr::default(), PhysAddr(0));
    assert_eq!(PhysAddr(usize::MAX).checked_add(1), None);
    assert_eq!(PhysAddr(0x1000).checked_add(0x10), Some(PhysAddr(0x1010)));
}

#[test]
fn once_states() {
    let mut o = Once::new();
    assert!(!o.is_completed());
    assert_eq!(o.state(), OnceState::Incomplete);
    o.set_state(OnceState::Complete);
    assert!(o.is_completed());
    assert_eq!(o.state(), OnceState::Complete);
}

#[test]
fn once_lock_keeps_first_value() {
    let mut l: OnceLock<u32> = OnceLock::new();
    assert_eq!(l.get(), None);
    l.initialize(5);
    l.initialize(6);
    assert_eq!(l.get(), Some(&5));
    if let Some(v) = l.get_mut() {
        *v = 9;
    }
    assert_eq!(l.get(), Some(&9));
}

#[test]
fn memory_map_entry_kinds() {
    assert_eq!(MultibootMmapEntryType::from_tag(1), MultibootMmapEntryType::Available);
    assert_eq!(MultibootMmapEntryType::from_tag(4), MultibootMmapEntryType::Nvs);
    assert_eq!(MultibootMmapEntryType::from_tag(9), MultibootMmapEntryType::Reserved);
    let e = MultibootMmapEntry { size: 20, addr: 0, len: 1, entry_type: MultibootMmapEntryType::Badrram };
    assert!(!e.is_available());
}

#[test]
fn qemu_exit_codes() {
    assert_eq!(QemuExitCode::Success.code(), 0x10);
    assert_eq!(QemuExitCode::Failed.code(), 0x11);
}

#[test]
fn kernel_memory_map() {
    let m = MemoryMap::new(0x10_0000, 0x8000_0000).unwrap();
    assert_eq!(m.kernel_space, PhysAddr(0x80_0000));
    assert_eq!(m.kernel_space_end, PhysAddr(0x4000_0000));
    let m = MemoryMap::new(0x50_0000, 0x2000_0000).unwrap();
    assert_eq!(m.kernel_space, PhysAddr(0xA0_0000));
    assert_eq!(m.kernel_space_end, PhysAddr(0x2000_0000));
    assert_eq!(MemoryMap::new(usize::MAX, 0), None);
}
