use kernel_core::cpu::gdt::{Entry, EntryAccess, EntryFlags, GlobalDescriptorTable};
use kernel_core::cpu::idt::{self, GateTypes, InterruptDescriptorTable};
use kernel_core::cpu::PrivilegeRings;

#[test]
fn gdt_test() {
    let gdt = GlobalDescriptorTable::flat_model();
    assert_eq!(gdt.null.to_u64(), 0x00u64);
    assert_eq!(gdt.kernel_code.to_u64(), 0x00cf9a000000ffffu64);
    assert_eq!(gdt.kernel_data.to_u64(), 0x00cf92000000ffffu64);
    assert_eq!(gdt.kernel_stack.to_u64(), 0x00cf92000000ffffu64);
    assert_eq!(gdt.user_code.to_u64(), 0x00cffa000000ffffu64);
    assert_eq!(gdt.user_data.to_u64(), 0x00cff2000000ffffu64);
    assert_eq!(gdt.user_stack.to_u64(), 0x00cff2000000ffffu64);
}

#[test]
fn gdt_limit_and_base_round_trip() {
    let mut e = Entry::new();
    e.wr_limit(0xABCDE);
    e.wr_base(0x1234_5678);
    assert_eq!(e.rd_limit(), 0xABCDE);
    assert_eq!(e.rd_base(), 0x1234_5678);
    assert_eq!(e.flags.rd_limit(), 0xA);
    assert_eq!(e.limit_lower, 0xBCDE);
    e.wr_limit(0xFFF_FFFFF);
    assert_eq!(e.rd_limit(), 0xFFFFF);
}

#[test]
fn gdt_flag_bits() {
    let mut f = EntryFlags::new();
    f.wr_granuality(true);
    f.wr_sizeflag(true);
    assert_eq!(f.0, 0xC0);
    assert!(f.rd_granuality() && f.rd_sizeflag() && !f.rd_longmode());
    f.wr_longmode(true);
    f.wr_sizeflag(false);
    assert_eq!(f.0, 0xA0);
    f.wr_limit(0x1F);
    assert_eq!(f.0, 0xAF);
}

#[test]
fn gdt_access_bits() {
    let mut a = EntryAccess::new();
    a.wr_present(true);
    a.wr_segtype(true);
    a.wr_readable(true);
    assert_eq!(a.0, 0x92);
    a.wr_dpl(PrivilegeRings::Ring3);
    assert_eq!(a.0, 0xF2);
    assert_eq!(a.rd_dpl(), PrivilegeRings::Ring3);
    a.wr_executable(true);
    a.wr_direction(true);
    a.wr_access(true);
    assert_eq!(a.0, 0xFF);
    assert!(a.rd_executable() && a.rd_direction() && a.rd_access() && a.rd_present());
    a.wr_present(false);
    assert!(!a.rd_present());
    assert!(a.rd_segtype() && a.rd_readable());
}

#[test]
fn gdt_clear_and_pointer() {
    let mut gdt = GlobalDescriptorTable::flat_model();
    *gdt.entry_mut(4) = Entry::flat();
    assert_eq!(gdt.user_code, Entry::flat());
    gdt.clear();
    assert_eq!(gdt, GlobalDescriptorTable::new());
    let p = gdt.as_ptr(0x800);
    assert_eq!((p.limit, p.base), (55, 0x800));
}

#[test]
fn idt_set_handler() {
    let mut table = InterruptDescriptorTable::new();
    table.set_handler(34, 0x0010_2345, 0x08);
    let e = table.entry(34);
    assert_eq!(e.offset_lower, 0x2345);
    assert_eq!(e.offset_high, 0x0010);
    assert_eq!(e.segment_selector, 0x08);
    assert_eq!(e.options.0, 0x8E);
    assert!(e.options.rd_present());
    assert_eq!(e.options.rd_gate_type(), GateTypes::InterruptGate32);
    assert_eq!(table.entry(35), idt::Entry::new());
    let p = table.as_ptr(0x1000);
    assert_eq!((p.limit, p.base), (2047, 0x1000));
    table.clear();
    assert_eq!(table.entry(34), idt::Entry::new());
}

#[test]
fn idt_options_or_in_bits() {
    let mut o = idt::EntryOptions::new();
    o.wr_gate_type(GateTypes::TrapGate32);
    o.wr_dpl(PrivilegeRings::Ring3);
    assert_eq!(o.0, 0x6F);
    assert_eq!(o.rd_dpl(), PrivilegeRings::Ring3);
    assert_eq!(o.rd_gate_type(), GateTypes::TrapGate32);
    assert_eq!(GateTypes::from_u8(0x5), GateTypes::TaskGate);
    assert_eq!(PrivilegeRings::from_u8(2), PrivilegeRings::Ring2);
}
