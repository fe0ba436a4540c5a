use vstd::prelude::*;

pub mod apic;
pub mod gdt;
pub mod idt;

verus! {

/// The operand of `lgdt` / `lidt`: a descriptor table's size in bytes minus
/// one and its base address.
#[derive(Copy, Clone, Debug, PartialEq, Eq, Structural)]
pub struct DescriptorTablePointer {
    pub limit: u16,
    pub base: u32,
}

/// x86 privilege levels, from ring 0 (kernel) to ring 3 (user).
#[derive(Copy, Clone, Debug, PartialEq, Eq, Structural)]
pub enum PrivilegeRings {
    Ring0,
    Ring1,
    Ring2,
    Ring3,
}

impl PrivilegeRings {
    /// The ring's number.
    pub open spec fn spec_level(&self) -> u8 {
        match self {
            PrivilegeRings::Ring0 => 0,
            PrivilegeRings::Ring1 => 1,
            PrivilegeRings::Ring2 => 2,
            PrivilegeRings::Ring3 => 3,
        }
    }

    /// The ring numbered `value` (0 to 3).
    pub fn from_u8(value: u8) -> (r: PrivilegeRings)
        requires
            value <= 3,
        ensures
            r.spec_level() == value,
    {
        match value {
            0 => PrivilegeRings::Ring0,
            1 => PrivilegeRings::Ring1,
            2 => PrivilegeRings::Ring2,
            _ => PrivilegeRings::Ring3,
        }
    }

    /// The ring's number.
    pub fn to_u8(&self) -> (r: u8)
        ensures
            r == self.spec_level(),
            r <= 3,
    {
        match self {
            PrivilegeRings::Ring0 => 0,
            PrivilegeRings::Ring1 => 1,
            PrivilegeRings::Ring2 => 2,
            PrivilegeRings::Ring3 => 3,
        }
    }
}

/// The processor state pushed on the stack when an interrupt is taken.
#[derive(Copy, Clone, Debug, PartialEq, Eq, Structural)]
pub struct InterruptStackFrame {
    pub eip: u32,
    pub cs: u16,
    pub cflags: u32,
    pub esp: u32,
    pub ss: u16,
}

} // verus!
