use vstd::prelude::*;
use super::{DescriptorTablePointer, PrivilegeRings};

verus! {

/// Number of interrupt vectors.
pub const IDT_ENTRIES: usize = 256;

/// Kinds of interrupt-descriptor descriptors.
#[derive(Copy, Clone, Debug, PartialEq, Eq, Structural)]
pub enum GateTypes {
    TaskGate,
    InterruptGate16,
    TrapGate16,
    InterruptGate32,
    TrapGate32,
}

/// Whether `v` is the type code of a descriptor.
pub open spec fn is_gate_code(v: u8) -> bool {
    v == 0x5 || v == 0x6 || v == 0x7 || v == 0xE || v == 0xF
}

impl GateTypes {
    /// The descriptor's type code in a descriptor.
    pub open spec fn spec_code(&self) -> u8 {
        match self {
            GateTypes::TaskGate => 0x5,
            GateTypes::InterruptGate16 => 0x6,
            GateTypes::TrapGate16 => 0x7,
            GateTypes::InterruptGate32 => 0xE,
            GateTypes::TrapGate32 => 0xF,
        }
    }

    /// The descriptor with type code `value`.
    pub fn from_u8(value: u8) -> (r: GateTypes)
        requires
            is_gate_code(value),
        ensures
            r.spec_code() == value,
    {
        match value {
            0x5 => GateTypes::TaskGate,
            0x6 => GateTypes::InterruptGate16,
            0x7 => GateTypes::TrapGate16,
            0xE => GateTypes::InterruptGate32,
            _ => GateTypes::TrapGate32,
        }
    }

    /// The descriptor's type code.
    pub fn to_u8(&self) -> (r: u8)
        ensures
            r == self.spec_code(),
            is_gate_code(r),
    {
        match self {
            GateTypes::TaskGate => 0x5,
            GateTypes::InterruptGate16 => 0x6,
            GateTypes::TrapGate16 => 0x7,
            GateTypes::InterruptGate32 => 0xE,
            GateTypes::TrapGate32 => 0xF,
        }
    }
}

/// The type-and-attributes byte of a descriptor: bits 0-3 the descriptor type, bits
/// 5-6 the privilege level, bit 7 present.
#[derive(Copy, Clone, Debug, PartialEq, Eq, Structural)]
pub struct EntryOptions(pub u8);

impl EntryOptions {
    /// Options with every bit clear.
    pub fn new() -> (r: EntryOptions)
        ensures
            r.0 == 0,
    {
        EntryOptions(0)
    }

    /// Adds the bits of privilege level `ring` (they are or-ed in).
    pub fn wr_dpl(&mut self, ring: PrivilegeRings)
        ensures
            final(self).0 == old(self).0 | (ring.spec_level() << 5u8),
    {
        self.0 = self.0 | (ring.to_u8() << 5u8);
    }

    /// The privilege level.
    pub fn rd_dpl(&self) -> (r: PrivilegeRings)
        ensures
            r.spec_level() == (self.0 >> 5u8) & 3u8,
    {
        let x = self.0;
        assert((x >> 5u8) & 3u8 <= 3u8) by (bit_vector);
        PrivilegeRings::from_u8((self.0 >> 5u8) & 0x3u8)
    }

    /// Adds the type code of `descriptor` (it is or-ed in).
    pub fn wr_gate_type(&mut self, gate: GateTypes)
        ensures
            final(self).0 == old(self).0 | gate.spec_code(),
    {
        self.0 = self.0 | gate.to_u8();
    }

    /// The descriptor type.
    pub fn rd_gate_type(&self) -> (r: GateTypes)
        requires
            is_gate_code(self.0 & 0xFu8),
        ensures
            r.spec_code() == self.0 & 0xFu8,
    {
        GateTypes::from_u8(self.0 & 0xFu8)
    }

    /// Sets the present bit.
    pub fn wr_present(&mut self, present: bool)
        ensures
            final(self).spec_present() == present,
            final(self).0 & 0x7Fu8 == old(self).0 & 0x7Fu8,
    {
        let v: u8 = if present {
            1
        } else {
            0
        };
        let x = self.0;
        assert(((x & 0x7Fu8) | (v << 7u8)) >> 7u8 & 1u8 == v && ((x & 0x7Fu8) | (v << 7u8)) & 0x7Fu8
            == x & 0x7Fu8) by (bit_vector)
            requires
                v == 0u8 || v == 1u8,
        ;
        self.0 = (self.0 & 0x7Fu8) | (v << 7u8);
    }

    pub open spec fn spec_present(&self) -> bool {
        (self.0 >> 7u8) & 1u8 == 1u8
    }

    /// The present bit.
    pub fn rd_present(&self) -> (r: bool)
        ensures
            r == self.spec_present(),
    {
        (self.0 >> 7u8) & 1u8 == 1u8
    }
}

/// An interrupt descriptor: the handler's offset split in two halves, the code
/// segment selector it runs in and the options byte.
#[derive(Copy, Clone, Debug, PartialEq, Eq, Structural)]
pub struct Entry {
    pub offset_lower: u16,
    pub segment_selector: u16,
    pub reserved: u8,
    pub options: EntryOptions,
    pub offset_high: u16,
}

impl Entry {
    /// The empty descriptor.
    pub open spec fn new_spec() -> Entry {
        Entry {
            offset_lower: 0,
            segment_selector: 0,
            reserved: 0,
            options: EntryOptions(0),
            offset_high: 0,
        }
    }

    /// The handler's offset.
    pub open spec fn spec_offset(&self) -> int {
        self.offset_high as int * 0x1_0000 + self.offset_lower as int
    }

    /// An empty (not present) descriptor.
    pub fn new() -> (r: Entry)
        ensures
            r == Entry::new_spec(),
    {
        Entry {
            offset_lower: 0,
            segment_selector: 0,
            reserved: 0,
            options: EntryOptions::new(),
            offset_high: 0,
        }
    }

    /// Points the descriptor at `handler` in code segment `selector`, as a present
    /// 32-bit interrupt descriptor.
    pub fn set_handler(&mut self, handler: u32, selector: u16)
        ensures
            final(self).spec_offset() == handler,
            final(self).segment_selector == selector,
            final(self).reserved == 0,
            final(self).options.spec_present(),
            final(self).options.0 & 0x7Fu8 == (old(self).options.0 & 0x7Fu8) | 0xEu8,
    {
        assert(handler & 0xFFFFu32 <= 0xFFFFu32 && (handler >> 16u32) & 0xFFFFu32 <= 0xFFFFu32
            && ((handler >> 16u32) & 0xFFFFu32) * 0x1_0000u32 + (handler & 0xFFFFu32) == handler)
            by (bit_vector);
        self.offset_lower = (handler & 0xFFFFu32) as u16;
        self.segment_selector = selector;
        self.reserved = 0;
        self.options.wr_present(true);
        let ghost o = self.options.0;
        self.options.wr_gate_type(GateTypes::InterruptGate32);
        let x = self.options.0;
        let ghost y = old(self).options.0;
        assert((x >> 7u8) & 1u8 == 1u8 && x & 0x7Fu8 == (y & 0x7Fu8) | 0xEu8) by (bit_vector)
            requires
                x == o | 0xEu8,
                (o >> 7u8) & 1u8 == 1u8,
                o & 0x7Fu8 == y & 0x7Fu8,
        ;
        self.offset_high = ((handler >> 16u32) & 0xFFFFu32) as u16;
    }
}

/// The interrupt descriptor table: one descriptor per vector.
pub struct InterruptDescriptorTable {
    entries: Vec<Entry>,
}

impl InterruptDescriptorTable {
    /// The descriptors, by vector.
    pub closed spec fn descriptors(&self) -> Seq<Entry> {
        self.entries@
    }

    /// A table of empty descriptors.
    pub fn new() -> (r: InterruptDescriptorTable)
        ensures
            r.descriptors().len() == IDT_ENTRIES,
            forall|i: int| 0 <= i < IDT_ENTRIES ==> #[trigger] r.descriptors()[i] == Entry::new_spec(),
    {
        let mut entries: Vec<Entry> = Vec::new();
        let mut i: usize = 0;
        while i < IDT_ENTRIES
            invariant
                i <= IDT_ENTRIES,
                entries@.len() == i,
                forall|j: int| 0 <= j < i ==> #[trigger] entries@[j] == Entry::new_spec(),
            decreases IDT_ENTRIES - i,
        {
            entries.push(Entry::new());
            i = i + 1;
        }
        InterruptDescriptorTable { entries }
    }

    /// Resets every descriptor to empty.
    pub fn clear(&mut self)
        ensures
            final(self).descriptors().len() == IDT_ENTRIES,
            forall|i: int| 0 <= i < IDT_ENTRIES ==> #[trigger] final(self).descriptors()[i] == Entry::new_spec(),
    {
        *self = Self::new();
    }

    /// The descriptor-table pointer for the table stored at `base`.
    pub fn as_ptr(&self, base: u32) -> (r: DescriptorTablePointer)
        ensures
            r.limit == IDT_ENTRIES * 8 - 1,
            r.base == base,
    {
        DescriptorTablePointer { limit: (IDT_ENTRIES * 8 - 1) as u16, base }
    }

    /// The descriptor of `vector`.
    pub fn entry(&self, vector: u8) -> (r: Entry)
        requires
            self.descriptors().len() == IDT_ENTRIES,
        ensures
            r == self.descriptors()[vector as int],
    {
        self.entries[vector as usize]
    }

    /// Points the descriptor of `vector` at `handler` in code segment `selector`;
    /// the other descriptors are unchanged.
    pub fn set_handler(&mut self, vector: u8, handler: u32, selector: u16)
        requires
            old(self).descriptors().len() == IDT_ENTRIES,
        ensures
            final(self).descriptors().len() == IDT_ENTRIES,
            forall|i: int| 0 <= i < IDT_ENTRIES && i != vector ==> #[trigger] final(self).descriptors()[i] == old(self).descriptors()[i],
            final(self).descriptors()[vector as int].spec_offset() == handler,
            final(self).descriptors()[vector as int].segment_selector == selector,
            final(self).descriptors()[vector as int].options.spec_present(),
    {
        let mut e = self.entries[vector as usize];
        e.set_handler(handler, selector);
        self.entries.set(vector as usize, e);
    }
}

} // verus!
