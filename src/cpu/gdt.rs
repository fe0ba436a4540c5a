use vstd::prelude::*;
use super::{DescriptorTablePointer, PrivilegeRings};

verus! {

/// Number of descriptors in the table: the null descriptor and the kernel
/// and user code, data and stack segments.
pub const GDT_ENTRIES: usize = 7;

/// Segment-descriptor flags: bits 0-3 hold the top of the segment limit,
/// bit 5 the long-mode flag, bit 6 the size flag and bit 7 the granularity.
#[derive(Copy, Clone, Debug, PartialEq, Eq, Structural)]
pub struct EntryFlags(pub u8);

impl EntryFlags {
    /// Flags with every bit clear.
    pub fn new() -> (r: EntryFlags)
        ensures
            r.0 == 0,
    {
        EntryFlags(0)
    }

    /// Writes the upper 4 bits of the segment limit.
    pub fn wr_limit(&mut self, v: u8)
        ensures
            final(self).0 & 0xFu8 == v & 0xFu8,
            final(self).0 & 0xF0u8 == old(self).0 & 0xF0u8,
    {
        let x = self.0;
        assert(((x & 0xF0u8) | (v & 0xFu8)) & 0xFu8 == v & 0xFu8 && ((x & 0xF0u8) | (v & 0xFu8))
            & 0xF0u8 == x & 0xF0u8) by (bit_vector);
        self.0 = (self.0 & 0xF0u8) | (v & 0xFu8);
    }

    /// The upper 4 bits of the segment limit.
    pub fn rd_limit(&self) -> (r: u8)
        ensures
            r == self.0 & 0xFu8,
    {
        self.0 & 0xFu8
    }

    /// Sets the granularity bit (0 = byte blocks, 1 = 4 KiB blocks).
    pub fn wr_granuality(&mut self, b: bool)
        ensures
            final(self).spec_granuality() == b,
            final(self).0 & 0x7fu8 == old(self).0 & 0x7fu8,
    {
        let v: u8 = if b {
            1
        } else {
            0
        };
        let x = self.0;
        assert(((x & 0x7fu8) | (v << 7u8)) >> 7u8 & 1u8 == v && ((x & 0x7fu8) | (v << 7u8))
            & 0x7fu8 == x & 0x7fu8) by (bit_vector)
            requires
                v == 0u8 || v == 1u8,
        ;
        self.0 = (self.0 & 0x7fu8) | (v << 7u8);
    }

    pub open spec fn spec_granuality(&self) -> bool {
        (self.0 >> 7u8) & 1u8 == 1u8
    }

    /// The granularity bit.
    pub fn rd_granuality(&self) -> (r: bool)
        ensures
            r == self.spec_granuality(),
    {
        (self.0 >> 7u8) & 1u8 == 1u8
    }

    /// Sets the size flag (0 = 16-bit, 1 = 32-bit segment).
    pub fn wr_sizeflag(&mut self, b: bool)
        ensures
            final(self).spec_sizeflag() == b,
            final(self).0 & 0xbfu8 == old(self).0 & 0xbfu8,
    {
        let v: u8 = if b {
            1
        } else {
            0
        };
        let x = self.0;
        assert(((x & 0xbfu8) | (v << 6u8)) >> 6u8 & 1u8 == v && ((x & 0xbfu8) | (v << 6u8))
            & 0xbfu8 == x & 0xbfu8) by (bit_vector)
            requires
                v == 0u8 || v == 1u8,
        ;
        self.0 = (self.0 & 0xbfu8) | (v << 6u8);
    }

    pub open spec fn spec_sizeflag(&self) -> bool {
        (self.0 >> 6u8) & 1u8 == 1u8
    }

    /// The size flag.
    pub fn rd_sizeflag(&self) -> (r: bool)
        ensures
            r == self.spec_sizeflag(),
    {
        (self.0 >> 6u8) & 1u8 == 1u8
    }

    /// Sets the long-mode flag (1 = 64-bit code segment).
    pub fn wr_longmode(&mut self, b: bool)
        ensures
            final(self).spec_longmode() == b,
            final(self).0 & 0xdfu8 == old(self).0 & 0xdfu8,
    {
        let v: u8 = if b {
            1
        } else {
            0
        };
        let x = self.0;
        assert(((x & 0xdfu8) | (v << 5u8)) >> 5u8 & 1u8 == v && ((x & 0xdfu8) | (v << 5u8))
            & 0xdfu8 == x & 0xdfu8) by (bit_vector)
            requires
                v == 0u8 || v == 1u8,
        ;
        self.0 = (self.0 & 0xdfu8) | (v << 5u8);
    }

    pub open spec fn spec_longmode(&self) -> bool {
        (self.0 >> 5u8) & 1u8 == 1u8
    }

    /// The long-mode flag.
    pub fn rd_longmode(&self) -> (r: bool)
        ensures
            r == self.spec_longmode(),
    {
        (self.0 >> 5u8) & 1u8 == 1u8
    }
}

/// Segment-descriptor access byte: bit 7 present, bits 5-6 the privilege
/// level, bit 4 the descriptor type, bit 3 executable, bit 2 direction /
/// conforming, bit 1 readable / writable, bit 0 accessed.
#[derive(Copy, Clone, Debug, PartialEq, Eq, Structural)]
pub struct EntryAccess(pub u8);

impl EntryAccess {
    /// An access byte with every bit clear.
    pub fn new() -> (r: EntryAccess)
        ensures
            r.0 == 0,
    {
        EntryAccess(0)
    }

    /// Sets the descriptor privilege level.
    pub fn wr_dpl(&mut self, ring: PrivilegeRings)
        ensures
            (final(self).0 >> 5u8) & 3u8 == ring.spec_level(),
            final(self).0 & 0x9Fu8 == old(self).0 & 0x9Fu8,
    {
        let v = ring.to_u8();
        let x = self.0;
        assert((((x & 0x9Fu8) | (v << 5u8)) >> 5u8) & 3u8 == v && ((x & 0x9Fu8) | (v << 5u8))
            & 0x9Fu8 == x & 0x9Fu8) by (bit_vector)
            requires
                v <= 3u8,
        ;
        self.0 = (self.0 & 0x9Fu8) | (v << 5u8);
    }

    /// The descriptor privilege level.
    pub fn rd_dpl(&self) -> (r: PrivilegeRings)
        ensures
            r.spec_level() == (self.0 >> 5u8) & 3u8,
    {
        let x = self.0;
        assert((x >> 5u8) & 3u8 <= 3u8) by (bit_vector);
        PrivilegeRings::from_u8((self.0 >> 5u8) & 0x3u8)
    }

    /// Sets the present bit (1 = the segment is in memory).
    pub fn wr_present(&mut self, b: bool)
        ensures
            final(self).spec_present() == b,
            final(self).0 & 0x7fu8 == old(self).0 & 0x7fu8,
    {
        let v: u8 = if b {
            1
        } else {
            0
        };
        let x = self.0;
        assert(((x & 0x7fu8) | (v << 7u8)) >> 7u8 & 1u8 == v && ((x & 0x7fu8) | (v << 7u8))
            & 0x7fu8 == x & 0x7fu8) by (bit_vector)
            requires
                v == 0u8 || v == 1u8,
        ;
        self.0 = (self.0 & 0x7fu8) | (v << 7u8);
    }

    pub open spec fn spec_present(&self) -> bool {
        (self.0 >> 7u8) & 1u8 == 1u8
    }

    /// The present bit.
    pub fn rd_present(&self) -> (r: bool)
        ensures
            r == self.spec_present(),
    {
        (self.0 >> 7u8) & 1u8 == 1u8
    }

    /// Sets the descriptor type (0 = system, 1 = code or data).
    pub fn wr_segtype(&mut self, b: bool)
        ensures
            final(self).spec_segtype() == b,
            final(self).0 & 0xefu8 == old(self).0 & 0xefu8,
    {
        let v: u8 = if b {
            1
        } else {
            0
        };
        let x = self.0;
        assert(((x & 0xefu8) | (v << 4u8)) >> 4u8 & 1u8 == v && ((x & 0xefu8) | (v << 4u8))
            & 0xefu8 == x & 0xefu8) by (bit_vector)
            requires
                v == 0u8 || v == 1u8,
        ;
        self.0 = (self.0 & 0xefu8) | (v << 4u8);
    }

    pub open spec fn spec_segtype(&self) -> bool {
        (self.0 >> 4u8) & 1u8 == 1u8
    }

    /// The descriptor type bit.
    pub fn rd_segtype(&self) -> (r: bool)
        ensures
            r == self.spec_segtype(),
    {
        (self.0 >> 4u8) & 1u8 == 1u8
    }

    /// Sets the executable bit (1 = code segment).
    pub fn wr_executable(&mut self, b: bool)
        ensures
            final(self).spec_executable() == b,
            final(self).0 & 0xf7u8 == old(self).0 & 0xf7u8,
    {
        let v: u8 = if b {
            1
        } else {
            0
        };
        let x = self.0;
        assert(((x & 0xf7u8) | (v << 3u8)) >> 3u8 & 1u8 == v && ((x & 0xf7u8) | (v << 3u8))
            & 0xf7u8 == x & 0xf7u8) by (bit_vector)
            requires
                v == 0u8 || v == 1u8,
        ;
        self.0 = (self.0 & 0xf7u8) | (v << 3u8);
    }

    pub open spec fn spec_executable(&self) -> bool {
        (self.0 >> 3u8) & 1u8 == 1u8
    }

    /// The executable bit.
    pub fn rd_executable(&self) -> (r: bool)
        ensures
            r == self.spec_executable(),
    {
        (self.0 >> 3u8) & 1u8 == 1u8
    }

    /// Sets the direction / conforming bit.
    pub fn wr_direction(&mut self, b: bool)
        ensures
            final(self).spec_direction() == b,
            final(self).0 & 0xfbu8 == old(self).0 & 0xfbu8,
    {
        let v: u8 = if b {
            1
        } else {
            0
        };
        let x = self.0;
        assert(((x & 0xfbu8) | (v << 2u8)) >> 2u8 & 1u8 == v && ((x & 0xfbu8) | (v << 2u8))
            & 0xfbu8 == x & 0xfbu8) by (bit_vector)
            requires
                v == 0u8 || v == 1u8,
        ;
        self.0 = (self.0 & 0xfbu8) | (v << 2u8);
    }

    pub open spec fn spec_direction(&self) -> bool {
        (self.0 >> 2u8) & 1u8 == 1u8
    }

    /// The direction / conforming bit.
    pub fn rd_direction(&self) -> (r: bool)
        ensures
            r == self.spec_direction(),
    {
        (self.0 >> 2u8) & 1u8 == 1u8
    }

    /// Sets the readable (code) / writable (data) bit.
    pub fn wr_readable(&mut self, b: bool)
        ensures
            final(self).spec_readable() == b,
            final(self).0 & 0xfdu8 == old(self).0 & 0xfdu8,
    {
        let v: u8 = if b {
            1
        } else {
            0
        };
        let x = self.0;
        assert(((x & 0xfdu8) | (v << 1u8)) >> 1u8 & 1u8 == v && ((x & 0xfdu8) | (v << 1u8))
            & 0xfdu8 == x & 0xfdu8) by (bit_vector)
            requires
                v == 0u8 || v == 1u8,
        ;
        self.0 = (self.0 & 0xfdu8) | (v << 1u8);
    }

    pub open spec fn spec_readable(&self) -> bool {
        (self.0 >> 1u8) & 1u8 == 1u8
    }

    /// The readable / writable bit.
    pub fn rd_readable(&self) -> (r: bool)
        ensures
            r == self.spec_readable(),
    {
        (self.0 >> 1u8) & 1u8 == 1u8
    }

    /// Sets the accessed bit.
    pub fn wr_access(&mut self, b: bool)
        ensures
            final(self).spec_access() == b,
            final(self).0 & 0xfeu8 == old(self).0 & 0xfeu8,
    {
        let v: u8 = if b {
            1
        } else {
            0
        };
        let x = self.0;
        assert(((x & 0xfeu8) | (v)) >> 0u8 & 1u8 == v && ((x & 0xfeu8) | (v))
            & 0xfeu8 == x & 0xfeu8) by (bit_vector)
            requires
                v == 0u8 || v == 1u8,
        ;
        self.0 = (self.0 & 0xfeu8) | (v);
    }

    pub open spec fn spec_access(&self) -> bool {
        (self.0 >> 0u8) & 1u8 == 1u8
    }

    /// The accessed bit.
    pub fn rd_access(&self) -> (r: bool)
        ensures
            r == self.spec_access(),
    {
        (self.0 >> 0u8) & 1u8 == 1u8
    }
}

proof fn lemma_set_executable(y: u8)
    requires
        (y >> 3u8) & 1u8 == 1u8,
        y & 0xF7u8 == 0x92u8 & 0xF7u8,
    ensures
        y == 0x9Au8,
{
    assert(y == 0x9Au8) by (bit_vector)
        requires
            (y >> 3u8) & 1u8 == 1u8,
            y & 0xF7u8 == 0x92u8 & 0xF7u8,
    ;
}

proof fn lemma_set_dpl(z: u8, y: u8, v: u8)
    requires
        (z >> 5u8) & 3u8 == v,
        z & 0x9Fu8 == y & 0x9Fu8,
        y == 0x92u8 || y == 0x9Au8,
        v == 0u8 || v == 3u8,
    ensures
        v == 0u8 ==> z == y,
        v == 3u8 ==> z == y + 0x60u8,
{
    assert((v == 0u8 ==> z == y) && (v == 3u8 ==> z == y + 0x60u8)) by (bit_vector)
        requires
            (z >> 5u8) & 3u8 == v,
            z & 0x9Fu8 == y & 0x9Fu8,
            y == 0x92u8 || y == 0x9Au8,
            v == 0u8 || v == 3u8,
    ;
}

/// A segment descriptor: a 32-bit base, a 20-bit limit, the access byte and
/// the flags, split over the fields as the processor lays them out.
#[derive(Copy, Clone, Debug, PartialEq, Eq, Structural)]
pub struct Entry {
    pub limit_lower: u16,
    pub base_lower: u16,
    pub base_mid: u8,
    pub access: EntryAccess,
    pub flags: EntryFlags,
    pub base_upper: u8,
}

impl Entry {
    /// The null descriptor.
    pub fn new() -> (r: Entry)
        ensures
            r.encode() == 0,
    {
        let r = Entry {
            limit_lower: 0,
            base_lower: 0,
            base_mid: 0,
            access: EntryAccess::new(),
            flags: EntryFlags::new(),
            base_upper: 0,
        };
        r
    }

    /// The 64-bit descriptor as the processor reads it.
    pub open spec fn encode(&self) -> int {
        self.limit_lower as int + self.base_lower as int * 0x1_0000 + self.base_mid as int
            * 0x1_0000_0000 + self.access.0 as int * 0x100_0000_0000 + self.flags.0 as int
            * 0x1_0000_0000_0000 + self.base_upper as int * 0x100_0000_0000_0000
    }

    /// The flat-model template: base 0, limit 0xFFFFF in 4 KiB units, a
    /// present ring-0 data segment (access 0x92), 32-bit (flags 0xCF).
    pub fn flat() -> (r: Entry)
        ensures
            r.rd_base_spec() == 0,
            r.access.0 == 0x92,
            r.flags.0 == 0xCF,
            r.limit_lower == 0xFFFF,
    {
        Entry {
            limit_lower: 0xFFFF,
            base_lower: 0,
            base_mid: 0,
            access: EntryAccess(0x92),
            flags: EntryFlags(0xCF),
            base_upper: 0,
        }
    }

    /// The descriptor as a 64-bit value.
    pub fn to_u64(&self) -> (r: u64)
        ensures
            r == self.encode(),
    {
        let r = self.limit_lower as u64 + self.base_lower as u64 * 0x1_0000 + self.base_mid as u64
            * 0x1_0000_0000 + self.access.0 as u64 * 0x100_0000_0000 + self.flags.0 as u64
            * 0x1_0000_0000_0000 + self.base_upper as u64 * 0x100_0000_0000_0000;
        r
    }

    pub open spec fn rd_limit_spec(&self) -> int {
        (self.flags.0 & 0xFu8) as int * 0x1_0000 + self.limit_lower as int
    }

    pub open spec fn rd_base_spec(&self) -> int {
        self.base_upper as int * 0x100_0000 + self.base_mid as int * 0x1_0000 + self.base_lower as int
    }

    /// Sets the 20-bit segment limit: the low 16 bits go to `limit_lower`,
    /// the top 4 to the flags.
    pub fn wr_limit(&mut self, limit: u32)
        ensures
            final(self).rd_limit_spec() == limit & 0xF_FFFFu32,
            final(self).flags.0 & 0xF0u8 == old(self).flags.0 & 0xF0u8,
            final(self).access == old(self).access,
            final(self).rd_base_spec() == old(self).rd_base_spec(),
    {
        let lo = (limit & 0xFFFFu32) as u16;
        let hi = ((limit >> 16u32) & 0xFu32) as u8;
        assert((limit & 0xFFFFu32) + ((limit >> 16u32) & 0xFu32) * 0x1_0000u32 == limit & 0xF_FFFFu32
            && limit & 0xFFFFu32 <= 0xFFFFu32 && (limit >> 16u32) & 0xFu32 <= 0xFu32) by (bit_vector);
        self.limit_lower = lo;
        self.flags.wr_limit(hi);
        assert(hi & 0xFu8 == hi) by (bit_vector)
            requires
                hi == ((limit >> 16u32) & 0xFu32) as u8,
        ;
    }

    /// The 20-bit segment limit.
    pub fn rd_limit(&self) -> (r: u32)
        ensures
            r == self.rd_limit_spec(),
    {
        let hi = self.flags.rd_limit() as u32;
        hi * 0x1_0000 + self.limit_lower as u32
    }

    /// Sets the 32-bit base address, split over `base_lower`, `base_mid`
    /// and `base_upper`.
    pub fn wr_base(&mut self, base: u32)
        ensures
            final(self).rd_base_spec() == base,
            final(self).access == old(self).access,
            final(self).flags == old(self).flags,
            final(self).limit_lower == old(self).limit_lower,
    {
        assert(base & 0xFFFFu32 <= 0xFFFFu32 && (base >> 16u32) & 0xFFu32 <= 0xFFu32 && (base >> 24u32)
            & 0xFFu32 <= 0xFFu32) by (bit_vector);
        self.base_lower = (base & 0xFFFFu32) as u16;
        self.base_mid = ((base >> 16u32) & 0xFFu32) as u8;
        self.base_upper = ((base >> 24u32) & 0xFFu32) as u8;
        assert(((base >> 24u32) & 0xFFu32) * 0x100_0000u32 + ((base >> 16u32) & 0xFFu32) * 0x1_0000u32
            + (base & 0xFFFFu32) == base) by (bit_vector);
    }

    /// The 32-bit base address.
    pub fn rd_base(&self) -> (r: u32)
        ensures
            r == self.rd_base_spec(),
    {
        self.base_upper as u32 * 0x100_0000 + self.base_mid as u32 * 0x1_0000 + self.base_lower as u32
    }
}

/// The global descriptor table of a flat memory model.
#[derive(Copy, Clone, Debug, PartialEq, Eq, Structural)]
pub struct GlobalDescriptorTable {
    pub null: Entry,
    pub kernel_code: Entry,
    pub kernel_data: Entry,
    pub kernel_stack: Entry,
    pub user_code: Entry,
    pub user_data: Entry,
    pub user_stack: Entry,
}

impl GlobalDescriptorTable {
    /// Every descriptor of the table is null.
    pub open spec fn is_clear(&self) -> bool {
        &&& self.null.encode() == 0
        &&& self.kernel_code.encode() == 0
        &&& self.kernel_data.encode() == 0
        &&& self.kernel_stack.encode() == 0
        &&& self.user_code.encode() == 0
        &&& self.user_data.encode() == 0
        &&& self.user_stack.encode() == 0
    }

    /// A table of null descriptors.
    pub fn new() -> (r: GlobalDescriptorTable)
        ensures
            r.is_clear(),
    {
        GlobalDescriptorTable {
            null: Entry::new(),
            kernel_code: Entry::new(),
            kernel_data: Entry::new(),
            kernel_stack: Entry::new(),
            user_code: Entry::new(),
            user_data: Entry::new(),
            user_stack: Entry::new(),
        }
    }

    /// Resets every descriptor to null.
    pub fn clear(&mut self)
        ensures
            final(self).is_clear(),
    {
        *self = Self::new();
    }

    /// The descriptor-table pointer for the table stored at `base`.
    pub fn as_ptr(&self, base: u32) -> (r: DescriptorTablePointer)
        ensures
            r.limit == GDT_ENTRIES * 8 - 1,
            r.base == base,
    {
        DescriptorTablePointer { limit: (GDT_ENTRIES * 8 - 1) as u16, base }
    }

    /// The descriptor at `index` (1 to 6; the null descriptor cannot be
    /// changed through this).
    pub fn entry_mut(&mut self, index: u16) -> (r: &mut Entry)
        requires
            1 <= index <= 6,
        ensures
            index == 1 ==> *r == old(self).kernel_code && *final(self) == (GlobalDescriptorTable { kernel_code: *final(r), ..*old(self) }),
            index == 2 ==> *r == old(self).kernel_data && *final(self) == (GlobalDescriptorTable { kernel_data: *final(r), ..*old(self) }),
            index == 3 ==> *r == old(self).kernel_stack && *final(self) == (GlobalDescriptorTable { kernel_stack: *final(r), ..*old(self) }),
            index == 4 ==> *r == old(self).user_code && *final(self) == (GlobalDescriptorTable { user_code: *final(r), ..*old(self) }),
            index == 5 ==> *r == old(self).user_data && *final(self) == (GlobalDescriptorTable { user_data: *final(r), ..*old(self) }),
            index == 6 ==> *r == old(self).user_stack && *final(self) == (GlobalDescriptorTable { user_stack: *final(r), ..*old(self) }),
    {
        match index {
            1 => &mut self.kernel_code,
            2 => &mut self.kernel_data,
            3 => &mut self.kernel_stack,
            4 => &mut self.user_code,
            5 => &mut self.user_data,
            _ => &mut self.user_stack,
        }
    }

    /// A flat-model segment in `ring`, executable for code.
    fn flat_segment(code: bool, ring: PrivilegeRings) -> (r: Entry)
        requires
            ring == PrivilegeRings::Ring0 || ring == PrivilegeRings::Ring3,
        ensures
            r.rd_base_spec() == 0,
            r.limit_lower == 0xFFFF,
            r.flags.0 == 0xCF,
            r.access.0 == (if code {
                0x9Au8
            } else {
                0x92u8
            }) + (if ring == PrivilegeRings::Ring3 {
                0x60u8
            } else {
                0u8
            }),
    {
        let mut e = Entry::flat();
        if code {
            e.access.wr_executable(true);
            proof {
                lemma_set_executable(e.access.0);
            }
        }
        let ghost y = e.access.0;
        e.access.wr_dpl(ring);
        proof {
            lemma_set_dpl(e.access.0, y, ring.spec_level());
        }
        e
    }

    /// The flat-model table: kernel code, data and stack segments in ring 0
    /// and user ones in ring 3, each spanning the whole 4 GiB.
    pub fn flat_model() -> (r: GlobalDescriptorTable)
        ensures
            r.null.encode() == 0,
            r.kernel_code.encode() == 0x00cf9a000000ffff,
            r.kernel_data.encode() == 0x00cf92000000ffff,
            r.kernel_stack.encode() == 0x00cf92000000ffff,
            r.user_code.encode() == 0x00cffa000000ffff,
            r.user_data.encode() == 0x00cff2000000ffff,
            r.user_stack.encode() == 0x00cff2000000ffff,
    {
        let mut gdt = GlobalDescriptorTable::new();
        gdt.kernel_code = Self::flat_segment(true, PrivilegeRings::Ring0);
        gdt.kernel_data = Self::flat_segment(false, PrivilegeRings::Ring0);
        gdt.kernel_stack = Self::flat_segment(false, PrivilegeRings::Ring0);
        gdt.user_code = Self::flat_segment(true, PrivilegeRings::Ring3);
        gdt.user_data = Self::flat_segment(false, PrivilegeRings::Ring3);
        gdt.user_stack = Self::flat_segment(false, PrivilegeRings::Ring3);
        gdt
    }
}

} // verus!
