use vstd::prelude::*;
use super::{SDTHeader, SDTError, SDT, byte_sum};

verus! {

/// The multiple APIC description table: a header, the local APIC address
/// and flags, then variable-length entries.
#[derive(Copy, Clone, Debug, PartialEq, Eq)]
pub struct MADT {
    pub hdr: SDTHeader,
    pub local_address: u32,
    pub flags: u32,
}

impl SDT for MADT {
    fn signature() -> [u8; 4] {
        [0x41, 0x50, 0x49, 0x43]
    }
}

/// Entry-type value that matches every entry when walking the table.
pub const ANY_ENTRY: u8 = 0xff;

/// The two bytes that open every MADT entry.
#[derive(Copy, Clone, Debug, PartialEq, Eq, Structural)]
pub struct EntryHeader {
    pub entry_type: u8,
    pub length: u8,
}

/// Walking the entries in `bytes` from offset `c` for the next one of
/// `kind` (or any, for `ANY_ENTRY`): its offset, if there is one, and the
/// offset just past it (at most the end of `bytes`). The walk stops at an
/// entry whose header does not fit or whose length is 0.
pub open spec fn next_entry(bytes: Seq<u8>, c: int, kind: u8) -> (Option<int>, int)
    decreases bytes.len() - c,
{
    if c < 0 || c + 2 > bytes.len() || bytes[c + 1] == 0 {
        (None, c)
    } else {
        let next = if c + bytes[c + 1] as int > bytes.len() {
            bytes.len() as int
        } else {
            c + bytes[c + 1] as int
        };
        if kind == ANY_ENTRY || bytes[c] == kind {
            (Some(c), next)
        } else {
            next_entry(bytes, next, kind)
        }
    }
}

/// A walk over the entries of a MADT that yields those of one kind.
pub struct MADTIterator {
    bytes: Vec<u8>,
    c: usize,
    kind: u8,
}

impl MADTIterator {
    pub closed spec fn spec_bytes(&self) -> Seq<u8> {
        self.bytes@
    }

    pub closed spec fn spec_pos(&self) -> int {
        self.c as int
    }

    pub closed spec fn spec_kind(&self) -> u8 {
        self.kind
    }

    /// The header of the next entry of the walk's kind, advancing past it.
    pub fn next(&mut self) -> (r: Option<EntryHeader>)
        ensures
            final(self).spec_bytes() == old(self).spec_bytes(),
            final(self).spec_kind() == old(self).spec_kind(),
            ({
                let (off, pos) = next_entry(old(self).spec_bytes(), old(self).spec_pos(), old(self).spec_kind());
                &&& final(self).spec_pos() == pos
                &&& (off matches Some(o) ==> r == Some(EntryHeader {
                    entry_type: old(self).spec_bytes()[o],
                    length: old(self).spec_bytes()[o + 1],
                }))
                &&& (off is None ==> r is None)
            }),
    {
        let n = self.bytes.len();
        while self.c < n && n - self.c >= 2 && self.bytes[self.c + 1] != 0
            invariant
                n == self.bytes@.len(),
                self.bytes@ == old(self).bytes@,
                self.kind == old(self).kind,
                next_entry(self.bytes@, self.c as int, self.kind) == next_entry(
                    old(self).bytes@,
                    old(self).c as int,
                    old(self).kind,
                ),
            decreases n - self.c,
        {
            let t = self.bytes[self.c];
            let len = self.bytes[self.c + 1];
            if len as usize > n - self.c {
                self.c = n;
            } else {
                self.c = self.c + len as usize;
            }
            if self.kind == ANY_ENTRY || t == self.kind {
                return Some(EntryHeader { entry_type: t, length: len });
            }
        }
        None
    }
}

impl MADT {
    /// Checks the table whose bytes are `table`: signature "APIC", then the
    /// checksum.
    pub fn validate(&self, table: &[u8]) -> (r: Result<(), SDTError>)
        requires
            self.hdr.length <= table@.len(),
        ensures
            self.hdr.signature@ != seq![0x41u8, 0x50u8, 0x49u8, 0x43u8] ==> r == Err::<(), SDTError>(SDTError::InvalidSignature),
            self.hdr.signature@ == seq![0x41u8, 0x50u8, 0x49u8, 0x43u8] ==> (r is Ok <==> byte_sum(
                table@.subrange(0, self.hdr.length as int),
            ) % 256 == 0),
    {
        let sig: [u8; 4] = [0x41, 0x50, 0x49, 0x43];
        assert(sig@ =~= seq![0x41u8, 0x50u8, 0x49u8, 0x43u8]);
        self.hdr.validate_as(sig, table)
    }

    /// A walk over `entries`, the bytes that follow the fixed part of the
    /// table, yielding the entries of `kind`.
    pub fn iter(&self, entries: &[u8], kind: u8) -> (r: MADTIterator)
        ensures
            r.spec_bytes() == entries@,
            r.spec_pos() == 0,
            r.spec_kind() == kind,
    {
        let mut bytes: Vec<u8> = Vec::new();
        let mut i: usize = 0;
        while i < entries.len()
            invariant
                i <= entries@.len(),
                bytes@ == entries@.subrange(0, i as int),
            decreases entries@.len() - i,
        {
            bytes.push(entries[i]);
            i = i + 1;
        }
        assert(bytes@ =~= entries@);
        MADTIterator { bytes, c: 0, kind }
    }
}

/// A processor's local APIC (entry type 0).
#[derive(Copy, Clone, Debug, PartialEq, Eq, Structural)]
pub struct LocalApic {
    pub entry_type: u8,
    pub length: u8,
    pub processor_id: u8,
    pub apic_id: u8,
    pub flags: u32,
}

/// An I/O APIC (entry type 1).
#[derive(Copy, Clone, Debug, PartialEq, Eq, Structural)]
pub struct IOApic {
    pub entry_type: u8,
    pub length: u8,
    pub io_apic_id: u8,
    pub reserved: u8,
    pub io_apic_address: u32,
    pub global_system_interrupt_base: u32,
}

/// An interrupt source override (entry type 2).
#[derive(Copy, Clone, Debug, PartialEq, Eq, Structural)]
pub struct IOApicISO {
    pub entry_type: u8,
    pub length: u8,
    pub bus_source: u8,
    pub irq_source: u8,
    pub global_system_interrupt: u32,
    pub flags: u16,
}

/// A non-maskable interrupt source of an I/O APIC (entry type 3).
#[derive(Copy, Clone, Debug, PartialEq, Eq, Structural)]
pub struct IOApicNMI {
    pub entry_type: u8,
    pub length: u8,
    pub nmi_source: u8,
    pub reserved: u8,
    pub flags: u16,
    pub global_system_interrupt: u32,
}

/// A local APIC non-maskable interrupt (entry type 4).
#[derive(Copy, Clone, Debug, PartialEq, Eq, Structural)]
pub struct LocalApicNMI {
    pub entry_type: u8,
    pub length: u8,
    pub processor_id: u8,
    pub flags: u16,
    pub lint: u8,
}

/// A 64-bit local APIC address override (entry type 5).
#[derive(Copy, Clone, Debug, PartialEq, Eq, Structural)]
pub struct LocalApicOverride {
    pub entry_type: u8,
    pub length: u8,
    pub reserved: u16,
    pub local_apic_address: u64,
}

/// A processor's local x2APIC (entry type 9).
#[derive(Copy, Clone, Debug, PartialEq, Eq, Structural)]
pub struct Local2Apic {
    pub entry_type: u8,
    pub length: u8,
    pub reserved: u16,
    pub processor_local_2apic_id: u32,
    pub flags: u32,
    pub acpi_id: u32,
}

} // verus!
