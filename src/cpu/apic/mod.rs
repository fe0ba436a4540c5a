use vstd::prelude::*;

pub mod madt;
pub mod rsdp;
pub mod rsdt;

verus! {

/// Sum of the bytes of `s`.
pub open spec fn byte_sum(s: Seq<u8>) -> int
    decreases s.len(),
{
    if s.len() == 0 {
        0
    } else {
        byte_sum(s.drop_last()) + s.last() as int
    }
}

/// The 8-bit checksum of the first `n` bytes of `bytes`: their sum modulo
/// 256. An ACPI table is intact when this is 0 over its whole length.
pub fn checksum(bytes: &[u8], n: usize) -> (r: u8)
    requires
        n <= bytes@.len(),
    ensures
        r == byte_sum(bytes@.subrange(0, n as int)) % 256,
{
    let mut sum: u8 = 0;
    let mut i: usize = 0;
    while i < n
        invariant
            i <= n <= bytes@.len(),
            sum == byte_sum(bytes@.subrange(0, i as int)) % 256,
        decreases n - i,
    {
        proof {
            assert(bytes@.subrange(0, i + 1).drop_last() =~= bytes@.subrange(0, i as int));
        }
        sum = ((sum as u16 + bytes[i] as u16) % 256) as u8;
        i = i + 1;
    }
    sum
}

/// Errors of system-description-table checks.
#[derive(Copy, Clone, Debug, PartialEq, Eq, Structural)]
pub enum SDTError {
    InvalidSignature,
    InvalidChecksum,
}

/// A system description table, known by its four-byte signature.
pub trait SDT {
    fn signature() -> [u8; 4];
}

/// The header shared by the ACPI system description tables.
#[derive(Copy, Clone, Debug, PartialEq, Eq)]
pub struct SDTHeader {
    pub signature: [u8; 4],
    pub length: u32,
    pub revision: u8,
    pub checksum: u8,
    pub oem_id: [u8; 6],
    pub oem_table_id: [u8; 8],
    pub oem_revision: u32,
    pub creator_id: u32,
    pub creator_revision: u32,
}

/// Size of an `SDTHeader` in bytes.
pub const SDT_HEADER_SIZE: usize = 36;

impl SDTHeader {
    /// Checks the table whose bytes are `table` (starting with this
    /// header): its first `length` bytes must sum to 0 modulo 256.
    pub fn validate(&self, table: &[u8]) -> (r: Result<(), SDTError>)
        requires
            self.length <= table@.len(),
        ensures
            r is Ok <==> byte_sum(table@.subrange(0, self.length as int)) % 256 == 0,
            r is Err ==> r == Err::<(), SDTError>(SDTError::InvalidChecksum),
    {
        if checksum(table, self.length as usize) != 0 {
            return Err(SDTError::InvalidChecksum);
        }
        Ok(())
    }

    /// Whether the header's signature is `sig`.
    pub fn has_signature(&self, sig: [u8; 4]) -> (r: bool)
        ensures
            r == (self.signature@ == sig@),
    {
        let ok = self.signature[0] == sig[0] && self.signature[1] == sig[1] && self.signature[2]
            == sig[2] && self.signature[3] == sig[3];
        proof {
            if ok {
                assert(self.signature@ =~= sig@);
            }
        }
        ok
    }

    /// Checks that the table is of kind `sig` and then its checksum.
    pub fn validate_as(&self, sig: [u8; 4], table: &[u8]) -> (r: Result<(), SDTError>)
        requires
            self.length <= table@.len(),
        ensures
            self.signature@ != sig@ ==> r == Err::<(), SDTError>(SDTError::InvalidSignature),
            self.signature@ == sig@ ==> (r is Ok <==> byte_sum(table@.subrange(0, self.length as int))
                % 256 == 0),
            self.signature@ == sig@ && r is Err ==> r == Err::<(), SDTError>(SDTError::InvalidChecksum),
    {
        if !self.has_signature(sig) {
            return Err(SDTError::InvalidSignature);
        }
        self.validate(table)
    }
}

/// The I/O APIC base address and the local APIC id to use: the usual I/O
/// APIC address and the boot processor.
pub fn parse_acpi_madt() -> (r: Option<(usize, u8)>)
    ensures
        r == Some((0xFEC0_0000usize, 0u8)),
{
    Some((0xFEC0_0000usize, 0u8))
}

} // verus!
