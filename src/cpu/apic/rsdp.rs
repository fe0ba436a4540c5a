use vstd::prelude::*;
use super::{byte_sum, checksum};

verus! {

/// The text that bytes `b` encode in UTF-8, or `None` where they are not
/// valid UTF-8.
pub uninterp spec fn utf8_text(b: Seq<u8>) -> Option<Seq<char>>;

/// Relies on `core::str::from_utf8`: it returns the bytes as text when they
/// are valid UTF-8 and fails otherwise, depending on the bytes alone.
#[verifier::external_body]
fn decode_utf8(b: &[u8]) -> (r: Option<&str>)
    ensures
        match r {
            Some(t) => utf8_text(b@) == Some(t@),
            None => utf8_text(b@) is None,
        },
{
    core::str::from_utf8(b).ok()
}

/// The text to show for bytes whose decoding gave `decoded`: the text
/// itself, or "Invalid UTF-8" where they were not valid UTF-8.
pub fn text_or_invalid<'a>(decoded: Option<&'a str>) -> (r: &'a str)
    ensures
        decoded matches Some(t) ==> r@ == t@,
        decoded is None ==> r@ == "Invalid UTF-8"@,
{
    match decoded {
        Some(t) => t,
        None => "Invalid UTF-8",
    }
}

/// Errors of the RSDP check.
#[derive(Copy, Clone, Debug, PartialEq, Eq, Structural)]
pub enum Error {
    InvalidSignature,
    InvalidChecksum,
}

/// The signature that opens an RSDP: "RSD PTR ".
pub open spec fn rsdp_signature() -> Seq<u8> {
    seq![0x52u8, 0x53u8, 0x44u8, 0x20u8, 0x50u8, 0x54u8, 0x52u8, 0x20u8]
}

/// Size of the revision-0 RSDP, the part its first checksum covers.
pub const RSDP_V1_SIZE: usize = 20;

/// The root system description pointer.
#[derive(Copy, Clone, Debug, PartialEq, Eq)]
pub struct RSDP {
    pub signature: [u8; 8],
    pub checksum: u8,
    pub oem_id: [u8; 6],
    pub revision: u8,
    pub rsdt_address: u32,
    pub length: u32,
    pub xsdt_address: u64,
    pub extended_checksum: u8,
    pub reserved: [u8; 3],
}

impl RSDP {
    /// Bytes the checksum covers: 20 for revision 0, else `length`.
    pub open spec fn checked_size(&self) -> int {
        if self.revision == 0 {
            RSDP_V1_SIZE as int
        } else {
            self.length as int
        }
    }

    /// Checks the RSDP whose bytes are `bytes`: the signature must read
    /// "RSD PTR " and the covered bytes must sum to 0 modulo 256.
    pub fn validate(&self, bytes: &[u8]) -> (r: Result<(), Error>)
        requires
            self.checked_size() <= bytes@.len(),
        ensures
            self.signature@ != rsdp_signature() ==> r == Err::<(), Error>(Error::InvalidSignature),
            self.signature@ == rsdp_signature() && byte_sum(bytes@.subrange(0, self.checked_size())) % 256 != 0
                ==> r == Err::<(), Error>(Error::InvalidChecksum),
            self.signature@ == rsdp_signature() && byte_sum(bytes@.subrange(0, self.checked_size())) % 256 == 0
                ==> r is Ok,
    {
        let expected: [u8; 8] = [0x52, 0x53, 0x44, 0x20, 0x50, 0x54, 0x52, 0x20];
        let mut i: usize = 0;
        while i < 8
            invariant
                i <= 8,
                expected@ == rsdp_signature(),
                forall|j: int| 0 <= j < i ==> self.signature@[j] == rsdp_signature()[j],
            decreases 8 - i,
        {
            if self.signature[i] != expected[i] {
                return Err(Error::InvalidSignature);
            }
            i = i + 1;
        }
        assert(self.signature@ =~= rsdp_signature());
        let size: usize = if self.revision == 0 {
            RSDP_V1_SIZE
        } else {
            self.length as usize
        };
        if checksum(bytes, size) != 0 {
            return Err(Error::InvalidChecksum);
        }
        Ok(())
    }

    /// The signature as text ("Invalid UTF-8" where it is not UTF-8).
    pub fn get_signature(&self) -> (r: &str)
        ensures
            utf8_text(self.signature@) matches Some(t) ==> r@ == t,
            utf8_text(self.signature@) is None ==> r@ == "Invalid UTF-8"@,
    {
        text_or_invalid(decode_utf8(&self.signature))
    }

    /// The OEM id as text ("Invalid UTF-8" where it is not UTF-8).
    pub fn get_oem_id(&self) -> (r: &str)
        ensures
            utf8_text(self.oem_id@) matches Some(t) ==> r@ == t,
            utf8_text(self.oem_id@) is None ==> r@ == "Invalid UTF-8"@,
    {
        text_or_invalid(decode_utf8(&self.oem_id))
    }

    /// Physical address of the RSDT.
    pub fn get_rsdt(&self) -> (r: u32)
        ensures
            r == self.rsdt_address,
    {
        self.rsdt_address
    }
}

} // verus!
