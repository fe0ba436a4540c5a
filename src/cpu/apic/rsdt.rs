use vstd::prelude::*;
use super::{SDTHeader, SDTError, SDT, SDT_HEADER_SIZE, byte_sum};

verus! {

/// The little-endian 32-bit value at `off` in `s`.
pub open spec fn le_u32(s: Seq<u8>, off: int) -> int {
    s[off] as int + s[off + 1] as int * 0x100 + s[off + 2] as int * 0x1_0000 + s[off + 3] as int
        * 0x100_0000
}

/// The root system description table: a header followed by the 32-bit
/// physical addresses of the other tables.
#[derive(Copy, Clone, Debug, PartialEq, Eq)]
pub struct RSDT {
    pub hdr: SDTHeader,
}

impl SDT for RSDT {
    fn signature() -> [u8; 4] {
        [0x52, 0x53, 0x44, 0x54]
    }
}

impl RSDT {
    /// Checks the table whose bytes are `table`: signature "RSDT", then the
    /// checksum.
    pub fn validate(&self, table: &[u8]) -> (r: Result<(), SDTError>)
        requires
            self.hdr.length <= table@.len(),
        ensures
            self.hdr.signature@ != seq![0x52u8, 0x53u8, 0x44u8, 0x54u8] ==> r == Err::<(), SDTError>(SDTError::InvalidSignature),
            self.hdr.signature@ == seq![0x52u8, 0x53u8, 0x44u8, 0x54u8] ==> (r is Ok <==> byte_sum(
                table@.subrange(0, self.hdr.length as int),
            ) % 256 == 0),
    {
        let sig: [u8; 4] = [0x52, 0x53, 0x44, 0x54];
        assert(sig@ =~= seq![0x52u8, 0x53u8, 0x44u8, 0x54u8]);
        self.hdr.validate_as(sig, table)
    }

    /// Number of table addresses that follow the header.
    pub open spec fn entry_count(&self) -> int {
        (self.hdr.length as int - SDT_HEADER_SIZE as int) / 4
    }

    /// The addresses of the other tables, read from `body`, the bytes that
    /// follow the header.
    pub fn entries(&self, body: &[u8]) -> (r: Vec<u32>)
        requires
            self.hdr.length >= SDT_HEADER_SIZE,
            self.entry_count() * 4 <= body@.len(),
        ensures
            r@.len() == self.entry_count(),
            forall|i: int| 0 <= i < r@.len() ==> r@[i] as int == le_u32(body@, 4 * i),
    {
        let count = ((self.hdr.length as usize) - SDT_HEADER_SIZE) / 4;
        let mut r: Vec<u32> = Vec::new();
        let mut i: usize = 0;
        while i < count
            invariant
                i <= count,
                count == self.entry_count(),
                count * 4 <= body@.len(),
                r@.len() == i,
                forall|j: int| 0 <= j < i ==> r@[j] as int == le_u32(body@, 4 * j),
            decreases count - i,
        {
            let off = 4 * i;
            let v = body[off] as u32 + body[off + 1] as u32 * 0x100 + body[off + 2] as u32 * 0x1_0000
                + body[off + 3] as u32 * 0x100_0000;
            r.push(v);
            i = i + 1;
        }
        r
    }
}

} // verus!
