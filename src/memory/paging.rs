use vstd::prelude::*;
use crate::registers::{bit_set, test_bit, CR0, CR4, IA32EFER};

verus! {

/// The paging modes of an x86 processor.
#[derive(Copy, Clone, Debug, PartialEq, Eq, Structural)]
pub enum PagingModes {
    Disabled,
    X86Bits,
    PAE,
    FourLevel,
    FiveLevel,
}

/// The paging mode that the raw values of CR0, CR4 and IA32_EFER select:
/// paging off or an unsupported flag combination gives `Disabled`.
pub fn current_paging_mode(cr0: u64, cr4: u64, efer: u64) -> (r: PagingModes)
    ensures
        r == (if !bit_set(cr0, 31) {
            PagingModes::Disabled
        } else if !bit_set(cr4, 5) {
            if !bit_set(efer, 8) && !bit_set(cr4, 12) {
                PagingModes::X86Bits
            } else {
                PagingModes::Disabled
            }
        } else if !bit_set(efer, 8) {
            if !bit_set(cr4, 12) {
                PagingModes::PAE
            } else {
                PagingModes::Disabled
            }
        } else if !bit_set(cr4, 12) {
            PagingModes::FourLevel
        } else {
            PagingModes::FiveLevel
        }),
{
    let pg = test_bit(cr0, CR0::PG);
    let pae = test_bit(cr4, CR4::PAE);
    let lme = test_bit(efer, IA32EFER::LME);
    let la57 = test_bit(cr4, CR4::LA57);
    match (pg, pae, lme, la57) {
        (true, false, false, false) => PagingModes::X86Bits,
        (true, true, false, false) => PagingModes::PAE,
        (true, true, true, false) => PagingModes::FourLevel,
        (true, true, true, true) => PagingModes::FiveLevel,
        _ => PagingModes::Disabled,
    }
}

} // verus!
