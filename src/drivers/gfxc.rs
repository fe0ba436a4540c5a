use vstd::prelude::*;

verus! {

/// Address port of the graphics controller.
pub const AR_PORT: u16 = 0x3CE;

/// Data port of the graphics controller.
pub const DR_PORT: u16 = 0x3CF;

/// Indexes of the graphics controller registers, in register order.
#[derive(Copy, Clone, Debug, PartialEq, Eq, Structural)]
pub enum Indexes {
    SrValue,
    SrEnable,
    CompareValue,
    DataRotate,
    PlaneRead,
    Mode,
    Misc,
    CompareMask,
    BitMask,
}

} // verus!
