use vstd::prelude::*;

verus! {

/// Address port of the CRT controller.
pub const AR_PORT: u16 = 0x3D4;

/// Data port of the CRT controller.
pub const DR_PORT: u16 = 0x3D5;

/// Indexes of the CRT controller registers, in register order.
#[derive(Copy, Clone, Debug, PartialEq, Eq, Structural)]
pub enum Indexes {
    HTotal,
    HDisp,
    HBlankStart,
    HBlankEnd,
    HSyncStart,
    HSyncEnd,
    VTotal,
    Overflow,
    PresetRow,
    MaxScan,
    CursorStart,
    CursorEnd,
    StartHi,
    StartLo,
    CursorHi,
    CursorLo,
    VSyncStart,
    VSyncEnd,
    VDispEnd,
    Offset,
    Underline,
    VBlankStart,
    VBlankEnd,
    Mode,
    LineCompare,
}

} // verus!
