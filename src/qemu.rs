use vstd::prelude::*;

verus! {

/// I/O port of QEMU's exit device.
pub const EXIT_IO_PORT: u16 = 0xf4;

/// Exit statuses reported to QEMU's exit device.
#[derive(Copy, Clone, Debug, PartialEq, Eq, Structural)]
pub enum QemuExitCode {
    Success,
    Failed,
}

impl QemuExitCode {
    /// The value written to the exit port.
    pub fn code(&self) -> (r: u32)
        ensures
            *self == QemuExitCode::Success ==> r == 0x10,
            *self == QemuExitCode::Failed ==> r == 0x11,
    {
        match self {
            QemuExitCode::Success => 0x10,
            QemuExitCode::Failed => 0x11,
        }
    }
}

} // verus!
