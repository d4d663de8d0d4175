//! Exit codes the runtime reports to the QEMU debug exit device. Writing the
//! code to the device's I/O port is port I/O and lives outside this library.

use vstd::prelude::*;

verus! {

/// How a run under QEMU ended.
#[derive(Debug, Clone, Copy, PartialEq, Eq, Structural)]
pub enum QemuExitCode {
    Success,
    Fail,
}

impl QemuExitCode {
    /// The byte written to the debug exit device's port for this outcome.
    pub fn code(&self) -> (r: u8)
        ensures
            *self == QemuExitCode::Success ==> r == 1,
            *self == QemuExitCode::Fail ==> r == 2,
    {
        match self {
            QemuExitCode::Success => 1,
            QemuExitCode::Fail => 2,
        }
    }
}

} // verus!
