//! The codes with which the kernel leaves the emulator.

use vstd::prelude::*;

verus! {

/// How a run ended. The codes are chosen so that none of them collides
/// with a code of the emulator's own.
#[derive(Debug, Clone, Copy, PartialEq, Eq, Structural)]
pub enum QemuExitCode {
    /// Every test passed.
    Success,
    /// A test failed.
    Failed,
}

impl QemuExitCode {
    /// The number that stands for the code.
    pub open spec fn code_spec(self) -> u32 {
        match self {
            QemuExitCode::Success => 0x10,
            QemuExitCode::Failed => 0x11,
        }
    }

    /// The number to write to the exit port of the emulator.
    #[verifier::when_used_as_spec(code_spec)]
    pub fn code(self) -> (code: u32)
        ensures
            code == self.code_spec(),
    {
        match self {
            QemuExitCode::Success => 0x10,
            QemuExitCode::Failed => 0x11,
        }
    }
}

} // verus!
