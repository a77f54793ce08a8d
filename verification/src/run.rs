//! How a sandboxed command ended.

use vstd::prelude::*;

verus! {

/// How a command ended.
#[derive(Clone, Copy, Debug, PartialEq, Eq, Structural)]
pub enum ExitStatus {
    Code(i32),
    Signal(i32),
    Killed,
    Timeout,
}

/// The result of a command.
#[derive(Debug)]
pub struct RunResult {
    pub exit_status: ExitStatus,
    pub stdout: Option<Vec<u8>>,
    pub stderr: Option<Vec<u8>>,
}

} // verus!
