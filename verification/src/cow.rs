//! The copy-on-write layer: what a supervisor answers to filesystem calls.

pub mod deletions;
pub mod open;
pub mod opening;
pub mod paths;
pub mod promises;
pub mod read;
pub mod reading;
pub mod showing;
pub mod walk;
pub mod write;
pub mod writing;

use vstd::prelude::*;

verus! {

/// What a supervisor answers to a call.
#[derive(Clone, Copy, Debug, PartialEq, Eq, Structural)]
pub enum Reply {
    /// The kernel runs the call.
    Continue,
    /// The call fails.
    Errno(i32),
    /// The call returns a value.
    Value(i64),
}

} // verus!
