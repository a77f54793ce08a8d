//! Supervised system calls: what a notification holds, and the state that the
//! supervisor keeps.

pub mod denied;
pub mod network;
pub mod notif_metadata;
pub mod process_index;
pub mod read_devices;
pub mod state;

use vstd::prelude::*;

verus! {

/// The registers that a notification tells.
#[derive(Clone, Copy, Debug)]
pub struct SeccompData {
    pub nr: i32,
    pub arch: u32,
    pub instruction_pointer: u64,
    pub args: [u64; 6],
}

/// A notification of a system call.
#[derive(Clone, Copy, Debug)]
pub struct SeccompNotif {
    pub id: u64,
    pub pid: u32,
    pub flags: u32,
    pub data: SeccompData,
}

} // verus!
