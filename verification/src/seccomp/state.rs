//! The state that the supervisor keeps of a sandbox, one part for each concern.

use crate::branch::BranchStorage;
use std::collections::HashMap;
use std::collections::HashSet;
use vstd::prelude::*;

verus! {

broadcast use vstd::std_specs::hash::group_hash_axioms;

/// What processes and memory are used of what there is.
#[derive(Debug)]
pub struct ResourceState {
    /// The processes that live: each reserved room that was not given back.
    pub proc_count: u32,
    /// The forks that hold room.
    pub process_slots: HashSet<u64>,
    /// The most processes that lived at a time.
    pub peak_proc_count: u32,
    pub max_processes: u32,
    /// How many forks were refused for want of room.
    pub process_limit_denials: u64,
    /// The memory that is used, in bytes.
    pub mem_used: u64,
    pub peak_mem_used: u64,
    pub max_memory_bytes: u64,
    /// Whether forks are held back.
    pub hold_forks: bool,
    /// The forks that are held back.
    pub held_notif_ids: Vec<u64>,
}

impl ResourceState {
    /// Nothing is used yet; the first process always exists.
    pub fn new(max_memory_bytes: u64, max_processes: u32) -> (state: ResourceState)
        ensures
            state.proc_count == 0,
            state.process_slots@ == Set::<u64>::empty(),
            state.peak_proc_count == 1,
            state.max_processes == max_processes,
            state.process_limit_denials == 0,
            state.mem_used == 0,
            state.peak_mem_used == 0,
            state.max_memory_bytes == max_memory_bytes,
            !state.hold_forks,
            state.held_notif_ids@.len() == 0,
    {
        ResourceState {
            proc_count: 0,
            process_slots: HashSet::new(),
            peak_proc_count: 1,
            max_processes,
            process_limit_denials: 0,
            mem_used: 0,
            peak_mem_used: 0,
            max_memory_bytes,
            hold_forks: false,
            held_notif_ids: Vec::new(),
        }
    }
}

/// What is changed in the process filesystem.
#[derive(Clone, Copy, Debug, PartialEq, Eq, Structural)]
pub struct ProcfsState {
    /// Where the last patched clock page lies; zero where none was patched.
    pub vdso_patched_addr: u64,
}

impl ProcfsState {
    /// Nothing was patched yet.
    pub fn new() -> (state: ProcfsState)
        ensures
            state.vdso_patched_addr == 0,
    {
        ProcfsState { vdso_patched_addr: 0 }
    }
}

/// What is kept of a changed root: nothing of its own, since each process has its
/// own image.
#[derive(Clone, Copy, Debug, PartialEq, Eq, Structural)]
pub struct ChrootState;

impl ChrootState {
    /// The state of a changed root.
    pub fn new() -> (state: ChrootState)
        ensures
            state == ChrootState,
    {
        ChrootState
    }
}

/// The records of a directory that are still to be handed out.
#[derive(Debug)]
pub struct DirectoryRecords {
    /// The directory that they are of.
    pub target: Vec<u8>,
    pub left: Vec<Vec<u8>>,
}

/// The records of a directory of the process filesystem that are still to be
/// handed out.
#[derive(Debug)]
pub struct ProcfsRecords {
    pub fd: u32,
    pub records: DirectoryRecords,
}

/// What is kept of one process.
#[derive(Debug)]
pub struct PerProcessState {
    /// The directory, while it exists in the upper layer only.
    pub virtual_cwd: Option<Vec<u8>>,
    /// Where the heap begins; nothing before its first change.
    pub brk_base: Option<u64>,
    /// The memory that the address space is charged for.
    pub mem_charged: u64,
    /// The directories that are being listed, by descriptor.
    pub cow_dir_cache: HashMap<u32, DirectoryRecords>,
    /// The directories of the process filesystem that are being listed.
    pub procfs_dir_cache: Vec<ProcfsRecords>,
}

impl Default for PerProcessState {
    fn default() -> (state: PerProcessState)
        ensures
            state.virtual_cwd is None,
            state.brk_base is None,
            state.mem_charged == 0,
            state.cow_dir_cache@ == Map::<u32, DirectoryRecords>::empty(),
            state.procfs_dir_cache@.len() == 0,
    {
        PerProcessState {
            virtual_cwd: None,
            brk_base: None,
            mem_charged: 0,
            cow_dir_cache: HashMap::new(),
            procfs_dir_cache: Vec::new(),
        }
    }
}

/// The copy-on-write storage of a sandbox.
#[derive(Debug)]
pub struct CowState {
    /// The storage; nothing where there is none.
    pub branch: Option<BranchStorage>,
}

impl CowState {
    /// There is no storage.
    pub fn new() -> (state: CowState)
        ensures
            state.branch is None,
    {
        CowState { branch: None }
    }
}

/// Declares `rand_chacha::ChaCha8Rng`, the generator of numbers from a seed. Its
/// state stays closed: it is only carried.
#[verifier::external_type_specification]
#[verifier::external_body]
pub struct DeclaredChaCha8Rng(rand_chacha::ChaCha8Rng);

/// The clock and the numbers of a command that is to run the same each time.
pub struct TimeRandomState {
    /// How far the clock is moved.
    pub time_offset: Option<i64>,
    /// The generator, where the numbers are to be the same each time.
    pub random_state: Option<rand_chacha::ChaCha8Rng>,
}

impl TimeRandomState {
    /// The clock and the numbers of a command.
    pub fn new(time_offset: Option<i64>, random_state: Option<rand_chacha::ChaCha8Rng>) -> (state: TimeRandomState)
        ensures
            state.time_offset == time_offset,
            state.random_state == random_state,
    {
        TimeRandomState { time_offset, random_state }
    }
}

} // verus!
