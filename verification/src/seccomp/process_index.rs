//! The processes that are followed, and what is kept of each.
//!
//! Numbers of processes are used again, so each process is known by its number
//! and its start time. Threads of one process share its directory and its
//! executable image; a forked process starts with copies.

use crate::path;
use crate::path::{copy_bytes, same_path};
use std::sync::Arc;
use vstd::prelude::*;

verus! {

/// The stable identity of a process: its number, and when it was started.
#[derive(Clone, Copy, Debug, PartialEq, Eq, Hash, Structural)]
pub struct PidKey {
    pub pid: i32,
    pub start_time: u64,
}

/// What the kernel tells of an executable image.
#[derive(Debug)]
pub struct ExecutableImage {
    pub device: u64,
    pub inode: u64,
    pub kernel_path: Vec<u8>,
}

/// An executable image, with the path that it is shown under.
#[derive(Debug)]
pub struct ExecutableRecord {
    pub virtual_path: Vec<u8>,
    pub device: u64,
    pub inode: u64,
    pub kernel_path: Vec<u8>,
}

/// What an image is.
#[verifier::ext_equal]
pub struct ImageView {
    pub device: u64,
    pub inode: u64,
    pub kernel_path: Seq<u8>,
}

/// What a record says.
#[verifier::ext_equal]
pub struct RecordView {
    pub virtual_path: Seq<u8>,
    pub device: u64,
    pub inode: u64,
    pub kernel_path: Seq<u8>,
}

impl View for ExecutableImage {
    type V = ImageView;

    open spec fn view(&self) -> ImageView {
        ImageView { device: self.device, inode: self.inode, kernel_path: self.kernel_path@ }
    }
}

impl View for ExecutableRecord {
    type V = RecordView;

    open spec fn view(&self) -> RecordView {
        RecordView {
            virtual_path: self.virtual_path@,
            device: self.device,
            inode: self.inode,
            kernel_path: self.kernel_path@,
        }
    }
}

/// The executable of a process: the one that it runs, and the one that it was
/// about to run.
#[derive(Debug)]
pub struct ExecutableState {
    pub current: Option<ExecutableRecord>,
    pub pending: Option<ExecutableRecord>,
}

/// What is known of the executable of a process.
#[verifier::ext_equal]
pub struct ExecutableView {
    pub current: Option<RecordView>,
    pub pending: Option<RecordView>,
}

/// A record that may not be there.
pub open spec fn optional_record(record: Option<ExecutableRecord>) -> Option<RecordView> {
    match record {
        Some(known) => Some(known@),
        None => None,
    }
}

/// An image that may not be known.
pub open spec fn optional_image(image: Option<ExecutableImage>) -> Option<ImageView> {
    match image {
        Some(known) => Some(known@),
        None => None,
    }
}

impl View for ExecutableState {
    type V = ExecutableView;

    open spec fn view(&self) -> ExecutableView {
        ExecutableView { current: optional_record(self.current), pending: optional_record(self.pending) }
    }
}

/// No executable is known.
pub open spec fn no_executable() -> ExecutableView {
    ExecutableView { current: None, pending: None }
}

/// Whether a record is of an image.
pub open spec fn is_record_of(record: RecordView, image: Option<ImageView>) -> bool {
    match image {
        Some(known) => record.device == known.device && record.inode == known.inode && path::parts(record.kernel_path)
            == path::parts(known.kernel_path),
        None => false,
    }
}

/// What is known of an executable once the running image was looked at: the one
/// that was about to run counts where it runs, and a record of another image is
/// dropped.
pub open spec fn resolved(state: ExecutableView, image: Option<ImageView>) -> ExecutableView {
    let promoted = match state.pending {
        Some(pending) => if is_record_of(pending, image) {
            Some(pending)
        } else {
            state.current
        },
        None => state.current,
    };
    ExecutableView {
        current: match promoted {
            Some(record) => if is_record_of(record, image) {
                Some(record)
            } else {
                None
            },
            None => None,
        },
        pending: None,
    }
}

fn copy_record(record: &Option<ExecutableRecord>) -> (copy: Option<ExecutableRecord>)
    ensures
        optional_record(copy) == optional_record(*record),
{
    match record {
        Some(known) => Some(
            ExecutableRecord {
                virtual_path: copy_bytes(known.virtual_path.as_slice()),
                device: known.device,
                inode: known.inode,
                kernel_path: copy_bytes(known.kernel_path.as_slice()),
            },
        ),
        None => None,
    }
}

fn executable_record_matches(record: &ExecutableRecord, image: &Option<ExecutableImage>) -> (result: bool)
    ensures
        result == is_record_of(record@, optional_image(*image)),
{
    match image {
        Some(known) => record.device == known.device && record.inode == known.inode && same_path(
            record.kernel_path.as_slice(),
            known.kernel_path.as_slice(),
        ),
        None => false,
    }
}

impl ExecutableState {
    /// The same state again.
    pub fn copy(&self) -> (copy: ExecutableState)
        ensures
            copy@ == self@,
    {
        ExecutableState { current: copy_record(&self.current), pending: copy_record(&self.pending) }
    }

    /// What is known once the running image was looked at.
    pub fn resolve(&self, image: &Option<ExecutableImage>) -> (next: ExecutableState)
        ensures
            next@ == resolved(self@, optional_image(*image)),
    {
        match &self.pending {
            Some(pending) => {
                if executable_record_matches(pending, image) {
                    return ExecutableState { current: copy_record(&self.pending), pending: None };
                }
            },
            None => {},
        }
        match &self.current {
            Some(current) => {
                if executable_record_matches(current, image) {
                    return ExecutableState { current: copy_record(&self.current), pending: None };
                }
            },
            None => {},
        }
        ExecutableState { current: None, pending: None }
    }
}

/// What is kept of a process. The directory and the executable are those of its
/// group: the threads that share them.
#[derive(Debug)]
struct ProcessEntry<S> {
    key: PidKey,
    tgid: i32,
    state: Arc<S>,
    cwd_group: u64,
    cwd: Option<Vec<u8>>,
    executable_group: u64,
    executable: ExecutableState,
    process_slot: Option<u64>,
}

/// What is kept of a process.
#[verifier::ext_equal]
pub struct EntryView<S> {
    pub key: PidKey,
    /// The leader of its thread group.
    pub tgid: i32,
    pub state: S,
    pub cwd_group: u64,
    /// Where it believes to be; nothing where the kernel is to be asked.
    pub cwd: Option<Seq<u8>>,
    pub executable_group: u64,
    pub executable: ExecutableView,
    /// The room in the process quota that it holds.
    pub process_slot: Option<u64>,
}

/// Bytes that may not be there.
pub open spec fn optional_bytes(bytes: Option<Vec<u8>>) -> Option<Seq<u8>> {
    match bytes {
        Some(known) => Some(known@),
        None => None,
    }
}

fn copy_optional(bytes: &Option<Vec<u8>>) -> (copy: Option<Vec<u8>>)
    ensures
        optional_bytes(copy) == optional_bytes(*bytes),
{
    match bytes {
        Some(known) => Some(copy_bytes(known.as_slice())),
        None => None,
    }
}

impl<S> View for ProcessEntry<S> {
    type V = EntryView<S>;

    closed spec fn view(&self) -> EntryView<S> {
        EntryView {
            key: self.key,
            tgid: self.tgid,
            state: *self.state,
            cwd_group: self.cwd_group,
            cwd: optional_bytes(self.cwd),
            executable_group: self.executable_group,
            executable: self.executable@,
            process_slot: self.process_slot,
        }
    }
}

/// Whether entries hold a process.
pub open spec fn has_pid<S>(entries: Seq<EntryView<S>>, pid: i32) -> bool {
    exists|i: int| 0 <= i < entries.len() && (#[trigger] entries[i]).key.pid == pid
}

/// The place of a process among entries.
pub open spec fn place_of<S>(entries: Seq<EntryView<S>>, pid: i32) -> int {
    choose|i: int| 0 <= i < entries.len() && (#[trigger] entries[i]).key.pid == pid
}

/// The entries by the number of their process.
pub open spec fn by_pid<S>(entries: Seq<EntryView<S>>) -> Map<i32, EntryView<S>> {
    Map::new(|pid: i32| has_pid(entries, pid), |pid: i32| entries[place_of(entries, pid)])
}

/// Each process stands once.
pub open spec fn one_each<S>(entries: Seq<EntryView<S>>) -> bool {
    forall|i: int, j: int|
        0 <= i < j < entries.len() ==> (#[trigger] entries[i]).key.pid != (#[trigger] entries[j]).key.pid
}

proof fn lemma_by_pid<S>(entries: Seq<EntryView<S>>, i: int)
    requires
        one_each(entries),
        0 <= i < entries.len(),
    ensures
        by_pid(entries).dom().contains(entries[i].key.pid),
        by_pid(entries)[entries[i].key.pid] == entries[i],
{
    let pid = entries[i].key.pid;
    assert(has_pid(entries, pid));
    let j = place_of(entries, pid);
    assert(0 <= j < entries.len() && entries[j].key.pid == pid);
    if i < j {
        assert(entries[i].key.pid != entries[j].key.pid);
    } else if j < i {
        assert(entries[j].key.pid != entries[i].key.pid);
    }
}

proof fn lemma_entry_count<S>(entries: Seq<EntryView<S>>)
    requires
        one_each(entries),
    ensures
        by_pid(entries).dom().finite(),
        by_pid(entries).dom().len() == entries.len(),
{
    let pids = Seq::new(entries.len(), |i: int| entries[i].key.pid);
    assert(pids.no_duplicates()) by {
        assert forall|a: int, b: int| 0 <= a < pids.len() && 0 <= b < pids.len() && a != b implies pids[a] != pids[b] by {
            if a < b {
                assert(entries[a].key.pid != entries[b].key.pid);
            } else {
                assert(entries[b].key.pid != entries[a].key.pid);
            }
        }
    }
    pids.unique_seq_to_set();
    assert forall|p: i32| #[trigger] pids.to_set().contains(p) <==> by_pid(entries).dom().contains(p) by {
        if pids.contains(p) {
            let j = choose|j: int| 0 <= j < pids.len() && pids[j] == p;
            assert(entries[j].key.pid == p);
        }
        if has_pid(entries, p) {
            let j = place_of(entries, p);
            assert(pids[j] == p);
        }
    }
    assert(pids.to_set() =~= by_pid(entries).dom());
}

/// The processes that are followed are known by their own numbers; those of one
/// group agree on what they share; and no group is above the next one.
pub open spec fn index_wf<S>(processes: Map<i32, EntryView<S>>, next_group: int) -> bool {
    &&& forall|p: i32| #[trigger]
        processes.dom().contains(p) ==> processes[p].key.pid == p && processes[p].cwd_group < next_group
            && processes[p].executable_group < next_group
    &&& forall|p: i32, q: i32|
        #![trigger processes.dom().contains(p), processes.dom().contains(q)]
        processes.dom().contains(p) && processes.dom().contains(q) ==> (processes[p].cwd_group == processes[q].cwd_group
            ==> processes[p].cwd == processes[q].cwd) && (processes[p].executable_group
            == processes[q].executable_group ==> processes[p].executable == processes[q].executable)
}

/// The processes with the directory of a group set.
pub open spec fn with_cwd<S>(processes: Map<i32, EntryView<S>>, group: u64, cwd: Option<Seq<u8>>) -> Map<
    i32,
    EntryView<S>,
> {
    Map::new(
        |p: i32| processes.dom().contains(p),
        |p: i32|
            if processes[p].cwd_group == group {
                EntryView { cwd, ..processes[p] }
            } else {
                processes[p]
            },
    )
}

/// The processes with the executable of a group set.
pub open spec fn with_executable<S>(
    processes: Map<i32, EntryView<S>>,
    group: u64,
    executable: ExecutableView,
) -> Map<i32, EntryView<S>> {
    Map::new(
        |p: i32| processes.dom().contains(p),
        |p: i32|
            if processes[p].executable_group == group {
                EntryView { executable, ..processes[p] }
            } else {
                processes[p]
            },
    )
}

/// The process whose directory counts for a task: itself, or else the leader of
/// its thread group.
pub open spec fn cwd_holder<S>(processes: Map<i32, EntryView<S>>, pid: i32, tgid: Option<i32>) -> Option<i32> {
    if processes.dom().contains(pid) {
        Some(pid)
    } else {
        match tgid {
            Some(leader) => if leader != pid && processes.dom().contains(leader) {
                Some(leader)
            } else {
                None
            },
            None => None,
        }
    }
}

/// What the kernel tells of a process that is to be followed.
#[derive(Debug)]
pub struct RegisterFacts {
    /// When it was started; nothing where it is gone.
    pub start_time: Option<u64>,
    /// The leader of its thread group.
    pub tgid: Option<i32>,
    pub ppid: Option<i32>,
    /// When its parent was started.
    pub parent_start: Option<u64>,
    /// The image that its parent runs.
    pub parent_image: Option<ExecutableImage>,
}

/// The leader of the thread group of a process; itself where that is not told.
pub open spec fn leader_of(pid: i32, facts: RegisterFacts) -> i32 {
    match facts.tgid {
        Some(tgid) => tgid,
        None => pid,
    }
}

/// The leader that a process shares with, where it is a thread.
pub open spec fn sharing_leader<S>(
    processes: Map<i32, EntryView<S>>,
    pid: i32,
    facts: RegisterFacts,
) -> Option<i32> {
    let tgid = leader_of(pid, facts);
    if tgid != pid && processes.dom().contains(tgid) {
        Some(tgid)
    } else {
        None
    }
}

/// The parent that a process copies from, where it is not a thread.
pub open spec fn copied_parent<S>(processes: Map<i32, EntryView<S>>, pid: i32, facts: RegisterFacts) -> Option<i32> {
    if leader_of(pid, facts) != pid {
        None
    } else {
        match facts.ppid {
            Some(parent) => if processes.dom().contains(parent) {
                Some(parent)
            } else {
                None
            },
            None => None,
        }
    }
}

/// The processes before a new one is added: what its parent runs is settled, where
/// the parent is still the one that is followed.
pub open spec fn settled_parent<S>(
    processes: Map<i32, EntryView<S>>,
    pid: i32,
    facts: RegisterFacts,
) -> Map<i32, EntryView<S>> {
    match copied_parent(processes, pid, facts) {
        Some(parent) => if facts.parent_start == Some(processes[parent].key.start_time) {
            with_executable(
                processes,
                processes[parent].executable_group,
                resolved(processes[parent].executable, optional_image(facts.parent_image)),
            )
        } else {
            processes
        },
        None => processes,
    }
}

/// The entry of a new process.
pub open spec fn new_entry<S>(
    processes: Map<i32, EntryView<S>>,
    next_group: u64,
    pid: i32,
    process_slot: Option<u64>,
    facts: RegisterFacts,
    start_time: u64,
    state: S,
) -> EntryView<S> {
    let (cwd_group, cwd, executable_group, executable) = match sharing_leader(processes, pid, facts) {
        Some(leader) => (
            processes[leader].cwd_group,
            processes[leader].cwd,
            processes[leader].executable_group,
            processes[leader].executable,
        ),
        None => match copied_parent(processes, pid, facts) {
            Some(parent) => (
                next_group,
                processes[parent].cwd,
                next_group,
                if facts.parent_start == Some(processes[parent].key.start_time) {
                    ExecutableView {
                        current: resolved(
                            processes[parent].executable,
                            optional_image(facts.parent_image),
                        ).current,
                        pending: None,
                    }
                } else {
                    no_executable()
                },
            ),
            None => (next_group, None, next_group, no_executable()),
        },
    };
    EntryView {
        key: PidKey { pid, start_time },
        tgid: leader_of(pid, facts),
        state,
        cwd_group,
        cwd,
        executable_group,
        executable,
        process_slot,
    }
}

/// The processes with a new one.
pub open spec fn registered<S>(
    processes: Map<i32, EntryView<S>>,
    next_group: u64,
    pid: i32,
    process_slot: Option<u64>,
    facts: RegisterFacts,
    start_time: u64,
    state: S,
) -> Map<i32, EntryView<S>> {
    settled_parent(processes, pid, facts).insert(
        pid,
        new_entry(processes, next_group, pid, process_slot, facts, start_time, state),
    )
}

/// Whether a key is that of a process that is followed.
pub open spec fn is_current<S>(processes: Map<i32, EntryView<S>>, key: PidKey) -> bool {
    processes.dom().contains(key.pid) && processes[key.pid].key == key
}

/// The process whose memory a task uses: the leader of its thread group where
/// that is followed, or else itself.
pub open spec fn address_space<S>(processes: Map<i32, EntryView<S>>, pid: i32) -> i32 {
    let tgid = processes[pid].tgid;
    if tgid != pid && processes.dom().contains(tgid) {
        tgid
    } else {
        pid
    }
}

/// The processes that are followed. `S` is what the supervisor keeps of each.
#[derive(Debug)]
pub struct ProcessIndex<S> {
    entries: Vec<ProcessEntry<S>>,
    next_group: u64,
    active_creation_traces: usize,
    active_exec_freezes: usize,
}

spec fn entry_views<S>(entries: Seq<ProcessEntry<S>>) -> Seq<EntryView<S>> {
    Seq::new(entries.len(), |i: int| entries[i]@)
}

impl<S> ProcessIndex<S> {
    /// The processes, in the order in which they are listed.
    pub closed spec fn entries(&self) -> Seq<EntryView<S>> {
        entry_views(self.entries@)
    }

    /// The group that a new process gets.
    pub closed spec fn next_group(&self) -> u64 {
        self.next_group
    }

    /// How many creations are traced.
    pub closed spec fn creation_traces(&self) -> usize {
        self.active_creation_traces
    }

    /// How many images are frozen.
    pub closed spec fn exec_freezes(&self) -> usize {
        self.active_exec_freezes
    }

    /// The keys of the processes, in the order in which they are listed.
    pub open spec fn keys(&self) -> Seq<PidKey> {
        Seq::new(self.entries().len(), |i: int| self.entries()[i].key)
    }

    /// Each process stands once, and what is shared agrees.
    pub open spec fn wf(&self) -> bool {
        one_each(self.entries()) && index_wf(self@, self.next_group() as int)
    }
}

impl<S> View for ProcessIndex<S> {
    type V = Map<i32, EntryView<S>>;

    open spec fn view(&self) -> Map<i32, EntryView<S>> {
        by_pid(self.entries())
    }
}

impl<S> ProcessIndex<S> {
    /// No process is followed.
    pub fn new() -> (index: ProcessIndex<S>)
        ensures
            index.wf(),
            index@ == Map::<i32, EntryView<S>>::empty(),
            index.next_group() == 0,
            index.creation_traces() == 0,
            index.exec_freezes() == 0,
    {
        let index = ProcessIndex { entries: Vec::new(), next_group: 0, active_creation_traces: 0, active_exec_freezes: 0 };
        proof {
            assert(index@ =~= Map::<i32, EntryView<S>>::empty());
        }
        index
    }

    fn find(&self, pid: i32) -> (place: Option<usize>)
        requires
            one_each(self.entries()),
        ensures
            match place {
                Some(i) => {
                    &&& i < self.entries@.len()
                    &&& self.entries@[i as int].key.pid == pid
                    &&& self@.dom().contains(pid)
                    &&& self@[pid] == self.entries@[i as int]@
                    &&& self.entries()[i as int] == self.entries@[i as int]@
                },
                None => !self@.dom().contains(pid),
            },
    {
        let mut i: usize = 0;
        while i < self.entries.len()
            invariant
                i <= self.entries@.len(),
                one_each(self.entries()),
                forall|j: int| 0 <= j < i ==> (#[trigger] self.entries()[j]).key.pid != pid,
            decreases self.entries@.len() - i,
        {
            proof {
                assert(self.entries()[i as int] == self.entries@[i as int]@);
            }
            if self.entries[i].key.pid == pid {
                proof {
                    lemma_by_pid(self.entries(), i as int);
                }
                return Some(i);
            }
            i = i + 1;
        }
        None
    }

    /// The key of a process.
    pub fn key_for(&self, pid: i32) -> (key: Option<PidKey>)
        requires
            self.wf(),
        ensures
            key == if self@.dom().contains(pid) {
                Some(self@[pid].key)
            } else {
                None::<PidKey>
            },
    {
        match self.find(pid) {
            Some(i) => Some(self.entries[i].key),
            None => None,
        }
    }

    /// Whether a process is followed.
    pub fn contains(&self, pid: i32) -> (result: bool)
        requires
            self.wf(),
        ensures
            result == self@.dom().contains(pid),
    {
        self.find(pid).is_some()
    }

    /// Whether a number still names the process that is followed, by when the
    /// process of that number was started.
    pub fn contains_current(&self, pid: i32, start_time: Option<u64>) -> (result: bool)
        requires
            self.wf(),
        ensures
            result == (self@.dom().contains(pid) && start_time == Some(self@[pid].key.start_time)),
    {
        match (self.find(pid), start_time) {
            (Some(i), Some(start)) => self.entries[i].key.start_time == start,
            _ => false,
        }
    }

    /// The key of a process, and what the supervisor keeps of it.
    pub fn entry_for(&self, pid: i32) -> (entry: Option<(PidKey, Arc<S>)>)
        requires
            self.wf(),
        ensures
            match entry {
                Some((key, state)) => self@.dom().contains(pid) && key == self@[pid].key && *state == self@[pid].state,
                None => !self@.dom().contains(pid),
            },
    {
        match self.find(pid) {
            Some(i) => Some((self.entries[i].key, Arc::clone(&self.entries[i].state))),
            None => None,
        }
    }

    /// What is kept of the address space of a task: that of the leader of its
    /// thread group, since threads share one.
    pub fn addr_space_state(&self, pid: i32) -> (state: Option<Arc<S>>)
        requires
            self.wf(),
        ensures
            match state {
                Some(shared) => self@.dom().contains(pid) && *shared == self@[address_space(self@, pid)].state,
                None => !self@.dom().contains(pid),
            },
    {
        match self.find(pid) {
            None => None,
            Some(i) => {
                let tgid = self.entries[i].tgid;
                if tgid != pid {
                    match self.find(tgid) {
                        Some(leader) => {
                            return Some(Arc::clone(&self.entries[leader].state));
                        },
                        None => {},
                    }
                }
                Some(Arc::clone(&self.entries[i].state))
            },
        }
    }

    /// How many processes are followed.
    pub fn len(&self) -> (len: usize)
        requires
            self.wf(),
        ensures
            len == self.entries().len(),
            len == self@.dom().len(),
    {
        proof {
            lemma_entry_count(self.entries());
        }
        self.entries.len()
    }

    /// The largest number of a process.
    pub fn max_pid(&self) -> (max: Option<i32>)
        requires
            self.wf(),
        ensures
            match max {
                Some(pid) => self@.dom().contains(pid) && forall|other: i32| #[trigger]
                    self@.dom().contains(other) ==> other <= pid,
                None => self@ == Map::<i32, EntryView<S>>::empty(),
            },
    {
        if self.entries.len() == 0 {
            proof {
                assert(self@ =~= Map::<i32, EntryView<S>>::empty());
            }
            return None;
        }
        let mut max: i32 = self.entries[0].key.pid;
        let mut i: usize = 1;
        proof {
            assert(self.entries()[0] == self.entries@[0]@);
            lemma_by_pid(self.entries(), 0);
        }
        while i < self.entries.len()
            invariant
                1 <= i <= self.entries@.len(),
                one_each(self.entries()),
                self@.dom().contains(max),
                forall|j: int| 0 <= j < i ==> (#[trigger] self.entries()[j]).key.pid <= max,
            decreases self.entries@.len() - i,
        {
            proof {
                assert(self.entries()[i as int] == self.entries@[i as int]@);
                lemma_by_pid(self.entries(), i as int);
            }
            if self.entries[i].key.pid > max {
                max = self.entries[i].key.pid;
            }
            i = i + 1;
        }
        proof {
            assert forall|other: i32| #[trigger] self@.dom().contains(other) implies other <= max by {
                let j = place_of(self.entries(), other);
                assert(self.entries()[j].key.pid == other);
            }
        }
        Some(max)
    }

    /// The keys of the processes.
    pub fn tracked_keys(&self) -> (keys: Vec<PidKey>)
        ensures
            keys@ == self.keys(),
    {
        let mut keys: Vec<PidKey> = Vec::new();
        let mut i: usize = 0;
        while i < self.entries.len()
            invariant
                i <= self.entries@.len(),
                keys@.len() == i,
                forall|j: int| 0 <= j < i ==> #[trigger] keys@[j] == self.entries()[j].key,
            decreases self.entries@.len() - i,
        {
            proof {
                assert(self.entries()[i as int] == self.entries@[i as int]@);
            }
            keys.push(self.entries[i].key);
            i = i + 1;
        }
        proof {
            assert(keys@ =~= self.keys());
        }
        keys
    }

    /// The numbers of the processes, each once.
    pub fn pids_snapshot(&self) -> (pids: Vec<i32>)
        requires
            self.wf(),
        ensures
            pids@.no_duplicates(),
            pids@.to_set() == self@.dom(),
    {
        let mut pids: Vec<i32> = Vec::new();
        let mut i: usize = 0;
        while i < self.entries.len()
            invariant
                i <= self.entries@.len(),
                pids@.len() == i,
                forall|j: int| 0 <= j < i ==> #[trigger] pids@[j] == self.entries()[j].key.pid,
            decreases self.entries@.len() - i,
        {
            proof {
                assert(self.entries()[i as int] == self.entries@[i as int]@);
            }
            pids.push(self.entries[i].key.pid);
            i = i + 1;
        }
        proof {
            let all = self.entries();
            assert forall|a: int, b: int| 0 <= a < pids@.len() && 0 <= b < pids@.len() && a != b implies pids@[a]
                != pids@[b] by {
                assert(pids@[a] == all[a].key.pid && pids@[b] == all[b].key.pid);
                if a < b {
                    assert(all[a].key.pid != all[b].key.pid);
                } else {
                    assert(all[b].key.pid != all[a].key.pid);
                }
            }
            assert forall|p: i32| #[trigger] pids@.to_set().contains(p) <==> self@.dom().contains(p) by {
                if pids@.contains(p) {
                    let j = choose|j: int| 0 <= j < pids@.len() && pids@[j] == p;
                    assert(all[j].key.pid == p);
                }
                if self@.dom().contains(p) {
                    let j = place_of(all, p);
                    assert(all[j].key.pid == p);
                    assert(pids@[j] == p);
                }
            }
            assert(pids@.to_set() =~= self@.dom());
        }
        pids
    }

    /// The keys of the processes that are gone, or whose number was used again.
    /// `start_times` tells of each listed process when the one that now has its
    /// number was started.
    pub fn dead_keys(&self, start_times: &Vec<Option<u64>>) -> (dead: Vec<PidKey>)
        requires
            start_times@.len() == self.entries().len(),
        ensures
            dead@ == dead_among(self.keys(), start_times@),
    {
        let mut dead: Vec<PidKey> = Vec::new();
        let mut i: usize = 0;
        proof {
            assert(self.keys().take(0) =~= Seq::<PidKey>::empty());
            assert(start_times@.take(0) =~= Seq::<Option<u64>>::empty());
        }
        while i < self.entries.len()
            invariant
                i <= self.entries@.len(),
                start_times@.len() == self.entries@.len() == self.entries().len(),
                dead@ == dead_among(self.keys().take(i as int), start_times@.take(i as int)),
            decreases self.entries@.len() - i,
        {
            let key = self.entries[i].key;
            proof {
                assert(self.entries()[i as int] == self.entries@[i as int]@);
                let keys = self.keys().take(i as int + 1);
                let times = start_times@.take(i as int + 1);
                assert(keys.drop_last() =~= self.keys().take(i as int));
                assert(times.drop_last() =~= start_times@.take(i as int));
                assert(keys.last() == key);
                assert(times.last() == start_times@[i as int]);
            }
            let is_alive = match start_times[i] {
                Some(start) => start == key.start_time,
                None => false,
            };
            if !is_alive {
                dead.push(key);
            }
            i = i + 1;
        }
        proof {
            assert(self.keys().take(i as int) =~= self.keys());
            assert(start_times@.take(i as int) =~= start_times@);
        }
        dead
    }
}

/// The keys whose process is gone, or whose number was used again.
pub open spec fn dead_among(keys: Seq<PidKey>, start_times: Seq<Option<u64>>) -> Seq<PidKey>
    decreases keys.len(),
{
    if keys.len() == 0 || start_times.len() == 0 {
        Seq::empty()
    } else {
        let before = dead_among(keys.drop_last(), start_times.drop_last());
        if start_times.last() == Some(keys.last().start_time) {
            before
        } else {
            before.push(keys.last())
        }
    }
}

/// Whether entries are others, one for one, with the same keys.
spec fn same_keys<S>(a: Seq<EntryView<S>>, b: Seq<EntryView<S>>) -> bool {
    a.len() == b.len() && forall|i: int| 0 <= i < a.len() ==> (#[trigger] a[i]).key == b[i].key
}

proof fn lemma_same_keys<S>(a: Seq<EntryView<S>>, b: Seq<EntryView<S>>)
    requires
        one_each(a),
        same_keys(a, b),
    ensures
        one_each(b),
        by_pid(a).dom() == by_pid(b).dom(),
        forall|i: int| 0 <= i < a.len() ==> by_pid(b)[(#[trigger] a[i]).key.pid] == b[i],
{
    assert forall|i: int, j: int| 0 <= i < j < b.len() implies (#[trigger] b[i]).key.pid != (#[trigger] b[j]).key.pid by {
        assert(a[i].key == b[i].key && a[j].key == b[j].key);
    }
    assert forall|p: i32| #[trigger] by_pid(a).dom().contains(p) <==> by_pid(b).dom().contains(p) by {
        if has_pid(a, p) {
            let i = place_of(a, p);
            assert(a[i].key == b[i].key);
            assert(b[i].key.pid == p);
        }
        if has_pid(b, p) {
            let i = place_of(b, p);
            assert(a[i].key == b[i].key);
            assert(a[i].key.pid == p);
        }
    }
    assert(by_pid(a).dom() =~= by_pid(b).dom());
    assert forall|i: int| 0 <= i < a.len() implies by_pid(b)[(#[trigger] a[i]).key.pid] == b[i] by {
        assert(a[i].key == b[i].key);
        lemma_by_pid(b, i);
    }
}

impl<S> ProcessIndex<S> {
    fn set_group_cwd(&mut self, group: u64, cwd: &Option<Vec<u8>>)
        requires
            one_each(old(self).entries()),
        ensures
            same_keys(old(self).entries(), final(self).entries()),
            one_each(final(self).entries()),
            final(self)@ == with_cwd(old(self)@, group, optional_bytes(*cwd)),
            final(self).next_group() == old(self).next_group(),
            final(self).creation_traces() == old(self).creation_traces(),
            final(self).exec_freezes() == old(self).exec_freezes(),
    {
        let ghost before = self.entries();
        let ghost told = optional_bytes(*cwd);
        let mut i: usize = 0;
        while i < self.entries.len()
            invariant
                i <= self.entries@.len(),
                told == optional_bytes(*cwd),
                self.entries().len() == before.len() == self.entries@.len(),
                forall|j: int|
                    0 <= j < i ==> #[trigger] self.entries()[j] == if before[j].cwd_group == group {
                        EntryView { cwd: told, ..before[j] }
                    } else {
                        before[j]
                    },
                forall|j: int| i <= j < before.len() ==> #[trigger] self.entries()[j] == before[j],
                self.next_group() == old(self).next_group(),
                self.creation_traces() == old(self).creation_traces(),
                self.exec_freezes() == old(self).exec_freezes(),
            decreases self.entries@.len() - i,
        {
            let ghost now = self.entries();
            let ghost raw = self.entries@;
            proof {
                assert(now[i as int] == raw[i as int]@);
            }
            if self.entries[i].cwd_group == group {
                self.entries[i].cwd = copy_optional(cwd);
                proof {
                    assert forall|j: int| 0 <= j < before.len() && j != i implies #[trigger] self.entries()[j]
                        == now[j] by {
                        assert(self.entries@[j] == raw[j]);
                    }
                    assert(self.entries()[i as int] == self.entries@[i as int]@);
                }
            }
            i = i + 1;
        }
        proof {
            let after = self.entries();
            lemma_same_keys(before, after);
            assert forall|p: i32| by_pid(before).dom().contains(p) implies #[trigger] by_pid(after)[p] == with_cwd(
                by_pid(before),
                group,
                told,
            )[p] by {
                let j = place_of(before, p);
                assert(before[j].key.pid == p);
                lemma_by_pid(before, j);
            }
            assert(by_pid(after) =~= with_cwd(by_pid(before), group, told));
        }
    }

    fn set_group_executable(&mut self, group: u64, executable: &ExecutableState)
        requires
            one_each(old(self).entries()),
        ensures
            same_keys(old(self).entries(), final(self).entries()),
            one_each(final(self).entries()),
            final(self)@ == with_executable(old(self)@, group, executable@),
            final(self).next_group() == old(self).next_group(),
            final(self).creation_traces() == old(self).creation_traces(),
            final(self).exec_freezes() == old(self).exec_freezes(),
    {
        let ghost before = self.entries();
        let ghost told = executable@;
        let mut i: usize = 0;
        while i < self.entries.len()
            invariant
                i <= self.entries@.len(),
                told == executable@,
                self.entries().len() == before.len() == self.entries@.len(),
                forall|j: int|
                    0 <= j < i ==> #[trigger] self.entries()[j] == if before[j].executable_group == group {
                        EntryView { executable: told, ..before[j] }
                    } else {
                        before[j]
                    },
                forall|j: int| i <= j < before.len() ==> #[trigger] self.entries()[j] == before[j],
                self.next_group() == old(self).next_group(),
                self.creation_traces() == old(self).creation_traces(),
                self.exec_freezes() == old(self).exec_freezes(),
            decreases self.entries@.len() - i,
        {
            let ghost now = self.entries();
            let ghost raw = self.entries@;
            proof {
                assert(now[i as int] == raw[i as int]@);
            }
            if self.entries[i].executable_group == group {
                self.entries[i].executable = executable.copy();
                proof {
                    assert forall|j: int| 0 <= j < before.len() && j != i implies #[trigger] self.entries()[j]
                        == now[j] by {
                        assert(self.entries@[j] == raw[j]);
                    }
                    assert(self.entries()[i as int] == self.entries@[i as int]@);
                }
            }
            i = i + 1;
        }
        proof {
            let after = self.entries();
            lemma_same_keys(before, after);
            assert forall|p: i32| by_pid(before).dom().contains(p) implies #[trigger] by_pid(after)[p]
                == with_executable(by_pid(before), group, told)[p] by {
                let j = place_of(before, p);
                assert(before[j].key.pid == p);
                lemma_by_pid(before, j);
            }
            assert(by_pid(after) =~= with_executable(by_pid(before), group, told));
        }
    }

    fn find_cwd_holder(&self, pid: i32, tgid: Option<i32>) -> (place: Option<usize>)
        requires
            self.wf(),
        ensures
            match place {
                Some(i) => {
                    &&& i < self.entries@.len()
                    &&& cwd_holder(self@, pid, tgid) == Some(self.entries@[i as int].key.pid)
                    &&& self@[self.entries@[i as int].key.pid] == self.entries@[i as int]@
                },
                None => cwd_holder(self@, pid, tgid) is None,
            },
    {
        match self.find(pid) {
            Some(i) => Some(i),
            None => match tgid {
                Some(leader) => {
                    if leader == pid {
                        return None;
                    }
                    self.find(leader)
                },
                None => None,
            },
        }
    }

    /// Where a task believes to be; nothing where it is not followed or never
    /// moved. `tgid` is the leader of its thread group, which counts where the
    /// task itself is not followed.
    pub fn virtual_cwd(&self, pid: i32, tgid: Option<i32>) -> (cwd: Option<Vec<u8>>)
        requires
            self.wf(),
        ensures
            optional_bytes(cwd) == match cwd_holder(self@, pid, tgid) {
                Some(holder) => self@[holder].cwd,
                None => None::<Seq<u8>>,
            },
    {
        match self.find_cwd_holder(pid, tgid) {
            Some(i) => copy_optional(&self.entries[i].cwd),
            None => None,
        }
    }

    fn put_cwd(&mut self, pid: i32, tgid: Option<i32>, cwd: &Option<Vec<u8>>)
        requires
            old(self).wf(),
        ensures
            final(self).wf(),
            final(self).next_group() == old(self).next_group(),
            final(self).creation_traces() == old(self).creation_traces(),
            final(self).exec_freezes() == old(self).exec_freezes(),
            final(self)@ == match cwd_holder(old(self)@, pid, tgid) {
                Some(holder) => with_cwd(old(self)@, old(self)@[holder].cwd_group, optional_bytes(*cwd)),
                None => old(self)@,
            },
    {
        match self.find_cwd_holder(pid, tgid) {
            Some(i) => {
                let group = self.entries[i].cwd_group;
                self.set_group_cwd(group, cwd);
            },
            None => {},
        }
    }

    /// Notes where a task now believes to be, with those that share its directory.
    pub fn set_virtual_cwd(&mut self, pid: i32, tgid: Option<i32>, cwd: &[u8])
        requires
            old(self).wf(),
        ensures
            final(self).wf(),
            final(self).next_group() == old(self).next_group(),
            final(self).creation_traces() == old(self).creation_traces(),
            final(self).exec_freezes() == old(self).exec_freezes(),
            final(self)@ == match cwd_holder(old(self)@, pid, tgid) {
                Some(holder) => with_cwd(old(self)@, old(self)@[holder].cwd_group, Some(cwd@)),
                None => old(self)@,
            },
    {
        let told = Some(copy_bytes(cwd));
        self.put_cwd(pid, tgid, &told);
    }

    /// Forgets where a task believes to be: the kernel is asked again.
    pub fn clear_virtual_cwd(&mut self, pid: i32, tgid: Option<i32>)
        requires
            old(self).wf(),
        ensures
            final(self).wf(),
            final(self).next_group() == old(self).next_group(),
            final(self).creation_traces() == old(self).creation_traces(),
            final(self).exec_freezes() == old(self).exec_freezes(),
            final(self)@ == match cwd_holder(old(self)@, pid, tgid) {
                Some(holder) => with_cwd(old(self)@, old(self)@[holder].cwd_group, None),
                None => old(self)@,
            },
    {
        let told: Option<Vec<u8>> = None;
        self.put_cwd(pid, tgid, &told);
    }

    /// Stops following a process; tells the room in the quota that it held. A key
    /// of an earlier process of the same number changes nothing.
    pub fn unregister(&mut self, key: PidKey) -> (process_slot: Option<u64>)
        requires
            old(self).wf(),
        ensures
            final(self).wf(),
            final(self).next_group() == old(self).next_group(),
            final(self).creation_traces() == old(self).creation_traces(),
            final(self).exec_freezes() == old(self).exec_freezes(),
            if is_current(old(self)@, key) {
                process_slot == old(self)@[key.pid].process_slot && final(self)@ == old(self)@.remove(key.pid)
            } else {
                process_slot is None && final(self)@ == old(self)@
            },
    {
        let ghost before = self.entries();
        match self.find(key.pid) {
            None => None,
            Some(i) => {
                if self.entries[i].key.start_time != key.start_time {
                    return None;
                }
                let process_slot = self.entries[i].process_slot;
                let ghost raw = self.entries@;
                self.entries.remove(i);
                proof {
                    let after = self.entries();
                    assert(self.entries@ =~= raw.remove(i as int));
                    assert(after =~= before.remove(i as int)) by {
                        assert forall|j: int| 0 <= j < after.len() implies #[trigger] after[j] == before.remove(
                            i as int,
                        )[j] by {
                            if j < i {
                                assert(self.entries@[j] == raw[j]);
                            } else {
                                assert(self.entries@[j] == raw[j + 1]);
                            }
                        }
                    }
                    lemma_removed(before, i as int);
                }
                process_slot
            },
        }
    }
}

proof fn lemma_removed<S>(entries: Seq<EntryView<S>>, i: int)
    requires
        one_each(entries),
        0 <= i < entries.len(),
    ensures
        one_each(entries.remove(i)),
        by_pid(entries.remove(i)) == by_pid(entries).remove(entries[i].key.pid),
{
    let after = entries.remove(i);
    let gone = entries[i].key.pid;
    assert forall|a: int, b: int| 0 <= a < b < after.len() implies (#[trigger] after[a]).key.pid != (
    #[trigger] after[b]).key.pid by {
        let old_a = if a < i { a } else { a + 1 };
        let old_b = if b < i { b } else { b + 1 };
        assert(after[a] == entries[old_a] && after[b] == entries[old_b]);
    }
    assert forall|p: i32| #[trigger] by_pid(after).dom().contains(p) <==> by_pid(entries).remove(gone).dom().contains(
        p,
    ) by {
        if has_pid(after, p) {
            let a = place_of(after, p);
            let old_a = if a < i { a } else { a + 1 };
            assert(entries[old_a] == after[a]);
            assert(entries[old_a].key.pid == p);
            if old_a < i {
                assert(entries[old_a].key.pid != entries[i].key.pid);
            } else {
                assert(entries[i].key.pid != entries[old_a].key.pid);
            }
        }
        if has_pid(entries, p) && p != gone {
            let a = place_of(entries, p);
            assert(entries[a].key.pid == p);
            let new_a = if a < i { a } else { a - 1 };
            assert(after[new_a] == entries[a]);
        }
    }
    assert forall|p: i32| by_pid(after).dom().contains(p) implies #[trigger] by_pid(after)[p] == by_pid(entries).remove(
        gone,
    )[p] by {
        let a = place_of(after, p);
        let old_a = if a < i { a } else { a + 1 };
        assert(entries[old_a] == after[a]);
        lemma_by_pid(entries, old_a);
    }
    assert(by_pid(after) =~= by_pid(entries).remove(gone));
}

proof fn lemma_put<S>(entries: Seq<EntryView<S>>, entry: EntryView<S>, i: int)
    requires
        one_each(entries),
        0 <= i <= entries.len(),
        i < entries.len() ==> entries[i].key.pid == entry.key.pid,
        i == entries.len() ==> !has_pid(entries, entry.key.pid),
    ensures
        ({
            let after = if i < entries.len() {
                entries.update(i, entry)
            } else {
                entries.push(entry)
            };
            one_each(after) && by_pid(after) == by_pid(entries).insert(entry.key.pid, entry)
        }),
{
    let pid = entry.key.pid;
    let after = if i < entries.len() {
        entries.update(i, entry)
    } else {
        entries.push(entry)
    };
    assert forall|a: int| 0 <= a < entries.len() && a != i implies #[trigger] after[a] == entries[a] by {}
    assert forall|a: int| 0 <= a < entries.len() && a != i implies (#[trigger] entries[a]).key.pid != pid by {
        if i < entries.len() {
            if a < i {
                assert(entries[a].key.pid != entries[i].key.pid);
            } else {
                assert(entries[i].key.pid != entries[a].key.pid);
            }
        }
    }
    assert forall|a: int, b: int| 0 <= a < b < after.len() implies (#[trigger] after[a]).key.pid != (
    #[trigger] after[b]).key.pid by {
        if a != i && b != i {
            assert(entries[a].key.pid != entries[b].key.pid);
        } else if a == i {
            assert(entries[b].key.pid != pid);
        } else {
            assert(entries[a].key.pid != pid);
        }
    }
    assert forall|p: i32| #[trigger] by_pid(after).dom().contains(p) <==> by_pid(entries).insert(pid, entry).dom().contains(
        p,
    ) by {
        if has_pid(after, p) {
            let a = place_of(after, p);
            if a != i {
                assert(entries[a].key.pid == p);
            }
        }
        if has_pid(entries, p) {
            let a = place_of(entries, p);
            assert(entries[a].key.pid == p);
            assert(after[a].key.pid == p);
        }
        if p == pid {
            assert(after[i].key.pid == p);
        }
    }
    assert forall|p: i32| by_pid(after).dom().contains(p) implies #[trigger] by_pid(after)[p] == by_pid(entries).insert(
        pid,
        entry,
    )[p] by {
        let a = place_of(after, p);
        assert(after[a].key.pid == p);
        if a == i {
            assert(after[i] == entry);
        } else {
            assert(entries[a] == after[a]);
            lemma_by_pid(entries, a);
        }
    }
    assert(by_pid(after) =~= by_pid(entries).insert(pid, entry));
}

proof fn lemma_registered_wf<S>(
    processes: Map<i32, EntryView<S>>,
    next_group: u64,
    pid: i32,
    process_slot: Option<u64>,
    facts: RegisterFacts,
    start_time: u64,
    state: S,
)
    requires
        index_wf(processes, next_group as int),
    ensures
        index_wf(
            registered(processes, next_group, pid, process_slot, facts, start_time, state),
            next_group + 1,
        ),
{
    let settled = settled_parent(processes, pid, facts);
    let entry = new_entry(processes, next_group, pid, process_slot, facts, start_time, state);
    let after = registered(processes, next_group, pid, process_slot, facts, start_time, state);
    assert(settled.dom() =~= processes.dom());
    assert forall|p: i32| #[trigger] after.dom().contains(p) implies after[p].key.pid == p && after[p].cwd_group
        < next_group + 1 && after[p].executable_group < next_group + 1 by {
        if p != pid {
            assert(processes.dom().contains(p));
        } else {
            match sharing_leader(processes, pid, facts) {
                Some(leader) => {
                    assert(processes.dom().contains(leader));
                },
                None => {},
            }
        }
    }
    assert forall|p: i32, q: i32| #[trigger] after.dom().contains(p) && #[trigger] after.dom().contains(q) implies (
    after[p].cwd_group == after[q].cwd_group ==> after[p].cwd == after[q].cwd) && (after[p].executable_group
        == after[q].executable_group ==> after[p].executable == after[q].executable) by {
        if p != pid && q != pid {
            assert(processes.dom().contains(p) && processes.dom().contains(q));
        } else if p != pid || q != pid {
            let other = if p == pid { q } else { p };
            assert(processes.dom().contains(other));
            match sharing_leader(processes, pid, facts) {
                Some(leader) => {
                    assert(processes.dom().contains(leader));
                    assert(copied_parent(processes, pid, facts) is None);
                },
                None => {},
            }
        }
    }
}

impl<S> ProcessIndex<S> {
    /// Follows a process that a fork created, with the room in the quota that was
    /// kept for it. Tells its key, and the room that an earlier process of the
    /// same number still held, which is to be given back. Nothing where the
    /// process is gone already.
    pub fn register_with_process_slot(
        &mut self,
        pid: i32,
        process_slot: Option<u64>,
        facts: &RegisterFacts,
        state: S,
    ) -> (result: Option<(PidKey, Option<u64>)>)
        requires
            old(self).wf(),
            old(self).next_group() < u64::MAX,
        ensures
            final(self).wf(),
            final(self).creation_traces() == old(self).creation_traces(),
            final(self).exec_freezes() == old(self).exec_freezes(),
            match facts.start_time {
                None => result is None && final(self)@ == old(self)@ && final(self).next_group() == old(
                    self,
                ).next_group(),
                Some(start_time) => {
                    &&& result == Some(
                        (
                            PidKey { pid, start_time },
                            if old(self)@.dom().contains(pid) {
                                old(self)@[pid].process_slot
                            } else {
                                None
                            },
                        ),
                    )
                    &&& final(self)@ == registered(
                        old(self)@,
                        old(self).next_group(),
                        pid,
                        process_slot,
                        *facts,
                        start_time,
                        state,
                    )
                    &&& final(self).next_group() == old(self).next_group() + 1
                },
            },
    {
        let start_time = match facts.start_time {
            Some(known) => known,
            None => {
                return None;
            },
        };
        let ghost processes = self@;
        let ghost group = self.next_group();
        let key = PidKey { pid, start_time };
        let tgid: i32 = match facts.tgid {
            Some(known) => known,
            None => pid,
        };
        let mut cwd_group: u64 = self.next_group;
        let mut cwd: Option<Vec<u8>> = None;
        let mut executable_group: u64 = self.next_group;
        let mut executable = ExecutableState { current: None, pending: None };
        if tgid != pid {
            match self.find(tgid) {
                Some(leader) => {
                    cwd_group = self.entries[leader].cwd_group;
                    cwd = copy_optional(&self.entries[leader].cwd);
                    executable_group = self.entries[leader].executable_group;
                    executable = self.entries[leader].executable.copy();
                },
                None => {},
            }
        } else {
            match facts.ppid {
                Some(parent_pid) => match self.find(parent_pid) {
                    Some(parent) => {
                        cwd = copy_optional(&self.entries[parent].cwd);
                        let is_same = match facts.parent_start {
                            Some(start) => start == self.entries[parent].key.start_time,
                            None => false,
                        };
                        if is_same {
                            let parent_group = self.entries[parent].executable_group;
                            let settled = self.entries[parent].executable.resolve(&facts.parent_image);
                            executable = ExecutableState { current: copy_record(&settled.current), pending: None };
                            self.set_group_executable(parent_group, &settled);
                        }
                    },
                    None => {},
                },
                None => {},
            }
        }
        proof {
            assert(self@ == settled_parent(processes, pid, *facts));
            assert(self@.dom() =~= processes.dom());
        }
        let entry = ProcessEntry {
            key,
            tgid,
            state: Arc::new(state),
            cwd_group,
            cwd,
            executable_group,
            executable,
            process_slot,
        };
        let ghost told = entry@;
        proof {
            assert(told == new_entry(processes, group, pid, process_slot, *facts, start_time, state));
            lemma_registered_wf(processes, group, pid, process_slot, *facts, start_time, state);
        }
        let ghost mid = self.entries();
        let ghost raw = self.entries@;
        self.next_group = self.next_group + 1;
        match self.find(pid) {
            Some(i) => {
                let displaced = self.entries[i].process_slot;
                proof {
                    assert(self@[pid].process_slot == processes[pid].process_slot);
                }
                self.entries.set(i, entry);
                proof {
                    assert(self.entries() =~= mid.update(i as int, told)) by {
                        assert forall|j: int| 0 <= j < mid.len() implies #[trigger] self.entries()[j] == mid.update(
                            i as int,
                            told,
                        )[j] by {
                            if j != i {
                                assert(self.entries@[j] == raw[j]);
                            }
                        }
                    }
                    lemma_put(mid, told, i as int);
                }
                Some((key, displaced))
            },
            None => {
                self.entries.push(entry);
                proof {
                    assert(self.entries() =~= mid.push(told)) by {
                        assert forall|j: int| 0 <= j < mid.len() implies #[trigger] self.entries()[j] == mid.push(
                            told,
                        )[j] by {
                            assert(self.entries@[j] == raw[j]);
                        }
                    }
                    lemma_put(mid, told, mid.len() as int);
                }
                Some((key, None))
            },
        }
    }

    /// Follows a process that holds no room in the quota.
    pub fn register(&mut self, pid: i32, facts: &RegisterFacts, state: S) -> (key: Option<PidKey>)
        requires
            old(self).wf(),
            old(self).next_group() < u64::MAX,
        ensures
            final(self).wf(),
            final(self).creation_traces() == old(self).creation_traces(),
            final(self).exec_freezes() == old(self).exec_freezes(),
            match facts.start_time {
                None => key is None && final(self)@ == old(self)@ && final(self).next_group() == old(
                    self,
                ).next_group(),
                Some(start_time) => {
                    &&& key == Some(PidKey { pid, start_time })
                    &&& final(self)@ == registered(
                        old(self)@,
                        old(self).next_group(),
                        pid,
                        None,
                        *facts,
                        start_time,
                        state,
                    )
                    &&& final(self).next_group() == old(self).next_group() + 1
                },
            },
    {
        match self.register_with_process_slot(pid, None, facts, state) {
            Some((key, _)) => Some(key),
            None => None,
        }
    }

    /// The path that the executable of a process is shown under; nothing where the
    /// process is not followed, is another one by now, or runs an image that is
    /// not known.
    pub fn virtual_executable(&mut self, pid: i32, start_time: Option<u64>, image: &Option<ExecutableImage>) -> (shown:
        Option<Vec<u8>>)
        requires
            old(self).wf(),
        ensures
            final(self).wf(),
            final(self).next_group() == old(self).next_group(),
            final(self).creation_traces() == old(self).creation_traces(),
            final(self).exec_freezes() == old(self).exec_freezes(),
            if old(self)@.dom().contains(pid) && start_time == Some(old(self)@[pid].key.start_time) {
                let settled = resolved(old(self)@[pid].executable, optional_image(*image));
                &&& final(self)@ == with_executable(old(self)@, old(self)@[pid].executable_group, settled)
                &&& optional_bytes(shown) == match settled.current {
                    Some(record) => Some(record.virtual_path),
                    None => None::<Seq<u8>>,
                }
            } else {
                shown is None && final(self)@ == old(self)@
            },
    {
        match (self.find(pid), start_time) {
            (Some(i), Some(start)) => {
                if start != self.entries[i].key.start_time {
                    return None;
                }
                let group = self.entries[i].executable_group;
                let settled = self.entries[i].executable.resolve(image);
                self.set_group_executable(group, &settled);
                match &settled.current {
                    Some(record) => Some(copy_bytes(record.virtual_path.as_slice())),
                    None => None,
                }
            },
            _ => None,
        }
    }

    /// Notes the image that a process is about to run, under the path that it is
    /// to be shown under. It counts once the process is seen to run it. `candidate`
    /// is the image that was opened, `image` the one that still runs.
    pub fn stage_virtual_executable(
        &mut self,
        key: PidKey,
        shown: &[u8],
        start_time: Option<u64>,
        candidate: &Option<ExecutableImage>,
        image: &Option<ExecutableImage>,
    ) -> (is_staged: bool)
        requires
            old(self).wf(),
        ensures
            final(self).wf(),
            final(self).next_group() == old(self).next_group(),
            final(self).creation_traces() == old(self).creation_traces(),
            final(self).exec_freezes() == old(self).exec_freezes(),
            match *candidate {
                Some(known) => if start_time == Some(key.start_time) && is_current(old(self)@, key) {
                    &&& is_staged
                    &&& final(self)@ == with_executable(
                        old(self)@,
                        old(self)@[key.pid].executable_group,
                        ExecutableView {
                            current: resolved(old(self)@[key.pid].executable, optional_image(*image)).current,
                            pending: Some(
                                RecordView {
                                    virtual_path: shown@,
                                    device: known.device,
                                    inode: known.inode,
                                    kernel_path: known.kernel_path@,
                                },
                            ),
                        },
                    )
                } else {
                    !is_staged && final(self)@ == old(self)@
                },
                None => !is_staged && final(self)@ == old(self)@,
            },
    {
        let is_same = match start_time {
            Some(start) => start == key.start_time,
            None => false,
        };
        if !is_same {
            return false;
        }
        match candidate {
            None => false,
            Some(known) => match self.find(key.pid) {
                None => false,
                Some(i) => {
                    if self.entries[i].key.start_time != key.start_time {
                        return false;
                    }
                    let group = self.entries[i].executable_group;
                    let settled = self.entries[i].executable.resolve(image);
                    let next = ExecutableState {
                        current: settled.current,
                        pending: Some(
                            ExecutableRecord {
                                virtual_path: copy_bytes(shown),
                                device: known.device,
                                inode: known.inode,
                                kernel_path: copy_bytes(known.kernel_path.as_slice()),
                            },
                        ),
                    };
                    self.set_group_executable(group, &next);
                    true
                },
            },
        }
    }
}

/// One more, around the end of the numbers.
pub open spec fn one_more(count: usize) -> usize {
    if count == usize::MAX {
        0
    } else {
        (count + 1) as usize
    }
}

/// One less, around the end of the numbers.
pub open spec fn one_less(count: usize) -> usize {
    if count == 0 {
        usize::MAX
    } else {
        (count - 1) as usize
    }
}

impl<S> ProcessIndex<S> {
    /// The trace of a creation begins.
    pub fn creation_trace_started(&mut self)
        ensures
            final(self).entries() == old(self).entries(),
            final(self).next_group() == old(self).next_group(),
            final(self).creation_traces() == one_more(old(self).creation_traces()),
            final(self).exec_freezes() == old(self).exec_freezes(),
    {
        self.active_creation_traces = if self.active_creation_traces == usize::MAX {
            0
        } else {
            self.active_creation_traces + 1
        };
    }

    /// The trace of a creation ends.
    pub fn creation_trace_finished(&mut self)
        ensures
            final(self).entries() == old(self).entries(),
            final(self).next_group() == old(self).next_group(),
            final(self).creation_traces() == one_less(old(self).creation_traces()),
            final(self).exec_freezes() == old(self).exec_freezes(),
    {
        self.active_creation_traces = if self.active_creation_traces == 0 {
            usize::MAX
        } else {
            self.active_creation_traces - 1
        };
    }

    /// How often the trace of a creation is under way.
    pub fn active_creation_traces(&self) -> (count: usize)
        ensures
            count == self.creation_traces(),
    {
        self.active_creation_traces
    }

    /// The freeze of an image begins.
    pub fn exec_freeze_started(&mut self)
        ensures
            final(self).entries() == old(self).entries(),
            final(self).next_group() == old(self).next_group(),
            final(self).exec_freezes() == one_more(old(self).exec_freezes()),
            final(self).creation_traces() == old(self).creation_traces(),
    {
        self.active_exec_freezes = if self.active_exec_freezes == usize::MAX {
            0
        } else {
            self.active_exec_freezes + 1
        };
    }

    /// The freeze of an image ends.
    pub fn exec_freeze_finished(&mut self)
        ensures
            final(self).entries() == old(self).entries(),
            final(self).next_group() == old(self).next_group(),
            final(self).exec_freezes() == one_less(old(self).exec_freezes()),
            final(self).creation_traces() == old(self).creation_traces(),
    {
        self.active_exec_freezes = if self.active_exec_freezes == 0 {
            usize::MAX
        } else {
            self.active_exec_freezes - 1
        };
    }

    /// How often the freeze of an image is under way.
    pub fn active_exec_freezes(&self) -> (count: usize)
        ensures
            count == self.exec_freezes(),
    {
        self.active_exec_freezes
    }

    /// How many traces and freezes are under way together.
    pub fn active_ptrace_trackers(&self) -> (count: usize)
        ensures
            count == if self.creation_traces() + self.exec_freezes() > usize::MAX {
                usize::MAX as int
            } else {
                self.creation_traces() + self.exec_freezes()
            },
    {
        if self.active_creation_traces > usize::MAX - self.active_exec_freezes {
            usize::MAX
        } else {
            self.active_creation_traces + self.active_exec_freezes
        }
    }
}

impl<S> Default for ProcessIndex<S> {
    fn default() -> (index: ProcessIndex<S>)
        ensures
            index.wf(),
            index@ == Map::<i32, EntryView<S>>::empty(),
            index.next_group() == 0,
            index.creation_traces() == 0,
            index.exec_freezes() == 0,
    {
        ProcessIndex::new()
    }
}

/// Once a number was used again and its new process is followed, the key of the
/// earlier one counts for nothing: it neither ends the new one nor names its
/// executable.
pub proof fn law_stale_keys_count_for_nothing<S>(
    processes: Map<i32, EntryView<S>>,
    next_group: u64,
    process_slot: Option<u64>,
    facts: RegisterFacts,
    start_time: u64,
    state: S,
    stale: PidKey,
)
    requires
        index_wf(processes, next_group as int),
        stale.start_time != start_time,
    ensures
        ({
            let after = registered(processes, next_group, stale.pid, process_slot, facts, start_time, state);
            &&& !is_current(after, stale)
            &&& is_current(after, PidKey { pid: stale.pid, start_time })
            &&& after[stale.pid].process_slot == process_slot
        }),
{
}

/// The room in the quota that a process holds is given back once: after its key
/// was taken out, it counts for nothing.
pub proof fn law_slots_are_given_back_once<S>(processes: Map<i32, EntryView<S>>, key: PidKey)
    requires
        is_current(processes, key),
    ensures
        !is_current(processes.remove(key.pid), key),
{
}

/// A thread shares the directory of its leader: where one moves, both are.
pub proof fn law_threads_share_their_directory<S>(
    processes: Map<i32, EntryView<S>>,
    next_group: u64,
    pid: i32,
    process_slot: Option<u64>,
    facts: RegisterFacts,
    start_time: u64,
    state: S,
    cwd: Seq<u8>,
)
    requires
        index_wf(processes, next_group as int),
        sharing_leader(processes, pid, facts) is Some,
    ensures
        ({
            let leader = leader_of(pid, facts);
            let after = registered(processes, next_group, pid, process_slot, facts, start_time, state);
            let moved = with_cwd(after, after[pid].cwd_group, Some(cwd));
            &&& after[pid].cwd == processes[leader].cwd
            &&& moved[pid].cwd == Some(cwd)
            &&& moved[leader].cwd == Some(cwd)
            &&& after[pid].executable == after[leader].executable
        }),
{
}

/// A forked process starts where its parent is, and moves without it.
pub proof fn law_children_copy_their_directory<S>(
    processes: Map<i32, EntryView<S>>,
    next_group: u64,
    pid: i32,
    process_slot: Option<u64>,
    facts: RegisterFacts,
    start_time: u64,
    state: S,
    parent: i32,
    cwd: Seq<u8>,
)
    requires
        index_wf(processes, next_group as int),
        copied_parent(processes, pid, facts) == Some(parent),
        parent != pid,
    ensures
        ({
            let after = registered(processes, next_group, pid, process_slot, facts, start_time, state);
            let moved = with_cwd(after, after[pid].cwd_group, Some(cwd));
            &&& after[pid].cwd == processes[parent].cwd
            &&& moved[pid].cwd == Some(cwd)
            &&& moved[parent].cwd == processes[parent].cwd
        }),
{
}

/// An image that did not come to run changes nothing: the one that still runs
/// keeps its path.
pub proof fn law_failed_execs_keep_the_image(state: ExecutableView, image: ImageView)
    requires
        state.current matches Some(current) && is_record_of(current, Some(image)),
        state.pending matches Some(pending) ==> !is_record_of(pending, Some(image)),
    ensures
        resolved(state, Some(image)).current == state.current,
{
}

/// What a process runs: what was staged, where it is the image that runs, otherwise what it
/// ran before, where it still is that image, and otherwise nothing that is known. Nothing
/// stays staged.
pub proof fn law_running_images_are_recognized(state: ExecutableView, image: Option<ImageView>)
    ensures
        ({
            let next = resolved(state, image);
            let runs = |record: RecordView| image matches Some(known) && record.device == known.device && record.inode
                == known.inode && path::parts(record.kernel_path) == path::parts(known.kernel_path);
            &&& next.pending is None
            &&& next.current matches Some(record) ==> runs(record) && (state.pending == Some(record) || state.current
                == Some(record))
            &&& (state.pending matches Some(record) && runs(record)) ==> next.current == state.pending
            &&& !(state.pending matches Some(staged) && runs(staged)) && (state.current matches Some(record) && runs(record))
                ==> next.current == state.current
            &&& image is None ==> next.current is None
            &&& resolved(next, image) == next
        }),
{
}

/// A process is registered under its own key and group leader. Every other process keeps
/// its key, its directory, its groups and its room; only what the parent is known to run may
/// be settled.
pub proof fn law_registering_leaves_the_others<S>(
    processes: Map<i32, EntryView<S>>,
    next_group: u64,
    pid: i32,
    process_slot: Option<u64>,
    facts: RegisterFacts,
    start_time: u64,
    state: S,
    other: i32,
)
    requires
        other != pid,
        processes.dom().contains(other),
    ensures
        ({
            let after = registered(processes, next_group, pid, process_slot, facts, start_time, state);
            let mine = after[pid];
            let kept = after[other];
            let was = processes[other];
            &&& after.dom() == processes.dom().insert(pid)
            &&& mine.key == (PidKey { pid, start_time }) && mine.state == state && mine.process_slot == process_slot
            &&& mine.tgid == if facts.tgid is Some {
                facts.tgid->0
            } else {
                pid
            }
            &&& kept.key == was.key && kept.tgid == was.tgid && kept.state == was.state && kept.cwd == was.cwd
                && kept.cwd_group == was.cwd_group && kept.executable_group == was.executable_group && kept.process_slot
                == was.process_slot
            &&& kept.executable != was.executable ==> {
                let parent = facts.ppid->0;
                &&& facts.ppid is Some && processes.dom().contains(parent)
                &&& was.executable_group == processes[parent].executable_group
                &&& facts.parent_start == Some(processes[parent].key.start_time)
                &&& kept.executable == resolved(processes[parent].executable, optional_image(facts.parent_image))
            }
        }),
{
    let after = registered(processes, next_group, pid, process_slot, facts, start_time, state);
    assert(after.dom() =~= processes.dom().insert(pid));
}

/// A thread joins its leader, where that is registered; a process copies the directory and
/// what runs from its parent, where that is registered and still the same process, into
/// groups of its own; any other process starts with nothing that is known.
pub proof fn law_registered_processes_start_from_leader_or_parent<S>(
    processes: Map<i32, EntryView<S>>,
    next_group: u64,
    pid: i32,
    process_slot: Option<u64>,
    facts: RegisterFacts,
    start_time: u64,
    state: S,
)
    ensures
        ({
            let made = new_entry(processes, next_group, pid, process_slot, facts, start_time, state);
            let is_thread = facts.tgid matches Some(tgid) && tgid != pid;
            let leader = facts.tgid->0;
            let parent = facts.ppid->0;
            let has_parent = !is_thread && facts.ppid is Some && processes.dom().contains(parent);
            &&& is_thread && processes.dom().contains(leader) ==> made.cwd_group == processes[leader].cwd_group && made.cwd
                == processes[leader].cwd && made.executable_group == processes[leader].executable_group && made.executable
                == processes[leader].executable
            &&& !(is_thread && processes.dom().contains(leader)) ==> made.cwd_group == next_group && made.executable_group
                == next_group && made.executable.pending is None
            &&& has_parent ==> made.cwd == processes[parent].cwd
            &&& has_parent && facts.parent_start == Some(processes[parent].key.start_time) ==> made.executable.current
                == resolved(processes[parent].executable, optional_image(facts.parent_image)).current
            &&& has_parent && facts.parent_start != Some(processes[parent].key.start_time)
                ==> made.executable.current is None
            &&& !has_parent && !(is_thread && processes.dom().contains(leader)) ==> made.cwd is None
                && made.executable.current is None
        }),
{
}

/// A directory belongs to the process itself, where it is registered, and otherwise to the
/// leader of its threads. Setting it reaches every process of the same group, and no other;
/// an address space is that of the leader, where that is registered.
pub proof fn law_directories_belong_to_their_group<S>(
    processes: Map<i32, EntryView<S>>,
    pid: i32,
    tgid: Option<i32>,
    group: u64,
    cwd: Option<Seq<u8>>,
    p: i32,
)
    requires
        processes.dom().contains(p),
    ensures
        processes.dom().contains(pid) ==> cwd_holder(processes, pid, tgid) == Some(pid),
        !processes.dom().contains(pid) ==> cwd_holder(processes, pid, tgid) == if (tgid matches Some(leader) && processes.dom().contains(
            leader,
        )) {
            tgid
        } else {
            None
        },
        with_cwd(processes, group, cwd).dom() == processes.dom(),
        processes[p].cwd_group == group ==> with_cwd(processes, group, cwd)[p] == (EntryView { cwd, ..processes[p] }),
        processes[p].cwd_group != group ==> with_cwd(processes, group, cwd)[p] == processes[p],
        address_space(processes, p) == if processes.dom().contains(processes[p].tgid) {
            processes[p].tgid
        } else {
            p
        },
{
    assert(with_cwd(processes, group, cwd).dom() =~= processes.dom());
}

/// What runs belongs to the group that shares it.
pub proof fn law_images_belong_to_their_group<S>(
    processes: Map<i32, EntryView<S>>,
    group: u64,
    executable: ExecutableView,
    p: i32,
)
    requires
        processes.dom().contains(p),
    ensures
        with_executable(processes, group, executable).dom() == processes.dom(),
        processes[p].executable_group == group ==> with_executable(processes, group, executable)[p] == (EntryView {
            executable,
            ..processes[p]
        }),
        processes[p].executable_group != group ==> with_executable(processes, group, executable)[p] == processes[p],
{
    assert(with_executable(processes, group, executable).dom() =~= processes.dom());
}

proof fn lemma_dead_among(keys: Seq<PidKey>, start_times: Seq<Option<u64>>, key: PidKey)
    requires
        keys.len() == start_times.len(),
    ensures
        dead_among(keys, start_times).contains(key) <==> exists|i: int|
            0 <= i < keys.len() && (#[trigger] keys[i]) == key && start_times[i] != Some(key.start_time),
    decreases keys.len(),
{
    if keys.len() > 0 {
        let rest = keys.drop_last();
        let times = start_times.drop_last();
        let before = dead_among(rest, times);
        lemma_dead_among(rest, times, key);
        let last = keys.len() - 1;
        assert(keys[last] == keys.last() && start_times[last] == start_times.last());
        let all = dead_among(keys, start_times);
        if before.contains(key) {
            let k = choose|k: int| 0 <= k < before.len() && before[k] == key;
            assert(all[k] == key);
            let i = choose|i: int| 0 <= i < rest.len() && (#[trigger] rest[i]) == key && times[i] != Some(key.start_time);
            assert(keys[i] == key && start_times[i] != Some(key.start_time));
        }
        if start_times.last() != Some(keys.last().start_time) {
            assert(all == before.push(keys.last()));
            assert(all[before.len() as int] == keys.last());
        }
        if exists|i: int| 0 <= i < keys.len() && (#[trigger] keys[i]) == key && start_times[i] != Some(key.start_time) {
            let i = choose|i: int|
                0 <= i < keys.len() && (#[trigger] keys[i]) == key && start_times[i] != Some(key.start_time);
            if i < last {
                assert(rest[i] == key && times[i] != Some(key.start_time));
            }
        }
    }
}

/// A process is dead exactly where its number is free or was taken by one that was started
/// at another time.
pub proof fn law_dead_processes_are_found(keys: Seq<PidKey>, start_times: Seq<Option<u64>>, key: PidKey)
    requires
        keys.len() == start_times.len(),
    ensures
        dead_among(keys, start_times).contains(key) <==> exists|i: int|
            0 <= i < keys.len() && (#[trigger] keys[i]) == key && start_times[i] != Some(key.start_time),
{
    lemma_dead_among(keys, start_times, key);
}

/// What was started and finished leaves the count as it was.
pub proof fn law_counts_go_up_and_down(count: usize)
    ensures
        one_less(one_more(count)) == count,
        one_more(one_less(count)) == count,
        count < usize::MAX ==> one_more(count) == count + 1,
        count > 0 ==> one_less(count) == count - 1,
{
}

} // verus!
