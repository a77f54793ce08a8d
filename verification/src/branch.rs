//! Explicit lifecycle control for completed copy-on-write filesystem branches.
//!
//! The storage of a branch does its work on a filesystem. Here is what it is told
//! to do, and what a handle makes of each outcome: which calls it takes in which
//! state, and where they lead.

use crate::error::{BranchError, DescriptorFault, SnapshotError, Step};
use crate::path::{copy_bytes, Names};
use crate::path_map::PathMap;
use crate::run::RunResult;
use crate::snapshot::delta::{SnapshotDelta, SnapshotDeltaSummary};
use crate::snapshot::handle;
use crate::snapshot::handle::FsSnapshot;
use crate::snapshot::inspect;
use crate::snapshot::inspect::KeptModes;
use vstd::prelude::*;

verus! {

/// Resolution state of a retained branch.
#[derive(Clone, Copy, Debug, PartialEq, Eq, Structural)]
pub enum BranchState {
    /// The branch is retained and may be committed or aborted.
    Pending,
    /// The branch was merged into its working directory.
    Committed,
    /// The branch was discarded.
    Aborted,
    /// The branch was persisted for a later process to reopen.
    Persisted,
    /// The branch is temporarily owned by a sandbox process.
    Attached,
    /// The branch was preserved for manual recovery.
    Kept,
}

/// How a path differs from the lower layer.
#[derive(Clone, Copy, Debug, PartialEq, Eq, Structural)]
pub enum ChangeKind {
    Added,
    Modified,
    Deleted,
}

/// One changed path.
#[derive(Debug)]
pub struct Change {
    pub kind: ChangeKind,
    pub path: Vec<u8>,
}

/// Bounded view of a pending branch.
#[derive(Debug)]
pub struct BranchInspection {
    /// Retained changed paths, up to the caller's limit for each list.
    pub changes: Vec<Change>,
    /// Total number of changed paths in the branch.
    pub changed_paths: usize,
    /// Retained conflicting paths, up to the caller's limit for each list.
    pub conflicts: Vec<Vec<u8>>,
    /// Total number of conflicting paths in the branch.
    pub conflicting_paths: usize,
}

/// All that a branch has staged, and all that conflicts with it.
#[derive(Debug)]
pub struct Staged {
    pub changes: Vec<Change>,
    pub conflicts: Vec<Vec<u8>>,
}

/// The storage of a branch.
#[derive(Debug)]
pub struct BranchStorage {
    /// The directory of the branch.
    pub storage_dir: Vec<u8>,
    pub workdir: Vec<u8>,
    pub upper_dir: Vec<u8>,
    pub snapshot_backed: bool,
}

/// A branch that another process can find.
#[derive(Debug)]
pub struct PreservedBranch {
    pub branch_dir: Vec<u8>,
}

/// A reusable copy-on-write filesystem branch.
#[must_use]
pub struct FsBranch {
    inner: Option<BranchStorage>,
    workdir: Vec<u8>,
    upper_dir: Vec<u8>,
    state: BranchState,
}

/// What a handle holds.
#[verifier::ext_equal]
pub struct BranchView {
    pub state: BranchState,
    pub workdir: Seq<u8>,
    pub upper_dir: Seq<u8>,
    pub snapshot_backed: bool,
}

impl View for FsBranch {
    type V = BranchView;

    closed spec fn view(&self) -> BranchView {
        BranchView {
            state: self.state,
            workdir: self.workdir@,
            upper_dir: self.upper_dir@,
            snapshot_backed: self.inner is Some && self.inner->0.snapshot_backed,
        }
    }
}

/// The handle on storage that was made or opened.
pub open spec fn opened(storage: BranchStorage) -> BranchView {
    BranchView {
        state: BranchState::Pending,
        workdir: storage.workdir@,
        upper_dir: storage.upper_dir@,
        snapshot_backed: storage.snapshot_backed,
    }
}

/// The handle after its storage was given up.
pub open spec fn resolved(before: BranchView, state: BranchState) -> BranchView {
    BranchView { state, snapshot_backed: false, ..before }
}

/// What may be done with a branch, with its outcome.
pub enum BranchEvent {
    Commit { succeeded: bool },
    Abort { succeeded: bool },
    Persist { succeeded: bool, published: bool },
    Keep { succeeded: bool, published: bool, preserved: bool },
    Take,
}

/// The state that an event leads to.
pub open spec fn state_after(state: BranchState, event: BranchEvent) -> BranchState {
    if !(state is Pending) {
        state
    } else {
        match event {
            BranchEvent::Commit { succeeded } => if succeeded {
                BranchState::Committed
            } else {
                state
            },
            BranchEvent::Abort { succeeded } => if succeeded {
                BranchState::Aborted
            } else {
                state
            },
            BranchEvent::Persist { succeeded, published } => if succeeded || published {
                BranchState::Persisted
            } else {
                state
            },
            BranchEvent::Keep { succeeded, published, preserved } => if succeeded || published || preserved {
                BranchState::Kept
            } else {
                state
            },
            BranchEvent::Take => BranchState::Attached,
        }
    }
}

/// The handle that an event leads to.
pub open spec fn branch_after(before: BranchView, event: BranchEvent) -> BranchView {
    let state = state_after(before.state, event);
    if state is Pending || state == before.state {
        before
    } else {
        resolved(before, state)
    }
}

/// A resolved branch stays as it was resolved, whatever is asked of it.
pub proof fn law_resolution_is_final(before: BranchView, event: BranchEvent)
    requires
        !(before.state is Pending),
    ensures
        branch_after(before, event) == before,
{
}

/// A commit, an abort or a persist that fails leaves the branch pending, with
/// all that it holds.
pub proof fn law_failures_leave_the_branch_pending(before: BranchView)
    requires
        before.state is Pending,
    ensures
        branch_after(before, BranchEvent::Commit { succeeded: false }) == before,
        branch_after(before, BranchEvent::Abort { succeeded: false }) == before,
        branch_after(before, BranchEvent::Persist { succeeded: false, published: false }) == before,
        branch_after(before, BranchEvent::Keep { succeeded: false, published: false, preserved: false }) == before,
{
}

/// What an operation of a branch does next.
#[derive(Debug)]
#[must_use]
pub enum BranchStep<T> {
    /// Let the storage do it.
    Perform,
    Ended(Result<T, BranchError>),
}

/// What an operation does next: the storage of a pending branch does it, and what comes
/// of that is told unchanged. A resolved branch refuses it.
pub open spec fn step_of<T>(state: BranchState, outcome: Option<Result<T, BranchError>>) -> BranchStep<T> {
    if state is Pending {
        match outcome {
            None => BranchStep::Perform,
            Some(result) => BranchStep::Ended(result),
        }
    } else {
        BranchStep::Ended(Err(BranchError::AlreadyResolved))
    }
}

/// Whether an operation was performed and succeeded.
pub open spec fn has_succeeded<T>(outcome: Option<Result<T, BranchError>>) -> bool {
    outcome matches Some(result) && result is Ok
}

/// What was seen so far of a commit.
#[derive(Debug)]
pub struct CommitSeen {
    /// How many paths changed below after the branch first modified them.
    pub conflicts: Option<usize>,
    /// What merging came to.
    pub merged: Option<Result<(), BranchError>>,
}

/// What to do next to commit a branch.
#[derive(Debug)]
pub enum CommitStep {
    LookForConflicts,
    Merge,
    Ended(Result<(), BranchError>),
}

/// What to do next to commit a branch.
pub open spec fn commit_step(before: BranchView, seen: CommitSeen) -> CommitStep {
    if !(before.state is Pending) {
        CommitStep::Ended(Err(BranchError::AlreadyResolved))
    } else if before.snapshot_backed {
        CommitStep::Ended(Err(BranchError::Denied))
    } else {
        match (seen.conflicts, seen.merged) {
            (None, _) => CommitStep::LookForConflicts,
            (Some(count), merged) => if count != 0 {
                CommitStep::Ended(Err(BranchError::Conflict { count }))
            } else {
                match merged {
                    None => CommitStep::Merge,
                    Some(outcome) => CommitStep::Ended(outcome),
                }
            },
        }
    }
}

/// A branch with conflicts and one over a snapshot cannot be committed: nothing is merged,
/// the commit fails, and the branch stays pending.
pub proof fn law_refused_commits_merge_nothing(before: BranchView, seen: CommitSeen)
    requires
        before.state is Pending,
        before.snapshot_backed || (seen.conflicts matches Some(count) && count != 0),
    ensures
        commit_step(before, seen) matches CommitStep::Ended(result) && result is Err,
        before.snapshot_backed ==> commit_step(before, seen) == CommitStep::Ended(Err(BranchError::Denied)),
        branch_after(before, BranchEvent::Commit { succeeded: false }) == before,
{
}

/// Whether an outcome says that the branch is preserved though a step failed.
pub open spec fn is_published<T>(outcome: Option<Result<T, BranchError>>) -> bool {
    outcome matches Some(Err(BranchError::Published))
}

/// What a checkpoint does next.
#[must_use]
pub enum CheckpointStep {
    /// Capture the lower with the upper over it, in a directory below `below`.
    Capture { lower: Vec<u8>, upper: Vec<u8>, below: Vec<u8> },
    Ended(Result<FsSnapshot, BranchError>),
}

/// What applying a delta to a branch does next.
#[derive(Debug)]
pub enum DeltaStep {
    /// Write the changes of the delta into the upper layer at `upper`.
    Write { upper: Vec<u8> },
    Ended(Result<SnapshotDeltaSummary, BranchError>),
}

/// What lies below a branch over a snapshot.
pub struct Below {
    /// The tree of the snapshot.
    pub tree_dir: Vec<u8>,
    pub snapshot_dir: Vec<u8>,
    /// Whether the snapshot was not destroyed through its handle.
    pub is_live: bool,
}

/// What lies below a branch over a snapshot.
#[verifier::ext_equal]
pub struct BelowView {
    pub tree_dir: Seq<u8>,
    pub snapshot_dir: Seq<u8>,
    pub is_live: bool,
}

/// What a handle tells of its snapshot.
pub open spec fn below_of(snapshot: handle::Handle) -> BelowView {
    BelowView {
        tree_dir: snapshot.tree_dir,
        snapshot_dir: snapshot.descriptor.snapshot_dir,
        is_live: !snapshot.destroyed,
    }
}

/// How far the making of a branch is.
#[derive(Clone, Copy, Debug, PartialEq, Eq, Structural)]
pub enum MakeStage {
    /// The storage is made or opened.
    Create,
    /// The modes of the snapshot are read.
    ReadModes,
    /// The modes are handed to the storage.
    SetModes,
    /// The snapshot is leased.
    Lease,
    /// The storage begins to watch for conflicts.
    Track,
    Ended,
}

/// A branch that is being made.
pub struct BranchMaking {
    stage: MakeStage,
    below: Option<Below>,
    keeps_backing: bool,
    storage: Option<BranchStorage>,
}

/// The storage of a branch.
#[verifier::ext_equal]
pub struct StorageView {
    pub storage_dir: Seq<u8>,
    pub workdir: Seq<u8>,
    pub upper_dir: Seq<u8>,
    pub snapshot_backed: bool,
}

impl View for BranchStorage {
    type V = StorageView;

    open spec fn view(&self) -> StorageView {
        StorageView {
            storage_dir: self.storage_dir@,
            workdir: self.workdir@,
            upper_dir: self.upper_dir@,
            snapshot_backed: self.snapshot_backed,
        }
    }
}

/// A branch that is being made.
#[verifier::ext_equal]
pub struct Making {
    pub stage: MakeStage,
    /// The snapshot below, where there is one.
    pub below: Option<BelowView>,
    /// Whether the storage tells itself if a snapshot lies below.
    pub keeps_backing: bool,
    pub storage: Option<StorageView>,
}

impl View for BranchMaking {
    type V = Making;

    closed spec fn view(&self) -> Making {
        Making {
            stage: self.stage,
            below: match self.below {
                Some(below) => Some(
                    BelowView {
                        tree_dir: below.tree_dir@,
                        snapshot_dir: below.snapshot_dir@,
                        is_live: below.is_live,
                    },
                ),
                None => None,
            },
            keeps_backing: self.keeps_backing,
            storage: match self.storage {
                Some(storage) => Some(storage@),
                None => None,
            },
        }
    }
}

/// What was seen of the step that was told last.
pub enum MakeEvent {
    /// The storage was made or opened.
    Made(Result<BranchStorage, BranchError>),
    /// The modes that the snapshot keeps.
    Modes(KeptModes),
    /// The lease on the snapshot.
    Leased(Result<(), SnapshotError>),
    /// The step was done.
    Done,
}

/// What to do next to make a branch.
#[must_use]
pub enum MakeStep {
    /// Make storage over `lower`, below `storage` where that is given. Nothing limits its
    /// size where `max_disk_bytes` is zero.
    Create { lower: Vec<u8>, storage: Option<Vec<u8>>, max_disk_bytes: u64 },
    /// Open the storage at `branch_dir`.
    Reopen { branch_dir: Vec<u8> },
    /// Read the modes that are kept beside `tree_dir`.
    ReadModes { tree_dir: Vec<u8> },
    /// Hand the modes of the lower directories to the storage.
    SetModes { modes: PathMap<u32> },
    /// Lease the snapshot to the branch.
    Lease { snapshot_dir: Vec<u8>, branch_dir: Vec<u8> },
    /// Have the storage watch for conflicts.
    TrackConflicts,
    Ended(Result<FsBranch, BranchError>),
    /// What was told does not belong to this stage.
    Refuse,
}

/// What to do next to make a branch.
#[verifier::ext_equal]
pub enum MakeAsk {
    Create { lower: Seq<u8>, storage: Option<Seq<u8>>, max_disk_bytes: u64 },
    Reopen { branch_dir: Seq<u8> },
    ReadModes { tree_dir: Seq<u8> },
    SetModes { modes: Map<Names, u32> },
    Lease { snapshot_dir: Seq<u8>, branch_dir: Seq<u8> },
    TrackConflicts,
    Ended(Result<BranchView, BranchError>),
    Refuse,
}

impl View for MakeStep {
    type V = MakeAsk;

    open spec fn view(&self) -> MakeAsk {
        match *self {
            MakeStep::Create { lower, storage, max_disk_bytes } => MakeAsk::Create {
                lower: lower@,
                storage: match storage {
                    Some(storage) => Some(storage@),
                    None => None,
                },
                max_disk_bytes,
            },
            MakeStep::Reopen { branch_dir } => MakeAsk::Reopen { branch_dir: branch_dir@ },
            MakeStep::ReadModes { tree_dir } => MakeAsk::ReadModes { tree_dir: tree_dir@ },
            MakeStep::SetModes { modes } => MakeAsk::SetModes { modes: modes@ },
            MakeStep::Lease { snapshot_dir, branch_dir } => MakeAsk::Lease {
                snapshot_dir: snapshot_dir@,
                branch_dir: branch_dir@,
            },
            MakeStep::TrackConflicts => MakeAsk::TrackConflicts,
            MakeStep::Ended(Ok(branch)) => MakeAsk::Ended(Ok(branch@)),
            MakeStep::Ended(Err(error)) => MakeAsk::Ended(Err(error)),
            MakeStep::Refuse => MakeAsk::Refuse,
        }
    }
}

/// A branch whose making has begun.
pub open spec fn begun_at(below: Option<BelowView>, keeps_backing: bool) -> Making {
    Making { stage: MakeStage::Create, below, keeps_backing, storage: None }
}

/// The storage as the branch holds it. Over a snapshot its lower is the tree of the
/// snapshot.
pub open spec fn held_storage(making: Making, made: StorageView) -> StorageView {
    match making.below {
        Some(below) => StorageView { workdir: below.tree_dir, snapshot_backed: true, ..made },
        None => StorageView { snapshot_backed: making.keeps_backing && made.snapshot_backed, ..made },
    }
}

/// Why the modes of a snapshot cannot be had.
pub open spec fn modes_fault(modes: KeptModes) -> Option<SnapshotError> {
    match modes {
        KeptModes::Unreadable => Some(SnapshotError::Operation(Step::InspectEntry)),
        KeptModes::Malformed => Some(SnapshotError::InvalidDescriptor(DescriptorFault::MetadataUnreadable)),
        _ => None,
    }
}

/// What to do next to make a branch, and how far it is.
pub open spec fn make_step(making: Making, event: MakeEvent) -> (Making, MakeAsk) {
    let at = |stage: MakeStage| Making { stage, ..making };
    match (making.stage, event) {
        (MakeStage::Create, MakeEvent::Made(Err(error))) => (
            at(MakeStage::Ended),
            MakeAsk::Ended(Err(error)),
        ),
        (MakeStage::Create, MakeEvent::Made(Ok(made))) => {
            let storage = Some(held_storage(making, made@));
            match making.below {
                None => (Making { stage: MakeStage::Track, storage, ..making }, MakeAsk::TrackConflicts),
                Some(below) => (
                    Making { stage: MakeStage::ReadModes, storage, ..making },
                    MakeAsk::ReadModes { tree_dir: below.tree_dir },
                ),
            }
        },
        (MakeStage::ReadModes, MakeEvent::Modes(modes)) => match modes_fault(modes) {
            Some(fault) => (at(MakeStage::Ended), MakeAsk::Ended(Err(BranchError::Snapshot(fault)))),
            None => (at(MakeStage::SetModes), MakeAsk::SetModes { modes: inspect::held_modes(modes) }),
        },
        (MakeStage::SetModes, MakeEvent::Done) => match (making.below, making.storage) {
            (Some(below), Some(storage)) => if below.is_live {
                (
                    at(MakeStage::Lease),
                    MakeAsk::Lease { snapshot_dir: below.snapshot_dir, branch_dir: storage.storage_dir },
                )
            } else {
                (at(MakeStage::Ended), MakeAsk::Ended(Err(BranchError::Snapshot(SnapshotError::AlreadyDestroyed))))
            },
            _ => (making, MakeAsk::Refuse),
        },
        (MakeStage::Lease, MakeEvent::Leased(Ok(_))) => (at(MakeStage::Track), MakeAsk::TrackConflicts),
        (MakeStage::Lease, MakeEvent::Leased(Err(error))) => (
            at(MakeStage::Ended),
            MakeAsk::Ended(Err(BranchError::Snapshot(error))),
        ),
        (MakeStage::Track, MakeEvent::Done) => match making.storage {
            Some(storage) => (
                Making { stage: MakeStage::Ended, storage: None, ..making },
                MakeAsk::Ended(
                    Ok(
                        BranchView {
                            state: BranchState::Pending,
                            workdir: storage.workdir,
                            upper_dir: storage.upper_dir,
                            snapshot_backed: storage.snapshot_backed,
                        },
                    ),
                ),
            ),
            None => (making, MakeAsk::Refuse),
        },
        _ => (making, MakeAsk::Refuse),
    }
}

/// How far a branch is after some events.
pub open spec fn made_after(making: Making, events: Seq<MakeEvent>) -> Making
    decreases events.len(),
{
    if events.len() == 0 {
        making
    } else {
        make_step(made_after(making, events.drop_last()), events.last()).0
    }
}

/// A branch over a snapshot comes to a handle only after its storage was made over the
/// tree of the snapshot, the modes of the snapshot were handed to it and the snapshot
/// was leased to it, in this order. The handle then works over that tree, and is never
/// merged into it.
pub proof fn law_snapshot_branches_hold_a_lease(below: BelowView, events: Seq<MakeEvent>, last: MakeEvent)
    requires
        make_step(made_after(begun_at(Some(below), false), events), last).1 matches MakeAsk::Ended(result)
            && result is Ok,
    ensures
        below.is_live,
        make_step(made_after(begun_at(Some(below), false), events), last).1->Ended_0->Ok_0.workdir
            == below.tree_dir,
        make_step(made_after(begun_at(Some(below), false), events), last).1->Ended_0->Ok_0.snapshot_backed,
        exists|made: int, read: int, set: int, leased: int|
            0 <= made < read < set < leased < events.len() && #[trigger] is_made(events, made)
                && #[trigger] is_read(events, read) && #[trigger] is_done(events, set)
                && #[trigger] is_leased(events, leased),
{
    lemma_making(below, events);
}

/// Whether an event told that the storage was made.
pub open spec fn is_made(events: Seq<MakeEvent>, at: int) -> bool {
    events[at] matches MakeEvent::Made(made) && made is Ok
}

/// Whether an event told the modes of the snapshot.
pub open spec fn is_read(events: Seq<MakeEvent>, at: int) -> bool {
    events[at] matches MakeEvent::Modes(modes) && modes_fault(modes) is None
}

/// Whether an event told that a step was done.
pub open spec fn is_done(events: Seq<MakeEvent>, at: int) -> bool {
    events[at] is Done
}

/// Whether an event told that the snapshot was leased.
pub open spec fn is_leased(events: Seq<MakeEvent>, at: int) -> bool {
    events[at] matches MakeEvent::Leased(leased) && leased is Ok
}

proof fn lemma_making(below: BelowView, events: Seq<MakeEvent>)
    ensures
        ({
            let making = made_after(begun_at(Some(below), false), events);
            &&& making.below == Some(below)
            &&& making.stage is Create || making.stage is Ended || (making.storage matches Some(storage) && {
                &&& storage.workdir == below.tree_dir
                &&& storage.snapshot_backed
            })
            &&& making.stage is ReadModes ==> exists|made: int|
                0 <= made < events.len() && #[trigger] is_made(events, made)
            &&& making.stage is SetModes ==> exists|made: int, read: int|
                0 <= made < read < events.len() && #[trigger] is_made(events, made) && #[trigger] is_read(
                    events,
                    read,
                )
            &&& making.stage is Lease ==> below.is_live && exists|made: int, read: int, set: int|
                0 <= made < read < set < events.len() && #[trigger] is_made(events, made) && #[trigger] is_read(
                    events,
                    read,
                ) && #[trigger] is_done(events, set)
            &&& making.stage is Track ==> below.is_live && exists|made: int, read: int, set: int, leased: int|
                0 <= made < read < set < leased < events.len() && #[trigger] is_made(events, made)
                    && #[trigger] is_read(events, read) && #[trigger] is_done(events, set)
                    && #[trigger] is_leased(events, leased)
        }),
    decreases events.len(),
{
    if events.len() > 0 {
        let before = events.drop_last();
        let making = made_after(begun_at(Some(below), false), before);
        let at = events.len() - 1;
        lemma_making(below, before);
        match (making.stage, events.last()) {
            (MakeStage::Create, MakeEvent::Made(Ok(_))) => {
                assert(is_made(events, at));
            },
            (MakeStage::ReadModes, _) => {
                let made = choose|made: int| 0 <= made < before.len() && #[trigger] is_made(before, made);
                assert(is_made(events, made));
                assert(events.last() is Modes && modes_fault(events.last()->Modes_0) is None ==> is_read(events, at));
            },
            (MakeStage::SetModes, _) => {
                let (made, read) = choose|made: int, read: int|
                    0 <= made < read < before.len() && #[trigger] is_made(before, made) && #[trigger] is_read(
                        before,
                        read,
                    );
                assert(is_made(events, made) && is_read(events, read));
                assert(events.last() is Done ==> is_done(events, at));
            },
            (MakeStage::Lease, _) => {
                let (made, read, set) = choose|made: int, read: int, set: int|
                    0 <= made < read < set < before.len() && #[trigger] is_made(before, made) && #[trigger] is_read(
                        before,
                        read,
                    ) && #[trigger] is_done(before, set);
                assert(is_made(events, made) && is_read(events, read) && is_done(events, set));
                assert((events.last() matches MakeEvent::Leased(leased) && leased is Ok) ==> is_leased(events, at));
            },
            (MakeStage::Track, _) => {
                let (made, read, set, leased) = choose|made: int, read: int, set: int, leased: int|
                    0 <= made < read < set < leased < before.len() && #[trigger] is_made(before, made)
                        && #[trigger] is_read(before, read) && #[trigger] is_done(before, set)
                        && #[trigger] is_leased(before, leased);
                assert(is_made(events, made) && is_read(events, read) && is_done(events, set));
                assert(is_leased(events, leased));
            },
            _ => {},
        }
    }
}

impl BranchMaking {
    /// Takes what was seen of the last step, and tells the next. A branch that is made
    /// watches for conflicts; one over a snapshot first gets the modes of the snapshot
    /// and a lease on it.
    pub fn advance(&mut self, event: MakeEvent) -> (step: MakeStep)
        requires
            event matches MakeEvent::Modes(modes) ==> inspect::modes_wf(modes),
        ensures
            (final(self)@, step@) == make_step(old(self)@, event),
            step matches MakeStep::SetModes { modes } ==> modes.wf(),
            step matches MakeStep::Ended(Ok(branch)) ==> branch.wf(),
    {
        match (self.stage, event) {
            (MakeStage::Create, MakeEvent::Made(Err(error))) => {
                self.stage = MakeStage::Ended;
                MakeStep::Ended(Err(error))
            },
            (MakeStage::Create, MakeEvent::Made(Ok(made))) => {
                let mut held = made;
                match &self.below {
                    None => {
                        held.snapshot_backed = self.keeps_backing && held.snapshot_backed;
                        self.storage = Some(held);
                        self.stage = MakeStage::Track;
                        MakeStep::TrackConflicts
                    },
                    Some(below) => {
                        held.snapshot_backed = true;
                        held.workdir = copy_bytes(below.tree_dir.as_slice());
                        let tree_dir = copy_bytes(below.tree_dir.as_slice());
                        self.storage = Some(held);
                        self.stage = MakeStage::ReadModes;
                        MakeStep::ReadModes { tree_dir }
                    },
                }
            },
            (MakeStage::ReadModes, MakeEvent::Modes(modes)) => match modes {
                KeptModes::Unreadable => {
                    self.stage = MakeStage::Ended;
                    MakeStep::Ended(Err(BranchError::Snapshot(SnapshotError::Operation(Step::InspectEntry))))
                },
                KeptModes::Malformed => {
                    self.stage = MakeStage::Ended;
                    MakeStep::Ended(
                        Err(
                            BranchError::Snapshot(
                                SnapshotError::InvalidDescriptor(DescriptorFault::MetadataUnreadable),
                            ),
                        ),
                    )
                },
                KeptModes::Missing => {
                    self.stage = MakeStage::SetModes;
                    MakeStep::SetModes { modes: PathMap::new() }
                },
                KeptModes::Held(modes) => {
                    self.stage = MakeStage::SetModes;
                    MakeStep::SetModes { modes }
                },
            },
            (MakeStage::SetModes, MakeEvent::Done) => match (&self.below, &self.storage) {
                (Some(below), Some(storage)) => {
                    if below.is_live {
                        let step = MakeStep::Lease {
                            snapshot_dir: copy_bytes(below.snapshot_dir.as_slice()),
                            branch_dir: copy_bytes(storage.storage_dir.as_slice()),
                        };
                        self.stage = MakeStage::Lease;
                        step
                    } else {
                        self.stage = MakeStage::Ended;
                        MakeStep::Ended(Err(BranchError::Snapshot(SnapshotError::AlreadyDestroyed)))
                    }
                },
                _ => MakeStep::Refuse,
            },
            (MakeStage::Lease, MakeEvent::Leased(Ok(_))) => {
                self.stage = MakeStage::Track;
                MakeStep::TrackConflicts
            },
            (MakeStage::Lease, MakeEvent::Leased(Err(error))) => {
                self.stage = MakeStage::Ended;
                MakeStep::Ended(Err(BranchError::Snapshot(error)))
            },
            (MakeStage::Track, MakeEvent::Done) => match self.storage.take() {
                Some(storage) => {
                    self.stage = MakeStage::Ended;
                    MakeStep::Ended(Ok(FsBranch::attach(storage)))
                },
                None => MakeStep::Refuse,
            },
            _ => MakeStep::Refuse,
        }
    }
}

impl FsBranch {
    /// A handle holds storage exactly while it is pending.
    pub closed spec fn wf(&self) -> bool {
        &&& self.inner is Some <==> self.state is Pending
        &&& self.inner matches Some(storage) ==> storage.workdir@ == self.workdir@ && storage.upper_dir@
            == self.upper_dir@
    }

    /// Begins a branch over `workdir` with storage of its own choice and size. Tells
    /// what to do first.
    pub fn create(workdir: &[u8]) -> (begun: (BranchMaking, MakeStep))
        ensures
            begun.0@ == begun_at(None, false),
            begun.1@ == (MakeAsk::Create { lower: workdir@, storage: None, max_disk_bytes: 0 }),
    {
        let making = BranchMaking { stage: MakeStage::Create, below: None, keeps_backing: false, storage: None };
        (making, MakeStep::Create { lower: copy_bytes(workdir), storage: None, max_disk_bytes: 0 })
    }

    /// Begins to open a branch that was persisted before. A snapshot that lay below it
    /// still does. Tells what to do first.
    pub fn reopen(preserved: &PreservedBranch) -> (begun: (BranchMaking, MakeStep))
        ensures
            begun.0@ == begun_at(None, true),
            begun.1@ == (MakeAsk::Reopen { branch_dir: preserved.branch_dir@ }),
    {
        let making = BranchMaking { stage: MakeStage::Create, below: None, keeps_backing: true, storage: None };
        (making, MakeStep::Reopen { branch_dir: copy_bytes(preserved.branch_dir.as_slice()) })
    }

    /// Begins a branch whose immutable lower is `snapshot`, with storage of any size
    /// below `storage`. Tells what to do first.
    pub fn from_snapshot(snapshot: &FsSnapshot, storage: &[u8]) -> (begun: (BranchMaking, MakeStep))
        ensures
            begun.0@ == begun_at(Some(below_of(snapshot@)), false),
            begun.1@ == (MakeAsk::Create {
                lower: snapshot@.tree_dir,
                storage: Some(storage@),
                max_disk_bytes: 0,
            }),
    {
        FsBranch::from_snapshot_options(snapshot, Some(storage), 0)
    }

    /// Begins a branch whose immutable lower is `snapshot`, with storage below
    /// `storage` that may hold `max_disk_bytes`; nothing limits it where that is zero.
    /// Tells what to do first.
    pub fn from_snapshot_with_quota(snapshot: &FsSnapshot, storage: &[u8], max_disk_bytes: u64) -> (begun: (
        BranchMaking,
        MakeStep,
    ))
        ensures
            begun.0@ == begun_at(Some(below_of(snapshot@)), false),
            begun.1@ == (MakeAsk::Create { lower: snapshot@.tree_dir, storage: Some(storage@), max_disk_bytes }),
    {
        FsBranch::from_snapshot_options(snapshot, Some(storage), max_disk_bytes)
    }

    /// Begins a branch whose immutable lower is `snapshot`, with storage below `storage`,
    /// or of its own choice where that is not given. Tells what to do first.
    pub fn from_snapshot_options(snapshot: &FsSnapshot, storage: Option<&[u8]>, max_disk_bytes: u64) -> (begun: (
        BranchMaking,
        MakeStep,
    ))
        ensures
            begun.0@ == begun_at(Some(below_of(snapshot@)), false),
            begun.1@ == (MakeAsk::Create {
                lower: snapshot@.tree_dir,
                storage: match storage {
                    Some(below) => Some(below@),
                    None => None,
                },
                max_disk_bytes,
            }),
    {
        let below = Below {
            tree_dir: copy_bytes(snapshot.root_dir()),
            snapshot_dir: copy_bytes(snapshot.descriptor().snapshot_dir()),
            is_live: snapshot.ensure_live().is_ok(),
        };
        let step = MakeStep::Create {
            lower: copy_bytes(snapshot.root_dir()),
            storage: match storage {
                Some(below) => Some(copy_bytes(below)),
                None => None,
            },
            max_disk_bytes,
        };
        (BranchMaking { stage: MakeStage::Create, below: Some(below), keeps_backing: false, storage: None }, step)
    }

    /// Captures the merged view of a branch below `storage`: tells what to capture, and
    /// what comes of it. The branch stays as it is.
    pub fn checkpoint(&self, storage: &[u8], captured: Option<Result<FsSnapshot, BranchError>>) -> (step:
        CheckpointStep)
        requires
            self.wf(),
        ensures
            match (self@.state, captured) {
                (BranchState::Pending, None) => step matches CheckpointStep::Capture { lower, upper, below } && {
                    &&& lower@ == self@.workdir
                    &&& upper@ == self@.upper_dir
                    &&& below@ == storage@
                },
                (BranchState::Pending, Some(result)) => step == CheckpointStep::Ended(result),
                _ => step == CheckpointStep::Ended(Err(BranchError::AlreadyResolved)),
            },
    {
        match (self.state, captured) {
            (BranchState::Pending, None) => CheckpointStep::Capture {
                lower: copy_bytes(self.workdir.as_slice()),
                upper: copy_bytes(self.upper_dir.as_slice()),
                below: copy_bytes(storage),
            },
            (BranchState::Pending, Some(result)) => CheckpointStep::Ended(result),
            _ => CheckpointStep::Ended(Err(BranchError::AlreadyResolved)),
        }
    }

    fn attach(storage: BranchStorage) -> (branch: FsBranch)
        ensures
            branch.wf(),
            branch@ == opened(storage),
    {
        FsBranch {
            workdir: copy_bytes(storage.workdir.as_slice()),
            upper_dir: copy_bytes(storage.upper_dir.as_slice()),
            inner: Some(storage),
            state: BranchState::Pending,
        }
    }

    /// Current resolution state.
    pub fn state(&self) -> (state: BranchState)
        ensures
            state == self@.state,
    {
        self.state
    }

    /// Lower working directory into which a successful commit is merged.
    pub fn workdir(&self) -> (dir: &[u8])
        ensures
            dir@ == self@.workdir,
    {
        self.workdir.as_slice()
    }

    /// The working directory in its role as the lower layer.
    pub fn lower_dir(&self) -> (dir: &[u8])
        ensures
            dir@ == self@.workdir,
    {
        self.workdir.as_slice()
    }

    /// Upper directory containing staged file additions and writes.
    pub fn upper_dir(&self) -> (dir: &[u8])
        ensures
            dir@ == self@.upper_dir,
    {
        self.upper_dir.as_slice()
    }

    /// Whether this branch uses an immutable snapshot as its lower.
    pub fn is_snapshot_backed(&self) -> (backed: bool)
        requires
            self.wf(),
        ensures
            backed == self@.snapshot_backed,
            !(self@.state is Pending) ==> !backed,
    {
        match &self.inner {
            Some(storage) => storage.snapshot_backed,
            None => false,
        }
    }

    fn next_step<T>(&self, outcome: Option<Result<T, BranchError>>) -> (step: BranchStep<T>)
        ensures
            step == step_of(self@.state, outcome),
    {
        match self.state {
            BranchState::Pending => match outcome {
                None => BranchStep::Perform,
                Some(result) => BranchStep::Ended(result),
            },
            _ => BranchStep::Ended(Err(BranchError::AlreadyResolved)),
        }
    }

    /// Lists the staged changes: added, modified and deleted paths.
    pub fn changes(&self, found: Option<Result<Vec<Change>, BranchError>>) -> (step: BranchStep<Vec<Change>>)
        requires
            self.wf(),
        ensures
            step == step_of(self@.state, found),
    {
        self.next_step(found)
    }

    /// Lists the conflicts: paths whose lower state changed after this branch first
    /// modified them.
    pub fn conflicts(&self, found: Option<Vec<Vec<u8>>>) -> (step: BranchStep<Vec<Vec<u8>>>)
        requires
            self.wf(),
        ensures
            step == step_of(
                self@.state,
                match found {
                    None => None,
                    Some(paths) => Some(Ok::<Vec<Vec<u8>>, BranchError>(paths)),
                },
            ),
    {
        self.next_step(
            match found {
                None => None,
                Some(paths) => Some(Ok(paths)),
            },
        )
    }

    /// Looks at the branch, and keeps at most `max_paths` of its changes and of its
    /// conflicts. The counts cover all of them.
    pub fn inspect(&self, max_paths: usize, found: Option<Result<Staged, BranchError>>) -> (step: BranchStep<
        BranchInspection,
    >)
        requires
            self.wf(),
        ensures
            match (self@.state, found) {
                (BranchState::Pending, None) => step == BranchStep::<BranchInspection>::Perform,
                (BranchState::Pending, Some(Ok(staged))) => step matches BranchStep::Ended(Ok(seen)) && {
                    &&& seen.changed_paths == staged.changes@.len()
                    &&& seen.conflicting_paths == staged.conflicts@.len()
                    &&& seen.changes@ == first_of(staged.changes@, max_paths as int)
                    &&& seen.conflicts@ == first_of(staged.conflicts@, max_paths as int)
                },
                (BranchState::Pending, Some(Err(error))) => step == BranchStep::<BranchInspection>::Ended(Err(error)),
                _ => step == BranchStep::<BranchInspection>::Ended(Err(BranchError::AlreadyResolved)),
            },
    {
        let staged = match self.next_step(found) {
            BranchStep::Perform => {
                return BranchStep::Perform;
            },
            BranchStep::Ended(Err(error)) => {
                return BranchStep::Ended(Err(error));
            },
            BranchStep::Ended(Ok(staged)) => staged,
        };
        let changed_paths: usize = staged.changes.len();
        let conflicting_paths: usize = staged.conflicts.len();
        let mut changes = staged.changes;
        let mut conflicts = staged.conflicts;
        if changes.len() > max_paths {
            changes.truncate(max_paths);
        }
        if conflicts.len() > max_paths {
            conflicts.truncate(max_paths);
        }
        proof {
            assert(changes@ =~= first_of(staged.changes@, max_paths as int));
            assert(conflicts@ =~= first_of(staged.conflicts@, max_paths as int));
        }
        BranchStep::Ended(Ok(BranchInspection { changes, changed_paths, conflicts, conflicting_paths }))
    }

    /// Applies a validated delta to the branch: tells where to write it, and what comes
    /// of it. The branch stays pending. How the storage writes the changes into the
    /// upper layer is not said here.
    pub fn apply_snapshot_delta(&mut self, delta: &SnapshotDelta, written: Option<Result<(), BranchError>>) -> (step:
        DeltaStep)
        requires
            old(self).wf(),
        ensures
            final(self).wf(),
            final(self)@ == old(self)@,
            match (old(self)@.state, written) {
                (BranchState::Pending, None) => step matches DeltaStep::Write { upper } && upper@
                    == old(self)@.upper_dir,
                (BranchState::Pending, Some(Ok(_))) => step == DeltaStep::Ended(Ok(delta.summary)),
                (BranchState::Pending, Some(Err(error))) => step == DeltaStep::Ended(Err(error)),
                _ => step == DeltaStep::Ended(Err(BranchError::AlreadyResolved)),
            },
    {
        match (self.state, written) {
            (BranchState::Pending, None) => DeltaStep::Write { upper: copy_bytes(self.upper_dir.as_slice()) },
            (BranchState::Pending, Some(Ok(_))) => DeltaStep::Ended(Ok(delta.summary)),
            (BranchState::Pending, Some(Err(error))) => DeltaStep::Ended(Err(error)),
            _ => DeltaStep::Ended(Err(BranchError::AlreadyResolved)),
        }
    }

    /// Tells what to do next to merge the branch into its working directory, from what was
    /// seen so far. Nothing is merged over a conflict or into a snapshot, and a branch
    /// that was not merged stays pending.
    pub fn commit(&mut self, seen: CommitSeen) -> (step: CommitStep)
        requires
            old(self).wf(),
        ensures
            final(self).wf(),
            step == commit_step(old(self)@, seen),
            final(self)@ == branch_after(
                old(self)@,
                BranchEvent::Commit { succeeded: step matches CommitStep::Ended(Ok(_)) },
            ),
    {
        if self.state != BranchState::Pending {
            return CommitStep::Ended(Err(BranchError::AlreadyResolved));
        }
        if self.is_snapshot_backed() {
            return CommitStep::Ended(Err(BranchError::Denied));
        }
        match seen.conflicts {
            None => CommitStep::LookForConflicts,
            Some(count) => {
                if count != 0 {
                    return CommitStep::Ended(Err(BranchError::Conflict { count }));
                }
                match seen.merged {
                    None => CommitStep::Merge,
                    Some(Ok(done)) => {
                        self.inner = None;
                        self.state = BranchState::Committed;
                        CommitStep::Ended(Ok(done))
                    },
                    Some(Err(error)) => CommitStep::Ended(Err(error)),
                }
            },
        }
    }

    /// Discards the staged changes. A failed abort leaves the branch pending.
    pub fn abort(&mut self, discarded: Option<Result<(), BranchError>>) -> (step: BranchStep<()>)
        requires
            old(self).wf(),
        ensures
            final(self).wf(),
            step == step_of(old(self)@.state, discarded),
            final(self)@ == branch_after(old(self)@, BranchEvent::Abort { succeeded: has_succeeded(discarded) }),
    {
        let step = self.next_step(discarded);
        if self.state == BranchState::Pending {
            match &step {
                BranchStep::Ended(Ok(_)) => {
                    self.inner = None;
                    self.state = BranchState::Aborted;
                },
                _ => {},
            }
        }
        step
    }

    /// Persists the branch for another process. A branch that was preserved though a
    /// later step failed is resolved too.
    pub fn persist(&mut self, preserved: Option<Result<PreservedBranch, BranchError>>) -> (step: BranchStep<
        PreservedBranch,
    >)
        requires
            old(self).wf(),
        ensures
            final(self).wf(),
            step == step_of(old(self)@.state, preserved),
            final(self)@ == branch_after(
                old(self)@,
                BranchEvent::Persist { succeeded: has_succeeded(preserved), published: is_published(preserved) },
            ),
    {
        let step = self.next_step(preserved);
        if self.state == BranchState::Pending {
            match &step {
                BranchStep::Ended(Ok(_)) | BranchStep::Ended(Err(BranchError::Published)) => {
                    self.inner = None;
                    self.state = BranchState::Persisted;
                },
                _ => {},
            }
        }
        step
    }

    /// Preserves the staged changes for manual recovery. Storage that is retained
    /// resolves the handle, whatever else failed.
    pub fn keep(&mut self, preserved: Option<Result<PreservedBranch, BranchError>>, is_preserved: bool) -> (step:
        BranchStep<PreservedBranch>)
        requires
            old(self).wf(),
        ensures
            final(self).wf(),
            step == step_of(old(self)@.state, preserved),
            final(self)@ == branch_after(
                old(self)@,
                BranchEvent::Keep {
                    succeeded: has_succeeded(preserved),
                    published: is_published(preserved),
                    preserved: preserved is Some && is_preserved,
                },
            ),
    {
        let step = self.next_step(preserved);
        if self.state == BranchState::Pending {
            let is_resolved = match &step {
                BranchStep::Perform => false,
                BranchStep::Ended(Ok(_)) | BranchStep::Ended(Err(BranchError::Published)) => true,
                BranchStep::Ended(Err(_)) => is_preserved,
            };
            if is_resolved {
                self.inner = None;
                self.state = BranchState::Kept;
            }
        }
        step
    }

    /// Hands the storage to a sandbox process.
    pub fn take_cow(&mut self) -> (result: Result<BranchStorage, BranchError>)
        requires
            old(self).wf(),
        ensures
            final(self).wf(),
            final(self)@ == branch_after(old(self)@, BranchEvent::Take),
            if old(self)@.state is Pending {
                result matches Ok(storage) && opened(storage) == old(self)@
            } else {
                result == Err::<BranchStorage, BranchError>(BranchError::AlreadyResolved)
            },
    {
        match self.inner.take() {
            Some(storage) => {
                self.state = BranchState::Attached;
                Ok(storage)
            },
            None => Err(BranchError::AlreadyResolved),
        }
    }

    /// Takes storage back from a sandbox process.
    pub fn replace_cow(&mut self, storage: BranchStorage)
        requires
            old(self).wf(),
        ensures
            final(self).wf(),
            final(self)@ == opened(storage),
    {
        self.workdir = copy_bytes(storage.workdir.as_slice());
        self.upper_dir = copy_bytes(storage.upper_dir.as_slice());
        self.inner = Some(storage);
        self.state = BranchState::Pending;
    }

    /// Whether dropping the handle has to abort its branch.
    pub fn aborts_when_dropped(&self) -> (aborts: bool)
        requires
            self.wf(),
        ensures
            aborts == self@.state is Pending,
    {
        self.inner.is_some()
    }
}

/// The first of some items.
pub open spec fn first_of<T>(items: Seq<T>, count: int) -> Seq<T> {
    if items.len() <= count {
        items
    } else {
        items.take(count)
    }
}

/// A completed sandbox run whose changes await an explicit commit or abort
/// decision.
#[must_use]
pub struct PendingRunResult {
    /// Exit status and captured output of the command.
    pub run_result: RunResult,
    /// Retained branch of the command.
    pub branch: FsBranch,
}

impl PendingRunResult {
    /// Splits the command result from the retained branch.
    pub fn into_parts(self) -> (parts: (RunResult, FsBranch))
        ensures
            parts.0 == self.run_result,
            parts.1 == self.branch,
    {
        (self.run_result, self.branch)
    }
}

/// A pending branch ends as it is told to: it is committed, aborted, persisted or kept
/// once that has succeeded, and attached while a sandbox holds it; a record that was
/// published counts for persisting and keeping, and storage that was preserved counts for
/// keeping. It stays the branch of the same two directories, and backs no snapshot then.
pub proof fn law_branches_end_as_told(before: BranchView, published: bool, preserved: bool)
    requires
        before.state is Pending,
    ensures
        ({
            let ended = |state: BranchState|
                BranchView { state, workdir: before.workdir, upper_dir: before.upper_dir, snapshot_backed: false };
            &&& branch_after(before, BranchEvent::Commit { succeeded: true }) == ended(BranchState::Committed)
            &&& branch_after(before, BranchEvent::Abort { succeeded: true }) == ended(BranchState::Aborted)
            &&& branch_after(before, BranchEvent::Persist { succeeded: true, published }) == ended(BranchState::Persisted)
            &&& branch_after(before, BranchEvent::Persist { succeeded: false, published: true }) == ended(
                BranchState::Persisted,
            )
            &&& branch_after(before, BranchEvent::Keep { succeeded: true, published, preserved }) == ended(
                BranchState::Kept,
            )
            &&& branch_after(before, BranchEvent::Keep { succeeded: false, published: true, preserved }) == ended(
                BranchState::Kept,
            )
            &&& branch_after(before, BranchEvent::Keep { succeeded: false, published, preserved: true }) == ended(
                BranchState::Kept,
            )
            &&& branch_after(before, BranchEvent::Take) == ended(BranchState::Attached)
        }),
{
}

/// A pending branch lets its storage do what it is asked and passes the outcome on as it
/// is; a branch that has ended does nothing and says so.
pub proof fn law_ended_branches_do_nothing<T>(state: BranchState, outcome: Result<T, BranchError>)
    ensures
        step_of::<T>(BranchState::Pending, None) == BranchStep::<T>::Perform,
        step_of(BranchState::Pending, Some(outcome)) == BranchStep::Ended(outcome),
        !(state is Pending) ==> step_of::<T>(state, None) == BranchStep::<T>::Ended(Err(BranchError::AlreadyResolved)),
        !(state is Pending) ==> step_of(state, Some(outcome)) == BranchStep::<T>::Ended(
            Err(BranchError::AlreadyResolved),
        ),
        has_succeeded(Some(outcome)) == (outcome is Ok),
        !has_succeeded::<T>(None),
        is_published(Some(outcome)) <==> outcome is Err && outcome->Err_0 is Published,
        !is_published::<T>(None),
{
}

/// A commit looks for conflicts, then merges, and then tells what came of it; it merges
/// nothing where it finds a conflict, and tells how many there are. A branch over a
/// snapshot is never merged, and one that has ended is not merged again.
pub proof fn law_commits_look_before_they_merge(
    before: BranchView,
    count: usize,
    outcome: Result<(), BranchError>,
    merged: Option<Result<(), BranchError>>,
)
    ensures
        ({
            let step = |conflicts: Option<usize>, merged: Option<Result<(), BranchError>>|
                commit_step(before, CommitSeen { conflicts, merged });
            if before.state is Pending && !before.snapshot_backed {
                &&& step(None, merged) == CommitStep::LookForConflicts
                &&& count != 0 ==> step(Some(count), merged) == CommitStep::Ended(Err(BranchError::Conflict { count }))
                &&& step(Some(0), None) == CommitStep::Merge
                &&& step(Some(0), Some(outcome)) == CommitStep::Ended(outcome)
            } else {
                &&& !(step(None, merged) is Merge) && !(step(Some(count), merged) is Merge)
                &&& step(Some(count), merged) == CommitStep::Ended(
                    Err(
                        if before.state is Pending {
                            BranchError::Denied
                        } else {
                            BranchError::AlreadyResolved
                        },
                    ),
                )
            }
        }),
{
}

/// What making a branch asks for after each event, where everything goes well.
pub open spec fn asked_after(making: Making, events: Seq<MakeEvent>) -> MakeAsk {
    make_step(made_after(making, events.drop_last()), events.last()).1
}

/// A branch over a directory is made in two steps, the storage and the watch for conflicts,
/// and lies over what its storage lies over. It counts as lying over a snapshot only where
/// it was reopened and its storage says so.
pub proof fn law_branches_lie_over_their_directory(made: BranchStorage, keeps_backing: bool, error: BranchError)
    ensures
        ({
            let begun = begun_at(None, keeps_backing);
            &&& asked_after(begun, seq![MakeEvent::Made(Ok(made))]) == MakeAsk::TrackConflicts
            &&& asked_after(begun, seq![MakeEvent::Made(Ok(made)), MakeEvent::Done]) == MakeAsk::Ended(
                Ok(
                    BranchView {
                        state: BranchState::Pending,
                        workdir: made.workdir@,
                        upper_dir: made.upper_dir@,
                        snapshot_backed: keeps_backing && made.snapshot_backed,
                    },
                ),
            )
            &&& asked_after(begun, seq![MakeEvent::Made(Err(error))]) == MakeAsk::Ended(Err(error))
        }),
{
    let begun = begun_at(None, keeps_backing);
    reveal_with_fuel(made_after, 3);
    let one = seq![MakeEvent::Made(Ok(made))];
    let two = seq![MakeEvent::Made(Ok(made)), MakeEvent::Done];
    assert(one.drop_last() =~= Seq::<MakeEvent>::empty());
    assert(two.drop_last() =~= one);
    assert(seq![MakeEvent::Made(Err(error))].drop_last() =~= Seq::<MakeEvent>::empty());
}

/// A branch over a snapshot lies over the tree of the snapshot: its modes are read there and
/// handed to the storage, the snapshot is leased to the directory of the branch, and the
/// watch for conflicts begins. A snapshot that was destroyed, and modes that cannot be
/// read, end it.
pub proof fn law_branches_lie_over_their_snapshot(
    snapshot: handle::Handle,
    made: BranchStorage,
    modes: KeptModes,
    fault: SnapshotError,
)
    requires
        !(modes is Unreadable),
        !(modes is Malformed),
    ensures
        ({
            let begun = begun_at(Some(below_of(snapshot)), false);
            let one = MakeEvent::Made(Ok(made));
            let two = MakeEvent::Modes(modes);
            &&& asked_after(begun, seq![one]) == (MakeAsk::ReadModes { tree_dir: snapshot.tree_dir })
            &&& asked_after(begun, seq![one, two]) == (MakeAsk::SetModes { modes: inspect::held_modes(modes) })
            &&& asked_after(begun, seq![one, MakeEvent::Modes(KeptModes::Malformed)]) matches MakeAsk::Ended(Err(_))
            &&& asked_after(begun, seq![one, MakeEvent::Modes(KeptModes::Unreadable)]) matches MakeAsk::Ended(Err(_))
            &&& if snapshot.destroyed {
                asked_after(begun, seq![one, two, MakeEvent::Done]) == MakeAsk::Ended(
                    Err(BranchError::Snapshot(SnapshotError::AlreadyDestroyed)),
                )
            } else {
                &&& asked_after(begun, seq![one, two, MakeEvent::Done]) == (MakeAsk::Lease {
                    snapshot_dir: snapshot.descriptor.snapshot_dir,
                    branch_dir: made.storage_dir@,
                })
                &&& asked_after(begun, seq![one, two, MakeEvent::Done, MakeEvent::Leased(Err(fault))])
                    == MakeAsk::Ended(Err(BranchError::Snapshot(fault)))
                &&& asked_after(begun, seq![one, two, MakeEvent::Done, MakeEvent::Leased(Ok(()))])
                    == MakeAsk::TrackConflicts
                &&& asked_after(
                    begun,
                    seq![one, two, MakeEvent::Done, MakeEvent::Leased(Ok(())), MakeEvent::Done],
                ) == MakeAsk::Ended(
                    Ok(
                        BranchView {
                            state: BranchState::Pending,
                            workdir: snapshot.tree_dir,
                            upper_dir: made.upper_dir@,
                            snapshot_backed: true,
                        },
                    ),
                )
            }
        }),
{
    let one = MakeEvent::Made(Ok(made));
    let two = MakeEvent::Modes(modes);
    let leased = MakeEvent::Leased(Ok(()));
    reveal_with_fuel(made_after, 6);
    assert(seq![one].drop_last() =~= Seq::<MakeEvent>::empty());
    assert(seq![one, two].drop_last() =~= seq![one]);
    assert(seq![one, MakeEvent::Modes(KeptModes::Malformed)].drop_last() =~= seq![one]);
    assert(seq![one, MakeEvent::Modes(KeptModes::Unreadable)].drop_last() =~= seq![one]);
    assert(seq![one, two, MakeEvent::Done].drop_last() =~= seq![one, two]);
    assert(seq![one, two, MakeEvent::Done, MakeEvent::Leased(Err(fault))].drop_last() =~= seq![one, two, MakeEvent::Done]);
    assert(seq![one, two, MakeEvent::Done, leased].drop_last() =~= seq![one, two, MakeEvent::Done]);
    assert(seq![one, two, MakeEvent::Done, leased, MakeEvent::Done].drop_last() =~= seq![
        one,
        two,
        MakeEvent::Done,
        leased,
    ]);
}

/// An inspection retains the first paths of a list, as many as it may and no others.
pub proof fn law_inspections_retain_the_first<T>(items: Seq<T>, count: int)
    requires
        0 <= count,
    ensures
        first_of(items, count).is_prefix_of(items),
        first_of(items, count).len() <= count,
        first_of(items, count).len() < items.len() ==> first_of(items, count).len() == count,
{
    if items.len() > count {
        assert(items.take(count).is_prefix_of(items));
    } else {
        assert(items.is_prefix_of(items));
    }
}

/// A branch over a snapshot lies over the tree of that snapshot; any other keeps what it was
/// made over.
pub proof fn law_held_storages_keep_their_backing(making: Making, made: StorageView)
    ensures
        making.below matches Some(below) ==> held_storage(making, made).workdir == below.tree_dir && held_storage(
            making,
            made,
        ).snapshot_backed,
        making.below is None ==> held_storage(making, made).workdir == made.workdir && held_storage(making, made).snapshot_backed
            == (making.keeps_backing && made.snapshot_backed),
        held_storage(making, made).upper_dir == made.upper_dir && held_storage(making, made).storage_dir == made.storage_dir,
        modes_fault(KeptModes::Unreadable) is Some && modes_fault(KeptModes::Malformed) is Some,
        modes_fault(KeptModes::Unreadable) != modes_fault(KeptModes::Malformed),
{
}

} // verus!
