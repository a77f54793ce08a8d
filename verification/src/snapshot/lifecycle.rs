//! How snapshots are made, found, reopened and destroyed.
//!
//! Every operation alternates work on a filesystem with decisions. Here are the
//! decisions: what an outcome leads to, and what is done next.

use crate::error::{DescriptorFault, SnapshotError, Step};
use crate::ids;
use crate::path;
use crate::path::{bytes_equal, copy_bytes, file_name, join_path, parent_path, same_path, Names};
use crate::path_map;
use crate::snapshot::handle;
use crate::snapshot::handle::{
    handle_lease_path, FsSnapshot, FsSnapshotDescriptor, Handle, Reference, SNAPSHOT_DIRECTORY_MODES, SNAPSHOT_INDEX,
    SNAPSHOT_LEASES, SNAPSHOT_LEASE_LOCK, SNAPSHOT_METADATA, SNAPSHOT_TREE,
};
use crate::snapshot::index::SnapshotIndex;
use crate::snapshot::leases::LeaseScan;
use crate::snapshot::stored;
use crate::text;
use crate::text::{chars_of, copy_text, has_prefix, same_text, string_of};
use vstd::prelude::*;
use vstd::string::*;

verus! {

/// How one step of work ended.
#[derive(Clone, Copy, Debug, PartialEq, Eq, Structural)]
pub enum Outcome {
    Succeeded,
    /// What the step was for is not there.
    NotFound,
    Failed,
}

/// How far destroying a snapshot has come. Every stage but the last two names
/// the step that is to be done.
#[derive(Clone, Copy, Debug, PartialEq, Eq, Structural)]
pub enum DestroyStage {
    /// Renaming the snapshot to its tombstone.
    Hide,
    /// Making the rename durable.
    SyncHidden,
    /// Making every directory of the tree writable.
    PrepareTree,
    RemoveTree,
    RemoveMetadata,
    RemoveIndex,
    RemoveModes,
    /// Removing the lease of the handle itself.
    RemoveOwnLease,
    RemoveLeases,
    RemoveLeaseLock,
    RemoveDirectory,
    /// Making the removal durable.
    SyncRemoved,
    /// Everything is gone.
    Gone,
    /// A step failed.
    Stopped,
}

/// The place of a stage in the order of stages.
pub open spec fn destroy_rank(stage: DestroyStage) -> int {
    match stage {
        DestroyStage::Hide => 0,
        DestroyStage::SyncHidden => 1,
        DestroyStage::PrepareTree => 2,
        DestroyStage::RemoveTree => 3,
        DestroyStage::RemoveMetadata => 4,
        DestroyStage::RemoveIndex => 5,
        DestroyStage::RemoveModes => 6,
        DestroyStage::RemoveOwnLease => 7,
        DestroyStage::RemoveLeases => 8,
        DestroyStage::RemoveLeaseLock => 9,
        DestroyStage::RemoveDirectory => 10,
        DestroyStage::SyncRemoved => 11,
        DestroyStage::Gone => 12,
        DestroyStage::Stopped => 13,
    }
}

/// Destroying one snapshot: the stage, and the descriptor that was published.
pub struct Destruction {
    stage: DestroyStage,
    published: FsSnapshotDescriptor,
    tombstone: Vec<u8>,
}

/// What destroying a snapshot has come to.
pub struct DestructionView {
    pub stage: DestroyStage,
    pub published: Reference,
    pub tombstone: Seq<u8>,
}

impl View for Destruction {
    type V = DestructionView;

    closed spec fn view(&self) -> DestructionView {
        DestructionView {
            stage: self.stage,
            published: self.published@,
            tombstone: self.tombstone@,
        }
    }
}

/// Whether a step counts as done: removing a directory that is gone is done.
pub open spec fn step_done(stage: DestroyStage, outcome: Outcome) -> bool {
    outcome is Succeeded || (stage is RemoveDirectory && outcome is NotFound)
}

/// What destroying leads to, where it does not go on.
pub open spec fn destroy_end(
    stage: DestroyStage,
    outcome: Outcome,
    result: Option<Result<(), SnapshotError>>,
    published: Reference,
) -> bool {
    if stage is Gone || stage is Stopped {
        result == Some(Err::<(), SnapshotError>(SnapshotError::AlreadyDestroyed))
    } else if step_done(stage, outcome) {
        if stage is SyncRemoved {
            result == Some(Ok::<(), SnapshotError>(()))
        } else {
            result is None
        }
    } else if stage is Hide {
        result == Some(Err::<(), SnapshotError>(SnapshotError::Operation(Step::Tombstone)))
    } else {
        result matches Some(Err(SnapshotError::Destroyed { descriptor, stage: failed })) && descriptor@ == published
            && failed == stage
    }
}

/// The stage that an outcome leads to.
pub open spec fn destroy_next(stage: DestroyStage, outcome: Outcome) -> DestroyStage {
    if stage is Gone || stage is Stopped {
        stage
    } else if !step_done(stage, outcome) {
        DestroyStage::Stopped
    } else {
        match stage {
            DestroyStage::Hide => DestroyStage::SyncHidden,
            DestroyStage::SyncHidden => DestroyStage::PrepareTree,
            DestroyStage::PrepareTree => DestroyStage::RemoveTree,
            DestroyStage::RemoveTree => DestroyStage::RemoveMetadata,
            DestroyStage::RemoveMetadata => DestroyStage::RemoveIndex,
            DestroyStage::RemoveIndex => DestroyStage::RemoveModes,
            DestroyStage::RemoveModes => DestroyStage::RemoveOwnLease,
            DestroyStage::RemoveOwnLease => DestroyStage::RemoveLeases,
            DestroyStage::RemoveLeases => DestroyStage::RemoveLeaseLock,
            DestroyStage::RemoveLeaseLock => DestroyStage::RemoveDirectory,
            DestroyStage::RemoveDirectory => DestroyStage::SyncRemoved,
            DestroyStage::SyncRemoved => DestroyStage::Gone,
            DestroyStage::Gone => DestroyStage::Gone,
            DestroyStage::Stopped => DestroyStage::Stopped,
        }
    }
}

/// What an outcome makes of the handle: it follows the snapshot to its
/// tombstone, gives up its lease when that is gone, and is destroyed when
/// everything is gone or a later step fails.
pub open spec fn handle_after(before: Handle, state: DestructionView, outcome: Outcome) -> Handle {
    let stage = state.stage;
    if stage is Gone || stage is Stopped {
        before
    } else if !step_done(stage, outcome) {
        if stage is Hide {
            before
        } else {
            Handle { destroyed: true, ..before }
        }
    } else if stage is Hide {
        Handle {
            descriptor: Reference { snapshot_dir: state.tombstone, ..before.descriptor },
            tree_dir: path::joined_path(state.tombstone, handle::SNAPSHOT_TREE.spec_bytes()),
            handle_lease: handle::moved_lease(before.handle_lease, state.tombstone),
            ..before
        }
    } else if stage is RemoveOwnLease {
        Handle { handle_lease: None, ..before }
    } else if stage is SyncRemoved {
        Handle { destroyed: true, ..before }
    } else {
        before
    }
}

impl FsSnapshot {
    /// Starts destroying a snapshot whose leases were looked through.
    pub fn destroy(&self, leases: &LeaseScan) -> (result: Result<Destruction, SnapshotError>)
        ensures
            if self@.destroyed {
                result == Err::<Destruction, SnapshotError>(SnapshotError::AlreadyDestroyed)
            } else if leases@ != 0 {
                result == Err::<Destruction, SnapshotError>(SnapshotError::InUse { count: leases@ as usize })
            } else if self@.handle_lease is None {
                result == Err::<Destruction, SnapshotError>(
                    SnapshotError::InvalidDescriptor(DescriptorFault::HandleLeaseUnavailable),
                )
            } else if !path::has_parent(self@.descriptor.snapshot_dir) {
                result == Err::<Destruction, SnapshotError>(
                    SnapshotError::InvalidDescriptor(DescriptorFault::DirectoryHasNoParent),
                )
            } else {
                result matches Ok(started) && started@ == (DestructionView {
                    stage: DestroyStage::Hide,
                    published: self@.descriptor,
                    tombstone: handle::tombstone_of(self@.descriptor),
                })
            },
    {
        match self.ensure_live() {
            Ok(_) => {},
            Err(error) => {
                return Err(error);
            },
        }
        let in_use = leases.in_use();
        if in_use != 0 {
            return Err(SnapshotError::InUse { count: in_use });
        }
        if self.handle_lease().is_none() {
            return Err(SnapshotError::InvalidDescriptor(DescriptorFault::HandleLeaseUnavailable));
        }
        let tombstone = match self.tombstone() {
            Ok(tombstone) => tombstone,
            Err(error) => {
                return Err(error);
            },
        };
        let published = self.descriptor().copy();
        Ok(Destruction { stage: DestroyStage::Hide, published, tombstone })
    }
}

/// What is done next to destroy a snapshot.
#[derive(Debug)]
pub enum DestroyStep {
    /// Rename a directory, where nothing has its new name.
    Rename { from: Vec<u8>, to: Vec<u8> },
    SyncDirectory { path: Vec<u8> },
    /// Make every directory of a tree writable for its owner.
    MakeRemovable { tree: Vec<u8> },
    RemoveTree { tree: Vec<u8> },
    RemoveFile { path: Vec<u8> },
    /// Remove a directory, which has to be empty.
    RemoveDirectory { path: Vec<u8> },
    Nothing,
}

/// What is done next to destroy a snapshot.
#[verifier::ext_equal]
pub enum DestroyAsk {
    Rename { from: Seq<u8>, to: Seq<u8> },
    SyncDirectory { path: Seq<u8> },
    MakeRemovable { tree: Seq<u8> },
    RemoveTree { tree: Seq<u8> },
    RemoveFile { path: Seq<u8> },
    RemoveDirectory { path: Seq<u8> },
    Nothing,
}

impl View for DestroyStep {
    type V = DestroyAsk;

    open spec fn view(&self) -> DestroyAsk {
        match self {
            DestroyStep::Rename { from, to } => DestroyAsk::Rename { from: from@, to: to@ },
            DestroyStep::SyncDirectory { path } => DestroyAsk::SyncDirectory { path: path@ },
            DestroyStep::MakeRemovable { tree } => DestroyAsk::MakeRemovable { tree: tree@ },
            DestroyStep::RemoveTree { tree } => DestroyAsk::RemoveTree { tree: tree@ },
            DestroyStep::RemoveFile { path } => DestroyAsk::RemoveFile { path: path@ },
            DestroyStep::RemoveDirectory { path } => DestroyAsk::RemoveDirectory { path: path@ },
            DestroyStep::Nothing => DestroyAsk::Nothing,
        }
    }
}

/// What is done next to destroy a snapshot: it is hidden before anything of it goes, and
/// its data go before the lease of the handle.
pub open spec fn destroy_ask(state: DestructionView, handle: Handle) -> DestroyAsk {
    let inside = |name: &'static str| path::joined_path(state.tombstone, name.spec_bytes());
    match state.stage {
        DestroyStage::Hide => DestroyAsk::Rename { from: state.published.snapshot_dir, to: state.tombstone },
        DestroyStage::SyncHidden | DestroyStage::SyncRemoved => if path::has_parent(state.tombstone) {
            DestroyAsk::SyncDirectory { path: path::way_bytes(path::parts(state.tombstone).drop_last()) }
        } else {
            DestroyAsk::Nothing
        },
        DestroyStage::PrepareTree => DestroyAsk::MakeRemovable { tree: inside(handle::SNAPSHOT_TREE) },
        DestroyStage::RemoveTree => DestroyAsk::RemoveTree { tree: inside(handle::SNAPSHOT_TREE) },
        DestroyStage::RemoveMetadata => DestroyAsk::RemoveFile { path: inside(handle::SNAPSHOT_METADATA) },
        DestroyStage::RemoveIndex => DestroyAsk::RemoveFile { path: inside(handle::SNAPSHOT_INDEX) },
        DestroyStage::RemoveModes => DestroyAsk::RemoveFile { path: inside(handle::SNAPSHOT_DIRECTORY_MODES) },
        DestroyStage::RemoveOwnLease => match handle.handle_lease {
            Some(lease) => DestroyAsk::RemoveFile { path: lease },
            None => DestroyAsk::Nothing,
        },
        DestroyStage::RemoveLeases => DestroyAsk::RemoveDirectory { path: inside(handle::SNAPSHOT_LEASES) },
        DestroyStage::RemoveLeaseLock => DestroyAsk::RemoveFile { path: inside(handle::SNAPSHOT_LEASE_LOCK) },
        DestroyStage::RemoveDirectory => DestroyAsk::RemoveDirectory { path: state.tombstone },
        DestroyStage::Gone | DestroyStage::Stopped => DestroyAsk::Nothing,
    }
}

impl Destruction {
    fn hidden(&self, name: &str) -> (path: Vec<u8>)
        ensures
            path@ == path::joined_path(self@.tombstone, name.spec_bytes()),
    {
        join_path(self.tombstone.as_slice(), name.as_bytes())
    }

    /// Tells what is done next.
    pub fn step(&self, snapshot: &FsSnapshot) -> (step: DestroyStep)
        ensures
            step@ == destroy_ask(self@, snapshot@),
    {
        match self.stage {
            DestroyStage::Hide => DestroyStep::Rename {
                from: copy_bytes(self.published.snapshot_dir()),
                to: copy_bytes(self.tombstone.as_slice()),
            },
            DestroyStage::SyncHidden | DestroyStage::SyncRemoved => match parent_path(self.tombstone.as_slice()) {
                Some(path) => DestroyStep::SyncDirectory { path },
                None => DestroyStep::Nothing,
            },
            DestroyStage::PrepareTree => DestroyStep::MakeRemovable { tree: self.hidden(SNAPSHOT_TREE) },
            DestroyStage::RemoveTree => DestroyStep::RemoveTree { tree: self.hidden(SNAPSHOT_TREE) },
            DestroyStage::RemoveMetadata => DestroyStep::RemoveFile { path: self.hidden(SNAPSHOT_METADATA) },
            DestroyStage::RemoveIndex => DestroyStep::RemoveFile { path: self.hidden(SNAPSHOT_INDEX) },
            DestroyStage::RemoveModes => DestroyStep::RemoveFile { path: self.hidden(SNAPSHOT_DIRECTORY_MODES) },
            DestroyStage::RemoveOwnLease => match snapshot.handle_lease() {
                Some(lease) => DestroyStep::RemoveFile { path: copy_bytes(lease) },
                None => DestroyStep::Nothing,
            },
            DestroyStage::RemoveLeases => DestroyStep::RemoveDirectory { path: self.hidden(SNAPSHOT_LEASES) },
            DestroyStage::RemoveLeaseLock => DestroyStep::RemoveFile { path: self.hidden(SNAPSHOT_LEASE_LOCK) },
            DestroyStage::RemoveDirectory => DestroyStep::RemoveDirectory {
                path: copy_bytes(self.tombstone.as_slice()),
            },
            DestroyStage::Gone | DestroyStage::Stopped => DestroyStep::Nothing,
        }
    }

    /// How far it is.
    pub fn stage(&self) -> (stage: DestroyStage)
        ensures
            stage == self@.stage,
    {
        self.stage
    }

    /// Where the snapshot goes.
    pub fn tombstone(&self) -> (tombstone: &[u8])
        ensures
            tombstone@ == self@.tombstone,
    {
        self.tombstone.as_slice()
    }

    /// Takes the outcome of the step: goes on, or ends with a result.
    pub fn advance(&mut self, snapshot: &mut FsSnapshot, outcome: Outcome) -> (result: Option<
        Result<(), SnapshotError>,
    >)
        ensures
            destroy_end(old(self)@.stage, outcome, result, old(self)@.published),
            final(self)@ == (DestructionView {
                stage: destroy_next(old(self)@.stage, outcome),
                ..old(self)@
            }),
            final(snapshot)@ == handle_after(old(snapshot)@, old(self)@, outcome),
    {
        let stage = self.stage;
        if stage == DestroyStage::Gone || stage == DestroyStage::Stopped {
            return Some(Err(SnapshotError::AlreadyDestroyed));
        }
        let done = outcome == Outcome::Succeeded || (stage == DestroyStage::RemoveDirectory && outcome
            == Outcome::NotFound);
        if !done {
            self.stage = DestroyStage::Stopped;
            if stage == DestroyStage::Hide {
                return Some(Err(SnapshotError::Operation(Step::Tombstone)));
            }
            snapshot.mark_destroyed();
            return Some(Err(SnapshotError::Destroyed { descriptor: self.published.copy(), stage }));
        }
        match stage {
            DestroyStage::Hide => {
                snapshot.move_to(copy_bytes(self.tombstone.as_slice()));
                self.stage = DestroyStage::SyncHidden;
                None
            },
            DestroyStage::SyncHidden => {
                self.stage = DestroyStage::PrepareTree;
                None
            },
            DestroyStage::PrepareTree => {
                self.stage = DestroyStage::RemoveTree;
                None
            },
            DestroyStage::RemoveTree => {
                self.stage = DestroyStage::RemoveMetadata;
                None
            },
            DestroyStage::RemoveMetadata => {
                self.stage = DestroyStage::RemoveIndex;
                None
            },
            DestroyStage::RemoveIndex => {
                self.stage = DestroyStage::RemoveModes;
                None
            },
            DestroyStage::RemoveModes => {
                self.stage = DestroyStage::RemoveOwnLease;
                None
            },
            DestroyStage::RemoveOwnLease => {
                snapshot.forget_lease();
                self.stage = DestroyStage::RemoveLeases;
                None
            },
            DestroyStage::RemoveLeases => {
                self.stage = DestroyStage::RemoveLeaseLock;
                None
            },
            DestroyStage::RemoveLeaseLock => {
                self.stage = DestroyStage::RemoveDirectory;
                None
            },
            DestroyStage::RemoveDirectory => {
                self.stage = DestroyStage::SyncRemoved;
                None
            },
            DestroyStage::SyncRemoved => {
                snapshot.mark_destroyed();
                self.stage = DestroyStage::Gone;
                Some(Ok(()))
            },
            DestroyStage::Gone | DestroyStage::Stopped => Some(Err(SnapshotError::AlreadyDestroyed)),
        }
    }
}

/// The stage after some outcomes.
pub open spec fn destroy_run(outcomes: Seq<Outcome>) -> DestroyStage
    decreases outcomes.len(),
{
    if outcomes.len() == 0 {
        DestroyStage::Hide
    } else {
        destroy_next(destroy_run(outcomes.drop_last()), outcomes.last())
    }
}

/// The steps of destroying are done one after the other: a stage is reached
/// only by doing every stage before it, in order. So nothing of the snapshot is
/// touched before it is hidden, and the handle's lease goes only after its
/// tree, its metadata, its index and its modes.
pub proof fn law_destruction_is_ordered(outcomes: Seq<Outcome>)
    requires
        !(destroy_run(outcomes) is Stopped),
        !(destroy_run(outcomes) is Gone),
    ensures
        destroy_rank(destroy_run(outcomes)) == outcomes.len(),
        forall|i: int| 0 <= i <= outcomes.len() ==> destroy_rank(#[trigger] destroy_run(outcomes.take(i))) == i,
    decreases outcomes.len(),
{
    assert(outcomes.take(outcomes.len() as int) =~= outcomes);
    if outcomes.len() > 0 {
        let before = outcomes.drop_last();
        law_destruction_is_ordered(before);
        assert forall|i: int| 0 <= i <= outcomes.len() implies destroy_rank(
            #[trigger] destroy_run(outcomes.take(i)),
        ) == i by {
            if i < outcomes.len() {
                assert(outcomes.take(i) =~= before.take(i));
            }
        }
    }
}

/// Once the snapshot is hidden, whatever fails marks the handle as destroyed,
/// and the error names the descriptor that was published and the step that failed.
pub proof fn law_hidden_snapshots_stay_destroyed(
    before: Handle,
    state: DestructionView,
    outcome: Outcome,
    result: Option<Result<(), SnapshotError>>,
)
    requires
        1 <= destroy_rank(state.stage) <= 11,
        destroy_end(state.stage, outcome, result, state.published),
        result matches Some(ended) && ended is Err,
    ensures
        handle_after(before, state, outcome).destroyed,
        result matches Some(Err(SnapshotError::Destroyed { descriptor, stage })) && descriptor@ == state.published
            && stage == state.stage,
{
}

/// The identity that snapshot metadata records.
#[derive(Debug)]
pub struct SnapshotMetadata {
    pub id: String,
    pub root_hash: [u8; 32],
}

/// What reading an index for a snapshot with a known root gives.
pub open spec fn is_index_read(
    is_plain_file: bool,
    bytes: Option<Seq<u8>>,
    expected: Seq<u8>,
    result: Result<SnapshotIndex, SnapshotError>,
) -> bool {
    if !is_plain_file {
        result == Err::<SnapshotIndex, SnapshotError>(
            SnapshotError::InvalidDescriptor(DescriptorFault::NotPlainFile),
        )
    } else if bytes is None {
        result == Err::<SnapshotIndex, SnapshotError>(
            SnapshotError::InvalidDescriptor(DescriptorFault::IndexUnreadable),
        )
    } else {
        exists|loaded: Result<SnapshotIndex, SnapshotError>| #[trigger]
            stored::is_load_of(bytes->0, loaded) && match loaded {
                Ok(index) => if path_map::entry_map(index.nodes())[Names::empty()].hash == expected {
                    result == Ok::<SnapshotIndex, SnapshotError>(index)
                } else {
                    result == Err::<SnapshotIndex, SnapshotError>(
                        SnapshotError::InvalidDescriptor(DescriptorFault::RootHashMismatch),
                    )
                },
                Err(error) => result == Err::<SnapshotIndex, SnapshotError>(error),
            }
    }
}

/// What optional bytes hold.
pub open spec fn optional_bytes(bytes: Option<Vec<u8>>) -> Option<Seq<u8>> {
    match bytes {
        Some(held) => Some(held@),
        None => None,
    }
}

/// Reads the index of a snapshot whose metadata records a root hash.
pub fn read_index(is_plain_file: bool, bytes: &Option<Vec<u8>>, expected_root_hash: &[u8; 32]) -> (result:
    Result<SnapshotIndex, SnapshotError>)
    ensures
        is_index_read(is_plain_file, optional_bytes(*bytes), expected_root_hash@, result),
{
    if !is_plain_file {
        return Err(SnapshotError::InvalidDescriptor(DescriptorFault::NotPlainFile));
    }
    let read = match bytes {
        Some(held) => held,
        None => {
            return Err(SnapshotError::InvalidDescriptor(DescriptorFault::IndexUnreadable));
        },
    };
    let loaded = SnapshotIndex::load(read.as_slice());
    let ghost whole = loaded;
    assert(optional_bytes(*bytes) == Some(read@));
    assert(stored::is_load_of(optional_bytes(*bytes)->0, whole));
    match loaded {
        Ok(index) => match index.root_hash() {
            Ok(hash) => {
                if bytes_equal(hash.as_slice(), expected_root_hash.as_slice()) {
                    Ok(index)
                } else {
                    Err(SnapshotError::InvalidDescriptor(DescriptorFault::RootHashMismatch))
                }
            },
            Err(error) => Err(error),
        },
        Err(error) => Err(error),
    }
}

/// What was seen of a snapshot that is to be reopened.
pub struct ReopenEvidence {
    /// The canonical path of its directory.
    pub canonical: Option<Vec<u8>>,
    pub directory_is_plain: bool,
    pub tree_is_plain: bool,
    pub leases_are_plain: bool,
    pub lease_lock_is_plain: bool,
    pub modes_are_plain: bool,
    pub metadata: Option<SnapshotMetadata>,
    pub index_is_plain: bool,
    pub index: Option<Vec<u8>>,
}

/// Why a snapshot cannot be reopened, before its index is read.
pub open spec fn reopen_fault(descriptor: Reference, seen: ReopenEvidence) -> Option<DescriptorFault> {
    let id = vstd::utf8::encode_utf8(descriptor.id);
    if seen.canonical is None || path::parts(seen.canonical->0@) != path::parts(descriptor.snapshot_dir) {
        Some(DescriptorFault::DirectoryNotCanonical)
    } else if path::last_name(seen.canonical->0@) != Some(id) || text::begins_with(
        id,
        handle::HIDDEN_PREFIX.spec_bytes(),
    ) {
        Some(DescriptorFault::DirectoryNameMismatch)
    } else if !seen.directory_is_plain || !seen.tree_is_plain || !seen.leases_are_plain {
        Some(DescriptorFault::NotPlainDirectory)
    } else if !seen.lease_lock_is_plain || !seen.modes_are_plain {
        Some(DescriptorFault::NotPlainFile)
    } else if seen.metadata is None {
        Some(DescriptorFault::MetadataUnreadable)
    } else if seen.metadata->0.id@ != descriptor.id {
        Some(DescriptorFault::MetadataMismatch)
    } else {
        None
    }
}

/// Checks a snapshot that is to be reopened, and reads its index.
pub fn check_reopen(descriptor: &FsSnapshotDescriptor, seen: &ReopenEvidence) -> (result: Result<
    SnapshotIndex,
    SnapshotError,
>)
    ensures
        match reopen_fault(descriptor@, *seen) {
            Some(fault) => result == Err::<SnapshotIndex, SnapshotError>(
                SnapshotError::InvalidDescriptor(fault),
            ),
            None => is_index_read(
                seen.index_is_plain,
                optional_bytes(seen.index),
                seen.metadata->0.root_hash@,
                result,
            ),
        },
{
    let canonical = match &seen.canonical {
        Some(found) => found,
        None => {
            return Err(SnapshotError::InvalidDescriptor(DescriptorFault::DirectoryNotCanonical));
        },
    };
    if !same_path(canonical.as_slice(), descriptor.snapshot_dir()) {
        return Err(SnapshotError::InvalidDescriptor(DescriptorFault::DirectoryNotCanonical));
    }
    let id = descriptor.id().as_bytes();
    let named = match file_name(canonical.as_slice()) {
        Some(name) => bytes_equal(name.as_slice(), id),
        None => false,
    };
    if !named || has_prefix(id, handle::HIDDEN_PREFIX.as_bytes()) {
        return Err(SnapshotError::InvalidDescriptor(DescriptorFault::DirectoryNameMismatch));
    }
    if !seen.directory_is_plain || !seen.tree_is_plain || !seen.leases_are_plain {
        return Err(SnapshotError::InvalidDescriptor(DescriptorFault::NotPlainDirectory));
    }
    if !seen.lease_lock_is_plain || !seen.modes_are_plain {
        return Err(SnapshotError::InvalidDescriptor(DescriptorFault::NotPlainFile));
    }
    let metadata = match &seen.metadata {
        Some(metadata) => metadata,
        None => {
            return Err(SnapshotError::InvalidDescriptor(DescriptorFault::MetadataUnreadable));
        },
    };
    if !same_text(metadata.id.as_str(), descriptor.id()) {
        return Err(SnapshotError::InvalidDescriptor(DescriptorFault::MetadataMismatch));
    }
    read_index(seen.index_is_plain, &seen.index, &metadata.root_hash)
}

impl FsSnapshot {
    /// Reopens a snapshot that was published: its directory is checked, its index
    /// read, and the handle takes a lease under `lease_id`. `leased` is the outcome of
    /// the last.
    pub fn reopen(
        descriptor: &FsSnapshotDescriptor,
        seen: &ReopenEvidence,
        lease_id: &str,
        leased: Option<Result<(), SnapshotError>>,
    ) -> (step: ReopenStep)
        ensures
            match reopen_fault(descriptor@, *seen) {
                Some(fault) => step == ReopenStep::Ended(Err(SnapshotError::InvalidDescriptor(fault))),
                None => exists|read: Result<SnapshotIndex, SnapshotError>| #[trigger]
                    is_index_read(
                        seen.index_is_plain,
                        optional_bytes(seen.index),
                        seen.metadata->0.root_hash@,
                        read,
                    ) && match (read, leased) {
                        (Err(error), _) => step == ReopenStep::Ended(Err(error)),
                        (Ok(_), None) => step matches ReopenStep::Lease { path } && path@ == lease_of(
                            descriptor@.snapshot_dir,
                            lease_id.spec_bytes(),
                        ),
                        (Ok(_), Some(Err(error))) => step == ReopenStep::Ended(Err(error)),
                        (Ok(_), Some(Ok(_))) => step matches ReopenStep::Ended(Ok(snapshot)) && snapshot@ == (Handle {
                            descriptor: descriptor@,
                            tree_dir: path::joined_path(
                                descriptor@.snapshot_dir,
                                handle::SNAPSHOT_TREE.spec_bytes(),
                            ),
                            root_hash: seen.metadata->0.root_hash@,
                            handle_lease: Some(lease_of(descriptor@.snapshot_dir, lease_id.spec_bytes())),
                            destroyed: false,
                        }),
                    },
            },
    {
        let read = check_reopen(descriptor, seen);
        let ghost whole = read;
        proof {
            if reopen_fault(descriptor@, *seen) is None {
                assert(is_index_read(
                    seen.index_is_plain,
                    optional_bytes(seen.index),
                    seen.metadata->0.root_hash@,
                    whole,
                ));
            }
        }
        match read {
            Err(error) => {
                return ReopenStep::Ended(Err(error));
            },
            Ok(_) => {},
        }
        let path = handle_lease_path(descriptor.snapshot_dir(), lease_id);
        match (leased, &seen.metadata) {
            (None, _) => ReopenStep::Lease { path },
            (Some(Err(error)), _) => ReopenStep::Ended(Err(error)),
            (Some(Ok(_)), Some(metadata)) => {
                ReopenStep::Ended(Ok(FsSnapshot::attach(descriptor.copy(), metadata.root_hash, path)))
            },
            (Some(Ok(_)), None) => ReopenStep::Ended(
                Err(SnapshotError::InvalidDescriptor(DescriptorFault::MetadataUnreadable)),
            ),
        }
    }
}

/// What is done next to reopen a snapshot.
#[must_use]
pub enum ReopenStep {
    /// Make the lease of the handle.
    Lease { path: Vec<u8> },
    Ended(Result<FsSnapshot, SnapshotError>),
}

/// The lease of a handle on a snapshot.
pub open spec fn lease_of(snapshot_dir: Seq<u8>, lease_id: Seq<u8>) -> Seq<u8> {
    path::joined_path(
        path::joined_path(snapshot_dir, handle::SNAPSHOT_LEASES.spec_bytes()),
        handle::handle_lease_name(lease_id),
    )
}

/// What is found in a storage base.
pub struct StorageEntry {
    /// The bytes of the name.
    pub raw: Vec<u8>,
    /// The name, where it is valid text.
    pub name: Option<String>,
    pub is_directory: bool,
}

/// Why an entry of a storage base is no snapshot.
pub open spec fn storage_fault(entry: StorageEntry) -> Option<DescriptorFault> {
    if !entry.is_directory {
        Some(DescriptorFault::StorageEntryNotDirectory)
    } else if entry.name is None {
        Some(DescriptorFault::IdNotText)
    } else if ids::uuid_bytes(entry.name->0@) is None {
        Some(DescriptorFault::IdInvalid)
    } else if !ids::is_canonical(entry.name->0@) {
        Some(DescriptorFault::IdNotCanonical)
    } else {
        None
    }
}

/// Whether an entry of a storage base is hidden: staging or tombstones.
pub open spec fn is_hidden_name(name: Seq<u8>) -> bool {
    text::begins_with(name, handle::HIDDEN_PREFIX.spec_bytes())
}

/// Tells whether an entry of a storage base is hidden.
pub fn is_hidden(name: &[u8]) -> (hidden: bool)
    ensures
        hidden == is_hidden_name(name@),
{
    has_prefix(name, handle::HIDDEN_PREFIX.as_bytes())
}

/// What is found in the directory of a snapshot.
pub struct StoredEvidence {
    pub metadata: Option<SnapshotMetadata>,
    pub index_is_plain: bool,
    pub index: Option<Vec<u8>>,
}

/// Why an entry of a storage base holds no snapshot, before its index is read.
pub open spec fn discovery_fault(entry: StorageEntry, seen: StoredEvidence) -> Option<DescriptorFault> {
    if storage_fault(entry) is Some {
        storage_fault(entry)
    } else if seen.metadata is None {
        Some(DescriptorFault::MetadataUnreadable)
    } else if seen.metadata->0.id@ != entry.name->0@ {
        Some(DescriptorFault::MetadataMismatch)
    } else {
        None
    }
}

/// Whether a result is that of looking at an entry of a storage base.
pub open spec fn is_discovery(
    storage: Seq<u8>,
    entry: StorageEntry,
    seen: StoredEvidence,
    result: Result<FsSnapshotDescriptor, SnapshotError>,
) -> bool {
    match discovery_fault(entry, seen) {
        Some(fault) => result == Err::<FsSnapshotDescriptor, SnapshotError>(SnapshotError::InvalidDescriptor(fault)),
        None => exists|read: Result<SnapshotIndex, SnapshotError>| #[trigger]
            is_index_read(seen.index_is_plain, optional_bytes(seen.index), seen.metadata->0.root_hash@, read)
                && match read {
                Ok(_) => result matches Ok(descriptor) && descriptor@ == (Reference {
                    snapshot_dir: path::joined_path(storage, vstd::utf8::encode_utf8(entry.name->0@)),
                    id: entry.name->0@,
                }),
                Err(error) => result == Err::<FsSnapshotDescriptor, SnapshotError>(error),
            },
    }
}

/// Checks an entry of a storage base that is not hidden: a directory, named by
/// a canonical identifier, that holds the metadata and the index of that
/// snapshot. Gives the descriptor of the snapshot.
pub fn check_discovered(storage: &[u8], entry: &StorageEntry, seen: &StoredEvidence) -> (result: Result<
    FsSnapshotDescriptor,
    SnapshotError,
>)
    ensures
        is_discovery(storage@, *entry, *seen, result),
{
    if !entry.is_directory {
        return Err(SnapshotError::InvalidDescriptor(DescriptorFault::StorageEntryNotDirectory));
    }
    let name = match &entry.name {
        Some(name) => name,
        None => {
            return Err(SnapshotError::InvalidDescriptor(DescriptorFault::IdNotText));
        },
    };
    match handle::validate_lease_id(name.as_str()) {
        Ok(_) => {},
        Err(error) => {
            return Err(error);
        },
    }
    let metadata = match &seen.metadata {
        Some(found) => found,
        None => {
            return Err(SnapshotError::InvalidDescriptor(DescriptorFault::MetadataUnreadable));
        },
    };
    if !same_text(metadata.id.as_str(), name.as_str()) {
        return Err(SnapshotError::InvalidDescriptor(DescriptorFault::MetadataMismatch));
    }
    let read = read_index(seen.index_is_plain, &seen.index, &metadata.root_hash);
    let ghost whole = read;
    assert(is_index_read(
        seen.index_is_plain,
        optional_bytes(seen.index),
        seen.metadata->0.root_hash@,
        whole,
    ));
    match read {
        Ok(_) => {
            let directory = join_path(storage, name.as_str().as_bytes());
            Ok(FsSnapshotDescriptor::new(directory, copy_text(name.as_str())))
        },
        Err(error) => Err(error),
    }
}

/// The identifier inside the name of a tombstone.
pub open spec fn tombstone_id(name: Seq<char>) -> Option<Seq<char>> {
    let prefix = handle::HIDDEN_PREFIX@;
    let suffix = handle::TOMBSTONE_SUFFIX@;
    if name.len() >= prefix.len() + suffix.len() && name.take(prefix.len() as int) == prefix && name.skip(
        name.len() - suffix.len(),
    ) == suffix {
        Some(name.subrange(prefix.len() as int, name.len() - suffix.len()))
    } else {
        None
    }
}

/// The identifier inside the name of a tombstone.
pub fn destroyed_id(name: &str) -> (result: Option<String>)
    ensures
        match result {
            Some(id) => tombstone_id(name@) == Some(id@),
            None => tombstone_id(name@) is None,
        },
{
    let chars = chars_of(name);
    let prefix = chars_of(handle::HIDDEN_PREFIX);
    let suffix = chars_of(handle::TOMBSTONE_SUFFIX);
    if chars.len() < prefix.len() || chars.len() - prefix.len() < suffix.len() {
        return None;
    }
    let end: usize = chars.len() - suffix.len();
    let mut i: usize = 0;
    while i < prefix.len()
        invariant
            i <= prefix@.len() <= chars@.len(),
            chars@ == name@,
            prefix@ == handle::HIDDEN_PREFIX@,
            forall|j: int| 0 <= j < i ==> chars@[j] == prefix@[j],
        decreases prefix@.len() - i,
    {
        if chars[i] != prefix[i] {
            proof {
                assert(name@.take(prefix@.len() as int)[i as int] == name@[i as int]);
            }
            return None;
        }
        i = i + 1;
    }
    let mut k: usize = 0;
    while k < suffix.len()
        invariant
            k <= suffix@.len(),
            end + suffix@.len() == chars@.len() <= usize::MAX,
            chars@ == name@,
            suffix@ == handle::TOMBSTONE_SUFFIX@,
            forall|j: int| 0 <= j < k ==> chars@[end + j] == suffix@[j],
        decreases suffix@.len() - k,
    {
        if chars[end + k] != suffix[k] {
            proof {
                assert(name@.skip(end as int)[k as int] == name@[end + k]);
            }
            return None;
        }
        k = k + 1;
    }
    proof {
        assert(name@.take(prefix@.len() as int) =~= prefix@);
        assert(name@.skip(end as int) =~= suffix@);
    }
    let mut id: Vec<char> = Vec::new();
    let mut m: usize = prefix.len();
    while m < end
        invariant
            prefix@.len() <= m <= end <= chars@.len(),
            chars@ == name@,
            id@ == name@.subrange(prefix@.len() as int, m as int),
        decreases end - m,
    {
        id.push(chars[m]);
        proof {
            assert(name@.subrange(prefix@.len() as int, m + 1) =~= name@.subrange(
                prefix@.len() as int,
                m as int,
            ).push(name@[m as int]));
        }
        m = m + 1;
    }
    Some(string_of(&id))
}

/// What was seen of a tombstone.
pub struct TombstoneEvidence {
    pub is_plain_directory: bool,
    pub lock: LockProbe,
    /// Whether the metadata is there, and what it says.
    pub metadata_probe: Outcome,
    pub metadata: Option<SnapshotMetadata>,
    pub tree_probe: Outcome,
}

/// How locking ended.
#[derive(Clone, Copy, Debug, PartialEq, Eq, Structural)]
pub enum LockProbe {
    Locked,
    /// Another process holds the lock.
    Busy,
    /// There is nothing to lock.
    Missing,
    Failed,
}

/// What is done with a hidden entry of a storage base.
#[derive(Clone, Copy, Debug, PartialEq, Eq, Structural)]
pub enum ReapAction {
    /// It is left alone.
    Leave,
    /// It is removed, after its tree was made removable where it has one.
    Remove { prepare_tree: bool },
}

/// What is done with a hidden entry of a storage base: a tombstone that nobody
/// holds is removed.
pub open spec fn reap_decision(name: Option<String>, seen: TombstoneEvidence) -> Result<
    ReapAction,
    SnapshotError,
> {
    if name is None || tombstone_id(name->0@) is None {
        Ok(ReapAction::Leave)
    } else {
        let id = tombstone_id(name->0@)->0;
        if ids::uuid_bytes(id) is None {
            Err(SnapshotError::InvalidDescriptor(DescriptorFault::IdInvalid))
        } else if !ids::is_canonical(id) {
            Err(SnapshotError::InvalidDescriptor(DescriptorFault::IdNotCanonical))
        } else if !seen.is_plain_directory {
            Err(SnapshotError::InvalidDescriptor(DescriptorFault::NotPlainDirectory))
        } else if seen.lock is Busy {
            Ok(ReapAction::Leave)
        } else if seen.lock is Failed {
            Err(SnapshotError::Operation(Step::Lock))
        } else if seen.metadata_probe is Failed {
            Err(SnapshotError::Operation(Step::InspectEntry))
        } else if seen.metadata_probe is Succeeded && seen.metadata is None {
            Err(SnapshotError::InvalidDescriptor(DescriptorFault::MetadataUnreadable))
        } else if seen.metadata_probe is Succeeded && seen.metadata->0.id@ != id {
            Err(SnapshotError::InvalidDescriptor(DescriptorFault::MetadataMismatch))
        } else if seen.tree_probe is Failed {
            Err(SnapshotError::Operation(Step::InspectEntry))
        } else {
            Ok(ReapAction::Remove { prepare_tree: seen.tree_probe is Succeeded })
        }
    }
}

/// Decides what is done with a hidden entry of a storage base.
pub fn reap_destroy_tombstone(name: &Option<String>, seen: &TombstoneEvidence) -> (result: Result<
    ReapAction,
    SnapshotError,
>)
    ensures
        result == reap_decision(*name, *seen),
{
    let written = match name {
        Some(written) => written,
        None => {
            return Ok(ReapAction::Leave);
        },
    };
    let id = match destroyed_id(written.as_str()) {
        Some(id) => id,
        None => {
            return Ok(ReapAction::Leave);
        },
    };
    match handle::validate_lease_id(id.as_str()) {
        Ok(_) => {},
        Err(error) => {
            return Err(error);
        },
    }
    if !seen.is_plain_directory {
        return Err(SnapshotError::InvalidDescriptor(DescriptorFault::NotPlainDirectory));
    }
    match seen.lock {
        LockProbe::Busy => {
            return Ok(ReapAction::Leave);
        },
        LockProbe::Failed => {
            return Err(SnapshotError::Operation(Step::Lock));
        },
        LockProbe::Locked | LockProbe::Missing => {},
    }
    match seen.metadata_probe {
        Outcome::Succeeded => match &seen.metadata {
            Some(metadata) => {
                if !same_text(metadata.id.as_str(), id.as_str()) {
                    return Err(SnapshotError::InvalidDescriptor(DescriptorFault::MetadataMismatch));
                }
            },
            None => {
                return Err(SnapshotError::InvalidDescriptor(DescriptorFault::MetadataUnreadable));
            },
        },
        Outcome::NotFound => {},
        Outcome::Failed => {
            return Err(SnapshotError::Operation(Step::InspectEntry));
        },
    }
    match seen.tree_probe {
        Outcome::Succeeded => Ok(ReapAction::Remove { prepare_tree: true }),
        Outcome::NotFound => Ok(ReapAction::Remove { prepare_tree: false }),
        Outcome::Failed => Err(SnapshotError::Operation(Step::InspectEntry)),
    }
}

/// The tombstone of a snapshot names that snapshot: reaping reads back the
/// identifier that destroying wrote.
pub proof fn law_tombstones_name_their_snapshot(id: Seq<char>)
    ensures
        tombstone_id(handle::HIDDEN_PREFIX@ + id + handle::TOMBSTONE_SUFFIX@) == Some(id),
{
    let prefix = handle::HIDDEN_PREFIX@;
    let suffix = handle::TOMBSTONE_SUFFIX@;
    let name = prefix + id + suffix;
    assert(name.take(prefix.len() as int) =~= prefix);
    assert(name.skip(name.len() - suffix.len()) =~= suffix);
    assert(name.subrange(prefix.len() as int, name.len() - suffix.len()) =~= id);
}

/// What descriptors refer to.
pub open spec fn references(descriptors: Seq<FsSnapshotDescriptor>) -> Seq<Reference> {
    Seq::new(descriptors.len(), |i: int| descriptors[i]@)
}

/// The order of descriptors: by the bytes of their identifiers.
pub open spec fn id_before(a: Reference, b: Reference) -> bool {
    path::bytes_before(vstd::utf8::encode_utf8(a.id), vstd::utf8::encode_utf8(b.id))
}

/// No descriptor stands behind one with a larger identifier.
pub open spec fn sorted_by_id(list: Seq<Reference>) -> bool {
    forall|i: int, j: int| 0 <= i < j < list.len() ==> !id_before(#[trigger] list[j], #[trigger] list[i])
}

proof fn lemma_id_order(a: Reference, b: Reference, c: Reference)
    requires
        id_before(a, b),
        !id_before(c, b),
    ensures
        id_before(a, c),
{
    let (x, y, z) = (
        vstd::utf8::encode_utf8(a.id),
        vstd::utf8::encode_utf8(b.id),
        vstd::utf8::encode_utf8(c.id),
    );
    path::lemma_bytes_total(y, z);
    if y != z {
        path::lemma_bytes_transitive(x, y, z);
    }
}

/// Sorts descriptors by identifier.
pub fn sort_descriptors(found: Vec<FsSnapshotDescriptor>) -> (sorted: Vec<FsSnapshotDescriptor>)
    ensures
        sorted_by_id(references(sorted@)),
        references(sorted@).to_multiset() == references(found@).to_multiset(),
{
    let mut sorted: Vec<FsSnapshotDescriptor> = Vec::new();
    let ghost all = references(found@);
    let mut k: usize = 0;
    proof {
        assert(references(sorted@) =~= all.take(0));
    }
    while k < found.len()
        invariant
            k <= found@.len(),
            all == references(found@),
            sorted_by_id(references(sorted@)),
            references(sorted@).to_multiset() == all.take(k as int).to_multiset(),
        decreases found@.len() - k,
    {
        let added = found[k].copy();
        let ghost new = added@;
        let ghost before = references(sorted@);
        let mut at: usize = sorted.len();
        while at > 0 && path::bytes_precede(added.id().as_bytes(), sorted[at - 1].id().as_bytes())
            invariant
                at <= sorted@.len(),
                new == added@,
                before == references(sorted@),
                sorted_by_id(before),
                forall|i: int| at <= i < before.len() ==> id_before(new, #[trigger] before[i]),
            decreases at,
        {
            at = at - 1;
        }
        proof {
            if at > 0 {
                assert(before[at - 1] == sorted@[at - 1]@);
                assert(!id_before(new, before[at - 1]));
            }
        }
        sorted.insert(at, added);
        proof {
            let after = references(sorted@);
            assert(after =~= before.insert(at as int, new));
            assert forall|i: int| 0 <= i < at implies !id_before(new, #[trigger] before[i]) by {
                if id_before(new, before[i]) && i < at - 1 {
                    assert(!id_before(before[at - 1], before[i]));
                    lemma_id_order(new, before[i], before[at - 1]);
                }
            }
            assert forall|i: int, j: int| 0 <= i < j < after.len() implies !id_before(
                #[trigger] after[j],
                #[trigger] after[i],
            ) by {
                let old_i = if i < at { i } else { i - 1 };
                let old_j = if j < at { j } else { j - 1 };
                if i == at {
                    assert(id_before(new, before[old_j]));
                    if id_before(before[old_j], new) {
                        path::lemma_bytes_transitive(
                            vstd::utf8::encode_utf8(new.id),
                            vstd::utf8::encode_utf8(before[old_j].id),
                            vstd::utf8::encode_utf8(new.id),
                        );
                        path::lemma_bytes_irreflexive(vstd::utf8::encode_utf8(new.id));
                    }
                } else if j == at {
                    assert(!id_before(new, before[old_i]));
                } else {
                    assert(!id_before(before[old_j], before[old_i]));
                }
            }
            vstd::seq_lib::to_multiset_insert(before, at as int, new);
            assert(all.take(k as int + 1) =~= all.take(k as int).push(new));
            vstd::seq_lib::to_multiset_build(all.take(k as int), new);
        }
        k = k + 1;
    }
    proof {
        assert(all.take(k as int) =~= all);
    }
    sorted
}

/// An entry of a storage base that is not hidden, with what is found in it.
pub struct FoundEntry {
    pub entry: StorageEntry,
    pub seen: StoredEvidence,
}

/// The entries of a storage base that are not hidden.
pub open spec fn shown(found: Seq<FoundEntry>) -> Seq<FoundEntry>
    decreases found.len(),
{
    if found.len() == 0 {
        Seq::empty()
    } else if is_hidden_name(found.last().entry.raw@) {
        shown(found.drop_last())
    } else {
        shown(found.drop_last()).push(found.last())
    }
}

proof fn lemma_shown_grows(found: Seq<FoundEntry>, few: int)
    requires
        0 <= few <= found.len(),
    ensures
        shown(found.take(few)).len() <= shown(found).len(),
        forall|i: int|
            0 <= i < shown(found.take(few)).len() ==> #[trigger] shown(found)[i] == shown(found.take(few))[i],
    decreases found.len(),
{
    if few < found.len() {
        lemma_shown_grows(found.drop_last(), few);
        assert(found.drop_last().take(few) =~= found.take(few));
        let less = shown(found.drop_last());
        assert forall|i: int| 0 <= i < shown(found.take(few)).len() implies #[trigger] shown(found)[i] == shown(
            found.take(few),
        )[i] by {
            assert(less[i] == shown(found.take(few))[i]);
        }
    } else {
        assert(found.take(few) =~= found);
    }
}

/// Whether results are those of looking at the first entries of a storage base.
pub open spec fn are_discoveries(
    storage: Seq<u8>,
    found: Seq<FoundEntry>,
    results: Seq<Result<FsSnapshotDescriptor, SnapshotError>>,
) -> bool {
    results.len() <= found.len() && forall|i: int|
        0 <= i < results.len() ==> is_discovery(storage, found[i].entry, found[i].seen, #[trigger] results[i])
}

/// Whether results are descriptors alone.
pub open spec fn are_descriptors(
    results: Seq<Result<FsSnapshotDescriptor, SnapshotError>>,
    descriptors: Seq<Reference>,
) -> bool {
    results.len() == descriptors.len() && forall|i: int|
        0 <= i < results.len() ==> (#[trigger] results[i]) is Ok && results[i]->Ok_0@ == descriptors[i]
}

/// What a discovery tells: each snapshot, in the order of the identifiers; or the
/// error of the first entry that holds none.
pub open spec fn is_discovered_list(
    storage: Seq<u8>,
    found: Seq<FoundEntry>,
    results: Seq<Result<FsSnapshotDescriptor, SnapshotError>>,
    told: Result<Vec<FsSnapshotDescriptor>, SnapshotError>,
) -> bool {
    &&& are_discoveries(storage, found, results)
    &&& match told {
        Ok(list) => {
            &&& results.len() == found.len()
            &&& sorted_by_id(references(list@))
            &&& exists|descriptors: Seq<Reference>| #[trigger]
                are_descriptors(results, descriptors) && references(list@).to_multiset() == descriptors.to_multiset()
        },
        Err(error) => {
            &&& results.len() > 0
            &&& results.last() == Err::<FsSnapshotDescriptor, SnapshotError>(error)
            &&& exists|descriptors: Seq<Reference>| #[trigger] are_descriptors(results.drop_last(), descriptors)
        },
    }
}

impl FsSnapshot {
    /// The snapshots of a storage base, by what is found in its entries. Those
    /// that are hidden are no snapshots.
    pub fn discover(storage: &[u8], found: &Vec<FoundEntry>) -> (told: Result<Vec<FsSnapshotDescriptor>, SnapshotError>)
        ensures
            exists|results: Seq<Result<FsSnapshotDescriptor, SnapshotError>>| #[trigger]
                is_discovered_list(storage@, shown(found@), results, told),
    {
        let mut list: Vec<FsSnapshotDescriptor> = Vec::new();
        let ghost mut results: Seq<Result<FsSnapshotDescriptor, SnapshotError>> = Seq::empty();
        let mut i: usize = 0;
        proof {
            assert(found@.take(0) =~= Seq::<FoundEntry>::empty());
            assert(are_descriptors(results, references(list@)));
        }
        while i < found.len()
            invariant
                i <= found@.len(),
                results.len() == shown(found@.take(i as int)).len(),
                are_discoveries(storage@, shown(found@.take(i as int)), results),
                are_descriptors(results, references(list@)),
            decreases found@.len() - i,
        {
            let ghost seen = shown(found@.take(i as int));
            let ghost more = shown(found@.take(i as int + 1));
            proof {
                assert(found@.take(i as int + 1).drop_last() =~= found@.take(i as int));
                assert(found@.take(i as int + 1).last() == found@[i as int]);
            }
            if !is_hidden(found[i].entry.raw.as_slice()) {
                let looked = check_discovered(storage, &found[i].entry, &found[i].seen);
                let ghost before = results;
                let ghost known = references(list@);
                proof {
                    results = before.push(looked);
                    assert forall|j: int| 0 <= j < results.len() implies is_discovery(
                        storage@,
                        more[j].entry,
                        more[j].seen,
                        #[trigger] results[j],
                    ) by {
                        if j < seen.len() {
                            assert(results[j] == before[j]);
                            assert(more[j] == seen[j]);
                        }
                    }
                }
                match looked {
                    Err(error) => {
                        let told = Err(error);
                        proof {
                            lemma_shown_grows(found@, i as int + 1);
                            assert forall|j: int| 0 <= j < results.len() implies is_discovery(
                                storage@,
                                shown(found@)[j].entry,
                                shown(found@)[j].seen,
                                #[trigger] results[j],
                            ) by {
                                assert(shown(found@)[j] == more[j]);
                            }
                            assert(results.drop_last() =~= before);
                            assert(are_descriptors(results.drop_last(), known));
                            assert(is_discovered_list(storage@, shown(found@), results, told));
                        }
                        return told;
                    },
                    Ok(descriptor) => {
                        let ghost added = descriptor@;
                        list.push(descriptor);
                        proof {
                            assert(references(list@) =~= known.push(added));
                            assert forall|j: int| 0 <= j < results.len() implies (#[trigger] results[j]) is Ok
                                && results[j]->Ok_0@ == references(list@)[j] by {
                                if j < seen.len() {
                                    assert(results[j] == before[j]);
                                }
                            }
                        }
                    },
                }
            }
            i = i + 1;
        }
        let ghost descriptors = references(list@);
        let told = Ok(sort_descriptors(list));
        proof {
            assert(found@.take(i as int) =~= found@);
            assert(are_descriptors(results, descriptors));
            assert(is_discovered_list(storage@, shown(found@), results, told));
        }
        told
    }
}

/// The names of a storage base after some outcomes of destroying one of its snapshots.
pub open spec fn names_after(names: Set<Seq<u8>>, id: Seq<u8>, outcomes: Seq<Outcome>) -> Set<Seq<u8>>
    decreases outcomes.len(),
{
    if outcomes.len() == 0 {
        names
    } else {
        let before = names_after(names, id, outcomes.drop_last());
        let stage = destroy_run(outcomes.drop_last());
        if stage is Hide && step_done(stage, outcomes.last()) {
            before.remove(id).insert(handle::tombstone_name(id))
        } else if stage is RemoveDirectory && step_done(stage, outcomes.last()) {
            before.remove(handle::tombstone_name(id))
        } else {
            before
        }
    }
}

proof fn lemma_hidden_name_is_gone(names: Set<Seq<u8>>, id: Seq<u8>, outcomes: Seq<Outcome>)
    requires
        outcomes.len() > 0,
        outcomes[0] is Succeeded,
    ensures
        !names_after(names, id, outcomes).contains(id),
    decreases outcomes.len(),
{
    reveal_strlit(".");
    vstd::utf8::is_ascii_chars_encode_utf8(handle::HIDDEN_PREFIX@);
    assert(handle::tombstone_name(id).len() > id.len());
    if outcomes.len() > 1 {
        assert(outcomes.drop_last()[0] == outcomes[0]);
        lemma_hidden_name_is_gone(names, id, outcomes.drop_last());
    } else {
        assert(outcomes.drop_last() =~= Seq::<Outcome>::empty());
    }
}

/// Whether entries were found in a storage base that has some names.
pub open spec fn are_found_in(found: Seq<FoundEntry>, names: Set<Seq<u8>>) -> bool {
    forall|i: int|
        0 <= i < found.len() ==> {
            let entry = (#[trigger] found[i]).entry;
            &&& names.contains(entry.raw@)
            &&& entry.name matches Some(name) ==> vstd::utf8::encode_utf8(name@) == entry.raw@
        }
}

proof fn lemma_shown_are_found(found: Seq<FoundEntry>, names: Set<Seq<u8>>)
    requires
        are_found_in(found, names),
    ensures
        are_found_in(shown(found), names),
    decreases found.len(),
{
    if found.len() > 0 {
        let rest = found.drop_last();
        assert(are_found_in(rest, names)) by {
            assert forall|i: int| 0 <= i < rest.len() implies {
                let entry = (#[trigger] rest[i]).entry;
                &&& names.contains(entry.raw@)
                &&& entry.name matches Some(name) ==> vstd::utf8::encode_utf8(name@) == entry.raw@
            } by {
                assert(rest[i] == found[i]);
            }
        }
        lemma_shown_are_found(rest, names);
        assert(found.last() == found[found.len() - 1]);
    }
}

/// Once a snapshot was hidden, whatever of it was removed since, it is gone: no discovery
/// of its storage base lists it, and it cannot be reopened, since its directory is not
/// there. A directory that is not there has no canonical path.
pub proof fn law_destroyed_snapshots_are_gone(
    names: Set<Seq<u8>>,
    outcomes: Seq<Outcome>,
    descriptor: Reference,
    storage: Seq<u8>,
    found: Seq<FoundEntry>,
    results: Seq<Result<FsSnapshotDescriptor, SnapshotError>>,
    list: Vec<FsSnapshotDescriptor>,
    seen: ReopenEvidence,
)
    requires
        outcomes.len() > 0,
        outcomes[0] is Succeeded,
        are_found_in(found, names_after(names, vstd::utf8::encode_utf8(descriptor.id), outcomes)),
        is_discovered_list(storage, shown(found), results, Ok(list)),
        !names_after(names, vstd::utf8::encode_utf8(descriptor.id), outcomes).contains(
            vstd::utf8::encode_utf8(descriptor.id),
        ) ==> seen.canonical is None,
    ensures
        forall|i: int| 0 <= i < list@.len() ==> (#[trigger] list@[i])@.id != descriptor.id,
        reopen_fault(descriptor, seen) is Some,
{
    let id = vstd::utf8::encode_utf8(descriptor.id);
    let left = names_after(names, id, outcomes);
    lemma_hidden_name_is_gone(names, id, outcomes);
    lemma_shown_are_found(found, left);
    let visible = shown(found);
    let told = references(list@);
    let descriptors = choose|descriptors: Seq<Reference>| #[trigger]
        are_descriptors(results, descriptors) && told.to_multiset() == descriptors.to_multiset();
    assert forall|i: int| 0 <= i < list@.len() implies (#[trigger] list@[i])@.id != descriptor.id by {
        assert(told[i] == list@[i]@);
        told.to_multiset_ensures();
        descriptors.to_multiset_ensures();
        assert(told.contains(told[i]));
        assert(told.to_multiset().count(told[i]) > 0);
        assert(descriptors.to_multiset().count(told[i]) > 0);
        assert(descriptors.contains(told[i]));
        let k = choose|k: int| 0 <= k < descriptors.len() && descriptors[k] == told[i];
        assert(is_discovery(storage, visible[k].entry, visible[k].seen, results[k]));
        assert(results[k]->Ok_0@ == descriptors[k]);
        assert(left.contains(visible[k].entry.raw@));
    }
}

/// A destruction takes one thing away after the other: the snapshot is hidden under its
/// tombstone and that is made durable, its tree, its records, its leases and its directory
/// go, in this order, and the removal is made durable. It touches nothing outside the
/// tombstone but the lease of the handle.
pub proof fn law_destructions_take_away_their_own(state: DestructionView, handle: Handle)
    requires
        path::has_parent(state.tombstone),
    ensures
        ({
            let next = |stage: DestroyStage| destroy_next(stage, Outcome::Succeeded);
            let at = |stage: DestroyStage| destroy_ask(DestructionView { stage, ..state }, handle);
            let inside = |name: &'static str| path::joined_path(state.tombstone, name.spec_bytes());
            let parent = path::way_bytes(path::parts(state.tombstone).drop_last());
            let s1 = next(DestroyStage::Hide);
            let s2 = next(s1);
            let s3 = next(s2);
            let s4 = next(s3);
            let s5 = next(s4);
            let s6 = next(s5);
            let s7 = next(s6);
            let s8 = next(s7);
            let s9 = next(s8);
            let s10 = next(s9);
            let s11 = next(s10);
            &&& at(DestroyStage::Hide) == (DestroyAsk::Rename { from: state.published.snapshot_dir, to: state.tombstone })
            &&& at(s1) == (DestroyAsk::SyncDirectory { path: parent })
            &&& at(s2) == (DestroyAsk::MakeRemovable { tree: inside("tree") })
            &&& at(s3) == (DestroyAsk::RemoveTree { tree: inside("tree") })
            &&& at(s4) == (DestroyAsk::RemoveFile { path: inside("SNAPSHOT.json") })
            &&& at(s5) == (DestroyAsk::RemoveFile { path: inside("INDEX.bin") })
            &&& at(s6) == (DestroyAsk::RemoveFile { path: inside("DIRECTORY_MODES.json") })
            &&& handle.handle_lease matches Some(lease) ==> at(s7) == (DestroyAsk::RemoveFile { path: lease })
            &&& handle.handle_lease is None ==> at(s7) == DestroyAsk::Nothing
            &&& at(s8) == (DestroyAsk::RemoveDirectory { path: inside("leases") })
            &&& at(s9) == (DestroyAsk::RemoveFile { path: inside("leases.lock") })
            &&& at(s10) == (DestroyAsk::RemoveDirectory { path: state.tombstone })
            &&& at(s11) == (DestroyAsk::SyncDirectory { path: parent })
            &&& next(s11) == DestroyStage::Gone
        }),
{
}

/// A step counts as done where it succeeded, and the removal of the directory also where
/// the directory is gone already. A destruction that cannot hide its snapshot leaves it as
/// it is and says so; one that fails later is told as a destroyed snapshot with the stage
/// that failed; and one that goes through all its stages succeeds.
pub proof fn law_failed_destructions_are_told(
    stage: DestroyStage,
    outcome: Outcome,
    result: Option<Result<(), SnapshotError>>,
    published: Reference,
)
    requires
        !(stage is Gone),
        !(stage is Stopped),
        destroy_end(stage, outcome, result, published),
    ensures
        ({
            let is_done = outcome is Succeeded || (outcome is NotFound && stage is RemoveDirectory);
            &&& is_done && stage is SyncRemoved ==> (result matches Some(Ok(_)))
            &&& is_done && !(stage is SyncRemoved) ==> result is None
            &&& is_done ==> !(destroy_next(stage, outcome) is Stopped)
            &&& !is_done ==> destroy_next(stage, outcome) is Stopped && (result matches Some(Err(_)))
            &&& !is_done && !(stage is Hide) ==> (result matches Some(
                Err(SnapshotError::Destroyed { descriptor, stage: failed }),
            ) && descriptor@ == published && failed == stage)
            &&& !is_done && stage is Hide ==> !(result matches Some(Err(SnapshotError::Destroyed { .. })))
        }),
{
}

/// A handle follows its snapshot: once that is hidden, the handle leads to the tombstone,
/// its tree and its leases; a snapshot that could not be hidden stays as it was; and a
/// handle counts as destroyed once its snapshot is gone, or once a later step has failed.
pub proof fn law_handles_follow_their_snapshot(before: Handle, state: DestructionView)
    ensures
        ({
            let at = |stage: DestroyStage, outcome: Outcome|
                handle_after(before, DestructionView { stage, ..state }, outcome);
            let hidden = at(DestroyStage::Hide, Outcome::Succeeded);
            &&& hidden.descriptor.snapshot_dir == state.tombstone
            &&& hidden.descriptor.id == before.descriptor.id
            &&& hidden.tree_dir == path::joined_path(state.tombstone, "tree".spec_bytes())
            &&& hidden.destroyed == before.destroyed && hidden.root_hash == before.root_hash
            &&& at(DestroyStage::Hide, Outcome::Failed) == before
            &&& at(DestroyStage::Hide, Outcome::NotFound) == before
            &&& at(DestroyStage::RemoveTree, Outcome::Succeeded) == before
            &&& at(DestroyStage::RemoveTree, Outcome::Failed).destroyed
            &&& at(DestroyStage::RemoveOwnLease, Outcome::Succeeded).handle_lease is None
            &&& at(DestroyStage::RemoveOwnLease, Outcome::Succeeded).destroyed == before.destroyed
            &&& at(DestroyStage::SyncRemoved, Outcome::Succeeded).destroyed
            &&& at(DestroyStage::RemoveDirectory, Outcome::NotFound) == before
        }),
{
}

/// An index is read only from a plain file, and only where it loads and its root is the one
/// that is expected.
pub proof fn law_read_indexes_have_their_root(
    is_plain_file: bool,
    bytes: Option<Seq<u8>>,
    expected: Seq<u8>,
    result: Result<SnapshotIndex, SnapshotError>,
)
    requires
        is_index_read(is_plain_file, bytes, expected, result),
    ensures
        result matches Ok(index) ==> is_plain_file && bytes is Some && path_map::entry_map(index.nodes())[Names::empty()].hash
            == expected && stored::is_load_of(bytes->0, Ok(index)),
        !is_plain_file || bytes is None ==> result is Err,
{
}

/// A snapshot is reopened exactly where everything that names it agrees: its directory is
/// where the descriptor says, under its identity and not hidden, with its tree, its leases,
/// their lock and its modes of the right kind, and its metadata has the same identity.
pub proof fn law_reopened_snapshots_agree(descriptor: Reference, seen: ReopenEvidence)
    ensures
        reopen_fault(descriptor, seen) is None <==> {
            let id = vstd::utf8::encode_utf8(descriptor.id);
            &&& seen.canonical matches Some(canonical) && path::parts(canonical@) == path::parts(descriptor.snapshot_dir)
                && path::last_name(canonical@) == Some(id)
            &&& !is_hidden_name(id)
            &&& seen.directory_is_plain && seen.tree_is_plain && seen.leases_are_plain && seen.lease_lock_is_plain
                && seen.modes_are_plain
            &&& seen.metadata matches Some(metadata) && metadata.id@ == descriptor.id
        },
{
}

/// Entries of a storage that begin with a dot are hidden, and no others.
pub proof fn law_dots_hide(name: Seq<u8>)
    ensures
        is_hidden_name(name) <==> name.len() > 0 && name[0] == 0x2e,
{
    reveal_strlit(".");
    assert("."@ =~= seq!['.']);
    assert(handle::HIDDEN_PREFIX.spec_bytes() =~= seq![0x2eu8]) by {
        vstd::utf8::is_ascii_chars_encode_utf8("."@);
    }
    let dot = seq![0x2eu8];
    if name.len() > 0 && name[0] == 0x2e {
        assert(name.take(1) =~= dot);
    }
    if is_hidden_name(name) {
        assert(name.take(1)[0] == dot[0]);
    }
}

/// A snapshot is discovered exactly where its entry is a directory whose name is a canonical
/// identity, its metadata has that identity, and its index is read with the root that the
/// metadata names; the descriptor leads to that entry.
pub proof fn law_discovered_snapshots_are_whole(
    storage: Seq<u8>,
    entry: StorageEntry,
    seen: StoredEvidence,
    result: Result<FsSnapshotDescriptor, SnapshotError>,
)
    requires
        is_discovery(storage, entry, seen, result),
    ensures
        result matches Ok(descriptor) ==> {
            &&& entry.is_directory
            &&& entry.name matches Some(name) && ids::is_canonical(name@) && descriptor@.id == name@
                && descriptor@.snapshot_dir == path::joined_path(storage, vstd::utf8::encode_utf8(name@))
            &&& seen.metadata matches Some(metadata) && metadata.id@ == descriptor@.id
            &&& seen.index_is_plain && seen.index is Some
        },
        !entry.is_directory || entry.name is None || seen.metadata is None ==> result is Err,
{
}

proof fn lemma_shown_is_a_filter(found: Seq<FoundEntry>)
    ensures
        shown(found) == found.filter(|one: FoundEntry| !is_hidden_name(one.entry.raw@)),
    decreases found.len(),
{
    reveal(Seq::filter);
    if found.len() > 0 {
        lemma_shown_is_a_filter(found.drop_last());
    }
}

/// Discovering looks at every entry of a storage that is not hidden, in their order, and at
/// no other.
pub proof fn law_hidden_entries_are_passed_over(found: Seq<FoundEntry>)
    ensures
        shown(found) == found.filter(|one: FoundEntry| !is_hidden_name(one.entry.raw@)),
{
    lemma_shown_is_a_filter(found);
}

/// A tombstone is removed only where it names a canonical identity, is a plain directory,
/// nobody holds its lock, and its metadata, where it still has some, has that identity.
/// What is no tombstone, and what somebody is still destroying, is left alone.
pub proof fn law_only_abandoned_tombstones_are_removed(name: Option<String>, seen: TombstoneEvidence)
    ensures
        reap_decision(name, seen) matches Ok(ReapAction::Remove { prepare_tree }) ==> {
            &&& name matches Some(told) && tombstone_id(told@) matches Some(id) && ids::is_canonical(id) && (
            seen.metadata_probe is Succeeded ==> (seen.metadata matches Some(metadata) && metadata.id@ == id))
            &&& seen.is_plain_directory
            &&& seen.lock is Locked || seen.lock is Missing
            &&& prepare_tree == (seen.tree_probe is Succeeded)
            &&& !(seen.metadata_probe is Failed) && !(seen.tree_probe is Failed)
        },
        name is None || tombstone_id(name->0@) is None ==> reap_decision(name, seen) == Ok::<ReapAction, SnapshotError>(
            ReapAction::Leave,
        ),
        (name matches Some(told) && tombstone_id(told@) matches Some(id) && ids::uuid_bytes(id) is Some
            && ids::is_canonical(id) && seen.is_plain_directory) ==> (seen.lock is Busy ==> reap_decision(name, seen)
            == Ok::<ReapAction, SnapshotError>(ReapAction::Leave)) && (seen.lock is Failed ==> reap_decision(name, seen)
            is Err),
{
}

/// What is being made or destroyed is hidden under a name of its own, so that it is never
/// taken for a snapshot; the lease of a handle lies in the leases of its snapshot.
pub proof fn law_unfinished_snapshots_are_hidden(id: Seq<u8>, snapshot_dir: Seq<u8>, lease_id: Seq<u8>)
    ensures
        is_hidden_name(handle::tombstone_name(id)),
        is_hidden_name(handle::staging_name(id)),
        handle::tombstone_name(id) == ".".spec_bytes() + id + ".destroying".spec_bytes(),
        handle::staging_name(id) == ".".spec_bytes() + id + ".tmp".spec_bytes(),
        lease_of(snapshot_dir, lease_id) == path::joined_path(
            path::joined_path(snapshot_dir, "leases".spec_bytes()),
            "handle-".spec_bytes() + lease_id,
        ),
{
    let dot = ".".spec_bytes();
    assert(handle::tombstone_name(id).take(dot.len() as int) =~= dot);
    assert(handle::staging_name(id).take(dot.len() as int) =~= dot);
}

/// Discovered snapshots are told in the order of their identities, and only where each of
/// them was discovered.
pub proof fn law_discovered_snapshots_are_in_order(
    results: Seq<Result<FsSnapshotDescriptor, SnapshotError>>,
    descriptors: Seq<Reference>,
    list: Seq<Reference>,
    i: int,
    j: int,
)
    requires
        are_descriptors(results, descriptors),
        sorted_by_id(list),
        0 <= i < j < list.len(),
    ensures
        results.len() == descriptors.len(),
        forall|k: int|
            0 <= k < results.len() ==> (#[trigger] results[k]) is Ok && results[k]->Ok_0@.id == descriptors[k].id
                && results[k]->Ok_0@.snapshot_dir == descriptors[k].snapshot_dir,
        !path::bytes_before(vstd::utf8::encode_utf8(list[j].id), vstd::utf8::encode_utf8(list[i].id)),
{
    assert(!id_before(list[j], list[i]));
}

} // verus!
