//! Making a snapshot, and copying one to a new place.
//!
//! Both build a tree in a hidden staging directory and rename it into place.
//! What goes wrong before the rename leaves nothing but the staging directory,
//! which is cleaned up; what goes wrong after it is told together with what is
//! visible by then.

use crate::error::{PathFault, SnapshotError, Step};
use crate::path;
use crate::path::{append_bytes, copy_bytes, file_name, join_path, parent_path, path_starts_with, Names, RelPath};
use crate::path_map;
use crate::path_map::PathMap;
use crate::snapshot::assembly;
use crate::snapshot::assembly::{UpperEntry, WalkedEntry};
use crate::snapshot::handle;
use crate::snapshot::handle::{
    handle_lease_path, staging_path, FsSnapshot, FsSnapshotDescriptor, Handle, Reference, SNAPSHOT_DIRECTORY_MODES,
    SNAPSHOT_INDEX, SNAPSHOT_LEASES, SNAPSHOT_LEASE_LOCK, SNAPSHOT_METADATA, SNAPSHOT_TREE,
};
use crate::snapshot::index;
use crate::snapshot::index::SnapshotIndex;
use crate::snapshot::inventory;
use crate::snapshot::inventory::{entry_mode, inventories_equal, EntryStamp, Stamp, StampedEntry};
use crate::snapshot::SnapshotEntryKind;
use crate::sys::{EACCES, EINVAL, ENOSYS, ENOTTY, EOPNOTSUPP, EPERM, EXDEV};
use vstd::prelude::*;
use vstd::string::*;

verus! {

/// What stands where a storage base should be.
#[derive(Clone, Copy, Debug, PartialEq, Eq, Structural)]
pub enum StorageProbe {
    PlainDirectory,
    Missing,
    Other,
    Failed,
}

/// What is done about a storage base.
#[derive(Clone, Copy, Debug, PartialEq, Eq, Structural)]
pub enum StorageAction {
    Use,
    /// It is made, and must then be a plain directory.
    Create,
}

/// Decides what is done about a storage base.
pub fn ensure_storage_base(probe: StorageProbe) -> (result: Result<StorageAction, SnapshotError>)
    ensures
        result == match probe {
            StorageProbe::PlainDirectory => Ok::<StorageAction, SnapshotError>(StorageAction::Use),
            StorageProbe::Missing => Ok::<StorageAction, SnapshotError>(StorageAction::Create),
            StorageProbe::Other => Err::<StorageAction, SnapshotError>(
                SnapshotError::Operation(Step::WrongKind),
            ),
            StorageProbe::Failed => Err::<StorageAction, SnapshotError>(
                SnapshotError::Operation(Step::Storage),
            ),
        },
{
    match probe {
        StorageProbe::PlainDirectory => Ok(StorageAction::Use),
        StorageProbe::Missing => Ok(StorageAction::Create),
        StorageProbe::Other => Err(SnapshotError::Operation(Step::WrongKind)),
        StorageProbe::Failed => Err(SnapshotError::Operation(Step::Storage)),
    }
}

/// Checks that a directory does not lie inside another: the storage of a
/// snapshot not inside its source, the upper of a branch not inside its lower.
/// Both paths are canonical.
pub fn check_outside(inner: &[u8], outer: &[u8]) -> (result: Result<(), SnapshotError>)
    ensures
        result == if path::starts_with(path::parts(inner@), path::parts(outer@)) {
            Err::<(), SnapshotError>(SnapshotError::Operation(Step::Nested))
        } else {
            Ok::<(), SnapshotError>(())
        },
{
    if path_starts_with(inner, outer) {
        Err(SnapshotError::Operation(Step::Nested))
    } else {
        Ok(())
    }
}

/// How the index of a new snapshot comes from that of its source.
pub enum IndexUpdate {
    /// The tree is the source's.
    Unchanged,
    /// Some paths of the tree are other than the source's.
    RefreshPaths { paths: Vec<Vec<u8>>, found: Vec<WalkedEntry> },
    /// A branch lies over the source.
    Branch {
        deleted: Vec<Vec<u8>>,
        changed_directories: PathMap<u32>,
        upper: Vec<UpperEntry>,
        root_mode: Option<u32>,
    },
}

/// The maps inside an update are ordered.
pub open spec fn update_wf(update: IndexUpdate) -> bool {
    match update {
        IndexUpdate::Branch { changed_directories, .. } => changed_directories.wf(),
        _ => true,
    }
}

/// What bringing the index of a source up to date gives.
pub open spec fn is_updated_index(
    source: SnapshotIndex,
    update: IndexUpdate,
    result: Result<SnapshotIndex, SnapshotError>,
) -> bool {
    let not_relative = Err::<SnapshotIndex, SnapshotError>(
        SnapshotError::InvalidPath(PathFault::NotRelative),
    );
    match update {
        IndexUpdate::Unchanged => result == Ok::<SnapshotIndex, SnapshotError>(source),
        IndexUpdate::RefreshPaths { paths, found } => if assembly::all_relative(paths@) {
            assembly::sealed_map(
                assembly::with_entries(
                    assembly::without_roots(source.entries@, assembly::all_names(paths@)),
                    assembly::walked_nodes(found@),
                ),
                result,
            )
        } else {
            result == not_relative
        },
        IndexUpdate::Branch { deleted, changed_directories, upper, root_mode } => {
            if assembly::all_relative(deleted@) {
                assembly::sealed_map(
                    assembly::with_root_mode(
                        assembly::with_upper_layer(
                            assembly::without_roots(source.entries@, assembly::all_names(deleted@)),
                            changed_directories@,
                            assembly::upper_nodes(upper@),
                        ),
                        root_mode,
                    ),
                    result,
                )
            } else {
                result == not_relative
            }
        },
    }
}

/// Brings the index of a source up to date for a new snapshot.
pub fn updated_index(source: SnapshotIndex, update: IndexUpdate) -> (result: Result<SnapshotIndex, SnapshotError>)
    requires
        source.wf(),
        update_wf(update),
    ensures
        is_updated_index(source, update, result),
{
    match update {
        IndexUpdate::Unchanged => Ok(source),
        IndexUpdate::RefreshPaths { paths, found } => source.refresh_paths(&paths, found),
        IndexUpdate::Branch { deleted, changed_directories, upper, root_mode } => source.apply_branch(
            &deleted,
            &changed_directories,
            upper,
            root_mode,
        ),
    }
}

/// The modes that a copy of a tree gives its directories: for each directory of
/// the walk the one that the source's backend keeps, else its own.
pub open spec fn copied_modes(
    kept: Map<Names, u32>,
    root: u32,
    walked: Seq<(Names, Stamp)>,
) -> Map<Names, u32>
    decreases walked.len(),
{
    if walked.len() == 0 {
        map![Names::empty() => inventory::backend_mode(
            kept,
            Names::empty(),
            SnapshotEntryKind::Directory,
            root,
        )]
    } else {
        let before = copied_modes(kept, root, walked.drop_last());
        let (at, stamp) = walked.last();
        if stamp.kind is Directory {
            before.insert(at, inventory::backend_mode(kept, at, SnapshotEntryKind::Directory, stamp.mode))
        } else {
            before
        }
    }
}

/// Collects the modes that a copy of a tree gives its directories.
pub fn copy_tree_modes(kept: &PathMap<u32>, root_mode: u32, walked: &Vec<StampedEntry>) -> (modes: PathMap<u32>)
    requires
        kept.wf(),
    ensures
        modes.wf(),
        modes@ == copied_modes(kept@, root_mode, inventory::stamped(walked@)),
{
    let mut modes: PathMap<u32> = PathMap::new();
    let root = RelPath::root();
    let mode = entry_mode(kept, &root, SnapshotEntryKind::Directory, root_mode);
    modes.insert(root, mode);
    let ghost all = inventory::stamped(walked@);
    let mut i: usize = 0;
    proof {
        assert(all.take(0) =~= Seq::<(Names, Stamp)>::empty());
        assert(modes@ =~= copied_modes(kept@, root_mode, all.take(0)));
    }
    while i < walked.len()
        invariant
            i <= walked@.len(),
            all == inventory::stamped(walked@),
            kept.wf(),
            modes.wf(),
            modes@ == copied_modes(kept@, root_mode, all.take(i as int)),
        decreases walked@.len() - i,
    {
        let entry = &walked[i];
        proof {
            assert(all.take(i as int + 1).drop_last() =~= all.take(i as int));
            assert(all.take(i as int + 1).last() == (entry.path@, entry.stamp@));
        }
        if entry.stamp.kind == SnapshotEntryKind::Directory {
            let mode = entry_mode(kept, &entry.path, SnapshotEntryKind::Directory, entry.stamp.mode);
            modes.insert(entry.path.copy(), mode);
        }
        i = i + 1;
    }
    proof {
        assert(all.take(i as int) =~= all);
    }
    modes
}

/// The paths of directories with their modes, in the order in which the modes
/// are set: what stands last in path order comes first.
pub open spec fn finalize_order(modes: path_map::Entries<u32>) -> path_map::Entries<u32> {
    Seq::new(modes.len(), |i: int| modes[modes.len() - 1 - i])
}

/// The directories of a copy in the order in which their modes are set.
pub fn finalize_directories(modes: &PathMap<u32>) -> (order: Vec<(RelPath, u32)>)
    ensures
        order@.len() == modes.entries().len(),
        forall|i: int| 0 <= i < order@.len() ==> finalize_order(modes.entries())[i] == (
            (#[trigger] order@[i]).0@,
            order@[i].1,
        ),
{
    let mut order: Vec<(RelPath, u32)> = Vec::new();
    let mut i: usize = modes.len();
    while i > 0
        invariant
            i <= modes.entries().len(),
            order@.len() == modes.entries().len() - i,
            forall|j: int| 0 <= j < order@.len() ==> modes.entries()[modes.entries().len() - 1 - j] == (
                (#[trigger] order@[j]).0@,
                order@[j].1,
            ),
        decreases i,
    {
        i = i - 1;
        order.push((modes.path_at(i).copy(), *modes.value_at(i)));
    }
    order
}

/// A directory gets its mode only after every directory below it: a mode that
/// forbids to enter it keeps no other from being set.
pub proof fn law_directories_are_finalized_inside_out(modes: path_map::Entries<u32>, i: int, j: int)
    requires
        path_map::in_order(modes),
        0 <= i < j < modes.len(),
    ensures
        !path::lies_under(finalize_order(modes)[j].0, finalize_order(modes)[i].0),
{
    let order = finalize_order(modes);
    let (outer, inner) = (order[i].0, order[j].0);
    let (a, b) = (modes.len() - 1 - j, modes.len() - 1 - i);
    assert(modes[a].0 == inner && modes[b].0 == outer);
    assert(path::path_before(inner, outer));
    if path::lies_under(inner, outer) {
        if inner == outer {
            path::lemma_path_irreflexive(inner);
        } else {
            path::lemma_ancestor_before(outer, inner);
            path::lemma_path_transitive(inner, outer, inner);
            path::lemma_path_irreflexive(inner);
        }
    }
}

/// What tells one state of a file from another.
#[derive(Clone, Copy, Debug, PartialEq, Eq, Structural)]
pub struct FileIdentity {
    pub dev: u64,
    pub ino: u64,
    pub mode: u32,
    pub len: u64,
    pub mtime: i64,
    pub mtime_nsec: i64,
    pub ctime: i64,
    pub ctime_nsec: i64,
}

/// How a file was copied.
#[derive(Clone, Copy, Debug, PartialEq, Eq, Structural)]
pub enum FileCopyMethod {
    Reflink,
    Buffered,
}

/// Checks that the opened file is the one that was looked at.
pub fn check_opened(before: FileIdentity, opened: FileIdentity) -> (result: Result<(), SnapshotError>)
    ensures
        result == if before == opened {
            Ok::<(), SnapshotError>(())
        } else {
            Err::<(), SnapshotError>(SnapshotError::SourceChanged)
        },
{
    if before == opened {
        Ok(())
    } else {
        Err(SnapshotError::SourceChanged)
    }
}

/// Checks that a copied file stayed as it was, and is still at its path.
pub fn check_copied(before: FileIdentity, opened_after: FileIdentity, path_after: FileIdentity) -> (result: Result<
    (),
    SnapshotError,
>)
    ensures
        result == if before == opened_after && before == path_after {
            Ok::<(), SnapshotError>(())
        } else {
            Err::<(), SnapshotError>(SnapshotError::SourceChanged)
        },
{
    if before != opened_after || before != path_after {
        Err(SnapshotError::SourceChanged)
    } else {
        Ok(())
    }
}

/// Whether an error of sharing the blocks of a file only means that its bytes
/// have to be copied.
pub open spec fn copies_instead(errno: i32) -> bool {
    errno == EOPNOTSUPP || errno == ENOTTY || errno == EXDEV || errno == EINVAL || errno == ENOSYS || errno
        == EPERM || errno == EACCES
}

/// Decides how a file is copied, given how sharing its blocks ended.
pub fn copy_method(try_reflink: bool, reflink: Result<(), i32>) -> (result: Result<FileCopyMethod, SnapshotError>)
    ensures
        result == if !try_reflink {
            Ok::<FileCopyMethod, SnapshotError>(FileCopyMethod::Buffered)
        } else {
            match reflink {
                Ok(_) => Ok::<FileCopyMethod, SnapshotError>(FileCopyMethod::Reflink),
                Err(errno) => if copies_instead(errno) {
                    Ok::<FileCopyMethod, SnapshotError>(FileCopyMethod::Buffered)
                } else {
                    Err::<FileCopyMethod, SnapshotError>(SnapshotError::Operation(Step::Stage))
                },
            }
        },
{
    if !try_reflink {
        return Ok(FileCopyMethod::Buffered);
    }
    match reflink {
        Ok(_) => Ok(FileCopyMethod::Reflink),
        Err(errno) => {
            if errno == EOPNOTSUPP || errno == ENOTTY || errno == EXDEV || errno == EINVAL || errno == ENOSYS
                || errno == EPERM || errno == EACCES {
                Ok(FileCopyMethod::Buffered)
            } else {
                Err(SnapshotError::Operation(Step::Stage))
            }
        },
    }
}

/// How far making a snapshot has come. Every stage but the last two names the
/// step that is to be done.
#[derive(Clone, Copy, Debug, PartialEq, Eq, Structural)]
pub enum CaptureStage {
    /// Making the staging directory with its tree, leases and lock.
    CreateStaging,
    /// Taking stock of the source.
    InventoryBefore,
    CopyTree,
    /// Taking stock of the source again.
    InventoryAfter,
    /// Putting changes over the copy.
    Overlay,
    /// Taking stock of the source once more.
    InventoryFinal,
    /// Taking stock of the staged tree, within the budgets of a scan.
    InventoryStaged,
    BuildIndex,
    WriteIndex,
    WriteModes,
    WriteMetadata,
    SyncLeases,
    SyncStaging,
    /// Renaming the staging directory to the snapshot's.
    Publish,
    /// Making the rename durable.
    SyncStorage,
    AcquireLease,
    /// The snapshot is made.
    Made,
    /// A step failed.
    Stopped,
}

/// The place of a stage in the order of stages.
pub open spec fn capture_rank(stage: CaptureStage) -> int {
    match stage {
        CaptureStage::CreateStaging => 0,
        CaptureStage::InventoryBefore => 1,
        CaptureStage::CopyTree => 2,
        CaptureStage::InventoryAfter => 3,
        CaptureStage::Overlay => 4,
        CaptureStage::InventoryFinal => 5,
        CaptureStage::InventoryStaged => 6,
        CaptureStage::BuildIndex => 7,
        CaptureStage::WriteIndex => 8,
        CaptureStage::WriteModes => 9,
        CaptureStage::WriteMetadata => 10,
        CaptureStage::SyncLeases => 11,
        CaptureStage::SyncStaging => 12,
        CaptureStage::Publish => 13,
        CaptureStage::SyncStorage => 14,
        CaptureStage::AcquireLease => 15,
        CaptureStage::Made => 16,
        CaptureStage::Stopped => 17,
    }
}

/// The stage behind another.
pub open spec fn stage_behind(stage: CaptureStage) -> CaptureStage {
    match stage {
        CaptureStage::CreateStaging => CaptureStage::InventoryBefore,
        CaptureStage::InventoryBefore => CaptureStage::CopyTree,
        CaptureStage::CopyTree => CaptureStage::InventoryAfter,
        CaptureStage::InventoryAfter => CaptureStage::Overlay,
        CaptureStage::Overlay => CaptureStage::InventoryFinal,
        CaptureStage::InventoryFinal => CaptureStage::InventoryStaged,
        CaptureStage::InventoryStaged => CaptureStage::BuildIndex,
        CaptureStage::BuildIndex => CaptureStage::WriteIndex,
        CaptureStage::WriteIndex => CaptureStage::WriteModes,
        CaptureStage::WriteModes => CaptureStage::WriteMetadata,
        CaptureStage::WriteMetadata => CaptureStage::SyncLeases,
        CaptureStage::SyncLeases => CaptureStage::SyncStaging,
        CaptureStage::SyncStaging => CaptureStage::Publish,
        CaptureStage::Publish => CaptureStage::SyncStorage,
        CaptureStage::SyncStorage => CaptureStage::AcquireLease,
        CaptureStage::AcquireLease => CaptureStage::Made,
        CaptureStage::Made => CaptureStage::Made,
        CaptureStage::Stopped => CaptureStage::Stopped,
    }
}

fn next_stage(stage: CaptureStage) -> (next: CaptureStage)
    ensures
        next == stage_behind(stage),
{
    match stage {
        CaptureStage::CreateStaging => CaptureStage::InventoryBefore,
        CaptureStage::InventoryBefore => CaptureStage::CopyTree,
        CaptureStage::CopyTree => CaptureStage::InventoryAfter,
        CaptureStage::InventoryAfter => CaptureStage::Overlay,
        CaptureStage::Overlay => CaptureStage::InventoryFinal,
        CaptureStage::InventoryFinal => CaptureStage::InventoryStaged,
        CaptureStage::InventoryStaged => CaptureStage::BuildIndex,
        CaptureStage::BuildIndex => CaptureStage::WriteIndex,
        CaptureStage::WriteIndex => CaptureStage::WriteModes,
        CaptureStage::WriteModes => CaptureStage::WriteMetadata,
        CaptureStage::WriteMetadata => CaptureStage::SyncLeases,
        CaptureStage::SyncLeases => CaptureStage::SyncStaging,
        CaptureStage::SyncStaging => CaptureStage::Publish,
        CaptureStage::Publish => CaptureStage::SyncStorage,
        CaptureStage::SyncStorage => CaptureStage::AcquireLease,
        CaptureStage::AcquireLease => CaptureStage::Made,
        CaptureStage::Made => CaptureStage::Made,
        CaptureStage::Stopped => CaptureStage::Stopped,
    }
}

/// What a step of making a snapshot brought.
pub enum CaptureEvent {
    /// The step was done.
    Done,
    /// The stock that was taken.
    Stock(PathMap<EntryStamp>),
    /// The index that was built.
    Indexed(SnapshotIndex),
    /// The lease was acquired.
    Leased,
    Failed(SnapshotError),
}

/// Whether an event is one that a stage can bring.
pub open spec fn event_fits(stage: CaptureStage, event: CaptureEvent) -> bool {
    match event {
        CaptureEvent::Failed(_) => true,
        CaptureEvent::Stock(stock) => stock.wf() && (stage is InventoryBefore || stage is InventoryAfter
            || stage is InventoryFinal || stage is InventoryStaged),
        CaptureEvent::Indexed(index) => stage is BuildIndex && index.wf() && path_map::has_path(
            index.nodes(),
            Names::empty(),
        ),
        CaptureEvent::Leased => stage is AcquireLease,
        CaptureEvent::Done => !(stage is InventoryBefore || stage is InventoryAfter || stage is InventoryFinal
            || stage is InventoryStaged || stage is BuildIndex || stage is AcquireLease),
    }
}

/// Making one snapshot.
pub struct Capture {
    stage: CaptureStage,
    source: Vec<u8>,
    storage: Vec<u8>,
    descriptor: FsSnapshotDescriptor,
    lease: Vec<u8>,
    before: PathMap<EntryStamp>,
    index: Option<SnapshotIndex>,
    root_hash: [u8; 32],
}

/// What making a snapshot has come to.
#[verifier::ext_equal]
pub struct CaptureView {
    pub stage: CaptureStage,
    /// The directory that is copied.
    pub source: Seq<u8>,
    /// The directory that the snapshot is made in.
    pub storage: Seq<u8>,
    pub descriptor: Reference,
    /// The lease that the handle will hold.
    pub lease: Seq<u8>,
    pub before: Map<Names, Stamp>,
    pub index: Option<index::Nodes>,
    pub root_hash: Seq<u8>,
}

impl View for Capture {
    type V = CaptureView;

    closed spec fn view(&self) -> CaptureView {
        CaptureView {
            stage: self.stage,
            source: self.source@,
            storage: self.storage@,
            descriptor: self.descriptor@,
            lease: self.lease@,
            before: self.before@,
            index: match self.index {
                Some(index) => Some(index.nodes()),
                None => None,
            },
            root_hash: self.root_hash@,
        }
    }
}

/// What making a snapshot leads to.
pub enum CaptureResult {
    /// The next step is to be done.
    GoOn,
    Made(FsSnapshot),
    /// A step failed. The staging directory is removed where `cleanup` says so.
    Stopped { error: SnapshotError, cleanup: bool },
}

/// Whether an event says that the source is not what it was.
pub open spec fn source_changed(state: CaptureView, event: CaptureEvent) -> bool {
    &&& state.stage is InventoryAfter || state.stage is InventoryFinal
    &&& event matches CaptureEvent::Stock(stock)
    &&& stock@ != state.before
}

/// What an event makes of making a snapshot.
pub open spec fn capture_after(state: CaptureView, event: CaptureEvent) -> CaptureView {
    if event is Failed || source_changed(state, event) {
        CaptureView { stage: CaptureStage::Stopped, ..state }
    } else {
        CaptureView {
            stage: stage_behind(state.stage),
            before: match event {
                CaptureEvent::Stock(stock) if state.stage is InventoryBefore => stock@,
                _ => state.before,
            },
            index: match event {
                CaptureEvent::Indexed(index) => Some(index.nodes()),
                _ => state.index,
            },
            root_hash: match event {
                CaptureEvent::Indexed(index) => path_map::entry_map(index.nodes())[Names::empty()].hash,
                _ => state.root_hash,
            },
            ..state
        }
    }
}

/// What is told of an event: a failure before the snapshot is visible as it is,
/// one after it with the descriptor of the snapshot.
pub open spec fn is_capture_result(state: CaptureView, event: CaptureEvent, result: CaptureResult) -> bool {
    match event {
        CaptureEvent::Failed(error) => if capture_rank(state.stage) <= capture_rank(CaptureStage::Publish) {
            result == (CaptureResult::Stopped { error, cleanup: true })
        } else {
            &&& result matches CaptureResult::Stopped { error: told, cleanup }
            &&& !cleanup
            &&& told matches SnapshotError::Published { descriptor }
            &&& descriptor@ == state.descriptor
        },
        CaptureEvent::Leased => result matches CaptureResult::Made(snapshot) && snapshot@ == (Handle {
            descriptor: state.descriptor,
            tree_dir: path::joined_path(
                state.descriptor.snapshot_dir,
                handle::SNAPSHOT_TREE.spec_bytes(),
            ),
            root_hash: state.root_hash,
            handle_lease: Some(state.lease),
            destroyed: false,
        }),
        _ => if source_changed(state, event) {
            result == (CaptureResult::Stopped { error: SnapshotError::SourceChanged, cleanup: true })
        } else {
            result is GoOn
        },
    }
}

impl FsSnapshot {
    /// Starts making a snapshot of `source` below `storage`, under an identifier. The
    /// handle on it will hold a lease under an identifier of its own.
    pub fn capture(source: &[u8], storage: &[u8], id: &str, lease_id: &str) -> (capture: Capture)
        ensures
            capture.wf(),
            capture@.stage is CreateStaging,
            capture@.source == source@,
            capture@.storage == storage@,
            capture@.index is None,
            capture@.descriptor == (Reference {
                snapshot_dir: path::joined_path(storage@, id.spec_bytes()),
                id: id@,
            }),
            capture@.lease == path::joined_path(
                path::joined_path(capture@.descriptor.snapshot_dir, handle::SNAPSHOT_LEASES.spec_bytes()),
                handle::handle_lease_name(lease_id.spec_bytes()),
            ),
    {
        let snapshot_dir = join_path(storage, id.as_bytes());
        let lease = handle_lease_path(snapshot_dir.as_slice(), lease_id);
        Capture {
            stage: CaptureStage::CreateStaging,
            source: copy_bytes(source),
            storage: copy_bytes(storage),
            descriptor: FsSnapshotDescriptor::new(snapshot_dir, crate::text::copy_text(id)),
            lease,
            before: PathMap::new(),
            index: None,
            root_hash: [0;32],
        }
    }
}

/// What is done next to make a snapshot.
#[derive(Debug)]
pub enum CaptureStep {
    /// Make the staging directory for its owner alone, with a directory for the tree and
    /// one for the leases, and the file of the lock.
    MakeStaging { staging: Vec<u8>, tree: Vec<u8>, leases: Vec<u8>, lock: Vec<u8> },
    /// Take stock of a directory.
    TakeStock { root: Vec<u8> },
    CopyTree { source: Vec<u8>, tree: Vec<u8> },
    /// Put the changes over the copied tree.
    Overlay { tree: Vec<u8> },
    BuildIndex { tree: Vec<u8> },
    WriteIndex { path: Vec<u8> },
    WriteModes { path: Vec<u8> },
    WriteMetadata { path: Vec<u8>, root_hash: [u8; 32] },
    SyncDirectory { path: Vec<u8> },
    /// Rename the staging directory, where nothing has its new name.
    Rename { from: Vec<u8>, to: Vec<u8> },
    /// Make the lease of the handle.
    Lease { path: Vec<u8> },
    Nothing,
}

/// What is done next to make a snapshot.
#[verifier::ext_equal]
pub enum CaptureAsk {
    MakeStaging { staging: Seq<u8>, tree: Seq<u8>, leases: Seq<u8>, lock: Seq<u8> },
    TakeStock { root: Seq<u8> },
    CopyTree { source: Seq<u8>, tree: Seq<u8> },
    Overlay { tree: Seq<u8> },
    BuildIndex { tree: Seq<u8> },
    WriteIndex { path: Seq<u8> },
    WriteModes { path: Seq<u8> },
    WriteMetadata { path: Seq<u8>, root_hash: Seq<u8> },
    SyncDirectory { path: Seq<u8> },
    Rename { from: Seq<u8>, to: Seq<u8> },
    Lease { path: Seq<u8> },
    Nothing,
}

impl View for CaptureStep {
    type V = CaptureAsk;

    open spec fn view(&self) -> CaptureAsk {
        match self {
            CaptureStep::MakeStaging { staging, tree, leases, lock } => CaptureAsk::MakeStaging {
                staging: staging@,
                tree: tree@,
                leases: leases@,
                lock: lock@,
            },
            CaptureStep::TakeStock { root } => CaptureAsk::TakeStock { root: root@ },
            CaptureStep::CopyTree { source, tree } => CaptureAsk::CopyTree { source: source@, tree: tree@ },
            CaptureStep::Overlay { tree } => CaptureAsk::Overlay { tree: tree@ },
            CaptureStep::BuildIndex { tree } => CaptureAsk::BuildIndex { tree: tree@ },
            CaptureStep::WriteIndex { path } => CaptureAsk::WriteIndex { path: path@ },
            CaptureStep::WriteModes { path } => CaptureAsk::WriteModes { path: path@ },
            CaptureStep::WriteMetadata { path, root_hash } => CaptureAsk::WriteMetadata {
                path: path@,
                root_hash: root_hash@,
            },
            CaptureStep::SyncDirectory { path } => CaptureAsk::SyncDirectory { path: path@ },
            CaptureStep::Rename { from, to } => CaptureAsk::Rename { from: from@, to: to@ },
            CaptureStep::Lease { path } => CaptureAsk::Lease { path: path@ },
            CaptureStep::Nothing => CaptureAsk::Nothing,
        }
    }
}

/// The directory that a snapshot is made in.
pub open spec fn staging_of(state: CaptureView) -> Seq<u8> {
    path::joined_path(state.storage, handle::staging_name(vstd::utf8::encode_utf8(state.descriptor.id)))
}

/// What is done next to make a snapshot: everything is made in the staging directory,
/// the source is only read, and one rename makes the snapshot visible.
pub open spec fn capture_ask(state: CaptureView) -> CaptureAsk {
    let staging = staging_of(state);
    let inside = |name: &'static str| path::joined_path(staging, name.spec_bytes());
    match state.stage {
        CaptureStage::CreateStaging => CaptureAsk::MakeStaging {
            staging,
            tree: inside(handle::SNAPSHOT_TREE),
            leases: inside(handle::SNAPSHOT_LEASES),
            lock: inside(handle::SNAPSHOT_LEASE_LOCK),
        },
        CaptureStage::InventoryBefore | CaptureStage::InventoryAfter | CaptureStage::InventoryFinal =>
            CaptureAsk::TakeStock { root: state.source },
        CaptureStage::CopyTree => CaptureAsk::CopyTree {
            source: state.source,
            tree: inside(handle::SNAPSHOT_TREE),
        },
        CaptureStage::Overlay => CaptureAsk::Overlay { tree: inside(handle::SNAPSHOT_TREE) },
        CaptureStage::InventoryStaged => CaptureAsk::TakeStock { root: inside(handle::SNAPSHOT_TREE) },
        CaptureStage::BuildIndex => CaptureAsk::BuildIndex { tree: inside(handle::SNAPSHOT_TREE) },
        CaptureStage::WriteIndex => CaptureAsk::WriteIndex { path: inside(handle::SNAPSHOT_INDEX) },
        CaptureStage::WriteModes => CaptureAsk::WriteModes { path: inside(handle::SNAPSHOT_DIRECTORY_MODES) },
        CaptureStage::WriteMetadata => CaptureAsk::WriteMetadata {
            path: inside(handle::SNAPSHOT_METADATA),
            root_hash: state.root_hash,
        },
        CaptureStage::SyncLeases => CaptureAsk::SyncDirectory { path: inside(handle::SNAPSHOT_LEASES) },
        CaptureStage::SyncStaging => CaptureAsk::SyncDirectory { path: staging },
        CaptureStage::Publish => CaptureAsk::Rename { from: staging, to: state.descriptor.snapshot_dir },
        CaptureStage::SyncStorage => CaptureAsk::SyncDirectory { path: state.storage },
        CaptureStage::AcquireLease => CaptureAsk::Lease { path: state.lease },
        CaptureStage::Made | CaptureStage::Stopped => CaptureAsk::Nothing,
    }
}

impl Capture {
    /// The map of the inventory is ordered, and so is the index.
    pub closed spec fn wf(&self) -> bool {
        self.before.wf() && (self.index matches Some(index) ==> index.wf())
    }

    /// The index that was built, which is the one to be written.
    pub fn index(&self) -> (index: Option<&SnapshotIndex>)
        requires
            self.wf(),
        ensures
            match index {
                Some(built) => built.wf() && self@.index == Some(built.nodes()),
                None => self@.index is None,
            },
    {
        self.index.as_ref()
    }

    /// The root hash that the metadata records.
    pub fn root_hash(&self) -> (hash: [u8; 32])
        ensures
            hash@ == self@.root_hash,
    {
        self.root_hash
    }

    /// How far it is.
    pub fn stage(&self) -> (stage: CaptureStage)
        ensures
            stage == self@.stage,
    {
        self.stage
    }

    fn staged(&self, name: &str) -> (path: Vec<u8>)
        ensures
            path@ == path::joined_path(staging_of(self@), name.spec_bytes()),
    {
        join_path(self.staging().as_slice(), name.as_bytes())
    }

    /// The directory that the snapshot is made in.
    pub fn staging(&self) -> (staging: Vec<u8>)
        ensures
            staging@ == staging_of(self@),
    {
        staging_path(self.storage.as_slice(), self.descriptor.id())
    }

    /// Tells what is done next.
    pub fn step(&self) -> (step: CaptureStep)
        ensures
            step@ == capture_ask(self@),
    {
        match self.stage {
            CaptureStage::CreateStaging => CaptureStep::MakeStaging {
                staging: self.staging(),
                tree: self.staged(SNAPSHOT_TREE),
                leases: self.staged(SNAPSHOT_LEASES),
                lock: self.staged(SNAPSHOT_LEASE_LOCK),
            },
            CaptureStage::InventoryBefore | CaptureStage::InventoryAfter | CaptureStage::InventoryFinal => {
                CaptureStep::TakeStock { root: copy_bytes(self.source.as_slice()) }
            },
            CaptureStage::CopyTree => CaptureStep::CopyTree {
                source: copy_bytes(self.source.as_slice()),
                tree: self.staged(SNAPSHOT_TREE),
            },
            CaptureStage::Overlay => CaptureStep::Overlay { tree: self.staged(SNAPSHOT_TREE) },
            CaptureStage::InventoryStaged => CaptureStep::TakeStock { root: self.staged(SNAPSHOT_TREE) },
            CaptureStage::BuildIndex => CaptureStep::BuildIndex { tree: self.staged(SNAPSHOT_TREE) },
            CaptureStage::WriteIndex => CaptureStep::WriteIndex { path: self.staged(SNAPSHOT_INDEX) },
            CaptureStage::WriteModes => CaptureStep::WriteModes { path: self.staged(SNAPSHOT_DIRECTORY_MODES) },
            CaptureStage::WriteMetadata => CaptureStep::WriteMetadata {
                path: self.staged(SNAPSHOT_METADATA),
                root_hash: self.root_hash,
            },
            CaptureStage::SyncLeases => CaptureStep::SyncDirectory { path: self.staged(SNAPSHOT_LEASES) },
            CaptureStage::SyncStaging => CaptureStep::SyncDirectory { path: self.staging() },
            CaptureStage::Publish => CaptureStep::Rename {
                from: self.staging(),
                to: copy_bytes(self.descriptor.snapshot_dir()),
            },
            CaptureStage::SyncStorage => CaptureStep::SyncDirectory { path: copy_bytes(self.storage.as_slice()) },
            CaptureStage::AcquireLease => CaptureStep::Lease { path: copy_bytes(self.lease.as_slice()) },
            CaptureStage::Made | CaptureStage::Stopped => CaptureStep::Nothing,
        }
    }

    /// Takes what the step brought.
    pub fn advance(&mut self, event: CaptureEvent) -> (result: CaptureResult)
        requires
            old(self).wf(),
            event_fits(old(self)@.stage, event),
            !(old(self)@.stage is Made),
            !(old(self)@.stage is Stopped),
        ensures
            final(self).wf(),
            final(self)@ == capture_after(old(self)@, event),
            is_capture_result(old(self)@, event, result),
    {
        let stage = self.stage;
        match event {
            CaptureEvent::Failed(error) => {
                self.stage = CaptureStage::Stopped;
                match stage {
                    CaptureStage::SyncStorage | CaptureStage::AcquireLease => CaptureResult::Stopped {
                        error: SnapshotError::Published { descriptor: self.descriptor.copy() },
                        cleanup: false,
                    },
                    _ => CaptureResult::Stopped { error, cleanup: true },
                }
            },
            CaptureEvent::Leased => {
                self.stage = CaptureStage::Made;
                let lease = copy_bytes(self.lease.as_slice());
                CaptureResult::Made(FsSnapshot::attach(self.descriptor.copy(), self.root_hash, lease))
            },
            CaptureEvent::Indexed(index) => {
                match index.root_hash() {
                    Ok(hash) => {
                        self.root_hash = hash;
                    },
                    Err(error) => {
                        return CaptureResult::Stopped { error, cleanup: true };
                    },
                }
                self.index = Some(index);
                self.stage = next_stage(stage);
                CaptureResult::GoOn
            },
            CaptureEvent::Stock(stock) => {
                if stage == CaptureStage::InventoryBefore {
                    self.before = stock;
                } else if stage != CaptureStage::InventoryStaged && !inventories_equal(&self.before, &stock) {
                    self.stage = CaptureStage::Stopped;
                    return CaptureResult::Stopped { error: SnapshotError::SourceChanged, cleanup: true };
                }
                self.stage = next_stage(stage);
                CaptureResult::GoOn
            },
            CaptureEvent::Done => {
                self.stage = next_stage(stage);
                CaptureResult::GoOn
            },
        }
    }
}

/// The root hash that a snapshot records is that of the index that is written for it.
pub proof fn law_root_hashes_are_those_of_the_index(state: CaptureView, event: CaptureEvent)
    requires
        event_fits(state.stage, event),
        state.index matches Some(nodes) ==> state.root_hash == path_map::entry_map(nodes)[Names::empty()].hash,
    ensures
        capture_after(state, event).index matches Some(nodes) ==> capture_after(state, event).root_hash
            == path_map::entry_map(nodes)[Names::empty()].hash,
{
}

/// Making a snapshot after some events.
pub open spec fn capture_run(start: CaptureView, events: Seq<CaptureEvent>) -> CaptureView
    decreases events.len(),
{
    if events.len() == 0 {
        start
    } else {
        capture_after(capture_run(start, events.drop_last()), events.last())
    }
}

/// A snapshot becomes visible only after its source was found unchanged twice
/// since the copy began: every event that leads to the rename was of the stage
/// that it followed, and the inventories after the copy and after the overlay
/// are the one before it.
#[verifier::rlimit(50)]
pub proof fn law_published_snapshots_had_a_stable_source(start: CaptureView, events: Seq<CaptureEvent>)
    requires
        start.stage is CreateStaging,
        capture_run(start, events).stage is Publish,
        forall|i: int| 0 <= i < events.len() ==> event_fits(
            capture_run(start, events.take(i)).stage,
            #[trigger] events[i],
        ),
    ensures
        events.len() == capture_rank(CaptureStage::Publish),
        events[1] is Stock,
        events[3] is Stock,
        events[5] is Stock,
        events[1]->Stock_0@ == events[3]->Stock_0@,
        events[1]->Stock_0@ == events[5]->Stock_0@,
{
    lemma_capture_ranks(start, events);
    assert(events.take(events.len() as int) =~= events);
    let s1 = capture_run(start, events.take(1));
    let s2 = capture_run(start, events.take(2));
    let s3 = capture_run(start, events.take(3));
    let s4 = capture_run(start, events.take(4));
    let s5 = capture_run(start, events.take(5));
    let s6 = capture_run(start, events.take(6));
    lemma_capture_step(start, events, 1);
    lemma_capture_step(start, events, 2);
    lemma_capture_step(start, events, 3);
    lemma_capture_step(start, events, 4);
    lemma_capture_step(start, events, 5);
    assert(event_fits(s1.stage, events[1]));
    assert(event_fits(s2.stage, events[2]));
    assert(event_fits(s3.stage, events[3]));
    assert(event_fits(s4.stage, events[4]));
    assert(event_fits(s5.stage, events[5]));
    assert(capture_rank(s1.stage) == 1);
    assert(capture_rank(s2.stage) == 2);
    assert(capture_rank(s3.stage) == 3);
    assert(capture_rank(s4.stage) == 4);
    assert(capture_rank(s5.stage) == 5);
    assert(capture_rank(s6.stage) == 6);
    assert(s2.before == events[1]->Stock_0@);
    assert(s3.before == s2.before);
    assert(s4.before == s3.before);
    assert(s5.before == s4.before);
}

/// One more event takes a run one step further.
proof fn lemma_capture_step(start: CaptureView, events: Seq<CaptureEvent>, i: int)
    requires
        0 <= i < events.len(),
    ensures
        capture_run(start, events.take(i + 1)) == capture_after(
            capture_run(start, events.take(i)),
            events[i],
        ),
{
    assert(events.take(i + 1).drop_last() =~= events.take(i));
}

/// A run that has not ended went through the stages one by one.
proof fn lemma_capture_ranks(start: CaptureView, events: Seq<CaptureEvent>)
    requires
        start.stage is CreateStaging,
        !(capture_run(start, events).stage is Stopped),
        !(capture_run(start, events).stage is Made),
    ensures
        capture_rank(capture_run(start, events).stage) == events.len(),
        forall|i: int| 0 <= i <= events.len() ==> capture_rank(
            (#[trigger] capture_run(start, events.take(i))).stage,
        ) == i,
    decreases events.len(),
{
    assert(events.take(events.len() as int) =~= events);
    if events.len() > 0 {
        let before = events.drop_last();
        lemma_capture_ranks(start, before);
        assert forall|i: int| 0 <= i <= events.len() implies capture_rank(
            (#[trigger] capture_run(start, events.take(i))).stage,
        ) == i by {
            if i < events.len() {
                assert(events.take(i) =~= before.take(i));
            }
        }
    }
}

/// How far copying a snapshot to a new place has come.
#[derive(Clone, Copy, Debug, PartialEq, Eq, Structural)]
pub enum MaterializeStage {
    OpenParent,
    CreateStaging,
    CopyTree,
    FinalizeDirectories,
    SyncTree,
    /// Renaming the copy to its place.
    Publish,
    RemoveStaging,
    SyncParent,
    Copied,
    Stopped,
}

/// The stage behind another.
pub open spec fn materialize_behind(stage: MaterializeStage) -> MaterializeStage {
    match stage {
        MaterializeStage::OpenParent => MaterializeStage::CreateStaging,
        MaterializeStage::CreateStaging => MaterializeStage::CopyTree,
        MaterializeStage::CopyTree => MaterializeStage::FinalizeDirectories,
        MaterializeStage::FinalizeDirectories => MaterializeStage::SyncTree,
        MaterializeStage::SyncTree => MaterializeStage::Publish,
        MaterializeStage::Publish => MaterializeStage::RemoveStaging,
        MaterializeStage::RemoveStaging => MaterializeStage::SyncParent,
        MaterializeStage::SyncParent => MaterializeStage::Copied,
        MaterializeStage::Copied => MaterializeStage::Copied,
        MaterializeStage::Stopped => MaterializeStage::Stopped,
    }
}

/// Whether the copy is visible at a stage.
pub open spec fn copy_visible(stage: MaterializeStage) -> bool {
    stage is RemoveStaging || stage is SyncParent || stage is Copied
}

/// Whether a staging directory may be left at a stage.
pub open spec fn staging_left(stage: MaterializeStage) -> bool {
    stage is CreateStaging || stage is CopyTree || stage is FinalizeDirectories || stage is SyncTree || stage
        is Publish || stage is RemoveStaging
}

/// What copying leads to after a step.
pub enum MaterializeResult {
    GoOn(MaterializeStage),
    Copied,
    Stopped { error: SnapshotError, cleanup: bool },
}

/// The start of the name that a copy is made under.
pub const MATERIALIZE_PREFIX: &'static str = ".sandlock-materialize-";

/// The end of the name that a copy is made under.
pub const MATERIALIZE_SUFFIX: &'static str = ".tmp";

/// The name of the copy inside the directory that it is made in.
pub const PAYLOAD: &'static str = "payload";

/// Copying a snapshot to a new place.
pub struct Materialization {
    stage: MaterializeStage,
    source: Vec<u8>,
    destination: Vec<u8>,
    parent: Vec<u8>,
    name: Vec<u8>,
    staging: Vec<u8>,
}

/// What copying a snapshot has come to.
#[verifier::ext_equal]
pub struct MaterializationView {
    pub stage: MaterializeStage,
    /// The tree of the snapshot.
    pub source: Seq<u8>,
    pub destination: Seq<u8>,
    /// The directory of the destination.
    pub parent: Seq<u8>,
    /// The name of the destination there.
    pub name: Seq<u8>,
    /// The name there that the copy is made under.
    pub staging: Seq<u8>,
}

impl View for Materialization {
    type V = MaterializationView;

    closed spec fn view(&self) -> MaterializationView {
        MaterializationView {
            stage: self.stage,
            source: self.source@,
            destination: self.destination@,
            parent: self.parent@,
            name: self.name@,
            staging: self.staging@,
        }
    }
}

/// What is done next to copy a snapshot. But for the source and for the parent itself,
/// paths lie below the parent that was opened.
#[derive(Debug)]
pub enum MaterializeDo {
    /// Open the directory of the destination, which may be no link.
    OpenParent { path: Vec<u8> },
    /// Make two directories, one in the other, for their owner alone.
    MakeStaging { staging: Vec<u8>, payload: Vec<u8> },
    CopyTree { source: Vec<u8>, payload: Vec<u8> },
    SetModes { payload: Vec<u8> },
    SyncDirectory { payload: Vec<u8> },
    /// Rename the copy, where nothing has its new name.
    Rename { from: Vec<u8>, to: Vec<u8> },
    RemoveStaging { staging: Vec<u8> },
    SyncParent,
    Nothing,
}

/// What is done next to copy a snapshot.
#[verifier::ext_equal]
pub enum MaterializeAsk {
    OpenParent { path: Seq<u8> },
    MakeStaging { staging: Seq<u8>, payload: Seq<u8> },
    CopyTree { source: Seq<u8>, payload: Seq<u8> },
    SetModes { payload: Seq<u8> },
    SyncDirectory { payload: Seq<u8> },
    Rename { from: Seq<u8>, to: Seq<u8> },
    RemoveStaging { staging: Seq<u8> },
    SyncParent,
    Nothing,
}

impl View for MaterializeDo {
    type V = MaterializeAsk;

    open spec fn view(&self) -> MaterializeAsk {
        match self {
            MaterializeDo::OpenParent { path } => MaterializeAsk::OpenParent { path: path@ },
            MaterializeDo::MakeStaging { staging, payload } => MaterializeAsk::MakeStaging {
                staging: staging@,
                payload: payload@,
            },
            MaterializeDo::CopyTree { source, payload } => MaterializeAsk::CopyTree {
                source: source@,
                payload: payload@,
            },
            MaterializeDo::SetModes { payload } => MaterializeAsk::SetModes { payload: payload@ },
            MaterializeDo::SyncDirectory { payload } => MaterializeAsk::SyncDirectory { payload: payload@ },
            MaterializeDo::Rename { from, to } => MaterializeAsk::Rename { from: from@, to: to@ },
            MaterializeDo::RemoveStaging { staging } => MaterializeAsk::RemoveStaging { staging: staging@ },
            MaterializeDo::SyncParent => MaterializeAsk::SyncParent,
            MaterializeDo::Nothing => MaterializeAsk::Nothing,
        }
    }
}

/// What is done next to copy a snapshot.
pub open spec fn materialize_ask(state: MaterializationView) -> MaterializeAsk {
    let payload = path::joined_path(state.staging, PAYLOAD.spec_bytes());
    match state.stage {
        MaterializeStage::OpenParent => MaterializeAsk::OpenParent { path: state.parent },
        MaterializeStage::CreateStaging => MaterializeAsk::MakeStaging { staging: state.staging, payload },
        MaterializeStage::CopyTree => MaterializeAsk::CopyTree { source: state.source, payload },
        MaterializeStage::FinalizeDirectories => MaterializeAsk::SetModes { payload },
        MaterializeStage::SyncTree => MaterializeAsk::SyncDirectory { payload },
        MaterializeStage::Publish => MaterializeAsk::Rename { from: payload, to: state.name },
        MaterializeStage::RemoveStaging => MaterializeAsk::RemoveStaging { staging: state.staging },
        MaterializeStage::SyncParent => MaterializeAsk::SyncParent,
        MaterializeStage::Copied | MaterializeStage::Stopped => MaterializeAsk::Nothing,
    }
}

impl FsSnapshot {
    /// Starts copying the snapshot to a new place, under a name with an identifier of its
    /// own.
    pub fn materialize(&self, destination: &[u8], id: &str) -> (result: Result<Materialization, SnapshotError>)
        ensures
            if self@.destroyed {
                result == Err::<Materialization, SnapshotError>(SnapshotError::AlreadyDestroyed)
            } else if !path::has_parent(destination@) {
                result == Err::<Materialization, SnapshotError>(SnapshotError::InvalidPath(PathFault::NoParent))
            } else if path::last_name(destination@) is None {
                result == Err::<Materialization, SnapshotError>(SnapshotError::InvalidPath(PathFault::NoFileName))
            } else {
                result matches Ok(started) && started@ == (MaterializationView {
                    stage: MaterializeStage::OpenParent,
                    source: self@.tree_dir,
                    destination: destination@,
                    parent: path::way_bytes(path::parts(destination@).drop_last()),
                    name: path::last_name(destination@)->0,
                    staging: MATERIALIZE_PREFIX.spec_bytes() + id.spec_bytes() + MATERIALIZE_SUFFIX.spec_bytes(),
                })
            },
    {
        match self.ensure_live() {
            Ok(_) => {},
            Err(error) => {
                return Err(error);
            },
        }
        let parent = match parent_path(destination) {
            Some(parent) => parent,
            None => {
                return Err(SnapshotError::InvalidPath(PathFault::NoParent));
            },
        };
        let name = match file_name(destination) {
            Some(name) => name,
            None => {
                return Err(SnapshotError::InvalidPath(PathFault::NoFileName));
            },
        };
        let mut staging = copy_bytes(MATERIALIZE_PREFIX.as_bytes());
        append_bytes(&mut staging, id.as_bytes());
        append_bytes(&mut staging, MATERIALIZE_SUFFIX.as_bytes());
        Ok(
            Materialization {
                stage: MaterializeStage::OpenParent,
                source: copy_bytes(self.root_dir()),
                destination: copy_bytes(destination),
                parent,
                name,
                staging,
            },
        )
    }
}

impl Materialization {
    /// How far it is.
    pub fn stage(&self) -> (stage: MaterializeStage)
        ensures
            stage == self@.stage,
    {
        self.stage
    }

    /// The name, below the parent, that the copy is made under.
    pub fn staging(&self) -> (staging: &[u8])
        ensures
            staging@ == self@.staging,
    {
        self.staging.as_slice()
    }

    /// Tells what is done next.
    pub fn step(&self) -> (step: MaterializeDo)
        ensures
            step@ == materialize_ask(self@),
    {
        let payload = join_path(self.staging.as_slice(), PAYLOAD.as_bytes());
        match self.stage {
            MaterializeStage::OpenParent => MaterializeDo::OpenParent { path: copy_bytes(self.parent.as_slice()) },
            MaterializeStage::CreateStaging => MaterializeDo::MakeStaging {
                staging: copy_bytes(self.staging.as_slice()),
                payload,
            },
            MaterializeStage::CopyTree => MaterializeDo::CopyTree {
                source: copy_bytes(self.source.as_slice()),
                payload,
            },
            MaterializeStage::FinalizeDirectories => MaterializeDo::SetModes { payload },
            MaterializeStage::SyncTree => MaterializeDo::SyncDirectory { payload },
            MaterializeStage::Publish => MaterializeDo::Rename { from: payload, to: copy_bytes(self.name.as_slice()) },
            MaterializeStage::RemoveStaging => MaterializeDo::RemoveStaging {
                staging: copy_bytes(self.staging.as_slice()),
            },
            MaterializeStage::SyncParent => MaterializeDo::SyncParent,
            MaterializeStage::Copied | MaterializeStage::Stopped => MaterializeDo::Nothing,
        }
    }

    /// Takes how the step ended: a failure before the copy is visible is told as it is, a
    /// later one says where the copy is.
    pub fn advance(&mut self, failure: Option<SnapshotError>) -> (result: MaterializeResult)
        requires
            !(old(self)@.stage is Copied),
            !(old(self)@.stage is Stopped),
        ensures
            final(self)@ == (MaterializationView {
                stage: if failure is Some {
                    MaterializeStage::Stopped
                } else {
                    materialize_behind(old(self)@.stage)
                },
                ..old(self)@
            }),
            match failure {
                Some(error) => result matches MaterializeResult::Stopped { error: told, cleanup } && cleanup
                    == staging_left(old(self)@.stage) && (if copy_visible(old(self)@.stage) {
                    told matches SnapshotError::Materialized { destination } && destination@ == old(self)@.destination
                } else {
                    told == error
                }),
                None => if old(self)@.stage is SyncParent {
                    result is Copied
                } else {
                    result == MaterializeResult::GoOn(materialize_behind(old(self)@.stage))
                },
            },
    {
        let result = materialize_step(self.stage, failure, copy_bytes(self.destination.as_slice()));
        self.stage = match &result {
            MaterializeResult::GoOn(next) => *next,
            MaterializeResult::Copied => MaterializeStage::Copied,
            MaterializeResult::Stopped { .. } => MaterializeStage::Stopped,
        };
        result
    }
}

/// Takes how a step of copying ended: a failure before the copy is visible is
/// told as it is, a later one says where the copy is.
pub fn materialize_step(stage: MaterializeStage, failure: Option<SnapshotError>, destination: Vec<u8>) -> (result:
    MaterializeResult)
    requires
        !(stage is Copied),
        !(stage is Stopped),
    ensures
        match failure {
            Some(error) => if copy_visible(stage) {
                result == (MaterializeResult::Stopped {
                    error: SnapshotError::Materialized { destination },
                    cleanup: staging_left(stage),
                })
            } else {
                result == (MaterializeResult::Stopped { error, cleanup: staging_left(stage) })
            },
            None => if stage is SyncParent {
                result is Copied
            } else {
                result == MaterializeResult::GoOn(materialize_behind(stage))
            },
        },
{
    match failure {
        Some(error) => match stage {
            MaterializeStage::OpenParent => MaterializeResult::Stopped { error, cleanup: false },
            MaterializeStage::CreateStaging
            | MaterializeStage::CopyTree
            | MaterializeStage::FinalizeDirectories
            | MaterializeStage::SyncTree
            | MaterializeStage::Publish => MaterializeResult::Stopped { error, cleanup: true },
            MaterializeStage::RemoveStaging => MaterializeResult::Stopped {
                error: SnapshotError::Materialized { destination },
                cleanup: true,
            },
            MaterializeStage::SyncParent | MaterializeStage::Copied | MaterializeStage::Stopped => {
                MaterializeResult::Stopped { error: SnapshotError::Materialized { destination }, cleanup: false }
            },
        },
        None => match stage {
            MaterializeStage::OpenParent => MaterializeResult::GoOn(MaterializeStage::CreateStaging),
            MaterializeStage::CreateStaging => MaterializeResult::GoOn(MaterializeStage::CopyTree),
            MaterializeStage::CopyTree => MaterializeResult::GoOn(MaterializeStage::FinalizeDirectories),
            MaterializeStage::FinalizeDirectories => MaterializeResult::GoOn(MaterializeStage::SyncTree),
            MaterializeStage::SyncTree => MaterializeResult::GoOn(MaterializeStage::Publish),
            MaterializeStage::Publish => MaterializeResult::GoOn(MaterializeStage::RemoveStaging),
            MaterializeStage::RemoveStaging => MaterializeResult::GoOn(MaterializeStage::SyncParent),
            MaterializeStage::SyncParent | MaterializeStage::Copied | MaterializeStage::Stopped => {
                MaterializeResult::Copied
            },
        },
    }
}

/// Whether a path is a directory or one of its entries.
pub open spec fn is_inside(path: Seq<u8>, directory: Seq<u8>) -> bool {
    path == directory || exists|name: Seq<u8>| path == #[trigger] path::joined_path(directory, name)
}

/// A capture reads its source and writes to its staging directory alone, until that is
/// renamed to the directory of the snapshot; only then is the storage made durable and the
/// lease of the handle taken.
pub proof fn law_captures_write_to_their_staging(state: CaptureView)
    ensures
        ({
            let staging = staging_of(state);
            match capture_ask(state) {
                CaptureAsk::MakeStaging { staging: made, tree, leases, lock } => state.stage is CreateStaging && made
                    == staging && is_inside(tree, staging) && is_inside(leases, staging) && is_inside(lock, staging),
                CaptureAsk::TakeStock { root } => if state.stage is InventoryStaged {
                    is_inside(root, staging)
                } else {
                    root == state.source
                },
                CaptureAsk::CopyTree { source, tree } => source == state.source && is_inside(tree, staging),
                CaptureAsk::Overlay { tree } => is_inside(tree, staging),
                CaptureAsk::BuildIndex { tree } => is_inside(tree, staging),
                CaptureAsk::WriteIndex { path } => is_inside(path, staging),
                CaptureAsk::WriteModes { path } => is_inside(path, staging),
                CaptureAsk::WriteMetadata { path, root_hash } => is_inside(path, staging) && root_hash == state.root_hash,
                CaptureAsk::SyncDirectory { path } => if state.stage is SyncStorage {
                    path == state.storage
                } else {
                    is_inside(path, staging)
                },
                CaptureAsk::Rename { from, to } => state.stage is Publish && from == staging && to
                    == state.descriptor.snapshot_dir,
                CaptureAsk::Lease { path } => state.stage is AcquireLease && path == state.lease,
                CaptureAsk::Nothing => state.stage is Made || state.stage is Stopped,
            }
        }),
        is_inside(staging_of(state), state.storage),
{
    let staging = staging_of(state);
    assert(is_inside(path::joined_path(staging, handle::SNAPSHOT_TREE.spec_bytes()), staging));
    assert(is_inside(path::joined_path(staging, handle::SNAPSHOT_LEASES.spec_bytes()), staging));
    assert(is_inside(path::joined_path(staging, handle::SNAPSHOT_LEASE_LOCK.spec_bytes()), staging));
    assert(is_inside(path::joined_path(staging, handle::SNAPSHOT_INDEX.spec_bytes()), staging));
    assert(is_inside(path::joined_path(staging, handle::SNAPSHOT_DIRECTORY_MODES.spec_bytes()), staging));
    assert(is_inside(path::joined_path(staging, handle::SNAPSHOT_METADATA.spec_bytes()), staging));
}

/// One tree is staged: what is copied, laid over, taken stock of and indexed is the same
/// directory, which is the one that a snapshot keeps its tree in once it is renamed.
pub proof fn law_captured_trees_are_the_snapshots(state: CaptureView)
    ensures
        ({
            let at = |stage: CaptureStage| capture_ask(CaptureView { stage, ..state });
            let tree = at(CaptureStage::CopyTree)->CopyTree_tree;
            &&& at(CaptureStage::CreateStaging)->MakeStaging_tree == tree
            &&& at(CaptureStage::Overlay) == (CaptureAsk::Overlay { tree })
            &&& at(CaptureStage::InventoryStaged) == (CaptureAsk::TakeStock { root: tree })
            &&& at(CaptureStage::BuildIndex) == (CaptureAsk::BuildIndex { tree })
            &&& at(CaptureStage::SyncLeases) == (CaptureAsk::SyncDirectory {
                path: at(CaptureStage::CreateStaging)->MakeStaging_leases,
            })
            &&& at(CaptureStage::SyncStaging) == (CaptureAsk::SyncDirectory { path: staging_of(state) })
            &&& tree == path::joined_path(staging_of(state), handle::SNAPSHOT_TREE.spec_bytes())
        }),
{
}

/// A capture that fails before its directory is renamed, or in renaming it, tells why and
/// has its staging directory removed; one that fails later has made a snapshot, says which,
/// and removes nothing.
pub proof fn law_failed_captures_clean_up(state: CaptureView, error: SnapshotError, result: CaptureResult)
    requires
        !(state.stage is Made),
        !(state.stage is Stopped),
        is_capture_result(state, CaptureEvent::Failed(error), result),
    ensures
        result is Stopped,
        capture_after(state, CaptureEvent::Failed(error)).stage is Stopped,
        if state.stage is SyncStorage || state.stage is AcquireLease {
            &&& !result->Stopped_cleanup
            &&& result->Stopped_error matches SnapshotError::Published { descriptor } && descriptor@ == state.descriptor
        } else {
            result == (CaptureResult::Stopped { error, cleanup: true })
        },
{
}

/// A source that was found other than before ends the capture and has its staging directory
/// removed; where it was found the same, and at every other stage, the capture goes on.
pub proof fn law_changed_sources_are_not_captured(state: CaptureView, stock: PathMap<EntryStamp>, result: CaptureResult)
    requires
        state.stage is InventoryAfter || state.stage is InventoryFinal,
        is_capture_result(state, CaptureEvent::Stock(stock), result),
    ensures
        if stock@ == state.before {
            &&& result is GoOn
            &&& capture_after(state, CaptureEvent::Stock(stock)).stage == if state.stage is InventoryAfter {
                CaptureStage::Overlay
            } else {
                CaptureStage::InventoryStaged
            }
        } else {
            &&& result == (CaptureResult::Stopped { error: SnapshotError::SourceChanged, cleanup: true })
            &&& capture_after(state, CaptureEvent::Stock(stock)).stage is Stopped
        },
{
}

/// A capture that is done has made a live snapshot: the one that it was started for, with
/// the root of its index and its lease.
pub proof fn law_made_snapshots_are_live(state: CaptureView, result: CaptureResult)
    requires
        state.stage is AcquireLease,
        is_capture_result(state, CaptureEvent::Leased, result),
    ensures
        capture_after(state, CaptureEvent::Leased).stage is Made,
        result matches CaptureResult::Made(snapshot) && {
            &&& snapshot@.descriptor == state.descriptor
            &&& snapshot@.root_hash == state.root_hash
            &&& snapshot@.handle_lease == Some(state.lease)
            &&& !snapshot@.destroyed
            &&& is_inside(snapshot@.tree_dir, state.descriptor.snapshot_dir)
        },
{
    assert(is_inside(
        path::joined_path(state.descriptor.snapshot_dir, handle::SNAPSHOT_TREE.spec_bytes()),
        state.descriptor.snapshot_dir,
    ));
}

/// A copy is made under another name beside its destination and becomes visible whole: it is
/// copied from the tree of the snapshot, gets its modes, is made durable, and is then
/// renamed. A copy that fails before it is renamed leaves nothing, and one that fails later
/// is there and says so.
pub proof fn law_copies_become_visible_whole(state: MaterializationView)
    ensures
        ({
            let at = |stage: MaterializeStage| materialize_ask(MaterializationView { stage, ..state });
            let payload = path::joined_path(state.staging, PAYLOAD.spec_bytes());
            let second = materialize_behind(MaterializeStage::OpenParent);
            let third = materialize_behind(second);
            let fourth = materialize_behind(third);
            let fifth = materialize_behind(fourth);
            let sixth = materialize_behind(fifth);
            let seventh = materialize_behind(sixth);
            let eighth = materialize_behind(seventh);
            &&& at(MaterializeStage::OpenParent) == (MaterializeAsk::OpenParent { path: state.parent })
            &&& at(second) == (MaterializeAsk::MakeStaging { staging: state.staging, payload })
            &&& at(third) == (MaterializeAsk::CopyTree { source: state.source, payload })
            &&& at(fourth) == (MaterializeAsk::SetModes { payload })
            &&& at(fifth) == (MaterializeAsk::SyncDirectory { payload })
            &&& at(sixth) == (MaterializeAsk::Rename { from: payload, to: state.name })
            &&& at(seventh) == (MaterializeAsk::RemoveStaging { staging: state.staging })
            &&& at(eighth) == MaterializeAsk::SyncParent
            &&& materialize_behind(eighth) == MaterializeStage::Copied
            &&& !copy_visible(MaterializeStage::OpenParent) && !copy_visible(second) && !copy_visible(third)
                && !copy_visible(fourth) && !copy_visible(fifth) && !copy_visible(sixth)
            &&& copy_visible(seventh) && copy_visible(eighth)
            &&& !staging_left(MaterializeStage::OpenParent) && !staging_left(eighth)
            &&& staging_left(second) && staging_left(third) && staging_left(fourth) && staging_left(fifth)
                && staging_left(sixth) && staging_left(seventh)
        }),
{
}

/// A file is copied byte by byte exactly where sharing its blocks is not supported there,
/// not possible between the two places, or not allowed.
pub proof fn law_unshared_files_are_copied(errno: i32)
    ensures
        copies_instead(errno) <==> errno == 95 || errno == 25 || errno == 18 || errno == 22 || errno == 38 || errno == 1
            || errno == 13,
{
}

} // verus!
