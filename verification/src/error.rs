//! What can go wrong with a snapshot.

use crate::path::RelPath;
use crate::snapshot::handle::FsSnapshotDescriptor;
use crate::snapshot::lifecycle::DestroyStage;
use vstd::prelude::*;

verus! {

/// Why stored snapshot data is not what its descriptor says.
#[derive(Clone, Copy, Debug, PartialEq, Eq, Structural)]
pub enum DescriptorFault {
    /// The index file is larger than an index may be.
    IndexTooLarge,
    /// The index file does not hold an index.
    IndexUnreadable,
    /// The index lists more entries than a snapshot may hold.
    IndexEntryBudget,
    /// The index lists a path that is not relative.
    IndexPath { at: usize },
    /// The index lists a path that starts with `.`.
    IndexPathNotNormalized { at: usize },
    /// The paths of the index take more bytes than a snapshot may hold.
    IndexPathBudget,
    /// The index lists a path twice.
    IndexDuplicatePath { at: usize },
    /// The index does not list its root.
    IndexRootMissing,
    /// The root of the index is no directory.
    IndexRootNotDirectory,
    /// A mode has bits beyond permissions.
    IndexMode { at: usize },
    /// The totals of a file or symbolic link are not its own.
    IndexLeafTotals { at: usize },
    /// The parent of an entry is not listed as a directory.
    IndexParent { at: usize },
    /// A directory node does not follow from its children.
    IndexDirectoryNode { at: usize },
    /// The root hash is not the one that the metadata records.
    RootHashMismatch,
    /// The storage holds something beside snapshot directories.
    StorageEntryNotDirectory,
    /// An identifier is not valid text.
    IdNotText,
    /// An identifier is no UUID.
    IdInvalid,
    /// An identifier is a UUID in another than its canonical form.
    IdNotCanonical,
    /// The metadata names another snapshot.
    MetadataMismatch,
    /// The snapshot directory was reached through another name.
    DirectoryNotCanonical,
    /// The snapshot directory is not named after its identifier.
    DirectoryNameMismatch,
    /// The snapshot directory has no parent.
    DirectoryHasNoParent,
    /// A directory of the snapshot is missing or no plain directory.
    NotPlainDirectory,
    /// A file of the snapshot is missing or no plain file.
    NotPlainFile,
    /// A lease is no regular file.
    LeaseNotFile,
    /// A lease is neither a handle's nor a branch's.
    LeaseUnknownKind,
    /// A lease record cannot be read.
    LeaseUnreadable,
    /// A lease is filed under another identifier than its own.
    LeaseNameMismatch,
    /// A lease belongs to another snapshot.
    LeaseForeign,
    /// A lease changed since its record was kept.
    LeaseChanged,
    /// The paths of a lease are not canonical.
    LeasePathsNotCanonical,
    /// The snapshot has no handle lease of its own.
    HandleLeaseUnavailable,
    /// The metadata cannot be read.
    MetadataUnreadable,
}

/// Which bound was passed.
#[derive(Clone, Copy, Debug, PartialEq, Eq, Structural)]
pub enum LimitFault {
    /// More entries than a scan may see.
    Entries { limit: usize },
    /// More bytes of paths than a scan may see.
    PathBytes { limit: usize },
    /// A page that reaches beyond what a number can count.
    PageOverflow,
    /// A page that reaches beyond what a scan may see.
    PageTooFar { requested: usize },
    /// Two indexes with more entries than a comparison may see.
    DiffEntries,
    /// The totals of a directory do not fit.
    IndexTotals,
    /// More requirements than a comparison may have.
    Requirements { given: usize, limit: usize },
    /// More entries than a comparison may see.
    CompareEntries,
    /// More bytes of paths than a comparison may see.
    ComparePathBytes,
    /// More bytes of content than a comparison may read.
    CompareContentBytes,
    /// More changed paths than a delta may have.
    DeltaPaths { given: usize, limit: usize },
    /// More replacement bytes than a delta may have.
    DeltaBytes { max_bytes: u64 },
    /// More mutations than a batch may have.
    Mutations { given: usize, limit: usize },
    /// More payload bytes than a batch may have.
    PayloadBytes { max_bytes: u64 },
}

/// Why a path is refused.
#[derive(Clone, Copy, Debug, PartialEq, Eq, Structural)]
pub enum PathFault {
    /// The path is absolute or holds `..`.
    NotRelative,
    /// The path leads out of the snapshot.
    Escapes,
    /// The path leads through something that is no plain directory.
    ParentNotPlain,
    /// The root itself was named.
    Root,
    /// The path was named twice.
    Duplicate,
    /// The path has no parent.
    NoParent,
    /// The path has no file name.
    NoFileName,
    /// The path is not valid text.
    NotText,
}

/// Why a delta was refused before anything was written.
#[derive(Debug)]
pub enum DeltaRefusal {
    /// The change overlaps a protected path.
    Protected { by: RelPath },
    /// The change involves a symbolic link and the policy allows none.
    Symlink,
}

/// Which step failed.
#[derive(Clone, Copy, Debug, PartialEq, Eq, Structural)]
pub enum Step {
    /// Resolving or creating the storage base.
    Storage,
    /// Resolving or walking the source.
    Source,
    /// Writing the staged tree.
    Stage,
    /// Writing the index, the modes or the metadata.
    Persist,
    /// Making the staged directory visible.
    Publish,
    /// Serializing an index.
    Serialize,
    /// Listing the leases.
    ListLeases,
    /// Looking at one lease.
    InspectLease,
    /// Looking at the storage of a leased branch.
    InspectBranch,
    /// Removing a lease or what it kept.
    PruneLease,
    /// Hiding a snapshot that is being destroyed.
    Tombstone,
    /// Looking at one entry.
    InspectEntry,
    /// Changing a destination.
    Apply,
    /// Waiting for a destination.
    Lock,
    /// The entry is of another kind than the step needs.
    WrongKind,
    /// The path exists already.
    Exists,
    /// A mode has bits beyond permissions.
    Mode,
    /// A directory lies inside another that must not hold it.
    Nested,
}

/// What can go wrong with a snapshot.
#[derive(Debug)]
pub enum SnapshotError {
    InvalidDescriptor(DescriptorFault),
    LimitExceeded(LimitFault),
    InvalidPath(PathFault),
    /// What stands at a path is neither file nor directory nor symbolic link, or not
    /// the one that is wanted.
    UnsupportedFileType { path: Vec<u8> },
    Operation(Step),
    /// The source changed while it was copied.
    SourceChanged,
    /// The handle was used after the snapshot was destroyed.
    AlreadyDestroyed,
    /// Leases keep the snapshot alive.
    InUse { count: usize },
    /// The snapshot is visible, but a later step failed.
    Published { descriptor: FsSnapshotDescriptor },
    /// The copy is visible, but a later step failed.
    Materialized { destination: Vec<u8> },
    /// The snapshot is hidden, but a later step failed.
    Destroyed { descriptor: FsSnapshotDescriptor, stage: DestroyStage },
    /// The policy refuses the delta, for a path that it changes.
    DeltaRejected { path: RelPath, reason: DeltaRefusal },
    /// The destination is at neither end of the delta.
    DeltaConflict { count: usize },
    /// Another writer holds the destination.
    DeltaDeferred,
    /// Some paths were written, then a step failed.
    DeltaApplyIncomplete { applied_paths: usize },
}

/// What an error says, with the path that it names.
#[verifier::ext_equal]
pub enum Told {
    UnsupportedFileType { path: Seq<u8> },
    Other(SnapshotError),
}

impl View for SnapshotError {
    type V = Told;

    open spec fn view(&self) -> Told {
        match *self {
            SnapshotError::UnsupportedFileType { path } => Told::UnsupportedFileType { path: path@ },
            _ => Told::Other(*self),
        }
    }
}

/// What can go wrong with a branch.
#[derive(Debug)]
pub enum BranchError {
    /// The branch was resolved, or is in use elsewhere.
    AlreadyResolved,
    /// The branch may hold no more.
    QuotaExceeded,
    Exists,
    Deleted,
    /// The branch refuses the operation.
    Denied,
    /// Paths changed below after the branch first modified them.
    Conflict { count: usize },
    /// The branch is preserved, but a later step failed.
    Published,
    /// A snapshot of the branch failed.
    Snapshot(SnapshotError),
    Operation,
}

} // verus!
