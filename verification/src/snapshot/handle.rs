//! Snapshot handles: where a snapshot lies, how it is reopened and destroyed.

use crate::error::{DescriptorFault, SnapshotError, Step};
use crate::ids;
use crate::ids::{id_form, IdForm};
use crate::path;
use crate::path::{append_bytes, bytes_equal, copy_bytes, file_name, join_path, parent_path, same_path};
use crate::text;
use crate::text::{copy_text, has_prefix, same_text};
use vstd::prelude::*;
use vstd::string::*;

verus! {

/// The directory of a snapshot that holds its tree.
pub const SNAPSHOT_TREE: &'static str = "tree";

/// The directory of a snapshot that holds its leases.
pub const SNAPSHOT_LEASES: &'static str = "leases";

/// The file of a snapshot that guards its leases.
pub const SNAPSHOT_LEASE_LOCK: &'static str = "leases.lock";

/// The file of a snapshot that holds its metadata.
pub const SNAPSHOT_METADATA: &'static str = "SNAPSHOT.json";

/// The file of a snapshot that holds the modes of its directories.
pub const SNAPSHOT_DIRECTORY_MODES: &'static str = "DIRECTORY_MODES.json";

/// The file of a snapshot that holds its index.
pub const SNAPSHOT_INDEX: &'static str = "INDEX.bin";

/// How the leases of handles are named.
pub const HANDLE_LEASE_PREFIX: &'static str = "handle-";

/// How the leases of branches are named.
pub const BRANCH_LEASE_PREFIX: &'static str = "branch-";

/// How the leases of branches end.
pub const BRANCH_LEASE_SUFFIX: &'static str = ".json";

/// How hidden entries of a storage base start.
pub const HIDDEN_PREFIX: &'static str = ".";

/// How a snapshot that is being destroyed ends.
pub const TOMBSTONE_SUFFIX: &'static str = ".destroying";

/// How a snapshot that is being made ends.
pub const STAGING_SUFFIX: &'static str = ".tmp";

/// Durable opaque reference to one immutable snapshot.
#[derive(Debug)]
pub struct FsSnapshotDescriptor {
    snapshot_dir: Vec<u8>,
    id: String,
}

/// What a descriptor refers to.
#[verifier::ext_equal]
pub struct Reference {
    pub snapshot_dir: Seq<u8>,
    pub id: Seq<char>,
}

impl View for FsSnapshotDescriptor {
    type V = Reference;

    closed spec fn view(&self) -> Reference {
        Reference { snapshot_dir: self.snapshot_dir@, id: self.id@ }
    }
}

impl FsSnapshotDescriptor {
    /// The descriptor of a snapshot at a directory.
    pub fn new(snapshot_dir: Vec<u8>, id: String) -> (descriptor: FsSnapshotDescriptor)
        ensures
            descriptor@ == (Reference { snapshot_dir: snapshot_dir@, id: id@ }),
    {
        FsSnapshotDescriptor { snapshot_dir, id }
    }

    /// Stable backend-generated snapshot identifier.
    pub fn id(&self) -> (id: &str)
        ensures
            id@ == self@.id,
    {
        self.id.as_str()
    }

    /// The directory of the snapshot.
    pub fn snapshot_dir(&self) -> (dir: &[u8])
        ensures
            dir@ == self@.snapshot_dir,
    {
        self.snapshot_dir.as_slice()
    }

    /// The same descriptor again.
    pub fn copy(&self) -> (copy: FsSnapshotDescriptor)
        ensures
            copy@ == self@,
    {
        FsSnapshotDescriptor {
            snapshot_dir: copy_bytes(self.snapshot_dir.as_slice()),
            id: copy_text(self.id.as_str()),
        }
    }
}

/// Immutable, durable, materialized filesystem tree.
#[must_use]
pub struct FsSnapshot {
    descriptor: FsSnapshotDescriptor,
    tree_dir: Vec<u8>,
    root_hash: [u8; 32],
    handle_lease: Option<Vec<u8>>,
    destroyed: bool,
}

/// What a handle holds.
#[verifier::ext_equal]
pub struct Handle {
    pub descriptor: Reference,
    pub tree_dir: Seq<u8>,
    pub root_hash: Seq<u8>,
    pub handle_lease: Option<Seq<u8>>,
    pub destroyed: bool,
}

impl View for FsSnapshot {
    type V = Handle;

    closed spec fn view(&self) -> Handle {
        Handle {
            descriptor: self.descriptor@,
            tree_dir: self.tree_dir@,
            root_hash: self.root_hash@,
            handle_lease: match self.handle_lease {
                Some(lease) => Some(lease@),
                None => None,
            },
            destroyed: self.destroyed,
        }
    }
}

/// The name of a handle's lease.
pub open spec fn handle_lease_name(id: Seq<u8>) -> Seq<u8> {
    HANDLE_LEASE_PREFIX.spec_bytes() + id
}

/// The name of a branch's lease.
pub open spec fn branch_lease_name(id: Seq<u8>) -> Seq<u8> {
    BRANCH_LEASE_PREFIX.spec_bytes() + id + BRANCH_LEASE_SUFFIX.spec_bytes()
}

/// The name that a snapshot has while it is destroyed.
pub open spec fn tombstone_name(id: Seq<u8>) -> Seq<u8> {
    HIDDEN_PREFIX.spec_bytes() + id + TOMBSTONE_SUFFIX.spec_bytes()
}

/// The name that a snapshot has while it is made.
pub open spec fn staging_name(id: Seq<u8>) -> Seq<u8> {
    HIDDEN_PREFIX.spec_bytes() + id + STAGING_SUFFIX.spec_bytes()
}

/// A text between two others, as bytes.
fn enclosed(prefix: &str, middle: &[u8], suffix: &str) -> (name: Vec<u8>)
    ensures
        name@ == prefix.spec_bytes() + middle@ + suffix.spec_bytes(),
{
    let mut name = copy_bytes(prefix.as_bytes());
    append_bytes(&mut name, middle);
    append_bytes(&mut name, suffix.as_bytes());
    name
}

/// The path of a new handle's lease.
pub fn handle_lease_path(snapshot_dir: &[u8], lease_id: &str) -> (lease: Vec<u8>)
    ensures
        lease@ == path::joined_path(
            path::joined_path(snapshot_dir@, SNAPSHOT_LEASES.spec_bytes()),
            handle_lease_name(lease_id.spec_bytes()),
        ),
{
    let leases = join_path(snapshot_dir, SNAPSHOT_LEASES.as_bytes());
    let mut name = copy_bytes(HANDLE_LEASE_PREFIX.as_bytes());
    append_bytes(&mut name, lease_id.as_bytes());
    join_path(leases.as_slice(), name.as_slice())
}

/// The path of a branch's lease.
pub fn branch_lease_path(snapshot_dir: &[u8], lease_id: &str) -> (lease: Vec<u8>)
    ensures
        lease@ == path::joined_path(
            path::joined_path(snapshot_dir@, SNAPSHOT_LEASES.spec_bytes()),
            branch_lease_name(lease_id.spec_bytes()),
        ),
{
    let leases = join_path(snapshot_dir, SNAPSHOT_LEASES.as_bytes());
    let name = enclosed(BRANCH_LEASE_PREFIX, lease_id.as_bytes(), BRANCH_LEASE_SUFFIX);
    join_path(leases.as_slice(), name.as_slice())
}

/// The path of the directory that a snapshot is made in.
pub fn staging_path(storage: &[u8], id: &str) -> (staging: Vec<u8>)
    ensures
        staging@ == path::joined_path(storage@, staging_name(id.spec_bytes())),
{
    let name = enclosed(HIDDEN_PREFIX, id.as_bytes(), STAGING_SUFFIX);
    join_path(storage, name.as_slice())
}

impl FsSnapshot {
    /// A handle on a snapshot that was made or reopened.
    pub fn attach(descriptor: FsSnapshotDescriptor, root_hash: [u8; 32], handle_lease: Vec<u8>) -> (snapshot:
        FsSnapshot)
        ensures
            snapshot@ == (Handle {
                descriptor: descriptor@,
                tree_dir: path::joined_path(descriptor@.snapshot_dir, SNAPSHOT_TREE.spec_bytes()),
                root_hash: root_hash@,
                handle_lease: Some(handle_lease@),
                destroyed: false,
            }),
    {
        let tree_dir = join_path(descriptor.snapshot_dir.as_slice(), SNAPSHOT_TREE.as_bytes());
        FsSnapshot {
            descriptor,
            tree_dir,
            root_hash,
            handle_lease: Some(handle_lease),
            destroyed: false,
        }
    }

    /// Opaque durable descriptor for controller persistence.
    pub fn descriptor(&self) -> (descriptor: &FsSnapshotDescriptor)
        ensures
            descriptor@ == self@.descriptor,
    {
        &self.descriptor
    }

    /// Stable backend-generated snapshot identifier.
    pub fn id(&self) -> (id: &str)
        ensures
            id@ == self@.descriptor.id,
    {
        self.descriptor.id()
    }

    /// Physical immutable lower directory for trusted composition.
    pub fn root_dir(&self) -> (dir: &[u8])
        ensures
            dir@ == self@.tree_dir,
    {
        self.tree_dir.as_slice()
    }

    /// The hash of the root of the tree.
    pub fn root_hash(&self) -> (hash: [u8; 32])
        ensures
            hash@ == self@.root_hash,
    {
        self.root_hash
    }

    /// The path of the handle's lease.
    pub fn handle_lease(&self) -> (lease: Option<&[u8]>)
        ensures
            match lease {
                Some(held) => self@.handle_lease == Some(held@),
                None => self@.handle_lease is None,
            },
    {
        match &self.handle_lease {
            Some(held) => Some(held.as_slice()),
            None => None,
        }
    }

    /// Checks that the snapshot was not destroyed through this handle.
    pub fn ensure_live(&self) -> (result: Result<(), SnapshotError>)
        ensures
            if self@.destroyed {
                result == Err::<(), SnapshotError>(SnapshotError::AlreadyDestroyed)
            } else {
                result is Ok
            },
    {
        if self.destroyed {
            Err(SnapshotError::AlreadyDestroyed)
        } else {
            Ok(())
        }
    }
}

/// What stands in a lease directory.
#[derive(Clone, Copy, Debug, PartialEq, Eq, Structural)]
pub enum LeaseKind {
    /// The lease of the handle itself.
    Own,
    /// The lease of another handle.
    Handle,
    /// The lease of a branch.
    Branch,
}

/// What stands in a lease directory under a name.
pub open spec fn lease_kind(own: bool, is_file: bool, name: Seq<u8>) -> Result<LeaseKind, SnapshotError> {
    if own {
        Ok(LeaseKind::Own)
    } else if !is_file {
        Err(SnapshotError::InvalidDescriptor(DescriptorFault::LeaseNotFile))
    } else if text::begins_with(name, HANDLE_LEASE_PREFIX.spec_bytes()) {
        Ok(LeaseKind::Handle)
    } else if text::begins_with(name, BRANCH_LEASE_PREFIX.spec_bytes()) {
        Ok(LeaseKind::Branch)
    } else {
        Err(SnapshotError::InvalidDescriptor(DescriptorFault::LeaseUnknownKind))
    }
}

/// Tells what stands in a lease directory under a name.
pub fn classify_lease(own: bool, is_file: bool, name: &[u8]) -> (result: Result<LeaseKind, SnapshotError>)
    ensures
        result == lease_kind(own, is_file, name@),
{
    if own {
        return Ok(LeaseKind::Own);
    }
    if !is_file {
        return Err(SnapshotError::InvalidDescriptor(DescriptorFault::LeaseNotFile));
    }
    if has_prefix(name, HANDLE_LEASE_PREFIX.as_bytes()) {
        return Ok(LeaseKind::Handle);
    }
    if has_prefix(name, BRANCH_LEASE_PREFIX.as_bytes()) {
        return Ok(LeaseKind::Branch);
    }
    Err(SnapshotError::InvalidDescriptor(DescriptorFault::LeaseUnknownKind))
}

/// What trying to lock a lease gave.
#[derive(Clone, Copy, Debug, PartialEq, Eq, Structural)]
pub enum LeaseLock {
    /// Nobody holds the lease.
    Acquired,
    /// Somebody holds the lease.
    Held,
    Failed,
}

/// What looking at the storage of a leased branch gave.
#[derive(Clone, Copy, Debug, PartialEq, Eq, Structural)]
pub enum BranchStorage {
    /// The storage is there; it may be marked as kept for recovery.
    Present { preserved: bool },
    Missing,
    Failed,
}

/// What becomes of a lease.
#[derive(Clone, Copy, Debug, PartialEq, Eq, Structural)]
pub enum LeaseAction {
    /// The lease keeps the snapshot in use.
    CountInUse,
    /// Nobody holds the lease: it goes.
    Prune,
    /// The storage of a branch that nobody holds goes, and its lease with it.
    Reclaim,
}

/// What becomes of the lease of another handle.
pub fn decide_handle_lease(lock: LeaseLock) -> (result: Result<LeaseAction, SnapshotError>)
    ensures
        result == match lock {
            LeaseLock::Acquired => Ok::<LeaseAction, SnapshotError>(LeaseAction::Prune),
            LeaseLock::Held => Ok::<LeaseAction, SnapshotError>(LeaseAction::CountInUse),
            LeaseLock::Failed => Err::<LeaseAction, SnapshotError>(
                SnapshotError::Operation(Step::InspectLease),
            ),
        },
{
    match lock {
        LeaseLock::Acquired => Ok(LeaseAction::Prune),
        LeaseLock::Held => Ok(LeaseAction::CountInUse),
        LeaseLock::Failed => Err(SnapshotError::Operation(Step::InspectLease)),
    }
}

/// What becomes of the lease of a branch: storage that somebody holds, or that
/// is marked as kept, keeps the snapshot in use.
pub fn decide_branch_lease(lock: LeaseLock, storage: BranchStorage) -> (result: Result<
    LeaseAction,
    SnapshotError,
>)
    ensures
        result == match (lock, storage) {
            (LeaseLock::Failed, _) => Err::<LeaseAction, SnapshotError>(
                SnapshotError::Operation(Step::InspectLease),
            ),
            (_, BranchStorage::Failed) => Err::<LeaseAction, SnapshotError>(
                SnapshotError::Operation(Step::InspectBranch),
            ),
            (_, BranchStorage::Missing) => Ok::<LeaseAction, SnapshotError>(LeaseAction::Prune),
            (LeaseLock::Held, BranchStorage::Present { .. }) => Ok::<LeaseAction, SnapshotError>(
                LeaseAction::CountInUse,
            ),
            (LeaseLock::Acquired, BranchStorage::Present { preserved }) => Ok::<
                LeaseAction,
                SnapshotError,
            >(
                if preserved {
                    LeaseAction::CountInUse
                } else {
                    LeaseAction::Reclaim
                },
            ),
        },
{
    match (lock, storage) {
        (LeaseLock::Failed, _) => Err(SnapshotError::Operation(Step::InspectLease)),
        (_, BranchStorage::Failed) => Err(SnapshotError::Operation(Step::InspectBranch)),
        (_, BranchStorage::Missing) => Ok(LeaseAction::Prune),
        (LeaseLock::Held, BranchStorage::Present { .. }) => Ok(LeaseAction::CountInUse),
        (LeaseLock::Acquired, BranchStorage::Present { preserved }) => {
            if preserved {
                Ok(LeaseAction::CountInUse)
            } else {
                Ok(LeaseAction::Reclaim)
            }
        },
    }
}

/// Durable link from a snapshot to one branch using it as a lower.
#[derive(Debug)]
pub struct SnapshotLeaseRecord {
    pub snapshot_dir: Vec<u8>,
    pub branch_dir: Vec<u8>,
    pub lease_id: String,
}

impl FsSnapshot {
    /// The lease that a branch takes on the snapshot: where it is kept, and what it
    /// records.
    pub fn acquire_branch_lease(&self, branch_dir: &[u8], lease_id: &str) -> (result: Result<
        (Vec<u8>, SnapshotLeaseRecord),
        SnapshotError,
    >)
        ensures
            if self@.destroyed {
                result == Err::<(Vec<u8>, SnapshotLeaseRecord), SnapshotError>(SnapshotError::AlreadyDestroyed)
            } else {
                result matches Ok((at, record)) && {
                    &&& at@ == path::joined_path(
                        path::joined_path(self@.descriptor.snapshot_dir, SNAPSHOT_LEASES.spec_bytes()),
                        branch_lease_name(lease_id.spec_bytes()),
                    )
                    &&& record.snapshot_dir@ == self@.descriptor.snapshot_dir
                    &&& record.branch_dir@ == branch_dir@
                    &&& record.lease_id@ == lease_id@
                }
            },
    {
        match self.ensure_live() {
            Ok(_) => {},
            Err(error) => {
                return Err(error);
            },
        }
        let snapshot_dir = self.descriptor.snapshot_dir.as_slice();
        let record = SnapshotLeaseRecord {
            snapshot_dir: copy_bytes(snapshot_dir),
            branch_dir: copy_bytes(branch_dir),
            lease_id: crate::text::copy_text(lease_id),
        };
        Ok((branch_lease_path(snapshot_dir, lease_id), record))
    }
}

/// Checks that a lease identifier is a UUID in its canonical form.
pub fn validate_lease_id(lease_id: &str) -> (result: Result<(), SnapshotError>)
    ensures
        result == if ids::uuid_bytes(lease_id@) is None {
            Err::<(), SnapshotError>(SnapshotError::InvalidDescriptor(DescriptorFault::IdInvalid))
        } else if !ids::is_canonical(lease_id@) {
            Err::<(), SnapshotError>(SnapshotError::InvalidDescriptor(DescriptorFault::IdNotCanonical))
        } else {
            Ok::<(), SnapshotError>(())
        },
{
    match id_form(lease_id) {
        IdForm::Invalid => Err(SnapshotError::InvalidDescriptor(DescriptorFault::IdInvalid)),
        IdForm::NotCanonical => Err(SnapshotError::InvalidDescriptor(DescriptorFault::IdNotCanonical)),
        IdForm::Canonical => Ok(()),
    }
}

impl SnapshotLeaseRecord {
    /// Checks a lease record against the name of its file and the snapshot that
    /// it should belong to.
    pub fn check(&self, name: &[u8], snapshot_dir: &[u8]) -> (result: Result<(), SnapshotError>)
        ensures
            result == if ids::uuid_bytes(self.lease_id@) is None {
                Err::<(), SnapshotError>(SnapshotError::InvalidDescriptor(DescriptorFault::IdInvalid))
            } else if !ids::is_canonical(self.lease_id@) {
                Err::<(), SnapshotError>(SnapshotError::InvalidDescriptor(DescriptorFault::IdNotCanonical))
            } else if name@ != branch_lease_name(vstd::utf8::encode_utf8(self.lease_id@)) {
                Err::<(), SnapshotError>(
                    SnapshotError::InvalidDescriptor(DescriptorFault::LeaseNameMismatch),
                )
            } else if path::parts(self.snapshot_dir@) != path::parts(snapshot_dir@) {
                Err::<(), SnapshotError>(SnapshotError::InvalidDescriptor(DescriptorFault::LeaseForeign))
            } else {
                Ok::<(), SnapshotError>(())
            },
    {
        match validate_lease_id(self.lease_id.as_str()) {
            Ok(_) => {},
            Err(error) => {
                return Err(error);
            },
        }
        let expected = enclosed(
            BRANCH_LEASE_PREFIX,
            self.lease_id.as_str().as_bytes(),
            BRANCH_LEASE_SUFFIX,
        );
        if !bytes_equal(name, expected.as_slice()) {
            return Err(SnapshotError::InvalidDescriptor(DescriptorFault::LeaseNameMismatch));
        }
        if !same_path(self.snapshot_dir.as_slice(), snapshot_dir) {
            return Err(SnapshotError::InvalidDescriptor(DescriptorFault::LeaseForeign));
        }
        Ok(())
    }

    /// Checks a lease record that was kept against the one that is filed.
    pub fn check_unchanged(&self, filed: &SnapshotLeaseRecord) -> (result: Result<(), SnapshotError>)
        ensures
            result == if path::parts(self.snapshot_dir@) == path::parts(filed.snapshot_dir@) && path::parts(
                self.branch_dir@,
            ) == path::parts(filed.branch_dir@) && self.lease_id@ == filed.lease_id@ {
                Ok::<(), SnapshotError>(())
            } else {
                Err::<(), SnapshotError>(SnapshotError::InvalidDescriptor(DescriptorFault::LeaseChanged))
            },
    {
        if same_path(self.snapshot_dir.as_slice(), filed.snapshot_dir.as_slice()) && same_path(
            self.branch_dir.as_slice(),
            filed.branch_dir.as_slice(),
        ) && same_text(self.lease_id.as_str(), filed.lease_id.as_str()) {
            Ok(())
        } else {
            Err(SnapshotError::InvalidDescriptor(DescriptorFault::LeaseChanged))
        }
    }
}

/// Where a snapshot goes while it is destroyed: beside itself, hidden.
pub open spec fn tombstone_of(descriptor: Reference) -> Seq<u8> {
    path::joined_path(
        path::way_bytes(path::parts(descriptor.snapshot_dir).drop_last()),
        tombstone_name(vstd::utf8::encode_utf8(descriptor.id)),
    )
}

/// The lease of a handle after its snapshot went to another directory.
pub open spec fn moved_lease(lease: Option<Seq<u8>>, dir: Seq<u8>) -> Option<Seq<u8>> {
    match lease {
        Some(held) => match path::last_name(held) {
            Some(name) => Some(
                path::joined_path(path::joined_path(dir, SNAPSHOT_LEASES.spec_bytes()), name),
            ),
            None => Some(held),
        },
        None => None,
    }
}

impl FsSnapshot {
    /// Where the snapshot goes while it is destroyed.
    pub fn tombstone(&self) -> (result: Result<Vec<u8>, SnapshotError>)
        ensures
            match result {
                Ok(tombstone) => {
                    &&& path::has_parent(self@.descriptor.snapshot_dir)
                    &&& tombstone@ == tombstone_of(self@.descriptor)
                },
                Err(error) => {
                    &&& !path::has_parent(self@.descriptor.snapshot_dir)
                    &&& error == SnapshotError::InvalidDescriptor(DescriptorFault::DirectoryHasNoParent)
                },
            },
    {
        match parent_path(self.descriptor.snapshot_dir.as_slice()) {
            Some(parent) => {
                let name = enclosed(HIDDEN_PREFIX, self.descriptor.id.as_str().as_bytes(), TOMBSTONE_SUFFIX);
                Ok(join_path(parent.as_slice(), name.as_slice()))
            },
            None => Err(SnapshotError::InvalidDescriptor(DescriptorFault::DirectoryHasNoParent)),
        }
    }

    /// Follows the snapshot to the directory where it is destroyed.
    pub fn move_to(&mut self, tombstone: Vec<u8>)
        ensures
            final(self)@ == (Handle {
                descriptor: Reference { snapshot_dir: tombstone@, ..old(self)@.descriptor },
                tree_dir: path::joined_path(tombstone@, SNAPSHOT_TREE.spec_bytes()),
                handle_lease: moved_lease(old(self)@.handle_lease, tombstone@),
                ..old(self)@
            }),
    {
        self.tree_dir = join_path(tombstone.as_slice(), SNAPSHOT_TREE.as_bytes());
        let moved = match &self.handle_lease {
            Some(held) => match file_name(held.as_slice()) {
                Some(name) => {
                    let leases = join_path(tombstone.as_slice(), SNAPSHOT_LEASES.as_bytes());
                    Some(join_path(leases.as_slice(), name.as_slice()))
                },
                None => Some(copy_bytes(held.as_slice())),
            },
            None => None,
        };
        self.handle_lease = moved;
        self.descriptor.snapshot_dir = tombstone;
        proof {
            assert(self@ =~= (Handle {
                descriptor: Reference { snapshot_dir: tombstone@, ..old(self)@.descriptor },
                tree_dir: path::joined_path(tombstone@, SNAPSHOT_TREE.spec_bytes()),
                handle_lease: moved_lease(old(self)@.handle_lease, tombstone@),
                ..old(self)@
            }));
        }
    }

    /// Forgets the handle's lease, which is gone.
    pub fn forget_lease(&mut self)
        ensures
            final(self)@ == (Handle { handle_lease: None, ..old(self)@ }),
    {
        self.handle_lease = None;
        proof {
            assert(self@ =~= (Handle { handle_lease: None, ..old(self)@ }));
        }
    }

    /// Marks the snapshot as destroyed.
    pub fn mark_destroyed(&mut self)
        ensures
            final(self)@ == (Handle { destroyed: true, ..old(self)@ }),
    {
        self.destroyed = true;
        proof {
            assert(self@ =~= (Handle { destroyed: true, ..old(self)@ }));
        }
    }
}

/// The name of a lease tells whose it is: every name that is made for a handle is that of a
/// handle, and every one that is made for a branch that of a branch, whatever the identity.
/// A handle passes over its own lease, and what is no file is no lease.
pub proof fn law_lease_names_tell_whose_they_are(id: Seq<u8>, name: Seq<u8>, is_file: bool)
    ensures
        lease_kind(true, is_file, name) == Ok::<LeaseKind, SnapshotError>(LeaseKind::Own),
        lease_kind(false, false, name) is Err,
        lease_kind(false, true, handle_lease_name(id)) == Ok::<LeaseKind, SnapshotError>(LeaseKind::Handle),
        lease_kind(false, true, branch_lease_name(id)) == Ok::<LeaseKind, SnapshotError>(LeaseKind::Branch),
{
    reveal_strlit("handle-");
    reveal_strlit("branch-");
    let of_handle = HANDLE_LEASE_PREFIX.spec_bytes();
    let of_branch = BRANCH_LEASE_PREFIX.spec_bytes();
    vstd::utf8::is_ascii_chars_encode_utf8(HANDLE_LEASE_PREFIX@);
    vstd::utf8::is_ascii_chars_encode_utf8(BRANCH_LEASE_PREFIX@);
    assert(of_handle.len() == 7 && of_handle[0] == 'h' as u8);
    assert(of_branch.len() == 7 && of_branch[0] == 'b' as u8);
    assert(handle_lease_name(id).take(7) =~= of_handle);
    assert(branch_lease_name(id).take(7) =~= of_branch);
    assert(branch_lease_name(id).take(7)[0] != of_handle[0]);
}

/// A tombstone lies beside the snapshot that it hides, and the lease of a handle keeps its
/// name where the snapshot is moved.
pub proof fn law_tombstones_lie_beside_their_snapshot(descriptor: Reference, lease: Seq<u8>, dir: Seq<u8>)
    ensures
        tombstone_of(descriptor) == path::joined_path(
            path::way_bytes(path::parts(descriptor.snapshot_dir).drop_last()),
            ".".spec_bytes() + vstd::utf8::encode_utf8(descriptor.id) + ".destroying".spec_bytes(),
        ),
        path::last_name(lease) matches Some(name) ==> moved_lease(Some(lease), dir) == Some(
            path::joined_path(path::joined_path(dir, "leases".spec_bytes()), name),
        ),
        moved_lease(None, dir) is None,
{
}

} // verus!
