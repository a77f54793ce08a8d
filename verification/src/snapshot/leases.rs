//! Looking through the leases of a snapshot before it is destroyed.

use crate::error::{DescriptorFault, SnapshotError, Step};
use crate::ids;
use crate::path;
use crate::snapshot::handle;
use crate::snapshot::handle::{
    classify_lease, decide_branch_lease, decide_handle_lease, BranchStorage, FsSnapshot, LeaseAction, LeaseKind,
    LeaseLock, SnapshotLeaseRecord,
};
use vstd::prelude::*;

verus! {

/// An entry of a lease directory.
#[derive(Debug)]
pub struct LeaseEntry {
    /// Whether it is the lease of the handle itself.
    pub is_own: bool,
    pub is_file: bool,
    pub name: Vec<u8>,
}

/// How reading the record of a branch's lease came out.
#[derive(Debug)]
pub enum RecordLook {
    Read(SnapshotLeaseRecord),
    Unreadable,
    /// It was read, and is no record.
    Malformed,
}

/// What was seen of a lease so far.
#[derive(Debug)]
pub struct LeaseSeen {
    pub record: Option<RecordLook>,
    pub lock: Option<LeaseLock>,
    pub storage: Option<BranchStorage>,
}

impl LeaseSeen {
    /// Nothing was seen yet.
    pub fn nothing() -> (seen: LeaseSeen)
        ensures
            seen == (LeaseSeen { record: None, lock: None, storage: None }),
    {
        LeaseSeen { record: None, lock: None, storage: None }
    }
}

/// What to do next with a lease.
#[derive(Debug)]
pub enum LeaseStep {
    ReadRecord,
    /// Try to lock the lease without waiting.
    TryLock,
    /// Look at the storage of the branch that the record names.
    LookAtStorage,
    /// The lease is the handle's own: nothing is done.
    Skip,
    /// The lease keeps the snapshot in use.
    InUse,
    /// Remove the lease.
    Prune,
    /// Remove the storage of the branch, and the lease.
    Reclaim,
    Fail(SnapshotError),
}

/// What is wrong with the record of a lease.
pub open spec fn record_fault(record: SnapshotLeaseRecord, name: Seq<u8>, snapshot_dir: Seq<u8>) -> Option<
    DescriptorFault,
> {
    if ids::uuid_bytes(record.lease_id@) is None {
        Some(DescriptorFault::IdInvalid)
    } else if !ids::is_canonical(record.lease_id@) {
        Some(DescriptorFault::IdNotCanonical)
    } else if name != handle::branch_lease_name(vstd::utf8::encode_utf8(record.lease_id@)) {
        Some(DescriptorFault::LeaseNameMismatch)
    } else if path::parts(record.snapshot_dir@) != path::parts(snapshot_dir) {
        Some(DescriptorFault::LeaseForeign)
    } else {
        None
    }
}

/// What to do with the lease of another handle: nobody holds it, or it counts.
pub open spec fn handle_step(lock: Option<LeaseLock>) -> LeaseStep {
    match lock {
        None => LeaseStep::TryLock,
        Some(LeaseLock::Acquired) => LeaseStep::Prune,
        Some(LeaseLock::Held) => LeaseStep::InUse,
        Some(LeaseLock::Failed) => LeaseStep::Fail(SnapshotError::Operation(Step::InspectLease)),
    }
}

/// What to do with the lease of a branch whose record is sound: storage that somebody
/// holds, or that is kept for recovery, counts; storage that nobody holds goes.
pub open spec fn branch_step(lock: Option<LeaseLock>, storage: Option<BranchStorage>) -> LeaseStep {
    match (lock, storage) {
        (None, _) => LeaseStep::TryLock,
        (Some(LeaseLock::Failed), _) => LeaseStep::Fail(SnapshotError::Operation(Step::InspectLease)),
        (Some(_), None) => LeaseStep::LookAtStorage,
        (Some(_), Some(BranchStorage::Failed)) => LeaseStep::Fail(SnapshotError::Operation(Step::InspectBranch)),
        (Some(_), Some(BranchStorage::Missing)) => LeaseStep::Prune,
        (Some(LeaseLock::Held), Some(BranchStorage::Present { .. })) => LeaseStep::InUse,
        (Some(LeaseLock::Acquired), Some(BranchStorage::Present { preserved })) => if preserved {
            LeaseStep::InUse
        } else {
            LeaseStep::Reclaim
        },
    }
}

/// What to do next with a lease.
pub open spec fn lease_step(snapshot_dir: Seq<u8>, entry: LeaseEntry, seen: LeaseSeen) -> LeaseStep {
    match handle::lease_kind(entry.is_own, entry.is_file, entry.name@) {
        Err(error) => LeaseStep::Fail(error),
        Ok(LeaseKind::Own) => LeaseStep::Skip,
        Ok(LeaseKind::Handle) => handle_step(seen.lock),
        Ok(LeaseKind::Branch) => match seen.record {
            None => LeaseStep::ReadRecord,
            Some(RecordLook::Unreadable) => LeaseStep::Fail(SnapshotError::Operation(Step::InspectLease)),
            Some(RecordLook::Malformed) => LeaseStep::Fail(
                SnapshotError::InvalidDescriptor(DescriptorFault::LeaseUnreadable),
            ),
            Some(RecordLook::Read(record)) => match record_fault(record, entry.name@, snapshot_dir) {
                Some(fault) => LeaseStep::Fail(SnapshotError::InvalidDescriptor(fault)),
                None => branch_step(seen.lock, seen.storage),
            },
        },
    }
}

/// How many leases keep a snapshot in use.
#[derive(Debug)]
pub struct LeaseScan {
    in_use: usize,
}

impl View for LeaseScan {
    type V = nat;

    closed spec fn view(&self) -> nat {
        self.in_use as nat
    }
}

fn settled(decided: Result<LeaseAction, SnapshotError>) -> (step: LeaseStep)
    ensures
        step == match decided {
            Ok(LeaseAction::CountInUse) => LeaseStep::InUse,
            Ok(LeaseAction::Prune) => LeaseStep::Prune,
            Ok(LeaseAction::Reclaim) => LeaseStep::Reclaim,
            Err(error) => LeaseStep::Fail(error),
        },
{
    match decided {
        Ok(LeaseAction::CountInUse) => LeaseStep::InUse,
        Ok(LeaseAction::Prune) => LeaseStep::Prune,
        Ok(LeaseAction::Reclaim) => LeaseStep::Reclaim,
        Err(error) => LeaseStep::Fail(error),
    }
}

fn next_step(snapshot_dir: &[u8], entry: &LeaseEntry, seen: &LeaseSeen) -> (step: LeaseStep)
    ensures
        step == lease_step(snapshot_dir@, *entry, *seen),
{
    let kind = match classify_lease(entry.is_own, entry.is_file, entry.name.as_slice()) {
        Err(error) => return LeaseStep::Fail(error),
        Ok(kind) => kind,
    };
    match kind {
        LeaseKind::Own => LeaseStep::Skip,
        LeaseKind::Handle => match seen.lock {
            None => LeaseStep::TryLock,
            Some(lock) => settled(decide_handle_lease(lock)),
        },
        LeaseKind::Branch => {
            match &seen.record {
                None => return LeaseStep::ReadRecord,
                Some(RecordLook::Unreadable) => {
                    return LeaseStep::Fail(SnapshotError::Operation(Step::InspectLease));
                },
                Some(RecordLook::Malformed) => {
                    return LeaseStep::Fail(SnapshotError::InvalidDescriptor(DescriptorFault::LeaseUnreadable));
                },
                Some(RecordLook::Read(record)) => match record.check(entry.name.as_slice(), snapshot_dir) {
                    Err(error) => return LeaseStep::Fail(error),
                    Ok(_) => {},
                },
            }
            match seen.lock {
                None => LeaseStep::TryLock,
                Some(lock) => {
                    if lock == LeaseLock::Failed {
                        return LeaseStep::Fail(SnapshotError::Operation(Step::InspectLease));
                    }
                    match seen.storage {
                        None => LeaseStep::LookAtStorage,
                        Some(storage) => settled(decide_branch_lease(lock, storage)),
                    }
                },
            }
        },
    }
}

impl LeaseScan {
    /// No lease was looked at yet.
    pub fn new() -> (scan: LeaseScan)
        ensures
            scan@ == 0,
    {
        LeaseScan { in_use: 0 }
    }

    /// Tells what to do next with a lease, and counts it where it keeps the snapshot in
    /// use.
    pub fn take(&mut self, snapshot: &FsSnapshot, entry: &LeaseEntry, seen: &LeaseSeen) -> (step: LeaseStep)
        requires
            old(self)@ < usize::MAX,
        ensures
            step == lease_step(snapshot@.descriptor.snapshot_dir, *entry, *seen),
            final(self)@ == if step is InUse {
                old(self)@ + 1
            } else {
                old(self)@
            },
    {
        let step = next_step(snapshot.descriptor().snapshot_dir(), entry, seen);
        match step {
            LeaseStep::InUse => {
                self.in_use = self.in_use + 1;
            },
            _ => {},
        }
        step
    }

    /// How many leases keep the snapshot in use.
    pub fn in_use(&self) -> (count: usize)
        ensures
            count == self@,
    {
        self.in_use
    }
}

/// Storage of a branch is removed only where the record of its lease is sound and
/// belongs to the snapshot, nobody holds the lease, and the storage is not kept for
/// recovery.
pub proof fn law_held_branches_are_not_reclaimed(snapshot_dir: Seq<u8>, entry: LeaseEntry, seen: LeaseSeen)
    requires
        lease_step(snapshot_dir, entry, seen) is Reclaim,
    ensures
        seen.record matches Some(RecordLook::Read(record)) && record_fault(record, entry.name@, snapshot_dir) is None,
        seen.lock == Some(LeaseLock::Acquired),
        seen.storage == Some(BranchStorage::Present { preserved: false }),
{
}

/// A lease goes only where nobody holds it, or where the branch that it is for is
/// gone.
pub proof fn law_held_leases_are_not_pruned(snapshot_dir: Seq<u8>, entry: LeaseEntry, seen: LeaseSeen)
    requires
        lease_step(snapshot_dir, entry, seen) is Prune,
    ensures
        !entry.is_own,
        seen.lock == Some(LeaseLock::Acquired) || seen.storage == Some(BranchStorage::Missing),
{
}

/// A lease of another handle keeps the snapshot in use exactly while somebody holds its
/// lock, and is removed once nobody does; the handle's own lease is passed over.
pub proof fn law_handle_leases_follow_their_lock(snapshot_dir: Seq<u8>, entry: LeaseEntry, seen: LeaseSeen)
    ensures
        handle::lease_kind(entry.is_own, entry.is_file, entry.name@) == Ok::<LeaseKind, SnapshotError>(LeaseKind::Own)
            ==> lease_step(snapshot_dir, entry, seen) == LeaseStep::Skip,
        handle::lease_kind(entry.is_own, entry.is_file, entry.name@) == Ok::<LeaseKind, SnapshotError>(LeaseKind::Handle)
            ==> match seen.lock {
            None => lease_step(snapshot_dir, entry, seen) == LeaseStep::TryLock,
            Some(LeaseLock::Held) => lease_step(snapshot_dir, entry, seen) == LeaseStep::InUse,
            Some(LeaseLock::Acquired) => lease_step(snapshot_dir, entry, seen) == LeaseStep::Prune,
            Some(LeaseLock::Failed) => lease_step(snapshot_dir, entry, seen) is Fail,
        },
{
}

/// The lease of a branch keeps the snapshot in use while the branch is there and somebody
/// holds it or it was preserved; it is removed where the branch is gone, and with the
/// branch where nobody holds it. A record that cannot be read, or that is another's, fails.
pub proof fn law_branch_leases_follow_their_branch(snapshot_dir: Seq<u8>, entry: LeaseEntry, seen: LeaseSeen)
    requires
        handle::lease_kind(entry.is_own, entry.is_file, entry.name@) == Ok::<LeaseKind, SnapshotError>(LeaseKind::Branch),
    ensures
        ({
            let step = lease_step(snapshot_dir, entry, seen);
            match seen.record {
                None => step == LeaseStep::ReadRecord,
                Some(RecordLook::Read(record)) if record_fault(record, entry.name@, snapshot_dir) is None => match (
                    seen.lock,
                    seen.storage,
                ) {
                    (None, _) => step == LeaseStep::TryLock,
                    (Some(LeaseLock::Failed), _) => step is Fail,
                    (Some(_), None) => step == LeaseStep::LookAtStorage,
                    (Some(_), Some(BranchStorage::Failed)) => step is Fail,
                    (Some(_), Some(BranchStorage::Missing)) => step == LeaseStep::Prune,
                    (Some(LeaseLock::Held), Some(BranchStorage::Present { .. })) => step == LeaseStep::InUse,
                    (Some(LeaseLock::Acquired), Some(BranchStorage::Present { preserved })) => step == if preserved {
                        LeaseStep::InUse
                    } else {
                        LeaseStep::Reclaim
                    },
                },
                Some(_) => step is Fail,
            }
        }),
{
}

/// A record is that of a lease exactly where its name is made of its own canonical
/// identity, and it names the snapshot that the lease lies in.
pub proof fn law_records_name_their_lease(record: SnapshotLeaseRecord, name: Seq<u8>, snapshot_dir: Seq<u8>)
    ensures
        record_fault(record, name, snapshot_dir) is None <==> {
            &&& ids::uuid_bytes(record.lease_id@) is Some
            &&& ids::is_canonical(record.lease_id@)
            &&& name == handle::branch_lease_name(vstd::utf8::encode_utf8(record.lease_id@))
            &&& path::parts(record.snapshot_dir@) == path::parts(snapshot_dir)
        },
{
}

} // verus!
