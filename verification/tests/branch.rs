use sandlock_core::branch::{
    BranchMaking, BranchState, BranchStep, BranchStorage, Change, ChangeKind, CheckpointStep, CommitSeen, CommitStep, DeltaStep,
    FsBranch, MakeEvent, MakeStep, PendingRunResult, PreservedBranch, Staged,
};
use sandlock_core::error::{BranchError, DescriptorFault, SnapshotError, Step};
use sandlock_core::path::RelPath;
use sandlock_core::path_map::PathMap;
use sandlock_core::run::{ExitStatus, RunResult};
use sandlock_core::snapshot::delta::{SnapshotDelta, SnapshotDeltaLimits, SnapshotDeltaSummary};
use sandlock_core::snapshot::handle::{FsSnapshot, FsSnapshotDescriptor};
use sandlock_core::snapshot::inspect::KeptModes;

fn storage() -> BranchStorage {
    BranchStorage {
        storage_dir: b"/branch".to_vec(),
        workdir: b"/work".to_vec(),
        upper_dir: b"/branch/upper".to_vec(),
        snapshot_backed: false,
    }
}

fn snapshot() -> FsSnapshot {
    let descriptor = FsSnapshotDescriptor::new(b"/store/one".to_vec(), "one".to_string());
    FsSnapshot::attach(descriptor, [7; 32], b"/store/one/leases/handle-1".to_vec())
}

/// The handle that comes of storage without a snapshot below it.
fn opened(mut making: BranchMaking, made: BranchStorage) -> FsBranch {
    assert!(matches!(making.advance(MakeEvent::Made(Ok(made))), MakeStep::TrackConflicts));
    match making.advance(MakeEvent::Done) {
        MakeStep::Ended(Ok(branch)) => branch,
        _ => panic!("the branch was not made"),
    }
}

fn pending() -> FsBranch {
    let (making, first) = FsBranch::create(b"/work");
    assert!(matches!(
        first,
        MakeStep::Create { lower, storage: None, max_disk_bytes: 0 } if lower == b"/work".to_vec()
    ));
    opened(making, storage())
}

/// What an operation ended with.
fn ended<T>(step: BranchStep<T>) -> Result<T, BranchError> {
    match step {
        BranchStep::Ended(result) => result,
        BranchStep::Perform => panic!("the operation did not end"),
    }
}

fn unseen() -> CommitSeen {
    CommitSeen { conflicts: None, merged: None }
}

fn merged() -> CommitSeen {
    CommitSeen { conflicts: Some(0), merged: Some(Ok(())) }
}

fn preserved() -> PreservedBranch {
    PreservedBranch { branch_dir: b"/branch".to_vec() }
}

fn changes() -> Vec<Change> {
    vec![
        Change { kind: ChangeKind::Modified, path: b"existing.txt".to_vec() },
        Change { kind: ChangeKind::Added, path: b"added.txt".to_vec() },
    ]
}

#[test]
fn a_commit_resolves_the_branch_once() {
    let mut branch = pending();
    assert_eq!(branch.workdir(), b"/work");
    assert_eq!(branch.lower_dir(), b"/work");
    assert_eq!(branch.upper_dir(), b"/branch/upper");
    assert!(matches!(branch.changes(None), BranchStep::Perform));
    let found = ended(branch.changes(Some(Ok(changes())))).unwrap();
    assert!(found.iter().any(|c| c.kind == ChangeKind::Modified && c.path == b"existing.txt"));
    assert!(found.iter().any(|c| c.kind == ChangeKind::Added && c.path == b"added.txt"));
    assert!(matches!(branch.commit(unseen()), CommitStep::LookForConflicts));
    assert!(matches!(branch.commit(CommitSeen { conflicts: Some(0), merged: None }), CommitStep::Merge));
    assert_eq!(branch.state(), BranchState::Pending);
    assert!(matches!(branch.commit(merged()), CommitStep::Ended(Ok(()))));
    assert_eq!(branch.state(), BranchState::Committed);
    assert!(matches!(branch.commit(merged()), CommitStep::Ended(Err(BranchError::AlreadyResolved))));
    assert!(matches!(ended(branch.abort(None)), Err(BranchError::AlreadyResolved)));
    assert_eq!(branch.state(), BranchState::Committed);
}

#[test]
fn an_abort_resolves_the_branch() {
    let mut branch = pending();
    ended(branch.abort(Some(Ok(())))).unwrap();
    assert_eq!(branch.state(), BranchState::Aborted);
    assert!(matches!(ended(branch.changes(None)), Err(BranchError::AlreadyResolved)));
    assert!(matches!(ended(branch.conflicts(None)), Err(BranchError::AlreadyResolved)));
    assert!(matches!(ended(branch.inspect(1, None)), Err(BranchError::AlreadyResolved)));
    assert!(!branch.aborts_when_dropped());
}

#[test]
fn a_pending_branch_aborts_when_it_is_dropped() {
    assert!(pending().aborts_when_dropped());
}

#[test]
fn a_failed_persist_can_be_tried_again() {
    let mut branch = pending();
    assert!(matches!(branch.persist(None), BranchStep::Perform));
    assert!(ended(branch.persist(Some(Err(BranchError::Operation)))).is_err());
    assert_eq!(branch.state(), BranchState::Pending);
    let kept = ended(branch.persist(Some(Ok(preserved())))).unwrap();
    assert_eq!(kept.branch_dir, b"/branch".to_vec());
    assert_eq!(branch.state(), BranchState::Persisted);
    let (making, first) = FsBranch::reopen(&kept);
    assert!(matches!(first, MakeStep::Reopen { branch_dir } if branch_dir == b"/branch".to_vec()));
    let mut reopened = opened(making, storage());
    ended(reopened.abort(Some(Ok(())))).unwrap();
}

#[test]
fn a_failed_keep_still_retains_what_is_preserved() {
    let mut branch = pending();
    assert!(matches!(branch.keep(None, true), BranchStep::Perform));
    assert_eq!(branch.state(), BranchState::Pending);
    assert!(ended(branch.keep(Some(Err(BranchError::Operation)), true)).is_err());
    assert_eq!(branch.state(), BranchState::Kept);
    assert!(!branch.aborts_when_dropped());
    let mut branch = pending();
    assert!(ended(branch.keep(Some(Err(BranchError::Operation)), false)).is_err());
    assert_eq!(branch.state(), BranchState::Pending);
    assert!(ended(branch.keep(Some(Err(BranchError::Published)), false)).is_err());
    assert_eq!(branch.state(), BranchState::Kept);
}

#[test]
fn snapshot_branches_are_made_with_their_modes_and_lease() {
    let tree = [b"/store/one".as_slice(), b"/tree"].concat();
    let (mut making, first) = FsBranch::from_snapshot(&snapshot(), b"/branches");
    assert!(matches!(
        first,
        MakeStep::Create { lower, storage: Some(below), max_disk_bytes: 0 }
            if lower == tree && below == b"/branches".to_vec()
    ));
    assert!(matches!(making.advance(MakeEvent::Done), MakeStep::Refuse));
    assert!(matches!(
        making.advance(MakeEvent::Made(Ok(storage()))),
        MakeStep::ReadModes { tree_dir } if tree_dir == tree
    ));
    let mut kept = PathMap::new();
    kept.insert(RelPath::parse(b"d").unwrap(), 0o750u32);
    match making.advance(MakeEvent::Modes(KeptModes::Held(kept))) {
        MakeStep::SetModes { modes } => assert_eq!(modes.get(&RelPath::parse(b"d").unwrap()), Some(&0o750)),
        _ => panic!("the modes were not handed on"),
    }
    assert!(matches!(
        making.advance(MakeEvent::Done),
        MakeStep::Lease { snapshot_dir, branch_dir }
            if snapshot_dir == b"/store/one".to_vec() && branch_dir == b"/branch".to_vec()
    ));
    assert!(matches!(making.advance(MakeEvent::Leased(Ok(()))), MakeStep::TrackConflicts));
    let mut branch = match making.advance(MakeEvent::Done) {
        MakeStep::Ended(Ok(branch)) => branch,
        _ => panic!("the branch was not made"),
    };
    assert!(branch.is_snapshot_backed());
    assert_eq!(branch.workdir(), tree.as_slice());
    assert_eq!(branch.upper_dir(), b"/branch/upper");
    assert!(matches!(branch.commit(unseen()), CommitStep::Ended(Err(BranchError::Denied))));
    assert!(matches!(branch.commit(merged()), CommitStep::Ended(Err(BranchError::Denied))));
    assert_eq!(branch.state(), BranchState::Pending);
    ended(branch.abort(Some(Ok(())))).unwrap();
    assert!(!branch.is_snapshot_backed());
}

#[test]
fn a_snapshot_branch_can_have_a_quota() {
    let (mut making, first) = FsBranch::from_snapshot_with_quota(&snapshot(), b"/branches", 4096);
    assert!(matches!(first, MakeStep::Create { max_disk_bytes: 4096, .. }));
    let (_, chosen) = FsBranch::from_snapshot_options(&snapshot(), None, 7);
    assert!(matches!(chosen, MakeStep::Create { storage: None, max_disk_bytes: 7, .. }));
    assert!(matches!(
        making.advance(MakeEvent::Made(Err(BranchError::QuotaExceeded))),
        MakeStep::Ended(Err(BranchError::QuotaExceeded))
    ));
    assert!(matches!(making.advance(MakeEvent::Done), MakeStep::Refuse));
}

#[test]
fn a_snapshot_branch_fails_with_its_snapshot() {
    let leased = |held: &FsSnapshot, modes: KeptModes| {
        let (mut making, _) = FsBranch::from_snapshot(held, b"/branches");
        assert!(matches!(making.advance(MakeEvent::Made(Ok(storage()))), MakeStep::ReadModes { .. }));
        let step = making.advance(MakeEvent::Modes(modes));
        (making, step)
    };
    let (_, unreadable) = leased(&snapshot(), KeptModes::Unreadable);
    assert!(matches!(
        unreadable,
        MakeStep::Ended(Err(BranchError::Snapshot(SnapshotError::Operation(Step::InspectEntry))))
    ));
    let (_, malformed) = leased(&snapshot(), KeptModes::Malformed);
    assert!(matches!(
        malformed,
        MakeStep::Ended(Err(BranchError::Snapshot(SnapshotError::InvalidDescriptor(
            DescriptorFault::MetadataUnreadable
        ))))
    ));
    let (mut making, missing) = leased(&snapshot(), KeptModes::Missing);
    assert!(matches!(missing, MakeStep::SetModes { modes } if modes.len() == 0));
    assert!(matches!(making.advance(MakeEvent::Done), MakeStep::Lease { .. }));
    assert!(matches!(
        making.advance(MakeEvent::Leased(Err(SnapshotError::Operation(Step::Lock)))),
        MakeStep::Ended(Err(BranchError::Snapshot(SnapshotError::Operation(Step::Lock))))
    ));
    let mut gone = snapshot();
    gone.mark_destroyed();
    let (mut making, _) = leased(&gone, KeptModes::Missing);
    assert!(matches!(
        making.advance(MakeEvent::Done),
        MakeStep::Ended(Err(BranchError::Snapshot(SnapshotError::AlreadyDestroyed)))
    ));
}

#[test]
fn a_delta_updates_a_branch_without_resolving_it() {
    let mut branch = pending();
    let summary = SnapshotDeltaSummary { changed_paths: 3, changed_bytes: 9 };
    let delta = SnapshotDelta { entries: Vec::new(), summary, limits: SnapshotDeltaLimits::default() };
    assert!(matches!(
        branch.apply_snapshot_delta(&delta, None),
        DeltaStep::Write { upper } if upper == b"/branch/upper".to_vec()
    ));
    assert!(matches!(
        branch.apply_snapshot_delta(&delta, Some(Ok(()))),
        DeltaStep::Ended(Ok(told)) if told == delta.summary()
    ));
    assert!(matches!(
        branch.apply_snapshot_delta(&delta, Some(Err(BranchError::QuotaExceeded))),
        DeltaStep::Ended(Err(BranchError::QuotaExceeded))
    ));
    assert_eq!(branch.state(), BranchState::Pending);
    assert!(matches!(
        branch.checkpoint(b"/store", None),
        CheckpointStep::Capture { lower, upper, below }
            if lower == b"/work".to_vec() && upper == b"/branch/upper".to_vec() && below == b"/store".to_vec()
    ));
    assert!(matches!(
        branch.checkpoint(b"/store", Some(Err(BranchError::Denied))),
        CheckpointStep::Ended(Err(BranchError::Denied))
    ));
    assert!(matches!(
        branch.checkpoint(b"/store", Some(Ok(snapshot()))),
        CheckpointStep::Ended(Ok(taken)) if taken.root_hash() == [7; 32]
    ));
    ended(branch.abort(Some(Ok(())))).unwrap();
    assert!(matches!(
        branch.checkpoint(b"/store", None),
        CheckpointStep::Ended(Err(BranchError::AlreadyResolved))
    ));
    assert!(matches!(
        branch.apply_snapshot_delta(&delta, None),
        DeltaStep::Ended(Err(BranchError::AlreadyResolved))
    ));
}

#[test]
fn inspections_count_what_they_leave_out() {
    let branch = pending();
    assert!(matches!(branch.inspect(1, None), BranchStep::Perform));
    let failed = branch.inspect(1, Some(Err(BranchError::Operation)));
    assert!(matches!(failed, BranchStep::Ended(Err(BranchError::Operation))));
    let staged = Staged { changes: changes(), conflicts: vec![b"a".to_vec(), b"b".to_vec()] };
    let seen = ended(branch.inspect(1, Some(Ok(staged)))).unwrap();
    assert_eq!((seen.changes.len(), seen.changed_paths), (1, 2));
    assert_eq!(seen.changes[0].path, b"existing.txt".to_vec());
    assert_eq!((seen.conflicts.clone(), seen.conflicting_paths), (vec![b"a".to_vec()], 2));
    assert!(matches!(branch.conflicts(None), BranchStep::Perform));
    assert_eq!(ended(branch.conflicts(Some(vec![b"a".to_vec()]))).unwrap(), vec![b"a".to_vec()]);
}

#[test]
fn a_taken_branch_comes_back_as_it_was() {
    let mut branch = pending();
    let taken = branch.take_cow().unwrap();
    assert_eq!(branch.state(), BranchState::Attached);
    assert!(matches!(branch.take_cow().err(), Some(BranchError::AlreadyResolved)));
    branch.replace_cow(taken);
    assert_eq!(branch.state(), BranchState::Pending);
    assert_eq!(branch.upper_dir(), b"/branch/upper");
}

#[test]
fn a_pending_result_comes_apart() {
    let run_result = RunResult { exit_status: ExitStatus::Code(0), stdout: None, stderr: None };
    let (run, branch) = PendingRunResult { run_result, branch: pending() }.into_parts();
    assert_eq!(run.exit_status, ExitStatus::Code(0));
    assert_eq!(branch.state(), BranchState::Pending);
}

#[test]
fn conflicts_keep_a_branch_from_being_merged() {
    let mut branch = pending();
    let clashing = CommitSeen { conflicts: Some(2), merged: None };
    assert!(matches!(branch.commit(clashing), CommitStep::Ended(Err(BranchError::Conflict { count: 2 }))));
    assert_eq!(branch.state(), BranchState::Pending);
    let failed = CommitSeen { conflicts: Some(0), merged: Some(Err(BranchError::Operation)) };
    assert!(matches!(branch.commit(failed), CommitStep::Ended(Err(BranchError::Operation))));
    assert_eq!(branch.state(), BranchState::Pending);
    assert!(matches!(branch.commit(merged()), CommitStep::Ended(Ok(()))));
}

#[test]
fn only_reopened_branches_keep_the_snapshot_below_them() {
    let backed = || BranchStorage { snapshot_backed: true, ..storage() };
    assert!(!opened(FsBranch::create(b"/work").0, backed()).is_snapshot_backed());
    assert!(opened(FsBranch::reopen(&preserved()).0, backed()).is_snapshot_backed());
}
