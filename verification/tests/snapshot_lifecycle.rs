use sandlock_core::error::{DescriptorFault, LimitFault, PathFault, SnapshotError, Step};
use sandlock_core::path::RelPath;
use sandlock_core::path_map::PathMap;
use sandlock_core::snapshot::assembly::{directory_entry, file_entry, WalkedEntry};
use sandlock_core::snapshot::capture::{
    check_copied, check_opened, check_outside, copy_method, copy_tree_modes, ensure_storage_base,
    finalize_directories, materialize_step, updated_index, Capture, CaptureEvent, CaptureResult, CaptureStage,
    CaptureStep, FileCopyMethod, FileIdentity, IndexUpdate, MaterializeDo, MaterializeResult, MaterializeStage,
    StorageAction, StorageProbe,
};
use sandlock_core::snapshot::copying::{copy_tree_with_modes, CopyStep};
use sandlock_core::snapshot::handle::{
    branch_lease_path, classify_lease, decide_branch_lease, decide_handle_lease, handle_lease_path, staging_path,
    validate_lease_id, BranchStorage, FsSnapshot, FsSnapshotDescriptor, LeaseAction, LeaseKind, LeaseLock,
    SnapshotLeaseRecord,
};
use sandlock_core::snapshot::index::SnapshotIndex;
use sandlock_core::snapshot::inspect::{DirectoryEvidence, EntryEvidence, EntryMetadata, IndexEvidence, KeptModes};
use sandlock_core::snapshot::inventory::{EntryStamp, StampedEntry};
use sandlock_core::snapshot::leases::{LeaseEntry, LeaseScan, LeaseSeen, LeaseStep, RecordLook};
use sandlock_core::snapshot::lifecycle::{
    destroyed_id, is_hidden, reap_destroy_tombstone, DestroyStage, DestroyStep, FoundEntry, LockProbe, Outcome,
    ReapAction, ReopenEvidence, ReopenStep, SnapshotMetadata, StorageEntry, StoredEvidence, TombstoneEvidence,
};
use sandlock_core::snapshot::overlay::{
    apply_deletions, apply_upper_entry, ensure_overlay_directory, lay_entry, remove_overlay_entry, OverlayAction,
    OverlayProbe,
};
use sandlock_core::snapshot::{SnapshotEntryKind, DEFAULT_SCAN_ENTRY_BUDGET};

const ID: &str = "67e55044-10b1-426f-9247-bb680e5fe0c8";
const OTHER: &str = "11111111-2222-4333-8444-555555555555";

fn rel(path: &str) -> RelPath {
    RelPath::parse(path.as_bytes()).unwrap()
}

fn directory(id: &str) -> Vec<u8> {
    format!("/storage/{id}").into_bytes()
}

fn descriptor() -> FsSnapshotDescriptor {
    FsSnapshotDescriptor::new(directory(ID), ID.to_string())
}

fn snapshot() -> FsSnapshot {
    FsSnapshot::attach(descriptor(), [7; 32], b"/storage/x/leases/handle-1".to_vec())
}

fn index() -> SnapshotIndex {
    let walked = vec![WalkedEntry { path: rel("file"), entry: file_entry(0o644, 7, b"content") }];
    SnapshotIndex::build(directory_entry(0o755), walked).ok().unwrap()
}

fn stamp(kind: SnapshotEntryKind, len: u64) -> EntryStamp {
    EntryStamp {
        kind,
        mode: 0o755,
        len,
        dev: 1,
        ino: 2,
        mtime: 3,
        mtime_nsec: 4,
        ctime: 5,
        ctime_nsec: 6,
        symlink_target: None,
    }
}

fn stock(len: u64) -> PathMap<EntryStamp> {
    let mut map = PathMap::new();
    map.insert(RelPath::root(), stamp(SnapshotEntryKind::Directory, 0));
    map.insert(rel("file"), stamp(SnapshotEntryKind::File, len));
    map
}

fn evidence(id: &str) -> ReopenEvidence {
    let built = index();
    ReopenEvidence {
        canonical: Some(directory(ID)),
        directory_is_plain: true,
        tree_is_plain: true,
        leases_are_plain: true,
        lease_lock_is_plain: true,
        modes_are_plain: true,
        metadata: Some(SnapshotMetadata { id: id.to_string(), root_hash: built.root_hash().ok().unwrap() }),
        index_is_plain: true,
        index: Some(built.write().ok().unwrap()),
    }
}

fn stored() -> StoredEvidence {
    let seen = evidence(ID);
    StoredEvidence { metadata: seen.metadata, index_is_plain: true, index: seen.index }
}

fn found(name: &str, is_directory: bool) -> FoundEntry {
    FoundEntry { entry: StorageEntry { raw: name.as_bytes().to_vec(), name: Some(name.to_string()), is_directory }, seen: stored() }
}

fn entry_evidence(parent: &str) -> EntryEvidence {
    EntryEvidence {
        canonical_parent: Some(parent.as_bytes().to_vec()),
        metadata: Some(EntryMetadata { is_file: true, is_directory: false, is_symlink: false, mode: 0o100644, len: 7 }),
        symlink_target: None,
        modes: KeptModes::Missing,
    }
}

fn next(capture: &mut Capture, event: CaptureEvent) -> CaptureResult {
    capture.advance(event)
}

fn event_for(stage: CaptureStage) -> CaptureEvent {
    match stage {
        CaptureStage::InventoryBefore
        | CaptureStage::InventoryAfter
        | CaptureStage::InventoryFinal
        | CaptureStage::InventoryStaged => CaptureEvent::Stock(stock(7)),
        CaptureStage::BuildIndex => CaptureEvent::Indexed(index()),
        CaptureStage::AcquireLease => CaptureEvent::Leased,
        _ => CaptureEvent::Done,
    }
}

#[test]
fn a_capture_ends_with_a_handle() {
    let mut capture = FsSnapshot::capture(b"/source", b"/storage", ID, OTHER);
    let mut made = None;
    let mut steps = Vec::new();
    for _ in 0..32 {
        steps.push(format!("{:?}", told(capture.step())));
        let event = event_for(capture.stage());
        match next(&mut capture, event) {
            CaptureResult::GoOn => {}
            CaptureResult::Made(snapshot) => {
                made = Some(snapshot);
                break;
            }
            CaptureResult::Stopped { error, .. } => panic!("{error:?}"),
        }
    }
    let snapshot = made.unwrap();
    assert_eq!(snapshot.id(), ID);
    assert_eq!(snapshot.root_hash(), index().root_hash().ok().unwrap());
    assert_eq!(capture.index().unwrap().write().ok(), index().write().ok());
    assert_eq!(snapshot.root_dir(), [&directory(ID)[..], b"/tree"].concat());
    let lease = format!("/storage/{ID}/leases/handle-{OTHER}");
    assert_eq!(snapshot.handle_lease(), Some(lease.as_bytes()));
    assert!(matches!(capture.step(), CaptureStep::Nothing));
    let staged = format!("/storage/.{ID}.tmp");
    let at = |kind: &str, paths: &[&str]| {
        let paths: Vec<String> = paths.iter().map(|path| path.replace('@', &staged)).collect();
        format!("{:?}", (kind.to_string(), paths))
    };
    assert_eq!(
        steps,
        vec![
            at("make", &["@", "@/tree", "@/leases", "@/leases.lock"]),
            at("stock", &["/source"]),
            at("copy", &["/source", "@/tree"]),
            at("stock", &["/source"]),
            at("overlay", &["@/tree"]),
            at("stock", &["/source"]),
            at("stock", &["@/tree"]),
            at("build", &["@/tree"]),
            at("index", &["@/INDEX.bin"]),
            at("modes", &["@/DIRECTORY_MODES.json"]),
            at("metadata", &["@/SNAPSHOT.json"]),
            at("sync", &["@/leases"]),
            at("sync", &["@"]),
            at("rename", &["@", &format!("/storage/{ID}")]),
            at("sync", &["/storage"]),
            at("lease", &[&lease]),
        ]
    );
}

/// The kind of a step, and the paths that it names.
fn told(step: CaptureStep) -> (String, Vec<String>) {
    let (kind, paths) = match step {
        CaptureStep::MakeStaging { staging, tree, leases, lock } => ("make", vec![staging, tree, leases, lock]),
        CaptureStep::TakeStock { root } => ("stock", vec![root]),
        CaptureStep::CopyTree { source, tree } => ("copy", vec![source, tree]),
        CaptureStep::Overlay { tree } => ("overlay", vec![tree]),
        CaptureStep::BuildIndex { tree } => ("build", vec![tree]),
        CaptureStep::WriteIndex { path } => ("index", vec![path]),
        CaptureStep::WriteModes { path } => ("modes", vec![path]),
        CaptureStep::WriteMetadata { path, root_hash } => {
            assert_eq!(root_hash, index().root_hash().ok().unwrap());
            ("metadata", vec![path])
        },
        CaptureStep::SyncDirectory { path } => ("sync", vec![path]),
        CaptureStep::Rename { from, to } => ("rename", vec![from, to]),
        CaptureStep::Lease { path } => ("lease", vec![path]),
        CaptureStep::Nothing => ("nothing", vec![]),
    };
    (kind.to_string(), paths.into_iter().map(|path| String::from_utf8(path).unwrap()).collect())
}

#[test]
fn a_source_that_changes_is_not_captured() {
    let mut capture = FsSnapshot::capture(b"/source", b"/storage", ID, OTHER);
    while capture.stage() != CaptureStage::InventoryAfter {
        let event = event_for(capture.stage());
        assert!(matches!(next(&mut capture, event), CaptureResult::GoOn));
    }
    assert!(matches!(
        next(&mut capture, CaptureEvent::Stock(stock(8))),
        CaptureResult::Stopped { error: SnapshotError::SourceChanged, cleanup: true }
    ));
}

#[test]
fn a_failure_before_publication_removes_the_staging_directory() {
    let mut capture = FsSnapshot::capture(b"/source", b"/storage", ID, OTHER);
    next(&mut capture, CaptureEvent::Done);
    assert!(matches!(
        next(&mut capture, CaptureEvent::Failed(SnapshotError::SourceChanged)),
        CaptureResult::Stopped { error: SnapshotError::SourceChanged, cleanup: true }
    ));
}

#[test]
fn a_failure_after_publication_names_the_snapshot() {
    let mut capture = FsSnapshot::capture(b"/source", b"/storage", ID, OTHER);
    while capture.stage() != CaptureStage::SyncStorage {
        let event = event_for(capture.stage());
        next(&mut capture, event);
    }
    match next(&mut capture, CaptureEvent::Failed(SnapshotError::Operation(Step::Storage))) {
        CaptureResult::Stopped { error: SnapshotError::Published { descriptor }, cleanup: false } => {
            assert_eq!(descriptor.id(), ID);
            assert_eq!(descriptor.snapshot_dir(), directory(ID));
        }
        _ => panic!("expected a published outcome"),
    }
}

#[test]
fn a_failure_after_materializing_names_the_destination() {
    let place = || b"/storage/destination".to_vec();
    let failed = || Some(SnapshotError::Operation(Step::Storage));
    assert!(matches!(
        materialize_step(MaterializeStage::SyncParent, failed(), place()),
        MaterializeResult::Stopped { error: SnapshotError::Materialized { destination }, .. } if destination == place()
    ));
    assert!(matches!(
        materialize_step(MaterializeStage::OpenParent, failed(), place()),
        MaterializeResult::Stopped { error: SnapshotError::Operation(Step::Storage), cleanup: false }
    ));
    assert!(matches!(
        materialize_step(MaterializeStage::CopyTree, failed(), place()),
        MaterializeResult::Stopped { error: SnapshotError::Operation(Step::Storage), cleanup: true }
    ));
    assert!(matches!(materialize_step(MaterializeStage::SyncParent, None, place()), MaterializeResult::Copied));
}

#[test]
fn copies_are_made_under_another_name() {
    let mut copying = snapshot().materialize(b"/storage/destination", ID).ok().unwrap();
    let staging = format!(".sandlock-materialize-{ID}.tmp");
    assert_eq!(copying.staging(), staging.as_bytes());
    let mut payload = String::new();
    let mut order = Vec::new();
    loop {
        let named = |path: Vec<u8>| String::from_utf8(path).unwrap();
        match copying.step() {
            MaterializeDo::OpenParent { path } => order.push(format!("open {}", named(path))),
            MaterializeDo::MakeStaging { staging: made, payload: inner } => {
                assert_eq!(named(made), staging);
                payload = named(inner);
                assert_eq!(payload, format!("{staging}/payload"));
            },
            MaterializeDo::CopyTree { source, payload: to } => {
                assert_eq!(source, [&directory(ID)[..], b"/tree"].concat());
                assert_eq!(named(to), payload);
                order.push("copy".to_string());
            },
            MaterializeDo::SetModes { payload: at } => assert_eq!(named(at), payload),
            MaterializeDo::SyncDirectory { payload: at } => assert_eq!(named(at), payload),
            MaterializeDo::Rename { from, to } => {
                assert_eq!(named(from), payload);
                order.push(format!("rename {}", named(to)));
            },
            MaterializeDo::RemoveStaging { staging: gone } => assert_eq!(named(gone), staging),
            MaterializeDo::SyncParent => order.push("sync".to_string()),
            MaterializeDo::Nothing => panic!("nothing is left to do"),
        }
        match copying.advance(None) {
            MaterializeResult::GoOn(stage) => assert_eq!(stage, copying.stage()),
            MaterializeResult::Copied => break,
            MaterializeResult::Stopped { error, .. } => panic!("{error:?}"),
        }
    }
    assert_eq!(order, vec!["open /storage", "copy", "rename destination", "sync"]);
    assert!(matches!(copying.step(), MaterializeDo::Nothing));
    let mut failing = snapshot().materialize(b"/storage/destination", ID).ok().unwrap();
    while failing.stage() != MaterializeStage::RemoveStaging {
        let _ = failing.advance(None);
    }
    assert!(matches!(
        failing.advance(Some(SnapshotError::SourceChanged)),
        MaterializeResult::Stopped { error: SnapshotError::Materialized { destination }, cleanup: true }
            if destination == b"/storage/destination".to_vec()
    ));
    assert!(matches!(
        snapshot().materialize(b"/", ID).err(),
        Some(SnapshotError::InvalidPath(PathFault::NoParent))
    ));
}

#[test]
fn storage_inside_the_source_is_refused() {
    assert!(matches!(check_outside(b"/source/snapshots", b"/source"), Err(SnapshotError::Operation(Step::Nested))));
    assert!(check_outside(b"/storage", b"/source").is_ok());
    assert!(matches!(ensure_storage_base(StorageProbe::Missing), Ok(StorageAction::Create)));
    assert!(matches!(ensure_storage_base(StorageProbe::PlainDirectory), Ok(StorageAction::Use)));
    assert!(ensure_storage_base(StorageProbe::Other).is_err());
}

#[test]
fn files_are_copied_while_they_stay_the_same() {
    let before = FileIdentity { dev: 1, ino: 2, mode: 3, len: 4, mtime: 5, mtime_nsec: 6, ctime: 7, ctime_nsec: 8 };
    assert!(check_opened(before, before).is_ok());
    let other = FileIdentity { ino: 9, ..before };
    assert!(matches!(check_opened(before, other), Err(SnapshotError::SourceChanged)));
    let touched = FileIdentity { mtime_nsec: 9, ..before };
    assert!(matches!(check_copied(before, touched, before), Err(SnapshotError::SourceChanged)));
    assert!(matches!(copy_method(false, Ok(())), Ok(FileCopyMethod::Buffered)));
    assert!(matches!(copy_method(true, Ok(())), Ok(FileCopyMethod::Reflink)));
}

#[test]
fn directory_modes_are_set_from_the_inside_out() {
    let walked = vec![
        StampedEntry { path: rel("a"), stamp: stamp(SnapshotEntryKind::Directory, 0) },
        StampedEntry { path: rel("a/b"), stamp: stamp(SnapshotEntryKind::Directory, 0) },
        StampedEntry { path: rel("a/f"), stamp: stamp(SnapshotEntryKind::File, 1) },
    ];
    let modes = copy_tree_modes(&PathMap::new(), 0o700, &walked);
    assert_eq!(modes.len(), 3);
    let order: Vec<Vec<u8>> = finalize_directories(&modes).into_iter().map(|(path, _)| path.to_bytes()).collect();
    assert_eq!(order[0], b"a/b".to_vec());
    assert_eq!(order[2], Vec::<u8>::new());
}

#[test]
fn trees_are_copied_entry_by_entry() {
    let link = EntryStamp { symlink_target: Some(b"f".to_vec()), ..stamp(SnapshotEntryKind::Symlink, 1) };
    let walked = vec![
        StampedEntry { path: rel("d"), stamp: stamp(SnapshotEntryKind::Directory, 0) },
        StampedEntry { path: rel("d/f"), stamp: EntryStamp { mode: 0o104755, ..stamp(SnapshotEntryKind::File, 1) } },
        StampedEntry { path: rel("d/l"), stamp: link },
    ];
    let mut kept = PathMap::new();
    kept.insert(rel("d"), 0o500);
    let root = EntryStamp { mode: 0o040711, ..stamp(SnapshotEntryKind::Directory, 0) };
    let copy = copy_tree_with_modes(&kept, &root, &walked).ok().unwrap();
    assert!(matches!(copy.steps[0], CopyStep::MakeDirectory));
    assert!(matches!(copy.steps[1], CopyStep::CopyFile { mode: 0o4755 }));
    assert!(matches!(&copy.steps[2], CopyStep::MakeLink { target } if target == b"f"));
    assert_eq!(copy.modes.get(&rel("d")), Some(&0o500));
    assert_eq!(copy.modes.get(&RelPath::root()), Some(&0o711));
    assert!(matches!(
        copy_tree_with_modes(&kept, &stamp(SnapshotEntryKind::File, 0), &walked),
        Err(SnapshotError::UnsupportedFileType { path }) if path.is_empty()
    ));
}

#[test]
fn a_snapshot_reopens_with_its_index() {
    let lease = format!("/storage/{ID}/leases/handle-{OTHER}");
    assert!(matches!(
        FsSnapshot::reopen(&descriptor(), &evidence(ID), OTHER, None),
        ReopenStep::Lease { path } if path == lease.as_bytes()
    ));
    let reopen = |seen: &ReopenEvidence, leased: Option<Result<(), SnapshotError>>| {
        match FsSnapshot::reopen(&descriptor(), seen, OTHER, leased) {
            ReopenStep::Ended(result) => result,
            ReopenStep::Lease { .. } => panic!("the lease was not told"),
        }
    };
    let reopened = reopen(&evidence(ID), Some(Ok(()))).ok().unwrap();
    assert_eq!(reopened.root_hash(), index().root_hash().ok().unwrap());
    assert_eq!(reopened.handle_lease(), Some(lease.as_bytes()));
    assert!(matches!(
        reopen(&evidence(ID), Some(Err(SnapshotError::Operation(Step::Lock)))).err(),
        Some(SnapshotError::Operation(Step::Lock))
    ));
    let missing = ReopenEvidence { index: None, index_is_plain: false, ..evidence(ID) };
    assert!(matches!(
        reopen(&missing, None).err(),
        Some(SnapshotError::InvalidDescriptor(_))
    ));
    assert!(matches!(
        reopen(&evidence(OTHER), None).err(),
        Some(SnapshotError::InvalidDescriptor(DescriptorFault::MetadataMismatch))
    ));
    let mut forged = evidence(ID);
    forged.metadata = Some(SnapshotMetadata { id: ID.to_string(), root_hash: [0; 32] });
    assert!(matches!(
        reopen(&forged, None).err(),
        Some(SnapshotError::InvalidDescriptor(DescriptorFault::RootHashMismatch))
    ));
}

#[test]
fn published_snapshots_are_discovered() {
    let hidden = found(".67e55044.destroying", true);
    let told = FsSnapshot::discover(b"/storage", &vec![hidden, found(ID, true)]).ok().unwrap();
    assert_eq!(told.len(), 1);
    assert_eq!(told[0].id(), ID);
    assert_eq!(told[0].snapshot_dir(), directory(ID));
    assert!(is_hidden(b".x") && !is_hidden(b"x"));
    assert!(matches!(
        FsSnapshot::discover(b"/storage", &vec![found(ID, false)]).err(),
        Some(SnapshotError::InvalidDescriptor(DescriptorFault::StorageEntryNotDirectory))
    ));
    assert!(FsSnapshot::discover(b"/storage", &vec![found(OTHER, true)]).is_err());
}

#[test]
fn a_destruction_hides_the_snapshot_first() {
    let mut doomed = snapshot();
    let mut destruction = doomed.destroy(&LeaseScan::new()).ok().unwrap();
    assert_eq!(destruction.stage(), DestroyStage::Hide);
    let tombstone = format!("/storage/.{ID}.destroying");
    assert_eq!(destruction.tombstone(), tombstone.as_bytes());
    assert!(matches!(
        destruction.step(&doomed),
        DestroyStep::Rename { from, to } if from == directory(ID) && to == tombstone.as_bytes()
    ));
    assert!(destruction.advance(&mut doomed, Outcome::Succeeded).is_none());
    match destruction.advance(&mut doomed, Outcome::Failed) {
        Some(Err(SnapshotError::Destroyed { descriptor, stage })) => {
            assert_eq!(stage, DestroyStage::SyncHidden);
            assert_eq!(descriptor.id(), ID);
            assert_eq!(descriptor.snapshot_dir(), directory(ID));
        }
        other => panic!("{other:?}"),
    }
}

#[test]
fn a_destruction_leaves_nothing() {
    let mut doomed = snapshot();
    let mut destruction = doomed.destroy(&LeaseScan::new()).ok().unwrap();
    let mut told = None;
    let mut removed = Vec::new();
    for _ in 0..32 {
        match destruction.step(&doomed) {
            DestroyStep::RemoveTree { tree: path }
            | DestroyStep::RemoveFile { path }
            | DestroyStep::RemoveDirectory { path } => removed.push(String::from_utf8(path).unwrap()),
            DestroyStep::MakeRemovable { tree } => {
                assert_eq!(tree, format!("/storage/.{ID}.destroying/tree").into_bytes());
            },
            DestroyStep::SyncDirectory { path } => assert_eq!(path, b"/storage".to_vec()),
            DestroyStep::Rename { .. } => assert!(removed.is_empty()),
            DestroyStep::Nothing => panic!("nothing is left to do"),
        }
        if let Some(result) = destruction.advance(&mut doomed, Outcome::Succeeded) {
            told = Some(result);
            break;
        }
    }
    assert!(matches!(told, Some(Ok(()))));
    let hidden = format!("/storage/.{ID}.destroying");
    let names: Vec<&str> = removed.iter().map(|path| path.strip_prefix(&hidden).unwrap()).collect();
    assert_eq!(
        names,
        vec![
            "/tree",
            "/SNAPSHOT.json",
            "/INDEX.bin",
            "/DIRECTORY_MODES.json",
            "/leases/handle-1",
            "/leases",
            "/leases.lock",
            "",
        ]
    );
    assert!(matches!(destruction.step(&doomed), DestroyStep::Nothing));
    assert!(matches!(doomed.ensure_live(), Err(SnapshotError::AlreadyDestroyed)));
    assert!(matches!(doomed.destroy(&LeaseScan::new()).err(), Some(SnapshotError::AlreadyDestroyed)));
}

#[test]
fn a_snapshot_in_use_is_not_destroyed() {
    let mut scan = LeaseScan::new();
    let other = lease("handle-2");
    let held = LeaseSeen { lock: Some(LeaseLock::Held), ..LeaseSeen::nothing() };
    assert!(matches!(scan.take(&snapshot(), &other, &LeaseSeen::nothing()), LeaseStep::TryLock));
    assert!(snapshot().destroy(&scan).is_ok());
    assert!(matches!(scan.take(&snapshot(), &other, &held), LeaseStep::InUse));
    assert!(matches!(snapshot().destroy(&scan).err(), Some(SnapshotError::InUse { count: 1 })));
}

fn lease(name: &str) -> LeaseEntry {
    LeaseEntry { is_own: false, is_file: true, name: name.as_bytes().to_vec() }
}

fn recorded(lock: LeaseLock, storage: BranchStorage) -> LeaseSeen {
    let record = SnapshotLeaseRecord {
        snapshot_dir: directory(ID),
        branch_dir: b"/branches/one".to_vec(),
        lease_id: OTHER.to_string(),
    };
    LeaseSeen { record: Some(RecordLook::Read(record)), lock: Some(lock), storage: Some(storage) }
}

#[test]
fn stale_leases_go_and_orphans_are_reclaimed() {
    let mut scan = LeaseScan::new();
    let branch = lease(&format!("branch-{OTHER}.json"));
    let mut told = |seen: &LeaseSeen| scan.take(&snapshot(), &branch, seen);
    assert!(matches!(told(&LeaseSeen::nothing()), LeaseStep::ReadRecord));
    assert!(matches!(told(&recorded(LeaseLock::Acquired, BranchStorage::Missing)), LeaseStep::Prune));
    assert!(matches!(told(&recorded(LeaseLock::Held, BranchStorage::Missing)), LeaseStep::Prune));
    let orphan = BranchStorage::Present { preserved: false };
    assert!(matches!(told(&recorded(LeaseLock::Acquired, orphan)), LeaseStep::Reclaim));
    assert!(matches!(told(&recorded(LeaseLock::Held, orphan)), LeaseStep::InUse));
    let kept = BranchStorage::Present { preserved: true };
    assert!(matches!(told(&recorded(LeaseLock::Acquired, kept)), LeaseStep::InUse));
    let unseen = LeaseSeen { storage: None, ..recorded(LeaseLock::Acquired, kept) };
    assert!(matches!(told(&unseen), LeaseStep::LookAtStorage));
    assert_eq!(scan.in_use(), 2);
}

#[test]
fn corrupt_leases_keep_a_snapshot() {
    let mut scan = LeaseScan::new();
    let branch = lease(&format!("branch-{OTHER}.json"));
    let corrupt = LeaseSeen { record: Some(RecordLook::Malformed), ..LeaseSeen::nothing() };
    assert!(matches!(
        scan.take(&snapshot(), &branch, &corrupt),
        LeaseStep::Fail(SnapshotError::InvalidDescriptor(DescriptorFault::LeaseUnreadable))
    ));
    let orphan = BranchStorage::Present { preserved: false };
    let misnamed = lease(&format!("branch-{ID}.json"));
    assert!(matches!(
        scan.take(&snapshot(), &misnamed, &recorded(LeaseLock::Acquired, orphan)),
        LeaseStep::Fail(SnapshotError::InvalidDescriptor(DescriptorFault::LeaseNameMismatch))
    ));
    let own = LeaseEntry { is_own: true, ..lease("anything") };
    assert!(matches!(scan.take(&snapshot(), &own, &LeaseSeen::nothing()), LeaseStep::Skip));
    assert!(matches!(
        scan.take(&snapshot(), &lease("stray"), &LeaseSeen::nothing()),
        LeaseStep::Fail(SnapshotError::InvalidDescriptor(DescriptorFault::LeaseUnknownKind))
    ));
    assert!(matches!(
        scan.take(&snapshot(), &branch, &recorded(LeaseLock::Failed, orphan)),
        LeaseStep::Fail(SnapshotError::Operation(Step::InspectLease))
    ));
    assert!(matches!(
        scan.take(&snapshot(), &branch, &recorded(LeaseLock::Held, BranchStorage::Failed)),
        LeaseStep::Fail(SnapshotError::Operation(Step::InspectBranch))
    ));
    assert_eq!(scan.in_use(), 0);
}

#[test]
fn leases_are_kept_pruned_or_reclaimed() {
    assert!(matches!(decide_handle_lease(LeaseLock::Held), Ok(LeaseAction::CountInUse)));
    assert!(matches!(decide_handle_lease(LeaseLock::Acquired), Ok(LeaseAction::Prune)));
    assert!(matches!(decide_branch_lease(LeaseLock::Acquired, BranchStorage::Missing), Ok(LeaseAction::Prune)));
    assert!(matches!(
        decide_branch_lease(LeaseLock::Acquired, BranchStorage::Present { preserved: false }),
        Ok(LeaseAction::Reclaim)
    ));
    assert!(matches!(
        decide_branch_lease(LeaseLock::Acquired, BranchStorage::Present { preserved: true }),
        Ok(LeaseAction::CountInUse)
    ));
    assert!(matches!(classify_lease(true, true, b"anything"), Ok(LeaseKind::Own)));
    assert!(matches!(classify_lease(false, true, b"handle-1"), Ok(LeaseKind::Handle)));
    assert!(matches!(classify_lease(false, true, b"branch-1.json"), Ok(LeaseKind::Branch)));
    assert!(matches!(
        classify_lease(false, true, b"stray"),
        Err(SnapshotError::InvalidDescriptor(DescriptorFault::LeaseUnknownKind))
    ));
    assert!(matches!(
        classify_lease(false, false, b"handle-1"),
        Err(SnapshotError::InvalidDescriptor(DescriptorFault::LeaseNotFile))
    ));
    assert_eq!(handle_lease_path(b"/s", ID), format!("/s/leases/handle-{ID}").into_bytes());
    assert_eq!(branch_lease_path(b"/s", ID), format!("/s/leases/branch-{ID}.json").into_bytes());
    assert_eq!(staging_path(b"/s", ID), format!("/s/.{ID}.tmp").into_bytes());
    assert!(validate_lease_id(ID).is_ok());
    assert!(validate_lease_id("nonsense").is_err());
}

#[test]
fn lease_records_belong_to_their_snapshot() {
    let record = |dir: &str| SnapshotLeaseRecord {
        snapshot_dir: dir.as_bytes().to_vec(),
        branch_dir: b"/branch".to_vec(),
        lease_id: ID.to_string(),
    };
    let name = format!("branch-{ID}.json").into_bytes();
    assert!(record("/s").check(&name, b"/s").is_ok());
    assert!(matches!(
        record("/s").check(b"branch-x.json", b"/s"),
        Err(SnapshotError::InvalidDescriptor(DescriptorFault::LeaseNameMismatch))
    ));
    assert!(matches!(
        record("/other").check(&name, b"/s"),
        Err(SnapshotError::InvalidDescriptor(DescriptorFault::LeaseForeign))
    ));
    assert!(record("/s").check_unchanged(&record("/s")).is_ok());
    assert!(record("/s").check_unchanged(&record("/t")).is_err());
}

#[test]
fn tombstones_are_reaped_once_their_lock_is_free() {
    let name = Some(format!(".{ID}.destroying"));
    let seen = |lock| TombstoneEvidence {
        is_plain_directory: true,
        lock,
        metadata_probe: Outcome::Succeeded,
        metadata: Some(SnapshotMetadata { id: ID.to_string(), root_hash: [0; 32] }),
        tree_probe: Outcome::Succeeded,
    };
    assert!(matches!(reap_destroy_tombstone(&name, &seen(LockProbe::Busy)), Ok(ReapAction::Leave)));
    assert!(matches!(
        reap_destroy_tombstone(&name, &seen(LockProbe::Locked)),
        Ok(ReapAction::Remove { prepare_tree: true })
    ));
    assert_eq!(destroyed_id(&format!(".{ID}.destroying")), Some(ID.to_string()));
    assert_eq!(destroyed_id(ID), None);
}

#[test]
fn paths_do_not_leave_the_snapshot() {
    let opened = snapshot();
    let tree = format!("/storage/{ID}/tree");
    let entry = opened.stat(b"file", &entry_evidence(&tree)).ok().unwrap();
    assert_eq!((entry.mode, entry.len), (0o644, 7));
    assert!(matches!(
        opened.read_range(b"outside/passwd", 0, 8, &entry_evidence("/etc")).err(),
        Some(SnapshotError::InvalidPath(_))
    ));
    assert!(matches!(
        opened.stat(b"../escape", &entry_evidence(&tree)).err(),
        Some(SnapshotError::InvalidPath(PathFault::NotRelative))
    ));
    let listed = DirectoryEvidence { canonical: Some(tree.into_bytes()), is_directory: Some(true), names: Some(vec![rel("b"), rel("a")]) };
    assert!(matches!(
        opened.list(b".", DEFAULT_SCAN_ENTRY_BUDGET, 1, &listed).err(),
        Some(SnapshotError::LimitExceeded(LimitFault::PageTooFar { .. }))
    ));
    let page = opened.list(b".", 0, 1, &listed).ok().unwrap();
    assert_eq!(page.total_entries, 2);
    assert_eq!(page.paths[0].to_bytes(), b"a".to_vec());
}

#[test]
fn snapshots_are_diffed_through_their_indexes() {
    let hash = index().root_hash().ok().unwrap();
    let one = FsSnapshot::attach(descriptor(), hash, vec![]);
    let seen = || IndexEvidence { is_plain_file: true, bytes: Some(index().write().ok().unwrap()) };
    assert_eq!(one.diff(&one, 4, &seen(), &seen()).ok().unwrap().changed_paths, 0);
    let torn = IndexEvidence { is_plain_file: true, bytes: None };
    assert!(one.diff(&snapshot(), 4, &torn, &seen()).is_err());
    assert!(one.diff_after(&one, Some(b"../x"), 4, &seen(), &seen()).is_err());
}

#[test]
fn overlays_take_the_place_of_what_lay_below() {
    assert!(matches!(ensure_overlay_directory(OverlayProbe::Missing), Ok(OverlayAction::MakeDirectory)));
    assert!(matches!(ensure_overlay_directory(OverlayProbe::Directory), Ok(OverlayAction::Nothing)));
    assert!(matches!(ensure_overlay_directory(OverlayProbe::OtherKind), Ok(OverlayAction::ReplaceByDirectory)));
    assert!(matches!(remove_overlay_entry(OverlayProbe::Directory), Ok(OverlayAction::RemoveTree)));
    assert!(matches!(remove_overlay_entry(OverlayProbe::OtherKind), Ok(OverlayAction::Unlink)));
    let mut modes = PathMap::new();
    modes.insert(rel("d"), 0o700);
    modes.insert(rel("d/e"), 0o700);
    modes.insert(rel("k"), 0o711);
    apply_deletions(&vec![b"d".to_vec()], &mut modes);
    assert_eq!(modes.len(), 1);
    let mut upper = PathMap::new();
    upper.insert(rel("n"), 0o750);
    apply_upper_entry(&upper, &rel("n"), SnapshotEntryKind::Directory, &mut modes);
    assert_eq!(modes.get(&rel("n")), Some(&0o750));
    apply_upper_entry(&upper, &rel("k"), SnapshotEntryKind::File, &mut modes);
    assert!(modes.get(&rel("k")).is_none());
}

#[test]
fn an_unchanged_index_stays_as_it_is() {
    let kept = updated_index(index(), IndexUpdate::Unchanged).ok().unwrap();
    assert_eq!(kept.root_hash().ok(), index().root_hash().ok());
    let refreshed = updated_index(
        index(),
        IndexUpdate::RefreshPaths {
            paths: vec![b"file".to_vec()],
            found: vec![WalkedEntry { path: rel("file"), entry: file_entry(0o644, 3, b"new") }],
        },
    )
    .ok()
    .unwrap();
    assert_ne!(refreshed.root_hash().ok(), index().root_hash().ok());
}

#[test]
fn entries_of_an_upper_layer_have_paths_that_are_text() {
    let kinds = [SnapshotEntryKind::Directory, SnapshotEntryKind::File];
    for kind in kinds {
        let at = RelPath::parse(b"a/\xff").unwrap();
        assert!(matches!(
            lay_entry(&at, kind, OverlayProbe::Missing),
            Err(SnapshotError::InvalidPath(PathFault::NotText))
        ));
    }
    assert!(matches!(
        lay_entry(&rel("a"), SnapshotEntryKind::Directory, OverlayProbe::OtherKind),
        Ok(OverlayAction::ReplaceByDirectory)
    ));
    assert!(matches!(
        lay_entry(&rel("a"), SnapshotEntryKind::Symlink, OverlayProbe::Directory),
        Ok(OverlayAction::RemoveTree)
    ));
}

#[test]
fn branches_take_a_lease_on_their_snapshot() {
    let (path, record) = snapshot().acquire_branch_lease(b"/branches/one", OTHER).ok().unwrap();
    assert_eq!(path, format!("/storage/{ID}/leases/branch-{OTHER}.json").into_bytes());
    assert_eq!(record.snapshot_dir, directory(ID));
    assert_eq!((record.branch_dir, record.lease_id), (b"/branches/one".to_vec(), OTHER.to_string()));
    let mut gone = snapshot();
    gone.mark_destroyed();
    assert!(matches!(gone.acquire_branch_lease(b"/b", OTHER).err(), Some(SnapshotError::AlreadyDestroyed)));
}
