use sandlock_core::error::{DeltaRefusal, LimitFault, PathFault, SnapshotError, Step};
use sandlock_core::path::RelPath;
use sandlock_core::path_map::PathMap;
use sandlock_core::snapshot::apply::{
    standing, ApplyAction, ApplyEvent, ApplyPhase, ApplyStep, DeltaEvidence, Expectation, Standing,
};
use sandlock_core::snapshot::compare::{
    compare_chunk, compare_directory_scopes, compare_one_scope, insert_scoped_entry, prepare_requirements,
    scan_for, walk_to_scope, ContentStep, PathProbe, PreparedRequirement, ScopeEvidence, ScopeWalk, ScopedScan,
    SnapshotCompareLimits, SnapshotCompareScope, SnapshotRequirement,
};
use sandlock_core::snapshot::deeds::Deed;
use sandlock_core::snapshot::delta::{
    admit_delta, change_sides, DeltaEntry, SnapshotDelta, SnapshotDeltaApplyMode, SnapshotDeltaLimits,
    SnapshotDeltaPolicy,
};
use sandlock_core::snapshot::diff::SnapshotChange;
use sandlock_core::snapshot::inventory::{
    check_unchanged, entry_kind, inventory_bounded_with_modes, permission_mode, EntryStamp, StampedEntry,
};
use sandlock_core::snapshot::mutation::{
    check_plain_parent, prepare_mutations, MutationAction, Payload, PreparedMutation, SnapshotMutation,
    SnapshotMutationLimits, TargetProbe,
};
use sandlock_core::snapshot::validating::{End, Validation};
use sandlock_core::snapshot::{SnapshotChangeKind, SnapshotEntry, SnapshotEntryKind};

fn rel(path: &str) -> RelPath {
    RelPath::parse(path.as_bytes()).unwrap()
}

fn stamp(kind: SnapshotEntryKind, len: u64) -> EntryStamp {
    EntryStamp {
        kind,
        mode: 0o644,
        len,
        dev: 1,
        ino: len + 10,
        mtime: 0,
        mtime_nsec: 0,
        ctime: 0,
        ctime_nsec: 0,
        symlink_target: None,
    }
}

fn file(len: u64) -> EntryStamp {
    stamp(SnapshotEntryKind::File, len)
}

fn tree(entries: Vec<(&str, EntryStamp)>) -> PathMap<EntryStamp> {
    let mut map = PathMap::new();
    map.insert(RelPath::root(), stamp(SnapshotEntryKind::Directory, 0));
    for (path, entry) in entries {
        map.insert(rel(path), entry);
    }
    map
}

fn marks(paths: &[&str]) -> PathMap<u32> {
    let mut map = PathMap::new();
    for path in paths {
        map.insert(rel(path), 1);
    }
    map
}

fn entry(path: &str, kind: SnapshotEntryKind, len: u64) -> SnapshotEntry {
    SnapshotEntry { path: rel(path), kind, mode: 0o644, len, symlink_target: None }
}

fn modified(path: &str) -> DeltaEntry {
    DeltaEntry {
        change: SnapshotChange { path: rel(path), kind: SnapshotChangeKind::Modified },
        before: Some(entry(path, SnapshotEntryKind::File, 4)),
        after: Some(entry(path, SnapshotEntryKind::File, 6)),
    }
}

fn deleted(path: &str, kind: SnapshotEntryKind) -> DeltaEntry {
    DeltaEntry {
        change: SnapshotChange { path: rel(path), kind: SnapshotChangeKind::Deleted },
        before: Some(entry(path, kind, 4)),
        after: None,
    }
}

fn added(path: &str, kind: SnapshotEntryKind) -> DeltaEntry {
    DeltaEntry {
        change: SnapshotChange { path: rel(path), kind: SnapshotChangeKind::Added },
        before: None,
        after: Some(entry(path, kind, 5)),
    }
}

fn admitted(entries: Vec<DeltaEntry>) -> SnapshotDelta {
    let count = entries.len();
    admit_delta(entries, count, SnapshotDeltaLimits::default(), &policy()).ok().unwrap()
}

fn policy() -> SnapshotDeltaPolicy {
    SnapshotDeltaPolicy { allow_symlinks: false, protected_paths: Vec::new() }
}

fn requirement(path: &str, scope: SnapshotCompareScope) -> PreparedRequirement {
    PreparedRequirement { path: rel(path), scope }
}

fn phase_paths(delta: &SnapshotDelta, phase: ApplyPhase) -> Vec<String> {
    delta
        .phase_order(phase)
        .into_iter()
        .map(|i| String::from_utf8(delta.entries[i].change.path.to_bytes()).unwrap())
        .collect()
}

#[test]
fn protected_paths_and_symlinks_are_refused() {
    let config = || {
        let mut changed = modified(".git/config");
        changed.change.kind = SnapshotChangeKind::Modified;
        vec![changed]
    };
    let protecting = SnapshotDeltaPolicy { allow_symlinks: true, protected_paths: vec![b".git".to_vec()] };
    assert!(matches!(
        admit_delta(config(), 1, SnapshotDeltaLimits::default(), &protecting).err(),
        Some(SnapshotError::DeltaRejected { path, reason: DeltaRefusal::Protected { by } }) if path.equals(&rel(".git/config")) && by.equals(&rel(".git"))
    ));
    assert!(admit_delta(config(), 1, SnapshotDeltaLimits::default(), &policy()).is_ok());
    let link = || {
        vec![DeltaEntry {
            change: SnapshotChange { path: rel("link"), kind: SnapshotChangeKind::SymlinkTargetChanged },
            before: Some(entry("link", SnapshotEntryKind::Symlink, 3)),
            after: Some(entry("link", SnapshotEntryKind::Symlink, 3)),
        }]
    };
    assert!(matches!(
        admit_delta(link(), 1, SnapshotDeltaLimits::default(), &policy()).err(),
        Some(SnapshotError::DeltaRejected { path, reason: DeltaRefusal::Symlink }) if path.equals(&rel("link"))
    ));
    assert!(admit_delta(link(), 1, SnapshotDeltaLimits::default(), &protecting).is_ok());
}

#[test]
fn deltas_keep_within_their_limits() {
    let limits = SnapshotDeltaLimits { max_changed_paths: 1, max_changed_bytes: 5, max_compared_bytes: 9 };
    assert!(matches!(
        admit_delta(vec![], 2, limits, &policy()).err(),
        Some(SnapshotError::LimitExceeded(LimitFault::DeltaPaths { given: 2, limit: 1 }))
    ));
    assert!(matches!(
        admit_delta(vec![modified("a")], 1, limits, &policy()).err(),
        Some(SnapshotError::LimitExceeded(LimitFault::DeltaBytes { max_bytes: 5 }))
    ));
    let delta = admitted(vec![modified("a")]);
    assert_eq!((delta.summary().changed_paths, delta.summary().changed_bytes), (1, 6));
    assert_eq!(delta.changes().len(), 1);
    assert_eq!(change_sides(SnapshotChangeKind::Added), (false, true));
    assert_eq!(change_sides(SnapshotChangeKind::Deleted), (true, false));
    assert_eq!(change_sides(SnapshotChangeKind::ModeChanged), (true, true));
}

#[test]
fn removals_go_inside_out_and_directories_outside_in() {
    let delta = admitted(vec![
        added("added", SnapshotEntryKind::Directory),
        added("added/deep", SnapshotEntryKind::Directory),
        added("added/deep/file", SnapshotEntryKind::File),
        deleted("gone", SnapshotEntryKind::Directory),
        deleted("gone/file", SnapshotEntryKind::File),
    ]);
    assert_eq!(phase_paths(&delta, ApplyPhase::Remove), vec!["gone/file", "gone"]);
    assert_eq!(phase_paths(&delta, ApplyPhase::MakeDirectory), vec!["added", "added/deep"]);
    assert_eq!(phase_paths(&delta, ApplyPhase::Put), vec!["added/deep/file"]);
}

fn seen(current: PathMap<EntryStamp>, same_as_base: &[&str], same_as_target: &[&str]) -> DeltaEvidence {
    DeltaEvidence {
        base: tree(vec![("modify", file(4)), ("delete", file(4))]),
        target: tree(vec![("modify", file(6))]),
        current,
        same_as_base: marks(same_as_base),
        same_as_target: marks(same_as_target),
    }
}

#[test]
fn resuming_takes_a_mixture_of_base_and_target_paths() {
    let delta = admitted(vec![deleted("delete", SnapshotEntryKind::File), modified("modify")]);
    let base = seen(tree(vec![("modify", file(4)), ("delete", file(4))]), &["modify", "delete"], &[]);
    assert_eq!(delta.validate_inventory(&base, SnapshotDeltaApplyMode::Initial), 0);
    let mixed = || seen(tree(vec![("modify", file(6)), ("delete", file(4))]), &["delete"], &["modify"]);
    assert_eq!(delta.validate_inventory(&mixed(), SnapshotDeltaApplyMode::Initial), 1);
    assert_eq!(delta.validate_inventory(&mixed(), SnapshotDeltaApplyMode::Resume), 0);
    assert_eq!(delta.validate_target_inventory(&mixed()), 1);
    let target = seen(tree(vec![("modify", file(6))]), &[], &["modify"]);
    assert_eq!(delta.validate_target_inventory(&target), 0);
    assert!(matches!(
        delta.validate_snapshot(false, &mixed(), SnapshotDeltaApplyMode::Initial),
        Err(SnapshotError::DeltaConflict { count: 1 })
    ));
    assert!(matches!(
        delta.validate_snapshot(true, &mixed(), SnapshotDeltaApplyMode::Resume),
        Err(SnapshotError::AlreadyDestroyed)
    ));
}

#[test]
fn conflicts_are_found_before_anything_is_written() {
    let delta = admitted(vec![modified("modify")]);
    let (plan, action) = delta.apply_to_directory(SnapshotDeltaApplyMode::Initial);
    assert!(matches!(action, ApplyAction::AcquireLock));
    let (state, action) = plan.state.advance(&plan.steps, ApplyEvent::Contended);
    assert!(matches!(action, ApplyAction::Finish(Err(SnapshotError::DeltaDeferred))));
    assert_eq!(state.applied_paths, 0);
    let (state, _) = plan.state.advance(&plan.steps, ApplyEvent::Succeeded);
    let (stale, action) = state.advance(&plan.steps, ApplyEvent::Compared { matched: false });
    assert!(matches!(action, ApplyAction::Finish(Err(SnapshotError::DeltaConflict { count: 1 }))));
    assert_eq!(stale.applied_paths, 0);
    let (state, action) = state.advance(&plan.steps, ApplyEvent::Compared { matched: true });
    assert!(matches!(action, ApplyAction::CountConflicts));
    let (_, action) = state.advance(&plan.steps, ApplyEvent::Counted { conflicts: 2 });
    assert!(matches!(action, ApplyAction::Finish(Err(SnapshotError::DeltaConflict { count: 2 }))));
}

#[test]
fn changes_during_an_application_are_told_as_incomplete() {
    let delta = admitted(vec![modified("output")]);
    let requirements = vec![SnapshotRequirement { path: b"dependency".to_vec(), scope: SnapshotCompareScope::Content }];
    let (plan, _) = delta.apply_to_directory_with_requirements(
        SnapshotDeltaApplyMode::Initial,
        requirements,
        SnapshotCompareLimits::default(),
    );
    assert_eq!(plan.requirements.len(), 1);
    let (mut state, mut action) = plan.state.advance(&plan.steps, ApplyEvent::Succeeded);
    let mut written = 0;
    for _ in 0..64 {
        let event = match action {
            ApplyAction::CompareDependencies => ApplyEvent::Compared { matched: true },
            ApplyAction::CountConflicts | ApplyAction::CountTargetConflicts => ApplyEvent::Counted { conflicts: 0 },
            ApplyAction::Look { step } if plan.steps[step].phase == ApplyPhase::SetMode => {
                ApplyEvent::SeenMode { differs: true }
            }
            ApplyAction::Look { .. } => ApplyEvent::Seen(Standing::AtBase),
            ApplyAction::Perform { .. } => {
                written += 1;
                ApplyEvent::Succeeded
            }
            ApplyAction::CompareTargetDependencies => ApplyEvent::Compared { matched: false },
            _ => break,
        };
        let next = state.advance(&plan.steps, event);
        state = next.0;
        action = next.1;
    }
    assert!(written > 0);
    assert!(matches!(
        action,
        ApplyAction::Finish(Err(SnapshotError::DeltaApplyIncomplete { applied_paths })) if applied_paths == written
    ));
}

#[test]
fn scopes_tell_content_from_entries() {
    let expected = tree(vec![("tree", stamp(SnapshotEntryKind::Directory, 0)), ("one", file(4)), ("tree/child", file(4))]);
    let current = tree(vec![("tree", stamp(SnapshotEntryKind::Directory, 0)), ("one", file(7)), ("tree/child", file(7))]);
    let same = marks(&[]);
    let mut counted = 0;
    let content = requirement("one", SnapshotCompareScope::Content);
    assert!(!compare_one_scope(&expected, &current, &content, &same, &mut counted));
    let entries = requirement("tree", SnapshotCompareScope::TreeEntries);
    assert!(compare_one_scope(&expected, &current, &entries, &same, &mut counted));
    let deep = requirement("tree", SnapshotCompareScope::TreeContent);
    assert!(!compare_one_scope(&expected, &current, &deep, &same, &mut counted));
    let missing = requirement("missing", SnapshotCompareScope::Content);
    assert!(compare_one_scope(&expected, &current, &missing, &same, &mut counted));
    let more = tree(vec![("tree", stamp(SnapshotEntryKind::Directory, 0)), ("tree/child", file(4)), ("tree/x", file(1))]);
    assert!(!compare_one_scope(&expected, &more, &entries, &same, &mut counted));
    let comparison = compare_directory_scopes(
        &vec![requirement("one", SnapshotCompareScope::Content)],
        &vec![ScopeEvidence {
            expected: tree(vec![("one", file(4))]),
            current: tree(vec![("one", file(4))]),
            same: marks(&["one"]),
            alternative: None,
        }],
        SnapshotCompareLimits::default(),
        SnapshotCompareLimits::default().max_content_bytes,
    );
    assert!(comparison.matched);
    assert_eq!(comparison.compared_entries, 1);
}

#[test]
fn comparisons_keep_within_their_budgets() {
    let asked = vec![SnapshotRequirement { path: b"value".to_vec(), scope: SnapshotCompareScope::Content }];
    assert!(matches!(
        prepare_requirements(&asked, 0).err(),
        Some(SnapshotError::LimitExceeded(LimitFault::Requirements { given: 1, limit: 0 }))
    ));
    assert_eq!(prepare_requirements(&asked, 1).ok().unwrap().len(), 1);
    let mut budget = 1;
    assert!(matches!(
        compare_chunk(&mut budget, b"content", b"content").err(),
        Some(SnapshotError::LimitExceeded(LimitFault::CompareContentBytes))
    ));
    let mut budget = 100;
    assert!(matches!(compare_chunk(&mut budget, b"ab", b"ac"), Ok(ContentStep::Different)));
    assert!(matches!(compare_chunk(&mut budget, b"", b""), Ok(ContentStep::Same)));
    assert!(matches!(compare_chunk(&mut budget, b"ab", b"ab"), Ok(ContentStep::More)));
    assert_eq!(scan_for(SnapshotCompareScope::Entries), ScopedScan::Immediate);
    assert_eq!(scan_for(SnapshotCompareScope::TreeContent), ScopedScan::Recursive);
    assert!(matches!(walk_to_scope(true, PathProbe::Missing), Ok(ScopeWalk::Nothing)));
    let mut inventory = PathMap::new();
    let (mut entries, mut bytes) = (0, 64);
    assert!(matches!(
        insert_scoped_entry(&mut inventory, rel("a"), file(1), &mut entries, &mut bytes).err(),
        Some(SnapshotError::LimitExceeded(LimitFault::CompareEntries))
    ));
}

#[test]
fn inventories_are_bounded_and_compared() {
    let walked = || vec![StampedEntry { path: rel("a"), stamp: file(1) }, StampedEntry { path: rel("b"), stamp: file(2) }];
    let root = stamp(SnapshotEntryKind::Directory, 0);
    let stock = inventory_bounded_with_modes(&root, &walked(), 8, 64, &PathMap::new()).ok().unwrap();
    assert_eq!(stock.len(), 3);
    assert!(matches!(
        inventory_bounded_with_modes(&root, &walked(), 1, 64, &PathMap::new()).err(),
        Some(SnapshotError::LimitExceeded(LimitFault::Entries { limit: 1 }))
    ));
    let again = inventory_bounded_with_modes(&root, &walked(), 8, 64, &PathMap::new()).ok().unwrap();
    assert!(check_unchanged(&stock, &again).is_ok());
    let changed = tree(vec![("a", file(1)), ("b", file(3))]);
    assert!(matches!(check_unchanged(&stock, &changed), Err(SnapshotError::SourceChanged)));
    assert!(matches!(entry_kind(b"a/b", false, false, false), Err(SnapshotError::UnsupportedFileType { path }) if path == b"a/b"));
    assert!(matches!(entry_kind(b"a/b", false, true, false), Ok(SnapshotEntryKind::Directory)));
    assert_eq!(permission_mode(0o104755), 0o4755);
}

#[test]
fn mutations_are_refused_before_they_run() {
    let remove = || SnapshotMutation::RemoveFile { path: b"x".to_vec() };
    assert!(matches!(
        prepare_mutations(&vec![remove(), remove()], &vec![Payload::Unneeded; 2], SnapshotMutationLimits::default()).err(),
        Some(SnapshotError::InvalidPath(PathFault::Duplicate))
    ));
    let put = SnapshotMutation::PutFile { path: b"value".to_vec(), source: b"/payload".to_vec(), mode: None };
    assert!(matches!(
        prepare_mutations(
            &vec![put],
            &vec![Payload::RegularFile { len: 5 }],
            SnapshotMutationLimits { max_mutations: 1, max_payload_bytes: 1 }
        )
        .err(),
        Some(SnapshotError::LimitExceeded(LimitFault::PayloadBytes { max_bytes: 1 }))
    ));
    assert!(matches!(
        check_plain_parent(PathProbe::Found { is_directory: false, is_symlink: true }),
        Err(SnapshotError::InvalidPath(_))
    ));
    assert!(check_plain_parent(PathProbe::Found { is_directory: true, is_symlink: false }).is_ok());
}

#[test]
fn mutations_are_decided_by_what_is_there() {
    let prepared = prepare_mutations(
        &vec![
            SnapshotMutation::PutFile { path: b"replace".to_vec(), source: b"/p".to_vec(), mode: Some(0o755) },
            SnapshotMutation::RemoveFile { path: b"remove".to_vec() },
            SnapshotMutation::RemoveDirectory { path: b"empty".to_vec() },
            SnapshotMutation::MakeDirectory { path: b"new".to_vec(), mode: Some(0o750) },
            SnapshotMutation::PutFile { path: b"new/value".to_vec(), source: b"/q".to_vec(), mode: None },
        ],
        &vec![
            Payload::RegularFile { len: 5 },
            Payload::Unneeded,
            Payload::Unneeded,
            Payload::Unneeded,
            Payload::RegularFile { len: 6 },
        ],
        SnapshotMutationLimits::default(),
    )
    .ok()
    .unwrap();
    let probes = [
        TargetProbe::RegularFile { mode: 0o644 },
        TargetProbe::RegularFile { mode: 0o644 },
        TargetProbe::Directory,
        TargetProbe::Missing,
        TargetProbe::Missing,
    ];
    let actions: Vec<MutationAction> =
        prepared.iter().zip(probes).map(|(mutation, probe)| mutation.decide(probe).ok().unwrap()).collect();
    assert_eq!(
        actions,
        vec![
            MutationAction::ReplaceFile { mode: 0o755 },
            MutationAction::RemoveFile,
            MutationAction::RemoveDirectory,
            MutationAction::MakeDirectory,
            MutationAction::CreateFile { mode: 0o644 },
        ]
    );
    let mut modes = marks(&["empty"]);
    for mutation in &prepared {
        mutation.record_modes(&mut modes);
    }
    assert_eq!(modes.get(&rel("new")), Some(&0o750));
    assert!(modes.get(&rel("empty")).is_none());
    assert!(matches!(prepared[3], PreparedMutation::MakeDirectory { mode: 0o750, .. }));
    assert!(prepared[1].decide(TargetProbe::Directory).is_err());
}

/// The kind and the length of what stands at each path.
fn drive(
    delta: &SnapshotDelta,
    mode: SnapshotDeltaApplyMode,
    mut tree: Vec<(String, u64)>,
) -> (Vec<(String, u64)>, usize) {
    let (mut plan, mut action) = delta.apply_to_directory(mode);
    let find = |tree: &Vec<(String, u64)>, path: &str| tree.iter().find(|(at, _)| at == path).map(|(_, len)| *len);
    loop {
        let event = match action {
            ApplyAction::AcquireLock | ApplyAction::SyncDestination => ApplyEvent::Succeeded,
            ApplyAction::CompareDependencies | ApplyAction::CompareTargetDependencies => {
                ApplyEvent::Compared { matched: true }
            }
            ApplyAction::CountConflicts | ApplyAction::CountTargetConflicts => ApplyEvent::Counted { conflicts: 0 },
            ApplyAction::Look { step } => {
                let entry = &delta.entries[plan.steps[step].entry];
                let path = String::from_utf8(entry.change.path.to_bytes()).unwrap();
                let live = find(&tree, &path);
                if plan.steps[step].phase == ApplyPhase::SetMode {
                    assert!(live.is_some());
                    ApplyEvent::SeenMode { differs: false }
                } else {
                    let at_end = |end: &Option<SnapshotEntry>| live == end.as_ref().map(|found| found.len);
                    let current = if at_end(&entry.before) { &entry.before } else { &entry.after };
                    let current = if live.is_some() { current } else { &None };
                    ApplyEvent::Seen(standing(
                        &entry.before,
                        &entry.after,
                        current,
                        at_end(&entry.after),
                        at_end(&entry.before),
                    ))
                }
            }
            ApplyAction::Perform { step } => {
                let entry = &delta.entries[plan.steps[step].entry];
                let path = String::from_utf8(entry.change.path.to_bytes()).unwrap();
                tree.retain(|(at, _)| *at != path);
                if plan.steps[step].phase != ApplyPhase::Remove {
                    tree.push((path, entry.after.as_ref().unwrap().len));
                }
                ApplyEvent::Succeeded
            }
            ApplyAction::Finish(result) => {
                let applied = plan.state.applied_paths;
                assert!(result.is_ok());
                tree.sort();
                return (tree, applied);
            }
            ApplyAction::Refuse => panic!("an event did not belong to its stage"),
        };
        let (state, next) = plan.state.advance(&plan.steps, event);
        plan.state = state;
        action = next;
    }
}

#[test]
fn applying_a_delta_reaches_the_target_and_keeps_the_rest() {
    let delta = admitted(vec![
        added("added", SnapshotEntryKind::Directory),
        added("added/value", SnapshotEntryKind::File),
        deleted("gone", SnapshotEntryKind::Directory),
        deleted("gone/value", SnapshotEntryKind::File),
        modified("text"),
    ]);
    let ends = |path: &str| {
        let entry = delta.entries.iter().find(|entry| entry.change.path.to_bytes() == path.as_bytes()).unwrap();
        (entry.before.as_ref().map(|end| end.len), entry.after.as_ref().map(|end| end.len))
    };
    let base: Vec<(String, u64)> = ["gone", "gone/value", "text"]
        .iter()
        .map(|path| (path.to_string(), ends(path).0.unwrap()))
        .chain(std::iter::once(("unrelated".to_string(), 77)))
        .collect();
    let mut target: Vec<(String, u64)> = ["added", "added/value", "text"]
        .iter()
        .map(|path| (path.to_string(), ends(path).1.unwrap()))
        .chain(std::iter::once(("unrelated".to_string(), 77)))
        .collect();
    target.sort();
    assert_eq!(drive(&delta, SnapshotDeltaApplyMode::Initial, base.clone()), (target.clone(), 5));
    assert_eq!(drive(&delta, SnapshotDeltaApplyMode::Resume, target.clone()), (target.clone(), 0));
    let mut mixed = base;
    mixed.retain(|(at, _)| at != "gone/value");
    assert_eq!(drive(&delta, SnapshotDeltaApplyMode::Resume, mixed), (target, 4));
}

fn turned(path: &str, from: SnapshotEntryKind, to: SnapshotEntryKind) -> DeltaEntry {
    DeltaEntry {
        change: SnapshotChange { path: rel(path), kind: SnapshotChangeKind::TypeChanged },
        before: Some(entry(path, from, 4)),
        after: Some(entry(path, to, 5)),
    }
}

#[test]
fn a_path_may_change_its_kind() {
    let (file, directory) = (SnapshotEntryKind::File, SnapshotEntryKind::Directory);
    let delta = admitted(vec![turned("a", file, directory), added("a/value", file), turned("b", directory, file)]);
    let base = vec![("a".to_string(), 4), ("b".to_string(), 4)];
    let target = vec![("a".to_string(), 5), ("a/value".to_string(), 5), ("b".to_string(), 5)];
    assert_eq!(drive(&delta, SnapshotDeltaApplyMode::Initial, base), (target.clone(), 5));
    // Both were removed when the first attempt stopped.
    assert_eq!(drive(&delta, SnapshotDeltaApplyMode::Resume, Vec::new()), (target.clone(), 3));
    // One was made already.
    assert_eq!(drive(&delta, SnapshotDeltaApplyMode::Resume, vec![("a".to_string(), 5)]), (target, 2));
}

#[test]
fn resuming_goes_on_where_an_attempt_stopped() {
    let delta = admitted(vec![turned("a", SnapshotEntryKind::File, SnapshotEntryKind::Directory)]);
    let seen = |current: PathMap<EntryStamp>| DeltaEvidence {
        base: tree(vec![("a", file(4))]),
        target: tree(vec![("a", stamp(SnapshotEntryKind::Directory, 0))]),
        current,
        same_as_base: marks(&[]),
        same_as_target: marks(&[]),
    };
    let mut made = stamp(SnapshotEntryKind::Directory, 0);
    made.mode = 0o700;
    assert_eq!(delta.validate_inventory(&seen(tree(vec![])), SnapshotDeltaApplyMode::Resume), 0);
    assert_eq!(delta.validate_inventory(&seen(tree(vec![("a", made)])), SnapshotDeltaApplyMode::Resume), 0);
    assert_eq!(delta.validate_inventory(&seen(tree(vec![])), SnapshotDeltaApplyMode::Initial), 1);
    assert_eq!(delta.validate_inventory(&seen(tree(vec![("a", file(9))])), SnapshotDeltaApplyMode::Resume), 1);
    assert_eq!(delta.validate_target_inventory(&seen(tree(vec![]))), 1);
}

/// How an apply of one file ends where an action fails.
fn end_of(fails: impl Fn(&ApplyAction) -> bool, writes: bool) -> SnapshotError {
    let delta = admitted(vec![modified("text")]);
    let (mut plan, mut action) = delta.apply_to_directory(SnapshotDeltaApplyMode::Resume);
    loop {
        let event = match action {
            ApplyAction::Finish(result) => return result.unwrap_err(),
            ref other if fails(other) => ApplyEvent::Failed(SnapshotError::Operation(Step::Apply)),
            ApplyAction::AcquireLock | ApplyAction::SyncDestination | ApplyAction::Perform { .. } => {
                ApplyEvent::Succeeded
            }
            ApplyAction::CompareDependencies | ApplyAction::CompareTargetDependencies => {
                ApplyEvent::Compared { matched: true }
            }
            ApplyAction::CountConflicts | ApplyAction::CountTargetConflicts => ApplyEvent::Counted { conflicts: 0 },
            ApplyAction::Look { step } if plan.steps[step].phase == ApplyPhase::SetMode => {
                ApplyEvent::SeenMode { differs: false }
            }
            ApplyAction::Look { .. } => ApplyEvent::Seen(if writes { Standing::AtBase } else { Standing::AtTarget }),
            ApplyAction::Refuse => panic!("an event did not belong to its stage"),
        };
        let (state, next) = plan.state.advance(&plan.steps, event);
        plan.state = state;
        action = next;
    }
}

#[test]
fn every_failure_after_a_write_is_told_as_incomplete() {
    let late: [fn(&ApplyAction) -> bool; 3] = [
        |action| matches!(action, ApplyAction::CountTargetConflicts),
        |action| matches!(action, ApplyAction::CompareTargetDependencies),
        |action| matches!(action, ApplyAction::SyncDestination),
    ];
    for fails in late {
        assert!(matches!(end_of(fails, true), SnapshotError::DeltaApplyIncomplete { applied_paths: 1 }));
        assert!(matches!(end_of(fails, false), SnapshotError::Operation(Step::Apply)));
    }
    let early: [fn(&ApplyAction) -> bool; 4] = [
        |action| matches!(action, ApplyAction::AcquireLock),
        |action| matches!(action, ApplyAction::CompareDependencies),
        |action| matches!(action, ApplyAction::CountConflicts),
        |action| matches!(action, ApplyAction::Perform { .. }),
    ];
    for fails in early {
        assert!(matches!(end_of(fails, true), SnapshotError::Operation(Step::Apply)));
    }
}

#[test]
fn a_write_that_is_not_made_durable_counts() {
    let delta = admitted(vec![modified("text")]);
    let (plan, _) = delta.apply_to_directory(SnapshotDeltaApplyMode::Initial);
    let (state, _) = plan.state.advance(&plan.steps, ApplyEvent::Succeeded);
    let (state, _) = state.advance(&plan.steps, ApplyEvent::Compared { matched: true });
    let (state, _) = state.advance(&plan.steps, ApplyEvent::Counted { conflicts: 0 });
    let (refused, action) = state.advance(&plan.steps, ApplyEvent::SeenMode { differs: true });
    assert_eq!(refused, state);
    assert!(matches!(action, ApplyAction::Refuse));
    let (state, _) = state.advance(&plan.steps, ApplyEvent::Seen(Standing::AtBase));
    let (_, action) = state.advance(&plan.steps, ApplyEvent::FailedAfterwards);
    assert!(matches!(
        action,
        ApplyAction::Finish(Err(SnapshotError::DeltaApplyIncomplete { applied_paths: 1 }))
    ));
}

#[test]
fn steps_say_what_they_do() {
    let mut link = added("link", SnapshotEntryKind::Symlink);
    link.after.as_mut().unwrap().symlink_target = Some(b"to".to_vec());
    let entries = vec![
        deleted("gone", SnapshotEntryKind::Directory),
        deleted("file", SnapshotEntryKind::File),
        added("made", SnapshotEntryKind::Directory),
        modified("text"),
        link,
        added("lost", SnapshotEntryKind::Symlink),
    ];
    let summary = admitted(Vec::new()).summary();
    let delta = SnapshotDelta { entries, summary, limits: SnapshotDeltaLimits::default() };
    let deed = |phase: ApplyPhase, entry: usize| delta.step_action(&ApplyStep { phase, entry });
    let removed = deed(ApplyPhase::Remove, 0);
    assert!(removed.checks_parents && matches!(removed.deed, Deed::RemoveDirectory));
    assert_eq!(removed.path.to_bytes(), b"gone".to_vec());
    assert!(matches!(deed(ApplyPhase::Remove, 1).deed, Deed::RemoveEntry));
    assert!(matches!(deed(ApplyPhase::MakeDirectory, 2).deed, Deed::MakeDirectory));
    assert!(matches!(deed(ApplyPhase::Put, 3).deed, Deed::PutFile { mode: 0o644 }));
    assert!(matches!(deed(ApplyPhase::Put, 4).deed, Deed::PutLink { target } if target == b"to".to_vec()));
    assert!(matches!(deed(ApplyPhase::Put, 5).deed, Deed::Refuse));
    let set = deed(ApplyPhase::SetMode, 3);
    assert!(!set.checks_parents && matches!(set.deed, Deed::SetMode { mode: 0o644 }));
    assert!(matches!(deed(ApplyPhase::SetMode, 0).deed, Deed::Refuse));
}

/// The files that a validation reads, each with its end.
fn readings(mut validation: Validation) -> Vec<(String, End)> {
    let mut told = Vec::new();
    loop {
        let next = match validation.next_reading() {
            Some(reading) => (String::from_utf8(reading.path.to_bytes()).unwrap(), reading.end),
            None => return told,
        };
        told.push(next);
        validation.compare_piece(b"", b"").unwrap();
    }
}

fn unread(base: PathMap<EntryStamp>, target: PathMap<EntryStamp>, current: PathMap<EntryStamp>) -> DeltaEvidence {
    DeltaEvidence { base, target, current, same_as_base: marks(&[]), same_as_target: marks(&[]) }
}

#[test]
fn only_changed_files_and_those_that_go_are_read() {
    let directory = || stamp(SnapshotEntryKind::Directory, 0);
    let mut chmod = modified("kept");
    chmod.change.kind = SnapshotChangeKind::ModeChanged;
    chmod.before = Some(entry("kept", SnapshotEntryKind::Directory, 0));
    chmod.after = Some(entry("kept", SnapshotEntryKind::Directory, 0));
    let delta = admitted(vec![
        deleted("gone", SnapshotEntryKind::Directory),
        deleted("gone/x", SnapshotEntryKind::File),
        chmod,
        modified("text"),
    ]);
    let base = || {
        tree(vec![
            ("gone", directory()),
            ("gone/x", file(4)),
            ("kept", directory()),
            ("kept/y", file(4)),
            ("text", file(4)),
        ])
    };
    let target = || tree(vec![("kept", directory()), ("kept/y", file(4)), ("text", file(4))]);
    let seen = unread(base(), target(), base());
    let initial = delta.begin_validation(&seen, Expectation::Before(SnapshotDeltaApplyMode::Initial));
    let told = |path: &str, end: End| (path.to_string(), end);
    assert_eq!(
        readings(initial),
        vec![told("gone/x", End::Base), told("text", End::Base), told("gone/x", End::Base)]
    );
    let resumed = delta.begin_validation(&seen, Expectation::Before(SnapshotDeltaApplyMode::Resume));
    assert_eq!(
        readings(resumed),
        vec![
            told("gone/x", End::Base),
            told("text", End::Base),
            told("text", End::Target),
            told("gone/x", End::Base),
        ]
    );
    let after = unread(base(), target(), target());
    assert_eq!(readings(delta.begin_validation(&after, Expectation::After)), vec![told("text", End::Target)]);
}

#[test]
fn validations_keep_within_their_budget_of_bytes() {
    let mut delta = admitted(vec![modified("a"), modified("b")]);
    delta.limits.max_compared_bytes = 16;
    let stock = || tree(vec![("a", file(4)), ("b", file(4))]);
    let begin = |delta: &SnapshotDelta| {
        let seen = unread(stock(), tree(vec![]), stock());
        (delta.begin_validation(&seen, Expectation::Before(SnapshotDeltaApplyMode::Initial)), seen)
    };
    let (mut whole, seen) = begin(&delta);
    assert!(!whole.compare_piece(b"same", b"same").unwrap());
    assert_eq!(whole.next_reading().map(|reading| reading.path.to_bytes()), Some(b"a".to_vec()));
    assert!(whole.compare_piece(b"", b"").unwrap());
    assert!(whole.compare_piece(b"ours", b"them").unwrap());
    assert!(whole.next_reading().is_none());
    let complete = whole.finish(seen);
    assert!(complete.same_as_base.contains(&rel("a")) && !complete.same_as_base.contains(&rel("b")));
    assert_eq!(delta.validate_inventory(&complete, SnapshotDeltaApplyMode::Initial), 1);
    delta.limits.max_compared_bytes = 15;
    let (mut short, _) = begin(&delta);
    short.compare_piece(b"same", b"same").unwrap();
    short.compare_piece(b"", b"").unwrap();
    assert!(matches!(
        short.compare_piece(b"ours", b"them"),
        Err(SnapshotError::LimitExceeded(LimitFault::CompareContentBytes))
    ));
}
