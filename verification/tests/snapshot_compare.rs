use sandlock_core::error::{DeltaRefusal, DescriptorFault, LimitFault, PathFault, SnapshotError, Step};
use sandlock_core::path::RelPath;
use sandlock_core::path_map::PathMap;
use sandlock_core::snapshot::assembly::{directory_entry, file_entry, WalkedEntry};
use sandlock_core::snapshot::compare::{
    AlternativeEvidence, ScopeEvidence, SnapshotCompareLimits, SnapshotCompareScope, SnapshotRequirement,
};
use sandlock_core::snapshot::comparing::{SameContents, ScopesEvidence, TreeEvidence, TreesEvidence};
use sandlock_core::snapshot::delta::{SnapshotDeltaLimits, SnapshotDeltaPolicy};
use sandlock_core::snapshot::forming::EndsEvidence;
use sandlock_core::snapshot::handle::{FsSnapshot, FsSnapshotDescriptor};
use sandlock_core::snapshot::index::SnapshotIndex;
use sandlock_core::snapshot::inspect::IndexEvidence;
use sandlock_core::snapshot::inventory::{EntryStamp, StampedEntry};
use sandlock_core::snapshot::{SnapshotChangeKind, SnapshotEntry, SnapshotEntryKind};

fn rel(path: &str) -> RelPath {
    RelPath::parse(path.as_bytes()).unwrap()
}

fn snapshot(hash: u8) -> FsSnapshot {
    let descriptor = FsSnapshotDescriptor::new(b"/store/one".to_vec(), "one".to_string());
    FsSnapshot::attach(descriptor, [hash; 32], b"/store/one/leases/handle-1".to_vec())
}

fn destroyed() -> FsSnapshot {
    let mut gone = snapshot(9);
    gone.mark_destroyed();
    gone
}

fn stamp(kind: SnapshotEntryKind, len: u64) -> EntryStamp {
    EntryStamp {
        kind,
        mode: 0o644,
        len,
        dev: 1,
        ino: 2,
        mtime: 0,
        mtime_nsec: 0,
        ctime: 0,
        ctime_nsec: 0,
        symlink_target: None,
    }
}

fn walked(files: &[(&str, u64)]) -> TreeEvidence {
    TreeEvidence {
        root: stamp(SnapshotEntryKind::Directory, 0),
        walked: files
            .iter()
            .map(|(path, len)| StampedEntry { path: rel(path), stamp: stamp(SnapshotEntryKind::File, *len) })
            .collect(),
        modes: PathMap::new(),
    }
}

fn stock(files: &[(&str, u64)]) -> PathMap<EntryStamp> {
    let mut map = PathMap::new();
    for (path, len) in files {
        map.insert(rel(path), stamp(SnapshotEntryKind::File, *len));
    }
    map
}

fn same(paths: &[&str]) -> PathMap<u32> {
    let mut map = PathMap::new();
    for path in paths {
        map.insert(rel(path), 1);
    }
    map
}

fn asks(path: &str, scope: SnapshotCompareScope) -> SnapshotRequirement {
    SnapshotRequirement { path: path.as_bytes().to_vec(), scope }
}

fn trees(expected: &[(&str, u64)], current: &[(&str, u64)], alike: &[&str]) -> TreesEvidence {
    let limits = SnapshotCompareLimits::default();
    TreesEvidence {
        expected: walked(expected),
        current: walked(current),
        contents: Ok(SameContents { same: same(alike), content_budget: limits.max_content_bytes - 7 }),
    }
}

#[test]
fn snapshots_are_compared_in_what_is_asked() {
    let limits = SnapshotCompareLimits::default();
    let expected = [("a", 4), ("b", 4)];
    let current = [("a", 4), ("b", 5), ("c", 1)];
    let ask = |requirements: Vec<SnapshotRequirement>| {
        snapshot(1)
            .compare_requirements(&snapshot(2), &requirements, limits, trees(&expected, &current, &["a"]))
            .unwrap()
    };
    let content = ask(vec![asks("a", SnapshotCompareScope::Content), asks("./a", SnapshotCompareScope::Content)]);
    assert!(content.matched);
    assert_eq!(content.compared_entries, 1);
    assert_eq!(content.compared_bytes, 7);
    assert!(!ask(vec![asks("b", SnapshotCompareScope::Content)]).matched);
    assert!(!ask(vec![asks("", SnapshotCompareScope::Entries)]).matched);
    assert!(ask(vec![asks("missing", SnapshotCompareScope::TreeContent)]).matched);
}

#[test]
fn comparisons_of_snapshots_stop_at_the_first_obstacle() {
    let limits = SnapshotCompareLimits { max_requirements: 1, max_entries: 3, ..SnapshotCompareLimits::default() };
    let files = [("a", 4)];
    let one = vec![asks("a", SnapshotCompareScope::Content)];
    let told = |left: &FsSnapshot, asked: &Vec<SnapshotRequirement>, seen| {
        left.compare_requirements(&snapshot(2), asked, limits, seen).err()
    };
    assert!(matches!(
        told(&destroyed(), &one, trees(&files, &files, &[])),
        Some(SnapshotError::AlreadyDestroyed)
    ));
    assert!(matches!(
        told(&snapshot(1), &vec![asks("../a", SnapshotCompareScope::Content)], trees(&files, &files, &[])),
        Some(SnapshotError::InvalidPath(PathFault::NotRelative))
    ));
    let two = vec![asks("a", SnapshotCompareScope::Content), asks("b", SnapshotCompareScope::Content)];
    assert!(matches!(
        told(&snapshot(1), &two, trees(&files, &files, &[])),
        Some(SnapshotError::LimitExceeded(LimitFault::Requirements { given: 2, limit: 1 }))
    ));
    assert!(matches!(
        told(&snapshot(1), &one, trees(&[("a", 1), ("b", 1), ("c", 1)], &files, &[])),
        Some(SnapshotError::LimitExceeded(LimitFault::Entries { limit: 3 }))
    ));
    assert!(matches!(
        told(&snapshot(1), &one, trees(&[("a", 1), ("b", 1)], &files, &[])),
        Some(SnapshotError::LimitExceeded(LimitFault::Entries { limit: 0 }))
    ));
    let unread = TreesEvidence {
        contents: Err(SnapshotError::LimitExceeded(LimitFault::CompareContentBytes)),
        ..trees(&[], &[], &[])
    };
    assert!(matches!(
        told(&snapshot(1), &one, unread),
        Some(SnapshotError::LimitExceeded(LimitFault::CompareContentBytes))
    ));
}

#[test]
fn directories_may_match_either_of_two_snapshots() {
    let limits = SnapshotCompareLimits::default();
    let asked = vec![asks("a", SnapshotCompareScope::Content), asks("b", SnapshotCompareScope::Content)];
    let scope = |expected: u64, alternative: Option<u64>, path: &str| ScopeEvidence {
        expected: stock(&[(path, expected)]),
        current: stock(&[(path, 6)]),
        same: if expected == 6 { same(&[path]) } else { same(&[]) },
        alternative: alternative.map(|len| AlternativeEvidence {
            expected: stock(&[(path, len)]),
            same: if len == 6 { same(&[path]) } else { same(&[]) },
        }),
    };
    let seen = |alternative| {
        Ok(ScopesEvidence {
            scopes: vec![scope(6, alternative, "a"), scope(4, alternative, "b")],
            content_budget: limits.max_content_bytes,
        })
    };
    let base = snapshot(1);
    let plain = base.compare_directory_requirements(true, &asked, limits, seen(None)).unwrap();
    assert!(!plain.matched);
    assert_eq!(plain.compared_entries, 2);
    let either = base
        .compare_directory_requirements_allowing(&snapshot(2), true, &asked, limits, seen(Some(6)))
        .unwrap();
    assert!(either.matched);
    assert_eq!(either.compared_entries, 3);
    assert!(matches!(
        base.compare_directory_requirements_allowing(&destroyed(), true, &asked, limits, seen(None)),
        Err(SnapshotError::AlreadyDestroyed)
    ));
    assert!(matches!(
        base.compare_directory_requirements(false, &asked, limits, seen(None)),
        Err(SnapshotError::InvalidDescriptor(DescriptorFault::NotPlainDirectory))
    ));
    assert!(matches!(
        base.compare_directory_requirements(
            true,
            &asked,
            limits,
            Err(SnapshotError::LimitExceeded(LimitFault::CompareEntries))
        ),
        Err(SnapshotError::LimitExceeded(LimitFault::CompareEntries))
    ));
}

fn indexed(files: &[(&str, &[u8])]) -> (FsSnapshot, IndexEvidence, PathMap<SnapshotEntry>) {
    let index = SnapshotIndex::build(
        directory_entry(0o755),
        files
            .iter()
            .map(|(path, content)| WalkedEntry {
                path: rel(path),
                entry: file_entry(0o644, content.len() as u64, content),
            })
            .collect(),
    )
    .unwrap();
    let descriptor = FsSnapshotDescriptor::new(b"/store/one".to_vec(), "one".to_string());
    let held = FsSnapshot::attach(descriptor, index.root_hash().unwrap(), b"/store/one/leases/handle-1".to_vec());
    let mut entries = PathMap::new();
    for (path, content) in files {
        let entry = SnapshotEntry {
            path: rel(path),
            kind: SnapshotEntryKind::File,
            mode: 0o644,
            len: content.len() as u64,
            symlink_target: None,
        };
        entries.insert(rel(path), entry);
    }
    (held, IndexEvidence { is_plain_file: true, bytes: Some(index.write().unwrap()) }, entries)
}

/// Why an end of a change was not seen.
fn unseen() -> SnapshotError {
    SnapshotError::InvalidPath(PathFault::Escapes)
}

fn policy() -> SnapshotDeltaPolicy {
    SnapshotDeltaPolicy { allow_symlinks: false, protected_paths: Vec::new() }
}

#[test]
fn a_delta_holds_every_change_with_its_ends() {
    let (base, before, base_entries) = indexed(&[("gone", b"old"), ("kept", b"same"), ("text", b"one")]);
    let (target, after, target_entries) = indexed(&[("kept", b"same"), ("new", b"fresh"), ("text", b"four")]);
    let seen = EndsEvidence { before, after, base: base_entries, target: target_entries };
    let delta = base.delta_to(&target, SnapshotDeltaLimits::default(), &policy(), &seen, unseen()).unwrap();
    let told: Vec<_> = delta.changes().iter().map(|change| (change.path.to_bytes(), change.kind)).collect();
    assert_eq!(
        told,
        vec![
            (b"gone".to_vec(), SnapshotChangeKind::Deleted),
            (b"new".to_vec(), SnapshotChangeKind::Added),
            (b"text".to_vec(), SnapshotChangeKind::Modified),
        ]
    );
    assert_eq!(delta.summary().changed_paths, 3);
    assert_eq!(delta.summary().changed_bytes, 9);
    assert_eq!(delta.entries[2].before.as_ref().unwrap().len, 3);
    assert_eq!(delta.entries[2].after.as_ref().unwrap().len, 4);
    assert!(delta.entries[0].after.is_none() && delta.entries[1].before.is_none());
}

#[test]
fn deltas_that_cannot_be_formed_are_refused() {
    let (base, before, _) = indexed(&[("a", b"old"), ("b", b"old")]);
    let (target, after, target_entries) = indexed(&[("a", b"new"), ("b", b"new")]);
    let seen = EndsEvidence { before, after, base: PathMap::new(), target: target_entries };
    let limits = SnapshotDeltaLimits::default();
    assert!(matches!(
        base.delta_to(&target, limits, &policy(), &seen, unseen()),
        Err(SnapshotError::InvalidPath(PathFault::Escapes))
    ));
    let guarded = SnapshotDeltaPolicy { protected_paths: vec![b"a/inner".to_vec()], ..policy() };
    assert!(matches!(
        base.delta_to(&target, limits, &guarded, &seen, unseen()),
        Err(SnapshotError::DeltaRejected { path, reason: DeltaRefusal::Protected { by } })
            if path.to_bytes() == b"a".to_vec() && by.to_bytes() == b"a/inner".to_vec()
    ));
    let narrow = SnapshotDeltaLimits { max_changed_paths: 1, ..limits };
    assert!(matches!(
        base.delta_to(&target, narrow, &policy(), &seen, unseen()),
        Err(SnapshotError::LimitExceeded(LimitFault::DeltaPaths { given: 2, limit: 1 }))
    ));
    assert!(matches!(
        base.delta_to(&destroyed(), limits, &policy(), &seen, unseen()),
        Err(SnapshotError::AlreadyDestroyed)
    ));
    let unread = EndsEvidence {
        before: IndexEvidence { is_plain_file: false, bytes: None },
        after: IndexEvidence { is_plain_file: false, bytes: None },
        base: PathMap::new(),
        target: PathMap::new(),
    };
    assert!(matches!(
        base.delta_to(&target, limits, &policy(), &unread, unseen()),
        Err(SnapshotError::InvalidDescriptor(_))
    ));
    assert!(base.delta_to(&base, limits, &policy(), &unread, unseen()).unwrap().entries.is_empty());
}
