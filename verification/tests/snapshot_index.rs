use sandlock_core::error::{DescriptorFault, LimitFault, SnapshotError};
use sandlock_core::path::RelPath;
use sandlock_core::path_map::PathMap;
use sandlock_core::snapshot::assembly::{
    directory_entry, file_entry, minimize_paths, symlink_entry, UpperEntry, WalkedEntry,
};
use sandlock_core::snapshot::diff::{diff_indexes, indexed_change_kind, SnapshotDiff};
use sandlock_core::snapshot::index::{kind_tag, SnapshotIndex};
use sandlock_core::snapshot::{SnapshotChangeKind, SnapshotEntryKind};

fn rel(path: &[u8]) -> RelPath {
    RelPath::parse(path).unwrap()
}

fn file(path: &str, content: &[u8]) -> WalkedEntry {
    file_with_mode(path, content, 0o644)
}

fn file_with_mode(path: &str, content: &[u8], mode: u32) -> WalkedEntry {
    WalkedEntry { path: rel(path.as_bytes()), entry: file_entry(mode, content.len() as u64, content) }
}

fn directory(path: &str) -> WalkedEntry {
    WalkedEntry { path: rel(path.as_bytes()), entry: directory_entry(0o755) }
}

fn link(path: &str, target: &str) -> WalkedEntry {
    WalkedEntry { path: rel(path.as_bytes()), entry: symlink_entry(0o777, target.as_bytes()) }
}

fn build(walked: Vec<WalkedEntry>) -> SnapshotIndex {
    SnapshotIndex::build(directory_entry(0o755), walked).ok().unwrap()
}

fn upper(walked: WalkedEntry, kind: SnapshotEntryKind) -> UpperEntry {
    UpperEntry { path: walked.path, kind, entry: walked.entry }
}

fn hash(index: &SnapshotIndex) -> [u8; 32] {
    index.root_hash().ok().unwrap()
}

fn kinds(diff: &SnapshotDiff) -> Vec<(String, SnapshotChangeKind)> {
    diff.changes
        .iter()
        .map(|change| (String::from_utf8(change.path.to_bytes()).unwrap(), change.kind))
        .collect()
}

#[test]
fn an_index_reads_back_with_paths_that_are_no_text() {
    let walked = WalkedEntry { path: rel(&[b'f', 0x80]), entry: file_entry(0o644, 7, b"content") };
    let index = build(vec![walked]);
    let bytes = index.write().ok().unwrap();
    let loaded = SnapshotIndex::load(&bytes).ok().unwrap();
    assert_eq!(hash(&loaded), hash(&index));
    assert!(loaded.entries.contains(&rel(&[b'f', 0x80])));
    assert_eq!(loaded.write().ok().unwrap(), bytes);
}

#[test]
fn a_corrupt_index_is_refused() {
    let mut bytes = build(vec![file("file", b"content")]).write().ok().unwrap();
    let last = bytes.len() - 1;
    bytes[last] ^= 1;
    assert!(matches!(SnapshotIndex::load(&bytes), Err(SnapshotError::InvalidDescriptor(_))));
    assert!(matches!(
        SnapshotIndex::load(&bytes[..3]),
        Err(SnapshotError::InvalidDescriptor(DescriptorFault::IndexUnreadable))
    ));
    let mut hash_bit = build(vec![file("file", b"content")]).write().ok().unwrap();
    let middle = hash_bit.len() / 2;
    hash_bit[middle] ^= 0x80;
    assert!(matches!(SnapshotIndex::load(&hash_bit), Err(SnapshotError::InvalidDescriptor(_))));
}

#[test]
fn equal_trees_have_the_same_root_hash() {
    let tree = || build(vec![directory("directory"), file("directory/file", b"content")]);
    assert_eq!(hash(&tree()), hash(&tree()));
    let other = build(vec![directory("directory"), file("directory/file", b"changed")]);
    assert_ne!(hash(&tree()), hash(&other));
    let diff = diff_indexes(&tree(), &tree(), &None, 1).ok().unwrap();
    assert_eq!(diff.changed_paths, 0);
}

#[test]
fn file_hashes_come_from_the_content() {
    let leaf = file_entry(0o644, 7, b"content");
    assert_eq!(leaf.kind, SnapshotEntryKind::File);
    assert_eq!(leaf.hash, *blake3::hash(b"sandlock snapshot file\0content").as_bytes());
    assert_eq!((leaf.subtree_entries, leaf.content_bytes), (1, 7));
    let link = symlink_entry(0o777, b"to");
    assert_eq!(link.hash, *blake3::hash(b"sandlock snapshot symlink\0\x02\0\0\0\0\0\0\0to").as_bytes());
    assert_eq!((link.len, link.content_bytes), (0, 0));
    let empty = hash(&build(vec![]));
    assert_eq!(empty, *blake3::hash(b"sandlock snapshot directory\0\xed\x01\0\0").as_bytes());
    assert_eq!(kind_tag(SnapshotEntryKind::File), 1);
    assert_eq!(kind_tag(SnapshotEntryKind::Directory), 2);
    assert_eq!(kind_tag(SnapshotEntryKind::Symlink), 3);
}

#[test]
fn directories_count_what_lies_below_them() {
    let index = build(vec![directory("d"), file("d/a", b"12"), file("d/b", b"345"), link("l", "d/a")]);
    let root = index.entries.get(&RelPath::root()).unwrap();
    assert_eq!(root.subtree_entries, 5);
    assert_eq!(root.content_bytes, 5);
    let below = index.entries.get(&rel(b"d")).unwrap();
    assert_eq!((below.subtree_entries, below.content_bytes), (3, 5));
}

#[test]
fn a_branch_update_matches_a_full_rebuild_across_type_changes() {
    let base = build(vec![
        file("file-to-directory", b"base"),
        directory("deleted-directory"),
        file("deleted-directory/file", b"deleted"),
        directory("directory-to-file"),
        file("directory-to-file/child", b"base"),
    ]);
    let updated = base
        .apply_branch(
            &vec![b"deleted-directory".to_vec()],
            &PathMap::new(),
            vec![
                upper(file("directory-to-file", b"replacement"), SnapshotEntryKind::File),
                upper(directory("file-to-directory"), SnapshotEntryKind::Directory),
                upper(file("file-to-directory/child", b"new"), SnapshotEntryKind::File),
            ],
            None,
        )
        .ok()
        .unwrap();
    let rebuilt = build(vec![
        directory("file-to-directory"),
        file("file-to-directory/child", b"new"),
        file("directory-to-file", b"replacement"),
    ]);
    assert_eq!(updated.entries.len(), rebuilt.entries.len());
    assert_eq!(hash(&updated), hash(&rebuilt));
}

#[test]
fn a_branch_update_keeps_what_the_upper_does_not_hold() {
    let base = build(vec![file("unchanged", b"base")]);
    let added = vec![upper(file("added", b"new"), SnapshotEntryKind::File)];
    let updated = base.apply_branch(&vec![], &PathMap::new(), added, None).ok().unwrap();
    assert!(updated.entries.contains(&rel(b"unchanged")));
    assert!(updated.entries.contains(&rel(b"added")));
    assert_ne!(hash(&updated), hash(&base));
}

#[test]
fn refreshed_paths_replace_what_lay_below_them() {
    let base = build(vec![directory("d"), file("d/a", b"1"), file("e", b"1")]);
    let refreshed =
        base.refresh_paths(&vec![b"d".to_vec()], vec![directory("d"), file("d/b", b"2")]).ok().unwrap();
    let rebuilt = build(vec![directory("d"), file("d/b", b"2"), file("e", b"1")]);
    assert_eq!(hash(&refreshed), hash(&rebuilt));
    let minimal: Vec<Vec<u8>> = minimize_paths(&vec![b"d/a".to_vec(), b"d".to_vec(), b"e".to_vec()])
        .ok()
        .unwrap()
        .iter()
        .map(|path| path.to_bytes())
        .collect();
    assert_eq!(minimal, vec![b"d".to_vec(), b"e".to_vec()]);
    assert!(matches!(minimize_paths(&vec![b"../x".to_vec()]), Err(SnapshotError::InvalidPath(_))));
}

#[test]
fn a_diff_tells_content_mode_type_and_symlink_changes() {
    let before = build(vec![
        file("content", b"one"),
        file("mode", b"same"),
        file("kind", b"file"),
        link("link", "one"),
    ]);
    let after = build(vec![
        file("content", b"two"),
        file_with_mode("mode", b"same", 0o755),
        directory("kind"),
        link("link", "two"),
        file("added", b"new"),
    ]);
    let diff = diff_indexes(&before, &after, &None, 16).ok().unwrap();
    assert_eq!(diff.changed_paths, 5);
    assert_eq!(
        kinds(&diff),
        vec![
            ("added".to_string(), SnapshotChangeKind::Added),
            ("content".to_string(), SnapshotChangeKind::Modified),
            ("kind".to_string(), SnapshotChangeKind::TypeChanged),
            ("link".to_string(), SnapshotChangeKind::SymlinkTargetChanged),
            ("mode".to_string(), SnapshotChangeKind::ModeChanged),
        ]
    );
    let first = diff_indexes(&before, &after, &None, 2).ok().unwrap();
    assert_eq!(first.changes.len(), 2);
    assert!(first.truncated);
    let second = diff_indexes(&before, &after, &first.next_path, 16).ok().unwrap();
    assert_eq!(second.changes.len(), 3);
    assert!(!second.truncated);
    assert_eq!(second.changed_paths, 5);
    let back = diff_indexes(&after, &before, &None, 16).ok().unwrap();
    assert_eq!(kinds(&back)[0], ("added".to_string(), SnapshotChangeKind::Deleted));
}

#[test]
fn one_entry_is_compared_by_its_leaf() {
    let one = file_entry(0o644, 1, b"1");
    assert_eq!(indexed_change_kind(&one, &file_entry(0o644, 1, b"1")), None);
    assert_eq!(indexed_change_kind(&one, &file_entry(0o600, 1, b"2")), Some(SnapshotChangeKind::Modified));
    assert_eq!(indexed_change_kind(&one, &directory_entry(0o644)), Some(SnapshotChangeKind::TypeChanged));
}

#[test]
fn an_index_needs_its_parents() {
    let orphan = SnapshotIndex::build(directory_entry(0o755), vec![file("missing/child", b"1")]);
    assert!(orphan.is_err());
    assert!(!matches!(orphan.err(), Some(SnapshotError::LimitExceeded(LimitFault::DiffEntries))));
}

#[test]
fn an_index_is_stored_as_counted_rows() {
    let index = build(vec![file("a", b"12")]);
    let bytes = index.write().ok().unwrap();
    let mut expected = 2u64.to_le_bytes().to_vec();
    for (path, kind) in [("", 1u32), ("a", 0u32)] {
        let entry = index.entries.get(&rel(path.as_bytes())).unwrap();
        expected.extend_from_slice(&(path.len() as u64).to_le_bytes());
        expected.extend_from_slice(path.as_bytes());
        expected.extend_from_slice(&kind.to_le_bytes());
        expected.extend_from_slice(&entry.mode.to_le_bytes());
        expected.extend_from_slice(&entry.len.to_le_bytes());
        expected.extend_from_slice(&entry.hash);
        expected.extend_from_slice(&entry.subtree_entries.to_le_bytes());
        expected.extend_from_slice(&entry.content_bytes.to_le_bytes());
    }
    assert_eq!(bytes, expected);
}
