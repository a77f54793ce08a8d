use std::collections::BTreeMap;

use sandlock_core::path::RelPath;
use sandlock_core::path_map::PathMap;
use sandlock_core::snapshot::capture::finalize_directories;
use sandlock_core::snapshot::copying::{copy_tree_with_modes, CopyStep, PRIVATE_MODE};
use sandlock_core::snapshot::inventory::{EntryStamp, StampedEntry};
use sandlock_core::snapshot::overlay::{
    apply_deletions, apply_upper_entry, apply_upper_root, lay_entry, remove_overlay_entry, OverlayAction, OverlayProbe,
};
use sandlock_core::snapshot::SnapshotEntryKind;

#[derive(Clone, Debug, PartialEq)]
struct Live {
    kind: SnapshotEntryKind,
    mode: u32,
    content: Vec<u8>,
}

type Tree = BTreeMap<Vec<u8>, Live>;

fn directory(mode: u32) -> Live {
    Live { kind: SnapshotEntryKind::Directory, mode, content: Vec::new() }
}

fn file(mode: u32, content: &[u8]) -> Live {
    Live { kind: SnapshotEntryKind::File, mode, content: content.to_vec() }
}

fn link(target: &[u8]) -> Live {
    Live { kind: SnapshotEntryKind::Symlink, mode: 0o777, content: target.to_vec() }
}

fn tree(entries: &[(&str, Live)]) -> Tree {
    entries.iter().map(|(path, live)| (path.as_bytes().to_vec(), live.clone())).collect()
}

fn stamp(live: &Live) -> EntryStamp {
    let symlink_target =
        if live.kind == SnapshotEntryKind::Symlink { Some(live.content.clone()) } else { None };
    EntryStamp {
        kind: live.kind,
        mode: live.mode,
        len: live.content.len() as u64,
        dev: 1,
        ino: 2,
        mtime: 3,
        mtime_nsec: 4,
        ctime: 5,
        ctime_nsec: 6,
        symlink_target,
    }
}

fn walk(tree: &Tree) -> Vec<StampedEntry> {
    tree.iter()
        .filter(|(path, _)| !path.is_empty())
        .map(|(path, live)| StampedEntry { path: RelPath::parse(path).unwrap(), stamp: stamp(live) })
        .collect()
}

fn copied(source: &Tree, kept: &PathMap<u32>) -> (Tree, PathMap<u32>) {
    let below = walk(source);
    let copy = copy_tree_with_modes(kept, &stamp(&source[&Vec::new()]), &below).ok().unwrap();
    let mut made = tree(&[("", directory(PRIVATE_MODE))]);
    for (entry, step) in below.iter().zip(copy.steps) {
        let at = entry.path.to_bytes();
        let live = match step {
            CopyStep::MakeDirectory => directory(PRIVATE_MODE),
            CopyStep::CopyFile { mode } => file(mode, &source[&at].content),
            CopyStep::MakeLink { target } => link(&target),
        };
        made.insert(at, live);
    }
    (made, copy.modes)
}

fn finished(mut made: Tree, modes: &PathMap<u32>) -> Tree {
    for (path, mode) in finalize_directories(modes) {
        made.get_mut(&path.to_bytes()).unwrap().mode = mode;
    }
    made
}

fn source() -> Tree {
    tree(&[
        ("", directory(0o755)),
        ("d", directory(0o500)),
        ("d/e", directory(0)),
        ("d/e/f", file(0o4711, b"1")),
        ("d/g", file(0o600, b"2")),
        ("l", link(b"d/g")),
        ("p", file(0o644, b"3")),
    ])
}

#[test]
fn a_materialized_tree_equals_the_captured_one() {
    let (stored, modes) = copied(&source(), &PathMap::new());
    assert_eq!(stored[&b"d/e"[..]].mode, PRIVATE_MODE);
    let (made, set) = copied(&stored, &modes);
    assert_eq!(finished(made, &set), source());
}

fn probe(tree: &Tree, at: &RelPath) -> OverlayProbe {
    match tree.get(&at.to_bytes()) {
        None => OverlayProbe::Missing,
        Some(live) if live.kind == SnapshotEntryKind::Directory => OverlayProbe::Directory,
        Some(_) => OverlayProbe::OtherKind,
    }
}

fn perform(tree: &mut Tree, at: &RelPath, action: OverlayAction) {
    let path = at.to_bytes();
    match action {
        OverlayAction::Nothing => {}
        OverlayAction::RemoveTree => {
            let below = [&path[..], b"/"].concat();
            tree.retain(|other, _| *other != path && !other.starts_with(&below));
        }
        OverlayAction::Unlink => {
            tree.remove(&path);
        }
        OverlayAction::MakeDirectory | OverlayAction::ReplaceByDirectory => {
            tree.insert(path, directory(PRIVATE_MODE));
        }
    }
}

#[test]
fn a_checkpoint_holds_the_merged_view() {
    let (mut staged, mut modes) = copied(&source(), &PathMap::new());
    let deleted = vec![b"d/g".to_vec()];
    for raw in &deleted {
        let at = RelPath::parse(raw).unwrap();
        let action = remove_overlay_entry(probe(&staged, &at)).ok().unwrap();
        perform(&mut staged, &at, action);
    }
    apply_deletions(&deleted, &mut modes);
    let upper = tree(&[
        ("", directory(0o700)),
        ("d", directory(0o700)),
        ("d/e", file(0o640, b"new")),
        ("n", directory(0o700)),
        ("p", directory(0o700)),
        ("p/x", file(0o600, b"x")),
    ]);
    let mut upper_modes = PathMap::new();
    upper_modes.insert(RelPath::parse(b"p").unwrap(), 0o040711);
    apply_upper_root(&upper_modes, &mut modes);
    for StampedEntry { path, stamp } in walk(&upper) {
        let action = lay_entry(&path, stamp.kind, probe(&staged, &path)).ok().unwrap();
        perform(&mut staged, &path, action);
        if stamp.kind != SnapshotEntryKind::Directory {
            staged.insert(path.to_bytes(), upper[&path.to_bytes()].clone());
        }
        apply_upper_entry(&upper_modes, &path, stamp.kind, &mut modes);
    }
    let (made, set) = copied(&staged, &modes);
    let expected = tree(&[
        ("", directory(0o755)),
        ("d", directory(0o500)),
        ("d/e", file(0o640, b"new")),
        ("l", link(b"d/g")),
        ("n", directory(PRIVATE_MODE)),
        ("p", directory(0o711)),
        ("p/x", file(0o600, b"x")),
    ]);
    assert_eq!(finished(made, &set), expected);
}
