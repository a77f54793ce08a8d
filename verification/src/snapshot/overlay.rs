//! Laying a branch over a copied tree.

use crate::error::{PathFault, SnapshotError, Step};
use crate::path;
use crate::path::{leads_with_dot, Names, RelPath};
use crate::path_map::PathMap;
use crate::snapshot::inventory::permission_mode;
use crate::snapshot::{SnapshotEntryKind, PERMISSION_BITS};
use crate::text::is_text;
use vstd::prelude::*;

verus! {

/// What is at a path of the tree that a branch is laid over.
#[derive(Clone, Copy, Debug, PartialEq, Eq, Structural)]
pub enum OverlayProbe {
    Missing,
    Directory,
    OtherKind,
    Failed,
}

/// What laying an entry over a path does first.
#[derive(Clone, Copy, Debug, PartialEq, Eq, Structural)]
pub enum OverlayAction {
    /// Nothing is in the way.
    Nothing,
    /// A whole directory goes.
    RemoveTree,
    /// One entry goes.
    Unlink,
    /// A directory is made, with its parents.
    MakeDirectory,
    /// One entry goes, then a directory is made, with its parents.
    ReplaceByDirectory,
}

/// How a directory of the upper layer comes to be.
pub open spec fn directory_action(probe: OverlayProbe) -> Result<OverlayAction, SnapshotError> {
    match probe {
        OverlayProbe::Directory => Ok(OverlayAction::Nothing),
        OverlayProbe::OtherKind => Ok(OverlayAction::ReplaceByDirectory),
        OverlayProbe::Missing => Ok(OverlayAction::MakeDirectory),
        OverlayProbe::Failed => Err(SnapshotError::Operation(Step::InspectEntry)),
    }
}

/// What has to go before a file or link of the upper layer, or for a deletion.
pub open spec fn removal_action(probe: OverlayProbe) -> Result<OverlayAction, SnapshotError> {
    match probe {
        OverlayProbe::Directory => Ok(OverlayAction::RemoveTree),
        OverlayProbe::OtherKind => Ok(OverlayAction::Unlink),
        OverlayProbe::Missing => Ok(OverlayAction::Nothing),
        OverlayProbe::Failed => Err(SnapshotError::Operation(Step::InspectEntry)),
    }
}

/// What laying an entry of the upper layer does first. Its path has to be text.
pub open spec fn entry_action(at: Names, kind: SnapshotEntryKind, probe: OverlayProbe) -> Result<
    OverlayAction,
    SnapshotError,
> {
    if !vstd::utf8::valid_utf8(path::joined(at)) {
        Err(SnapshotError::InvalidPath(PathFault::NotText))
    } else if kind is Directory {
        directory_action(probe)
    } else {
        removal_action(probe)
    }
}

/// Decides how a directory of the upper layer comes to be.
pub fn ensure_overlay_directory(probe: OverlayProbe) -> (result: Result<OverlayAction, SnapshotError>)
    ensures
        result == directory_action(probe),
{
    match probe {
        OverlayProbe::Directory => Ok(OverlayAction::Nothing),
        OverlayProbe::OtherKind => Ok(OverlayAction::ReplaceByDirectory),
        OverlayProbe::Missing => Ok(OverlayAction::MakeDirectory),
        OverlayProbe::Failed => Err(SnapshotError::Operation(Step::InspectEntry)),
    }
}

/// Decides what has to go before a file or link of the upper layer, or for a
/// deletion.
pub fn remove_overlay_entry(probe: OverlayProbe) -> (result: Result<OverlayAction, SnapshotError>)
    ensures
        result == removal_action(probe),
{
    match probe {
        OverlayProbe::Directory => Ok(OverlayAction::RemoveTree),
        OverlayProbe::OtherKind => Ok(OverlayAction::Unlink),
        OverlayProbe::Missing => Ok(OverlayAction::Nothing),
        OverlayProbe::Failed => Err(SnapshotError::Operation(Step::InspectEntry)),
    }
}

/// Decides what laying an entry of the upper layer does first.
pub fn lay_entry(at: &RelPath, kind: SnapshotEntryKind, probe: OverlayProbe) -> (result: Result<
    OverlayAction,
    SnapshotError,
>)
    ensures
        result == entry_action(at@, kind, probe),
{
    let bytes = at.to_bytes();
    if !is_text(bytes.as_slice()) {
        return Err(SnapshotError::InvalidPath(PathFault::NotText));
    }
    if kind == SnapshotEntryKind::Directory {
        ensure_overlay_directory(probe)
    } else {
        remove_overlay_entry(probe)
    }
}

/// The names of a deleted path, where it names an entry below the root.
pub open spec fn deleted_names(deleted: Seq<u8>) -> Option<Names> {
    if path::pieces(deleted)[0] == path::dot() {
        None
    } else {
        path::relative_names(deleted)
    }
}

/// The modes that stay after some deletions: those of paths that lie at or
/// below no deleted path.
pub open spec fn modes_left(modes: Map<Names, u32>, deleted: Seq<Vec<u8>>) -> Map<Names, u32> {
    Map::new(|p: Names| modes.dom().contains(p) && !is_deleted(p, deleted), |p: Names| modes[p])
}

/// The modes of paths that do not lie at or below a root.
pub open spec fn modes_outside(modes: Map<Names, u32>, root: Names) -> Map<Names, u32> {
    Map::new(|p: Names| modes.dom().contains(p) && !path::lies_under(p, root), |p: Names| modes[p])
}

/// Whether a path lies at or below a deleted path.
pub open spec fn is_deleted(p: Names, deleted: Seq<Vec<u8>>) -> bool {
    exists|i: int|
        0 <= i < deleted.len() && (deleted_names((#[trigger] deleted[i])@) matches Some(root)
            && path::lies_under(p, root))
}

/// Forgets the modes of directories that deletions took away.
pub fn apply_deletions(deleted: &Vec<Vec<u8>>, modes: &mut PathMap<u32>)
    requires
        old(modes).wf(),
    ensures
        final(modes).wf(),
        final(modes)@ == modes_left(old(modes)@, deleted@),
{
    let ghost start = modes@;
    let mut i: usize = 0;
    proof {
        assert(modes@ =~= modes_left(start, deleted@.take(0)));
    }
    while i < deleted.len()
        invariant
            i <= deleted@.len(),
            modes.wf(),
            modes@ == modes_left(start, deleted@.take(i as int)),
        decreases deleted@.len() - i,
    {
        let ghost before = modes@;
        let raw = deleted[i].as_slice();
        if !leads_with_dot(raw) {
            match RelPath::parse(raw) {
                Some(root) => {
                    modes.remove_under(&root);
                },
                None => {},
            }
        }
        proof {
            assert forall|p: Names|
                #[trigger] is_deleted(p, deleted@.take(i as int + 1)) <==> (is_deleted(
                    p,
                    deleted@.take(i as int),
                ) || (deleted_names(deleted@[i as int]@) matches Some(root) && path::lies_under(p, root))) by {
                lemma_deleted_step(p, deleted@, i as int);
            }
            assert(modes@ =~= modes_left(start, deleted@.take(i as int + 1)));
        }
        i = i + 1;
    }
    proof {
        assert(deleted@.take(i as int) =~= deleted@);
    }
}

pub proof fn lemma_deleted_step(p: Names, deleted: Seq<Vec<u8>>, i: int)
    requires
        0 <= i < deleted.len(),
    ensures
        is_deleted(p, deleted.take(i + 1)) <==> (is_deleted(p, deleted.take(i)) || (deleted_names(
            deleted[i]@,
        ) matches Some(root) && path::lies_under(p, root))),
{
    if is_deleted(p, deleted.take(i + 1)) {
        let k = choose|k: int|
            0 <= k < i + 1 && (deleted_names((#[trigger] deleted.take(i + 1)[k])@) matches Some(root)
                && path::lies_under(p, root));
        if k < i {
            assert(deleted.take(i)[k] == deleted.take(i + 1)[k]);
        }
    }
    if is_deleted(p, deleted.take(i)) {
        let k = choose|k: int|
            0 <= k < i && (deleted_names((#[trigger] deleted.take(i)[k])@) matches Some(root)
                && path::lies_under(p, root));
        assert(deleted.take(i + 1)[k] == deleted.take(i)[k]);
    }
    assert(deleted.take(i + 1)[i] == deleted[i]);
}

/// The modes after the root of an upper layer: the branch may have changed the
/// root's mode.
pub open spec fn modes_after_root(modes: Map<Names, u32>, upper_modes: Map<Names, u32>) -> Map<Names, u32> {
    if upper_modes.dom().contains(Names::empty()) {
        modes.insert(Names::empty(), upper_modes[Names::empty()])
    } else {
        modes
    }
}

/// Records what the root of an upper layer does to the modes of directories.
pub fn apply_upper_root(upper_modes: &PathMap<u32>, modes: &mut PathMap<u32>)
    requires
        upper_modes.wf(),
        old(modes).wf(),
    ensures
        final(modes).wf(),
        final(modes)@ == modes_after_root(old(modes)@, upper_modes@),
{
    let root = RelPath::root();
    match upper_modes.get(&root) {
        Some(mode) => {
            modes.insert(root, *mode);
        },
        None => {},
    }
}

/// The modes after one entry of an upper layer.
pub open spec fn modes_after_upper(
    modes: Map<Names, u32>,
    upper_modes: Map<Names, u32>,
    at: Names,
    kind: SnapshotEntryKind,
) -> Map<Names, u32> {
    if kind !is Directory {
        modes_outside(modes, at)
    } else if upper_modes.dom().contains(at) {
        modes.insert(at, upper_modes[at] & PERMISSION_BITS)
    } else {
        modes
    }
}

/// Records what one entry of an upper layer does to the modes of directories:
/// a directory may bring its own, anything else takes away those below it.
pub fn apply_upper_entry(
    upper_modes: &PathMap<u32>,
    at: &RelPath,
    kind: SnapshotEntryKind,
    modes: &mut PathMap<u32>,
)
    requires
        upper_modes.wf(),
        old(modes).wf(),
    ensures
        final(modes).wf(),
        final(modes)@ == modes_after_upper(old(modes)@, upper_modes@, at@, kind),
{
    if kind == SnapshotEntryKind::Directory {
        match upper_modes.get(at) {
            Some(mode) => {
                let key = at.copy();
                modes.insert(key, permission_mode(*mode));
            },
            None => {},
        }
    } else {
        modes.remove_under(at);
        proof {
            assert(modes@ =~= modes_outside(old(modes)@, at@));
        }
    }
}

/// What is laid over a tree finds its place cleared: a directory finds a directory or takes
/// the place of what is there, anything else finds nothing there, and a place that cannot
/// be looked at is told.
pub proof fn law_places_are_cleared(at: Names, kind: SnapshotEntryKind, probe: OverlayProbe)
    requires
        vstd::utf8::valid_utf8(path::joined(at)),
    ensures
        probe is Failed ==> entry_action(at, kind, probe) is Err,
        probe is Missing ==> entry_action(at, kind, probe) == Ok::<OverlayAction, SnapshotError>(
            if kind is Directory {
                OverlayAction::MakeDirectory
            } else {
                OverlayAction::Nothing
            },
        ),
        probe is Directory ==> entry_action(at, kind, probe) == Ok::<OverlayAction, SnapshotError>(
            if kind is Directory {
                OverlayAction::Nothing
            } else {
                OverlayAction::RemoveTree
            },
        ),
        probe is OtherKind ==> entry_action(at, kind, probe) == Ok::<OverlayAction, SnapshotError>(
            if kind is Directory {
                OverlayAction::ReplaceByDirectory
            } else {
                OverlayAction::Unlink
            },
        ),
        removal_action(probe) == entry_action(at, SnapshotEntryKind::File, probe),
        directory_action(probe) == entry_action(at, SnapshotEntryKind::Directory, probe),
{
}

/// The modes of directories follow the tree: those at or below what was deleted, or covered
/// by something that is no directory, go; a directory of the upper layer has the mode that
/// is kept for it there; all others stay.
pub proof fn law_modes_follow_the_tree(
    modes: Map<Names, u32>,
    upper_modes: Map<Names, u32>,
    deleted: Seq<Vec<u8>>,
    at: Names,
    kind: SnapshotEntryKind,
    p: Names,
)
    ensures
        ({
            let left = modes_left(modes, deleted);
            let after = modes_after_upper(modes, upper_modes, at, kind);
            &&& left.dom().contains(p) <==> modes.dom().contains(p) && !exists|i: int|
                0 <= i < deleted.len() && (deleted_names((#[trigger] deleted[i])@) matches Some(root)
                    && path::lies_under(p, root))
            &&& left.dom().contains(p) ==> left[p] == modes[p]
            &&& !(kind is Directory) ==> (after.dom().contains(p) <==> modes.dom().contains(p) && !path::lies_under(p, at))
            &&& kind is Directory && upper_modes.dom().contains(at) ==> after.dom().contains(at) && after[at]
                == upper_modes[at] & 0o7777
            &&& kind is Directory && p != at ==> (after.dom().contains(p) <==> modes.dom().contains(p))
            &&& after.dom().contains(p) && p != at ==> after[p] == modes[p]
        }),
{
}

} // verus!
