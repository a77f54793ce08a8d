//! What a checkpoint of a branch holds: the merged view of its layers.

use crate::path;
use crate::path::Names;
use crate::path_map;
use crate::snapshot::capture;
use crate::snapshot::converging;
use crate::snapshot::converging::{Live, Tree};
use crate::snapshot::copying;
use crate::snapshot::inventory::Stamp;
use crate::snapshot::overlay;
use crate::snapshot::overlay::{OverlayAction, OverlayProbe};
use crate::snapshot::{SnapshotEntryKind, PERMISSION_BITS};
use vstd::prelude::*;

verus! {

/// What looking at a path of a tree tells.
pub open spec fn probe_of(tree: Tree, at: Names) -> OverlayProbe {
    if !tree.dom().contains(at) {
        OverlayProbe::Missing
    } else if tree[at].kind is Directory {
        OverlayProbe::Directory
    } else {
        OverlayProbe::OtherKind
    }
}

/// A directory that was just made.
pub open spec fn new_directory() -> Live {
    Live { kind: SnapshotEntryKind::Directory, mode: copying::PRIVATE_MODE, content: Seq::empty() }
}

/// A tree without what lies at or below a path.
pub open spec fn without(tree: Tree, root: Names) -> Tree {
    Map::new(|p: Names| tree.dom().contains(p) && !path::lies_under(p, root), |p: Names| tree[p])
}

/// What an action does to a tree that has the parent of the path.
pub open spec fn overlaid(tree: Tree, at: Names, action: OverlayAction) -> Tree {
    match action {
        OverlayAction::Nothing => tree,
        OverlayAction::RemoveTree => without(tree, at),
        OverlayAction::Unlink => tree.remove(at),
        OverlayAction::MakeDirectory | OverlayAction::ReplaceByDirectory => tree.insert(at, new_directory()),
    }
}

/// A tree once the deletions of a branch were made in it.
pub open spec fn after_deletions(tree: Tree, deleted: Seq<Vec<u8>>) -> Tree
    decreases deleted.len(),
{
    if deleted.len() == 0 {
        tree
    } else {
        let before = after_deletions(tree, deleted.drop_last());
        match overlay::deleted_names(deleted.last()@) {
            Some(at) => overlaid(before, at, overlay::removal_action(probe_of(before, at))->Ok_0),
            None => before,
        }
    }
}

/// A tree once the entries of an upper layer were laid over it.
pub open spec fn with_upper(tree: Tree, upper: Tree, walked: Seq<(Names, Stamp)>, link_mode: u32) -> Tree
    decreases walked.len(),
{
    if walked.len() == 0 {
        tree
    } else {
        let before = with_upper(tree, upper, walked.drop_last(), link_mode);
        let (at, stamp) = walked.last();
        let cleared = overlaid(before, at, overlay::entry_action(at, stamp.kind, probe_of(before, at))->Ok_0);
        if stamp.kind is Directory {
            cleared
        } else {
            cleared.insert(at, copying::copy_of(copying::copy_act(stamp), upper[at], link_mode))
        }
    }
}

/// The modes of directories once the entries of an upper layer were laid.
pub open spec fn modes_with_upper(
    modes: Map<Names, u32>,
    upper_modes: Map<Names, u32>,
    walked: Seq<(Names, Stamp)>,
) -> Map<Names, u32>
    decreases walked.len(),
{
    if walked.len() == 0 {
        modes
    } else {
        let (at, stamp) = walked.last();
        overlay::modes_after_upper(
            modes_with_upper(modes, upper_modes, walked.drop_last()),
            upper_modes,
            at,
            stamp.kind,
        )
    }
}

/// Every entry of a tree but its root stands in a directory.
pub open spec fn is_rooted(tree: Tree) -> bool {
    &&& tree.dom().contains(Names::empty())
    &&& tree[Names::empty()].kind is Directory
    &&& forall|p: Names|
        #[trigger] tree.dom().contains(p) && p.len() > 0 ==> tree.dom().contains(p.drop_last())
            && tree[p.drop_last()].kind is Directory
}

/// Whether a walk saw the directory of its `i`th entry before.
pub open spec fn parent_seen(walked: Seq<(Names, Stamp)>, i: int) -> bool {
    ||| walked[i].0.drop_last() == Names::empty()
    ||| exists|j: int|
        0 <= j < i && (#[trigger] walked[j]).0 == walked[i].0.drop_last() && walked[j].1.kind is Directory
}

/// A walk from the outside in, each path once.
pub open spec fn is_outside_in(walked: Seq<(Names, Stamp)>) -> bool {
    &&& forall|i: int, j: int| 0 <= i < j < walked.len() ==> (#[trigger] walked[i]).0 != (#[trigger] walked[j]).0
    &&& forall|i: int| 0 <= i < walked.len() ==> #[trigger] parent_seen(walked, i)
}

/// All paths of a walk are text.
pub open spec fn are_text(walked: Seq<(Names, Stamp)>) -> bool {
    forall|i: int| 0 <= i < walked.len() ==> vstd::utf8::valid_utf8(path::joined((#[trigger] walked[i]).0))
}

/// All deleted paths name entries below the root.
pub open spec fn name_entries(deleted: Seq<Vec<u8>>) -> bool {
    forall|i: int|
        0 <= i < deleted.len() ==> (overlay::deleted_names((#[trigger] deleted[i])@) matches Some(at) && at.len()
            > 0)
}

/// Whether a file or link of a layer stands at a path or above it.
pub open spec fn is_covered(layer: Tree, p: Names) -> bool {
    exists|q: Names| #[trigger] layer.dom().contains(q) && layer[q].kind !is Directory && path::lies_under(p, q)
}

/// The merged view of a branch: its upper layer over what its deletions leave of the
/// lower one. A directory has the mode that the branch gave it, else the one it has
/// below, else that of a new one.
pub open spec fn merged(lower: Tree, deleted: Seq<Vec<u8>>, upper: Tree, upper_modes: Map<Names, u32>) -> Tree {
    Map::new(
        |p: Names|
            upper.dom().contains(p) || lower.dom().contains(p) && !overlay::is_deleted(p, deleted) && !is_covered(
                upper,
                p,
            ),
        |p: Names|
            if p == Names::empty() {
                Live {
                    mode: if upper_modes.dom().contains(p) {
                        upper_modes[p]
                    } else {
                        lower[p].mode
                    },
                    ..lower[p]
                }
            } else if !upper.dom().contains(p) {
                lower[p]
            } else if upper[p].kind !is Directory {
                upper[p]
            } else {
                Live {
                    mode: if upper_modes.dom().contains(p) {
                        upper_modes[p] & PERMISSION_BITS
                    } else if lower.dom().contains(p) && lower[p].kind is Directory && !overlay::is_deleted(
                        p,
                        deleted,
                    ) {
                        lower[p].mode
                    } else {
                        copying::PRIVATE_MODE
                    },
                    ..upper[p]
                }
            },
    )
}

/// Nothing stands below what is no directory.
pub proof fn lemma_nothing_below(tree: Tree, at: Names, p: Names)
    requires
        is_rooted(tree),
        !tree.dom().contains(at) || tree[at].kind !is Directory,
        path::lies_under(p, at),
        p != at,
    ensures
        !tree.dom().contains(p),
    decreases p.len(),
{
    if tree.dom().contains(p) {
        if p.len() == at.len() {
            assert(p.take(at.len() as int) =~= p);
        }
        let parent = p.drop_last();
        assert(parent.take(at.len() as int) =~= p.take(at.len() as int));
        if parent != at {
            lemma_nothing_below(tree, at, parent);
        }
    }
}

/// A tree keeps its shape without what lies at or below a path.
proof fn lemma_removed(tree: Tree, at: Names)
    requires
        is_rooted(tree),
        at.len() > 0,
    ensures
        is_rooted(without(tree, at)),
        overlaid(tree, at, overlay::removal_action(probe_of(tree, at))->Ok_0) == without(tree, at),
{
    let left = without(tree, at);
    assert forall|p: Names| #[trigger] left.dom().contains(p) && p.len() > 0 implies left.dom().contains(p.drop_last())
        && left[p.drop_last()].kind is Directory by {
        assert(tree.dom().contains(p));
        let parent = p.drop_last();
        if path::lies_under(parent, at) {
            assert(p.take(at.len() as int) =~= parent.take(at.len() as int));
        }
    }
    let done = overlaid(tree, at, overlay::removal_action(probe_of(tree, at))->Ok_0);
    assert(at.take(at.len() as int) =~= at);
    assert forall|p: Names| done.dom().contains(p) <==> left.dom().contains(p) by {
        if tree.dom().contains(p) && path::lies_under(p, at) && p != at {
            if !tree.dom().contains(at) || tree[at].kind !is Directory {
                lemma_nothing_below(tree, at, p);
            }
        }
    }
    assert(done =~= left);
}

proof fn lemma_deletions(tree: Tree, deleted: Seq<Vec<u8>>)
    requires
        is_rooted(tree),
        name_entries(deleted),
    ensures
        is_rooted(after_deletions(tree, deleted)),
        forall|p: Names|
            #[trigger] converging::found(after_deletions(tree, deleted), p) == if overlay::is_deleted(p, deleted) {
                None
            } else {
                converging::found(tree, p)
            },
    decreases deleted.len(),
{
    if deleted.len() > 0 {
        let rest = deleted.drop_last();
        let last = deleted.len() - 1;
        assert forall|i: int| 0 <= i < rest.len() implies (overlay::deleted_names((#[trigger] rest[i])@) matches Some(
            at,
        ) && at.len() > 0) by {
            assert(rest[i] == deleted[i]);
        }
        lemma_deletions(tree, rest);
        assert(deleted[last] == deleted.last());
        let at = overlay::deleted_names(deleted.last()@)->0;
        let before = after_deletions(tree, rest);
        lemma_removed(before, at);
        assert forall|p: Names| #[trigger] converging::found(after_deletions(tree, deleted), p) == if overlay::is_deleted(
            p,
            deleted,
        ) {
            None
        } else {
            converging::found(tree, p)
        } by {
            overlay::lemma_deleted_step(p, deleted, last);
            assert(deleted.take(last) =~= rest);
            assert(deleted.take(last + 1) =~= deleted);
            assert(converging::found(before, p) == if overlay::is_deleted(p, rest) {
                None
            } else {
                converging::found(tree, p)
            });
        }
    } else {
        assert forall|p: Names| !overlay::is_deleted(p, deleted) by {}
    }
}

/// What a walk saw above an entry are directories, and it saw them before.
proof fn lemma_ancestor_seen(walked: Seq<(Names, Stamp)>, i: int, q: Names) -> (j: int)
    requires
        is_outside_in(walked),
        0 <= i < walked.len(),
        path::lies_under(walked[i].0, q),
        walked[i].0 != q,
        q.len() > 0,
    ensures
        0 <= j < i,
        walked[j].0 == q,
        walked[j].1.kind is Directory,
    decreases i,
{
    let p = walked[i].0;
    if p.len() == q.len() {
        assert(p.take(q.len() as int) =~= p);
    }
    let parent = p.drop_last();
    assert(parent_seen(walked, i));
    assert(parent.take(q.len() as int) =~= p.take(q.len() as int));
    assert(parent.len() > 0);
    let j = choose|j: int|
        0 <= j < i && (#[trigger] walked[j]).0 == walked[i].0.drop_last() && walked[j].1.kind is Directory;
    if parent == q {
        j
    } else {
        lemma_ancestor_seen(walked, j, q)
    }
}

/// The first entries of a walk are a walk.
proof fn lemma_shorter_walk(upper: Tree, walked: Seq<(Names, Stamp)>)
    requires
        walked.len() > 0,
        is_outside_in(walked),
        are_text(walked),
        copying::sees_only(upper, walked),
    ensures
        is_outside_in(walked.drop_last()),
        are_text(walked.drop_last()),
        copying::sees_only(upper, walked.drop_last()),
        forall|p: Names|
            #[trigger] path_map::has_path(walked, p) <==> (p == walked.last().0 || path_map::has_path(
                walked.drop_last(),
                p,
            )),
        !path_map::has_path(walked.drop_last(), walked.last().0),
{
    let before = walked.drop_last();
    let last = walked.len() - 1;
    assert forall|i: int| 0 <= i < before.len() implies before[i] == walked[i] by {}
    assert forall|i: int| 0 <= i < before.len() implies #[trigger] parent_seen(before, i) by {
        assert(parent_seen(walked, i));
        if walked[i].0.drop_last() != Names::empty() {
            let j = choose|j: int|
                0 <= j < i && (#[trigger] walked[j]).0 == walked[i].0.drop_last() && walked[j].1.kind is Directory;
            assert(before[j].0 == before[i].0.drop_last());
        }
    }
    assert forall|p: Names| #[trigger] path_map::has_path(walked, p) <==> (p == walked.last().0 || path_map::has_path(
        before,
        p,
    )) by {
        if path_map::has_path(walked, p) && p != walked.last().0 {
            let i = path_map::place_of(walked, p);
            assert(before[i].0 == p);
        }
        if path_map::has_path(before, p) {
            let i = path_map::place_of(before, p);
            assert(walked[i].0 == p);
        }
        assert(walked[last].0 == walked.last().0);
    }
    if path_map::has_path(before, walked.last().0) {
        let i = path_map::place_of(before, walked.last().0);
        assert(walked[i].0 == walked[last].0);
    }
}

/// Whether a walk saw a file or link at a path or above it.
pub open spec fn covers(walked: Seq<(Names, Stamp)>, p: Names) -> bool {
    exists|i: int|
        0 <= i < walked.len() && (#[trigger] walked[i]).1.kind !is Directory && path::lies_under(p, walked[i].0)
}

proof fn lemma_covers_step(walked: Seq<(Names, Stamp)>, p: Names)
    requires
        walked.len() > 0,
    ensures
        covers(walked, p) <==> (covers(walked.drop_last(), p) || walked.last().1.kind !is Directory
            && path::lies_under(p, walked.last().0)),
{
    let before = walked.drop_last();
    let last = walked.len() - 1;
    assert(walked[last] == walked.last());
    if covers(walked, p) {
        let i = choose|i: int|
            0 <= i < walked.len() && (#[trigger] walked[i]).1.kind !is Directory && path::lies_under(p, walked[i].0);
        if i < last {
            assert(before[i] == walked[i]);
        }
    }
    if covers(before, p) {
        let i = choose|i: int|
            0 <= i < before.len() && (#[trigger] before[i]).1.kind !is Directory && path::lies_under(p, before[i].0);
        assert(walked[i] == before[i]);
    }
}

/// What a tree has at a path once an upper layer was laid over it.
spec fn laid_at(tree: Tree, upper: Tree, walked: Seq<(Names, Stamp)>, p: Names) -> Option<Live> {
    if path_map::has_path(walked, p) {
        Some(copying::opened(upper[p]))
    } else if covers(walked, p) {
        None
    } else {
        converging::found(tree, p)
    }
}

/// All directories of a tree are as they were made.
spec fn is_open(tree: Tree) -> bool {
    forall|p: Names| #[trigger] tree.dom().contains(p) && tree[p].kind is Directory ==> tree[p] == new_directory()
}

proof fn lemma_laid(tree: Tree, upper: Tree, walked: Seq<(Names, Stamp)>, link_mode: u32)
    requires
        is_rooted(tree),
        is_open(tree),
        is_outside_in(walked),
        are_text(walked),
        copying::sees_only(upper, walked),
        copying::links_have(upper, link_mode),
    ensures
        is_rooted(with_upper(tree, upper, walked, link_mode)),
        forall|p: Names|
            #[trigger] converging::found(with_upper(tree, upper, walked, link_mode), p) == laid_at(
                tree,
                upper,
                walked,
                p,
            ),
    decreases walked.len(),
{
    if walked.len() > 0 {
        let shorter = walked.drop_last();
        let last = walked.len() - 1;
        let (at, stamp) = walked.last();
        assert(walked[last] == (at, stamp));
        lemma_shorter_walk(upper, walked);
        lemma_laid(tree, upper, shorter, link_mode);
        let before = with_upper(tree, upper, shorter, link_mode);
        let after = with_upper(tree, upper, walked, link_mode);
        assert(at.len() > 0) by {
            if at.len() == 0 {
                assert(at =~= Names::empty());
            }
        }
        assert(vstd::utf8::valid_utf8(path::joined(walked[last].0)));
        lemma_parent_laid(tree, upper, walked, before);
        if stamp.kind is Directory {
            lemma_directory_laid(tree, upper, walked, before, after);
        } else {
            lemma_entry_laid(tree, upper, walked, link_mode, before, after);
        }
    } else {
        assert forall|p: Names| converging::found(tree, p) == laid_at(tree, upper, walked, p) by {}
    }
}

/// The directory of the next entry stands.
proof fn lemma_parent_laid(tree: Tree, upper: Tree, walked: Seq<(Names, Stamp)>, before: Tree)
    requires
        walked.len() > 0,
        walked.last().0.len() > 0,
        is_outside_in(walked),
        copying::sees_only(upper, walked),
        is_rooted(before),
        forall|p: Names|
            #[trigger] converging::found(before, p) == laid_at(tree, upper, walked.drop_last(), p),
    ensures
        before.dom().contains(walked.last().0.drop_last()),
        before[walked.last().0.drop_last()].kind is Directory,
{
    let last = walked.len() - 1;
    let parent = walked[last].0.drop_last();
    assert(parent_seen(walked, last));
    if parent != Names::empty() {
        let j = choose|j: int|
            0 <= j < last && (#[trigger] walked[j]).0 == walked[last].0.drop_last() && walked[j].1.kind is Directory;
        assert(walked.drop_last()[j] == walked[j]);
        assert(path_map::has_path(walked.drop_last(), parent)) by {
            assert(walked.drop_last()[j].0 == parent);
        }
        assert(copying::tells(walked[j].1, upper[walked[j].0]));
        assert(converging::found(before, parent) == laid_at(tree, upper, walked.drop_last(), parent));
    }
}

proof fn lemma_directory_laid(tree: Tree, upper: Tree, walked: Seq<(Names, Stamp)>, before: Tree, after: Tree)
    requires
        walked.len() > 0,
        walked.last().1.kind is Directory,
        walked.last().0.len() > 0,
        is_outside_in(walked),
        are_text(walked),
        copying::sees_only(upper, walked),
        is_open(tree),
        is_rooted(before),
        before.dom().contains(walked.last().0.drop_last()),
        before[walked.last().0.drop_last()].kind is Directory,
        forall|p: Names|
            #[trigger] converging::found(before, p) == laid_at(tree, upper, walked.drop_last(), p),
        after == overlaid(
            before,
            walked.last().0,
            overlay::directory_action(probe_of(before, walked.last().0))->Ok_0,
        ),
    ensures
        is_rooted(after),
        forall|p: Names| #[trigger] converging::found(after, p) == laid_at(tree, upper, walked, p),
{
    let at = walked.last().0;
    let last = walked.len() - 1;
    assert(walked[last] == walked.last());
    lemma_shorter_walk(upper, walked);
    assert(copying::tells(walked[last].1, upper[walked[last].0]));
    assert(copying::opened(upper[at]) =~= new_directory());
    assert(converging::found(before, at) == laid_at(tree, upper, walked.drop_last(), at));
    assert(after[at] == new_directory());
    assert(after =~= before.insert(at, new_directory()));
    assert forall|p: Names| #[trigger] after.dom().contains(p) && p.len() > 0 implies after.dom().contains(
        p.drop_last(),
    ) && after[p.drop_last()].kind is Directory by {
        if p != at {
            assert(before.dom().contains(p));
        }
    }
    assert(Names::empty() != at);
    assert forall|p: Names| #[trigger] converging::found(after, p) == laid_at(tree, upper, walked, p) by {
        lemma_covers_step(walked, p);
        assert(converging::found(before, p) == laid_at(tree, upper, walked.drop_last(), p));
        assert(path_map::has_path(walked, p) <==> (p == at || path_map::has_path(walked.drop_last(), p)));
    }
}

proof fn lemma_entry_laid(
    tree: Tree,
    upper: Tree,
    walked: Seq<(Names, Stamp)>,
    link_mode: u32,
    before: Tree,
    after: Tree,
)
    requires
        walked.len() > 0,
        walked.last().1.kind !is Directory,
        walked.last().0.len() > 0,
        is_outside_in(walked),
        are_text(walked),
        copying::sees_only(upper, walked),
        copying::links_have(upper, link_mode),
        is_rooted(before),
        before.dom().contains(walked.last().0.drop_last()),
        before[walked.last().0.drop_last()].kind is Directory,
        forall|p: Names|
            #[trigger] converging::found(before, p) == laid_at(tree, upper, walked.drop_last(), p),
        after == overlaid(
            before,
            walked.last().0,
            overlay::removal_action(probe_of(before, walked.last().0))->Ok_0,
        ).insert(
            walked.last().0,
            copying::copy_of(copying::copy_act(walked.last().1), upper[walked.last().0], link_mode),
        ),
    ensures
        is_rooted(after),
        forall|p: Names| #[trigger] converging::found(after, p) == laid_at(tree, upper, walked, p),
{
    let (at, stamp) = walked.last();
    let last = walked.len() - 1;
    let shorter = walked.drop_last();
    assert(walked[last] == (at, stamp));
    lemma_shorter_walk(upper, walked);
    assert(copying::tells(walked[last].1, upper[walked[last].0]));
    let made = copying::copy_of(copying::copy_act(stamp), upper[at], link_mode);
    assert(made =~= copying::opened(upper[at]));
    lemma_removed(before, at);
    let left = without(before, at);
    assert(at.take(at.len() as int) =~= at);
    assert(!path::lies_under(at.drop_last(), at));
    assert forall|p: Names| #[trigger] after.dom().contains(p) && p.len() > 0 implies after.dom().contains(
        p.drop_last(),
    ) && after[p.drop_last()].kind is Directory by {
        if p != at {
            assert(left.dom().contains(p));
            if p.drop_last() == at {
                assert(p.take(at.len() as int) =~= at);
            }
        } else {
            assert(at.drop_last().len() < at.len());
        }
    }
    assert(Names::empty() != at);
    assert(!path::lies_under(Names::empty(), at));
    assert forall|p: Names| #[trigger] converging::found(after, p) == laid_at(tree, upper, walked, p) by {
        lemma_covers_step(walked, p);
        assert(converging::found(before, p) == laid_at(tree, upper, shorter, p));
        assert(path_map::has_path(walked, p) <==> (p == at || path_map::has_path(shorter, p)));
        if p != at && path::lies_under(p, at) && path_map::has_path(shorter, p) {
            let i = path_map::place_of(shorter, p);
            assert(walked[i].0 == p);
            let j = lemma_ancestor_seen(walked, i, at);
            assert(walked[j].0 == walked[last].0);
        }
    }
}

/// The mode that directories have once an upper layer was laid.
proof fn lemma_modes_laid(
    modes: Map<Names, u32>,
    upper: Tree,
    upper_modes: Map<Names, u32>,
    walked: Seq<(Names, Stamp)>,
)
    requires
        is_outside_in(walked),
        are_text(walked),
        copying::sees_only(upper, walked),
    ensures
        forall|p: Names|
            #[trigger] modes_with_upper(modes, upper_modes, walked).dom().contains(p) <==> (gives_mode(
                upper,
                upper_modes,
                walked,
                p,
            ) || modes.dom().contains(p) && !covers(walked, p)),
        forall|p: Names|
            #[trigger] modes_with_upper(modes, upper_modes, walked).dom().contains(p) ==> modes_with_upper(
                modes,
                upper_modes,
                walked,
            )[p] == if gives_mode(upper, upper_modes, walked, p) {
                upper_modes[p] & PERMISSION_BITS
            } else {
                modes[p]
            },
    decreases walked.len(),
{
    let all = modes_with_upper(modes, upper_modes, walked);
    if walked.len() > 0 {
        let shorter = walked.drop_last();
        let last = walked.len() - 1;
        let (at, stamp) = walked.last();
        assert(walked[last] == (at, stamp));
        lemma_shorter_walk(upper, walked);
        lemma_modes_laid(modes, upper, upper_modes, shorter);
        assert(copying::tells(walked[last].1, upper[walked[last].0]));
        assert(at.len() > 0) by {
            if at.len() == 0 {
                assert(at =~= Names::empty());
            }
        }
        let before = modes_with_upper(modes, upper_modes, shorter);
        assert forall|p: Names| (#[trigger] all.dom().contains(p) <==> (gives_mode(upper, upper_modes, walked, p)
            || modes.dom().contains(p) && !covers(walked, p))) && (all.dom().contains(p) ==> all[p] == if gives_mode(
            upper,
            upper_modes,
            walked,
            p,
        ) {
            upper_modes[p] & PERMISSION_BITS
        } else {
            modes[p]
        }) by {
            lemma_covers_step(walked, p);
            assert(before.dom().contains(p) <==> (gives_mode(upper, upper_modes, shorter, p)
                || modes.dom().contains(p) && !covers(shorter, p)));
            assert(path_map::has_path(walked, p) <==> (p == at || path_map::has_path(shorter, p)));
            if stamp.kind !is Directory && path::lies_under(p, at) && p != at && path_map::has_path(shorter, p) {
                let i = path_map::place_of(shorter, p);
                assert(walked[i].0 == p);
                let j = lemma_ancestor_seen(walked, i, at);
                assert(walked[j].0 == walked[last].0);
            }
            if p == at {
                assert(at.take(at.len() as int) =~= at);
            }
            if stamp.kind is Directory && p == at && upper_modes.dom().contains(at) {
                assert(gives_mode(upper, upper_modes, walked, p));
            }
        }
    } else {
        assert forall|p: Names| !covers(walked, p) && !gives_mode(upper, upper_modes, walked, p) by {}
    }
}

/// Whether an upper layer gives a directory its mode.
spec fn gives_mode(upper: Tree, upper_modes: Map<Names, u32>, walked: Seq<(Names, Stamp)>, p: Names) -> bool {
    path_map::has_path(walked, p) && upper[p].kind is Directory && upper_modes.dom().contains(p)
}

/// A copy has the shape of what was copied, with its directories as they were made.
proof fn lemma_copy_is_rooted(source: Tree, root_mode: u32, walked: Seq<(Names, Stamp)>, link_mode: u32)
    requires
        is_rooted(source),
        copying::is_walk(source, root_mode, walked),
        copying::links_have(source, link_mode),
    ensures
        is_rooted(copying::copied(source, walked, link_mode)),
        is_open(copying::copied(source, walked, link_mode)),
        forall|p: Names|
            #[trigger] converging::found(copying::copied(source, walked, link_mode), p)
                == if source.dom().contains(p) {
                Some(copying::opened(source[p]))
            } else {
                None
            },
{
    let copy = copying::copied(source, walked, link_mode);
    copying::lemma_copied(source, walked, link_mode);
    assert forall|p: Names| #[trigger] converging::found(copy, p) == if source.dom().contains(p) {
        Some(copying::opened(source[p]))
    } else {
        None
    } by {
        if path_map::has_path(walked, p) {
            assert(walked[path_map::place_of(walked, p)].0 == p);
        }
        if p == Names::empty() {
            assert(copying::opened(source[p]) =~= copy[p]);
        }
    }
    assert forall|p: Names| #[trigger] copy.dom().contains(p) implies (copy[p].kind is Directory ==> copy[p]
        == new_directory()) && (p.len() > 0 ==> copy.dom().contains(p.drop_last()) && copy[p.drop_last()].kind is Directory) by {
        assert(converging::found(copy, p) is Some);
        if p != Names::empty() {
            let i = path_map::place_of(walked, p);
            assert(walked[i].0 == p);
            assert(copying::tells(walked[i].1, source[p]));
        }
        if copy[p].kind is Directory {
            assert(copy[p] =~= new_directory());
        }
        if p.len() > 0 {
            assert(source.dom().contains(p));
            assert(converging::found(copy, p.drop_last()) is Some);
        }
    }
    assert(converging::found(copy, Names::empty()) is Some);
}

/// What a walk covers is what the layer covers.
proof fn lemma_covers_alike(upper: Tree, root_mode: u32, walked: Seq<(Names, Stamp)>, p: Names)
    requires
        copying::is_walk(upper, root_mode, walked),
    ensures
        covers(walked, p) == is_covered(upper, p),
{
    if covers(walked, p) {
        let i = choose|i: int|
            0 <= i < walked.len() && (#[trigger] walked[i]).1.kind !is Directory && path::lies_under(p, walked[i].0);
        assert(upper.dom().contains(walked[i].0));
    }
    if is_covered(upper, p) {
        let q = choose|q: Names| #[trigger]
            upper.dom().contains(q) && upper[q].kind !is Directory && path::lies_under(p, q);
        let i = path_map::place_of(walked, q);
        assert(walked[i].0 == q);
    }
}

/// A checkpoint holds the merged view of a branch: copying the lower layer, making the
/// deletions in the copy and laying the upper layer over it shows, with the modes that
/// are kept along, what the branch showed.
pub proof fn law_checkpoints_hold_the_merged_view(
    source: Tree,
    kept: Map<Names, u32>,
    root_mode: u32,
    walked: Seq<(Names, Stamp)>,
    deleted: Seq<Vec<u8>>,
    upper: Tree,
    upper_root_mode: u32,
    upper_walk: Seq<(Names, Stamp)>,
    upper_modes: Map<Names, u32>,
    link_mode: u32,
)
    requires
        is_rooted(source),
        copying::is_walk(source, root_mode, walked),
        copying::links_have(source, link_mode),
        name_entries(deleted),
        copying::is_walk(upper, upper_root_mode, upper_walk),
        copying::links_have(upper, link_mode),
        is_outside_in(upper_walk),
        are_text(upper_walk),
    ensures
        copying::shown(
            with_upper(
                after_deletions(copying::copied(source, walked, link_mode), deleted),
                upper,
                upper_walk,
                link_mode,
            ),
            modes_with_upper(
                overlay::modes_after_root(
                    overlay::modes_left(capture::copied_modes(kept, root_mode, walked), deleted),
                    upper_modes,
                ),
                upper_modes,
                upper_walk,
            ),
        ) == merged(copying::shown(source, kept), deleted, upper, upper_modes),
{
    let copy = copying::copied(source, walked, link_mode);
    let base = after_deletions(copy, deleted);
    let tree = with_upper(base, upper, upper_walk, link_mode);
    let told = capture::copied_modes(kept, root_mode, walked);
    let left = overlay::modes_left(told, deleted);
    let start = overlay::modes_after_root(left, upper_modes);
    let modes = modes_with_upper(start, upper_modes, upper_walk);
    lemma_copy_is_rooted(source, root_mode, walked, link_mode);
    lemma_deletions(copy, deleted);
    assert(is_open(base)) by {
        assert forall|p: Names| #[trigger] base.dom().contains(p) && base[p].kind is Directory implies base[p]
            == new_directory() by {
            assert(converging::found(base, p) is Some);
            assert(copy.dom().contains(p) && copy[p] == base[p]);
        }
    }
    lemma_laid(base, upper, upper_walk, link_mode);
    copying::lemma_copied_modes(source, kept, root_mode, walked);
    lemma_modes_laid(start, upper, upper_modes, upper_walk);
    assert(!overlay::is_deleted(Names::empty(), deleted));
    let lower = copying::shown(source, kept);
    let (made, wanted) = (copying::shown(tree, modes), merged(lower, deleted, upper, upper_modes));
    assert forall|p: Names|
        #![trigger made.dom().contains(p)]
        #![trigger wanted.dom().contains(p)]
        (made.dom().contains(p) <==> wanted.dom().contains(p)) && (made.dom().contains(p) ==> made[p]
            == wanted[p]) by {
        lemma_covers_alike(upper, upper_root_mode, upper_walk, p);
        assert(converging::found(tree, p) == laid_at(base, upper, upper_walk, p));
        assert(converging::found(base, p) == if overlay::is_deleted(p, deleted) {
            None
        } else {
            converging::found(copy, p)
        });
        assert(converging::found(copy, p) == if source.dom().contains(p) {
            Some(copying::opened(source[p]))
        } else {
            None
        });
        lemma_shown_alike(
            source,
            kept,
            root_mode,
            walked,
            deleted,
            upper,
            upper_root_mode,
            upper_walk,
            upper_modes,
            tree,
            modes,
            p,
        );
    }
    assert(made =~= wanted);
}

/// At one path a checkpoint shows what the branch showed.
proof fn lemma_shown_alike(
    source: Tree,
    kept: Map<Names, u32>,
    root_mode: u32,
    walked: Seq<(Names, Stamp)>,
    deleted: Seq<Vec<u8>>,
    upper: Tree,
    upper_root_mode: u32,
    upper_walk: Seq<(Names, Stamp)>,
    upper_modes: Map<Names, u32>,
    tree: Tree,
    modes: Map<Names, u32>,
    p: Names,
)
    requires
        copying::is_walk(source, root_mode, walked),
        copying::is_walk(upper, upper_root_mode, upper_walk),
        is_outside_in(upper_walk),
        are_text(upper_walk),
        name_entries(deleted),
        covers(upper_walk, p) == is_covered(upper, p),
        converging::found(tree, p) == if path_map::has_path(upper_walk, p) {
            Some(copying::opened(upper[p]))
        } else if covers(upper_walk, p) || overlay::is_deleted(p, deleted) || !source.dom().contains(p) {
            None
        } else {
            Some(copying::opened(source[p]))
        },
        modes == modes_with_upper(
            overlay::modes_after_root(
                overlay::modes_left(capture::copied_modes(kept, root_mode, walked), deleted),
                upper_modes,
            ),
            upper_modes,
            upper_walk,
        ),
    ensures
        copying::shown(tree, modes).dom().contains(p) <==> merged(
            copying::shown(source, kept),
            deleted,
            upper,
            upper_modes,
        ).dom().contains(p),
        copying::shown(tree, modes).dom().contains(p) ==> copying::shown(tree, modes)[p] == merged(
            copying::shown(source, kept),
            deleted,
            upper,
            upper_modes,
        )[p],
{
    let told = capture::copied_modes(kept, root_mode, walked);
    let start = overlay::modes_after_root(overlay::modes_left(told, deleted), upper_modes);
    let lower = copying::shown(source, kept);
    let (made, wanted) = (copying::shown(tree, modes), merged(lower, deleted, upper, upper_modes));
    copying::lemma_copied_modes(source, kept, root_mode, walked);
    lemma_modes_laid(start, upper, upper_modes, upper_walk);
    assert(0o700u32 & 0o7777u32 == 0o700u32) by (bit_vector);
    if path_map::has_path(upper_walk, p) {
        let i = path_map::place_of(upper_walk, p);
        assert(upper_walk[i].0 == p);
        assert(copying::tells(upper_walk[i].1, upper[p]));
        copying::lemma_masked_once(upper_walk[i].1.mode);
        if covers(upper_walk, p) && upper[p].kind is Directory {
            let j = choose|j: int|
                0 <= j < upper_walk.len() && (#[trigger] upper_walk[j]).1.kind !is Directory && path::lies_under(
                    p,
                    upper_walk[j].0,
                );
            let q = upper_walk[j].0;
            assert(q.len() > 0) by {
                if q.len() == 0 {
                    assert(q =~= Names::empty());
                }
            }
            if p != q {
                let k = lemma_ancestor_seen(upper_walk, i, q);
                assert(upper_walk[k].0 == upper_walk[j].0);
            }
        }
    }
    if path_map::has_path(walked, p) {
        let i = path_map::place_of(walked, p);
        assert(walked[i].0 == p);
        assert(copying::tells(walked[i].1, source[p]));
        copying::lemma_masked_once(walked[i].1.mode);
    }
    if p == Names::empty() {
        copying::lemma_masked_once(root_mode);
        lemma_root_stays(upper, upper_walk, deleted);
    }
    if made.dom().contains(p) {
        assert(made[p] =~= wanted[p]);
    }
}

/// Neither deletions nor an upper layer take the root away.
proof fn lemma_root_stays(upper: Tree, walked: Seq<(Names, Stamp)>, deleted: Seq<Vec<u8>>)
    requires
        copying::sees_only(upper, walked),
        name_entries(deleted),
    ensures
        !covers(walked, Names::empty()),
        !overlay::is_deleted(Names::empty(), deleted),
        !path_map::has_path(walked, Names::empty()),
{
    assert forall|i: int| 0 <= i < walked.len() implies !path::lies_under(Names::empty(), (#[trigger] walked[i]).0) by {
        if walked[i].0.len() == 0 {
            assert(walked[i].0 =~= Names::empty());
        }
    }
}

/// In a merged view the upper layer comes first: what it has is there as it has it, but for
/// the modes of directories; what is deleted and not made anew is gone; nothing of the
/// lower layer lies below what is no directory above; and everything else is as below.
pub proof fn law_upper_layers_come_first(
    lower: Tree,
    deleted: Seq<Vec<u8>>,
    upper: Tree,
    upper_modes: Map<Names, u32>,
    p: Names,
)
    requires
        p.len() > 0,
    ensures
        ({
            let view = merged(lower, deleted, upper, upper_modes);
            let is_gone = exists|i: int|
                0 <= i < deleted.len() && (overlay::deleted_names((#[trigger] deleted[i])@) matches Some(root)
                    && path::lies_under(p, root));
            let is_hidden = exists|q: Names| #[trigger]
                upper.dom().contains(q) && upper[q].kind !is Directory && path::lies_under(p, q);
            &&& upper.dom().contains(p) ==> view.dom().contains(p) && view[p].kind == upper[p].kind && view[p].content
                == upper[p].content
            &&& upper.dom().contains(p) && upper[p].kind !is Directory ==> view[p] == upper[p]
            &&& upper.dom().contains(p) && upper[p].kind is Directory && upper_modes.dom().contains(p) ==> view[p].mode
                == upper_modes[p] & 0o7777
            &&& upper.dom().contains(p) && upper[p].kind is Directory && !upper_modes.dom().contains(p)
                && lower.dom().contains(p) && lower[p].kind is Directory && !is_gone ==> view[p].mode == lower[p].mode
            &&& !upper.dom().contains(p) && (is_gone || is_hidden) ==> !view.dom().contains(p)
            &&& !upper.dom().contains(p) && !is_gone && !is_hidden ==> converging::found(view, p) == converging::found(
                lower,
                p,
            )
        }),
{
    let view = merged(lower, deleted, upper, upper_modes);
    let is_gone = exists|i: int|
        0 <= i < deleted.len() && (overlay::deleted_names((#[trigger] deleted[i])@) matches Some(root)
            && path::lies_under(p, root));
    assert(is_gone == overlay::is_deleted(p, deleted));
    let is_hidden = exists|q: Names| #[trigger]
        upper.dom().contains(q) && upper[q].kind !is Directory && path::lies_under(p, q);
    assert(is_hidden == is_covered(upper, p));
}

} // verus!
