//! Indexing a branch from the index below it gives the index of the merged view.

use crate::path;
use crate::path::Names;
use crate::snapshot::assembly;
use crate::snapshot::assembly::UpperNode;
use crate::snapshot::converging;
use crate::snapshot::index;
use crate::snapshot::index::{IndexNode, SnapshotIndex};
use crate::snapshot::layering;
use crate::snapshot::overlay;
use crate::snapshot::SnapshotEntryKind;
use vstd::prelude::*;

verus! {

/// The node of what stands at a path; that of a directory without children.
pub open spec fn node_of(live: converging::Live) -> IndexNode {
    match live.kind {
        SnapshotEntryKind::File => assembly::file_node(live.mode, live.content.len() as u64, live.content),
        SnapshotEntryKind::Symlink => assembly::symlink_node(live.mode, live.content),
        SnapshotEntryKind::Directory => IndexNode {
            kind: SnapshotEntryKind::Directory,
            mode: live.mode,
            len: 0,
            hash: Seq::new(32, |i: int| 0u8),
            subtree_entries: 1,
            content_bytes: 0,
        },
    }
}

/// Whether a node is that of what stands at a path, up to what the children of a
/// directory determine.
pub open spec fn is_node_of(at: Names, node: IndexNode, live: converging::Live) -> bool {
    index::same_entry((at, node), (at, node_of(live)))
}

/// Whether a map indexes a tree, up to what the children of directories determine.
pub open spec fn indexes(map: Map<Names, IndexNode>, tree: converging::Tree) -> bool {
    &&& map.dom() == tree.dom()
    &&& forall|p: Names| #[trigger] map.dom().contains(p) ==> is_node_of(p, map[p], tree[p])
}

/// Whether a walk of an upper layer saw the directory of its `i`th entry before.
pub open spec fn parent_walked(walk: Seq<UpperNode>, i: int) -> bool {
    ||| walk[i].path.drop_last() == Names::empty()
    ||| exists|j: int|
        0 <= j < i && (#[trigger] walk[j]).path == walk[i].path.drop_last() && walk[j].kind is Directory
}

/// Whether a walk came by a path.
pub open spec fn came_by(walk: Seq<UpperNode>, p: Names) -> bool {
    exists|i: int| 0 <= i < walk.len() && (#[trigger] walk[i]).path == p
}

/// Whether a walk came by a file or link at a path or above it.
pub open spec fn walk_covers(walk: Seq<UpperNode>, p: Names) -> bool {
    exists|i: int|
        0 <= i < walk.len() && (#[trigger] walk[i]).kind !is Directory && path::lies_under(p, walk[i].path)
}

/// A walk of an upper layer, from the outside in: each path but the root once, with the
/// node of what the merged view has there.
pub open spec fn is_upper_walk(walk: Seq<UpperNode>, upper: converging::Tree, whole: converging::Tree) -> bool {
    &&& forall|i: int, j: int| 0 <= i < j < walk.len() ==> (#[trigger] walk[i]).path != (#[trigger] walk[j]).path
    &&& forall|i: int| 0 <= i < walk.len() ==> #[trigger] parent_walked(walk, i)
    &&& forall|i: int| 0 <= i < walk.len() ==> is_walked(#[trigger] walk[i], upper, whole)
    &&& forall|p: Names| #[trigger] upper.dom().contains(p) && p.len() > 0 ==> came_by(walk, p)
}

/// Whether an entry of a walk tells what an upper layer and the merged view have.
pub open spec fn is_walked(entry: UpperNode, upper: converging::Tree, whole: converging::Tree) -> bool {
    &&& entry.path.len() > 0
    &&& upper.dom().contains(entry.path)
    &&& entry.kind == upper[entry.path].kind
    &&& is_node_of(entry.path, entry.node, whole[entry.path])
}

/// What a walk saw above an entry are directories, and it saw them before.
proof fn lemma_ancestor_walked(walk: Seq<UpperNode>, i: int, q: Names) -> (j: int)
    requires
        forall|k: int| 0 <= k < walk.len() ==> #[trigger] parent_walked(walk, k),
        0 <= i < walk.len(),
        path::lies_under(walk[i].path, q),
        walk[i].path != q,
        q.len() > 0,
    ensures
        0 <= j < i,
        walk[j].path == q,
        walk[j].kind is Directory,
    decreases i,
{
    let p = walk[i].path;
    if p.len() == q.len() {
        assert(p.take(q.len() as int) =~= p);
    }
    let parent = p.drop_last();
    assert(parent_walked(walk, i));
    assert(parent.take(q.len() as int) =~= p.take(q.len() as int));
    assert(parent.len() > 0);
    let j = choose|j: int|
        0 <= j < i && (#[trigger] walk[j]).path == walk[i].path.drop_last() && walk[j].kind is Directory;
    if parent == q {
        j
    } else {
        lemma_ancestor_walked(walk, j, q)
    }
}

proof fn lemma_one_more(walk: Seq<UpperNode>, k: int, p: Names)
    requires
        0 <= k < walk.len(),
    ensures
        came_by(walk.take(k + 1), p) <==> came_by(walk.take(k), p) || walk[k].path == p,
        walk_covers(walk.take(k + 1), p) <==> walk_covers(walk.take(k), p) || (walk[k].kind !is Directory
            && path::lies_under(p, walk[k].path)),
{
    let (few, many) = (walk.take(k), walk.take(k + 1));
    assert(many[k] == walk[k]);
    assert forall|i: int| 0 <= i < k implies few[i] == #[trigger] many[i] by {}
    if came_by(few, p) {
        let i = choose|i: int| 0 <= i < few.len() && (#[trigger] few[i]).path == p;
        assert(many[i].path == p);
    }
    if came_by(many, p) && walk[k].path != p {
        let i = choose|i: int| 0 <= i < many.len() && (#[trigger] many[i]).path == p;
        assert(few[i].path == p);
    }
    if walk_covers(few, p) {
        let i = choose|i: int|
            0 <= i < few.len() && (#[trigger] few[i]).kind !is Directory && path::lies_under(p, few[i].path);
        assert(many[i].kind !is Directory && path::lies_under(p, many[i].path));
    }
    if walk_covers(many, p) {
        let i = choose|i: int|
            0 <= i < many.len() && (#[trigger] many[i]).kind !is Directory && path::lies_under(p, many[i].path);
        if i < k {
            assert(few[i].kind !is Directory && path::lies_under(p, few[i].path));
        }
    }
}

/// What an index has at a path after the first entries of a walk.
pub open spec fn is_laid(
    map: Map<Names, IndexNode>,
    left: Map<Names, IndexNode>,
    walk: Seq<UpperNode>,
    whole: converging::Tree,
    p: Names,
) -> bool {
    &&& map.dom().contains(p) <==> came_by(walk, p) || (left.dom().contains(p) && !walk_covers(walk, p))
    &&& came_by(walk, p) ==> is_node_of(p, map[p], whole[p])
    &&& map.dom().contains(p) && !came_by(walk, p) ==> map[p] == left[p]
}

/// Nothing is indexed below what is no directory.
pub open spec fn is_shaped(left: Map<Names, IndexNode>) -> bool {
    forall|p: Names, q: Names|
        #[trigger] left.dom().contains(p) && #[trigger] left.dom().contains(q) && path::lies_under(p, q) && p != q
            ==> left[q].kind is Directory
}

/// What a directory that a branch left alone shows in the merged view.
pub open spec fn keeps_directories(
    left: Map<Names, IndexNode>,
    changed: Map<Names, u32>,
    upper: converging::Tree,
    whole: converging::Tree,
) -> bool {
    forall|p: Names|
        #[trigger] left.dom().contains(p) && p.len() > 0 && left[p].kind is Directory && upper.dom().contains(p)
            && upper[p].kind is Directory && !changed.dom().contains(p) ==> is_node_of(p, left[p], whole[p])
}

proof fn lemma_laid(
    left: Map<Names, IndexNode>,
    changed: Map<Names, u32>,
    walk: Seq<UpperNode>,
    upper: converging::Tree,
    whole: converging::Tree,
    k: int,
)
    requires
        is_upper_walk(walk, upper, whole),
        is_shaped(left),
        keeps_directories(left, changed, upper, whole),
        0 <= k <= walk.len(),
    ensures
        forall|p: Names|
            #[trigger] is_laid(assembly::with_upper_layer(left, changed, walk.take(k)), left, walk.take(k), whole, p),
    decreases k,
{
    let map = assembly::with_upper_layer(left, changed, walk.take(k));
    if k == 0 {
        assert(walk.take(0) =~= Seq::<UpperNode>::empty());
        assert forall|p: Names| #[trigger] is_laid(map, left, walk.take(k), whole, p) by {}
    } else {
        let few = walk.take(k - 1);
        let before = assembly::with_upper_layer(left, changed, few);
        let entry = walk[k - 1];
        let at = entry.path;
        lemma_laid(left, changed, walk, upper, whole, k - 1);
        assert(walk.take(k).drop_last() =~= few);
        assert(walk.take(k).last() == entry);
        assert(map == assembly::with_upper(before, changed, entry));
        assert(is_walked(entry, upper, whole));
        assert(!came_by(few, at)) by {
            if came_by(few, at) {
                let j = choose|j: int| 0 <= j < few.len() && (#[trigger] few[j]).path == at;
                assert(walk[j].path == walk[k - 1].path);
            }
        }
        assert(is_laid(before, left, few, whole, at));
        assert forall|p: Names| #[trigger] is_laid(map, left, walk.take(k), whole, p) by {
            assert(is_laid(before, left, few, whole, p));
            lemma_one_more(walk, k - 1, p);
            lemma_entry_laid(left, changed, walk, upper, whole, k, p);
        }
    }
}

/// One more entry of a walk comes in.
proof fn lemma_entry_laid(
    left: Map<Names, IndexNode>,
    changed: Map<Names, u32>,
    walk: Seq<UpperNode>,
    upper: converging::Tree,
    whole: converging::Tree,
    k: int,
    p: Names,
)
    requires
        is_upper_walk(walk, upper, whole),
        is_shaped(left),
        keeps_directories(left, changed, upper, whole),
        0 < k <= walk.len(),
        !came_by(walk.take(k - 1), walk[k - 1].path),
        is_laid(
            assembly::with_upper_layer(left, changed, walk.take(k - 1)),
            left,
            walk.take(k - 1),
            whole,
            walk[k - 1].path,
        ),
        is_laid(assembly::with_upper_layer(left, changed, walk.take(k - 1)), left, walk.take(k - 1), whole, p),
        came_by(walk.take(k), p) <==> came_by(walk.take(k - 1), p) || walk[k - 1].path == p,
        walk_covers(walk.take(k), p) <==> walk_covers(walk.take(k - 1), p) || (walk[k - 1].kind !is Directory
            && path::lies_under(p, walk[k - 1].path)),
    ensures
        is_laid(
            assembly::with_upper(
                assembly::with_upper_layer(left, changed, walk.take(k - 1)),
                changed,
                walk[k - 1],
            ),
            left,
            walk.take(k),
            whole,
            p,
        ),
{
    let few = walk.take(k - 1);
    let before = assembly::with_upper_layer(left, changed, few);
    let entry = walk[k - 1];
    let at = entry.path;
    assert(is_walked(entry, upper, whole));
    assert(assembly::under_any(p, seq![at]) <==> path::lies_under(p, at)) by {
        assert(seq![at][0] == at);
    }
    if path::lies_under(p, at) && p != at {
        assert(!came_by(few, p)) by {
            if came_by(few, p) {
                let j = choose|j: int| 0 <= j < few.len() && (#[trigger] few[j]).path == p;
                assert(walk[j].path == p);
                let above = lemma_ancestor_walked(walk, j, at);
                assert(walk[above].path == walk[k - 1].path);
            }
        }
        if before.dom().contains(at) && before[at].kind !is Directory && left.dom().contains(p) {
            assert(left.dom().contains(at));
        }
    }
    if p == at {
        assert(p.take(at.len() as int) =~= p);
    }
}

/// The index of a branch that is made from the index below it holds what the merged
/// view of the branch shows: without the deleted paths, with the upper layer over what is
/// left.
pub proof fn law_branch_index_holds_the_merged_view(
    base: Map<Names, IndexNode>,
    lower: converging::Tree,
    deleted: Seq<Vec<u8>>,
    upper: converging::Tree,
    upper_modes: Map<Names, u32>,
    changed: Map<Names, u32>,
    walk: Seq<UpperNode>,
    root_mode: Option<u32>,
)
    requires
        indexes(base, lower),
        layering::is_rooted(lower),
        layering::is_rooted(upper),
        layering::name_entries(deleted),
        is_upper_walk(walk, upper, layering::merged(lower, deleted, upper, upper_modes)),
        forall|p: Names| #[trigger] upper_modes.dom().contains(p) && p.len() > 0 ==> changed.dom().contains(p),
        layering::merged(lower, deleted, upper, upper_modes)[Names::empty()].mode == (match root_mode {
            Some(mode) => mode,
            None => lower[Names::empty()].mode,
        }),
    ensures
        indexes(
            assembly::with_root_mode(
                assembly::with_upper_layer(
                    assembly::without_roots(base, assembly::all_names(deleted)),
                    changed,
                    walk,
                ),
                root_mode,
            ),
            layering::merged(lower, deleted, upper, upper_modes),
        ),
{
    let whole = layering::merged(lower, deleted, upper, upper_modes);
    let left = assembly::without_roots(base, assembly::all_names(deleted));
    let laid = assembly::with_upper_layer(left, changed, walk);
    let updated = assembly::with_root_mode(laid, root_mode);
    assert forall|p: Names| #[trigger] left.dom().contains(p) <==> lower.dom().contains(p) && !overlay::is_deleted(
        p,
        deleted,
    ) by {
        lemma_deleted_alike(deleted, p);
    }
    assert(is_shaped(left)) by {
        assert forall|p: Names, q: Names|
            #[trigger] left.dom().contains(p) && #[trigger] left.dom().contains(q) && path::lies_under(p, q) && p
                != q implies left[q].kind is Directory by {
            assert(is_node_of(q, base[q], lower[q]));
            if lower[q].kind !is Directory {
                layering::lemma_nothing_below(lower, q, p);
            }
        }
    }
    assert(keeps_directories(left, changed, upper, whole)) by {
        assert forall|p: Names|
            #[trigger] left.dom().contains(p) && p.len() > 0 && left[p].kind is Directory && upper.dom().contains(p)
                && upper[p].kind is Directory && !changed.dom().contains(p) implies is_node_of(p, left[p], whole[p]) by {
            assert(is_node_of(p, base[p], lower[p]));
        }
    }
    lemma_laid(left, changed, walk, upper, whole, walk.len() as int);
    assert(walk.take(walk.len() as int) =~= walk);
    let root = Names::empty();
    assert(!walk_covers(walk, root)) by {
        if walk_covers(walk, root) {
            let i = choose|i: int|
                0 <= i < walk.len() && (#[trigger] walk[i]).kind !is Directory && path::lies_under(root, walk[i].path);
            assert(is_walked(walk[i], upper, whole));
        }
    }
    assert(!came_by(walk, root)) by {
        if came_by(walk, root) {
            let i = choose|i: int| 0 <= i < walk.len() && (#[trigger] walk[i]).path == root;
            assert(is_walked(walk[i], upper, whole));
        }
    }
    assert(is_laid(laid, left, walk, whole, root));
    lemma_root_left(deleted);
    assert(left.dom().contains(root));
    assert forall|p: Names|
        #![trigger updated.dom().contains(p)]
        #![trigger whole.dom().contains(p)]
        (updated.dom().contains(p) <==> whole.dom().contains(p)) && (updated.dom().contains(p) ==> is_node_of(
            p,
            updated[p],
            whole[p],
        )) by {
        assert(is_laid(laid, left, walk, whole, p));
        assert(came_by(walk, p) <==> upper.dom().contains(p) && p.len() > 0) by {
            if came_by(walk, p) {
                let i = choose|i: int| 0 <= i < walk.len() && (#[trigger] walk[i]).path == p;
                assert(is_walked(walk[i], upper, whole));
            }
        }
        lemma_covered_alike(walk, upper, whole, p);
        if p.len() == 0 {
            assert(p =~= root);
            assert(is_node_of(root, base[root], lower[root]));
        } else if left.dom().contains(p) {
            assert(is_node_of(p, base[p], lower[p]));
        }
    }
    assert(updated.dom() =~= whole.dom());
}

proof fn lemma_root_left(deleted: Seq<Vec<u8>>)
    requires
        layering::name_entries(deleted),
    ensures
        !overlay::is_deleted(Names::empty(), deleted),
{
    if overlay::is_deleted(Names::empty(), deleted) {
        let i = choose|i: int|
            0 <= i < deleted.len() && (overlay::deleted_names((#[trigger] deleted[i])@) matches Some(root)
                && path::lies_under(Names::empty(), root));
        assert(overlay::deleted_names(deleted[i]@)->0.len() > 0);
    }
}

proof fn lemma_deleted_alike(deleted: Seq<Vec<u8>>, p: Names)
    requires
        layering::name_entries(deleted),
    ensures
        assembly::under_any(p, assembly::all_names(deleted)) <==> overlay::is_deleted(p, deleted),
{
    let names = assembly::all_names(deleted);
    if assembly::under_any(p, names) {
        let i = choose|i: int| 0 <= i < names.len() && path::lies_under(p, #[trigger] names[i]);
        assert(overlay::deleted_names(deleted[i]@) == Some(names[i]));
    }
    if overlay::is_deleted(p, deleted) {
        let i = choose|i: int|
            0 <= i < deleted.len() && (overlay::deleted_names((#[trigger] deleted[i])@) matches Some(root)
                && path::lies_under(p, root));
        assert(overlay::deleted_names(deleted[i]@) == Some(names[i]));
    }
}

proof fn lemma_covered_alike(walk: Seq<UpperNode>, upper: converging::Tree, whole: converging::Tree, p: Names)
    requires
        is_upper_walk(walk, upper, whole),
        layering::is_rooted(upper),
    ensures
        walk_covers(walk, p) <==> layering::is_covered(upper, p),
{
    if walk_covers(walk, p) {
        let i = choose|i: int|
            0 <= i < walk.len() && (#[trigger] walk[i]).kind !is Directory && path::lies_under(p, walk[i].path);
        assert(is_walked(walk[i], upper, whole));
        assert(upper.dom().contains(walk[i].path));
    }
    if layering::is_covered(upper, p) {
        let q = choose|q: Names|
            #[trigger] upper.dom().contains(q) && upper[q].kind !is Directory && path::lies_under(p, q);
        if q.len() == 0 {
            assert(q =~= Names::empty());
        }
        let i = choose|i: int| 0 <= i < walk.len() && (#[trigger] walk[i]).path == q;
        assert(is_walked(walk[i], upper, whole));
    }
}

/// An index that is made of a branch from the index below it, and one that is made of the
/// whole merged view, are the same.
pub proof fn law_branch_update_matches_rebuild(
    base: Map<Names, IndexNode>,
    lower: converging::Tree,
    deleted: Seq<Vec<u8>>,
    upper: converging::Tree,
    upper_modes: Map<Names, u32>,
    changed: Map<Names, u32>,
    walk: Seq<UpperNode>,
    root_mode: Option<u32>,
    seen: Map<Names, IndexNode>,
    updated: SnapshotIndex,
    rebuilt: SnapshotIndex,
)
    requires
        indexes(base, lower),
        layering::is_rooted(lower),
        layering::is_rooted(upper),
        layering::name_entries(deleted),
        is_upper_walk(walk, upper, layering::merged(lower, deleted, upper, upper_modes)),
        forall|p: Names| #[trigger] upper_modes.dom().contains(p) && p.len() > 0 ==> changed.dom().contains(p),
        layering::merged(lower, deleted, upper, upper_modes)[Names::empty()].mode == (match root_mode {
            Some(mode) => mode,
            None => lower[Names::empty()].mode,
        }),
        assembly::sealed_map(
            assembly::with_root_mode(
                assembly::with_upper_layer(
                    assembly::without_roots(base, assembly::all_names(deleted)),
                    changed,
                    walk,
                ),
                root_mode,
            ),
            Ok(updated),
        ),
        indexes(seen, layering::merged(lower, deleted, upper, upper_modes)),
        assembly::sealed_map(seen, Ok(rebuilt)),
    ensures
        updated.nodes() == rebuilt.nodes(),
{
    law_branch_index_holds_the_merged_view(
        base,
        lower,
        deleted,
        upper,
        upper_modes,
        changed,
        walk,
        root_mode,
    );
    let whole = layering::merged(lower, deleted, upper, upper_modes);
    let branched = assembly::with_root_mode(
        assembly::with_upper_layer(assembly::without_roots(base, assembly::all_names(deleted)), changed, walk),
        root_mode,
    );
    assert forall|p: Names| #[trigger] branched.dom().contains(p) implies index::same_entry(
        (p, branched[p]),
        (p, seen[p]),
    ) by {
        assert(is_node_of(p, branched[p], whole[p]));
        assert(seen.dom().contains(p));
    }
    assembly::lemma_same_entries_same_index(branched, seen, updated, rebuilt);
}

} // verus!
