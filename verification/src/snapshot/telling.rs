//! What stamps and entries tell of the trees that they were taken from.
//!
//! Comparing, counting conflicts and looking at a path before a step all go by stamps.
//! The laws here say what comes of it for the trees themselves.

use crate::path;
use crate::path::Names;
use crate::path_map;
use crate::snapshot::apply;
use crate::snapshot::apply::{ApplyAction, ApplyEvent, ApplyStage, ApplyState, ApplyStep, DeltaEvidence, Expectation, Standing};
use crate::snapshot::compare;
use crate::snapshot::compare::SnapshotCompareScope;
use crate::snapshot::converging;
use crate::snapshot::converging::{found, live_kind, Live, Tree};
use crate::snapshot::delta::{DeltaView, SnapshotDeltaApplyMode, SnapshotDeltaSummary};
use crate::snapshot::inventory::{Stamp, Stamps};
use crate::snapshot::{EntryView, SnapshotChangeKind, SnapshotEntryKind};
use vstd::prelude::*;

verus! {

/// Whether a stamp was taken of what stands at a path: it has its kind and its
/// permissions, the length of a file, and the target of a link. A directory has no bytes
/// of its own.
pub open spec fn stamp_tells(stamp: Stamp, live: Live) -> bool {
    &&& stamp.kind == live.kind
    &&& stamp.mode == live.mode
    &&& live.kind is File ==> stamp.len == live.content.len()
    &&& live.kind is Symlink ==> stamp.symlink_target == Some(live.content)
    &&& live.kind is Directory ==> live.content == Seq::<u8>::empty()
}

/// Whether stamps were taken of a tree.
pub open spec fn stamps_tell(stock: Map<Names, Stamp>, tree: Tree) -> bool {
    &&& forall|p: Names| #[trigger] stock.dom().contains(p) <==> tree.dom().contains(p)
    &&& forall|p: Names| #[trigger] stock.dom().contains(p) ==> stamp_tells(stock[p], tree[p])
}

/// Whether it is told rightly of two files of one length whether their bytes are the same.
pub open spec fn content_told(same: bool, one: Option<Live>, other: Option<Live>) -> bool {
    (one matches Some(a) && other matches Some(b) && a.kind is File && b.kind is File && a.content.len()
        == b.content.len()) ==> same == (one->0.content == other->0.content)
}

/// Whether an entry says what stands at a path.
pub open spec fn entry_tells(entry: Option<EntryView>, live: Option<Live>) -> bool {
    match (entry, live) {
        (None, None) => true,
        (Some(seen), Some(there)) => {
            &&& seen.kind == there.kind
            &&& seen.mode == there.mode
            &&& there.kind is File ==> seen.len == there.content.len()
            &&& there.kind is Symlink ==> seen.symlink_target == Some(there.content)
            &&& there.kind is Directory ==> there.content == Seq::<u8>::empty()
        },
        _ => false,
    }
}

/// Whether it is told rightly of a live file whether its bytes are those of an end.
pub open spec fn bytes_told(same: bool, end: Option<Live>, now: Option<Live>) -> bool {
    (end matches Some(a) && now matches Some(b) && a.kind is File && b.kind is File) ==> same == (end->0.content
        == now->0.content)
}

/// Two stamps show a difference exactly where what they were taken of differs, and the
/// kind of the change says in what: in the kind, in the bytes of a file, in the target of
/// a link, or in nothing but the mode.
pub proof fn law_changes_name_what_differs(before: Stamp, after: Stamp, from: Live, to: Live, same: bool)
    requires
        stamp_tells(before, from),
        stamp_tells(after, to),
        content_told(same, Some(from), Some(to)),
    ensures
        compare::entry_change(before, after, same) is None <==> from == to,
        compare::entry_change(before, after, same) == Some(SnapshotChangeKind::TypeChanged) <==> from.kind != to.kind,
        compare::entry_change(before, after, same) == Some(SnapshotChangeKind::Modified) <==> from.kind is File
            && to.kind is File && from.content != to.content,
        compare::entry_change(before, after, same) == Some(SnapshotChangeKind::SymlinkTargetChanged) <==> from.kind
            is Symlink && to.kind is Symlink && from.content != to.content,
        compare::entry_change(before, after, same) == Some(SnapshotChangeKind::ModeChanged) <==> from.kind == to.kind
            && from.content == to.content && from.mode != to.mode,
{
    if from.kind == to.kind && from.mode == to.mode && from.content == to.content {
        assert(from =~= to);
    }
}

/// Two trees hold the same at a path, by their stamps, exactly where both have nothing
/// there, or entries of one kind, one mode and one content: the same bytes of files, the
/// same target of links.
pub proof fn law_equal_entries_hold_the_same(
    expected: Map<Names, Stamp>,
    current: Map<Names, Stamp>,
    left: Tree,
    right: Tree,
    p: Names,
    same: bool,
)
    requires
        stamps_tell(expected, left),
        stamps_tell(current, right),
        content_told(same, found(left, p), found(right, p)),
    ensures
        compare::equal_at(expected, current, p, same) <==> found(left, p) == found(right, p),
{
    assert(expected.dom().contains(p) <==> left.dom().contains(p));
    assert(current.dom().contains(p) <==> right.dom().contains(p));
    if left.dom().contains(p) && right.dom().contains(p) {
        law_changes_name_what_differs(expected[p], current[p], left[p], right[p], same);
    }
}

/// What was seen of a destination and of both ends of a delta.
pub open spec fn evidence_tells(seen: DeltaEvidence, tree: Tree, base: Tree, target: Tree) -> bool {
    &&& stamps_tell(seen.base@, base)
    &&& stamps_tell(seen.target@, target)
    &&& stamps_tell(seen.current@, tree)
    &&& forall|p: Names| content_told(#[trigger] seen.same_as_base@.dom().contains(p), found(base, p), found(tree, p))
    &&& forall|p: Names|
        content_told(#[trigger] seen.same_as_target@.dom().contains(p), found(target, p), found(tree, p))
}

/// Stamps of a destination and of both ends, with what is told of contents, show where
/// the destination is at an end and what kinds of entries there are.
pub proof fn law_stamps_show_the_trees(seen: DeltaEvidence, tree: Tree, base: Tree, target: Tree)
    requires
        evidence_tells(seen, tree, base, target),
    ensures
        converging::sees(seen, tree, base, target),
{
    assert forall|p: Names| #[trigger] apply::at_base(seen, p) == (found(tree, p) == found(base, p)) by {
        assert(content_told(seen.same_as_base@.dom().contains(p), found(base, p), found(tree, p)));
        law_equal_entries_hold_the_same(
            seen.base@,
            seen.current@,
            base,
            tree,
            p,
            seen.same_as_base@.dom().contains(p),
        );
    }
    assert forall|p: Names| #[trigger] apply::at_target(seen, p) == (found(tree, p) == found(target, p)) by {
        assert(content_told(seen.same_as_target@.dom().contains(p), found(target, p), found(tree, p)));
        law_equal_entries_hold_the_same(
            seen.target@,
            seen.current@,
            target,
            tree,
            p,
            seen.same_as_target@.dom().contains(p),
        );
    }
    assert forall|p: Names| #[trigger] apply::kind_at(seen.base@, p) == live_kind(found(base, p)) by {
        assert(seen.base@.dom().contains(p) <==> base.dom().contains(p));
    }
    assert forall|p: Names| #[trigger] apply::kind_at(seen.target@, p) == live_kind(found(target, p)) by {
        assert(seen.target@.dom().contains(p) <==> target.dom().contains(p));
    }
    assert forall|p: Names| #[trigger] apply::kind_at(seen.current@, p) == live_kind(found(tree, p)) by {
        assert(seen.current@.dom().contains(p) <==> tree.dom().contains(p));
    }
}

/// A live entry stands at the target exactly where it is what the target holds, its bytes
/// included, and at the base exactly where it is what the base holds and that is not the
/// target. It is gone where nothing is left of an entry whose kind changes, and made where
/// a directory stands in the place of something else, or of nothing, and is not finished.
pub proof fn law_standing_goes_by_what_is_there(
    before: Option<EntryView>,
    after: Option<EntryView>,
    current: Option<EntryView>,
    from: Option<Live>,
    to: Option<Live>,
    now: Option<Live>,
    same_as_target: bool,
    same_as_base: bool,
)
    requires
        entry_tells(before, from),
        entry_tells(after, to),
        entry_tells(current, now),
        bytes_told(same_as_target, to, now),
        bytes_told(same_as_base, from, now),
    ensures
        ({
            let standing = apply::standing_of(before, after, current, same_as_target, same_as_base);
            let directory = Some(SnapshotEntryKind::Directory);
            &&& standing == Standing::AtTarget <==> now == to
            &&& standing == Standing::AtBase <==> now == from && now != to
            &&& standing == Standing::Gone <==> now is None && from is Some && to is Some && from->0.kind != to->0.kind
            &&& standing == Standing::Made <==> now != to && now != from && live_kind(now) == directory && live_kind(to)
                == directory && live_kind(from) != directory
            &&& standing == Standing::Elsewhere <==> now != to && now != from && !(now is None && from is Some && to
                is Some && from->0.kind != to->0.kind) && !(live_kind(now) == directory && live_kind(to) == directory
                && live_kind(from) != directory)
        }),
{
    if now is Some && to is Some {
        if now->0.kind == to->0.kind && now->0.mode == to->0.mode && now->0.content == to->0.content {
            assert(now->0 =~= to->0);
        }
    }
    if now is Some && from is Some {
        if now->0.kind == from->0.kind && now->0.mode == from->0.mode && now->0.content == from->0.content {
            assert(now->0 =~= from->0);
        }
    }
}

/// Where an entry of a tree stands between two others is what looking at the entry and at
/// both ends tells.
pub proof fn law_looking_tells_where_a_path_stands(
    before: Option<EntryView>,
    after: Option<EntryView>,
    current: Option<EntryView>,
    tree: Tree,
    base: Tree,
    target: Tree,
    at: Names,
    same_as_target: bool,
    same_as_base: bool,
)
    requires
        entry_tells(before, found(base, at)),
        entry_tells(after, found(target, at)),
        entry_tells(current, found(tree, at)),
        bytes_told(same_as_target, found(target, at), found(tree, at)),
        bytes_told(same_as_base, found(base, at), found(tree, at)),
    ensures
        apply::standing_of(before, after, current, same_as_target, same_as_base) == converging::stands(
            tree,
            at,
            base,
            target,
        ),
{
    law_standing_goes_by_what_is_there(
        before,
        after,
        current,
        found(base, at),
        found(target, at),
        found(tree, at),
        same_as_target,
        same_as_base,
    );
}

/// Whether trees agree on what kind of entry a path has.
pub open spec fn kinds_agree(left: Tree, right: Tree, p: Names) -> bool {
    live_kind(found(left, p)) == live_kind(found(right, p))
}

/// The stamps that an ordered list maps its paths to, where it was taken of a tree.
pub open spec fn listing_tells(listed: Stamps, tree: Tree) -> bool {
    path_map::in_order(listed) && stamps_tell(path_map::entry_map(listed), tree)
}

proof fn lemma_listed_below(listed: Stamps, tree: Tree, root: Names, recursive: bool, p: Names)
    requires
        listing_tells(listed, tree),
    ensures
        ({
            let below = compare::entries_below(listed, root, recursive);
            &&& path_map::in_order(below)
            &&& path_map::has_path(below, p) <==> tree.dom().contains(p) && compare::lies_below(p, root, recursive)
            &&& forall|i: int|
                0 <= i < below.len() ==> tree.dom().contains((#[trigger] below[i]).0) && tree[below[i].0].kind
                    == below[i].1.kind && compare::lies_below(below[i].0, root, recursive)
        }),
{
    let keep = |entry: (Names, Stamp)| compare::lies_below(entry.0, root, recursive);
    let below = compare::entries_below(listed, root, recursive);
    path_map::lemma_filter_members(listed, keep);
    path_map::lemma_filter_in_order(listed, keep);
    assert forall|i: int| 0 <= i < below.len() implies tree.dom().contains((#[trigger] below[i]).0) && tree[below[i].0].kind
        == below[i].1.kind && compare::lies_below(below[i].0, root, recursive) by {
        assert(below.contains(below[i]));
        assert(listed.contains(below[i]));
        let k = choose|k: int| 0 <= k < listed.len() && listed[k] == below[i];
        path_map::lemma_entry_at(listed, k);
        assert(path_map::entry_map(listed).dom().contains(listed[k].0));
    }
    if tree.dom().contains(p) && compare::lies_below(p, root, recursive) {
        assert(path_map::entry_map(listed).dom().contains(p));
        let k = path_map::place_of(listed, p);
        assert(listed[k].0 == p);
        assert(listed.contains(listed[k]));
        assert(below.contains(listed[k]));
        let i = choose|i: int| 0 <= i < below.len() && below[i] == listed[k];
        assert(below[i].0 == p);
    }
    if path_map::has_path(below, p) {
        let i = path_map::place_of(below, p);
        assert(below[i].0 == p);
    }
}

proof fn lemma_names_agree_over_trees(expected: Stamps, current: Stamps, left: Tree, right: Tree, root: Names, recursive: bool)
    requires
        listing_tells(expected, left),
        listing_tells(current, right),
    ensures
        compare::same_names_and_kinds(
            compare::entries_below(expected, root, recursive),
            compare::entries_below(current, root, recursive),
        ) <==> forall|p: Names| #[trigger] compare::lies_below(p, root, recursive) ==> kinds_agree(left, right, p),
{
    let a = compare::entries_below(expected, root, recursive);
    let b = compare::entries_below(current, root, recursive);
    lemma_listed_below(expected, left, root, recursive, root);
    lemma_listed_below(current, right, root, recursive, root);
    if compare::same_names_and_kinds(a, b) {
        assert forall|p: Names| #[trigger] compare::lies_below(p, root, recursive) implies kinds_agree(left, right, p) by {
            lemma_listed_below(expected, left, root, recursive, p);
            lemma_listed_below(current, right, root, recursive, p);
            if left.dom().contains(p) {
                let i = path_map::place_of(a, p);
                assert(a[i].0 == p);
                assert(b[i].0 == p);
                assert(right.dom().contains(b[i].0));
            } else if right.dom().contains(p) {
                let i = path_map::place_of(b, p);
                assert(b[i].0 == p);
                assert(a[i].0 == p);
                assert(left.dom().contains(a[i].0));
            }
        }
    }
    if forall|p: Names| #[trigger] compare::lies_below(p, root, recursive) ==> kinds_agree(left, right, p) {
        assert forall|p: Names| #[trigger] path_map::has_path(a, p) <==> #[trigger] path_map::has_path(b, p) by {
            lemma_listed_below(expected, left, root, recursive, p);
            lemma_listed_below(current, right, root, recursive, p);
            if compare::lies_below(p, root, recursive) {
                assert(kinds_agree(left, right, p));
            }
        }
        path_map::lemma_same_paths_listed_alike(a, b);
        assert forall|i: int| 0 <= i < a.len() implies (#[trigger] a[i]).0 == (#[trigger] b[i]).0 && a[i].1.kind
            == b[i].1.kind by {
            assert(compare::lies_below(a[i].0, root, recursive));
            assert(kinds_agree(left, right, a[i].0));
        }
    }
}

/// A requirement is met exactly where the trees agree as far as its scope reaches: on one
/// entry, its content included; on the kind of an entry and the names and kinds directly
/// below a directory, or anywhere below it; or on every entry at or below a path, its
/// content included.
pub proof fn law_requirements_are_met_by_agreeing_trees(
    expected: Stamps,
    current: Stamps,
    left: Tree,
    right: Tree,
    root: Names,
    same: Set<Names>,
)
    requires
        listing_tells(expected, left),
        listing_tells(current, right),
        forall|p: Names| content_told(#[trigger] same.contains(p), found(left, p), found(right, p)),
    ensures
        compare::scope_agrees(expected, current, (root, SnapshotCompareScope::Content), same) <==> found(left, root)
            == found(right, root),
        compare::scope_agrees(expected, current, (root, SnapshotCompareScope::Entries), same) <==> kinds_agree(
            left,
            right,
            root,
        ) && ((found(left, root) matches Some(there) && !(there.kind is Directory)) || forall|name: Seq<u8>|
            #![trigger root.push(name)]
            kinds_agree(left, right, root.push(name))),
        compare::scope_agrees(expected, current, (root, SnapshotCompareScope::TreeEntries), same) <==> kinds_agree(
            left,
            right,
            root,
        ) && ((found(left, root) matches Some(there) && !(there.kind is Directory)) || forall|rest: Names|
            #![trigger root + rest]
            kinds_agree(left, right, root + rest)),
        compare::scope_agrees(expected, current, (root, SnapshotCompareScope::TreeContent), same) <==> forall|
            rest: Names,
        |
            #![trigger root + rest]
            found(left, root + rest) == found(right, root + rest),
{
    let a = path_map::entry_map(expected);
    let b = path_map::entry_map(current);
    assert forall|p: Names| compare::equal_at(a, b, p, #[trigger] same.contains(p)) <==> found(left, p) == found(
        right,
        p,
    ) by {
        assert(content_told(same.contains(p), found(left, p), found(right, p)));
        law_equal_entries_hold_the_same(a, b, left, right, p, same.contains(p));
    }
    assert(same.contains(root) || !same.contains(root));
    assert(a.dom().contains(root) <==> left.dom().contains(root));
    assert(b.dom().contains(root) <==> right.dom().contains(root));
    lemma_names_agree_over_trees(expected, current, left, right, root, false);
    lemma_names_agree_over_trees(expected, current, left, right, root, true);
    assert forall|p: Names| #[trigger] path::lies_under(p, root) implies p == root + p.skip(root.len() as int) by {
        assert(p =~= root + p.skip(root.len() as int));
    }
    assert forall|rest: Names| path::lies_under(#[trigger] (root + rest), root) by {
        assert((root + rest).take(root.len() as int) =~= root);
    }
    let children = forall|name: Seq<u8>| #![trigger root.push(name)] kinds_agree(left, right, root.push(name));
    let below = forall|p: Names| #[trigger] compare::lies_below(p, root, false) ==> kinds_agree(left, right, p);
    assert(children <==> below) by {
        if children {
            assert forall|p: Names| #[trigger] compare::lies_below(p, root, false) implies kinds_agree(left, right, p) by {
                assert(p =~= root.push(p.last()));
            }
        }
        if below {
            assert forall|name: Seq<u8>| #![trigger root.push(name)] kinds_agree(left, right, root.push(name)) by {
                assert(root.push(name).take(root.len() as int) =~= root);
                assert(compare::lies_below(root.push(name), root, false));
            }
        }
    }
    let all = forall|rest: Names| #![trigger root + rest] kinds_agree(left, right, root + rest);
    let deep = forall|p: Names| #[trigger] compare::lies_below(p, root, true) ==> kinds_agree(left, right, p);
    assert(kinds_agree(left, right, root) ==> (all <==> deep)) by {
        if all {
            assert forall|p: Names| #[trigger] compare::lies_below(p, root, true) implies kinds_agree(left, right, p) by {
                assert(p == root + p.skip(root.len() as int));
            }
        }
        if deep && kinds_agree(left, right, root) {
            assert forall|rest: Names| #![trigger root + rest] kinds_agree(left, right, root + rest) by {
                if root + rest != root {
                    assert(compare::lies_below(root + rest, root, true));
                }
            }
        }
    }
    let whole = forall|rest: Names| #![trigger root + rest] found(left, root + rest) == found(right, root + rest);
    let equal = forall|p: Names| #[trigger]
        path::lies_under(p, root) ==> compare::equal_at(a, b, p, same.contains(p));
    assert(whole <==> equal) by {
        if whole {
            assert forall|p: Names| #[trigger] path::lies_under(p, root) implies compare::equal_at(
                a,
                b,
                p,
                same.contains(p),
            ) by {
                assert(p == root + p.skip(root.len() as int));
            }
        }
        if equal {
            assert forall|rest: Names| #![trigger root + rest] found(left, root + rest) == found(right, root + rest) by {
                let p = root + rest;
                assert(path::lies_under(p, root));
                assert(compare::equal_at(a, b, p, same.contains(p)));
            }
        }
    }
    let asked = (root, SnapshotCompareScope::TreeContent);
    if compare::scope_agrees(expected, current, asked, same) {
        assert forall|p: Names| #[trigger] path::lies_under(p, root) implies compare::equal_at(a, b, p, same.contains(p)) by {
            assert(path::lies_under(p, asked.0));
        }
        assert(equal);
    }
    if equal {
        assert forall|p: Names| #[trigger] path::lies_under(p, asked.0) implies compare::equal_at(
            a,
            b,
            p,
            same.contains(p),
        ) by {
            assert(path::lies_under(p, root));
        }
        assert(compare::scope_agrees(expected, current, asked, same));
    }
}

proof fn lemma_mapped_paths_are_finite<V>(entries: path_map::Entries<V>)
    ensures
        path_map::entry_map(entries).dom().finite(),
{
    let paths = Seq::new(entries.len(), |i: int| entries[i].0);
    vstd::seq_lib::seq_to_set_is_finite(paths);
    let all = paths.to_set();
    assert forall|p: Names| path_map::entry_map(entries).dom().contains(p) implies #[trigger] all.contains(p) by {
        let i = path_map::place_of(entries, p);
        assert(entries[i].0 == p);
        assert(paths[i] == p);
    }
    vstd::set_lib::lemma_set_subset_finite(all, path_map::entry_map(entries).dom());
}

proof fn lemma_misplaced_below_counts(seen: DeltaEvidence, expected: Expectation, roots: Seq<Names>, k: int, p: Names)
    requires
        seen.wf(),
        0 <= k < roots.len(),
        path::lies_under(p, roots[k]),
        apply::held_anywhere(seen, expected, p),
        apply::misplaced(seen, expected, p),
    ensures
        apply::misplaced_total(seen, expected, roots) > 0,
    decreases roots.len(),
{
    if k < roots.len() - 1 {
        assert(roots.drop_last()[k] == roots[k]);
        lemma_misplaced_below_counts(seen, expected, roots.drop_last(), k, p);
    } else {
        let below = apply::misplaced_below(seen, expected, roots.last());
        lemma_mapped_paths_are_finite(seen.base.entries());
        lemma_mapped_paths_are_finite(seen.target.entries());
        lemma_mapped_paths_are_finite(seen.current.entries());
        let all = seen.base@.dom().union(seen.target@.dom()).union(seen.current@.dom());
        assert(below.subset_of(all));
        vstd::set_lib::lemma_set_subset_finite(all, below);
        assert(below.contains(p));
        if below.len() == 0 {
            assert(below =~= Set::<Names>::empty());
        }
    }
}

proof fn lemma_root_is_listed(entries: Seq<DeltaView>, i: int) -> (k: int)
    requires
        0 <= i < entries.len(),
        apply::is_destructive(entries[i]),
    ensures
        0 <= k < apply::destructive_roots(entries).len(),
        apply::destructive_roots(entries)[k] == entries[i].path,
    decreases entries.len(),
{
    let rest = entries.drop_last();
    if i == entries.len() - 1 {
        apply::destructive_roots(entries).len() - 1
    } else {
        assert(rest[i] == entries[i]);
        lemma_root_is_listed(rest, i)
    }
}

proof fn lemma_listed_root(entries: Seq<DeltaView>, k: int) -> (i: int)
    requires
        0 <= k < apply::destructive_roots(entries).len(),
    ensures
        0 <= i < entries.len(),
        apply::is_destructive(entries[i]),
        apply::destructive_roots(entries)[k] == entries[i].path,
    decreases entries.len(),
{
    let rest = entries.drop_last();
    if apply::is_destructive(entries.last()) && k == apply::destructive_roots(entries).len() - 1 {
        entries.len() - 1
    } else {
        let i = lemma_listed_root(rest, k);
        assert(rest[i] == entries[i]);
        i
    }
}

/// Whether a change takes away the directory that a path lies in, or the path itself.
pub open spec fn goes_with(entry: DeltaView, p: Names) -> bool {
    &&& entry.before matches Some(before) && before.kind is Directory
    &&& !(entry.after matches Some(after) && after.kind is Directory)
    &&& path::lies_under(p, entry.path)
}

/// Whether a path is one that a delta touches: a changed one, or one that lies in a
/// directory that goes.
pub open spec fn touches(entries: Seq<DeltaView>, p: Names) -> bool {
    exists|i: int| 0 <= i < entries.len() && ((#[trigger] entries[i]).path == p || goes_with(entries[i], p))
}

proof fn lemma_no_conflict_means_in_place(seen: DeltaEvidence, expected: Expectation, entries: Seq<DeltaView>)
    requires
        seen.wf(),
        forall|p: Names| #[trigger] apply::misplaced(seen, expected, p) ==> apply::held_anywhere(seen, expected, p),
    ensures
        apply::conflict_count(seen, expected, entries) == 0 <==> forall|p: Names| #[trigger]
            touches(entries, p) ==> !apply::misplaced(seen, expected, p),
{
    let roots = apply::destructive_roots(entries);
    if apply::conflict_count(seen, expected, entries) == 0 {
        assert forall|p: Names| #[trigger] touches(entries, p) implies !apply::misplaced(seen, expected, p) by {
            if apply::misplaced(seen, expected, p) {
                let i = choose|i: int|
                    0 <= i < entries.len() && ((#[trigger] entries[i]).path == p || goes_with(entries[i], p));
                if entries[i].path == p {
                    assert(apply::delta_paths(entries)[i] == p);
                    apply::lemma_counted(seen, expected, apply::delta_paths(entries), i);
                } else {
                    let k = lemma_root_is_listed(entries, i);
                    lemma_misplaced_below_counts(seen, expected, roots, k, p);
                }
            }
        }
    }
    if forall|p: Names| #[trigger] touches(entries, p) ==> !apply::misplaced(seen, expected, p) {
        assert forall|i: int| 0 <= i < entries.len() implies !apply::misplaced(
            seen,
            expected,
            (#[trigger] entries[i]).path,
        ) by {
            assert(touches(entries, entries[i].path));
        }
        assert forall|k: int, p: Names| 0 <= k < roots.len() && path::lies_under(p, #[trigger] roots[k]) implies !(
        #[trigger] apply::misplaced(seen, expected, p)) by {
            let i = lemma_listed_root(entries, k);
            assert(goes_with(entries[i], p));
            assert(touches(entries, p));
        }
        apply::lemma_in_place_is_conflict_free(seen, expected, entries);
    }
}

/// A first apply meets no conflict exactly where the destination has what the base has at
/// every path that the delta touches.
pub proof fn law_untouched_destinations_have_no_conflict(
    seen: DeltaEvidence,
    tree: Tree,
    base: Tree,
    target: Tree,
    entries: Seq<DeltaView>,
)
    requires
        seen.wf(),
        evidence_tells(seen, tree, base, target),
    ensures
        apply::conflict_count(seen, Expectation::Before(SnapshotDeltaApplyMode::Initial), entries) == 0 <==> forall|
            p: Names,
        |
            #[trigger] touches(entries, p) ==> found(tree, p) == found(base, p),
{
    let expected = Expectation::Before(SnapshotDeltaApplyMode::Initial);
    law_stamps_show_the_trees(seen, tree, base, target);
    assert forall|p: Names| #[trigger] apply::misplaced(seen, expected, p) == (found(tree, p) != found(base, p)) && (
    apply::misplaced(seen, expected, p) ==> apply::held_anywhere(seen, expected, p)) by {
        assert(apply::at_base(seen, p) == (found(tree, p) == found(base, p)));
        assert(seen.base@.dom().contains(p) <==> base.dom().contains(p));
        assert(seen.current@.dom().contains(p) <==> tree.dom().contains(p));
    }
    lemma_no_conflict_means_in_place(seen, expected, entries);
}

/// Resuming meets no conflict exactly where every path that the delta touches has what
/// one of the ends has, or is left between them as an interrupted apply leaves it: nothing
/// where the kind of an entry changes, or a directory where one comes.
pub proof fn law_interrupted_destinations_have_no_conflict(
    seen: DeltaEvidence,
    tree: Tree,
    base: Tree,
    target: Tree,
    entries: Seq<DeltaView>,
)
    requires
        seen.wf(),
        evidence_tells(seen, tree, base, target),
    ensures
        apply::conflict_count(seen, Expectation::Before(SnapshotDeltaApplyMode::Resume), entries) == 0 <==> forall|
            p: Names,
        |
            #[trigger] touches(entries, p) ==> {
                ||| found(tree, p) == found(base, p)
                ||| found(tree, p) == found(target, p)
                ||| found(tree, p) is None && found(base, p) is Some && found(target, p) is Some && base[p].kind
                    != target[p].kind
                ||| live_kind(found(tree, p)) == Some(SnapshotEntryKind::Directory) && live_kind(found(target, p))
                    == Some(SnapshotEntryKind::Directory) && live_kind(found(base, p)) != Some(
                    SnapshotEntryKind::Directory,
                )
            },
{
    let expected = Expectation::Before(SnapshotDeltaApplyMode::Resume);
    law_stamps_show_the_trees(seen, tree, base, target);
    assert forall|p: Names|
        #[trigger] apply::misplaced(seen, expected, p) == !({
            ||| found(tree, p) == found(base, p)
            ||| found(tree, p) == found(target, p)
            ||| found(tree, p) is None && found(base, p) is Some && found(target, p) is Some && base[p].kind
                != target[p].kind
            ||| live_kind(found(tree, p)) == Some(SnapshotEntryKind::Directory) && live_kind(found(target, p)) == Some(
                SnapshotEntryKind::Directory,
            ) && live_kind(found(base, p)) != Some(SnapshotEntryKind::Directory)
        }) && (apply::misplaced(seen, expected, p) ==> apply::held_anywhere(seen, expected, p)) by {
        assert(apply::at_base(seen, p) == (found(tree, p) == found(base, p)));
        assert(apply::at_target(seen, p) == (found(tree, p) == found(target, p)));
        assert(apply::kind_at(seen.base@, p) == live_kind(found(base, p)));
        assert(apply::kind_at(seen.target@, p) == live_kind(found(target, p)));
        assert(apply::kind_at(seen.current@, p) == live_kind(found(tree, p)));
        assert(seen.base@.dom().contains(p) <==> base.dom().contains(p));
        assert(seen.target@.dom().contains(p) <==> target.dom().contains(p));
        assert(seen.current@.dom().contains(p) <==> tree.dom().contains(p));
    }
    lemma_no_conflict_means_in_place(seen, expected, entries);
}

/// Applying is complete exactly where the destination has what the target has at every
/// path that the delta touches.
pub proof fn law_complete_destinations_are_at_the_target(
    seen: DeltaEvidence,
    tree: Tree,
    base: Tree,
    target: Tree,
    entries: Seq<DeltaView>,
)
    requires
        seen.wf(),
        evidence_tells(seen, tree, base, target),
    ensures
        apply::conflict_count(seen, Expectation::After, entries) == 0 <==> forall|p: Names| #[trigger]
            touches(entries, p) ==> found(tree, p) == found(target, p),
{
    law_stamps_show_the_trees(seen, tree, base, target);
    assert forall|p: Names|
        #[trigger] apply::misplaced(seen, Expectation::After, p) == (found(tree, p) != found(target, p)) && (
        apply::misplaced(seen, Expectation::After, p) ==> apply::held_anywhere(seen, Expectation::After, p)) by {
        assert(apply::at_target(seen, p) == (found(tree, p) == found(target, p)));
        assert(seen.target@.dom().contains(p) <==> target.dom().contains(p));
        assert(seen.current@.dom().contains(p) <==> tree.dom().contains(p));
    }
    lemma_no_conflict_means_in_place(seen, Expectation::After, entries);
}

/// What a step does with a path goes by what is there: it is done where the base is there,
/// or where this run, or an interrupted one, has removed what was there; it is passed over
/// where the target is there, or, on resuming, where an interrupted apply has done it; and
/// it is refused where somebody else has written.
pub proof fn law_steps_go_by_what_is_there(
    phase: apply::ApplyPhase,
    tree: Tree,
    at: Names,
    base: Tree,
    target: Tree,
    resumes: bool,
)
    ensures
        ({
            let (from, to, now) = (found(base, at), found(target, at), found(tree, at));
            let directory = Some(SnapshotEntryKind::Directory);
            let is_gone = now is None && from is Some && to is Some && from->0.kind != to->0.kind;
            let is_made = now != to && now != from && live_kind(now) == directory && live_kind(to) == directory
                && live_kind(from) != directory;
            let course = apply::course_of(phase, converging::stands(tree, at, base, target), resumes);
            &&& now == to ==> course == apply::Course::Pass
            &&& now == from && now != to ==> course == apply::Course::Make
            &&& is_gone && !(phase is Remove) ==> course == apply::Course::Make
            &&& is_gone && phase is Remove ==> course == if resumes {
                apply::Course::Pass
            } else {
                apply::Course::Refuse
            }
            &&& is_made ==> course == if resumes && !(phase is Put) {
                apply::Course::Pass
            } else {
                apply::Course::Refuse
            }
            &&& now != to && now != from && !is_gone && !is_made ==> course == apply::Course::Refuse
        }),
{
}

/// Whether applying has ended with an error.
pub open spec fn ends_with(told: (ApplyState, ApplyAction), error: crate::error::SnapshotError) -> bool {
    told.0.stage is Done && told.1 == ApplyAction::Finish(Err(error))
}

/// How applying ends where it does not go through: a destination that others hold is told to
/// wait; dependencies that differ, and conflicts, are told with their number before
/// anything is written; and a path that is not where it should be, or does not get there,
/// is told as a conflict, or as an incomplete apply with the number of paths that were
/// written.
pub proof fn law_applying_tells_how_it_ended(
    steps: Seq<ApplyStep>,
    state: ApplyState,
    conflicts: usize,
    error: crate::error::SnapshotError,
)
    requires
        conflicts > 0,
        !(state.stage is Done),
    ensures
        ({
            let partial = if state.applied_paths == 0 {
                crate::error::SnapshotError::DeltaConflict { count: 1 }
            } else {
                crate::error::SnapshotError::DeltaApplyIncomplete { applied_paths: state.applied_paths }
            };
            &&& state.stage is Lock ==> ends_with(
                apply::apply_step(steps, state, ApplyEvent::Contended),
                crate::error::SnapshotError::DeltaDeferred,
            )
            &&& state.stage is Dependencies ==> ends_with(
                apply::apply_step(steps, state, ApplyEvent::Compared { matched: false }),
                crate::error::SnapshotError::DeltaConflict { count: 1 },
            )
            &&& state.stage is Validate ==> ends_with(
                apply::apply_step(steps, state, ApplyEvent::Counted { conflicts }),
                crate::error::SnapshotError::DeltaConflict { count: conflicts },
            )
            &&& state.stage is Observe && !(steps[state.next as int].phase is SetMode) ==> ends_with(
                apply::apply_step(steps, state, ApplyEvent::Seen(Standing::Elsewhere)),
                partial,
            )
            &&& state.stage is Verify ==> ends_with(
                apply::apply_step(steps, state, ApplyEvent::Counted { conflicts }),
                crate::error::SnapshotError::DeltaApplyIncomplete { applied_paths: state.applied_paths },
            )
            &&& state.stage is TargetDependencies ==> ends_with(
                apply::apply_step(steps, state, ApplyEvent::Compared { matched: false }),
                partial,
            )
            &&& state.applied_paths == 0 ==> ends_with(apply::apply_step(steps, state, ApplyEvent::Failed(error)), error)
            &&& state.applied_paths > 0 ==> ends_with(
                apply::apply_step(steps, state, ApplyEvent::Failed(error)),
                crate::error::SnapshotError::DeltaApplyIncomplete { applied_paths: state.applied_paths },
            )
        }),
{
}

/// Steps are taken one by one, in their order: each is looked at before it is done, a step
/// that is done counts, one that is passed over does not, and after the last the
/// destination is checked.
pub proof fn law_steps_are_taken_in_order(steps: Seq<ApplyStep>, state: ApplyState)
    requires
        state.total == steps.len(),
        state.next < state.total,
        state.applied_paths < usize::MAX,
    ensures
        ({
            let follows = if state.next + 1 < state.total {
                ApplyAction::Look { step: (state.next + 1) as usize }
            } else {
                ApplyAction::CountTargetConflicts
            };
            let observing = ApplyState { stage: ApplyStage::Observe, ..state };
            let performing = ApplyState { stage: ApplyStage::Perform, ..state };
            let sets_mode = steps[state.next as int].phase is SetMode;
            let changes = if sets_mode {
                ApplyEvent::SeenMode { differs: true }
            } else {
                ApplyEvent::Seen(Standing::AtBase)
            };
            let stays = if sets_mode {
                ApplyEvent::SeenMode { differs: false }
            } else {
                ApplyEvent::Seen(Standing::AtTarget)
            };
            &&& apply::apply_step(steps, observing, changes) == (performing, ApplyAction::Perform { step: state.next })
            &&& apply::apply_step(steps, observing, stays).1 == follows
            &&& apply::apply_step(steps, observing, stays).0.applied_paths == state.applied_paths
            &&& apply::apply_step(steps, observing, stays).0.next == state.next + 1
            &&& apply::apply_step(steps, performing, ApplyEvent::Succeeded).1 == follows
            &&& apply::apply_step(steps, performing, ApplyEvent::Succeeded).0.applied_paths == state.applied_paths + 1
            &&& apply::apply_step(steps, performing, ApplyEvent::Succeeded).0.next == state.next + 1
            &&& ends_with(
                apply::apply_step(steps, performing, ApplyEvent::FailedAfterwards),
                crate::error::SnapshotError::DeltaApplyIncomplete { applied_paths: (state.applied_paths + 1) as usize },
            )
        }),
{
}

/// Applying a delta succeeds, and gives its summary, where stamps were taken of a
/// destination that may be started from and of the one that the steps lead to.
pub proof fn law_applying_what_was_seen_succeeds(
    start: Tree,
    entries: Seq<DeltaView>,
    steps: Seq<ApplyStep>,
    base: Tree,
    target: Tree,
    mode: SnapshotDeltaApplyMode,
    new_modes: Map<int, u32>,
    summary: SnapshotDeltaSummary,
    before: DeltaEvidence,
    after: DeltaEvidence,
)
    requires
        converging::delta_fits(entries, base, target),
        converging::is_complete(entries, base, target),
        apply::is_step_order(entries, steps),
        converging::is_start(start, entries, base, target, mode is Resume),
        converging::roots_may_start(start, entries, base, target, mode is Resume),
        steps.len() <= usize::MAX,
        evidence_tells(before, start, base, target),
        evidence_tells(
            after,
            converging::tree_after(start, entries, steps, base, target, mode is Resume, new_modes, steps.len() as int),
            base,
            target,
        ),
    ensures
        ({
            let first = ApplyState {
                stage: ApplyStage::Lock,
                next: 0,
                total: steps.len() as usize,
                applied_paths: 0,
                resumes: mode is Resume,
                summary,
            };
            let conflicts = apply::conflict_count(before, Expectation::Before(mode), entries) as usize;
            let left = apply::conflict_count(after, Expectation::After, entries) as usize;
            let cleared = apply::apply_run(
                steps,
                first,
                seq![ApplyEvent::Succeeded, ApplyEvent::Compared { matched: true }, ApplyEvent::Counted { conflicts }],
            );
            let written = converging::state_after(
                start,
                entries,
                steps,
                base,
                target,
                new_modes,
                cleared,
                steps.len() as int,
            );
            let checked = apply::apply_run(
                steps,
                written,
                seq![ApplyEvent::Counted { conflicts: left }, ApplyEvent::Compared { matched: true }],
            );
            apply::apply_step(steps, checked, ApplyEvent::Succeeded).1 == ApplyAction::Finish(Ok(summary))
        }),
{
    let reached = converging::tree_after(
        start,
        entries,
        steps,
        base,
        target,
        mode is Resume,
        new_modes,
        steps.len() as int,
    );
    law_stamps_show_the_trees(before, start, base, target);
    law_stamps_show_the_trees(after, reached, base, target);
    converging::law_applying_succeeds(
        start,
        entries,
        steps,
        base,
        target,
        mode,
        new_modes,
        summary,
        before,
        after,
    );
}

} // verus!
