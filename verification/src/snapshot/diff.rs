//! Differences between two indexed trees.

use crate::error::{LimitFault, SnapshotError};
use crate::path;
use crate::path::{bytes_equal, Names, RelPath};
use crate::path_map;
use crate::path_map::Entries;
use crate::snapshot::index::{IndexNode, Nodes, SnapshotIndex, SnapshotIndexEntry};
use crate::snapshot::{SnapshotChangeKind, SnapshotEntryKind, DEFAULT_SCAN_ENTRY_BUDGET};
use vstd::prelude::*;

verus! {

/// One changed snapshot-relative path.
pub struct SnapshotChange {
    pub path: RelPath,
    pub kind: SnapshotChangeKind,
}

/// Bounded snapshot diff plus the complete change count.
pub struct SnapshotDiff {
    pub changes: Vec<SnapshotChange>,
    pub changed_paths: usize,
    pub truncated: bool,
    pub next_path: Option<RelPath>,
}

/// Changed paths with their changes, in order.
pub type Changes = Entries<SnapshotChangeKind>;

/// What listed changes say.
pub open spec fn change_views(changes: Seq<SnapshotChange>) -> Changes {
    Seq::new(changes.len(), |i: int| (changes[i].path@, changes[i].kind))
}

/// How one indexed entry differs from another.
pub open spec fn node_change(before: IndexNode, after: IndexNode) -> Option<SnapshotChangeKind> {
    if before.kind != after.kind {
        Some(SnapshotChangeKind::TypeChanged)
    } else if before.kind is File && (before.len != after.len || before.hash != after.hash) {
        Some(SnapshotChangeKind::Modified)
    } else if before.kind is Symlink && before.hash != after.hash {
        Some(SnapshotChangeKind::SymlinkTargetChanged)
    } else if before.mode != after.mode {
        Some(SnapshotChangeKind::ModeChanged)
    } else {
        None
    }
}

/// How one indexed entry differs from another.
pub fn indexed_change_kind(before: &SnapshotIndexEntry, after: &SnapshotIndexEntry) -> (change: Option<
    SnapshotChangeKind,
>)
    ensures
        change == node_change(before@, after@),
{
    if before.kind != after.kind {
        return Some(SnapshotChangeKind::TypeChanged);
    }
    let same_hash = bytes_equal(before.hash.as_slice(), after.hash.as_slice());
    match before.kind {
        SnapshotEntryKind::File => {
            if before.len != after.len || !same_hash {
                return Some(SnapshotChangeKind::Modified);
            }
        },
        SnapshotEntryKind::Symlink => {
            if !same_hash {
                return Some(SnapshotChangeKind::SymlinkTargetChanged);
            }
        },
        SnapshotEntryKind::Directory => {},
    }
    if before.mode != after.mode {
        Some(SnapshotChangeKind::ModeChanged)
    } else {
        None
    }
}

/// How two trees differ at a path. The root is never a change.
pub open spec fn change_at(before: Nodes, after: Nodes, p: Names) -> Option<SnapshotChangeKind> {
    let left = path_map::entry_map(before);
    let right = path_map::entry_map(after);
    if p.len() == 0 {
        None
    } else if left.dom().contains(p) && right.dom().contains(p) {
        node_change(left[p], right[p])
    } else if right.dom().contains(p) {
        Some(SnapshotChangeKind::Added)
    } else if left.dom().contains(p) {
        Some(SnapshotChangeKind::Deleted)
    } else {
        None
    }
}

/// What every changed path changed to.
pub open spec fn change_map(before: Nodes, after: Nodes) -> Map<Names, SnapshotChangeKind> {
    Map::new(|p: Names| change_at(before, after, p) is Some, |p: Names| change_at(before, after, p)->0)
}

/// The list of all changes between two trees, in order.
pub open spec fn lists_changes(all: Changes, before: Nodes, after: Nodes) -> bool {
    path_map::in_order(all) && path_map::entry_map(all) == change_map(before, after)
}

/// Whether a path comes after a cursor.
pub open spec fn after_cursor(cursor: Option<Names>, p: Names) -> bool {
    cursor matches Some(place) ==> path::path_before(place, p)
}

/// The changes after a cursor.
pub open spec fn rest_of(all: Changes, cursor: Option<Names>) -> Changes {
    all.filter(|change: (Names, SnapshotChangeKind)| after_cursor(cursor, change.0))
}

/// The path that an optional path stands for.
pub open spec fn path_view(at: Option<RelPath>) -> Option<Names> {
    match at {
        Some(named) => Some(named@),
        None => None,
    }
}

/// The page of changes after a cursor.
pub open spec fn is_page(diff: SnapshotDiff, all: Changes, cursor: Option<Names>, max_changes: usize) -> bool {
    let rest = rest_of(all, cursor);
    let count = if rest.len() < max_changes {
        rest.len() as int
    } else {
        max_changes as int
    };
    &&& diff.changed_paths == all.len()
    &&& change_views(diff.changes@) == rest.take(count)
    &&& diff.truncated == (count < rest.len())
    &&& path_view(diff.next_path) == if count < rest.len() && count > 0 {
        Some(rest[count - 1].0)
    } else {
        None
    }
}

/// The changes of one page and of those that follow it are the changes: asking
/// for what comes after the last path of a page goes on where the page ended.
pub proof fn law_next_page_continues(all: Changes, cursor: Option<Names>, count: int)
    requires
        path_map::in_order(all),
        0 < count <= rest_of(all, cursor).len(),
    ensures
        rest_of(all, Some(rest_of(all, cursor)[count - 1].0)) == rest_of(all, cursor).skip(count),
{
    let keep = |change: (Names, SnapshotChangeKind)| after_cursor(cursor, change.0);
    let rest = rest_of(all, cursor);
    path_map::lemma_filter_in_order(all, keep);
    let place = rest[count - 1].0;
    path_map::lemma_filter_members(all, keep);
    assert(rest.contains(rest[count - 1]));
    lemma_later_filter(all, cursor, place);
    lemma_rest_after_member(rest, count - 1);
}

/// Where a page of a sequence of pages begins: after the last path of the page before.
pub open spec fn page_cursor(pages: Seq<SnapshotDiff>, k: int) -> Option<Names> {
    if k <= 0 {
        None
    } else {
        path_view(pages[k - 1].next_path)
    }
}

/// Whether a page of a sequence of pages follows the page before; all but the last are
/// truncated.
pub open spec fn is_page_at(pages: Seq<SnapshotDiff>, all: Changes, max_changes: usize, k: int) -> bool {
    &&& is_page(pages[k], all, page_cursor(pages, k), max_changes)
    &&& pages[k].truncated <==> k < pages.len() - 1
}

/// Whether pages follow each other, up to the first that is not truncated.
pub open spec fn are_pages(pages: Seq<SnapshotDiff>, all: Changes, max_changes: usize) -> bool {
    pages.len() > 0 && forall|k: int| 0 <= k < pages.len() ==> #[trigger] is_page_at(pages, all, max_changes, k)
}

/// The changes of some pages, one after the other.
pub open spec fn paged_changes(pages: Seq<SnapshotDiff>) -> Changes
    decreases pages.len(),
{
    if pages.len() == 0 {
        Seq::empty()
    } else {
        paged_changes(pages.drop_last()) + change_views(pages.last().changes@)
    }
}

/// Whether a page has at most as many changes as were asked for, counts all of them, and
/// is truncated exactly where it names its last path for the next.
pub open spec fn is_sound_page(page: SnapshotDiff, all: Changes, max_changes: usize) -> bool {
    &&& page.changes@.len() <= max_changes
    &&& page.changed_paths == all.len()
    &&& page.truncated == page.next_path is Some
    &&& page.truncated ==> path_view(page.next_path) == Some(change_views(page.changes@).last().0)
}

proof fn lemma_page_is_sound(page: SnapshotDiff, all: Changes, cursor: Option<Names>, max_changes: usize)
    requires
        max_changes > 0,
        is_page(page, all, cursor, max_changes),
    ensures
        is_sound_page(page, all, max_changes),
        !page.truncated ==> change_views(page.changes@) == rest_of(all, cursor),
{
    let rest = rest_of(all, cursor);
    assert(change_views(page.changes@).len() == page.changes@.len());
    assert(path_view(page.next_path) is Some <==> page.next_path is Some);
    lemma_nothing_first(rest);
}

/// All pages together are the whole list of changes, none lost and none repeated, and
/// each of them is sound.
pub proof fn law_pages_make_up_the_diff(pages: Seq<SnapshotDiff>, all: Changes, max_changes: usize)
    requires
        path_map::in_order(all),
        max_changes > 0,
        are_pages(pages, all, max_changes),
    ensures
        paged_changes(pages) == all,
        forall|k: int| 0 <= k < pages.len() ==> is_sound_page(#[trigger] pages[k], all, max_changes),
{
    let last = pages.len() - 1;
    lemma_pages_so_far(pages, all, max_changes, last);
    assert(pages.drop_last() =~= pages.take(last));
    assert(is_page_at(pages, all, max_changes, last));
    lemma_page_is_sound(pages[last], all, page_cursor(pages, last), max_changes);
    assert forall|k: int| 0 <= k < pages.len() implies is_sound_page(#[trigger] pages[k], all, max_changes) by {
        assert(is_page_at(pages, all, max_changes, k));
        lemma_page_is_sound(pages[k], all, page_cursor(pages, k), max_changes);
    }
}

/// What a page that is truncated holds, and what comes after it.
proof fn lemma_truncated_page(page: SnapshotDiff, all: Changes, cursor: Option<Names>, max_changes: usize)
    requires
        path_map::in_order(all),
        max_changes > 0,
        is_page(page, all, cursor, max_changes),
        page.truncated,
    ensures
        change_views(page.changes@) + rest_of(all, path_view(page.next_path)) == rest_of(all, cursor),
{
    let rest = rest_of(all, cursor);
    law_next_page_continues(all, cursor, max_changes as int);
    assert(rest =~= rest.take(max_changes as int) + rest.skip(max_changes as int));
}

/// What the first pages hold and what comes after them is the whole list.
#[verifier::rlimit(40)]
proof fn lemma_pages_so_far(pages: Seq<SnapshotDiff>, all: Changes, max_changes: usize, n: int)
    requires
        path_map::in_order(all),
        max_changes > 0,
        are_pages(pages, all, max_changes),
        0 <= n < pages.len(),
    ensures
        paged_changes(pages.take(n)) + rest_of(all, page_cursor(pages, n)) == all,
    decreases n,
{
    if n == 0 {
        assert(pages.take(0) =~= Seq::<SnapshotDiff>::empty());
        lemma_whole_rest(all);
        lemma_nothing_first(all);
    } else {
        lemma_pages_so_far(pages, all, max_changes, n - 1);
        let page = pages[n - 1];
        assert(pages.take(n).drop_last() =~= pages.take(n - 1));
        assert(pages.take(n).last() == page);
        assert(is_page_at(pages, all, max_changes, n - 1));
        lemma_truncated_page(page, all, page_cursor(pages, n - 1), max_changes);
        let front = paged_changes(pages.take(n - 1));
        let held = change_views(page.changes@);
        let rest = rest_of(all, page_cursor(pages, n));
        lemma_regroup(front, held, rest);
    }
}

proof fn lemma_regroup(a: Changes, b: Changes, c: Changes)
    ensures
        (a + b) + c == a + (b + c),
{
    assert((a + b) + c =~= a + (b + c));
}

proof fn lemma_nothing_first(a: Changes)
    ensures
        Changes::empty() + a == a,
        a.take(a.len() as int) == a,
{
    assert(Changes::empty() + a =~= a);
    assert(a.take(a.len() as int) =~= a);
}

proof fn lemma_whole_rest(all: Changes)
    ensures
        rest_of(all, None) == all,
    decreases all.len(),
{
    reveal(Seq::filter);
    if all.len() > 0 {
        lemma_whole_rest(all.drop_last());
        assert(all.drop_last().push(all.last()) =~= all);
    } else {
        assert(rest_of(all, None) =~= all);
    }
}

/// Filtering by a later cursor can go through an earlier one.
proof fn lemma_later_filter(all: Changes, cursor: Option<Names>, place: Names)
    requires
        after_cursor(cursor, place),
    ensures
        rest_of(all, Some(place)) == rest_of(rest_of(all, cursor), Some(place)),
    decreases all.len(),
{
    reveal(Seq::filter);
    if all.len() > 0 {
        lemma_later_filter(all.drop_last(), cursor, place);
        let last = all.last();
        if after_cursor(Some(place), last.0) {
            if cursor is Some {
                path::lemma_path_transitive(cursor->0, place, last.0);
            }
            let mid = rest_of(all.drop_last(), cursor);
            assert(rest_of(all, cursor) == mid.push(last));
            assert(mid.push(last).drop_last() =~= mid);
        } else if after_cursor(cursor, last.0) {
            let mid = rest_of(all.drop_last(), cursor);
            assert(rest_of(all, cursor) == mid.push(last));
            assert(mid.push(last).drop_last() =~= mid);
        }
    }
}

proof fn lemma_rest_after_member(list: Changes, at: int)
    requires
        path_map::in_order(list),
        0 <= at < list.len(),
    ensures
        rest_of(list, Some(list[at].0)) == list.skip(at + 1),
    decreases list.len(),
{
    reveal(Seq::filter);
    let shorter = list.drop_last();
    path_map::lemma_drop_last_in_order(list);
    path::lemma_path_irreflexive(list[at].0);
    if at == list.len() - 1 {
        assert(rest_of(shorter, Some(list[at].0)) =~= Changes::empty()) by {
            lemma_nothing_after(shorter, list[at].0, list);
        }
        assert(list.skip(at + 1) =~= Changes::empty());
    } else {
        assert(shorter[at] == list[at]);
        lemma_rest_after_member(shorter, at);
        assert(path::path_before(list[at].0, list[list.len() - 1].0));
        assert(list.skip(at + 1) =~= shorter.skip(at + 1).push(list.last()));
    }
}

proof fn lemma_nothing_after(shorter: Changes, place: Names, list: Changes)
    requires
        path_map::in_order(list),
        shorter.len() < list.len(),
        shorter == list.take(shorter.len() as int),
        place == list.last().0,
    ensures
        rest_of(shorter, Some(place)).len() == 0,
    decreases shorter.len(),
{
    reveal(Seq::filter);
    if shorter.len() > 0 {
        let less = shorter.drop_last();
        assert(less =~= list.take(less.len() as int));
        lemma_nothing_after(less, place, list);
        let last = shorter.last();
        assert(last == list[shorter.len() - 1]);
        assert(path::path_before(list[shorter.len() - 1].0, list[list.len() - 1].0));
        if path::path_before(place, last.0) {
            path::lemma_path_transitive(last.0, place, last.0);
            path::lemma_path_irreflexive(last.0);
        }
    }
}

/// A diff that is being listed.
struct Listing {
    changes: Vec<SnapshotChange>,
    changed_paths: usize,
    remaining: usize,
}

/// The changes that a listing retains of the first ones.
spec fn retained(listing: Listing, all: Changes, cursor: Option<Names>, max_changes: usize) -> bool {
    let rest = rest_of(all, cursor);
    &&& listing.changed_paths == all.len()
    &&& listing.remaining == rest.len()
    &&& change_views(listing.changes@) == rest.take(
        if rest.len() < max_changes {
            rest.len() as int
        } else {
            max_changes as int
        },
    )
}

/// Lists one more change.
fn list_change(
    listing: &mut Listing,
    at: &RelPath,
    kind: SnapshotChangeKind,
    cursor: &Option<RelPath>,
    max_changes: usize,
    Ghost(all): Ghost<Changes>,
)
    requires
        retained(*old(listing), all, path_view(*cursor), max_changes),
        all.len() < usize::MAX,
    ensures
        retained(*final(listing), all.push((at@, kind)), path_view(*cursor), max_changes),
{
    let ghost place = path_view(*cursor);
    let ghost before = rest_of(all, place);
    proof {
        reveal(Seq::filter);
        assert(all.push((at@, kind)).drop_last() =~= all);
        lemma_filter_len(all, place);
    }
    proof {
        assert(change_views(listing.changes@).len() == listing.changes@.len());
    }
    listing.changed_paths = listing.changed_paths + 1;
    let is_after = match cursor {
        Some(named) => named.precedes(at),
        None => true,
    };
    if is_after {
        proof {
            assert(rest_of(all.push((at@, kind)), place) == before.push((at@, kind)));
        }
        listing.remaining = listing.remaining + 1;
        if listing.changes.len() < max_changes {
            let ghost held = change_views(listing.changes@);
            let added = SnapshotChange { path: at.copy(), kind };
            listing.changes.push(added);
            proof {
                assert(change_views(listing.changes@) =~= held.push((at@, kind)));
                assert(held =~= before);
                assert(before.push((at@, kind)).take(before.len() as int + 1) =~= before.push((at@, kind)));
            }
        } else {
            proof {
                assert(before.push((at@, kind)).take(max_changes as int) =~= before.take(max_changes as int));
            }
        }
    }
}

proof fn lemma_filter_len(all: Changes, cursor: Option<Names>)
    ensures
        rest_of(all, cursor).len() <= all.len(),
    decreases all.len(),
{
    reveal(Seq::filter);
    if all.len() > 0 {
        lemma_filter_len(all.drop_last(), cursor);
    }
}

/// Whether a path is among the first entries of two lists.
spec fn listed_so_far(before: Nodes, i: int, after: Nodes, j: int, p: Names) -> bool {
    path_map::has_path(before.take(i), p) || path_map::has_path(after.take(j), p)
}

/// The changes found among the first entries of two lists.
spec fn found_so_far(all: Changes, before: Nodes, i: int, after: Nodes, j: int) -> bool {
    &&& path_map::in_order(all)
    &&& forall|p: Names|
        #[trigger] path_map::has_path(all, p) <==> (listed_so_far(before, i, after, j, p) && change_at(
            before,
            after,
            p,
        ) is Some)
    &&& forall|k: int|
        0 <= k < all.len() ==> change_at(before, after, (#[trigger] all[k]).0) == Some(all[k].1)
}

/// What comes next is behind everything that was listed.
spec fn split_between(before: Nodes, i: int, after: Nodes, j: int) -> bool {
    &&& forall|k: int, m: int|
        0 <= k < i && j <= m < after.len() ==> path::path_before(
            #[trigger] before[k].0,
            #[trigger] after[m].0,
        )
    &&& forall|k: int, m: int|
        0 <= k < j && i <= m < before.len() ==> path::path_before(
            #[trigger] after[k].0,
            #[trigger] before[m].0,
        )
}

/// One more path in order, with its change or without one.
proof fn lemma_found_next(
    all: Changes,
    before: Nodes,
    i: int,
    after: Nodes,
    j: int,
    next_i: int,
    next_j: int,
    p: Names,
)
    requires
        path_map::in_order(before),
        path_map::in_order(after),
        0 <= i <= next_i <= before.len(),
        0 <= j <= next_j <= after.len(),
        found_so_far(all, before, i, after, j),
        forall|q: Names|
            #[trigger] listed_so_far(before, next_i, after, next_j, q) <==> (listed_so_far(
                before,
                i,
                after,
                j,
                q,
            ) || q == p),
        forall|k: int| 0 <= k < i ==> path::path_before(#[trigger] before[k].0, p),
        forall|k: int| 0 <= k < j ==> path::path_before(#[trigger] after[k].0, p),
    ensures
        change_at(before, after, p) matches Some(kind) ==> found_so_far(
            all.push((p, kind)),
            before,
            next_i,
            after,
            next_j,
        ),
        change_at(before, after, p) is None ==> found_so_far(all, before, next_i, after, next_j),
{
    match change_at(before, after, p) {
        Some(kind) => {
            let next = all.push((p, kind));
            assert forall|a: int, b: int| 0 <= a < b < next.len() implies path::path_before(
                #[trigger] next[a].0,
                #[trigger] next[b].0,
            ) by {
                if b == all.len() {
                    assert(path_map::has_path(all, all[a].0));
                    if path_map::has_path(before.take(i), all[a].0) {
                        let k = path_map::place_of(before.take(i), all[a].0);
                        assert(path::path_before(before[k].0, p));
                    } else {
                        let k = path_map::place_of(after.take(j), all[a].0);
                        assert(path::path_before(after[k].0, p));
                    }
                } else {
                    assert(path::path_before(all[a].0, all[b].0));
                }
            }
            assert forall|q: Names|
                #[trigger] path_map::has_path(next, q) <==> (listed_so_far(before, next_i, after, next_j, q)
                    && change_at(before, after, q) is Some) by {
                if path_map::has_path(next, q) {
                    let k = path_map::place_of(next, q);
                    if k < all.len() {
                        assert(all[k].0 == q);
                    }
                }
                if path_map::has_path(all, q) {
                    let k = path_map::place_of(all, q);
                    assert(next[k].0 == q);
                }
                assert(next[all.len() as int].0 == p);
            }
        },
        None => {
            assert forall|q: Names|
                #[trigger] path_map::has_path(all, q) <==> (listed_so_far(before, next_i, after, next_j, q)
                    && change_at(before, after, q) is Some) by {}
        },
    }
}

proof fn lemma_step(listed: Nodes, i: int)
    requires
        0 <= i < listed.len(),
    ensures
        forall|q: Names|
            #[trigger] path_map::has_path(listed.take(i + 1), q) <==> (path_map::has_path(listed.take(i), q)
                || q == listed[i].0),
{
    assert forall|q: Names|
        #[trigger] path_map::has_path(listed.take(i + 1), q) <==> (path_map::has_path(listed.take(i), q) || q
            == listed[i].0) by {
        crate::snapshot::compare::lemma_has_path_step(listed, i, q);
    }
}

/// What comparing two indexed trees gives: a page of their changes.
pub open spec fn is_diff_of(
    before: SnapshotIndex,
    after: SnapshotIndex,
    cursor: Option<RelPath>,
    max_changes: usize,
    result: Result<SnapshotDiff, SnapshotError>,
) -> bool {
    if before.nodes().len() + after.nodes().len() > DEFAULT_SCAN_ENTRY_BUDGET {
        result == Err::<SnapshotDiff, SnapshotError>(
            SnapshotError::LimitExceeded(LimitFault::DiffEntries),
        )
    } else {
        result matches Ok(diff) && exists|all: Changes| #[trigger]
            lists_changes(all, before.nodes(), after.nodes()) && is_page(
                diff,
                all,
                path_view(cursor),
                max_changes,
            )
    }
}

/// Compares two indexed trees and lists the changes after a cursor, at most
/// `max_changes` of them.
#[verifier::loop_isolation(false)]
#[verifier::rlimit(60)]
pub fn diff_indexes(
    before: &SnapshotIndex,
    after: &SnapshotIndex,
    cursor: &Option<RelPath>,
    max_changes: usize,
) -> (result: Result<SnapshotDiff, SnapshotError>)
    requires
        before.wf(),
        after.wf(),
    ensures
        is_diff_of(*before, *after, *cursor, max_changes, result),
{
    let ghost left = before.nodes();
    let ghost right = after.nodes();
    let ghost place = path_view(*cursor);
    if before.entries.len() > DEFAULT_SCAN_ENTRY_BUDGET || after.entries.len() > DEFAULT_SCAN_ENTRY_BUDGET
        - before.entries.len() {
        return Err(SnapshotError::LimitExceeded(LimitFault::DiffEntries));
    }
    let mut listing = Listing { changes: Vec::new(), changed_paths: 0, remaining: 0 };
    let ghost mut all: Changes = Changes::empty();
    let mut i: usize = 0;
    let mut j: usize = 0;
    proof {
        reveal(Seq::filter);
        assert(change_views(listing.changes@) =~= rest_of(all, place).take(0));
    }
    while i < before.entries.len() || j < after.entries.len()
        invariant
            before.wf(),
            after.wf(),
            left == before.nodes(),
            right == after.nodes(),
            i <= left.len(),
            j <= right.len(),
            all.len() <= i + j,
            split_between(left, i as int, right, j as int),
            found_so_far(all, left, i as int, right, j as int),
            retained(listing, all, place, max_changes),
        decreases left.len() - i + right.len() - j,
    {
        let take_left = i < before.entries.len() && (j >= after.entries.len()
            || !after.entries.path_at(j).precedes(before.entries.path_at(i)));
        let take_right = j < after.entries.len() && (i >= before.entries.len()
            || !before.entries.path_at(i).precedes(after.entries.path_at(j)));
        let at = if take_left {
            before.entries.path_at(i)
        } else {
            after.entries.path_at(j)
        };
        let ghost p = at@;
        proof {
            let next_i: int = if take_left { i as int + 1 } else { i as int };
            let next_j: int = if take_right { j as int + 1 } else { j as int };
            lemma_merge_step(left, i as int, right, j as int, take_left, take_right, next_i, next_j, p);
            lemma_found_next(all, left, i as int, right, j as int, next_i, next_j, p);
        }
        let kind = if take_left && take_right {
            indexed_change_kind(before.entries.value_at(i), after.entries.value_at(j))
        } else if take_left {
            Some(SnapshotChangeKind::Deleted)
        } else {
            Some(SnapshotChangeKind::Added)
        };
        if !at.is_root() {
            match kind {
                Some(change) => {
                    list_change(&mut listing, at, change, cursor, max_changes, Ghost(all));
                    proof {
                        all = all.push((p, change));
                    }
                },
                None => {},
            }
        }
        if take_left {
            i = i + 1;
        }
        if take_right {
            j = j + 1;
        }
    }
    proof {
        assert(left.take(i as int) =~= left);
        assert(right.take(j as int) =~= right);
        lemma_all_found(all, left, right);
    }
    let truncated = listing.changes.len() < listing.remaining;
    let held = listing.changes.len();
    let next_path = if truncated && held > 0 {
        Some(listing.changes[held - 1].path.copy())
    } else {
        None
    };
    proof {
        assert(change_views(listing.changes@).len() == listing.changes@.len());
        if truncated && held > 0 {
            assert(change_views(listing.changes@)[held - 1] == rest_of(all, place)[held - 1]);
        }
    }
    let diff = SnapshotDiff {
        truncated,
        changes: listing.changes,
        changed_paths: listing.changed_paths,
        next_path,
    };
    proof {
        assert(is_page(diff, all, place, max_changes));
        assert(lists_changes(all, left, right));
    }
    Ok(diff)
}

/// The smaller of two next paths is the next path of both lists together.
proof fn lemma_merge_step(
    left: Nodes,
    i: int,
    right: Nodes,
    j: int,
    take_left: bool,
    take_right: bool,
    next_i: int,
    next_j: int,
    p: Names,
)
    requires
        next_i == if take_left { i + 1 } else { i },
        next_j == if take_right { j + 1 } else { j },
        take_left ==> p == left[i].0,
        !take_left ==> p == right[j].0,
        path_map::in_order(left),
        path_map::in_order(right),
        0 <= i <= left.len(),
        0 <= j <= right.len(),
        i < left.len() || j < right.len(),
        split_between(left, i, right, j),
        take_left == (i < left.len() && (j >= right.len() || !path::path_before(right[j].0, left[i].0))),
        take_right == (j < right.len() && (i >= left.len() || !path::path_before(left[i].0, right[j].0))),
    ensures
        take_left || take_right,
        take_left && take_right ==> left[i].0 == right[j].0,
        split_between(left, next_i, right, next_j),
        forall|q: Names|
            #[trigger] listed_so_far(left, next_i, right, next_j, q) <==> (listed_so_far(
                left,
                i,
                right,
                j,
                q,
            ) || q == p),
        forall|k: int| 0 <= k < i ==> path::path_before(#[trigger] left[k].0, p),
        forall|k: int| 0 <= k < j ==> path::path_before(#[trigger] right[k].0, p),
        take_left ==> path_map::entry_map(left).dom().contains(p) && path_map::entry_map(left)[p]
            == left[i].1,
        take_right ==> path_map::entry_map(right).dom().contains(p) && path_map::entry_map(right)[p]
            == right[j].1,
        !take_left ==> !path_map::entry_map(left).dom().contains(p),
        !take_right ==> !path_map::entry_map(right).dom().contains(p),
{
    if i < left.len() && j < right.len() {
        path::lemma_path_total(left[i].0, right[j].0);
        path::lemma_path_irreflexive(left[i].0);
        path::lemma_path_irreflexive(right[j].0);
        if path::path_before(left[i].0, right[j].0) && path::path_before(right[j].0, left[i].0) {
            path::lemma_path_transitive(left[i].0, right[j].0, left[i].0);
        }
    }
    assert forall|k: int| 0 <= k < i implies path::path_before(#[trigger] left[k].0, p) by {
        if take_left {
            assert(path::path_before(left[k].0, left[i].0));
        } else {
            assert(path::path_before(left[k].0, right[j].0));
        }
    }
    assert forall|k: int| 0 <= k < j implies path::path_before(#[trigger] right[k].0, p) by {
        if take_left {
            assert(path::path_before(right[k].0, left[i].0));
        } else {
            assert(path::path_before(right[k].0, right[j].0));
        }
    }
    assert forall|m: int| next_j <= m < right.len() implies path::path_before(p, #[trigger] right[m].0) by {
        if take_right {
            assert(path::path_before(right[j].0, right[m].0));
        } else {
            assert(path::path_before(p, right[j].0));
            if m > j {
                assert(path::path_before(right[j].0, right[m].0));
                path::lemma_path_transitive(p, right[j].0, right[m].0);
            }
        }
    }
    assert forall|m: int| next_i <= m < left.len() implies path::path_before(p, #[trigger] left[m].0) by {
        if take_left {
            assert(path::path_before(left[i].0, left[m].0));
        } else {
            assert(path::path_before(p, left[i].0));
            if m > i {
                assert(path::path_before(left[i].0, left[m].0));
                path::lemma_path_transitive(p, left[i].0, left[m].0);
            }
        }
    }
    assert(split_between(left, next_i, right, next_j)) by {
        assert forall|k: int, m: int| 0 <= k < next_i && next_j <= m < right.len() implies path::path_before(
            #[trigger] left[k].0,
            #[trigger] right[m].0,
        ) by {}
        assert forall|k: int, m: int| 0 <= k < next_j && next_i <= m < left.len() implies path::path_before(
            #[trigger] right[k].0,
            #[trigger] left[m].0,
        ) by {}
    }
    if take_left {
        lemma_step(left, i);
        path_map::lemma_entry_at(left, i);
    } else if path_map::has_path(left, p) {
        let k = path_map::place_of(left, p);
        path::lemma_path_irreflexive(p);
        assert(left[k].0 == p);
    }
    if take_right {
        lemma_step(right, j);
        path_map::lemma_entry_at(right, j);
    } else if path_map::has_path(right, p) {
        let k = path_map::place_of(right, p);
        path::lemma_path_irreflexive(p);
        assert(right[k].0 == p);
    }
}

proof fn lemma_all_found(all: Changes, left: Nodes, right: Nodes)
    requires
        found_so_far(all, left, left.len() as int, right, right.len() as int),
    ensures
        lists_changes(all, left, right),
{
    assert(left.take(left.len() as int) =~= left);
    assert(right.take(right.len() as int) =~= right);
    let expected = change_map(left, right);
    assert forall|p: Names| path_map::entry_map(all).dom().contains(p) <==> expected.dom().contains(p) by {
        assert(path_map::has_path(all, p) <==> (listed_so_far(
            left,
            left.len() as int,
            right,
            right.len() as int,
            p,
        ) && change_at(left, right, p) is Some));
    }
    assert forall|p: Names| #[trigger] path_map::entry_map(all).dom().contains(p) implies path_map::entry_map(
        all,
    )[p] == expected[p] by {
        let k = path_map::place_of(all, p);
        path_map::lemma_entry_at(all, k);
    }
    assert(path_map::entry_map(all) =~= expected);
}

/// Two indexes differ at a path exactly where only one of them has it, or where both have it
/// and its kind, its mode, the length or the hash of a file, or the hash of a link differ.
/// The root is never a change.
pub proof fn law_differences_are_what_differs(before: Nodes, after: Nodes, p: Names)
    requires
        p.len() > 0,
    ensures
        ({
            let left = path_map::entry_map(before);
            let right = path_map::entry_map(after);
            let change = change_at(before, after, p);
            let had = left.dom().contains(p);
            let stands = right.dom().contains(p);
            let was = left[p];
            let is = right[p];
            &&& change == Some(SnapshotChangeKind::Added) <==> !had && stands
            &&& change == Some(SnapshotChangeKind::Deleted) <==> had && !stands
            &&& change == Some(SnapshotChangeKind::TypeChanged) <==> had && stands && was.kind != is.kind
            &&& change == Some(SnapshotChangeKind::Modified) <==> had && stands && was.kind is File && is.kind is File && (
            was.len != is.len || was.hash != is.hash)
            &&& change == Some(SnapshotChangeKind::SymlinkTargetChanged) <==> had && stands && was.kind is Symlink && is.kind
                is Symlink && was.hash != is.hash
            &&& change == Some(SnapshotChangeKind::ModeChanged) <==> had && stands && was.kind == is.kind && was.mode
                != is.mode && (was.kind is File ==> was.len == is.len && was.hash == is.hash) && (was.kind is Symlink
                ==> was.hash == is.hash)
        }),
        change_at(before, after, Names::empty()) is None,
{
}

/// Going the other way turns additions and deletions round and leaves every other change as
/// it is; an index has no difference from itself.
pub proof fn law_differences_go_both_ways(before: Nodes, after: Nodes, p: Names)
    ensures
        change_at(after, before, p) == match change_at(before, after, p) {
            Some(SnapshotChangeKind::Added) => Some(SnapshotChangeKind::Deleted),
            Some(SnapshotChangeKind::Deleted) => Some(SnapshotChangeKind::Added),
            other => other,
        },
        change_at(before, before, p) is None,
{
}

/// A difference lists every changed path once, in order, with what changed there.
pub proof fn law_differences_are_listed_once(all: Changes, before: Nodes, after: Nodes, p: Names)
    requires
        lists_changes(all, before, after),
    ensures
        path_map::has_path(all, p) <==> change_at(before, after, p) is Some,
        forall|i: int|
            0 <= i < all.len() && (#[trigger] all[i]).0 == p ==> change_at(before, after, p) == Some(all[i].1),
{
    assert(path_map::entry_map(all).dom().contains(p) <==> change_map(before, after).dom().contains(p));
    assert forall|i: int| 0 <= i < all.len() && (#[trigger] all[i]).0 == p implies change_at(before, after, p) == Some(
        all[i].1,
    ) by {
        path_map::lemma_entry_at(all, i);
    }
}

/// A page of a difference of two indexes holds changes alone that there are, no more than
/// was asked for, and tells how many there are in all; indexes that are too large together
/// are not compared.
pub proof fn law_pages_hold_changes(
    before: SnapshotIndex,
    after: SnapshotIndex,
    cursor: Option<RelPath>,
    max_changes: usize,
    result: Result<SnapshotDiff, SnapshotError>,
)
    requires
        is_diff_of(before, after, cursor, max_changes, result),
    ensures
        result is Ok <==> before.nodes().len() + after.nodes().len() <= 100_000,
        result matches Ok(diff) ==> {
            &&& diff.changes@.len() <= max_changes
            &&& diff.changes@.len() <= diff.changed_paths
            &&& diff.changed_paths == 0 ==> !diff.truncated
            &&& diff.next_path is Some ==> diff.truncated
            &&& forall|i: int|
                0 <= i < diff.changes@.len() ==> change_at(
                    before.nodes(),
                    after.nodes(),
                    (#[trigger] diff.changes@[i]).path@,
                ) == Some(diff.changes@[i].kind)
        },
{
    if let Ok(diff) = result {
        let all = choose|all: Changes| #[trigger]
            lists_changes(all, before.nodes(), after.nodes()) && is_page(diff, all, path_view(cursor), max_changes);
        let rest = rest_of(all, path_view(cursor));
        let count = if rest.len() < max_changes {
            rest.len() as int
        } else {
            max_changes as int
        };
        lemma_rest_is_held(all, path_view(cursor));
        assert(change_views(diff.changes@).len() == diff.changes@.len());
        assert forall|i: int| 0 <= i < diff.changes@.len() implies change_at(
            before.nodes(),
            after.nodes(),
            (#[trigger] diff.changes@[i]).path@,
        ) == Some(diff.changes@[i].kind) by {
            assert(change_views(diff.changes@)[i] == rest.take(count)[i]);
            assert(rest.contains(rest[i]));
            let k = choose|k: int| 0 <= k < all.len() && all[k] == rest[i];
            law_differences_are_listed_once(all, before.nodes(), after.nodes(), rest[i].0);
            assert(all[k].0 == rest[i].0);
        }
    }
}

proof fn lemma_rest_is_held(all: Changes, cursor: Option<Names>)
    ensures
        rest_of(all, cursor).len() <= all.len(),
        forall|i: int| 0 <= i < rest_of(all, cursor).len() ==> all.contains(#[trigger] rest_of(all, cursor)[i]),
{
    let keep = |change: (Names, SnapshotChangeKind)| after_cursor(cursor, change.0);
    all.lemma_filter_len(keep);
    assert forall|i: int| 0 <= i < rest_of(all, cursor).len() implies all.contains(#[trigger] rest_of(all, cursor)[i]) by {
        all.lemma_filter_contains_rev(keep, rest_of(all, cursor)[i]);
    }
}

} // verus!
