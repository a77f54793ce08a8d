//! Applying a delta to a live directory.
//!
//! Every changed path has to be at one end of the delta before anything is
//! written. Then what goes is removed, leaves first; directories are made,
//! parents first; files and links are put in place; modes are set, leaves
//! first.

use crate::error::SnapshotError;
use crate::path;
use crate::path::{Names, RelPath};
use crate::path_map::PathMap;
use crate::snapshot::compare;
use crate::snapshot::compare::{
    collect_subtree, inventory_entry_equal, sorted_paths, SnapshotCompareLimits, SnapshotRequirement,
};
use crate::snapshot::delta;
use crate::snapshot::delta::{DeltaView, SnapshotDelta, SnapshotDeltaApplyMode, SnapshotDeltaSummary};
use crate::snapshot::inventory;
use crate::snapshot::inventory::{same_bytes, EntryStamp};
use crate::snapshot::{EntryView, SnapshotChangeKind, SnapshotEntry, SnapshotEntryKind};
use vstd::prelude::*;

verus! {

/// What was seen of the two ends of a delta and of its destination; `same_as_*`
/// hold the paths whose contents are the same as at that end.
pub struct DeltaEvidence {
    pub base: PathMap<EntryStamp>,
    pub target: PathMap<EntryStamp>,
    pub current: PathMap<EntryStamp>,
    pub same_as_base: PathMap<u32>,
    pub same_as_target: PathMap<u32>,
}

impl DeltaEvidence {
    /// Every map stands in order.
    pub open spec fn wf(&self) -> bool {
        &&& self.base.wf()
        &&& self.target.wf()
        &&& self.current.wf()
        &&& self.same_as_base.wf()
        &&& self.same_as_target.wf()
    }
}

/// Whether the destination is at the base end at a path.
pub open spec fn at_base(seen: DeltaEvidence, p: Names) -> bool {
    compare::equal_at(seen.base@, seen.current@, p, seen.same_as_base@.dom().contains(p))
}

/// Whether the destination is at the target end at a path.
pub open spec fn at_target(seen: DeltaEvidence, p: Names) -> bool {
    compare::equal_at(seen.target@, seen.current@, p, seen.same_as_target@.dom().contains(p))
}

/// Whether nothing stands where one kind of entry goes and another comes: the first
/// was removed, and the second is not there yet.
pub open spec fn is_gone(
    before: Option<SnapshotEntryKind>,
    after: Option<SnapshotEntryKind>,
    current: Option<SnapshotEntryKind>,
) -> bool {
    before is Some && after is Some && before != after && current is None
}

/// Whether a directory stands where one comes: it was made, and may not have its mode
/// yet.
pub open spec fn is_made(
    before: Option<SnapshotEntryKind>,
    after: Option<SnapshotEntryKind>,
    current: Option<SnapshotEntryKind>,
) -> bool {
    let directory = Some(SnapshotEntryKind::Directory);
    before != directory && after == directory && current == directory
}

/// What kind of entry an inventory has at a path.
pub open spec fn kind_at(stock: Map<Names, inventory::Stamp>, p: Names) -> Option<SnapshotEntryKind> {
    if stock.dom().contains(p) {
        Some(stock[p].kind)
    } else {
        None
    }
}

/// Whether an interrupted apply left a path between its two ends.
pub open spec fn halfway_at(seen: DeltaEvidence, p: Names) -> bool {
    let (before, after, current) = (kind_at(seen.base@, p), kind_at(seen.target@, p), kind_at(seen.current@, p));
    is_gone(before, after, current) || is_made(before, after, current)
}

/// Whether the destination conflicts with the delta at a path: resuming goes on from
/// either end and from where an interrupted apply stopped.
pub open spec fn conflicts_at(seen: DeltaEvidence, mode: SnapshotDeltaApplyMode, p: Names) -> bool {
    !at_base(seen, p) && !(mode is Resume && (at_target(seen, p) || halfway_at(seen, p)))
}

/// What a path must be at: one of the ends that a mode allows, or the target
/// after everything was written.
#[derive(Clone, Copy, Debug, PartialEq, Eq, Structural)]
pub enum Expectation {
    Before(SnapshotDeltaApplyMode),
    After,
}

/// Whether a path is not where it must be.
pub open spec fn misplaced(seen: DeltaEvidence, expected: Expectation, p: Names) -> bool {
    match expected {
        Expectation::Before(mode) => conflicts_at(seen, mode, p),
        Expectation::After => !at_target(seen, p),
    }
}

fn found_gone(
    before: Option<SnapshotEntryKind>,
    after: Option<SnapshotEntryKind>,
    current: Option<SnapshotEntryKind>,
) -> (result: bool)
    ensures
        result == is_gone(before, after, current),
{
    match (before, after, current) {
        (Some(from), Some(to), None) => from != to,
        _ => false,
    }
}

fn found_made(
    before: Option<SnapshotEntryKind>,
    after: Option<SnapshotEntryKind>,
    current: Option<SnapshotEntryKind>,
) -> (result: bool)
    ensures
        result == is_made(before, after, current),
{
    match (before, after, current) {
        (None, Some(to), Some(now)) => to == SnapshotEntryKind::Directory && now == SnapshotEntryKind::Directory,
        (Some(from), Some(to), Some(now)) => from != SnapshotEntryKind::Directory && to
            == SnapshotEntryKind::Directory && now == SnapshotEntryKind::Directory,
        _ => false,
    }
}

fn stamped_kind(stock: &PathMap<EntryStamp>, at: &RelPath) -> (kind: Option<SnapshotEntryKind>)
    requires
        stock.wf(),
    ensures
        kind == kind_at(stock@, at@),
{
    match stock.get(at) {
        Some(stamp) => Some(stamp.kind),
        None => None,
    }
}

fn is_misplaced(seen: &DeltaEvidence, expected: Expectation, at: &RelPath) -> (result: bool)
    requires
        seen.wf(),
    ensures
        result == misplaced(*seen, expected, at@),
{
    match expected {
        Expectation::Before(mode) => {
            let same_base = seen.same_as_base.contains(at);
            if inventory_entry_equal(&seen.base, &seen.current, at, same_base) {
                return false;
            }
            if mode == SnapshotDeltaApplyMode::Resume {
                let same_target = seen.same_as_target.contains(at);
                if inventory_entry_equal(&seen.target, &seen.current, at, same_target) {
                    return false;
                }
                let before = stamped_kind(&seen.base, at);
                let after = stamped_kind(&seen.target, at);
                let current = stamped_kind(&seen.current, at);
                !found_gone(before, after, current) && !found_made(before, after, current)
            } else {
                true
            }
        },
        Expectation::After => {
            let same_target = seen.same_as_target.contains(at);
            !inventory_entry_equal(&seen.target, &seen.current, at, same_target)
        },
    }
}

/// Whether a tree that the expectation speaks of holds a path.
pub open spec fn held_anywhere(seen: DeltaEvidence, expected: Expectation, p: Names) -> bool {
    ||| expected is Before && seen.base@.dom().contains(p)
    ||| seen.target@.dom().contains(p)
    ||| seen.current@.dom().contains(p)
}

/// The misplaced paths at or below a root.
pub open spec fn misplaced_below(seen: DeltaEvidence, expected: Expectation, root: Names) -> Set<Names> {
    Set::new(
        |p: Names|
            path::lies_under(p, root) && held_anywhere(seen, expected, p) && misplaced(seen, expected, p),
    )
}

/// How many of some listed paths are misplaced.
pub open spec fn misplaced_count(seen: DeltaEvidence, expected: Expectation, list: Seq<Names>) -> nat
    decreases list.len(),
{
    if list.len() == 0 {
        0
    } else {
        misplaced_count(seen, expected, list.drop_last()) + if misplaced(seen, expected, list.last()) {
            1nat
        } else {
            0nat
        }
    }
}

/// How many paths at or below some roots are misplaced, root by root.
pub open spec fn misplaced_total(seen: DeltaEvidence, expected: Expectation, roots: Seq<Names>) -> nat
    decreases roots.len(),
{
    if roots.len() == 0 {
        0
    } else {
        misplaced_total(seen, expected, roots.drop_last()) + misplaced_below(
            seen,
            expected,
            roots.last(),
        ).len()
    }
}

/// The paths of the changes of a delta.
pub open spec fn delta_paths(entries: Seq<DeltaView>) -> Seq<Names> {
    Seq::new(entries.len(), |i: int| entries[i].path)
}

/// Whether a change takes a directory away.
pub open spec fn is_destructive(entry: DeltaView) -> bool {
    &&& entry.before matches Some(before) && before.kind is Directory
    &&& entry.after matches Some(after) ==> after.kind !is Directory
}

/// The directories that a delta takes away, in order.
pub open spec fn destructive_roots(entries: Seq<DeltaView>) -> Seq<Names>
    decreases entries.len(),
{
    if entries.len() == 0 {
        Seq::empty()
    } else if is_destructive(entries.last()) {
        destructive_roots(entries.drop_last()).push(entries.last().path)
    } else {
        destructive_roots(entries.drop_last())
    }
}

/// How many conflicts a destination has with a delta: at the changed paths, and
/// at everything below a directory that goes.
pub open spec fn conflict_count(seen: DeltaEvidence, expected: Expectation, entries: Seq<DeltaView>) -> nat {
    misplaced_count(seen, expected, delta_paths(entries)) + misplaced_total(
        seen,
        expected,
        destructive_roots(entries),
    )
}

/// The misplaced paths of a list.
pub open spec fn misplaced_in(seen: DeltaEvidence, expected: Expectation, list: Seq<Names>) -> Set<Names> {
    Set::new(|p: Names| list.contains(p) && misplaced(seen, expected, p))
}

/// The misplaced paths of a list without repetition are as many as the list
/// counts.
proof fn lemma_count_is_set(seen: DeltaEvidence, expected: Expectation, list: Seq<Names>)
    requires
        compare::paths_in_order(list),
    ensures
        misplaced_in(seen, expected, list).finite(),
        misplaced_in(seen, expected, list).len() == misplaced_count(seen, expected, list),
    decreases list.len(),
{
    let whole = misplaced_in(seen, expected, list);
    if list.len() == 0 {
        assert(whole =~= Set::<Names>::empty());
    } else {
        let rest = list.drop_last();
        let last = list.last();
        assert forall|i: int, j: int| 0 <= i < j < rest.len() implies path::path_before(
            #[trigger] rest[i],
            #[trigger] rest[j],
        ) by {
            assert(path::path_before(list[i], list[j]));
        }
        lemma_count_is_set(seen, expected, rest);
        let part = misplaced_in(seen, expected, rest);
        assert(rest.push(last) =~= list);
        assert(!rest.contains(last)) by {
            if rest.contains(last) {
                let i = choose|i: int| 0 <= i < rest.len() && rest[i] == last;
                assert(path::path_before(list[i], list[list.len() - 1]));
                path::lemma_path_irreflexive(last);
            }
        }
        assert forall|p: Names| list.contains(p) <==> (rest.contains(p) || p == last) by {
            compare::lemma_push_contains(rest, last, p);
        }
        if misplaced(seen, expected, last) {
            assert(whole =~= part.insert(last));
        } else {
            assert(whole =~= part);
        }
    }
}

/// Adds to a count the misplaced paths of a list.
fn count_misplaced(seen: &DeltaEvidence, expected: Expectation, list: &Vec<RelPath>, start: usize) -> (count:
    usize)
    requires
        seen.wf(),
    ensures
        count == compare::saturated(
            start + misplaced_count(*seen, expected, path::path_views(list@)),
        ),
{
    let ghost views = path::path_views(list@);
    let mut count: usize = start;
    let mut i: usize = 0;
    proof {
        assert(views.take(0) =~= Seq::<Names>::empty());
    }
    while i < list.len()
        invariant
            seen.wf(),
            views == path::path_views(list@),
            i <= list@.len(),
            count == compare::saturated(start + misplaced_count(*seen, expected, views.take(i as int))),
        decreases list@.len() - i,
    {
        proof {
            assert(views.take(i as int + 1).drop_last() =~= views.take(i as int));
            assert(views.take(i as int + 1).last() == list@[i as int]@);
        }
        if is_misplaced(seen, expected, &list[i]) {
            count = compare::add_saturating(count, 1);
        }
        i = i + 1;
    }
    proof {
        assert(views.take(i as int) =~= views);
    }
    count
}

impl SnapshotDelta {
    /// The directories that the delta takes away.
    pub fn destructive_directory_roots(&self) -> (roots: Vec<RelPath>)
        ensures
            path::path_views(roots@) == destructive_roots(delta::delta_views(self.entries@)),
    {
        let ghost views = delta::delta_views(self.entries@);
        let mut roots: Vec<RelPath> = Vec::new();
        let mut i: usize = 0;
        proof {
            assert(views.take(0) =~= Seq::<DeltaView>::empty());
            assert(path::path_views(roots@) =~= Seq::<Names>::empty());
        }
        while i < self.entries.len()
            invariant
                views == delta::delta_views(self.entries@),
                i <= self.entries@.len(),
                path::path_views(roots@) == destructive_roots(views.take(i as int)),
            decreases self.entries@.len() - i,
        {
            proof {
                assert(views.take(i as int + 1).drop_last() =~= views.take(i as int));
                assert(views.take(i as int + 1).last() == self.entries@[i as int]@);
            }
            let was_directory = match &self.entries[i].before {
                Some(before) => before.kind == SnapshotEntryKind::Directory,
                None => false,
            };
            let stays_directory = match &self.entries[i].after {
                Some(after) => after.kind == SnapshotEntryKind::Directory,
                None => false,
            };
            if was_directory && !stays_directory {
                let ghost held = path::path_views(roots@);
                let copied = self.entries[i].change.path.copy();
                let ghost added = copied@;
                roots.push(copied);
                proof {
                    assert(path::path_views(roots@) =~= held.push(added));
                }
            }
            i = i + 1;
        }
        proof {
            assert(views.take(i as int) =~= views);
        }
        roots
    }

    /// Counts the conflicts of a destination with the delta.
    fn count_conflicts(&self, seen: &DeltaEvidence, expected: Expectation) -> (conflicts: usize)
        requires
            seen.wf(),
        ensures
            conflicts == compare::saturated(
                conflict_count(*seen, expected, delta::delta_views(self.entries@)) as int,
            ),
    {
        let ghost views = delta::delta_views(self.entries@);
        let mut conflicts: usize = 0;
        let mut i: usize = 0;
        proof {
            assert(delta_paths(views).take(0) =~= Seq::<Names>::empty());
        }
        while i < self.entries.len()
            invariant
                seen.wf(),
                views == delta::delta_views(self.entries@),
                i <= self.entries@.len(),
                conflicts == compare::saturated(
                    misplaced_count(*seen, expected, delta_paths(views).take(i as int)) as int,
                ),
            decreases self.entries@.len() - i,
        {
            proof {
                let paths = delta_paths(views);
                assert(paths.take(i as int + 1).drop_last() =~= paths.take(i as int));
                assert(paths.take(i as int + 1).last() == self.entries@[i as int].change.path@);
            }
            if is_misplaced(seen, expected, &self.entries[i].change.path) {
                conflicts = compare::add_saturating(conflicts, 1);
            }
            i = i + 1;
        }
        let ghost direct: int = misplaced_count(*seen, expected, delta_paths(views)) as int;
        proof {
            assert(delta_paths(views).take(i as int) =~= delta_paths(views));
        }
        let roots = self.destructive_directory_roots();
        let ghost root_views = path::path_views(roots@);
        let mut k: usize = 0;
        proof {
            assert(root_views.take(0) =~= Seq::<Names>::empty());
        }
        while k < roots.len()
            invariant
                seen.wf(),
                root_views == path::path_views(roots@),
                k <= roots@.len(),
                direct >= 0,
                conflicts == compare::saturated(
                    direct + misplaced_total(*seen, expected, root_views.take(k as int)),
                ),
            decreases roots@.len() - k,
        {
            let ghost root = root_views[k as int];
            proof {
                assert(root_views.take(k as int + 1).drop_last() =~= root_views.take(k as int));
                assert(root_views.take(k as int + 1).last() == root);
            }
            let mut sorted: PathMap<u32> = PathMap::new();
            match expected {
                Expectation::Before(_) => {
                    collect_subtree(&seen.base, &roots[k], &mut sorted);
                },
                Expectation::After => {},
            }
            collect_subtree(&seen.target, &roots[k], &mut sorted);
            collect_subtree(&seen.current, &roots[k], &mut sorted);
            let below = sorted_paths(&sorted);
            proof {
                let list = path::path_views(below@);
                lemma_count_is_set(*seen, expected, list);
                assert(misplaced_in(*seen, expected, list) =~= misplaced_below(*seen, expected, root)) by {
                    assert forall|p: Names|
                        misplaced_in(*seen, expected, list).contains(p) <==> misplaced_below(
                            *seen,
                            expected,
                            root,
                        ).contains(p) by {
                        assert(list.contains(p) <==> sorted@.dom().contains(p));
                    }
                }
            }
            conflicts = count_misplaced(seen, expected, &below, conflicts);
            k = k + 1;
        }
        proof {
            assert(root_views.take(k as int) =~= root_views);
        }
        conflicts
    }

    /// Counts the conflicts of a destination with the delta before it is applied.
    pub fn validate_inventory(&self, seen: &DeltaEvidence, mode: SnapshotDeltaApplyMode) -> (conflicts: usize)
        requires
            seen.wf(),
        ensures
            conflicts == compare::saturated(
                conflict_count(
                    *seen,
                    Expectation::Before(mode),
                    delta::delta_views(self.entries@),
                ) as int,
            ),
    {
        self.count_conflicts(seen, Expectation::Before(mode))
    }

    /// Counts the paths that did not reach the target.
    pub fn validate_target_inventory(&self, seen: &DeltaEvidence) -> (conflicts: usize)
        requires
            seen.wf(),
        ensures
            conflicts == compare::saturated(
                conflict_count(*seen, Expectation::After, delta::delta_views(self.entries@)) as int,
            ),
    {
        self.count_conflicts(seen, Expectation::After)
    }

    /// Checks whether an immutable current view is compatible with the delta.
    pub fn validate_snapshot(
        &self,
        current_destroyed: bool,
        seen: &DeltaEvidence,
        mode: SnapshotDeltaApplyMode,
    ) -> (result: Result<(), SnapshotError>)
        requires
            seen.wf(),
        ensures
            ({
                let count = conflict_count(
                    *seen,
                    Expectation::Before(mode),
                    delta::delta_views(self.entries@),
                );
                if current_destroyed {
                    result == Err::<(), SnapshotError>(SnapshotError::AlreadyDestroyed)
                } else if count == 0 {
                    result is Ok
                } else {
                    result == Err::<(), SnapshotError>(
                        SnapshotError::DeltaConflict { count: compare::saturated(count as int) },
                    )
                }
            }),
    {
        if current_destroyed {
            return Err(SnapshotError::AlreadyDestroyed);
        }
        let conflicts = self.validate_inventory(seen, mode);
        if conflicts == 0 {
            Ok(())
        } else {
            Err(SnapshotError::DeltaConflict { count: conflicts })
        }
    }
}

proof fn lemma_no_misplaced(seen: DeltaEvidence, expected: Expectation, list: Seq<Names>)
    requires
        forall|i: int| 0 <= i < list.len() ==> !misplaced(seen, expected, #[trigger] list[i]),
    ensures
        misplaced_count(seen, expected, list) == 0,
    decreases list.len(),
{
    if list.len() > 0 {
        assert forall|i: int| 0 <= i < list.drop_last().len() implies !misplaced(
            seen,
            expected,
            #[trigger] list.drop_last()[i],
        ) by {
            assert(!misplaced(seen, expected, list[i]));
        }
        lemma_no_misplaced(seen, expected, list.drop_last());
        assert(!misplaced(seen, expected, list[list.len() - 1]));
    }
}

proof fn lemma_nothing_misplaced(seen: DeltaEvidence, expected: Expectation, roots: Seq<Names>)
    requires
        forall|p: Names| !(#[trigger] misplaced(seen, expected, p)),
    ensures
        misplaced_total(seen, expected, roots) == 0,
    decreases roots.len(),
{
    if roots.len() > 0 {
        lemma_nothing_misplaced(seen, expected, roots.drop_last());
        assert(misplaced_below(seen, expected, roots.last()) =~= Set::<Names>::empty());
    }
}

/// A destination that is at the base end everywhere has no conflict in either
/// mode; one that is at one of the two ends everywhere, or between them where an
/// interrupted apply stopped, has none on resuming.
pub proof fn law_either_end_is_no_conflict(
    seen: DeltaEvidence,
    mode: SnapshotDeltaApplyMode,
    entries: Seq<DeltaView>,
)
    requires
        forall|p: Names|
            #[trigger] at_base(seen, p) || (mode is Resume && (at_target(seen, p) || halfway_at(seen, p))),
    ensures
        conflict_count(seen, Expectation::Before(mode), entries) == 0,
{
    assert forall|p: Names| !(#[trigger] misplaced(seen, Expectation::Before(mode), p)) by {
        assert(at_base(seen, p) || (mode is Resume && (at_target(seen, p) || halfway_at(seen, p))));
    }
    lemma_no_misplaced(seen, Expectation::Before(mode), delta_paths(entries));
    lemma_nothing_misplaced(seen, Expectation::Before(mode), destructive_roots(entries));
}

proof fn lemma_roots_in_place(seen: DeltaEvidence, expected: Expectation, roots: Seq<Names>)
    requires
        forall|k: int, p: Names|
            0 <= k < roots.len() && path::lies_under(p, #[trigger] roots[k]) ==> !(#[trigger] misplaced(seen, expected, p)),
    ensures
        misplaced_total(seen, expected, roots) == 0,
    decreases roots.len(),
{
    if roots.len() > 0 {
        let rest = roots.drop_last();
        assert forall|k: int, p: Names| 0 <= k < rest.len() && path::lies_under(p, #[trigger] rest[k]) implies !(
        #[trigger] misplaced(seen, expected, p)) by {
            assert(roots[k] == rest[k]);
        }
        lemma_roots_in_place(seen, expected, rest);
        assert(roots[roots.len() - 1] == roots.last());
        assert(misplaced_below(seen, expected, roots.last()) =~= Set::<Names>::empty());
    }
}

/// Where every changed path, and every path at or below a directory that goes, is where
/// it must be, there is no conflict.
pub proof fn lemma_in_place_is_conflict_free(seen: DeltaEvidence, expected: Expectation, entries: Seq<DeltaView>)
    requires
        forall|i: int| 0 <= i < entries.len() ==> !misplaced(seen, expected, (#[trigger] entries[i]).path),
        forall|k: int, p: Names|
            0 <= k < destructive_roots(entries).len() && path::lies_under(p, #[trigger] destructive_roots(entries)[k])
                ==> !(#[trigger] misplaced(seen, expected, p)),
    ensures
        conflict_count(seen, expected, entries) == 0,
{
    let list = delta_paths(entries);
    assert forall|i: int| 0 <= i < list.len() implies !misplaced(seen, expected, #[trigger] list[i]) by {
        assert(list[i] == entries[i].path);
    }
    lemma_no_misplaced(seen, expected, list);
    lemma_roots_in_place(seen, expected, destructive_roots(entries));
}

/// A misplaced path of a list is counted.
pub proof fn lemma_counted(seen: DeltaEvidence, expected: Expectation, list: Seq<Names>, i: int)
    requires
        0 <= i < list.len(),
        misplaced(seen, expected, list[i]),
    ensures
        misplaced_count(seen, expected, list) > 0,
    decreases list.len(),
{
    if i < list.len() - 1 {
        assert(list.drop_last()[i] == list[i]);
        lemma_counted(seen, expected, list.drop_last(), i);
    }
}

/// A delta without conflicts finds every changed path at an end that the mode
/// allows, or, on resuming, where an interrupted apply stopped.
pub proof fn law_conflict_free_paths_are_at_an_end(
    seen: DeltaEvidence,
    mode: SnapshotDeltaApplyMode,
    entries: Seq<DeltaView>,
    i: int,
)
    requires
        conflict_count(seen, Expectation::Before(mode), entries) == 0,
        0 <= i < entries.len(),
    ensures
        at_base(seen, entries[i].path) || (mode is Resume && (at_target(seen, entries[i].path) || halfway_at(
            seen,
            entries[i].path,
        ))),
{
    if conflicts_at(seen, mode, entries[i].path) {
        assert(delta_paths(entries)[i] == entries[i].path);
        lemma_counted(seen, Expectation::Before(mode), delta_paths(entries), i);
    }
}

/// What is done to a destination, in this order.
#[derive(Clone, Copy, Debug, PartialEq, Eq, Structural)]
pub enum ApplyPhase {
    /// What goes, or changes its kind, is removed.
    Remove,
    /// What becomes a directory is made.
    MakeDirectory,
    /// Files and links are put in place.
    Put,
    /// Modes are set.
    SetMode,
}

/// Whether a phase has something to do for a change.
pub open spec fn wanted(entry: DeltaView, phase: ApplyPhase) -> bool {
    match phase {
        ApplyPhase::Remove => entry.before is Some && (entry.after is None || entry.before->0.kind
            != entry.after->0.kind),
        ApplyPhase::MakeDirectory => entry.after is Some && entry.after->0.kind is Directory && (
        entry.before is None || entry.before->0.kind !is Directory),
        ApplyPhase::Put => entry.after is Some && entry.after->0.kind !is Directory && entry.change
            !is Deleted,
        ApplyPhase::SetMode => entry.after is Some && entry.after->0.kind !is Symlink,
    }
}

/// Whether a phase does one change before another: leaves first where something
/// goes or gets its mode, parents first where directories are made, and in the
/// order of the delta otherwise.
pub open spec fn done_before(entries: Seq<DeltaView>, phase: ApplyPhase, i: int, j: int) -> bool {
    let a = entries[i].path.len();
    let b = entries[j].path.len();
    match phase {
        ApplyPhase::Remove | ApplyPhase::SetMode => a > b || (a == b && i < j),
        ApplyPhase::MakeDirectory => a < b || (a == b && i < j),
        ApplyPhase::Put => i < j,
    }
}

/// The changes that a phase does, in its order, each once.
pub open spec fn is_phase_order(entries: Seq<DeltaView>, phase: ApplyPhase, order: Seq<usize>) -> bool {
    &&& forall|a: int, b: int|
        0 <= a < b < order.len() ==> done_before(
            entries,
            phase,
            #[trigger] order[a] as int,
            #[trigger] order[b] as int,
        )
    &&& forall|a: int|
        0 <= a < order.len() ==> #[trigger] order[a] < entries.len() && wanted(
            entries[order[a] as int],
            phase,
        )
    &&& forall|i: int|
        0 <= i < entries.len() && wanted(#[trigger] entries[i], phase) ==> exists|a: int|
            0 <= a < order.len() && #[trigger] order[a] == i
}

/// What lies below a path goes before it, and gets its mode before it.
pub proof fn law_leaves_go_first(
    entries: Seq<DeltaView>,
    phase: ApplyPhase,
    order: Seq<usize>,
    below: int,
    above: int,
)
    requires
        phase is Remove || phase is SetMode,
        is_phase_order(entries, phase, order),
        0 <= below < order.len(),
        0 <= above < order.len(),
        path::lies_under(entries[order[below] as int].path, entries[order[above] as int].path),
        entries[order[below] as int].path != entries[order[above] as int].path,
    ensures
        below < above,
{
    let low = entries[order[below] as int].path;
    let high = entries[order[above] as int].path;
    if low.len() == high.len() {
        assert(low.take(high.len() as int) =~= low);
    }
    if above < below {
        assert(done_before(entries, phase, order[above] as int, order[below] as int));
    }
}

/// A directory is made before what is made below it.
pub proof fn law_parents_are_made_first(
    entries: Seq<DeltaView>,
    order: Seq<usize>,
    below: int,
    above: int,
)
    requires
        is_phase_order(entries, ApplyPhase::MakeDirectory, order),
        0 <= below < order.len(),
        0 <= above < order.len(),
        path::lies_under(entries[order[below] as int].path, entries[order[above] as int].path),
        entries[order[below] as int].path != entries[order[above] as int].path,
    ensures
        above < below,
{
    let low = entries[order[below] as int].path;
    let high = entries[order[above] as int].path;
    if low.len() == high.len() {
        assert(low.take(high.len() as int) =~= low);
    }
    if below < above {
        assert(done_before(
            entries,
            ApplyPhase::MakeDirectory,
            order[below] as int,
            order[above] as int,
        ));
    }
}

impl SnapshotDelta {
    /// Whether a phase has something to do for a change.
    fn wants(&self, index: usize, phase: ApplyPhase) -> (result: bool)
        requires
            index < self.entries@.len(),
        ensures
            result == wanted(delta::delta_views(self.entries@)[index as int], phase),
    {
        let entry = &self.entries[index];
        match phase {
            ApplyPhase::Remove => match (&entry.before, &entry.after) {
                (Some(before), Some(after)) => before.kind != after.kind,
                (Some(_), None) => true,
                _ => false,
            },
            ApplyPhase::MakeDirectory => match (&entry.before, &entry.after) {
                (Some(before), Some(after)) => after.kind == SnapshotEntryKind::Directory && before.kind
                    != SnapshotEntryKind::Directory,
                (None, Some(after)) => after.kind == SnapshotEntryKind::Directory,
                _ => false,
            },
            ApplyPhase::Put => match &entry.after {
                Some(after) => after.kind != SnapshotEntryKind::Directory && entry.change.kind
                    != SnapshotChangeKind::Deleted,
                None => false,
            },
            ApplyPhase::SetMode => match &entry.after {
                Some(after) => after.kind != SnapshotEntryKind::Symlink,
                None => false,
            },
        }
    }

    /// The length of the longest changed path.
    fn deepest_change(&self) -> (deepest: usize)
        ensures
            forall|i: int|
                0 <= i < self.entries@.len() ==> (#[trigger] delta::delta_views(self.entries@)[i]).path.len()
                    <= deepest,
    {
        let mut deepest: usize = 0;
        let mut i: usize = 0;
        while i < self.entries.len()
            invariant
                i <= self.entries@.len(),
                forall|j: int|
                    0 <= j < i ==> (#[trigger] delta::delta_views(self.entries@)[j]).path.len() <= deepest,
            decreases self.entries@.len() - i,
        {
            let depth = delta::path_depth(&self.entries[i].change.path);
            if depth > deepest {
                deepest = depth;
            }
            i = i + 1;
        }
        deepest
    }

    /// The changes that a phase does, in its order.
    pub fn phase_order(&self, phase: ApplyPhase) -> (order: Vec<usize>)
        ensures
            is_phase_order(delta::delta_views(self.entries@), phase, order@),
    {
        let ghost entries = delta::delta_views(self.entries@);
        let mut order: Vec<usize> = Vec::new();
        if phase == ApplyPhase::Put {
            let mut i: usize = 0;
            while i < self.entries.len()
                invariant
                    phase is Put,
                    entries == delta::delta_views(self.entries@),
                    i <= self.entries@.len(),
                    forall|a: int, b: int|
                        0 <= a < b < order@.len() ==> #[trigger] order@[a] < #[trigger] order@[b],
                    forall|a: int|
                        0 <= a < order@.len() ==> #[trigger] order@[a] < i && wanted(
                            entries[order@[a] as int],
                            phase,
                        ),
                    forall|j: int|
                        0 <= j < i && wanted(#[trigger] entries[j], phase) ==> order@.contains(j as usize),
                decreases self.entries@.len() - i,
            {
                let ghost held = order@;
                if self.wants(i, phase) {
                    order.push(i);
                    proof {
                        assert forall|j: int| 0 <= j < i + 1 && wanted(#[trigger] entries[j], phase) implies order@.contains(
                            j as usize,
                        ) by {
                            compare::lemma_push_contains(held, i, j as usize);
                        }
                    }
                }
                i = i + 1;
            }
            proof {
                lemma_contains_means_placed(entries, phase, order@);
            }
            return order;
        }
        let leaves_first = phase != ApplyPhase::MakeDirectory;
        let deepest = self.deepest_change();
        let mut round: usize = 0;
        let mut more = true;
        while more
            invariant
                phase !is Put,
                leaves_first == (phase !is MakeDirectory),
                entries == delta::delta_views(self.entries@),
                forall|i: int| 0 <= i < entries.len() ==> (#[trigger] entries[i]).path.len() <= deepest,
                round <= deepest,
                !more ==> round == deepest,
                forall|a: int, b: int|
                    0 <= a < b < order@.len() ==> done_before(
                        entries,
                        phase,
                        #[trigger] order@[a] as int,
                        #[trigger] order@[b] as int,
                    ),
                forall|a: int|
                    0 <= a < order@.len() ==> #[trigger] order@[a] < entries.len() && wanted(
                        entries[order@[a] as int],
                        phase,
                    ) && in_round(entries, order@[a] as int, leaves_first, deepest) < rounds_done(round, more),
                forall|j: int|
                    0 <= j < entries.len() && wanted(#[trigger] entries[j], phase) && in_round(
                        entries,
                        j,
                        leaves_first,
                        deepest,
                    ) < rounds_done(round, more) ==> order@.contains(j as usize),
            decreases deepest - round + if more { 1int } else { 0int },
        {
            let depth: usize = if leaves_first {
                deepest - round
            } else {
                round
            };
            let mut i: usize = 0;
            while i < self.entries.len()
                invariant
                    phase !is Put,
                    leaves_first == (phase !is MakeDirectory),
                    entries == delta::delta_views(self.entries@),
                    forall|k: int| 0 <= k < entries.len() ==> (#[trigger] entries[k]).path.len() <= deepest,
                    round <= deepest,
                    depth == if leaves_first {
                        deepest - round
                    } else {
                        round as int
                    },
                    i <= self.entries@.len(),
                    forall|a: int, b: int|
                        0 <= a < b < order@.len() ==> done_before(
                            entries,
                            phase,
                            #[trigger] order@[a] as int,
                            #[trigger] order@[b] as int,
                        ),
                    forall|a: int|
                        0 <= a < order@.len() ==> #[trigger] order@[a] < entries.len() && wanted(
                            entries[order@[a] as int],
                            phase,
                        ) && (in_round(entries, order@[a] as int, leaves_first, deepest) < round || (in_round(
                            entries,
                            order@[a] as int,
                            leaves_first,
                            deepest,
                        ) == round && order@[a] < i)),
                    forall|j: int|
                        0 <= j < entries.len() && wanted(#[trigger] entries[j], phase) && (in_round(
                            entries,
                            j,
                            leaves_first,
                            deepest,
                        ) < round || (in_round(entries, j, leaves_first, deepest) == round && j < i))
                            ==> order@.contains(j as usize),
                decreases self.entries@.len() - i,
            {
                let ghost held = order@;
                if self.wants(i, phase) && self.entries[i].change.path.depth() == depth {
                    order.push(i);
                    proof {
                        assert forall|a: int, b: int| 0 <= a < b < order@.len() implies done_before(
                            entries,
                            phase,
                            #[trigger] order@[a] as int,
                            #[trigger] order@[b] as int,
                        ) by {
                            if b == held.len() {
                                assert(held[a] == order@[a]);
                            } else {
                                assert(done_before(entries, phase, held[a] as int, held[b] as int));
                            }
                        }
                        assert forall|j: int|
                            0 <= j < entries.len() && wanted(#[trigger] entries[j], phase) && (in_round(
                                entries,
                                j,
                                leaves_first,
                                deepest,
                            ) < round || (in_round(entries, j, leaves_first, deepest) == round && j < i + 1)) implies order@.contains(
                            j as usize,
                        ) by {
                            compare::lemma_push_contains(held, i, j as usize);
                        }
                    }
                }
                i = i + 1;
            }
            if round < deepest {
                round = round + 1;
            } else {
                more = false;
            }
        }
        proof {
            assert forall|j: int| 0 <= j < entries.len() && wanted(#[trigger] entries[j], phase) implies order@.contains(
                j as usize,
            ) by {
                assert(in_round(entries, j, leaves_first, deepest) < rounds_done(round, false));
            }
            assert(entries.len() == self.entries.len());
            lemma_contains_means_placed(entries, phase, order@);
        }
        order
    }
}

/// In which round of a walk over depths a change is reached.
spec fn in_round(entries: Seq<DeltaView>, i: int, leaves_first: bool, deepest: usize) -> int {
    if leaves_first {
        deepest - entries[i].path.len()
    } else {
        entries[i].path.len() as int
    }
}

/// How many rounds of a walk over depths are done.
spec fn rounds_done(round: usize, more: bool) -> int {
    if more {
        round as int
    } else {
        round + 1
    }
}

proof fn lemma_contains_means_placed(entries: Seq<DeltaView>, phase: ApplyPhase, order: Seq<usize>)
    requires
        entries.len() <= usize::MAX,
        forall|j: int|
            0 <= j < entries.len() && wanted(#[trigger] entries[j], phase) ==> order.contains(j as usize),
    ensures
        forall|i: int|
            0 <= i < entries.len() && wanted(#[trigger] entries[i], phase) ==> exists|a: int|
                0 <= a < order.len() && #[trigger] order[a] == i,
{
    assert forall|i: int| 0 <= i < entries.len() && wanted(#[trigger] entries[i], phase) implies exists|a: int|
        0 <= a < order.len() && #[trigger] order[a] == i by {
        assert(order.contains(i as usize));
        let a = choose|a: int| 0 <= a < order.len() && order[a] == i as usize;
        assert(order[a] == i);
    }
}

/// Whether a live entry is what one end of a delta holds at its path.
pub open spec fn live_matches(
    expected: Option<EntryView>,
    current: Option<EntryView>,
    same_content: bool,
) -> bool {
    match (expected, current) {
        (None, None) => true,
        (Some(left), Some(right)) => left.kind == right.kind && left.mode == right.mode && match left.kind {
            SnapshotEntryKind::File => same_content,
            SnapshotEntryKind::Directory => true,
            SnapshotEntryKind::Symlink => left.symlink_target == right.symlink_target,
        },
        _ => false,
    }
}

/// Whether a live entry is what one end of a delta holds at its path.
pub fn live_matches_snapshot(
    expected: &Option<SnapshotEntry>,
    current: &Option<SnapshotEntry>,
    same_content: bool,
) -> (matched: bool)
    ensures
        matched == live_matches(delta::entry_of(*expected), delta::entry_of(*current), same_content),
{
    match (expected, current) {
        (None, None) => true,
        (Some(left), Some(right)) => {
            if left.kind != right.kind || left.mode != right.mode {
                return false;
            }
            match left.kind {
                SnapshotEntryKind::File => same_content,
                SnapshotEntryKind::Directory => true,
                SnapshotEntryKind::Symlink => same_bytes(&left.symlink_target, &right.symlink_target),
            }
        },
        _ => false,
    }
}

/// Where a live entry stands between the two ends of its change.
#[derive(Clone, Copy, Debug, PartialEq, Eq, Structural)]
pub enum Standing {
    AtTarget,
    AtBase,
    /// What was there is removed, and what comes is not there yet.
    Gone,
    /// The directory that comes was made, and has not its mode yet.
    Made,
    /// It is none of these.
    Elsewhere,
}

/// The kind of an entry, where there is one.
pub open spec fn kind_of(entry: Option<EntryView>) -> Option<SnapshotEntryKind> {
    match entry {
        Some(found) => Some(found.kind),
        None => None,
    }
}

/// Where a live entry stands between the two ends of its change.
pub open spec fn standing_of(
    before: Option<EntryView>,
    after: Option<EntryView>,
    current: Option<EntryView>,
    same_as_target: bool,
    same_as_base: bool,
) -> Standing {
    if live_matches(after, current, same_as_target) {
        Standing::AtTarget
    } else if live_matches(before, current, same_as_base) {
        Standing::AtBase
    } else if is_gone(kind_of(before), kind_of(after), kind_of(current)) {
        Standing::Gone
    } else if is_made(kind_of(before), kind_of(after), kind_of(current)) {
        Standing::Made
    } else {
        Standing::Elsewhere
    }
}

fn entry_kind(entry: &Option<SnapshotEntry>) -> (kind: Option<SnapshotEntryKind>)
    ensures
        kind == kind_of(delta::entry_of(*entry)),
{
    match entry {
        Some(found) => Some(found.kind),
        None => None,
    }
}

/// Tells where a live entry stands between the two ends of its change. `same_as_*` tell
/// whether its content is that of an end; of a path at the target nothing else counts.
pub fn standing(
    before: &Option<SnapshotEntry>,
    after: &Option<SnapshotEntry>,
    current: &Option<SnapshotEntry>,
    same_as_target: bool,
    same_as_base: bool,
) -> (standing: Standing)
    ensures
        standing == standing_of(
            delta::entry_of(*before),
            delta::entry_of(*after),
            delta::entry_of(*current),
            same_as_target,
            same_as_base,
        ),
{
    if live_matches_snapshot(after, current, same_as_target) {
        return Standing::AtTarget;
    }
    if live_matches_snapshot(before, current, same_as_base) {
        return Standing::AtBase;
    }
    let (from, to, now) = (entry_kind(before), entry_kind(after), entry_kind(current));
    if found_gone(from, to, now) {
        Standing::Gone
    } else if found_made(from, to, now) {
        Standing::Made
    } else {
        Standing::Elsewhere
    }
}

/// How far applying a delta has come.
#[derive(Clone, Copy, Debug, PartialEq, Eq, Structural)]
pub enum ApplyStage {
    /// Waiting for the destination.
    Lock,
    /// Comparing the declared dependencies.
    Dependencies,
    /// Looking for conflicts.
    Validate,
    /// Looking at the path of the next change.
    Observe,
    /// Making the next change.
    Perform,
    /// Looking whether every path reached the target.
    Verify,
    /// Comparing the declared dependencies with the target.
    TargetDependencies,
    /// Making the changes durable.
    Sync,
    /// Nothing more is done.
    Done,
}

/// What happened at a stage.
#[derive(Debug)]
pub enum ApplyEvent {
    /// The step succeeded.
    Succeeded,
    /// The step failed.
    Failed(SnapshotError),
    /// The change was made, and what was to follow it failed.
    FailedAfterwards,
    /// Another writer held the destination for as long as was waited.
    Contended,
    /// The dependencies were compared.
    Compared { matched: bool },
    /// The conflicts were counted.
    Counted { conflicts: usize },
    /// The live entry of the next change was compared with both ends.
    Seen(Standing),
    /// The live mode of the next change was compared with the target's.
    SeenMode { differs: bool },
}

/// What to do next, or how it ended.
#[derive(Debug)]
pub enum ApplyAction {
    AcquireLock,
    CompareDependencies,
    CountConflicts,
    Look { step: usize },
    Perform { step: usize },
    CountTargetConflicts,
    CompareTargetDependencies,
    SyncDestination,
    Finish(Result<SnapshotDeltaSummary, SnapshotError>),
    /// The event does not belong to the stage.
    Refuse,
}

/// The state of applying a delta of `total` steps; `resumes` tells whether an earlier
/// apply may have been interrupted.
#[derive(Clone, Copy, Debug, PartialEq, Eq, Structural)]
pub struct ApplyState {
    pub stage: ApplyStage,
    pub next: usize,
    pub total: usize,
    pub applied_paths: usize,
    pub resumes: bool,
    pub summary: SnapshotDeltaSummary,
}

/// The failure of a step: partial work is reported as such.
pub open spec fn step_failure(applied_paths: usize, untouched: SnapshotError) -> SnapshotError {
    if applied_paths == 0 {
        untouched
    } else {
        SnapshotError::DeltaApplyIncomplete { applied_paths }
    }
}

/// Applying ended.
pub open spec fn ended(
    state: ApplyState,
    result: Result<SnapshotDeltaSummary, SnapshotError>,
) -> (ApplyState, ApplyAction) {
    (ApplyState { stage: ApplyStage::Done, ..state }, ApplyAction::Finish(result))
}

/// On to the next change, or to the verification after the last.
pub open spec fn to_next(state: ApplyState, next: usize) -> (ApplyState, ApplyAction) {
    if next < state.total {
        (ApplyState { stage: ApplyStage::Observe, next, ..state }, ApplyAction::Look { step: next })
    } else {
        (ApplyState { stage: ApplyStage::Verify, next, ..state }, ApplyAction::CountTargetConflicts)
    }
}

/// What is done with a path that was looked at.
#[derive(Clone, Copy, Debug, PartialEq, Eq, Structural)]
pub enum Course {
    /// The change is made.
    Make,
    /// Nothing is left to do.
    Pass,
    /// The path is at no end: somebody else wrote to it.
    Refuse,
}

/// What a step does with a path that stands somewhere. What a step of the same run removed
/// is gone for the steps after it; what an interrupted run removed or made is passed
/// over where that run is resumed.
pub open spec fn course_of(phase: ApplyPhase, standing: Standing, resumes: bool) -> Course {
    match standing {
        Standing::AtTarget => Course::Pass,
        Standing::AtBase => Course::Make,
        Standing::Gone => if !(phase is Remove) {
            Course::Make
        } else if resumes {
            Course::Pass
        } else {
            Course::Refuse
        },
        Standing::Made => if resumes && !(phase is Put) {
            Course::Pass
        } else {
            Course::Refuse
        },
        Standing::Elsewhere => Course::Refuse,
    }
}

fn choose_course(phase: ApplyPhase, standing: Standing, resumes: bool) -> (course: Course)
    ensures
        course == course_of(phase, standing, resumes),
{
    match standing {
        Standing::AtTarget => Course::Pass,
        Standing::AtBase => Course::Make,
        Standing::Gone => {
            if phase != ApplyPhase::Remove {
                Course::Make
            } else if resumes {
                Course::Pass
            } else {
                Course::Refuse
            }
        },
        Standing::Made => {
            if resumes && phase != ApplyPhase::Put {
                Course::Pass
            } else {
                Course::Refuse
            }
        },
        Standing::Elsewhere => Course::Refuse,
    }
}

/// What an event makes of a state, and what is done next.
pub open spec fn apply_step(steps: Seq<ApplyStep>, state: ApplyState, event: ApplyEvent) -> (ApplyState, ApplyAction) {
    let applied = state.applied_paths;
    let sets_mode = steps[state.next as int].phase is SetMode;
    match (state.stage, event) {
        (ApplyStage::Done, _) => (state, ApplyAction::Refuse),
        (_, ApplyEvent::Failed(error)) => ended(state, Err(step_failure(applied, error))),
        (ApplyStage::Lock, ApplyEvent::Succeeded) => (
            ApplyState { stage: ApplyStage::Dependencies, ..state },
            ApplyAction::CompareDependencies,
        ),
        (ApplyStage::Lock, ApplyEvent::Contended) => ended(state, Err(SnapshotError::DeltaDeferred)),
        (ApplyStage::Dependencies, ApplyEvent::Compared { matched }) => if matched {
            (ApplyState { stage: ApplyStage::Validate, ..state }, ApplyAction::CountConflicts)
        } else {
            ended(state, Err(SnapshotError::DeltaConflict { count: 1 }))
        },
        (ApplyStage::Validate, ApplyEvent::Counted { conflicts }) => if conflicts == 0 {
            to_next(state, 0)
        } else {
            ended(state, Err(SnapshotError::DeltaConflict { count: conflicts }))
        },
        (ApplyStage::Observe, ApplyEvent::Seen(standing)) => if sets_mode {
            (state, ApplyAction::Refuse)
        } else {
            match course_of(steps[state.next as int].phase, standing, state.resumes) {
                Course::Pass => to_next(state, (state.next + 1) as usize),
                Course::Make => (
                    ApplyState { stage: ApplyStage::Perform, ..state },
                    ApplyAction::Perform { step: state.next },
                ),
                Course::Refuse => ended(state, Err(step_failure(applied, SnapshotError::DeltaConflict { count: 1 }))),
            }
        },
        (ApplyStage::Observe, ApplyEvent::SeenMode { differs }) => if !sets_mode {
            (state, ApplyAction::Refuse)
        } else if differs {
            (
                ApplyState { stage: ApplyStage::Perform, ..state },
                ApplyAction::Perform { step: state.next },
            )
        } else {
            to_next(state, (state.next + 1) as usize)
        },
        (ApplyStage::Perform, ApplyEvent::Succeeded) => to_next(
            ApplyState { applied_paths: compare::saturated(applied + 1), ..state },
            (state.next + 1) as usize,
        ),
        (ApplyStage::Perform, ApplyEvent::FailedAfterwards) => {
            let written = compare::saturated(applied + 1);
            ended(
                ApplyState { applied_paths: written, ..state },
                Err(SnapshotError::DeltaApplyIncomplete { applied_paths: written }),
            )
        },
        (ApplyStage::Verify, ApplyEvent::Counted { conflicts }) => if conflicts == 0 {
            (
                ApplyState { stage: ApplyStage::TargetDependencies, ..state },
                ApplyAction::CompareTargetDependencies,
            )
        } else {
            ended(state, Err(SnapshotError::DeltaApplyIncomplete { applied_paths: applied }))
        },
        (ApplyStage::TargetDependencies, ApplyEvent::Compared { matched }) => if matched {
            (ApplyState { stage: ApplyStage::Sync, ..state }, ApplyAction::SyncDestination)
        } else {
            ended(state, Err(step_failure(applied, SnapshotError::DeltaConflict { count: 1 })))
        },
        (ApplyStage::Sync, ApplyEvent::Succeeded) => ended(state, Ok(state.summary)),
        _ => (state, ApplyAction::Refuse),
    }
}

fn failure_after(applied_paths: usize, untouched: SnapshotError) -> (error: SnapshotError)
    ensures
        error == step_failure(applied_paths, untouched),
{
    if applied_paths == 0 {
        untouched
    } else {
        SnapshotError::DeltaApplyIncomplete { applied_paths }
    }
}

impl ApplyState {
    /// The next change is one of the delta's while there is one to make.
    pub open spec fn wf(&self) -> bool {
        (self.stage is Observe || self.stage is Perform) ==> self.next < self.total
    }

    /// Starts applying a delta that takes `total` steps.
    pub fn start(total: usize, resumes: bool, summary: SnapshotDeltaSummary) -> (started: (ApplyState, ApplyAction))
        ensures
            started.0.wf(),
            started.0 == (ApplyState {
                stage: ApplyStage::Lock,
                next: 0,
                total,
                applied_paths: 0,
                resumes,
                summary,
            }),
            started.1 is AcquireLock,
    {
        (
            ApplyState { stage: ApplyStage::Lock, next: 0, total, applied_paths: 0, resumes, summary },
            ApplyAction::AcquireLock,
        )
    }

    fn end(self, result: Result<SnapshotDeltaSummary, SnapshotError>) -> (ending: (ApplyState, ApplyAction))
        ensures
            ending == ended(self, result),
    {
        (
            ApplyState {
                stage: ApplyStage::Done,
                next: self.next,
                total: self.total,
                applied_paths: self.applied_paths,
                resumes: self.resumes,
                summary: self.summary,
            },
            ApplyAction::Finish(result),
        )
    }

    fn at_stage(self, stage: ApplyStage) -> (state: ApplyState)
        ensures
            state == (ApplyState { stage, ..self }),
    {
        ApplyState {
            stage,
            next: self.next,
            total: self.total,
            applied_paths: self.applied_paths,
            resumes: self.resumes,
            summary: self.summary,
        }
    }

    fn go_to(self, next: usize) -> (going: (ApplyState, ApplyAction))
        ensures
            going == to_next(self, next),
    {
        let mut state = self;
        state.next = next;
        if next < state.total {
            (state.at_stage(ApplyStage::Observe), ApplyAction::Look { step: next })
        } else {
            (state.at_stage(ApplyStage::Verify), ApplyAction::CountTargetConflicts)
        }
    }

    /// What an event makes of the state, and what is done next.
    pub fn advance(self, steps: &Vec<ApplyStep>, event: ApplyEvent) -> (result: (ApplyState, ApplyAction))
        requires
            self.wf(),
            self.total == steps@.len(),
        ensures
            result == apply_step(steps@, self, event),
            result.0.wf(),
            result.0.total == self.total,
    {
        if self.stage == ApplyStage::Done {
            return (self, ApplyAction::Refuse);
        }
        match (self.stage, event) {
            (_, ApplyEvent::Failed(error)) => {
                let failure = failure_after(self.applied_paths, error);
                self.end(Err(failure))
            },
            (ApplyStage::Lock, ApplyEvent::Succeeded) => (
                self.at_stage(ApplyStage::Dependencies),
                ApplyAction::CompareDependencies,
            ),
            (ApplyStage::Lock, ApplyEvent::Contended) => self.end(Err(SnapshotError::DeltaDeferred)),
            (ApplyStage::Dependencies, ApplyEvent::Compared { matched }) => {
                if matched {
                    (self.at_stage(ApplyStage::Validate), ApplyAction::CountConflicts)
                } else {
                    self.end(Err(SnapshotError::DeltaConflict { count: 1 }))
                }
            },
            (ApplyStage::Validate, ApplyEvent::Counted { conflicts }) => {
                if conflicts == 0 {
                    self.go_to(0)
                } else {
                    self.end(Err(SnapshotError::DeltaConflict { count: conflicts }))
                }
            },
            (ApplyStage::Observe, ApplyEvent::Seen(standing)) => {
                let phase = steps[self.next].phase;
                if phase == ApplyPhase::SetMode {
                    return (self, ApplyAction::Refuse);
                }
                match choose_course(phase, standing, self.resumes) {
                    Course::Pass => self.go_to(self.next + 1),
                    Course::Make => (self.at_stage(ApplyStage::Perform), ApplyAction::Perform { step: self.next }),
                    Course::Refuse => {
                        let failure = failure_after(
                            self.applied_paths,
                            SnapshotError::DeltaConflict { count: 1 },
                        );
                        self.end(Err(failure))
                    },
                }
            },
            (ApplyStage::Observe, ApplyEvent::SeenMode { differs }) => {
                if steps[self.next].phase != ApplyPhase::SetMode {
                    (self, ApplyAction::Refuse)
                } else if differs {
                    (self.at_stage(ApplyStage::Perform), ApplyAction::Perform { step: self.next })
                } else {
                    self.go_to(self.next + 1)
                }
            },
            (ApplyStage::Perform, ApplyEvent::Succeeded) => {
                let mut state = self;
                state.applied_paths = compare::add_saturating(self.applied_paths, 1);
                state.go_to(self.next + 1)
            },
            (ApplyStage::Perform, ApplyEvent::FailedAfterwards) => {
                let mut state = self;
                let written = compare::add_saturating(self.applied_paths, 1);
                state.applied_paths = written;
                state.end(Err(SnapshotError::DeltaApplyIncomplete { applied_paths: written }))
            },
            (ApplyStage::Verify, ApplyEvent::Counted { conflicts }) => {
                if conflicts == 0 {
                    (
                        self.at_stage(ApplyStage::TargetDependencies),
                        ApplyAction::CompareTargetDependencies,
                    )
                } else {
                    self.end(
                        Err(SnapshotError::DeltaApplyIncomplete { applied_paths: self.applied_paths }),
                    )
                }
            },
            (ApplyStage::TargetDependencies, ApplyEvent::Compared { matched }) => {
                if matched {
                    (self.at_stage(ApplyStage::Sync), ApplyAction::SyncDestination)
                } else {
                    let failure = failure_after(
                        self.applied_paths,
                        SnapshotError::DeltaConflict { count: 1 },
                    );
                    self.end(Err(failure))
                }
            },
            (ApplyStage::Sync, ApplyEvent::Succeeded) => self.end(Ok(self.summary)),
            _ => (self, ApplyAction::Refuse),
        }
    }
}

/// The states that a sequence of events leads through.
pub open spec fn apply_run(steps: Seq<ApplyStep>, state: ApplyState, events: Seq<ApplyEvent>) -> ApplyState
    decreases events.len(),
{
    if events.len() == 0 {
        state
    } else {
        apply_step(steps, apply_run(steps, state, events.drop_last()), events.last()).0
    }
}

/// Whether some events say that the lock was taken, the dependencies matched
/// and no conflict was counted.
pub open spec fn cleared_to_write(events: Seq<ApplyEvent>) -> bool {
    &&& events.contains(ApplyEvent::Succeeded)
    &&& events.contains(ApplyEvent::Compared { matched: true })
    &&& events.contains(ApplyEvent::Counted { conflicts: 0 })
}

/// The order that applying goes through its stages.
pub open spec fn stage_rank(stage: ApplyStage) -> int {
    match stage {
        ApplyStage::Lock => 0,
        ApplyStage::Dependencies => 1,
        ApplyStage::Validate => 2,
        ApplyStage::Observe => 3,
        ApplyStage::Perform => 3,
        ApplyStage::Verify => 4,
        ApplyStage::TargetDependencies => 5,
        ApplyStage::Sync => 6,
        ApplyStage::Done => 7,
    }
}

/// Nothing is written before the destination is locked, its dependencies match
/// and it has no conflict: whatever the events, a path counts as applied, or a
/// change is being made, only after events that say so.
pub proof fn law_nothing_is_written_before_validation(
    steps: Seq<ApplyStep>,
    total: usize,
    resumes: bool,
    summary: SnapshotDeltaSummary,
    events: Seq<ApplyEvent>,
)
    ensures
        ({
            let start = ApplyState {
                stage: ApplyStage::Lock,
                next: 0,
                total,
                applied_paths: 0,
                resumes,
                summary,
            };
            let state = apply_run(steps, start, events);
            state.applied_paths > 0 || state.stage is Perform ==> cleared_to_write(events)
        }),
{
    let start = ApplyState { stage: ApplyStage::Lock, next: 0, total, applied_paths: 0, resumes, summary };
    lemma_clearance(steps, start, events);
}

proof fn lemma_clearance(steps: Seq<ApplyStep>, start: ApplyState, events: Seq<ApplyEvent>)
    requires
        start.stage is Lock,
        start.applied_paths == 0,
    ensures
        ({
            let state = apply_run(steps, start, events);
            &&& stage_rank(state.stage) < 3 ==> state.applied_paths == 0
            &&& 1 <= stage_rank(state.stage) < 7 ==> events.contains(ApplyEvent::Succeeded)
            &&& 2 <= stage_rank(state.stage) < 7 ==> events.contains(ApplyEvent::Compared { matched: true })
            &&& 3 <= stage_rank(state.stage) < 7 ==> events.contains(ApplyEvent::Counted { conflicts: 0 })
            &&& state.applied_paths > 0 ==> cleared_to_write(events)
        }),
    decreases events.len(),
{
    if events.len() > 0 {
        let before = events.drop_last();
        lemma_clearance(steps, start, before);
        assert(events =~= before.push(events.last()));
        assert forall|e: ApplyEvent| #[trigger] before.contains(e) implies events.contains(e) by {
            compare::lemma_push_contains(before, events.last(), e);
        }
        compare::lemma_push_contains(before, events.last(), events.last());
    }
}

/// Once a path was written, a failure says so: whatever fails later, a step, the
/// verification, the dependencies or making it durable, is reported as an incomplete
/// apply with the number of paths that were written.
pub proof fn law_partial_work_is_reported(steps: Seq<ApplyStep>, state: ApplyState, event: ApplyEvent)
    requires
        apply_step(steps, state, event).0.applied_paths > 0,
        stage_rank(state.stage) >= 3,
    ensures
        apply_step(steps, state, event).1 matches ApplyAction::Finish(result) ==> (result is Err ==> result == Err::<
            SnapshotDeltaSummary,
            SnapshotError,
        >(
            SnapshotError::DeltaApplyIncomplete { applied_paths: apply_step(steps, state, event).0.applied_paths },
        )),
{
}

/// One step of applying a delta: a phase, and the change that it does.
#[derive(Clone, Copy, Debug, PartialEq, Eq, Structural)]
pub struct ApplyStep {
    pub phase: ApplyPhase,
    pub entry: usize,
}

/// The steps of a phase.
pub open spec fn phase_steps(phase: ApplyPhase, order: Seq<usize>) -> Seq<ApplyStep> {
    Seq::new(order.len(), |i: int| ApplyStep { phase, entry: order[i] })
}

/// Whether steps apply a delta: the phases in their order, each with its changes
/// in its order.
pub open spec fn is_step_order(entries: Seq<DeltaView>, steps: Seq<ApplyStep>) -> bool {
    exists|removed: Seq<usize>, made: Seq<usize>, put: Seq<usize>, set: Seq<usize>|
        #![trigger is_phase_order(entries, ApplyPhase::Remove, removed), is_phase_order(
            entries,
            ApplyPhase::MakeDirectory,
            made,
        ), is_phase_order(entries, ApplyPhase::Put, put), is_phase_order(entries, ApplyPhase::SetMode, set)]
        is_phase_order(entries, ApplyPhase::Remove, removed) && is_phase_order(entries, ApplyPhase::MakeDirectory, made)
            && is_phase_order(entries, ApplyPhase::Put, put) && is_phase_order(entries, ApplyPhase::SetMode, set)
            && steps == phase_steps(ApplyPhase::Remove, removed) + phase_steps(ApplyPhase::MakeDirectory, made)
            + phase_steps(ApplyPhase::Put, put) + phase_steps(ApplyPhase::SetMode, set)
}

/// How a delta is applied to a directory: its steps, the dependencies that are
/// compared before and after, and how far it has come.
#[derive(Debug)]
pub struct ApplyPlan {
    pub steps: Vec<ApplyStep>,
    pub requirements: Vec<SnapshotRequirement>,
    pub compare_limits: SnapshotCompareLimits,
    pub state: ApplyState,
}

fn push_phase(steps: &mut Vec<ApplyStep>, phase: ApplyPhase, order: &Vec<usize>)
    ensures
        final(steps)@ == old(steps)@ + phase_steps(phase, order@),
{
    let ghost before = steps@;
    let ghost all = phase_steps(phase, order@);
    let mut i: usize = 0;
    proof {
        assert(before + all.take(0) =~= before);
    }
    while i < order.len()
        invariant
            i <= order@.len(),
            all == phase_steps(phase, order@),
            steps@ == before + all.take(i as int),
        decreases order@.len() - i,
    {
        steps.push(ApplyStep { phase, entry: order[i] });
        proof {
            assert((before + all.take(i as int)).push(all[i as int]) =~= before + all.take(i as int + 1));
        }
        i = i + 1;
    }
    proof {
        assert(all.take(i as int) =~= all);
    }
}

impl SnapshotDelta {
    /// Starts applying the delta to a directory whose dependencies are to match.
    pub fn apply_to_directory_with_requirements(
        &self,
        mode: SnapshotDeltaApplyMode,
        requirements: Vec<SnapshotRequirement>,
        compare_limits: SnapshotCompareLimits,
    ) -> (started: (ApplyPlan, ApplyAction))
        ensures
            is_step_order(delta::delta_views(self.entries@), started.0.steps@),
            started.0.requirements == requirements,
            started.0.compare_limits == compare_limits,
            started.0.state.wf(),
            started.0.state == (ApplyState {
                stage: ApplyStage::Lock,
                next: 0,
                total: started.0.steps@.len() as usize,
                applied_paths: 0,
                resumes: mode is Resume,
                summary: self.summary,
            }),
            started.1 is AcquireLock,
    {
        let ghost entries = delta::delta_views(self.entries@);
        let removed = self.phase_order(ApplyPhase::Remove);
        let made = self.phase_order(ApplyPhase::MakeDirectory);
        let put = self.phase_order(ApplyPhase::Put);
        let set = self.phase_order(ApplyPhase::SetMode);
        let mut steps: Vec<ApplyStep> = Vec::new();
        push_phase(&mut steps, ApplyPhase::Remove, &removed);
        proof {
            assert(steps@ =~= phase_steps(ApplyPhase::Remove, removed@));
        }
        push_phase(&mut steps, ApplyPhase::MakeDirectory, &made);
        push_phase(&mut steps, ApplyPhase::Put, &put);
        push_phase(&mut steps, ApplyPhase::SetMode, &set);
        proof {
            assert(is_phase_order(entries, ApplyPhase::Remove, removed@));
            assert(is_phase_order(entries, ApplyPhase::MakeDirectory, made@));
            assert(is_phase_order(entries, ApplyPhase::Put, put@));
            assert(is_phase_order(entries, ApplyPhase::SetMode, set@));
            assert(is_step_order(entries, steps@));
        }
        let (state, action) = ApplyState::start(steps.len(), mode == SnapshotDeltaApplyMode::Resume, self.summary);
        (ApplyPlan { steps, requirements, compare_limits, state }, action)
    }

    /// Starts applying the delta to a directory without dependencies.
    pub fn apply_to_directory(&self, mode: SnapshotDeltaApplyMode) -> (started: (ApplyPlan, ApplyAction))
        ensures
            is_step_order(delta::delta_views(self.entries@), started.0.steps@),
            started.0.requirements@.len() == 0,
            started.0.state.wf(),
            started.0.state == (ApplyState {
                stage: ApplyStage::Lock,
                next: 0,
                total: started.0.steps@.len() as usize,
                applied_paths: 0,
                resumes: mode is Resume,
                summary: self.summary,
            }),
            started.1 is AcquireLock,
    {
        self.apply_to_directory_with_requirements(mode, Vec::new(), SnapshotCompareLimits::default())
    }
}

} // verus!
