//! Comparing dependencies: of one snapshot with another, or with a live directory.

use crate::error::{DescriptorFault, LimitFault, SnapshotError};
use crate::path;
use crate::path_map::PathMap;
use crate::snapshot::compare;
use crate::snapshot::compare::{
    compare_directory_scopes, compare_one_scope, prepare_requirements, remaining_entries, PreparedRequirement,
    ScopeEvidence, SnapshotCompareLimits, SnapshotComparison, SnapshotRequirement,
};
use crate::snapshot::handle::FsSnapshot;
use crate::snapshot::inventory;
use crate::snapshot::inventory::{inventory_bounded_with_modes, EntryStamp, StampedEntry};
use vstd::prelude::*;

verus! {

/// What a walk saw of a tree, and the modes that are kept for it.
pub struct TreeEvidence {
    pub root: EntryStamp,
    pub walked: Vec<StampedEntry>,
    pub modes: PathMap<u32>,
}

/// The files whose contents were found to be the same, and what is left of the bytes
/// that may be read.
pub struct SameContents {
    pub same: PathMap<u32>,
    pub content_budget: u64,
}

/// What was seen of two trees; the error where their files could not be compared.
pub struct TreesEvidence {
    pub expected: TreeEvidence,
    pub current: TreeEvidence,
    pub contents: Result<SameContents, SnapshotError>,
}

impl TreesEvidence {
    /// Every map stands in order.
    pub open spec fn wf(&self) -> bool {
        &&& self.expected.modes.wf()
        &&& self.current.modes.wf()
        &&& self.contents matches Ok(found) ==> found.same.wf()
    }
}

/// What was seen for the requirements of a comparison, one by one.
pub struct ScopesEvidence {
    pub scopes: Vec<ScopeEvidence>,
    pub content_budget: u64,
}

/// What taking stock of a tree gives.
pub open spec fn is_stock(
    tree: TreeEvidence,
    max_entries: usize,
    max_path_bytes: usize,
    result: Result<PathMap<EntryStamp>, SnapshotError>,
) -> bool {
    match inventory::scan_fault(
        inventory::stamped(tree.walked@),
        tree.walked@.len(),
        max_entries,
        max_path_bytes,
    ) {
        Some(fault) => result == Err::<PathMap<EntryStamp>, SnapshotError>(SnapshotError::LimitExceeded(fault)),
        None => result matches Ok(stock) && stock.wf() && stock@ == inventory::stamp_map(
            tree.modes@,
            tree.root@,
            inventory::stamped(tree.walked@),
        ),
    }
}

fn take_stock(tree: &TreeEvidence, max_entries: usize, max_path_bytes: usize) -> (result: Result<
    PathMap<EntryStamp>,
    SnapshotError,
>)
    requires
        tree.modes.wf(),
    ensures
        is_stock(*tree, max_entries, max_path_bytes, result),
{
    inventory_bounded_with_modes(&tree.root, &tree.walked, max_entries, max_path_bytes, &tree.modes)
}

/// How many entries some requirements look at in two trees.
pub open spec fn trees_count(
    expected: inventory::Stamps,
    current: inventory::Stamps,
    asked: Seq<compare::Requirement>,
) -> nat
    decreases asked.len(),
{
    if asked.len() == 0 {
        0
    } else {
        trees_count(expected, current, asked.drop_last()) + compare::scope_count(expected, current, asked.last())
    }
}

/// How many bytes were read.
pub open spec fn bytes_read(limits: SnapshotCompareLimits, content_budget: u64) -> int {
    if content_budget <= limits.max_content_bytes {
        limits.max_content_bytes - content_budget
    } else {
        0
    }
}

/// What comparing two trees gives: they match where they agree on all that is asked.
pub open spec fn is_trees_comparison(
    asked: Seq<compare::Requirement>,
    expected: inventory::Stamps,
    current: inventory::Stamps,
    limits: SnapshotCompareLimits,
    found: SameContents,
    comparison: SnapshotComparison,
) -> bool {
    &&& comparison.matched == (forall|i: int|
        0 <= i < asked.len() ==> compare::scope_agrees(expected, current, #[trigger] asked[i], found.same@.dom()))
    &&& comparison.compared_entries == compare::saturated(trees_count(expected, current, asked) as int)
    &&& comparison.compared_bytes == bytes_read(limits, found.content_budget)
}

/// What comparing what was seen of a directory gives.
pub open spec fn is_scopes_comparison(
    asked: Seq<compare::Requirement>,
    limits: SnapshotCompareLimits,
    seen: ScopesEvidence,
    comparison: SnapshotComparison,
) -> bool {
    &&& comparison.matched == (forall|i: int|
        0 <= i < seen.scopes@.len() ==> compare::requirement_met(asked[i], #[trigger] seen.scopes@[i]))
    &&& comparison.compared_entries == compare::saturated(
        compare::requirements_count(asked, seen.scopes@) as int,
    )
    &&& comparison.compared_bytes == bytes_read(limits, seen.content_budget)
}

/// What comparing some dependencies of two snapshots gives: the first of the
/// requirements, the two inventories and the contents that cannot be had stops it.
pub open spec fn is_tree_outcome(
    requirements: Seq<SnapshotRequirement>,
    limits: SnapshotCompareLimits,
    seen: TreesEvidence,
    result: Result<SnapshotComparison, SnapshotError>,
) -> bool {
    ||| refuses_requirements(requirements, limits, result)
    ||| exists|prepared: Vec<PreparedRequirement>|
        #[trigger] compare::is_preparation(
            requirements,
            limits.max_requirements,
            Ok::<Vec<PreparedRequirement>, SnapshotError>(prepared),
        ) && is_stocked_outcome(compare::prepared_views(prepared@), limits, seen, result)
}

/// Whether a comparison stops at its requirements.
pub open spec fn refuses_requirements(
    requirements: Seq<SnapshotRequirement>,
    limits: SnapshotCompareLimits,
    result: Result<SnapshotComparison, SnapshotError>,
) -> bool {
    result matches Err(error) && compare::is_preparation(
        requirements,
        limits.max_requirements,
        Err::<Vec<PreparedRequirement>, SnapshotError>(error),
    )
}

/// What follows once the requirements stand in their normal form.
pub open spec fn is_stocked_outcome(
    asked: Seq<compare::Requirement>,
    limits: SnapshotCompareLimits,
    seen: TreesEvidence,
    result: Result<SnapshotComparison, SnapshotError>,
) -> bool {
    ||| result matches Err(error) && is_stock(
        seen.expected,
        limits.max_entries,
        limits.max_path_bytes,
        Err::<PathMap<EntryStamp>, SnapshotError>(error),
    )
    ||| exists|expected: PathMap<EntryStamp>|
        #[trigger] is_stock(
            seen.expected,
            limits.max_entries,
            limits.max_path_bytes,
            Ok::<PathMap<EntryStamp>, SnapshotError>(expected),
        ) && is_outcome_behind(asked, limits, seen, expected, result)
}

/// What follows once stock was taken of what is expected.
pub open spec fn is_outcome_behind(
    asked: Seq<compare::Requirement>,
    limits: SnapshotCompareLimits,
    seen: TreesEvidence,
    expected: PathMap<EntryStamp>,
    result: Result<SnapshotComparison, SnapshotError>,
) -> bool {
    let taken = expected.entries().len();
    if taken > limits.max_entries {
        result == Err::<SnapshotComparison, SnapshotError>(SnapshotError::LimitExceeded(LimitFault::CompareEntries))
    } else {
        let left = (limits.max_entries - taken) as usize;
        ||| result matches Err(error) && is_stock(
            seen.current,
            left,
            limits.max_path_bytes,
            Err::<PathMap<EntryStamp>, SnapshotError>(error),
        )
        ||| exists|current: PathMap<EntryStamp>|
            #[trigger] is_stock(
                seen.current,
                left,
                limits.max_path_bytes,
                Ok::<PathMap<EntryStamp>, SnapshotError>(current),
            ) && match seen.contents {
                Err(error) => result == Err::<SnapshotComparison, SnapshotError>(error),
                Ok(found) => result matches Ok(comparison) && is_trees_comparison(
                    asked,
                    expected.entries(),
                    current.entries(),
                    limits,
                    found,
                    comparison,
                ),
            }
    }
}

/// What comparing some dependencies with a directory gives.
pub open spec fn is_scope_outcome(
    requirements: Seq<SnapshotRequirement>,
    limits: SnapshotCompareLimits,
    seen: Result<ScopesEvidence, SnapshotError>,
    result: Result<SnapshotComparison, SnapshotError>,
) -> bool {
    ||| refuses_requirements(requirements, limits, result)
    ||| exists|prepared: Vec<PreparedRequirement>|
        #[trigger] compare::is_preparation(
            requirements,
            limits.max_requirements,
            Ok::<Vec<PreparedRequirement>, SnapshotError>(prepared),
        ) && match seen {
            Err(error) => result == Err::<SnapshotComparison, SnapshotError>(error),
            Ok(found) => result matches Ok(comparison) && is_scopes_comparison(
                compare::prepared_views(prepared@),
                limits,
                found,
                comparison,
            ),
        }
}

/// The evidence fits the requirements: one piece for each of them in normal form.
pub open spec fn scopes_fit(
    requirements: Seq<SnapshotRequirement>,
    limits: SnapshotCompareLimits,
    seen: Result<ScopesEvidence, SnapshotError>,
) -> bool {
    seen matches Ok(found) ==> {
        &&& forall|i: int| 0 <= i < found.scopes@.len() ==> (#[trigger] found.scopes@[i]).wf()
        &&& forall|prepared: Vec<PreparedRequirement>|
            #[trigger] compare::is_preparation(
                requirements,
                limits.max_requirements,
                Ok::<Vec<PreparedRequirement>, SnapshotError>(prepared),
            ) ==> prepared@.len() == found.scopes@.len()
    }
}

proof fn lemma_requirement_irreflexive(a: compare::Requirement)
    ensures
        !compare::requirement_before(a, a),
{
    path::lemma_path_irreflexive(a.0);
}

proof fn lemma_drop_last_keeps_rest(a: Seq<compare::Requirement>, r: compare::Requirement)
    requires
        compare::requirements_in_order(a),
        a.len() > 0,
    ensures
        a.drop_last().contains(r) <==> a.contains(r) && r != a.last(),
{
    if a.drop_last().contains(r) {
        let i = choose|i: int| 0 <= i < a.len() - 1 && a.drop_last()[i] == r;
        assert(a[i] == r);
        assert(compare::requirement_before(a[i], a[a.len() - 1]));
        lemma_requirement_irreflexive(r);
    }
    if a.contains(r) && r != a.last() {
        let i = choose|i: int| 0 <= i < a.len() && a[i] == r;
        assert(a.drop_last()[i] == r);
    }
}

proof fn lemma_one_order(a: Seq<compare::Requirement>, b: Seq<compare::Requirement>)
    requires
        compare::requirements_in_order(a),
        compare::requirements_in_order(b),
        forall|r: compare::Requirement| #[trigger] a.contains(r) <==> b.contains(r),
    ensures
        a == b,
    decreases a.len(),
{
    if a.len() == 0 {
        if b.len() > 0 {
            assert(b.contains(b[0]));
            assert(a.contains(b[0]));
        }
        assert(a =~= b);
    } else {
        let x = a.last();
        assert(a[a.len() - 1] == x);
        assert(a.contains(x));
        assert(b.contains(x));
        let k = choose|k: int| 0 <= k < b.len() && b[k] == x;
        let y = b.last();
        assert(b[b.len() - 1] == y);
        assert(b.contains(y));
        assert(a.contains(y));
        let m = choose|m: int| 0 <= m < a.len() && a[m] == y;
        if x != y {
            assert(compare::requirement_before(b[k], b[b.len() - 1]));
            assert(compare::requirement_before(a[m], a[a.len() - 1]));
            compare::lemma_requirement_transitive(x, y, x);
            lemma_requirement_irreflexive(x);
        }
        assert forall|r: compare::Requirement| #[trigger] a.drop_last().contains(r) <==> b.drop_last().contains(r) by {
            lemma_drop_last_keeps_rest(a, r);
            lemma_drop_last_keeps_rest(b, r);
            assert(a.contains(r) <==> b.contains(r));
        }
        assert forall|i: int, j: int| 0 <= i < j < a.drop_last().len() implies compare::requirement_before(
            #[trigger] a.drop_last()[i],
            #[trigger] a.drop_last()[j],
        ) by {
            assert(compare::requirement_before(a[i], a[j]));
        }
        assert forall|i: int, j: int| 0 <= i < j < b.drop_last().len() implies compare::requirement_before(
            #[trigger] b.drop_last()[i],
            #[trigger] b.drop_last()[j],
        ) by {
            assert(compare::requirement_before(b[i], b[j]));
        }
        lemma_one_order(a.drop_last(), b.drop_last());
        assert(a =~= a.drop_last().push(x));
        assert(b =~= b.drop_last().push(y));
    }
}

/// Requirements have one normal form: whoever prepares them gets the same list.
pub proof fn law_requirements_have_one_normal_form(
    requirements: Seq<SnapshotRequirement>,
    max_requirements: usize,
    one: Vec<PreparedRequirement>,
    other: Vec<PreparedRequirement>,
)
    requires
        compare::is_preparation(requirements, max_requirements, Ok::<Vec<PreparedRequirement>, SnapshotError>(one)),
        compare::is_preparation(requirements, max_requirements, Ok::<Vec<PreparedRequirement>, SnapshotError>(other)),
    ensures
        compare::prepared_views(one@) == compare::prepared_views(other@),
        one@.len() == other@.len(),
{
    let a = compare::prepared_views(one@);
    let b = compare::prepared_views(other@);
    assert forall|r: compare::Requirement| #[trigger] a.contains(r) <==> b.contains(r) by {
        assert(a.contains(r) <==> compare::requirement_views(requirements).contains(r));
        assert(b.contains(r) <==> compare::requirement_views(requirements).contains(r));
    }
    lemma_one_order(a, b);
    assert(a.len() == one@.len() && b.len() == other@.len());
}

fn compare_trees(
    requirements: &Vec<PreparedRequirement>,
    expected: &PathMap<EntryStamp>,
    current: &PathMap<EntryStamp>,
    limits: SnapshotCompareLimits,
    found: &SameContents,
) -> (comparison: SnapshotComparison)
    requires
        expected.wf(),
        current.wf(),
        found.same.wf(),
    ensures
        is_trees_comparison(
            compare::prepared_views(requirements@),
            expected.entries(),
            current.entries(),
            limits,
            *found,
            comparison,
        ),
{
    let ghost asked = compare::prepared_views(requirements@);
    let mut matched = true;
    let mut compared_entries: usize = 0;
    let mut i: usize = 0;
    proof {
        assert(asked.take(0) =~= Seq::<compare::Requirement>::empty());
    }
    while i < requirements.len()
        invariant
            i <= requirements@.len(),
            asked == compare::prepared_views(requirements@),
            expected.wf(),
            current.wf(),
            found.same.wf(),
            compared_entries == compare::saturated(
                trees_count(expected.entries(), current.entries(), asked.take(i as int)) as int,
            ),
            matched == (forall|j: int|
                0 <= j < i ==> compare::scope_agrees(
                    expected.entries(),
                    current.entries(),
                    #[trigger] asked[j],
                    found.same@.dom(),
                )),
        decreases requirements@.len() - i,
    {
        proof {
            assert(asked.take(i as int + 1).drop_last() =~= asked.take(i as int));
            assert(asked.take(i as int + 1).last() == asked[i as int]);
        }
        let agrees = compare_one_scope(expected, current, &requirements[i], &found.same, &mut compared_entries);
        matched = matched && agrees;
        i = i + 1;
    }
    proof {
        assert(asked.take(i as int) =~= asked);
    }
    let compared_bytes: u64 = if found.content_budget <= limits.max_content_bytes {
        limits.max_content_bytes - found.content_budget
    } else {
        0
    };
    SnapshotComparison { matched, compared_entries, compared_bytes }
}

impl FsSnapshot {
    /// Compares selected dependencies with those of another snapshot.
    pub fn compare_requirements(
        &self,
        current: &FsSnapshot,
        requirements: &Vec<SnapshotRequirement>,
        limits: SnapshotCompareLimits,
        seen: TreesEvidence,
    ) -> (result: Result<SnapshotComparison, SnapshotError>)
        requires
            seen.wf(),
        ensures
            if self@.destroyed || current@.destroyed {
                result == Err::<SnapshotComparison, SnapshotError>(SnapshotError::AlreadyDestroyed)
            } else {
                is_tree_outcome(requirements@, limits, seen, result)
            },
    {
        if self.ensure_live().is_err() || current.ensure_live().is_err() {
            return Err(SnapshotError::AlreadyDestroyed);
        }
        let prepared = match prepare_requirements(requirements, limits.max_requirements) {
            Err(error) => return Err(error),
            Ok(prepared) => prepared,
        };
        let expected = match take_stock(&seen.expected, limits.max_entries, limits.max_path_bytes) {
            Err(error) => return Err(error),
            Ok(expected) => expected,
        };
        let left = match remaining_entries(limits.max_entries, expected.len()) {
            Err(error) => {
                assert(is_outcome_behind(
                    compare::prepared_views(prepared@),
                    limits,
                    seen,
                    expected,
                    Err::<SnapshotComparison, SnapshotError>(error),
                ));
                return Err(error);
            },
            Ok(left) => left,
        };
        let now = match take_stock(&seen.current, left, limits.max_path_bytes) {
            Err(error) => {
                assert(is_outcome_behind(
                    compare::prepared_views(prepared@),
                    limits,
                    seen,
                    expected,
                    Err::<SnapshotComparison, SnapshotError>(error),
                ));
                return Err(error);
            },
            Ok(now) => now,
        };
        let result = match seen.contents {
            Err(error) => Err(error),
            Ok(ref found) => Ok(compare_trees(&prepared, &expected, &now, limits, found)),
        };
        assert(is_outcome_behind(compare::prepared_views(prepared@), limits, seen, expected, result));
        result
    }

    /// Compares selected dependencies with a live directory.
    pub fn compare_directory_requirements(
        &self,
        destination_is_plain: bool,
        requirements: &Vec<SnapshotRequirement>,
        limits: SnapshotCompareLimits,
        seen: Result<ScopesEvidence, SnapshotError>,
    ) -> (result: Result<SnapshotComparison, SnapshotError>)
        requires
            scopes_fit(requirements@, limits, seen),
        ensures
            if self@.destroyed {
                result == Err::<SnapshotComparison, SnapshotError>(SnapshotError::AlreadyDestroyed)
            } else if !destination_is_plain {
                result == Err::<SnapshotComparison, SnapshotError>(
                    SnapshotError::InvalidDescriptor(DescriptorFault::NotPlainDirectory),
                )
            } else {
                is_scope_outcome(requirements@, limits, seen, result)
            },
    {
        if self.ensure_live().is_err() {
            return Err(SnapshotError::AlreadyDestroyed);
        }
        if !destination_is_plain {
            return Err(SnapshotError::InvalidDescriptor(DescriptorFault::NotPlainDirectory));
        }
        match prepare_requirements(requirements, limits.max_requirements) {
            Err(error) => Err(error),
            Ok(prepared) => match seen {
                Err(error) => Err(error),
                Ok(found) => Ok(compare_directory_scopes(&prepared, &found.scopes, limits, found.content_budget)),
            },
        }
    }

    /// Compares each dependency with either of two snapshots.
    pub fn compare_directory_requirements_allowing(
        &self,
        alternative: &FsSnapshot,
        destination_is_plain: bool,
        requirements: &Vec<SnapshotRequirement>,
        limits: SnapshotCompareLimits,
        seen: Result<ScopesEvidence, SnapshotError>,
    ) -> (result: Result<SnapshotComparison, SnapshotError>)
        requires
            scopes_fit(requirements@, limits, seen),
        ensures
            if self@.destroyed || alternative@.destroyed {
                result == Err::<SnapshotComparison, SnapshotError>(SnapshotError::AlreadyDestroyed)
            } else if !destination_is_plain {
                result == Err::<SnapshotComparison, SnapshotError>(
                    SnapshotError::InvalidDescriptor(DescriptorFault::NotPlainDirectory),
                )
            } else {
                is_scope_outcome(requirements@, limits, seen, result)
            },
    {
        if alternative.ensure_live().is_err() {
            return Err(SnapshotError::AlreadyDestroyed);
        }
        self.compare_directory_requirements(destination_is_plain, requirements, limits, seen)
    }
}

/// A comparison of trees matches exactly where every requirement is met, counts what each of
/// them looked at, and tells the bytes that were read.
pub proof fn law_comparisons_match_where_all_agree(
    asked: Seq<compare::Requirement>,
    expected: inventory::Stamps,
    current: inventory::Stamps,
    limits: SnapshotCompareLimits,
    found: SameContents,
    comparison: SnapshotComparison,
    last: compare::Requirement,
)
    requires
        is_trees_comparison(asked, expected, current, limits, found, comparison),
    ensures
        comparison.matched <==> forall|i: int|
            0 <= i < asked.len() ==> compare::scope_agrees(expected, current, #[trigger] asked[i], found.same@.dom()),
        asked.len() == 0 ==> comparison.matched && comparison.compared_entries == compare::saturated(0),
        trees_count(expected, current, asked.push(last)) == trees_count(expected, current, asked) + compare::scope_count(
            expected,
            current,
            last,
        ),
        comparison.compared_bytes == bytes_read(limits, found.content_budget),
{
    assert(asked.push(last).drop_last() =~= asked);
}

/// A comparison of scopes matches exactly where every scope meets its requirement.
pub proof fn law_scopes_match_where_all_are_met(
    asked: Seq<compare::Requirement>,
    limits: SnapshotCompareLimits,
    seen: ScopesEvidence,
    comparison: SnapshotComparison,
)
    requires
        is_scopes_comparison(asked, limits, seen, comparison),
    ensures
        comparison.matched <==> forall|i: int|
            0 <= i < seen.scopes@.len() ==> compare::requirement_met(asked[i], #[trigger] seen.scopes@[i]),
        comparison.compared_bytes == bytes_read(limits, seen.content_budget),
{
}

/// A comparison tells nothing where a content could not be read.
pub proof fn law_unread_contents_are_not_compared(
    requirements: Seq<SnapshotRequirement>,
    limits: SnapshotCompareLimits,
    seen: TreesEvidence,
    result: Result<SnapshotComparison, SnapshotError>,
)
    requires
        is_tree_outcome(requirements, limits, seen, result),
        seen.contents is Err,
    ensures
        result is Err,
{
}

} // verus!
