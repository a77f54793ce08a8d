//! Scoped comparison between trees.

use crate::error::{LimitFault, PathFault, SnapshotError, Step};
use crate::path;
use crate::path::{bytes_equal, Names, RelPath};
use crate::path_map;
use crate::path_map::{Duplicate, PathMap};
use crate::snapshot::inventory;
use crate::snapshot::inventory::{
    inventory_bounded_with_modes, same_bytes, EntryStamp, Stamp, StampedEntry, Stamps,
};
use crate::snapshot::{SnapshotChangeKind, SnapshotEntryKind};
use vstd::prelude::*;

verus! {

/// The most requirements of one comparison, unless told otherwise.
pub const DEFAULT_REQUIREMENT_LIMIT: usize = 256;

/// The most entries that one comparison sees, unless told otherwise.
pub const DEFAULT_COMPARE_ENTRY_LIMIT: usize = 100_000;

/// The most bytes of paths that one comparison sees, unless told otherwise.
pub const DEFAULT_COMPARE_PATH_BYTE_LIMIT: usize = 16_777_216;

/// The most bytes of content that one comparison reads, unless told otherwise.
pub const DEFAULT_COMPARE_CONTENT_BYTE_LIMIT: u64 = 1_073_741_824;

/// Generic filesystem fields covered by one scoped snapshot requirement.
#[derive(Clone, Copy, Debug, PartialEq, Eq, PartialOrd, Ord, Structural)]
pub enum SnapshotCompareScope {
    /// Exact state of one entry: existence, kind, mode, file bytes, or symlink target.
    Content,
    /// Immediate child names and entry kinds for one directory.
    Entries,
    /// Recursive descendant names and entry kinds.
    TreeEntries,
    /// Recursive exact entry state including modes and regular-file bytes.
    TreeContent,
}

/// One snapshot-relative dependency to compare.
#[derive(Debug)]
pub struct SnapshotRequirement {
    pub path: Vec<u8>,
    pub scope: SnapshotCompareScope,
}

/// Hard limits for a scoped comparison.
#[derive(Clone, Copy, Debug, PartialEq, Eq, Structural)]
pub struct SnapshotCompareLimits {
    pub max_requirements: usize,
    pub max_entries: usize,
    pub max_path_bytes: usize,
    pub max_content_bytes: u64,
}

impl Default for SnapshotCompareLimits {
    fn default() -> (limits: Self)
        ensures
            limits.max_requirements == DEFAULT_REQUIREMENT_LIMIT,
            limits.max_entries == DEFAULT_COMPARE_ENTRY_LIMIT,
            limits.max_path_bytes == DEFAULT_COMPARE_PATH_BYTE_LIMIT,
            limits.max_content_bytes == DEFAULT_COMPARE_CONTENT_BYTE_LIMIT,
    {
        SnapshotCompareLimits {
            max_requirements: DEFAULT_REQUIREMENT_LIMIT,
            max_entries: DEFAULT_COMPARE_ENTRY_LIMIT,
            max_path_bytes: DEFAULT_COMPARE_PATH_BYTE_LIMIT,
            max_content_bytes: DEFAULT_COMPARE_CONTENT_BYTE_LIMIT,
        }
    }
}

/// Result and complete metrics for a scoped comparison.
#[derive(Clone, Copy, Debug, PartialEq, Eq, Structural)]
pub struct SnapshotComparison {
    pub matched: bool,
    pub compared_entries: usize,
    pub compared_bytes: u64,
}

/// A requirement whose path is in normal form.
pub struct PreparedRequirement {
    pub path: RelPath,
    pub scope: SnapshotCompareScope,
}

/// What a prepared requirement asks.
pub type Requirement = (Names, SnapshotCompareScope);

/// What prepared requirements ask.
pub open spec fn prepared_views(prepared: Seq<PreparedRequirement>) -> Seq<Requirement> {
    Seq::new(prepared.len(), |i: int| (prepared[i].path@, prepared[i].scope))
}

/// The place of a scope among the scopes.
pub open spec fn scope_rank(scope: SnapshotCompareScope) -> int {
    match scope {
        SnapshotCompareScope::Content => 0,
        SnapshotCompareScope::Entries => 1,
        SnapshotCompareScope::TreeEntries => 2,
        SnapshotCompareScope::TreeContent => 3,
    }
}

/// The order of requirements: by path, then by scope.
pub open spec fn requirement_before(a: Requirement, b: Requirement) -> bool {
    path::path_before(a.0, b.0) || (a.0 == b.0 && scope_rank(a.1) < scope_rank(b.1))
}

/// Requirements in order, each once.
pub open spec fn requirements_in_order(list: Seq<Requirement>) -> bool {
    forall|i: int, j: int|
        0 <= i < j < list.len() ==> requirement_before(#[trigger] list[i], #[trigger] list[j])
}

/// Whether every requirement names a relative path.
pub open spec fn requirements_relative(requirements: Seq<SnapshotRequirement>) -> bool {
    forall|i: int|
        0 <= i < requirements.len() ==> path::relative_names((#[trigger] requirements[i]).path@) is Some
}

/// What some requirements ask.
pub open spec fn requirement_views(requirements: Seq<SnapshotRequirement>) -> Seq<Requirement> {
    Seq::new(
        requirements.len(),
        |i: int| (path::relative_names(requirements[i].path@)->0, requirements[i].scope),
    )
}

/// The order of requirements is transitive.
pub proof fn lemma_requirement_transitive(a: Requirement, b: Requirement, c: Requirement)
    requires
        requirement_before(a, b),
        requirement_before(b, c),
    ensures
        requirement_before(a, c),
{
    if path::path_before(a.0, b.0) && path::path_before(b.0, c.0) {
        path::lemma_path_transitive(a.0, b.0, c.0);
    }
}

proof fn lemma_requirement_total(a: Requirement, b: Requirement)
    ensures
        a == b || requirement_before(a, b) || requirement_before(b, a),
{
    path::lemma_path_total(a.0, b.0);
    if a.0 == b.0 && scope_rank(a.1) == scope_rank(b.1) {
        assert(a.1 == b.1);
    }
}

fn scope_precedes(a: SnapshotCompareScope, b: SnapshotCompareScope) -> (before: bool)
    ensures
        before == (scope_rank(a) < scope_rank(b)),
{
    match (a, b) {
        (SnapshotCompareScope::Content, SnapshotCompareScope::Content) => false,
        (SnapshotCompareScope::Content, _) => true,
        (SnapshotCompareScope::Entries, SnapshotCompareScope::TreeEntries) => true,
        (SnapshotCompareScope::Entries, SnapshotCompareScope::TreeContent) => true,
        (SnapshotCompareScope::TreeEntries, SnapshotCompareScope::TreeContent) => true,
        _ => false,
    }
}

/// Lists one more requirement in its place, unless it is listed already.
fn list_requirement(list: &mut Vec<PreparedRequirement>, added: PreparedRequirement)
    requires
        requirements_in_order(prepared_views(old(list)@)),
    ensures
        requirements_in_order(prepared_views(final(list)@)),
        forall|r: Requirement|
            #[trigger] prepared_views(final(list)@).contains(r) <==> (prepared_views(old(list)@).contains(r)
                || r == (added.path@, added.scope)),
{
    let ghost before = prepared_views(list@);
    let ghost new = (added.path@, added.scope);
    let mut at: usize = 0;
    while at < list.len()
        invariant_except_break
            at <= list@.len(),
            before == prepared_views(list@),
            requirements_in_order(before),
            new == (added.path@, added.scope),
            forall|i: int| 0 <= i < at ==> requirement_before(#[trigger] before[i], new),
        ensures
            at <= list@.len(),
            forall|i: int| 0 <= i < at ==> requirement_before(#[trigger] before[i], new),
            at < list@.len() ==> !requirement_before(before[at as int], new),
        decreases list@.len() - at,
    {
        let same_path = list[at].path.equals(&added.path);
        let earlier = list[at].path.precedes(&added.path) || (same_path && scope_precedes(
            list[at].scope,
            added.scope,
        ));
        proof {
            assert(before[at as int] == (list@[at as int].path@, list@[at as int].scope));
        }
        if !earlier {
            break;
        }
        at = at + 1;
    }
    if at < list.len() {
        let listed = list[at].path.equals(&added.path) && list[at].scope == added.scope;
        proof {
            assert(before[at as int] == (list@[at as int].path@, list@[at as int].scope));
            lemma_requirement_total(before[at as int], new);
        }
        if listed {
            proof {
                assert(before[at as int] == new);
                assert(before.contains(new));
            }
            return;
        }
    }
    list.insert(at, added);
    proof {
        let after = prepared_views(list@);
        assert(after =~= before.insert(at as int, new));
        assert forall|i: int| at <= i < before.len() implies requirement_before(new, #[trigger] before[i]) by {
            if i > at {
                assert(requirement_before(before[at as int], before[i]));
                lemma_requirement_transitive(new, before[at as int], before[i]);
            }
        }
        assert forall|i: int, j: int| 0 <= i < j < after.len() implies requirement_before(
            #[trigger] after[i],
            #[trigger] after[j],
        ) by {
            let old_i = if i < at { i } else { i - 1 };
            let old_j = if j < at { j } else { j - 1 };
            if i != at && j != at {
                assert(requirement_before(before[old_i], before[old_j]));
            }
        }
        assert forall|r: Requirement|
            #[trigger] after.contains(r) <==> (before.contains(r) || r == new) by {
            if after.contains(r) {
                let i = choose|i: int| 0 <= i < after.len() && after[i] == r;
                if i < at {
                    assert(before[i] == r);
                } else if i > at {
                    assert(before[i - 1] == r);
                }
            }
            if before.contains(r) {
                let i = choose|i: int| 0 <= i < before.len() && before[i] == r;
                if i < at {
                    assert(after[i] == r);
                } else {
                    assert(after[i + 1] == r);
                }
            }
            assert(after[at as int] == new);
        }
    }
}

/// What putting requirements in normal form gives.
pub open spec fn is_preparation(
    requirements: Seq<SnapshotRequirement>,
    max_requirements: usize,
    result: Result<Vec<PreparedRequirement>, SnapshotError>,
) -> bool {
    match result {
        Ok(prepared) => {
            &&& requirements.len() <= max_requirements
            &&& requirements_relative(requirements)
            &&& requirements_in_order(prepared_views(prepared@))
            &&& forall|r: Requirement|
                #[trigger] prepared_views(prepared@).contains(r) <==> requirement_views(
                    requirements,
                ).contains(r)
        },
        Err(SnapshotError::LimitExceeded(fault)) => {
            &&& requirements.len() > max_requirements
            &&& fault == LimitFault::Requirements { given: requirements.len() as usize, limit: max_requirements }
        },
        Err(SnapshotError::InvalidPath(fault)) => {
            &&& requirements.len() <= max_requirements
            &&& !requirements_relative(requirements)
            &&& fault == PathFault::NotRelative
        },
        Err(_) => false,
    }
}

/// Puts requirements in normal form: paths normalized, in order, each once.
pub fn prepare_requirements(requirements: &Vec<SnapshotRequirement>, max_requirements: usize) -> (result:
    Result<Vec<PreparedRequirement>, SnapshotError>)
    ensures
        is_preparation(requirements@, max_requirements, result),
{
    if requirements.len() > max_requirements {
        return Err(
            SnapshotError::LimitExceeded(
                LimitFault::Requirements { given: requirements.len(), limit: max_requirements },
            ),
        );
    }
    let ghost asked = requirement_views(requirements@);
    let mut prepared: Vec<PreparedRequirement> = Vec::new();
    let mut i: usize = 0;
    while i < requirements.len()
        invariant
            i <= requirements@.len() <= max_requirements,
            asked == requirement_views(requirements@),
            forall|j: int|
                0 <= j < i ==> path::relative_names((#[trigger] requirements@[j]).path@) is Some,
            requirements_in_order(prepared_views(prepared@)),
            forall|r: Requirement|
                #[trigger] prepared_views(prepared@).contains(r) <==> asked.take(i as int).contains(r),
        decreases requirements@.len() - i,
    {
        match RelPath::parse(requirements[i].path.as_slice()) {
            Some(parsed) => {
                let ghost before = prepared_views(prepared@);
                let added = PreparedRequirement { path: parsed, scope: requirements[i].scope };
                let ghost new = (added.path@, added.scope);
                list_requirement(&mut prepared, added);
                proof {
                    assert(asked[i as int] == new);
                    assert(asked.take(i as int + 1) =~= asked.take(i as int).push(new));
                    assert forall|r: Requirement|
                        #[trigger] prepared_views(prepared@).contains(r) <==> asked.take(
                            i as int + 1,
                        ).contains(r) by {
                        lemma_push_contains(asked.take(i as int), new, r);
                    }
                }
            },
            None => {
                proof {
                    assert(path::relative_names(requirements@[i as int].path@) is None);
                }
                return Err(SnapshotError::InvalidPath(PathFault::NotRelative));
            },
        }
        i = i + 1;
    }
    proof {
        assert(asked.take(i as int) =~= asked);
    }
    Ok(prepared)
}

pub proof fn lemma_push_contains<A>(list: Seq<A>, last: A, x: A)
    ensures
        list.push(last).contains(x) <==> (list.contains(x) || x == last),
{
    if list.push(last).contains(x) {
        let i = choose|i: int| 0 <= i < list.push(last).len() && list.push(last)[i] == x;
        if i < list.len() {
            assert(list[i] == x);
        }
    }
    if list.contains(x) {
        let i = choose|i: int| 0 <= i < list.len() && list[i] == x;
        assert(list.push(last)[i] == x);
    }
    assert(list.push(last)[list.len() as int] == last);
}

/// How one entry differs from another, given whether their contents are the
/// same where both are files of one length.
pub open spec fn entry_change(before: Stamp, after: Stamp, same_content: bool) -> Option<SnapshotChangeKind> {
    if before.kind != after.kind {
        Some(SnapshotChangeKind::TypeChanged)
    } else if before.kind is File && (before.len != after.len || !same_content) {
        Some(SnapshotChangeKind::Modified)
    } else if before.kind is Symlink && before.symlink_target != after.symlink_target {
        Some(SnapshotChangeKind::SymlinkTargetChanged)
    } else if before.mode != after.mode {
        Some(SnapshotChangeKind::ModeChanged)
    } else {
        None
    }
}

/// How one entry differs from another.
pub fn compare_entry(before: &EntryStamp, after: &EntryStamp, same_content: bool) -> (change: Option<
    SnapshotChangeKind,
>)
    ensures
        change == entry_change(before@, after@, same_content),
{
    if before.kind != after.kind {
        return Some(SnapshotChangeKind::TypeChanged);
    }
    match before.kind {
        SnapshotEntryKind::File => {
            if before.len != after.len || !same_content {
                return Some(SnapshotChangeKind::Modified);
            }
        },
        SnapshotEntryKind::Symlink => {
            if !same_bytes(&before.symlink_target, &after.symlink_target) {
                return Some(SnapshotChangeKind::SymlinkTargetChanged);
            }
        },
        SnapshotEntryKind::Directory => {},
    }
    if before.mode != after.mode {
        Some(SnapshotChangeKind::ModeChanged)
    } else {
        None
    }
}

/// Whether the contents of two entries have to be read to compare them.
pub open spec fn content_matters(a: Map<Names, Stamp>, b: Map<Names, Stamp>, p: Names) -> bool {
    &&& a.dom().contains(p)
    &&& b.dom().contains(p)
    &&& a[p].kind is File
    &&& b[p].kind is File
    &&& a[p].len == b[p].len
}

/// Whether the contents at a path have to be read to compare it.
pub fn needs_content(expected: &PathMap<EntryStamp>, current: &PathMap<EntryStamp>, at: &RelPath) -> (needed:
    bool)
    requires
        expected.wf(),
        current.wf(),
    ensures
        needed == content_matters(expected@, current@, at@),
{
    match (expected.get(at), current.get(at)) {
        (Some(left), Some(right)) => left.kind == SnapshotEntryKind::File && right.kind
            == SnapshotEntryKind::File && left.len == right.len,
        _ => false,
    }
}

/// Whether two trees hold the same at a path: nothing, or entries without a
/// difference.
pub open spec fn equal_at(
    expected: Map<Names, Stamp>,
    current: Map<Names, Stamp>,
    p: Names,
    same_content: bool,
) -> bool {
    if expected.dom().contains(p) && current.dom().contains(p) {
        entry_change(expected[p], current[p], same_content) is None
    } else {
        !expected.dom().contains(p) && !current.dom().contains(p)
    }
}

/// Whether two inventories hold the same at a path.
pub fn inventory_entry_equal(
    expected: &PathMap<EntryStamp>,
    current: &PathMap<EntryStamp>,
    at: &RelPath,
    same_content: bool,
) -> (equal: bool)
    requires
        expected.wf(),
        current.wf(),
    ensures
        equal == equal_at(expected@, current@, at@, same_content),
{
    match (expected.get(at), current.get(at)) {
        (None, None) => true,
        (Some(left), Some(right)) => compare_entry(left, right, same_content).is_none(),
        _ => false,
    }
}

/// What comparing one more piece of two contents gives.
#[derive(Clone, Copy, Debug, PartialEq, Eq, Structural)]
pub enum ContentStep {
    /// The contents differ.
    Different,
    /// Both contents ended, and nothing differed.
    Same,
    /// Nothing differed so far.
    More,
}

/// Compares the next pieces of two contents, as far as the budget of bytes
/// reaches: every byte that was read counts.
pub fn compare_chunk(content_budget: &mut u64, left: &[u8], right: &[u8]) -> (result: Result<
    ContentStep,
    SnapshotError,
>)
    ensures
        if left@.len() + right@.len() > *old(content_budget) {
            &&& result == Err::<ContentStep, SnapshotError>(
                SnapshotError::LimitExceeded(LimitFault::CompareContentBytes),
            )
            &&& *final(content_budget) == *old(content_budget)
        } else {
            &&& *final(content_budget) == *old(content_budget) - (left@.len() + right@.len())
            &&& result == Ok::<ContentStep, SnapshotError>(
                if left@ != right@ {
                    ContentStep::Different
                } else if left@.len() == 0 {
                    ContentStep::Same
                } else {
                    ContentStep::More
                },
            )
        },
{
    let read = (left.len() as u64).checked_add(right.len() as u64);
    let remaining = match read {
        Some(bytes) => content_budget.checked_sub(bytes),
        None => None,
    };
    match remaining {
        Some(rest) => {
            *content_budget = rest;
        },
        None => {
            return Err(SnapshotError::LimitExceeded(LimitFault::CompareContentBytes));
        },
    }
    if !bytes_equal(left, right) {
        Ok(ContentStep::Different)
    } else if left.len() == 0 {
        Ok(ContentStep::Same)
    } else {
        Ok(ContentStep::More)
    }
}

/// Paths in order, each once.
pub open spec fn paths_in_order(list: Seq<Names>) -> bool {
    forall|i: int, j: int|
        0 <= i < j < list.len() ==> path::path_before(#[trigger] list[i], #[trigger] list[j])
}

/// The list of the paths at or below a root that one of two trees holds.
pub open spec fn lists_subtree(
    list: Seq<Names>,
    expected: Map<Names, Stamp>,
    current: Map<Names, Stamp>,
    root: Names,
) -> bool {
    &&& paths_in_order(list)
    &&& forall|p: Names|
        #[trigger] list.contains(p) <==> (path::lies_under(p, root) && (expected.dom().contains(p)
            || current.dom().contains(p)))
}

/// Puts the paths of an inventory at or below a root into a sorted set.
pub fn collect_subtree(inventory: &PathMap<EntryStamp>, root: &RelPath, into: &mut PathMap<u32>)
    requires
        inventory.wf(),
        old(into).wf(),
    ensures
        final(into).wf(),
        forall|p: Names|
            #[trigger] final(into)@.dom().contains(p) <==> (old(into)@.dom().contains(p) || (
            path::lies_under(p, root@) && inventory@.dom().contains(p))),
{
    let ghost start = into@;
    let ghost listed = inventory.entries();
    let mut i: usize = 0;
    while i < inventory.len()
        invariant
            inventory.wf(),
            listed == inventory.entries(),
            into.wf(),
            i <= listed.len(),
            forall|p: Names|
                #[trigger] into@.dom().contains(p) <==> (start.dom().contains(p) || (path::lies_under(
                    p,
                    root@,
                ) && path_map::has_path(listed.take(i as int), p))),
        decreases listed.len() - i,
    {
        let ghost here = listed[i as int].0;
        let ghost before = into@;
        if inventory.path_at(i).lies_below_or_at(root) {
            let key = inventory.path_at(i).copy();
            into.insert(key, 0);
        }
        proof {
            assert forall|p: Names|
                #[trigger] path_map::has_path(listed.take(i as int + 1), p) <==> (path_map::has_path(
                    listed.take(i as int),
                    p,
                ) || p == here) by {
                lemma_has_path_step(listed, i as int, p);
            }
        }
        i = i + 1;
    }
    proof {
        assert(listed.take(i as int) =~= listed);
        assert forall|p: Names| #[trigger] inventory@.dom().contains(p) <==> path_map::has_path(listed, p) by {}
    }
}

/// One more listed entry is one more listed path.
pub proof fn lemma_has_path_step<V>(listed: path_map::Entries<V>, i: int, p: Names)
    requires
        0 <= i < listed.len(),
    ensures
        path_map::has_path(listed.take(i + 1), p) <==> (path_map::has_path(listed.take(i), p) || p
            == listed[i].0),
{
    if path_map::has_path(listed.take(i + 1), p) {
        let k = path_map::place_of(listed.take(i + 1), p);
        if k < i {
            assert(listed.take(i)[k].0 == p);
        }
    }
    if path_map::has_path(listed.take(i), p) {
        let k = path_map::place_of(listed.take(i), p);
        assert(listed.take(i + 1)[k].0 == p);
    }
    assert(listed.take(i + 1)[i].0 == listed[i].0);
}

/// The paths at or below a root that one of two inventories holds, in order.
pub fn subtree_paths(
    expected: &PathMap<EntryStamp>,
    current: &PathMap<EntryStamp>,
    root: &RelPath,
) -> (paths: Vec<RelPath>)
    requires
        expected.wf(),
        current.wf(),
    ensures
        lists_subtree(path::path_views(paths@), expected@, current@, root@),
{
    let mut sorted: PathMap<u32> = PathMap::new();
    collect_subtree(expected, root, &mut sorted);
    collect_subtree(current, root, &mut sorted);
    let paths = sorted_paths(&sorted);
    proof {
        assert forall|p: Names|
            #[trigger] path::path_views(paths@).contains(p) <==> (path::lies_under(p, root@) && (
            expected@.dom().contains(p) || current@.dom().contains(p))) by {
            assert(sorted@.dom().contains(p) <==> (path::lies_under(p, root@) && (expected@.dom().contains(
                p,
            ) || current@.dom().contains(p))));
        }
    }
    paths
}

/// The paths of a sorted set, in order.
pub fn sorted_paths(sorted: &PathMap<u32>) -> (paths: Vec<RelPath>)
    requires
        sorted.wf(),
    ensures
        paths_in_order(path::path_views(paths@)),
        forall|p: Names| #[trigger] path::path_views(paths@).contains(p) <==> sorted@.dom().contains(p),
{
    let ghost listed = sorted.entries();
    let mut paths: Vec<RelPath> = Vec::new();
    let mut i: usize = 0;
    while i < sorted.len()
        invariant
            listed == sorted.entries(),
            i <= listed.len(),
            paths@.len() == i,
            forall|j: int| 0 <= j < i ==> #[trigger] path::path_views(paths@)[j] == listed[j].0,
        decreases listed.len() - i,
    {
        let ghost before = path::path_views(paths@);
        let copied = sorted.path_at(i).copy();
        let ghost added = copied@;
        paths.push(copied);
        proof {
            assert(path::path_views(paths@) =~= before.push(added));
        }
        i = i + 1;
    }
    proof {
        let views = path::path_views(paths@);
        assert forall|a: int, b: int| 0 <= a < b < views.len() implies path::path_before(
            #[trigger] views[a],
            #[trigger] views[b],
        ) by {
            assert(path::path_before(listed[a].0, listed[b].0));
        }
        assert forall|p: Names| #[trigger] views.contains(p) <==> sorted@.dom().contains(p) by {
            if views.contains(p) {
                let k = choose|k: int| 0 <= k < views.len() && views[k] == p;
                assert(listed[k].0 == p);
            }
            if sorted@.dom().contains(p) {
                let k = path_map::place_of(listed, p);
                assert(views[k] == p);
            }
        }
    }
    paths
}

/// Whether a path lies strictly below a root: anywhere, or immediately.
pub open spec fn lies_below(p: Names, root: Names, recursive: bool) -> bool {
    &&& path::lies_under(p, root)
    &&& p != root
    &&& recursive || p.len() == root.len() + 1
}

/// The entries strictly below a root, in order.
pub open spec fn entries_below(listed: Stamps, root: Names, recursive: bool) -> Stamps {
    listed.filter(|entry: (Names, Stamp)| lies_below(entry.0, root, recursive))
}

/// Whether two lists name the same paths with the same kinds.
pub open spec fn same_names_and_kinds(a: Stamps, b: Stamps) -> bool {
    &&& a.len() == b.len()
    &&& forall|i: int|
        0 <= i < a.len() ==> (#[trigger] a[i]).0 == (#[trigger] b[i]).0 && a[i].1.kind == b[i].1.kind
}

/// The places of the entries strictly below a root.
fn places_below(inventory: &PathMap<EntryStamp>, root: &RelPath, recursive: bool) -> (places: Vec<usize>)
    ensures
        places@.len() == entries_below(inventory.entries(), root@, recursive).len(),
        forall|k: int|
            0 <= k < places@.len() ==> {
                &&& #[trigger] places@[k] < inventory.entries().len()
                &&& inventory.entries()[places@[k] as int] == entries_below(
                    inventory.entries(),
                    root@,
                    recursive,
                )[k]
            },
{
    let ghost listed = inventory.entries();
    let ghost keep = |entry: (Names, Stamp)| lies_below(entry.0, root@, recursive);
    let mut places: Vec<usize> = Vec::new();
    let mut i: usize = 0;
    proof {
        reveal(Seq::filter);
        assert(listed.take(0) =~= Stamps::empty());
    }
    while i < inventory.len()
        invariant
            listed == inventory.entries(),
            keep == (|entry: (Names, Stamp)| lies_below(entry.0, root@, recursive)),
            i <= listed.len(),
            places@.len() == listed.take(i as int).filter(keep).len(),
            forall|k: int|
                0 <= k < places@.len() ==> {
                    &&& #[trigger] places@[k] < listed.len()
                    &&& listed[places@[k] as int] == listed.take(i as int).filter(keep)[k]
                },
        decreases listed.len() - i,
    {
        proof {
            reveal(Seq::filter);
            assert(listed.take(i as int + 1).drop_last() =~= listed.take(i as int));
            assert(listed.take(i as int + 1).last() == listed[i as int]);
        }
        let candidate = inventory.path_at(i);
        let immediate = root.depth() < candidate.depth() && candidate.depth() - root.depth() == 1;
        if candidate.lies_below_or_at(root) && !candidate.equals(root) && (recursive || immediate) {
            places.push(i);
        }
        i = i + 1;
    }
    proof {
        assert(listed.take(i as int) =~= listed);
    }
    places
}

/// A count that stops at the largest number.
pub open spec fn saturated(count: int) -> usize {
    if count > usize::MAX {
        usize::MAX
    } else {
        count as usize
    }
}

pub fn add_saturating(count: usize, more: usize) -> (total: usize)
    ensures
        total == saturated(count + more),
{
    match count.checked_add(more) {
        Some(total) => total,
        None => usize::MAX,
    }
}

/// Whether two trees agree at a root on its kind and, for a directory, on the
/// names and kinds of the entries below it.
pub open spec fn names_agree(expected: Stamps, current: Stamps, root: Names, recursive: bool) -> bool {
    let left = path_map::entry_map(expected);
    let right = path_map::entry_map(current);
    let same_kind = left.dom().contains(root) == right.dom().contains(root) && (left.dom().contains(root)
        ==> left[root].kind == right[root].kind);
    same_kind && ((left.dom().contains(root) && left[root].kind !is Directory) || same_names_and_kinds(
        entries_below(expected, root, recursive),
        entries_below(current, root, recursive),
    ))
}

/// How many entries such a comparison looks at.
pub open spec fn names_compared(expected: Stamps, current: Stamps, root: Names, recursive: bool) -> nat {
    let left = path_map::entry_map(expected);
    let right = path_map::entry_map(current);
    let same_kind = left.dom().contains(root) == right.dom().contains(root) && (left.dom().contains(root)
        ==> left[root].kind == right[root].kind);
    if !same_kind || (left.dom().contains(root) && left[root].kind !is Directory) {
        1
    } else {
        let a = entries_below(expected, root, recursive).len();
        let b = entries_below(current, root, recursive).len();
        1 + if a > b {
            a
        } else {
            b
        }
    }
}

/// Compares the names and kinds of what lies below a root.
#[verifier::loop_isolation(false)]
pub fn compare_entry_names(
    expected: &PathMap<EntryStamp>,
    current: &PathMap<EntryStamp>,
    root: &RelPath,
    recursive: bool,
    compared_entries: &mut usize,
) -> (matched: bool)
    requires
        expected.wf(),
        current.wf(),
    ensures
        matched == names_agree(expected.entries(), current.entries(), root@, recursive),
        *final(compared_entries) == saturated(
            *old(compared_entries) + names_compared(expected.entries(), current.entries(), root@, recursive),
        ),
{
    *compared_entries = add_saturating(*compared_entries, 1);
    let left_root = expected.get(root);
    let right_root = current.get(root);
    match (left_root, right_root) {
        (Some(left), Some(right)) => {
            if left.kind != right.kind {
                return false;
            }
            if left.kind != SnapshotEntryKind::Directory {
                return true;
            }
        },
        (None, None) => {},
        _ => {
            return false;
        },
    }
    let left = places_below(expected, root, recursive);
    let right = places_below(current, root, recursive);
    let more: usize = if left.len() > right.len() {
        left.len()
    } else {
        right.len()
    };
    *compared_entries = add_saturating(*compared_entries, more);
    if left.len() != right.len() {
        return false;
    }
    let ghost a = entries_below(expected.entries(), root@, recursive);
    let ghost b = entries_below(current.entries(), root@, recursive);
    let mut i: usize = 0;
    while i < left.len()
        invariant
            left@.len() == right@.len(),
            a.len() == left@.len(),
            b.len() == right@.len(),
            forall|k: int|
                0 <= k < left@.len() ==> {
                    &&& #[trigger] left@[k] < expected.entries().len()
                    &&& expected.entries()[left@[k] as int] == a[k]
                },
            forall|k: int|
                0 <= k < right@.len() ==> {
                    &&& #[trigger] right@[k] < current.entries().len()
                    &&& current.entries()[right@[k] as int] == b[k]
                },
            i <= left@.len(),
            forall|k: int|
                0 <= k < i ==> (#[trigger] a[k]).0 == (#[trigger] b[k]).0 && a[k].1.kind == b[k].1.kind,
        decreases left@.len() - i,
    {
        proof {
            assert(left@[i as int] < expected.entries().len());
            assert(right@[i as int] < current.entries().len());
        }
        if !expected.path_at(left[i]).equals(current.path_at(right[i])) || expected.value_at(left[i]).kind
            != current.value_at(right[i]).kind {
            proof {
                assert(a[i as int].0 != b[i as int].0 || a[i as int].1.kind != b[i as int].1.kind);
            }
            return false;
        }
        i = i + 1;
    }
    true
}

/// The paths at or below a root that one of two trees holds.
pub open spec fn subtree_set(
    expected: Map<Names, Stamp>,
    current: Map<Names, Stamp>,
    root: Names,
) -> Set<Names> {
    Set::new(
        |p: Names|
            path::lies_under(p, root) && (expected.dom().contains(p) || current.dom().contains(p)),
    )
}

/// Whether two trees agree on what a requirement covers; `same` holds the paths
/// whose contents are the same.
pub open spec fn scope_agrees(
    expected: Stamps,
    current: Stamps,
    requirement: Requirement,
    same: Set<Names>,
) -> bool {
    let left = path_map::entry_map(expected);
    let right = path_map::entry_map(current);
    let root = requirement.0;
    match requirement.1 {
        SnapshotCompareScope::Content => equal_at(left, right, root, same.contains(root)),
        SnapshotCompareScope::Entries => names_agree(expected, current, root, false),
        SnapshotCompareScope::TreeEntries => names_agree(expected, current, root, true),
        SnapshotCompareScope::TreeContent => forall|p: Names| #[trigger]
            path::lies_under(p, root) ==> equal_at(left, right, p, same.contains(p)),
    }
}

/// How many entries comparing what a requirement covers looks at.
pub open spec fn scope_count(expected: Stamps, current: Stamps, requirement: Requirement) -> nat {
    let left = path_map::entry_map(expected);
    let right = path_map::entry_map(current);
    let root = requirement.0;
    match requirement.1 {
        SnapshotCompareScope::Content => 1,
        SnapshotCompareScope::Entries => names_compared(expected, current, root, false),
        SnapshotCompareScope::TreeEntries => names_compared(expected, current, root, true),
        SnapshotCompareScope::TreeContent => subtree_set(left, right, root).len(),
    }
}

proof fn lemma_list_counts_set(list: Seq<Names>, expected: Map<Names, Stamp>, current: Map<Names, Stamp>, root: Names)
    requires
        lists_subtree(list, expected, current, root),
    ensures
        subtree_set(expected, current, root).len() == list.len(),
{
    assert(list.no_duplicates()) by {
        assert forall|i: int, j: int| 0 <= i < list.len() && 0 <= j < list.len() && i != j implies list[i]
            != list[j] by {
            path::lemma_path_irreflexive(list[i]);
            if i < j {
                assert(path::path_before(list[i], list[j]));
            } else {
                assert(path::path_before(list[j], list[i]));
            }
        }
    }
    list.unique_seq_to_set();
    assert(list.to_set() =~= subtree_set(expected, current, root)) by {
        assert forall|p: Names| list.to_set().contains(p) <==> subtree_set(expected, current, root).contains(
            p,
        ) by {
            assert(list.to_set().contains(p) <==> list.contains(p));
        }
    }
}

/// Compares two inventories at some paths.
pub fn compare_exact_paths(
    expected: &PathMap<EntryStamp>,
    current: &PathMap<EntryStamp>,
    paths: &Vec<RelPath>,
    same: &PathMap<u32>,
    compared_entries: &mut usize,
) -> (matched: bool)
    requires
        expected.wf(),
        current.wf(),
        same.wf(),
    ensures
        matched == (forall|k: int|
            0 <= k < paths@.len() ==> equal_at(
                expected@,
                current@,
                #[trigger] path::path_views(paths@)[k],
                same@.dom().contains(path::path_views(paths@)[k]),
            )),
        *final(compared_entries) == saturated(*old(compared_entries) + paths@.len()),
{
    let ghost views = path::path_views(paths@);
    let ghost start = *compared_entries;
    let mut matched = true;
    let mut i: usize = 0;
    while i < paths.len()
        invariant
            expected.wf(),
            current.wf(),
            same.wf(),
            views == path::path_views(paths@),
            i <= paths@.len(),
            *compared_entries == saturated(start + i),
            matched == (forall|k: int|
                0 <= k < i ==> equal_at(
                    expected@,
                    current@,
                    #[trigger] views[k],
                    same@.dom().contains(views[k]),
                )),
        decreases paths@.len() - i,
    {
        *compared_entries = add_saturating(*compared_entries, 1);
        let same_content = same.contains(&paths[i]);
        let equal = inventory_entry_equal(expected, current, &paths[i], same_content);
        proof {
            assert(views[i as int] == paths@[i as int]@);
        }
        matched = matched && equal;
        i = i + 1;
    }
    matched
}

/// One path that differs makes a whole subtree differ.
proof fn lemma_subtree_differs(expected: Stamps, current: Stamps, root: Names, same: Set<Names>, p: Names)
    requires
        path::lies_under(p, root),
        !equal_at(
            path_map::entry_map(expected),
            path_map::entry_map(current),
            p,
            same.contains(p),
        ),
    ensures
        !scope_agrees(expected, current, (root, SnapshotCompareScope::TreeContent), same),
{
    let requirement = (root, SnapshotCompareScope::TreeContent);
    if scope_agrees(expected, current, requirement, same) {
        assert(path::lies_under(p, requirement.0));
    }
}

/// Compares what one requirement covers.
pub fn compare_one_scope(
    expected: &PathMap<EntryStamp>,
    current: &PathMap<EntryStamp>,
    requirement: &PreparedRequirement,
    same: &PathMap<u32>,
    compared_entries: &mut usize,
) -> (matched: bool)
    requires
        expected.wf(),
        current.wf(),
        same.wf(),
    ensures
        matched == scope_agrees(
            expected.entries(),
            current.entries(),
            (requirement.path@, requirement.scope),
            same@.dom(),
        ),
        *final(compared_entries) == saturated(
            *old(compared_entries) + scope_count(
                expected.entries(),
                current.entries(),
                (requirement.path@, requirement.scope),
            ),
        ),
{
    match requirement.scope {
        SnapshotCompareScope::Content => {
            *compared_entries = add_saturating(*compared_entries, 1);
            let same_content = same.contains(&requirement.path);
            inventory_entry_equal(expected, current, &requirement.path, same_content)
        },
        SnapshotCompareScope::Entries => compare_entry_names(
            expected,
            current,
            &requirement.path,
            false,
            compared_entries,
        ),
        SnapshotCompareScope::TreeEntries => compare_entry_names(
            expected,
            current,
            &requirement.path,
            true,
            compared_entries,
        ),
        SnapshotCompareScope::TreeContent => {
            let paths = subtree_paths(expected, current, &requirement.path);
            let matched = compare_exact_paths(expected, current, &paths, same, compared_entries);
            proof {
                let views = path::path_views(paths@);
                let root = requirement.path@;
                lemma_list_counts_set(views, expected@, current@, root);
                if matched {
                    assert forall|p: Names| #[trigger] path::lies_under(p, root) implies equal_at(
                        expected@,
                        current@,
                        p,
                        same@.dom().contains(p),
                    ) by {
                        if expected@.dom().contains(p) || current@.dom().contains(p) {
                            assert(views.contains(p));
                            let k = choose|k: int| 0 <= k < views.len() && views[k] == p;
                            assert(equal_at(
                                expected@,
                                current@,
                                views[k],
                                same@.dom().contains(views[k]),
                            ));
                        }
                    }
                } else {
                    let k = choose|k: int|
                        0 <= k < paths@.len() && !equal_at(
                            expected@,
                            current@,
                            #[trigger] views[k],
                            same@.dom().contains(views[k]),
                        );
                    assert(views.contains(views[k]));
                    assert(path::lies_under(views[k], root));
                    lemma_subtree_differs(expected.entries(), current.entries(), root, same@.dom(), views[k]);
                }
            }
            matched
        },
    }
}

/// What was seen of one requirement: the expected and the current entries, the
/// paths whose contents are the same, and the same of an alternative.
pub struct ScopeEvidence {
    pub expected: PathMap<EntryStamp>,
    pub current: PathMap<EntryStamp>,
    pub same: PathMap<u32>,
    pub alternative: Option<AlternativeEvidence>,
}

/// What was seen of an alternative to the expected entries.
pub struct AlternativeEvidence {
    pub expected: PathMap<EntryStamp>,
    pub same: PathMap<u32>,
}

impl ScopeEvidence {
    /// Every map stands in order.
    pub open spec fn wf(&self) -> bool {
        &&& self.expected.wf()
        &&& self.current.wf()
        &&& self.same.wf()
        &&& self.alternative matches Some(other) ==> other.expected.wf() && other.same.wf()
    }
}

/// Whether the current entries match the expected ones or the alternative.
pub open spec fn requirement_met(requirement: Requirement, seen: ScopeEvidence) -> bool {
    ||| scope_agrees(seen.expected.entries(), seen.current.entries(), requirement, seen.same@.dom())
    ||| seen.alternative matches Some(other) && scope_agrees(
        other.expected.entries(),
        seen.current.entries(),
        requirement,
        other.same@.dom(),
    )
}

/// How many entries that looks at: the alternative counts where it is needed.
pub open spec fn requirement_count(requirement: Requirement, seen: ScopeEvidence) -> nat {
    let first = scope_count(seen.expected.entries(), seen.current.entries(), requirement);
    if scope_agrees(seen.expected.entries(), seen.current.entries(), requirement, seen.same@.dom())
        || seen.alternative is None {
        first
    } else {
        first + scope_count(seen.alternative->0.expected.entries(), seen.current.entries(), requirement)
    }
}

/// How many entries comparing some requirements looks at.
pub open spec fn requirements_count(requirements: Seq<Requirement>, seen: Seq<ScopeEvidence>) -> nat
    decreases requirements.len(),
{
    if requirements.len() == 0 {
        0
    } else {
        requirements_count(requirements.drop_last(), seen.drop_last()) + requirement_count(
            requirements.last(),
            seen.last(),
        )
    }
}

/// Compares what requirements cover with a live directory; where an alternative
/// was seen, either may match.
pub fn compare_directory_scopes(
    requirements: &Vec<PreparedRequirement>,
    seen: &Vec<ScopeEvidence>,
    limits: SnapshotCompareLimits,
    content_budget: u64,
) -> (comparison: SnapshotComparison)
    requires
        requirements@.len() == seen@.len(),
        forall|i: int| 0 <= i < seen@.len() ==> (#[trigger] seen@[i]).wf(),
    ensures
        comparison.matched == (forall|i: int|
            0 <= i < seen@.len() ==> requirement_met(
                prepared_views(requirements@)[i],
                #[trigger] seen@[i],
            )),
        comparison.compared_entries == saturated(
            requirements_count(prepared_views(requirements@), seen@) as int,
        ),
        comparison.compared_bytes == if content_budget <= limits.max_content_bytes {
            limits.max_content_bytes - content_budget
        } else {
            0
        },
{
    let ghost asked = prepared_views(requirements@);
    let mut matched = true;
    let mut compared_entries: usize = 0;
    let mut i: usize = 0;
    proof {
        assert(asked.take(0) =~= Seq::<Requirement>::empty());
    }
    while i < requirements.len()
        invariant
            i <= requirements@.len(),
            requirements@.len() == seen@.len(),
            asked == prepared_views(requirements@),
            forall|j: int| 0 <= j < seen@.len() ==> (#[trigger] seen@[j]).wf(),
            compared_entries == saturated(
                requirements_count(asked.take(i as int), seen@.take(i as int)) as int,
            ),
            matched == (forall|j: int|
                0 <= j < i ==> requirement_met(asked[j], #[trigger] seen@[j])),
        decreases requirements@.len() - i,
    {
        let ghost requirement = asked[i as int];
        let ghost evidence = seen@[i as int];
        proof {
            assert(asked.take(i as int + 1).drop_last() =~= asked.take(i as int));
            assert(seen@.take(i as int + 1).drop_last() =~= seen@.take(i as int));
            assert(asked.take(i as int + 1).last() == requirement);
            assert(seen@.take(i as int + 1).last() == evidence);
            assert(evidence.wf());
        }
        let mut result = compare_one_scope(
            &seen[i].expected,
            &seen[i].current,
            &requirements[i],
            &seen[i].same,
            &mut compared_entries,
        );
        if !result {
            match &seen[i].alternative {
                Some(other) => {
                    result = compare_one_scope(
                        &other.expected,
                        &seen[i].current,
                        &requirements[i],
                        &other.same,
                        &mut compared_entries,
                    );
                },
                None => {},
            }
        }
        proof {
            assert(result == requirement_met(requirement, evidence));
        }
        matched = matched && result;
        i = i + 1;
    }
    proof {
        assert(asked.take(i as int) =~= asked);
        assert(seen@.take(i as int) =~= seen@);
    }
    let compared_bytes: u64 = if content_budget <= limits.max_content_bytes {
        limits.max_content_bytes - content_budget
    } else {
        0
    };
    SnapshotComparison { matched, compared_entries, compared_bytes }
}

/// The entries that are left of a budget after one tree.
pub fn remaining_entries(max_entries: usize, seen: usize) -> (result: Result<usize, SnapshotError>)
    ensures
        if seen <= max_entries {
            result == Ok::<usize, SnapshotError>((max_entries - seen) as usize)
        } else {
            result == Err::<usize, SnapshotError>(SnapshotError::LimitExceeded(LimitFault::CompareEntries))
        },
{
    if seen <= max_entries {
        Ok(max_entries - seen)
    } else {
        Err(SnapshotError::LimitExceeded(LimitFault::CompareEntries))
    }
}

/// How much of a tree a requirement needs to see.
#[derive(Clone, Copy, Debug, PartialEq, Eq, Structural)]
pub enum ScopedScan {
    Exact,
    Immediate,
    Recursive,
}

/// How much of a tree a scope needs to see.
pub open spec fn scan_of(scope: SnapshotCompareScope) -> ScopedScan {
    match scope {
        SnapshotCompareScope::Content => ScopedScan::Exact,
        SnapshotCompareScope::Entries => ScopedScan::Immediate,
        SnapshotCompareScope::TreeEntries => ScopedScan::Recursive,
        SnapshotCompareScope::TreeContent => ScopedScan::Recursive,
    }
}

/// How much of a tree a scope needs to see.
pub fn scan_for(scope: SnapshotCompareScope) -> (scan: ScopedScan)
    ensures
        scan == scan_of(scope),
{
    match scope {
        SnapshotCompareScope::Content => ScopedScan::Exact,
        SnapshotCompareScope::Entries => ScopedScan::Immediate,
        SnapshotCompareScope::TreeEntries | SnapshotCompareScope::TreeContent => ScopedScan::Recursive,
    }
}

/// What looking at one directory on the way to an entry gave.
#[derive(Clone, Copy, Debug, PartialEq, Eq, Structural)]
pub enum PathProbe {
    Missing,
    Found { is_directory: bool, is_symlink: bool },
    Failed,
}

/// Where the way to an entry leads.
#[derive(Clone, Copy, Debug, PartialEq, Eq, Structural)]
pub enum ScopeWalk {
    /// There is nothing at the path.
    Nothing,
    /// The way goes on.
    Onward,
}

/// Decides at one name of a required path: every directory on the way has to
/// be a plain one; where one is missing, so is the entry.
pub fn walk_to_scope(is_last: bool, probe: PathProbe) -> (result: Result<ScopeWalk, SnapshotError>)
    ensures
        result == match probe {
            PathProbe::Missing => Ok::<ScopeWalk, SnapshotError>(ScopeWalk::Nothing),
            PathProbe::Failed => Err::<ScopeWalk, SnapshotError>(
                SnapshotError::Operation(Step::InspectEntry),
            ),
            PathProbe::Found { is_directory, is_symlink } => if !is_last && (is_symlink || !is_directory) {
                Err::<ScopeWalk, SnapshotError>(SnapshotError::InvalidPath(PathFault::ParentNotPlain))
            } else {
                Ok::<ScopeWalk, SnapshotError>(ScopeWalk::Onward)
            },
        },
{
    match probe {
        PathProbe::Missing => Ok(ScopeWalk::Nothing),
        PathProbe::Failed => Err(SnapshotError::Operation(Step::InspectEntry)),
        PathProbe::Found { is_directory, is_symlink } => {
            if !is_last && (is_symlink || !is_directory) {
                Err(SnapshotError::InvalidPath(PathFault::ParentNotPlain))
            } else {
                Ok(ScopeWalk::Onward)
            }
        },
    }
}

/// Adds an entry to a scoped inventory and takes it off the budgets.
pub fn insert_scoped_entry(
    inventory: &mut PathMap<EntryStamp>,
    at: RelPath,
    stamp: EntryStamp,
    remaining_entries: &mut usize,
    remaining_path_bytes: &mut usize,
) -> (result: Result<(), SnapshotError>)
    requires
        old(inventory).wf(),
    ensures
        final(inventory).wf(),
        if *old(remaining_entries) == 0 {
            result == Err::<(), SnapshotError>(SnapshotError::LimitExceeded(LimitFault::CompareEntries))
        } else if path::joined(at@).len() > *old(remaining_path_bytes) {
            result == Err::<(), SnapshotError>(SnapshotError::LimitExceeded(LimitFault::ComparePathBytes))
        } else {
            &&& result is Ok
            &&& final(inventory)@ == old(inventory)@.insert(at@, stamp@)
            &&& *final(remaining_entries) == *old(remaining_entries) - 1
            &&& *final(remaining_path_bytes) == *old(remaining_path_bytes) - path::joined(at@).len()
        },
{
    if *remaining_entries == 0 {
        return Err(SnapshotError::LimitExceeded(LimitFault::CompareEntries));
    }
    *remaining_entries = *remaining_entries - 1;
    let bytes = at.to_bytes();
    if bytes.len() > *remaining_path_bytes {
        return Err(SnapshotError::LimitExceeded(LimitFault::ComparePathBytes));
    }
    *remaining_path_bytes = *remaining_path_bytes - bytes.len();
    inventory.insert(at, stamp);
    Ok(())
}

/// The modes that a backend keeps, if there is one.
pub open spec fn kept_modes(modes: Option<PathMap<u32>>) -> Map<Names, u32> {
    match modes {
        Some(kept) => kept@,
        None => Map::empty(),
    }
}

/// What a scoped inventory holds: the root of the scope and what was seen
/// below it, under their paths from the tree's root.
pub open spec fn scoped_map(
    relative: Names,
    modes: Map<Names, u32>,
    root: Stamp,
    below: Stamps,
) -> Map<Names, Stamp>
    decreases below.len(),
{
    if below.len() == 0 {
        map![relative => inventory::with_backend_mode(modes, (relative, root))]
    } else {
        let entry = (relative + below.last().0, below.last().1);
        scoped_map(relative, modes, root, below.drop_last()).insert(
            entry.0,
            inventory::with_backend_mode(modes, entry),
        )
    }
}

/// The bytes that the paths of a scope take.
pub open spec fn scoped_bytes(relative: Names, below: Stamps) -> int
    decreases below.len(),
{
    if below.len() == 0 {
        path::joined(relative).len() as int
    } else {
        scoped_bytes(relative, below.drop_last()) + path::joined(relative + below.last().0).len()
    }
}

/// Which budget a scope uses up at one of its entries.
pub open spec fn scope_fault_at(
    relative: Names,
    below: Stamps,
    i: int,
    entries: usize,
    bytes: usize,
) -> Option<LimitFault> {
    if i + 1 >= entries {
        Some(LimitFault::CompareEntries)
    } else if scoped_bytes(relative, below.take(i + 1)) > bytes {
        Some(LimitFault::ComparePathBytes)
    } else {
        None
    }
}

/// Which budget the first entries of a scope use up first.
pub open spec fn scope_fault(
    relative: Names,
    below: Stamps,
    count: nat,
    entries: usize,
    bytes: usize,
) -> Option<LimitFault>
    decreases count,
{
    if count == 0 {
        if entries == 0 {
            Some(LimitFault::CompareEntries)
        } else if path::joined(relative).len() > bytes {
            Some(LimitFault::ComparePathBytes)
        } else {
            None
        }
    } else {
        match scope_fault(relative, below, (count - 1) as nat, entries, bytes) {
            Some(fault) => Some(fault),
            None => scope_fault_at(relative, below, count - 1, entries, bytes),
        }
    }
}

/// Whether a scan looks below the root of a scope.
pub open spec fn looks_below(scan: ScopedScan, root: Stamp) -> bool {
    root.kind is Directory && scan !is Exact
}

/// What is wrong with a scope: a budget that its root uses up, a bound that its
/// walk passes, or a budget that its entries use up.
pub open spec fn scoped_fault(
    relative: Names,
    scan: ScopedScan,
    root: Stamp,
    below: Stamps,
    entries: usize,
    bytes: usize,
) -> Option<LimitFault> {
    let at_root = scope_fault(relative, below, 0, entries, bytes);
    if at_root is Some || !looks_below(scan, root) {
        at_root
    } else {
        let walk = if scan is Recursive {
            inventory::scan_fault(
                below,
                below.len(),
                (entries - 1) as usize,
                (bytes - path::joined(relative).len()) as usize,
            )
        } else {
            None
        };
        if walk is Some {
            walk
        } else {
            scope_fault(relative, below, below.len(), entries, bytes)
        }
    }
}

proof fn lemma_scope_fault_stays(
    relative: Names,
    below: Stamps,
    few: nat,
    many: nat,
    entries: usize,
    bytes: usize,
)
    requires
        few <= many,
        scope_fault(relative, below, few, entries, bytes) is Some,
    ensures
        scope_fault(relative, below, many, entries, bytes) == scope_fault(
            relative,
            below,
            few,
            entries,
            bytes,
        ),
    decreases many,
{
    if few < many {
        lemma_scope_fault_stays(relative, below, few, (many - 1) as nat, entries, bytes);
    }
}

/// The stamp with the mode that the backend keeps for a directory.
fn stamp_with_kept_mode(modes: &Option<PathMap<u32>>, at: &RelPath, stamp: &EntryStamp) -> (result: EntryStamp)
    requires
        modes matches Some(kept) ==> kept.wf(),
    ensures
        result@ == inventory::with_backend_mode(kept_modes(*modes), (at@, stamp@)),
{
    let mut result = stamp.duplicate();
    match modes {
        Some(kept) => {
            if stamp.kind == SnapshotEntryKind::Directory {
                match kept.get(at) {
                    Some(mode) => {
                        result.mode = *mode;
                    },
                    None => {},
                }
            }
        },
        None => {},
    }
    proof {
        assert(result@ =~= inventory::with_backend_mode(kept_modes(*modes), (at@, stamp@)));
    }
    result
}

/// The inventory of one scope: its root and, where the scan looks there, what
/// was seen below it.
pub fn scoped_inventory(
    relative: &RelPath,
    scan: ScopedScan,
    root: &EntryStamp,
    below: &Vec<StampedEntry>,
    modes: &Option<PathMap<u32>>,
    remaining_entries: &mut usize,
    remaining_path_bytes: &mut usize,
) -> (result: Result<PathMap<EntryStamp>, SnapshotError>)
    requires
        modes matches Some(kept) ==> kept.wf(),
    ensures
        match scoped_fault(
            relative@,
            scan,
            root@,
            inventory::stamped(below@),
            *old(remaining_entries),
            *old(remaining_path_bytes),
        ) {
            Some(fault) => result == Err::<PathMap<EntryStamp>, SnapshotError>(
                SnapshotError::LimitExceeded(fault),
            ),
            None => {
                let seen = if looks_below(scan, root@) {
                    inventory::stamped(below@)
                } else {
                    Stamps::empty()
                };
                &&& result matches Ok(inventory) && inventory.wf() && inventory@ == scoped_map(
                    relative@,
                    kept_modes(*modes),
                    root@,
                    seen,
                )
                &&& *final(remaining_entries) == *old(remaining_entries) - 1 - seen.len()
                &&& *final(remaining_path_bytes) == *old(remaining_path_bytes) - scoped_bytes(relative@, seen)
            },
        },
{
    let ghost entries = *remaining_entries;
    let ghost bytes = *remaining_path_bytes;
    let ghost seen = inventory::stamped(below@);
    let ghost kept = kept_modes(*modes);
    let mut inventory: PathMap<EntryStamp> = PathMap::new();
    let root_stamp = stamp_with_kept_mode(modes, relative, root);
    let root_path = relative.copy();
    match insert_scoped_entry(
        &mut inventory,
        root_path,
        root_stamp,
        remaining_entries,
        remaining_path_bytes,
    ) {
        Ok(_) => {},
        Err(error) => {
            return Err(error);
        },
    }
    proof {
        assert(seen.take(0) =~= Stamps::empty());
        assert(inventory@ =~= scoped_map(relative@, kept, root@, seen.take(0)));
    }
    if root.kind != SnapshotEntryKind::Directory || scan == ScopedScan::Exact {
        return Ok(inventory);
    }
    if scan == ScopedScan::Recursive {
        let no_modes: PathMap<u32> = PathMap::new();
        match inventory_bounded_with_modes(root, below, *remaining_entries, *remaining_path_bytes, &no_modes) {
            Ok(_) => {},
            Err(error) => {
                return Err(error);
            },
        }
    }
    let mut i: usize = 0;
    while i < below.len()
        invariant
            modes matches Some(kept_map) ==> kept_map.wf(),
            kept == kept_modes(*modes),
            seen == inventory::stamped(below@),
            i <= below@.len(),
            inventory.wf(),
            inventory@ == scoped_map(relative@, kept, root@, seen.take(i as int)),
            *remaining_entries == entries - 1 - i,
            *remaining_path_bytes == bytes - scoped_bytes(relative@, seen.take(i as int)),
            scope_fault(relative@, seen, i as nat, entries, bytes) is None,
            looks_below(scan, root@),
            entries == *old(remaining_entries),
            bytes == *old(remaining_path_bytes),
            scan is Recursive ==> inventory::scan_fault(
                seen,
                seen.len(),
                (entries - 1) as usize,
                (bytes - path::joined(relative@).len()) as usize,
            ) is None,
        decreases below@.len() - i,
    {
        proof {
            assert(seen.take(i as int + 1).drop_last() =~= seen.take(i as int));
            assert(seen.take(i as int + 1).last() == (below@[i as int].path@, below@[i as int].stamp@));
            assert(scope_fault(relative@, seen, (i + 1) as nat, entries, bytes) == scope_fault_at(
                relative@,
                seen,
                i as int,
                entries,
                bytes,
            ));
            lemma_scope_fault_back(relative@, seen, i as nat, entries, bytes);
            if scope_fault_at(relative@, seen, i as int, entries, bytes) is Some {
                lemma_scope_fault_stays(relative@, seen, (i + 1) as nat, seen.len(), entries, bytes);
            }
        }
        let at = relative.join(&below[i].path);
        let stamp = stamp_with_kept_mode(modes, &at, &below[i].stamp);
        match insert_scoped_entry(&mut inventory, at, stamp, remaining_entries, remaining_path_bytes) {
            Ok(_) => {},
            Err(error) => {
                return Err(error);
            },
        }
        i = i + 1;
    }
    proof {
        assert(seen.take(i as int) =~= seen);
    }
    Ok(inventory)
}

proof fn lemma_scope_fault_back(relative: Names, below: Stamps, count: nat, entries: usize, bytes: usize)
    requires
        scope_fault(relative, below, count, entries, bytes) is None,
    ensures
        scope_fault(relative, below, 0, entries, bytes) is None,
    decreases count,
{
    if count > 0 {
        lemma_scope_fault_back(relative, below, (count - 1) as nat, entries, bytes);
    }
}

/// Contents are compared of paths alone that are files of the same length in both trees.
pub proof fn law_contents_are_compared_of_like_files(a: Map<Names, Stamp>, b: Map<Names, Stamp>, p: Names)
    ensures
        content_matters(a, b, p) <==> a.dom().contains(p) && b.dom().contains(p) && a[p].kind is File && b[p].kind is File
            && a[p].len == b[p].len,
        content_matters(a, b, p) == content_matters(b, a, p),
{
}

/// A comparison counts the same whichever tree comes first: a path alone counts one, and a
/// directory itself and the longer of its two listings.
pub proof fn law_counts_go_both_ways(expected: Stamps, current: Stamps, requirement: Requirement)
    ensures
        scope_count(expected, current, requirement) == scope_count(current, expected, requirement),
        requirement.1 is Content ==> scope_count(expected, current, requirement) == 1,
        requirement.1 is Entries || requirement.1 is TreeEntries ==> scope_count(expected, current, requirement) >= 1,
        expected == current && path_map::entry_map(expected).dom().contains(requirement.0) && path_map::entry_map(
            expected,
        )[requirement.0].kind is Directory ==> {
            &&& requirement.1 is Entries ==> scope_count(expected, current, requirement) == 1 + expected.filter(
                |entry: (Names, Stamp)|
                    path::lies_under(entry.0, requirement.0) && entry.0.len() == requirement.0.len() + 1,
            ).len()
        },
{
    let left = path_map::entry_map(expected);
    let right = path_map::entry_map(current);
    assert(subtree_set(left, right, requirement.0) =~= subtree_set(right, left, requirement.0));
    let by_depth = |entry: (Names, Stamp)|
        path::lies_under(entry.0, requirement.0) && entry.0.len() == requirement.0.len() + 1;
    let below = |entry: (Names, Stamp)| lies_below(entry.0, requirement.0, false);
    assert(by_depth =~= below);
}

/// What a scope looks at: content at the path alone, entries one level below it, and trees
/// everything below it, where it is a directory.
pub proof fn law_scopes_look_as_deep_as_they_say(root: Stamp)
    ensures
        scan_of(SnapshotCompareScope::Content) is Exact,
        scan_of(SnapshotCompareScope::Entries) is Immediate,
        scan_of(SnapshotCompareScope::TreeEntries) is Recursive,
        scan_of(SnapshotCompareScope::TreeContent) is Recursive,
        !looks_below(ScopedScan::Exact, root),
        looks_below(ScopedScan::Immediate, root) <==> root.kind is Directory,
        looks_below(ScopedScan::Recursive, root) <==> root.kind is Directory,
{
}

/// What lies below a path for a comparison: everything that leads through it but itself, and
/// without recursion only what is one name longer.
pub proof fn law_below_is_behind_the_path(p: Names, root: Names)
    ensures
        lies_below(p, root, true) <==> p.len() > root.len() && p.take(root.len() as int) == root,
        lies_below(p, root, false) <==> p.len() == root.len() + 1 && p.take(root.len() as int) == root,
{
    if p.len() == root.len() && p.take(root.len() as int) == root {
        assert(p.take(root.len() as int) =~= p);
    }
}

proof fn lemma_scope_fault(relative: Names, below: Stamps, count: nat, entries: usize, bytes: usize)
    requires
        count <= below.len(),
    ensures
        scope_fault(relative, below, count, entries, bytes) is None <==> entries > 0 && path::joined(relative).len()
            <= bytes && forall|i: int| 0 <= i < count ==> scope_fault_at(relative, below, i, entries, bytes) is None,
    decreases count,
{
    if count > 0 {
        lemma_scope_fault(relative, below, (count - 1) as nat, entries, bytes);
    }
}

/// A scope is within its limits exactly where the path itself fits, fewer entries lie below
/// it than are left, and their paths take no more bytes than are left.
pub proof fn law_scopes_are_bounded(relative: Names, below: Stamps, entries: usize, bytes: usize)
    requires
        below.len() > 0,
    ensures
        scope_fault(relative, below, below.len(), entries, bytes) is None <==> below.len() < entries && path::joined(
            relative,
        ).len() <= bytes && forall|i: int|
            0 < i <= below.len() ==> scoped_bytes(relative, #[trigger] below.take(i)) <= bytes,
{
    lemma_scope_fault(relative, below, below.len(), entries, bytes);
    if scope_fault(relative, below, below.len(), entries, bytes) is None {
        assert(scope_fault_at(relative, below, below.len() - 1, entries, bytes) is None);
        assert forall|i: int| 0 < i <= below.len() implies scoped_bytes(relative, #[trigger] below.take(i)) <= bytes by {
            assert(scope_fault_at(relative, below, i - 1, entries, bytes) is None);
        }
    } else if below.len() < entries && path::joined(relative).len() <= bytes {
        let i = choose|i: int| 0 <= i < below.len() && scope_fault_at(relative, below, i, entries, bytes) is Some;
        assert(below.take(i + 1) == below.take(i + 1));
    }
}

/// A requirement is met where either of its trees agrees, and the second is counted only
/// where the first does not.
pub proof fn law_either_tree_meets_a_requirement(requirement: Requirement, seen: ScopeEvidence)
    ensures
        ({
            let first = scope_agrees(seen.expected.entries(), seen.current.entries(), requirement, seen.same@.dom());
            let count = scope_count(seen.expected.entries(), seen.current.entries(), requirement);
            &&& first ==> requirement_met(requirement, seen) && requirement_count(requirement, seen) == count
            &&& seen.alternative is None ==> requirement_met(requirement, seen) == first && requirement_count(
                requirement,
                seen,
            ) == count
            &&& seen.alternative matches Some(other) ==> {
                let second = scope_agrees(other.expected.entries(), seen.current.entries(), requirement, other.same@.dom());
                &&& requirement_met(requirement, seen) == (first || second)
                &&& !first ==> requirement_count(requirement, seen) == count + scope_count(
                    other.expected.entries(),
                    seen.current.entries(),
                    requirement,
                )
            }
        }),
{
}

} // verus!
