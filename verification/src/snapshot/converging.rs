//! What applying a delta does to a tree: it ends at the target, and nothing else
//! changes.

use crate::path;
use crate::path::Names;
use crate::snapshot::apply;
use crate::snapshot::apply::{
    ApplyAction, ApplyEvent, ApplyPhase, ApplyStage, ApplyState, ApplyStep, Course, DeltaEvidence, Expectation, Standing,
};
use crate::snapshot::compare;
use crate::snapshot::delta;
use crate::snapshot::delta::{SnapshotDeltaApplyMode, SnapshotDeltaSummary};
use crate::snapshot::SnapshotEntryKind;
use vstd::prelude::*;

verus! {

/// What stands at a path: its kind, its permissions, and the bytes of a file or the
/// target of a link.
#[verifier::ext_equal]
pub struct Live {
    pub kind: SnapshotEntryKind,
    pub mode: u32,
    pub content: Seq<u8>,
}

/// What stands in a directory, by path.
pub type Tree = Map<Names, Live>;

/// What a tree has at a path.
pub open spec fn found(tree: Tree, at: Names) -> Option<Live> {
    if tree.dom().contains(at) {
        Some(tree[at])
    } else {
        None
    }
}

/// Whether an end of a change says what a tree has there. A directory has no bytes of
/// its own.
pub open spec fn end_fits(end: Option<crate::snapshot::EntryView>, at: Option<Live>) -> bool {
    match (end, at) {
        (None, None) => true,
        (Some(entry), Some(live)) => entry.kind == live.kind && entry.mode == live.mode && (live.kind is Directory
            ==> live.content == Seq::<u8>::empty()),
        _ => false,
    }
}

/// Whether a change is one between two trees.
pub open spec fn change_fits(entry: delta::DeltaView, base: Tree, target: Tree) -> bool {
    &&& end_fits(entry.before, found(base, entry.path))
    &&& end_fits(entry.after, found(target, entry.path))
    &&& entry.change is Deleted ==> entry.after is None
}

/// Whether a delta lies between two trees: every path once.
pub open spec fn delta_fits(entries: Seq<delta::DeltaView>, base: Tree, target: Tree) -> bool {
    &&& forall|i: int| 0 <= i < entries.len() ==> change_fits(#[trigger] entries[i], base, target)
    &&& forall|i: int, j: int|
        0 <= i < j < entries.len() ==> (#[trigger] entries[i]).path != (#[trigger] entries[j]).path
}

/// What a step does to a tree. A new directory gets the mode that the system gives it.
pub open spec fn performed(tree: Tree, phase: ApplyPhase, entry: delta::DeltaView, target: Tree, new_mode: u32) -> Tree {
    match phase {
        ApplyPhase::Remove => tree.remove(entry.path),
        ApplyPhase::MakeDirectory => tree.insert(
            entry.path,
            Live { kind: SnapshotEntryKind::Directory, mode: new_mode, content: Seq::empty() },
        ),
        ApplyPhase::Put => tree.insert(entry.path, target[entry.path]),
        ApplyPhase::SetMode => tree.insert(entry.path, Live { mode: entry.after->0.mode, ..tree[entry.path] }),
    }
}

/// The kind of what stands at a path.
pub open spec fn live_kind(at: Option<Live>) -> Option<SnapshotEntryKind> {
    match at {
        Some(live) => Some(live.kind),
        None => None,
    }
}

/// Where a path of a tree stands between two others.
pub open spec fn stands(tree: Tree, at: Names, base: Tree, target: Tree) -> Standing {
    let (from, to, now) = (found(base, at), found(target, at), found(tree, at));
    if now == to {
        Standing::AtTarget
    } else if now == from {
        Standing::AtBase
    } else if apply::is_gone(live_kind(from), live_kind(to), live_kind(now)) {
        Standing::Gone
    } else if apply::is_made(live_kind(from), live_kind(to), live_kind(now)) {
        Standing::Made
    } else {
        Standing::Elsewhere
    }
}

/// What looking at a path before a step tells.
pub open spec fn look(tree: Tree, phase: ApplyPhase, entry: delta::DeltaView, base: Tree, target: Tree) -> ApplyEvent {
    match phase {
        ApplyPhase::SetMode => ApplyEvent::SeenMode { differs: tree[entry.path].mode != entry.after->0.mode },
        _ => ApplyEvent::Seen(stands(tree, entry.path, base, target)),
    }
}

/// What a step does with what it finds.
pub open spec fn course_at(
    tree: Tree,
    phase: ApplyPhase,
    entry: delta::DeltaView,
    base: Tree,
    target: Tree,
    resumes: bool,
) -> Course {
    match phase {
        ApplyPhase::SetMode => if tree[entry.path].mode == entry.after->0.mode {
            Course::Pass
        } else {
            Course::Make
        },
        _ => apply::course_of(phase, stands(tree, entry.path, base, target), resumes),
    }
}

/// The tree after some steps; `new_modes` holds the mode that the system gives a
/// directory that a step makes.
pub open spec fn tree_after(
    start: Tree,
    entries: Seq<delta::DeltaView>,
    steps: Seq<ApplyStep>,
    base: Tree,
    target: Tree,
    resumes: bool,
    new_modes: Map<int, u32>,
    n: int,
) -> Tree
    decreases n,
{
    if n <= 0 {
        start
    } else {
        let tree = tree_after(start, entries, steps, base, target, resumes, new_modes, n - 1);
        let step = steps[n - 1];
        let entry = entries[step.entry as int];
        if course_at(tree, step.phase, entry, base, target, resumes) is Make {
            performed(tree, step.phase, entry, target, new_modes[n - 1])
        } else {
            tree
        }
    }
}

/// Whether applying may go on from what a path has: from the base, and on resuming from
/// the target and from where an interrupted apply stopped.
pub open spec fn may_start(tree: Tree, at: Names, base: Tree, target: Tree, resumes: bool) -> bool {
    let standing = stands(tree, at, base, target);
    found(tree, at) == found(base, at) || (resumes && !(standing is Elsewhere) && (standing is Made ==> tree[at].content
        == Seq::<u8>::empty()))
}

/// Whether applying may go on from a tree at every changed path.
pub open spec fn is_start(
    tree: Tree,
    entries: Seq<delta::DeltaView>,
    base: Tree,
    target: Tree,
    resumes: bool,
) -> bool {
    forall|i: int|
        0 <= i < entries.len() ==> may_start(tree, (#[trigger] entries[i]).path, base, target, resumes)
}

spec fn rank(phase: ApplyPhase) -> int {
    match phase {
        ApplyPhase::Remove => 0,
        ApplyPhase::MakeDirectory => 1,
        ApplyPhase::Put => 2,
        ApplyPhase::SetMode => 3,
    }
}

/// The phases follow each other, each step is there once, and every step that is
/// wanted is there.
spec fn tidy(entries: Seq<delta::DeltaView>, steps: Seq<ApplyStep>) -> bool {
    &&& forall|j: int, k: int|
        0 <= j < k < steps.len() ==> rank((#[trigger] steps[j]).phase) <= rank((#[trigger] steps[k]).phase)
    &&& forall|j: int, k: int| 0 <= j < k < steps.len() ==> #[trigger] steps[j] != #[trigger] steps[k]
    &&& forall|k: int|
        0 <= k < steps.len() ==> (#[trigger] steps[k]).entry < entries.len() && apply::wanted(
            entries[steps[k].entry as int],
            steps[k].phase,
        )
    &&& forall|i: int, phase: ApplyPhase|
        0 <= i < entries.len() && #[trigger] apply::wanted(entries[i], phase) ==> has_step(steps, i, phase)
}

spec fn has_step(steps: Seq<ApplyStep>, i: int, phase: ApplyPhase) -> bool {
    exists|k: int| 0 <= k < steps.len() && (#[trigger] steps[k]).entry == i && steps[k].phase == phase
}

proof fn lemma_phase_has_step(
    entries: Seq<delta::DeltaView>,
    phase: ApplyPhase,
    order: Seq<usize>,
    steps: Seq<ApplyStep>,
    offset: int,
    i: int,
)
    requires
        apply::is_phase_order(entries, phase, order),
        0 <= offset,
        offset + order.len() <= steps.len(),
        forall|a: int|
            0 <= a < order.len() ==> #[trigger] steps[offset + a] == (ApplyStep { phase, entry: order[a] }),
        0 <= i < entries.len(),
        apply::wanted(entries[i], phase),
    ensures
        has_step(steps, i, phase),
{
    let a = choose|a: int| 0 <= a < order.len() && #[trigger] order[a] == i;
    assert(steps[offset + a].entry == i && steps[offset + a].phase == phase);
}

proof fn lemma_step_order_is_tidy(entries: Seq<delta::DeltaView>, steps: Seq<ApplyStep>)
    requires
        apply::is_step_order(entries, steps),
    ensures
        tidy(entries, steps),
{
    let (removed, made, put, set) = choose|removed: Seq<usize>, made: Seq<usize>, put: Seq<usize>, set: Seq<usize>|
        #![trigger apply::is_phase_order(entries, ApplyPhase::Remove, removed), apply::is_phase_order(
            entries,
            ApplyPhase::MakeDirectory,
            made,
        ), apply::is_phase_order(entries, ApplyPhase::Put, put), apply::is_phase_order(entries, ApplyPhase::SetMode, set)]
        apply::is_phase_order(entries, ApplyPhase::Remove, removed) && apply::is_phase_order(
            entries,
            ApplyPhase::MakeDirectory,
            made,
        ) && apply::is_phase_order(entries, ApplyPhase::Put, put) && apply::is_phase_order(
            entries,
            ApplyPhase::SetMode,
            set,
        ) && steps == apply::phase_steps(ApplyPhase::Remove, removed) + apply::phase_steps(
            ApplyPhase::MakeDirectory,
            made,
        ) + apply::phase_steps(ApplyPhase::Put, put) + apply::phase_steps(ApplyPhase::SetMode, set);
    let r = removed.len() as int;
    let m = r + made.len();
    let p = m + put.len();
    assert(steps.len() == p + set.len());
    assert(forall|k: int| 0 <= k < r ==> #[trigger] steps[k] == (ApplyStep { phase: ApplyPhase::Remove, entry: removed[k] }));
    assert(forall|k: int| r <= k < m ==> #[trigger] steps[k] == (ApplyStep {
        phase: ApplyPhase::MakeDirectory,
        entry: made[k - r],
    }));
    assert(forall|k: int| m <= k < p ==> #[trigger] steps[k] == (ApplyStep { phase: ApplyPhase::Put, entry: put[k - m] }));
    assert(forall|k: int| p <= k < steps.len() ==> #[trigger] steps[k] == (ApplyStep {
        phase: ApplyPhase::SetMode,
        entry: set[k - p],
    }));
    assert forall|j: int, k: int| 0 <= j < k < steps.len() implies #[trigger] steps[j] != #[trigger] steps[k] by {
        if steps[j] == steps[k] {
            let phase = steps[j].phase;
            let (order, offset) = match phase {
                ApplyPhase::Remove => (removed, 0int),
                ApplyPhase::MakeDirectory => (made, r),
                ApplyPhase::Put => (put, m),
                ApplyPhase::SetMode => (set, p),
            };
            assert(steps[j].entry == order[j - offset]);
            assert(steps[k].entry == order[k - offset]);
            assert(apply::done_before(entries, phase, order[j - offset] as int, order[k - offset] as int));
        }
    }
    assert forall|k: int| 0 <= k < steps.len() implies (#[trigger] steps[k]).entry < entries.len() && apply::wanted(
        entries[steps[k].entry as int],
        steps[k].phase,
    ) by {
        if k < r {
            assert(removed[k] < entries.len());
        } else if k < m {
            assert(made[k - r] < entries.len());
        } else if k < p {
            assert(put[k - m] < entries.len());
        } else {
            assert(set[k - p] < entries.len());
        }
    }
    assert forall|i: int, phase: ApplyPhase|
        0 <= i < entries.len() && #[trigger] apply::wanted(entries[i], phase) implies has_step(steps, i, phase) by {
        match phase {
            ApplyPhase::Remove => {
                lemma_phase_has_step(entries, phase, removed, steps, 0, i);
            },
            ApplyPhase::MakeDirectory => {
                lemma_phase_has_step(entries, phase, made, steps, r, i);
            },
            ApplyPhase::Put => {
                lemma_phase_has_step(entries, phase, put, steps, m, i);
            },
            ApplyPhase::SetMode => {
                lemma_phase_has_step(entries, phase, set, steps, p, i);
            },
        }
    }
}

/// Whether a step for a change, of a phase, was among the first.
spec fn was_taken(steps: Seq<ApplyStep>, n: int, i: int, phase: ApplyPhase) -> bool {
    exists|k: int| 0 <= k < n && (#[trigger] steps[k]).entry == i && steps[k].phase == phase
}

/// How far a change has come after some steps.
spec fn came_to(
    tree: Tree,
    entry: delta::DeltaView,
    base: Tree,
    target: Tree,
    resumes: bool,
    steps: Seq<ApplyStep>,
    n: int,
    i: int,
) -> bool {
    let at = found(tree, entry.path);
    let end = found(target, entry.path);
    let standing = stands(tree, entry.path, base, target);
    let was_removed = was_taken(steps, n, i, ApplyPhase::Remove);
    let was_made = was_taken(steps, n, i, ApplyPhase::MakeDirectory);
    let was_put = was_taken(steps, n, i, ApplyPhase::Put);
    &&& match standing {
        Standing::AtTarget => true,
        Standing::AtBase => !was_removed && !was_made && !was_put,
        Standing::Gone => (resumes || was_removed) && !was_made && !was_put,
        Standing::Made => (resumes || was_made) && at->0.content == Seq::<u8>::empty(),
        Standing::Elsewhere => false,
    }
    &&& was_taken(steps, n, i, ApplyPhase::SetMode) ==> at == end
}

proof fn lemma_taken_grows(steps: Seq<ApplyStep>, n: int, i: int, phase: ApplyPhase)
    requires
        0 < n <= steps.len(),
    ensures
        was_taken(steps, n, i, phase) <==> was_taken(steps, n - 1, i, phase) || (steps[n - 1].entry == i && steps[n
            - 1].phase == phase),
{
    if was_taken(steps, n, i, phase) {
        let k = choose|k: int| 0 <= k < n && (#[trigger] steps[k]).entry == i && steps[k].phase == phase;
        assert(k < n - 1 || k == n - 1);
    }
    if steps[n - 1].entry == i && steps[n - 1].phase == phase {
        assert(was_taken(steps, n, i, phase));
    }
    if was_taken(steps, n - 1, i, phase) {
        let k = choose|k: int| 0 <= k < n - 1 && (#[trigger] steps[k]).entry == i && steps[k].phase == phase;
        assert(0 <= k < n && steps[k].entry == i);
    }
}

proof fn lemma_earlier_phase_was_taken(
    entries: Seq<delta::DeltaView>,
    steps: Seq<ApplyStep>,
    n: int,
    i: int,
    phase: ApplyPhase,
)
    requires
        tidy(entries, steps),
        0 <= n < steps.len(),
        0 <= i < entries.len(),
        apply::wanted(entries[i], phase),
        rank(phase) < rank(steps[n].phase),
    ensures
        was_taken(steps, n, i, phase),
{
    assert(has_step(steps, i, phase));
    let k = choose|k: int| 0 <= k < steps.len() && (#[trigger] steps[k]).entry == i && steps[k].phase == phase;
    if k >= n {
        assert(k != n);
        assert(rank(steps[n].phase) <= rank(steps[k].phase));
    }
}

proof fn lemma_not_taken_twice(entries: Seq<delta::DeltaView>, steps: Seq<ApplyStep>, n: int)
    requires
        tidy(entries, steps),
        0 <= n < steps.len(),
    ensures
        !was_taken(steps, n, steps[n].entry as int, steps[n].phase),
{
    if was_taken(steps, n, steps[n].entry as int, steps[n].phase) {
        let k = choose|k: int|
            0 <= k < n && (#[trigger] steps[k]).entry == steps[n].entry as int && steps[k].phase == steps[n].phase;
        assert(steps[k] == steps[n]);
    }
}

proof fn lemma_later_phase_is_ahead(entries: Seq<delta::DeltaView>, steps: Seq<ApplyStep>, n: int, i: int, phase: ApplyPhase)
    requires
        tidy(entries, steps),
        0 <= n < steps.len(),
        rank(steps[n].phase) < rank(phase),
    ensures
        !was_taken(steps, n, i, phase),
{
    if was_taken(steps, n, i, phase) {
        let k = choose|k: int| 0 <= k < n && (#[trigger] steps[k]).entry == i && steps[k].phase == phase;
        assert(rank(steps[k].phase) <= rank(steps[n].phase));
    }
}

/// What the next step finds is where it can go on from.
proof fn lemma_step_can_go_on(
    tree: Tree,
    entries: Seq<delta::DeltaView>,
    steps: Seq<ApplyStep>,
    base: Tree,
    target: Tree,
    resumes: bool,
    n: int,
)
    requires
        delta_fits(entries, base, target),
        tidy(entries, steps),
        0 <= n < steps.len(),
        came_to(tree, entries[steps[n].entry as int], base, target, resumes, steps, n, steps[n].entry as int),
    ensures
        !(course_at(tree, steps[n].phase, entries[steps[n].entry as int], base, target, resumes) is Refuse),
        steps[n].phase is SetMode ==> found(tree, entries[steps[n].entry as int].path) is Some,
        steps[n].phase is SetMode ==> !(stands(tree, entries[steps[n].entry as int].path, base, target) is Gone),
        steps[n].phase is SetMode && stands(tree, entries[steps[n].entry as int].path, base, target) is AtBase
            ==> entries[steps[n].entry as int].before is Some && entries[steps[n].entry as int].before->0.kind
            == entries[steps[n].entry as int].after->0.kind && entries[steps[n].entry as int].after->0.kind is Directory,
        steps[n].phase is MakeDirectory && stands(tree, entries[steps[n].entry as int].path, base, target) is AtBase
            ==> entries[steps[n].entry as int].before is None,
{
    let step = steps[n];
    let i = step.entry as int;
    let entry = entries[i];
    assert(change_fits(entry, base, target));
    assert(apply::wanted(entry, step.phase));
    lemma_not_taken_twice(entries, steps, n);
    if step.phase is Remove {
        lemma_later_phase_is_ahead(entries, steps, n, i, ApplyPhase::MakeDirectory);
    } else {
        if apply::wanted(entry, ApplyPhase::Remove) {
            lemma_earlier_phase_was_taken(entries, steps, n, i, ApplyPhase::Remove);
        }
        if step.phase is SetMode {
            if apply::wanted(entry, ApplyPhase::MakeDirectory) {
                lemma_earlier_phase_was_taken(entries, steps, n, i, ApplyPhase::MakeDirectory);
            }
            if apply::wanted(entry, ApplyPhase::Put) {
                lemma_earlier_phase_was_taken(entries, steps, n, i, ApplyPhase::Put);
            }
        }
    }
}

proof fn lemma_step_moves_on(
    tree: Tree,
    entries: Seq<delta::DeltaView>,
    steps: Seq<ApplyStep>,
    base: Tree,
    target: Tree,
    resumes: bool,
    new_mode: u32,
    n: int,
    i: int,
)
    requires
        delta_fits(entries, base, target),
        tidy(entries, steps),
        0 <= n < steps.len(),
        0 <= i < entries.len(),
        came_to(tree, entries[i], base, target, resumes, steps, n, i),
        came_to(tree, entries[steps[n].entry as int], base, target, resumes, steps, n, steps[n].entry as int),
    ensures
        ({
            let step = steps[n];
            let entry = entries[step.entry as int];
            let next = if course_at(tree, step.phase, entry, base, target, resumes) is Make {
                performed(tree, step.phase, entry, target, new_mode)
            } else {
                tree
            };
            came_to(next, entries[i], base, target, resumes, steps, n + 1, i)
        }),
{
    let step = steps[n];
    let own = step.entry as int;
    let entry = entries[own];
    lemma_taken_grows(steps, n + 1, i, ApplyPhase::Remove);
    lemma_taken_grows(steps, n + 1, i, ApplyPhase::MakeDirectory);
    lemma_taken_grows(steps, n + 1, i, ApplyPhase::Put);
    lemma_taken_grows(steps, n + 1, i, ApplyPhase::SetMode);
    if own != i {
        assert(entries[own].path != entries[i].path) by {
            if own < i {
                assert(entries[own].path != entries[i].path);
            } else {
                assert(entries[i].path != entries[own].path);
            }
        }
    } else {
        assert(change_fits(entry, base, target));
        assert(apply::wanted(entry, step.phase));
        lemma_not_taken_twice(entries, steps, n);
        lemma_step_can_go_on(tree, entries, steps, base, target, resumes, n);
        match step.phase {
            ApplyPhase::Remove => {
                lemma_later_phase_is_ahead(entries, steps, n, i, ApplyPhase::MakeDirectory);
                lemma_later_phase_is_ahead(entries, steps, n, i, ApplyPhase::Put);
                lemma_later_phase_is_ahead(entries, steps, n, i, ApplyPhase::SetMode);
            },
            ApplyPhase::MakeDirectory => {
                lemma_later_phase_is_ahead(entries, steps, n, i, ApplyPhase::Put);
                lemma_later_phase_is_ahead(entries, steps, n, i, ApplyPhase::SetMode);
            },
            ApplyPhase::Put => {
                lemma_later_phase_is_ahead(entries, steps, n, i, ApplyPhase::SetMode);
            },
            ApplyPhase::SetMode => {
                let at = found(tree, entry.path);
                let end = found(target, entry.path);
                if at != end {
                    assert(end->0.kind is Directory && end->0.content == Seq::<u8>::empty());
                    assert(at->0.kind is Directory && at->0.content == Seq::<u8>::empty());
                    assert((Live { mode: entry.after->0.mode, ..at->0 }) =~= end->0);
                    if tree[entry.path].mode == entry.after->0.mode {
                        assert(at->0 =~= end->0);
                    }
                }
            },
        }
    }
}

proof fn lemma_tree_came_to(
    start: Tree,
    entries: Seq<delta::DeltaView>,
    steps: Seq<ApplyStep>,
    base: Tree,
    target: Tree,
    resumes: bool,
    new_modes: Map<int, u32>,
    n: int,
    i: int,
)
    requires
        delta_fits(entries, base, target),
        tidy(entries, steps),
        is_start(start, entries, base, target, resumes),
        0 <= n <= steps.len(),
        0 <= i < entries.len(),
    ensures
        came_to(
            tree_after(start, entries, steps, base, target, resumes, new_modes, n),
            entries[i],
            base,
            target,
            resumes,
            steps,
            n,
            i,
        ),
    decreases n,
{
    if n > 0 {
        let own = steps[n - 1].entry as int;
        lemma_tree_came_to(start, entries, steps, base, target, resumes, new_modes, n - 1, i);
        lemma_tree_came_to(start, entries, steps, base, target, resumes, new_modes, n - 1, own);
        let tree = tree_after(start, entries, steps, base, target, resumes, new_modes, n - 1);
        lemma_step_moves_on(tree, entries, steps, base, target, resumes, new_modes[n - 1], n - 1, i);
    } else {
        assert(may_start(start, entries[i].path, base, target, resumes));
    }
}

proof fn lemma_others_stay(
    start: Tree,
    entries: Seq<delta::DeltaView>,
    steps: Seq<ApplyStep>,
    base: Tree,
    target: Tree,
    resumes: bool,
    new_modes: Map<int, u32>,
    n: int,
    at: Names,
)
    requires
        tidy(entries, steps),
        0 <= n <= steps.len(),
        forall|i: int| 0 <= i < entries.len() ==> (#[trigger] entries[i]).path != at,
    ensures
        found(tree_after(start, entries, steps, base, target, resumes, new_modes, n), at) == found(start, at),
    decreases n,
{
    if n > 0 {
        lemma_others_stay(start, entries, steps, base, target, resumes, new_modes, n - 1, at);
        assert(entries[steps[n - 1].entry as int].path != at);
    }
}

/// A destination that is at the base at every changed path is brought to the target at
/// every one of them, and stays as it is everywhere else. On resuming the same holds of
/// one that is at either end, or where an interrupted apply stopped, in any mixture.
pub proof fn law_deltas_converge(
    start: Tree,
    entries: Seq<delta::DeltaView>,
    steps: Seq<ApplyStep>,
    base: Tree,
    target: Tree,
    resumes: bool,
    new_modes: Map<int, u32>,
)
    requires
        delta_fits(entries, base, target),
        apply::is_step_order(entries, steps),
        is_start(start, entries, base, target, resumes),
    ensures
        ({
            let reached = tree_after(start, entries, steps, base, target, resumes, new_modes, steps.len() as int);
            &&& forall|i: int|
                0 <= i < entries.len() ==> found(reached, (#[trigger] entries[i]).path) == found(target, entries[i].path)
            &&& forall|at: Names|
                (forall|i: int| 0 <= i < entries.len() ==> (#[trigger] entries[i]).path != at) ==> #[trigger] found(
                    reached,
                    at,
                ) == found(start, at)
        }),
{
    let all = steps.len() as int;
    let reached = tree_after(start, entries, steps, base, target, resumes, new_modes, all);
    lemma_step_order_is_tidy(entries, steps);
    assert forall|i: int| 0 <= i < entries.len() implies found(reached, (#[trigger] entries[i]).path) == found(
        target,
        entries[i].path,
    ) by {
        let entry = entries[i];
        lemma_tree_came_to(start, entries, steps, base, target, resumes, new_modes, all, i);
        assert(change_fits(entry, base, target));
        let phase = if entry.after is None {
            ApplyPhase::Remove
        } else if entry.after->0.kind is Symlink {
            ApplyPhase::Put
        } else {
            ApplyPhase::SetMode
        };
        if entry.before is Some || entry.after is Some {
            assert(apply::wanted(entry, phase));
            assert(has_step(steps, i, phase));
            let k = choose|k: int| 0 <= k < steps.len() && (#[trigger] steps[k]).entry == i && steps[k].phase == phase;
            assert(was_taken(steps, all, i, phase));
        }
    }
    assert forall|at: Names|
        (forall|i: int| 0 <= i < entries.len() ==> (#[trigger] entries[i]).path != at) implies #[trigger] found(
        reached,
        at,
    ) == found(start, at) by {
        lemma_others_stay(start, entries, steps, base, target, resumes, new_modes, all, at);
    }
}

/// On the way there no step is refused: each is done or passed over, and applying goes on
/// with the step that follows.
pub proof fn law_converging_deltas_are_not_refused(
    start: Tree,
    entries: Seq<delta::DeltaView>,
    steps: Seq<ApplyStep>,
    base: Tree,
    target: Tree,
    new_modes: Map<int, u32>,
    state: ApplyState,
)
    requires
        delta_fits(entries, base, target),
        apply::is_step_order(entries, steps),
        is_start(start, entries, base, target, state.resumes),
        state.stage is Observe,
        state.next < state.total,
        state.total == steps.len(),
    ensures
        ({
            let n = state.next as int;
            let tree = tree_after(start, entries, steps, base, target, state.resumes, new_modes, n);
            let step = steps[n];
            let entry = entries[step.entry as int];
            let seen = apply::apply_step(steps, state, look(tree, step.phase, entry, base, target));
            if course_at(tree, step.phase, entry, base, target, state.resumes) is Make {
                &&& seen.0 == (ApplyState { stage: ApplyStage::Perform, ..state })
                &&& seen.1 == (ApplyAction::Perform { step: state.next })
                &&& apply::apply_step(steps, seen.0, ApplyEvent::Succeeded) == apply::to_next(
                    ApplyState {
                        stage: ApplyStage::Perform,
                        applied_paths: compare::saturated(state.applied_paths + 1),
                        ..state
                    },
                    (n + 1) as usize,
                )
            } else {
                seen == apply::to_next(state, (n + 1) as usize)
            }
        }),
{
    let n = state.next as int;
    let tree = tree_after(start, entries, steps, base, target, state.resumes, new_modes, n);
    lemma_step_order_is_tidy(entries, steps);
    lemma_tree_came_to(start, entries, steps, base, target, state.resumes, new_modes, n, steps[n].entry as int);
    lemma_step_can_go_on(tree, entries, steps, base, target, state.resumes, n);
}

/// The state of applying after some steps, where every step that is made succeeds.
pub open spec fn state_after(
    start: Tree,
    entries: Seq<delta::DeltaView>,
    steps: Seq<ApplyStep>,
    base: Tree,
    target: Tree,
    new_modes: Map<int, u32>,
    state: ApplyState,
    n: int,
) -> ApplyState
    decreases n,
{
    if n <= 0 {
        state
    } else {
        let before = state_after(start, entries, steps, base, target, new_modes, state, n - 1);
        let tree = tree_after(start, entries, steps, base, target, state.resumes, new_modes, n - 1);
        let step = steps[n - 1];
        let seen = apply::apply_step(
            steps,
            before,
            look(tree, step.phase, entries[step.entry as int], base, target),
        );
        if seen.1 is Perform {
            apply::apply_step(steps, seen.0, ApplyEvent::Succeeded).0
        } else {
            seen.0
        }
    }
}

proof fn lemma_steps_go_through(
    start: Tree,
    entries: Seq<delta::DeltaView>,
    steps: Seq<ApplyStep>,
    base: Tree,
    target: Tree,
    new_modes: Map<int, u32>,
    state: ApplyState,
    n: int,
)
    requires
        delta_fits(entries, base, target),
        apply::is_step_order(entries, steps),
        is_start(start, entries, base, target, state.resumes),
        state.total == steps.len(),
        state.next == 0,
        state.stage == if steps.len() == 0 {
            ApplyStage::Verify
        } else {
            ApplyStage::Observe
        },
        0 <= n <= steps.len(),
    ensures
        ({
            let after = state_after(start, entries, steps, base, target, new_modes, state, n);
            after == (ApplyState {
                next: n as usize,
                stage: if n == steps.len() {
                    ApplyStage::Verify
                } else {
                    ApplyStage::Observe
                },
                applied_paths: after.applied_paths,
                ..state
            })
        }),
    decreases n,
{
    if n > 0 {
        lemma_steps_go_through(start, entries, steps, base, target, new_modes, state, n - 1);
        let before = state_after(start, entries, steps, base, target, new_modes, state, n - 1);
        law_converging_deltas_are_not_refused(start, entries, steps, base, target, new_modes, before);
    }
}

/// Whether what was seen of two snapshots and a destination is what they hold.
pub open spec fn sees(seen: DeltaEvidence, tree: Tree, base: Tree, target: Tree) -> bool {
    &&& forall|p: Names| #[trigger] apply::at_base(seen, p) == (found(tree, p) == found(base, p))
    &&& forall|p: Names| #[trigger] apply::at_target(seen, p) == (found(tree, p) == found(target, p))
    &&& forall|p: Names| #[trigger] apply::kind_at(seen.base@, p) == live_kind(found(base, p))
    &&& forall|p: Names| #[trigger] apply::kind_at(seen.target@, p) == live_kind(found(target, p))
    &&& forall|p: Names| #[trigger] apply::kind_at(seen.current@, p) == live_kind(found(tree, p))
}

/// Whether a delta names every path at which two trees differ.
pub open spec fn is_complete(entries: Seq<delta::DeltaView>, base: Tree, target: Tree) -> bool {
    forall|p: Names| #[trigger]
        found(base, p) != found(target, p) ==> exists|i: int| 0 <= i < entries.len() && (#[trigger] entries[i]).path == p
}

/// Whether applying may go on from everything at or below a directory that goes.
pub open spec fn roots_may_start(
    tree: Tree,
    entries: Seq<delta::DeltaView>,
    base: Tree,
    target: Tree,
    resumes: bool,
) -> bool {
    forall|k: int, p: Names|
        0 <= k < apply::destructive_roots(entries).len() && path::lies_under(
            p,
            #[trigger] apply::destructive_roots(entries)[k],
        ) ==> #[trigger] may_start(tree, p, base, target, resumes)
}

proof fn lemma_starts_are_conflict_free(
    seen: DeltaEvidence,
    start: Tree,
    entries: Seq<delta::DeltaView>,
    base: Tree,
    target: Tree,
    mode: SnapshotDeltaApplyMode,
)
    requires
        sees(seen, start, base, target),
        is_start(start, entries, base, target, mode is Resume),
        roots_may_start(start, entries, base, target, mode is Resume),
    ensures
        apply::conflict_count(seen, Expectation::Before(mode), entries) == 0,
{
    let expected = Expectation::Before(mode);
    assert forall|p: Names| may_start(start, p, base, target, mode is Resume) implies !(#[trigger] apply::misplaced(
        seen,
        expected,
        p,
    )) by {
        assert(apply::at_base(seen, p) == (found(start, p) == found(base, p)));
        assert(apply::at_target(seen, p) == (found(start, p) == found(target, p)));
        assert(apply::kind_at(seen.base@, p) == live_kind(found(base, p)));
        assert(apply::kind_at(seen.target@, p) == live_kind(found(target, p)));
        assert(apply::kind_at(seen.current@, p) == live_kind(found(start, p)));
    }
    assert forall|i: int| 0 <= i < entries.len() implies !apply::misplaced(
        seen,
        expected,
        (#[trigger] entries[i]).path,
    ) by {
        assert(may_start(start, entries[i].path, base, target, mode is Resume));
    }
    assert forall|k: int, p: Names|
        0 <= k < apply::destructive_roots(entries).len() && path::lies_under(
            p,
            #[trigger] apply::destructive_roots(entries)[k],
        ) implies !(#[trigger] apply::misplaced(seen, expected, p)) by {
        assert(may_start(start, p, base, target, mode is Resume));
    }
    apply::lemma_in_place_is_conflict_free(seen, expected, entries);
}

proof fn lemma_ends_are_conflict_free(
    seen: DeltaEvidence,
    start: Tree,
    reached: Tree,
    entries: Seq<delta::DeltaView>,
    base: Tree,
    target: Tree,
    resumes: bool,
)
    requires
        sees(seen, reached, base, target),
        is_complete(entries, base, target),
        roots_may_start(start, entries, base, target, resumes),
        forall|i: int|
            0 <= i < entries.len() ==> found(reached, (#[trigger] entries[i]).path) == found(target, entries[i].path),
        forall|at: Names|
            (forall|i: int| 0 <= i < entries.len() ==> (#[trigger] entries[i]).path != at) ==> #[trigger] found(
                reached,
                at,
            ) == found(start, at),
    ensures
        apply::conflict_count(seen, Expectation::After, entries) == 0,
{
    assert forall|i: int| 0 <= i < entries.len() implies !apply::misplaced(
        seen,
        Expectation::After,
        (#[trigger] entries[i]).path,
    ) by {
        assert(apply::at_target(seen, entries[i].path));
    }
    assert forall|k: int, p: Names|
        0 <= k < apply::destructive_roots(entries).len() && path::lies_under(
            p,
            #[trigger] apply::destructive_roots(entries)[k],
        ) implies !(#[trigger] apply::misplaced(seen, Expectation::After, p)) by {
        assert(may_start(start, p, base, target, resumes));
        if exists|i: int| 0 <= i < entries.len() && (#[trigger] entries[i]).path == p {
        } else {
            assert(found(base, p) == found(target, p));
            assert(found(reached, p) == found(start, p));
        }
        assert(apply::at_target(seen, p));
    }
    apply::lemma_in_place_is_conflict_free(seen, Expectation::After, entries);
}

spec fn opening_events() -> Seq<ApplyEvent> {
    seq![ApplyEvent::Succeeded, ApplyEvent::Compared { matched: true }, ApplyEvent::Counted { conflicts: 0 }]
}

spec fn closing_events() -> Seq<ApplyEvent> {
    seq![ApplyEvent::Counted { conflicts: 0 }, ApplyEvent::Compared { matched: true }]
}

proof fn lemma_opening_clears(steps: Seq<ApplyStep>, first: ApplyState)
    requires
        first.stage is Lock,
    ensures
        apply::apply_run(steps, first, opening_events()) == apply::to_next(
            ApplyState { stage: ApplyStage::Validate, ..first },
            0,
        ).0,
{
    let events = opening_events();
    reveal_with_fuel(apply::apply_run, 4);
    assert(events.drop_last() =~= seq![ApplyEvent::Succeeded, ApplyEvent::Compared { matched: true }]);
    assert(events.drop_last().drop_last() =~= seq![ApplyEvent::Succeeded]);
    assert(events.drop_last().drop_last().drop_last() =~= Seq::<ApplyEvent>::empty());
}

proof fn lemma_closing_succeeds(steps: Seq<ApplyStep>, written: ApplyState)
    requires
        written.stage is Verify,
    ensures
        apply::apply_step(
            steps,
            apply::apply_run(steps, written, closing_events()),
            ApplyEvent::Succeeded,
        ).1 == ApplyAction::Finish(Ok(written.summary)),
{
    let events = closing_events();
    reveal_with_fuel(apply::apply_run, 3);
    assert(events.drop_last() =~= seq![ApplyEvent::Counted { conflicts: 0 }]);
    assert(events.drop_last().drop_last() =~= Seq::<ApplyEvent>::empty());
}

/// Applying a delta succeeds and gives its summary, where the destination is at the base
/// at every changed path and below every directory that goes, or, on resuming, at either
/// end or where an interrupted apply stopped, nobody else writes, the dependencies match,
/// and no step fails: no conflict is counted before, every step goes through, and none
/// is counted after. Where every changed path then stands, `law_deltas_converge` tells.
pub proof fn law_applying_succeeds(
    start: Tree,
    entries: Seq<delta::DeltaView>,
    steps: Seq<ApplyStep>,
    base: Tree,
    target: Tree,
    mode: SnapshotDeltaApplyMode,
    new_modes: Map<int, u32>,
    summary: SnapshotDeltaSummary,
    before: DeltaEvidence,
    after: DeltaEvidence,
)
    requires
        delta_fits(entries, base, target),
        is_complete(entries, base, target),
        apply::is_step_order(entries, steps),
        is_start(start, entries, base, target, mode is Resume),
        roots_may_start(start, entries, base, target, mode is Resume),
        steps.len() <= usize::MAX,
        sees(before, start, base, target),
        sees(
            after,
            tree_after(start, entries, steps, base, target, mode is Resume, new_modes, steps.len() as int),
            base,
            target,
        ),
    ensures
        ({
            let first = ApplyState {
                stage: ApplyStage::Lock,
                next: 0,
                total: steps.len() as usize,
                applied_paths: 0,
                resumes: mode is Resume,
                summary,
            };
            let conflicts = apply::conflict_count(before, Expectation::Before(mode), entries) as usize;
            let left = apply::conflict_count(after, Expectation::After, entries) as usize;
            let cleared = apply::apply_run(
                steps,
                first,
                seq![ApplyEvent::Succeeded, ApplyEvent::Compared { matched: true }, ApplyEvent::Counted { conflicts }],
            );
            let written = state_after(
                start,
                entries,
                steps,
                base,
                target,
                new_modes,
                cleared,
                steps.len() as int,
            );
            let checked = apply::apply_run(
                steps,
                written,
                seq![ApplyEvent::Counted { conflicts: left }, ApplyEvent::Compared { matched: true }],
            );
            apply::apply_step(steps, checked, ApplyEvent::Succeeded).1 == ApplyAction::Finish(Ok(summary))
        }),
{
    let all = steps.len() as int;
    let resumes = mode is Resume;
    let reached = tree_after(start, entries, steps, base, target, resumes, new_modes, all);
    lemma_starts_are_conflict_free(before, start, entries, base, target, mode);
    law_deltas_converge(start, entries, steps, base, target, resumes, new_modes);
    lemma_ends_are_conflict_free(after, start, reached, entries, base, target, resumes);
    let first = ApplyState {
        stage: ApplyStage::Lock,
        next: 0,
        total: steps.len() as usize,
        applied_paths: 0,
        resumes,
        summary,
    };
    let cleared = apply::apply_run(steps, first, opening_events());
    lemma_opening_clears(steps, first);
    lemma_steps_go_through(start, entries, steps, base, target, new_modes, cleared, all);
    let written = state_after(start, entries, steps, base, target, new_modes, cleared, all);
    lemma_closing_succeeds(steps, written);
}

/// Resuming where every changed path is at the target writes nothing.
pub proof fn law_second_resume_changes_nothing(
    start: Tree,
    entries: Seq<delta::DeltaView>,
    steps: Seq<ApplyStep>,
    base: Tree,
    target: Tree,
    new_modes: Map<int, u32>,
    state: ApplyState,
    n: int,
)
    requires
        delta_fits(entries, base, target),
        apply::is_step_order(entries, steps),
        forall|i: int|
            0 <= i < entries.len() ==> found(start, (#[trigger] entries[i]).path) == found(target, entries[i].path),
        state.resumes,
        state.total == steps.len(),
        state.next == 0,
        state.stage == if steps.len() == 0 {
            ApplyStage::Verify
        } else {
            ApplyStage::Observe
        },
        0 <= n <= steps.len(),
    ensures
        tree_after(start, entries, steps, base, target, true, new_modes, n) == start,
        state_after(start, entries, steps, base, target, new_modes, state, n).applied_paths == state.applied_paths,
    decreases n,
{
    if n > 0 {
        law_second_resume_changes_nothing(start, entries, steps, base, target, new_modes, state, n - 1);
        lemma_step_order_is_tidy(entries, steps);
        let entry = entries[steps[n - 1].entry as int];
        assert(change_fits(entry, base, target));
        assert(apply::wanted(entry, steps[n - 1].phase));
        assert(is_start(start, entries, base, target, true));
        lemma_steps_go_through(start, entries, steps, base, target, new_modes, state, n - 1);
        let before = state_after(start, entries, steps, base, target, new_modes, state, n - 1);
        law_converging_deltas_are_not_refused(start, entries, steps, base, target, new_modes, before);
    }
}

} // verus!
