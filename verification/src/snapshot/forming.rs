//! Forming the delta from one snapshot to another.

use crate::error::SnapshotError;
use crate::path::Names;
use crate::path_map::PathMap;
use crate::snapshot::assembly;
use crate::snapshot::compare::add_saturating;
use crate::snapshot::delta;
use crate::snapshot::delta::{
    admit_delta, change_sides, refuse_path, DeltaEntry, SnapshotDelta, SnapshotDeltaLimits, SnapshotDeltaPolicy,
};
use crate::snapshot::diff::{SnapshotChange, SnapshotDiff};
use crate::snapshot::handle;
use crate::snapshot::handle::FsSnapshot;
use crate::snapshot::inspect;
use crate::snapshot::inspect::IndexEvidence;
use crate::snapshot::inventory::copy_optional;
use crate::snapshot::{EntryView, SnapshotChangeKind, SnapshotEntry};
use vstd::prelude::*;

verus! {

/// What was seen of two snapshots: their indexes, and their entries at the changed
/// paths.
pub struct EndsEvidence {
    pub before: IndexEvidence,
    pub after: IndexEvidence,
    pub base: PathMap<SnapshotEntry>,
    pub target: PathMap<SnapshotEntry>,
}

impl EndsEvidence {
    /// Every map stands in order.
    pub open spec fn wf(&self) -> bool {
        self.base.wf() && self.target.wf()
    }
}

/// A path that changed, and how.
pub type Changed = (Names, SnapshotChangeKind);

/// What changed, in order.
pub open spec fn changed_of(changes: Seq<SnapshotChange>) -> Seq<Changed> {
    Seq::new(changes.len(), |i: int| (changes[i].path@, changes[i].kind))
}

/// The entry at one end of a change: none where that end has none; nothing where it
/// has one that was not seen.
pub open spec fn end_of(has_entry: bool, entries: Map<Names, EntryView>, at: Names) -> Option<Option<EntryView>> {
    if !has_entry {
        Some(None)
    } else if entries.dom().contains(at) {
        Some(Some(entries[at]))
    } else {
        None
    }
}

/// A change with its two ends, where both were seen.
pub open spec fn with_ends(
    change: Changed,
    base: Map<Names, EntryView>,
    target: Map<Names, EntryView>,
) -> Option<delta::DeltaView> {
    match (end_of(change.1 !is Added, base, change.0), end_of(change.1 !is Deleted, target, change.0)) {
        (Some(before), Some(after)) => Some(
            delta::DeltaView { path: change.0, change: change.1, before, after },
        ),
        _ => None,
    }
}

/// The changes before the first whose ends were not both seen, with their ends.
pub open spec fn seen_changes(
    changes: Seq<Changed>,
    base: Map<Names, EntryView>,
    target: Map<Names, EntryView>,
) -> Seq<delta::DeltaView>
    decreases changes.len(),
{
    if changes.len() == 0 {
        Seq::empty()
    } else {
        match with_ends(changes[0], base, target) {
            None => Seq::empty(),
            Some(first) => seq![first] + seen_changes(changes.drop_first(), base, target),
        }
    }
}

/// What comparing two snapshots that are still there gives.
pub open spec fn is_difference(
    base: handle::Handle,
    target: handle::Handle,
    max_changes: usize,
    before: IndexEvidence,
    after: IndexEvidence,
    told: Result<SnapshotDiff, SnapshotError>,
) -> bool {
    if base.root_hash == target.root_hash {
        told matches Ok(found) && inspect::no_changes(found)
    } else {
        inspect::is_indexed_diff(before, base.root_hash, after, target.root_hash, None, max_changes, told)
    }
}

/// How many changes are kept: one more than are admitted.
pub open spec fn kept_changes(limits: SnapshotDeltaLimits) -> usize {
    if limits.max_changed_paths == usize::MAX {
        usize::MAX
    } else {
        (limits.max_changed_paths + 1) as usize
    }
}

/// What forming a delta of some changes gives: they are admitted or refused in their
/// order, up to the first whose ends were not seen. That one is refused for its path,
/// or fails as looking at its ends did.
pub open spec fn is_formed(
    found: SnapshotDiff,
    limits: SnapshotDeltaLimits,
    policy: SnapshotDeltaPolicy,
    base: Map<Names, EntryView>,
    target: Map<Names, EntryView>,
    failure: SnapshotError,
    result: Result<SnapshotDelta, SnapshotError>,
) -> bool {
    let seen = seen_changes(changed_of(found.changes@), base, target);
    exists|entries: Vec<DeltaEntry>, admitted: Result<SnapshotDelta, SnapshotError>|
        #[trigger] delta::is_admission(entries, found.changed_paths, limits, policy, admitted)
            && delta::delta_views(entries@) == seen && (if admitted is Ok && seen.len() < found.changes@.len() {
            match delta::path_refusal(
                found.changes@[seen.len() as int].path@,
                assembly::all_names(policy.protected_paths@),
            ) {
                Some(refusal) => result matches Err(error) && delta::tells_refusal(error, refusal),
                None => result == Err::<SnapshotDelta, SnapshotError>(failure),
            }
        } else {
            result == admitted
        })
}

fn copy_entry(entry: &SnapshotEntry) -> (copy: SnapshotEntry)
    ensures
        copy@ == entry@,
{
    SnapshotEntry {
        path: entry.path.copy(),
        kind: entry.kind,
        mode: entry.mode,
        len: entry.len,
        symlink_target: copy_optional(&entry.symlink_target),
    }
}

fn look_up(has_entry: bool, entries: &PathMap<SnapshotEntry>, change: &SnapshotChange) -> (found: Option<
    Option<SnapshotEntry>,
>)
    requires
        entries.wf(),
    ensures
        match found {
            Some(end) => end_of(has_entry, entries@, change.path@) == Some(delta::entry_of(end)),
            None => end_of(has_entry, entries@, change.path@) is None,
        },
{
    if !has_entry {
        return Some(None);
    }
    match entries.get(&change.path) {
        Some(entry) => Some(Some(copy_entry(entry))),
        None => None,
    }
}

fn find_ends(change: &SnapshotChange, base: &PathMap<SnapshotEntry>, target: &PathMap<SnapshotEntry>) -> (found: Option<
    DeltaEntry,
>)
    requires
        base.wf(),
        target.wf(),
    ensures
        match found {
            Some(entry) => with_ends((change.path@, change.kind), base@, target@) == Some(entry@),
            None => with_ends((change.path@, change.kind), base@, target@) is None,
        },
{
    let (has_before, has_after) = change_sides(change.kind);
    match (look_up(has_before, base, change), look_up(has_after, target, change)) {
        (Some(before), Some(after)) => Some(
            DeltaEntry {
                change: SnapshotChange { path: change.path.copy(), kind: change.kind },
                before,
                after,
            },
        ),
        _ => None,
    }
}

fn collect_ends(changes: &Vec<SnapshotChange>, base: &PathMap<SnapshotEntry>, target: &PathMap<SnapshotEntry>) -> (entries:
    Vec<DeltaEntry>)
    requires
        base.wf(),
        target.wf(),
    ensures
        delta::delta_views(entries@) == seen_changes(changed_of(changes@), base@, target@),
{
    let ghost all = changed_of(changes@);
    let mut entries: Vec<DeltaEntry> = Vec::new();
    let mut i: usize = 0;
    proof {
        assert(all.skip(0) =~= all);
        assert(delta::delta_views(entries@) + seen_changes(all, base@, target@) =~= seen_changes(all, base@, target@));
    }
    while i < changes.len()
        invariant
            i <= changes@.len(),
            base.wf(),
            target.wf(),
            all == changed_of(changes@),
            delta::delta_views(entries@) + seen_changes(all.skip(i as int), base@, target@) == seen_changes(
                all,
                base@,
                target@,
            ),
        decreases changes@.len() - i,
    {
        let ghost rest = all.skip(i as int);
        let ghost so_far = delta::delta_views(entries@);
        assert(rest[0] == (changes@[i as int].path@, changes@[i as int].kind));
        assert(rest.drop_first() =~= all.skip(i as int + 1));
        match find_ends(&changes[i], base, target) {
            None => {
                assert(so_far + seen_changes(rest, base@, target@) =~= so_far);
                return entries;
            },
            Some(entry) => {
                let ghost view = entry@;
                entries.push(entry);
                proof {
                    assert(delta::delta_views(entries@) =~= so_far.push(view));
                    assert(so_far.push(view) + seen_changes(rest.drop_first(), base@, target@) =~= so_far + (seq![view]
                        + seen_changes(rest.drop_first(), base@, target@)));
                }
            },
        }
        i = i + 1;
    }
    proof {
        assert(all.skip(i as int) =~= Seq::<Changed>::empty());
        assert(delta::delta_views(entries@) + Seq::<delta::DeltaView>::empty() =~= delta::delta_views(entries@));
    }
    entries
}

impl FsSnapshot {
    /// Prepares a complete bounded delta from this base to `target`. Where an end of a
    /// change was not seen, `failure` is why.
    pub fn delta_to(
        &self,
        target: &FsSnapshot,
        limits: SnapshotDeltaLimits,
        policy: &SnapshotDeltaPolicy,
        seen: &EndsEvidence,
        failure: SnapshotError,
    ) -> (result: Result<SnapshotDelta, SnapshotError>)
        requires
            seen.wf(),
        ensures
            if self@.destroyed || target@.destroyed {
                result == Err::<SnapshotDelta, SnapshotError>(SnapshotError::AlreadyDestroyed)
            } else {
                exists|told: Result<SnapshotDiff, SnapshotError>|
                    #[trigger] is_difference(self@, target@, kept_changes(limits), seen.before, seen.after, told)
                        && match told {
                        Err(error) => result == Err::<SnapshotDelta, SnapshotError>(error),
                        Ok(found) => is_formed(found, limits, *policy, seen.base@, seen.target@, failure, result),
                    }
            },
    {
        let told = self.diff(target, add_saturating(limits.max_changed_paths, 1), &seen.before, &seen.after);
        assert(!self@.destroyed && !target@.destroyed ==> is_difference(
            self@,
            target@,
            kept_changes(limits),
            seen.before,
            seen.after,
            told,
        ));
        let found = match told {
            Err(error) => return Err(error),
            Ok(found) => found,
        };
        let entries = collect_ends(&found.changes, &seen.base, &seen.target);
        let count = entries.len();
        let ghost collected = entries;
        let admitted = admit_delta(entries, found.changed_paths, limits, policy);
        assert(delta::is_admission(collected, found.changed_paths, limits, *policy, admitted));
        assert(delta::delta_views(collected@).len() == collected@.len());
        match admitted {
            Err(error) => Err(error),
            Ok(formed) => {
                if count < found.changes.len() {
                    match refuse_path(&found.changes[count].path, policy) {
                        Some(refused) => Err(refused),
                        None => Err(failure),
                    }
                } else {
                    Ok(formed)
                }
            },
        }
    }
}

/// Where both ends of every change were seen, every change is in the delta.
pub proof fn law_seen_changes_are_complete(
    changes: Seq<Changed>,
    base: Map<Names, EntryView>,
    target: Map<Names, EntryView>,
)
    requires
        forall|i: int| 0 <= i < changes.len() ==> with_ends(#[trigger] changes[i], base, target) is Some,
    ensures
        seen_changes(changes, base, target).len() == changes.len(),
        forall|i: int|
            0 <= i < changes.len() ==> Some(#[trigger] seen_changes(changes, base, target)[i]) == with_ends(
                changes[i],
                base,
                target,
            ),
    decreases changes.len(),
{
    if changes.len() > 0 {
        let rest = changes.drop_first();
        assert forall|i: int| 0 <= i < rest.len() implies with_ends(#[trigger] rest[i], base, target) is Some by {
            assert(rest[i] == changes[i + 1]);
        }
        law_seen_changes_are_complete(rest, base, target);
        let first = with_ends(changes[0], base, target)->0;
        assert(seen_changes(changes, base, target) == seq![first] + seen_changes(rest, base, target));
        assert forall|i: int| 0 <= i < changes.len() implies Some(#[trigger] seen_changes(changes, base, target)[i])
            == with_ends(changes[i], base, target) by {
            if i > 0 {
                assert(seen_changes(changes, base, target)[i] == seen_changes(rest, base, target)[i - 1]);
                assert(rest[i - 1] == changes[i]);
            }
        }
    }
}

/// A change has the ends that its kind says, as the two snapshots have them: nothing before
/// it where it adds, nothing behind it where it deletes, and otherwise what each snapshot
/// has at its path.
pub proof fn law_changes_have_their_ends(
    change: Changed,
    base: Map<Names, EntryView>,
    target: Map<Names, EntryView>,
)
    ensures
        with_ends(change, base, target) matches Some(view) ==> {
            &&& view.path == change.0
            &&& view.change == change.1
            &&& change.1 is Added ==> view.before is None
            &&& !(change.1 is Added) ==> base.dom().contains(change.0) && view.before == Some(base[change.0])
            &&& change.1 is Deleted ==> view.after is None
            &&& !(change.1 is Deleted) ==> target.dom().contains(change.0) && view.after == Some(target[change.0])
        },
        (change.1 is Added || base.dom().contains(change.0)) && (change.1 is Deleted || target.dom().contains(change.0))
            ==> with_ends(change, base, target) is Some,
{
}

/// One more change than the limit is looked for, so that more than the limit is noticed.
pub proof fn law_one_more_change_is_looked_for(limits: SnapshotDeltaLimits)
    ensures
        limits.max_changed_paths < usize::MAX ==> kept_changes(limits) == limits.max_changed_paths + 1,
        kept_changes(limits) >= limits.max_changed_paths,
{
}

/// Snapshots with the same root do not differ, and no index is read for them.
pub proof fn law_equal_roots_do_not_differ(
    base: handle::Handle,
    target: handle::Handle,
    max_changes: usize,
    before: IndexEvidence,
    after: IndexEvidence,
    told: Result<SnapshotDiff, SnapshotError>,
)
    requires
        base.root_hash == target.root_hash,
        is_difference(base, target, max_changes, before, after, told),
    ensures
        told matches Ok(found) && found.changes@.len() == 0 && found.changed_paths == 0 && !found.truncated
            && found.next_path is None,
{
}

/// A delta is formed only where every change has the ends that it needs.
pub proof fn law_formed_deltas_hold_every_change(
    found: SnapshotDiff,
    limits: SnapshotDeltaLimits,
    policy: SnapshotDeltaPolicy,
    base: Map<Names, EntryView>,
    target: Map<Names, EntryView>,
    failure: SnapshotError,
    result: Result<SnapshotDelta, SnapshotError>,
)
    requires
        is_formed(found, limits, policy, base, target, failure, result),
    ensures
        result matches Ok(delta) ==> {
            let seen = seen_changes(changed_of(found.changes@), base, target);
            &&& seen.len() >= found.changes@.len()
            &&& delta::delta_views(delta.entries@) == seen
            &&& found.changed_paths <= limits.max_changed_paths
            &&& delta.summary.changed_paths == found.changed_paths
        },
{
}

} // verus!
