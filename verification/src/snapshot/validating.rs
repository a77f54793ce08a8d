//! Which contents are compared before and after a delta is applied, within one budget
//! of bytes.

use crate::error::{LimitFault, SnapshotError};
use crate::path;
use crate::path::{Names, RelPath};
use crate::path_map::PathMap;
use crate::snapshot::apply;
use crate::snapshot::apply::{DeltaEvidence, Expectation};
use crate::snapshot::compare;
use crate::snapshot::compare::{collect_subtree, compare_chunk, needs_content, sorted_paths, ContentStep};
use crate::snapshot::delta;
use crate::snapshot::delta::{DeltaView, SnapshotDelta, SnapshotDeltaApplyMode};
use vstd::prelude::*;

verus! {

/// An end of a delta.
#[derive(Clone, Copy, Debug, PartialEq, Eq, Structural)]
pub enum End {
    Base,
    Target,
}

/// A file whose contents are compared with those at one end of a delta.
pub struct Reading {
    pub path: RelPath,
    pub end: End,
}

/// A file whose contents are compared with those at one end of a delta.
pub type ReadingView = (Names, End);

/// What some readings are.
pub open spec fn reading_views(readings: Seq<Reading>) -> Seq<ReadingView> {
    Seq::new(readings.len(), |i: int| (readings[i].path@, readings[i].end))
}

/// Whether an expectation compares the destination with an end at all.
pub open spec fn compares_with(expected: Expectation, end: End) -> bool {
    match end {
        End::Base => expected is Before,
        End::Target => expected != Expectation::Before(SnapshotDeltaApplyMode::Initial),
    }
}

/// Whether the contents at a path are compared with those at one end: both are files,
/// and equally long.
pub open spec fn reads(seen: DeltaEvidence, expected: Expectation, end: End, p: Names) -> bool {
    compares_with(expected, end) && match end {
        End::Base => compare::content_matters(seen.base@, seen.current@, p),
        End::Target => compare::content_matters(seen.target@, seen.current@, p),
    }
}

/// The readings at a path.
pub open spec fn readings_at(seen: DeltaEvidence, expected: Expectation, p: Names) -> Seq<ReadingView> {
    (if reads(seen, expected, End::Base, p) {
        seq![(p, End::Base)]
    } else {
        Seq::empty()
    }) + (if reads(seen, expected, End::Target, p) {
        seq![(p, End::Target)]
    } else {
        Seq::empty()
    })
}

/// The readings at some paths, in order.
pub open spec fn readings_over(seen: DeltaEvidence, expected: Expectation, list: Seq<Names>) -> Seq<ReadingView>
    decreases list.len(),
{
    if list.len() == 0 {
        Seq::empty()
    } else {
        readings_over(seen, expected, list.drop_last()) + readings_at(seen, expected, list.last())
    }
}

/// The list of the paths at or below a root that a tree of the expectation holds.
pub open spec fn lists_below(list: Seq<Names>, seen: DeltaEvidence, expected: Expectation, root: Names) -> bool {
    &&& compare::paths_in_order(list)
    &&& forall|p: Names|
        #[trigger] list.contains(p) <==> path::lies_under(p, root) && apply::held_anywhere(seen, expected, p)
}

/// Whether a list can be cut at a place.
pub open spec fn is_cut(list: Seq<Names>, cut: int) -> bool {
    0 <= cut <= list.len()
}

/// The list of such paths, root by root.
pub open spec fn lists_roots(
    list: Seq<Names>,
    seen: DeltaEvidence,
    expected: Expectation,
    roots: Seq<Names>,
) -> bool
    decreases roots.len(),
{
    if roots.len() == 0 {
        list.len() == 0
    } else {
        exists|cut: int|
            #[trigger] is_cut(list, cut) && lists_roots(list.take(cut), seen, expected, roots.drop_last())
                && lists_below(list.skip(cut), seen, expected, roots.last())
    }
}

/// The list of the paths that are looked at: the changed ones, then all that lies at or
/// below a directory that goes.
pub open spec fn is_looked_at(
    list: Seq<Names>,
    seen: DeltaEvidence,
    expected: Expectation,
    entries: Seq<DeltaView>,
) -> bool {
    &&& list.len() >= entries.len()
    &&& list.take(entries.len() as int) == apply::delta_paths(entries)
    &&& lists_roots(list.skip(entries.len() as int), seen, expected, apply::destructive_roots(entries))
}

/// Whether these are the readings of a validation.
pub open spec fn are_readings(
    readings: Seq<ReadingView>,
    seen: DeltaEvidence,
    expected: Expectation,
    entries: Seq<DeltaView>,
) -> bool {
    exists|list: Seq<Names>|
        #[trigger] is_looked_at(list, seen, expected, entries) && readings == readings_over(seen, expected, list)
}

/// The comparison of contents that a validation makes.
pub struct Validation {
    readings: Vec<Reading>,
    next: usize,
    budget: u64,
    same_as_base: PathMap<u32>,
    same_as_target: PathMap<u32>,
}

/// The comparison of contents that a validation makes: how far it is, the bytes that it
/// may still read, and the paths at which nothing differed.
#[verifier::ext_equal]
pub struct Progress {
    pub readings: Seq<ReadingView>,
    pub next: int,
    pub budget: u64,
    pub same_as_base: Set<Names>,
    pub same_as_target: Set<Names>,
}

impl View for Validation {
    type V = Progress;

    closed spec fn view(&self) -> Progress {
        Progress {
            readings: reading_views(self.readings@),
            next: self.next as int,
            budget: self.budget,
            same_as_base: self.same_as_base@.dom(),
            same_as_target: self.same_as_target@.dom(),
        }
    }
}

/// A comparison whose file was read to its end, or to the first difference.
pub open spec fn settled(before: Progress, is_same: bool) -> Progress {
    let (at, end) = before.readings[before.next];
    let noted = |paths: Set<Names>|
        if is_same {
            paths.insert(at)
        } else {
            paths
        };
    Progress {
        next: before.next + 1,
        same_as_base: if end is Base {
            noted(before.same_as_base)
        } else {
            before.same_as_base
        },
        same_as_target: if end is Target {
            noted(before.same_as_target)
        } else {
            before.same_as_target
        },
        ..before
    }
}

/// Takes the next piece of the two files that are read: every byte counts, and passing
/// the budget fails. Tells whether the file need not be read on.
pub open spec fn piece_taken(before: Progress, left: Seq<u8>, right: Seq<u8>) -> (
    Progress,
    Result<bool, SnapshotError>,
) {
    let bytes = left.len() + right.len();
    if before.next >= before.readings.len() {
        (before, Ok(true))
    } else if bytes > before.budget {
        (before, Err(SnapshotError::LimitExceeded(LimitFault::CompareContentBytes)))
    } else {
        let charged = Progress { budget: (before.budget - bytes) as u64, ..before };
        if left != right {
            (settled(charged, false), Ok(true))
        } else if left.len() == 0 {
            (settled(charged, true), Ok(true))
        } else {
            (charged, Ok(false))
        }
    }
}

/// How far a comparison is after some pieces.
pub open spec fn after_pieces(before: Progress, pieces: Seq<(Seq<u8>, Seq<u8>)>) -> Progress
    decreases pieces.len(),
{
    if pieces.len() == 0 {
        before
    } else {
        piece_taken(after_pieces(before, pieces.drop_last()), pieces.last().0, pieces.last().1).0
    }
}

/// The bytes of some pieces.
pub open spec fn piece_bytes(pieces: Seq<(Seq<u8>, Seq<u8>)>) -> nat
    decreases pieces.len(),
{
    if pieces.len() == 0 {
        0
    } else {
        piece_bytes(pieces.drop_last()) + pieces.last().0.len() + pieces.last().1.len()
    }
}

/// Whether there was a file to read for every one of some pieces, and none failed.
pub open spec fn all_taken(before: Progress, pieces: Seq<(Seq<u8>, Seq<u8>)>) -> bool
    decreases pieces.len(),
{
    pieces.len() == 0 || {
        let so_far = after_pieces(before, pieces.drop_last());
        &&& all_taken(before, pieces.drop_last())
        &&& so_far.next < so_far.readings.len()
        &&& piece_taken(so_far, pieces.last().0, pieces.last().1).1 is Ok
    }
}

/// A validation charges each byte that it reads, once for each time, and nothing else:
/// the next piece passes the limit exactly where all pieces together do.
pub proof fn law_limit_counts_every_byte(
    start: Progress,
    pieces: Seq<(Seq<u8>, Seq<u8>)>,
    left: Seq<u8>,
    right: Seq<u8>,
)
    requires
        all_taken(start, pieces),
        after_pieces(start, pieces).next < start.readings.len(),
    ensures
        piece_bytes(pieces) <= start.budget,
        after_pieces(start, pieces).budget == start.budget - piece_bytes(pieces),
        piece_taken(after_pieces(start, pieces), left, right).1 is Err <==> piece_bytes(pieces) + left.len()
            + right.len() > start.budget,
        piece_taken(after_pieces(start, pieces), left, right).1 matches Err(error) ==> error
            == SnapshotError::LimitExceeded(LimitFault::CompareContentBytes),
{
    lemma_charged(start, pieces);
}

proof fn lemma_charged(start: Progress, pieces: Seq<(Seq<u8>, Seq<u8>)>)
    requires
        all_taken(start, pieces),
    ensures
        piece_bytes(pieces) <= start.budget,
        after_pieces(start, pieces).budget == start.budget - piece_bytes(pieces),
        after_pieces(start, pieces).readings == start.readings,
    decreases pieces.len(),
{
    if pieces.len() > 0 {
        lemma_charged(start, pieces.drop_last());
    }
}

/// A validation reads only files that changed or lie at or below a directory that goes,
/// and only where the destination has a file of the same length.
pub proof fn law_only_touched_files_are_read(
    readings: Seq<ReadingView>,
    seen: DeltaEvidence,
    expected: Expectation,
    entries: Seq<DeltaView>,
    i: int,
)
    requires
        are_readings(readings, seen, expected, entries),
        0 <= i < readings.len(),
    ensures
        reads(seen, expected, readings[i].1, readings[i].0),
        apply::delta_paths(entries).contains(readings[i].0) || exists|r: int|
            0 <= r < apply::destructive_roots(entries).len() && path::lies_under(
                readings[i].0,
                #[trigger] apply::destructive_roots(entries)[r],
            ),
{
    let list = choose|list: Seq<Names>|
        #[trigger] is_looked_at(list, seen, expected, entries) && readings == readings_over(seen, expected, list);
    lemma_reading_is_listed(seen, expected, list, i);
    let at = readings[i].0;
    let k = choose|k: int| 0 <= k < list.len() && list[k] == at;
    let n = entries.len() as int;
    if k < n {
        assert(list.take(n)[k] == at);
        assert(apply::delta_paths(entries).contains(at));
    } else {
        let rest = list.skip(n);
        assert(rest[k - n] == at);
        lemma_roots_cover(rest, seen, expected, apply::destructive_roots(entries), k - n);
    }
}

proof fn lemma_reading_is_listed(seen: DeltaEvidence, expected: Expectation, list: Seq<Names>, i: int)
    requires
        0 <= i < readings_over(seen, expected, list).len(),
    ensures
        list.contains(readings_over(seen, expected, list)[i].0),
        reads(
            seen,
            expected,
            readings_over(seen, expected, list)[i].1,
            readings_over(seen, expected, list)[i].0,
        ),
    decreases list.len(),
{
    let before = list.drop_last();
    let earlier = readings_over(seen, expected, before);
    if i < earlier.len() {
        lemma_reading_is_listed(seen, expected, before, i);
        let k = choose|k: int| 0 <= k < before.len() && before[k] == earlier[i].0;
        assert(list[k] == earlier[i].0);
    } else {
        assert(list[list.len() - 1] == list.last());
        let here = readings_at(seen, expected, list.last());
        assert(readings_over(seen, expected, list)[i] == here[i - earlier.len()]);
    }
}

proof fn lemma_roots_cover(list: Seq<Names>, seen: DeltaEvidence, expected: Expectation, roots: Seq<Names>, k: int)
    requires
        lists_roots(list, seen, expected, roots),
        0 <= k < list.len(),
    ensures
        exists|r: int| 0 <= r < roots.len() && path::lies_under(list[k], #[trigger] roots[r]),
    decreases roots.len(),
{
    let cut = choose|cut: int|
        #[trigger] is_cut(list, cut) && lists_roots(list.take(cut), seen, expected, roots.drop_last())
            && lists_below(list.skip(cut), seen, expected, roots.last());
    if k < cut {
        lemma_roots_cover(list.take(cut), seen, expected, roots.drop_last(), k);
        let r = choose|r: int|
            0 <= r < roots.drop_last().len() && path::lies_under(
                list.take(cut)[k],
                #[trigger] roots.drop_last()[r],
            );
        assert(path::lies_under(list[k], roots[r]));
    } else {
        assert(list.skip(cut)[k - cut] == list[k]);
        assert(list.skip(cut).contains(list[k]));
        assert(path::lies_under(list[k], roots[roots.len() - 1]));
    }
}

fn push_copies(list: &mut Vec<RelPath>, more: &Vec<RelPath>)
    ensures
        path::path_views(final(list)@) == path::path_views(old(list)@) + path::path_views(more@),
{
    let ghost start = path::path_views(list@);
    let ghost added = path::path_views(more@);
    let mut i: usize = 0;
    proof {
        assert(start + added.take(0) =~= start);
    }
    while i < more.len()
        invariant
            i <= more@.len(),
            added == path::path_views(more@),
            path::path_views(list@) == start + added.take(i as int),
        decreases more@.len() - i,
    {
        let ghost so_far = path::path_views(list@);
        let copied = more[i].copy();
        let ghost view = copied@;
        list.push(copied);
        proof {
            assert(path::path_views(list@) =~= so_far.push(view));
            assert(start + added.take(i as int + 1) =~= (start + added.take(i as int)).push(added[i as int]));
        }
        i = i + 1;
    }
    proof {
        assert(added.take(i as int) =~= added);
    }
}

impl SnapshotDelta {
    /// Lists the paths that a validation looks at.
    fn looked_at(&self, seen: &DeltaEvidence, expected: Expectation) -> (list: Vec<RelPath>)
        requires
            seen.wf(),
        ensures
            is_looked_at(path::path_views(list@), *seen, expected, delta::delta_views(self.entries@)),
    {
        let ghost views = delta::delta_views(self.entries@);
        let ghost changed = apply::delta_paths(views);
        let mut list: Vec<RelPath> = Vec::new();
        let mut i: usize = 0;
        proof {
            assert(path::path_views(list@) =~= changed.take(0));
        }
        while i < self.entries.len()
            invariant
                i <= self.entries@.len(),
                views == delta::delta_views(self.entries@),
                changed == apply::delta_paths(views),
                path::path_views(list@) == changed.take(i as int),
            decreases self.entries@.len() - i,
        {
            let ghost so_far = path::path_views(list@);
            let copied = self.entries[i].change.path.copy();
            let ghost view = copied@;
            list.push(copied);
            proof {
                assert(path::path_views(list@) =~= so_far.push(view));
                assert(changed.take(i as int + 1) =~= changed.take(i as int).push(changed[i as int]));
            }
            i = i + 1;
        }
        let ghost n = changed.len() as int;
        proof {
            assert(changed.take(i as int) =~= changed);
        }
        let roots = self.destructive_directory_roots();
        let ghost tops = path::path_views(roots@);
        let mut k: usize = 0;
        proof {
            assert(tops.take(0) =~= Seq::<Names>::empty());
            assert(path::path_views(list@).take(n) =~= changed);
        }
        while k < roots.len()
            invariant
                seen.wf(),
                k <= roots@.len(),
                tops == path::path_views(roots@),
                n == changed.len(),
                path::path_views(list@).len() >= n,
                path::path_views(list@).take(n) == changed,
                lists_roots(path::path_views(list@).skip(n), *seen, expected, tops.take(k as int)),
            decreases roots@.len() - k,
        {
            let mut sorted: PathMap<u32> = PathMap::new();
            match expected {
                Expectation::Before(_) => {
                    collect_subtree(&seen.base, &roots[k], &mut sorted);
                },
                Expectation::After => {},
            }
            collect_subtree(&seen.target, &roots[k], &mut sorted);
            collect_subtree(&seen.current, &roots[k], &mut sorted);
            let below = sorted_paths(&sorted);
            let ghost before = path::path_views(list@);
            let ghost added = path::path_views(below@);
            proof {
                assert forall|p: Names| #[trigger] added.contains(p) implies path::lies_under(p, tops[k as int])
                    && apply::held_anywhere(*seen, expected, p) by {
                    assert(sorted@.dom().contains(p));
                }
                assert forall|p: Names|
                    path::lies_under(p, tops[k as int]) && apply::held_anywhere(
                        *seen,
                        expected,
                        p,
                    ) implies #[trigger] added.contains(p) by {
                    assert(sorted@.dom().contains(p));
                }
                assert(lists_below(added, *seen, expected, tops[k as int]));
            }
            push_copies(&mut list, &below);
            proof {
                let whole = path::path_views(list@);
                let rest = whole.skip(n);
                let cut = before.len() - n;
                assert(whole.take(n) =~= before.take(n));
                assert(rest.take(cut) =~= before.skip(n));
                assert(rest.skip(cut) =~= added);
                assert(tops.take(k as int + 1).drop_last() =~= tops.take(k as int));
                assert(tops.take(k as int + 1).last() == tops[k as int]);
                assert(is_cut(rest, cut));
            }
            k = k + 1;
        }
        proof {
            assert(tops.take(k as int) =~= tops);
        }
        list
    }

    /// Lists the contents that a validation compares, in order.
    fn content_readings(&self, seen: &DeltaEvidence, expected: Expectation) -> (readings: Vec<Reading>)
        requires
            seen.wf(),
        ensures
            are_readings(reading_views(readings@), *seen, expected, delta::delta_views(self.entries@)),
    {
        let list = self.looked_at(seen, expected);
        let ghost paths = path::path_views(list@);
        let with_base = match expected {
            Expectation::Before(_) => true,
            Expectation::After => false,
        };
        let with_target = match expected {
            Expectation::Before(SnapshotDeltaApplyMode::Initial) => false,
            _ => true,
        };
        let mut readings: Vec<Reading> = Vec::new();
        let mut i: usize = 0;
        proof {
            assert(paths.take(0) =~= Seq::<Names>::empty());
            assert(reading_views(readings@) =~= Seq::<ReadingView>::empty());
        }
        while i < list.len()
            invariant
                seen.wf(),
                i <= list@.len(),
                paths == path::path_views(list@),
                with_base == compares_with(expected, End::Base),
                with_target == compares_with(expected, End::Target),
                reading_views(readings@) == readings_over(*seen, expected, paths.take(i as int)),
            decreases list@.len() - i,
        {
            let ghost so_far = reading_views(readings@);
            let ghost here = paths[i as int];
            let ghost first: Seq<ReadingView> = if reads(*seen, expected, End::Base, here) {
                seq![(here, End::Base)]
            } else {
                Seq::empty()
            };
            if with_base && needs_content(&seen.base, &seen.current, &list[i]) {
                readings.push(Reading { path: list[i].copy(), end: End::Base });
            }
            proof {
                assert(reading_views(readings@) =~= so_far + first);
            }
            if with_target && needs_content(&seen.target, &seen.current, &list[i]) {
                readings.push(Reading { path: list[i].copy(), end: End::Target });
            }
            proof {
                assert(reading_views(readings@) =~= so_far + readings_at(*seen, expected, here));
                assert(paths.take(i as int + 1).drop_last() =~= paths.take(i as int));
                assert(paths.take(i as int + 1).last() == here);
            }
            i = i + 1;
        }
        proof {
            assert(paths.take(i as int) =~= paths);
        }
        readings
    }

    /// Begins to compare the contents that a validation depends on.
    pub fn begin_validation(&self, seen: &DeltaEvidence, expected: Expectation) -> (validation: Validation)
        requires
            seen.wf(),
        ensures
            validation.wf(),
            are_readings(validation@.readings, *seen, expected, delta::delta_views(self.entries@)),
            validation@ == (Progress {
                readings: validation@.readings,
                next: 0,
                budget: self.limits.max_compared_bytes,
                same_as_base: Set::empty(),
                same_as_target: Set::empty(),
            }),
    {
        let validation = Validation {
            readings: self.content_readings(seen, expected),
            next: 0,
            budget: self.limits.max_compared_bytes,
            same_as_base: PathMap::new(),
            same_as_target: PathMap::new(),
        };
        proof {
            assert(validation.same_as_base@.dom() =~= Set::<Names>::empty());
            assert(validation.same_as_target@.dom() =~= Set::<Names>::empty());
        }
        validation
    }
}

impl Validation {
    /// The maps stand in order.
    pub closed spec fn wf(&self) -> bool {
        self.same_as_base.wf() && self.same_as_target.wf()
    }

    /// The file to read on; none where all were read.
    pub fn next_reading(&self) -> (next: Option<&Reading>)
        ensures
            match next {
                Some(reading) => self@.next < self@.readings.len() && (reading.path@, reading.end)
                    == self@.readings[self@.next],
                None => self@.next >= self@.readings.len(),
            },
    {
        if self.next < self.readings.len() {
            Some(&self.readings[self.next])
        } else {
            None
        }
    }

    /// Compares the next piece of the file that is read with that of its end, and tells
    /// whether the file need not be read on. A piece without bytes on both sides is the
    /// end of both.
    pub fn compare_piece(&mut self, left: &[u8], right: &[u8]) -> (result: Result<bool, SnapshotError>)
        requires
            old(self).wf(),
        ensures
            final(self).wf(),
            (final(self)@, result) == piece_taken(old(self)@, left@, right@),
    {
        if self.next >= self.readings.len() {
            return Ok(true);
        }
        let step = match compare_chunk(&mut self.budget, left, right) {
            Ok(step) => step,
            Err(error) => {
                return Err(error);
            },
        };
        let is_same = match step {
            ContentStep::More => {
                return Ok(false);
            },
            ContentStep::Same => true,
            ContentStep::Different => false,
        };
        let at = self.readings[self.next].path.copy();
        let end = self.readings[self.next].end;
        if is_same {
            match end {
                End::Base => {
                    self.same_as_base.insert(at, 1);
                },
                End::Target => {
                    self.same_as_target.insert(at, 1);
                },
            }
        }
        self.next = self.next + 1;
        proof {
            assert(self@ =~= piece_taken(old(self)@, left@, right@).0);
        }
        Ok(true)
    }

    /// What was seen, with the paths whose contents are the same.
    pub fn finish(self, seen: DeltaEvidence) -> (complete: DeltaEvidence)
        requires
            self.wf(),
            seen.wf(),
        ensures
            complete.wf(),
            complete.base == seen.base,
            complete.target == seen.target,
            complete.current == seen.current,
            complete.same_as_base@.dom() == self@.same_as_base,
            complete.same_as_target@.dom() == self@.same_as_target,
    {
        DeltaEvidence { same_as_base: self.same_as_base, same_as_target: self.same_as_target, ..seen }
    }
}

/// Contents are read of files alone that have the same length as the file at an end: of the
/// base before a first apply, of both ends before one is resumed, and of the target after
/// everything was written.
pub proof fn law_contents_are_read_where_they_matter(seen: DeltaEvidence, p: Names)
    ensures
        ({
            let reads = |expected: Expectation, end: End| reads(seen, expected, end, p);
            let first = Expectation::Before(SnapshotDeltaApplyMode::Initial);
            let again = Expectation::Before(SnapshotDeltaApplyMode::Resume);
            let alike = |stock: Map<Names, crate::snapshot::inventory::Stamp>|
                stock.dom().contains(p) && seen.current@.dom().contains(p) && stock[p].kind is File
                    && seen.current@[p].kind is File && stock[p].len == seen.current@[p].len;
            &&& reads(first, End::Base) <==> alike(seen.base@)
            &&& !reads(first, End::Target)
            &&& reads(again, End::Base) <==> alike(seen.base@)
            &&& reads(again, End::Target) <==> alike(seen.target@)
            &&& !reads(Expectation::After, End::Base)
            &&& reads(Expectation::After, End::Target) <==> alike(seen.target@)
        }),
{
}

/// Two contents are told to be the same exactly where every piece of them was the same and
/// both ended together: then the path is noted at the end that it was compared with, and
/// nowhere else; where a piece differs nothing is noted. Either way the next one follows.
pub proof fn law_same_contents_are_noted(before: Progress, left: Seq<u8>, right: Seq<u8>)
    requires
        0 <= before.next < before.readings.len(),
        left.len() + right.len() <= before.budget,
    ensures
        ({
            let (at, end) = before.readings[before.next];
            let (after, told) = piece_taken(before, left, right);
            let ended = left == right && left.len() == 0;
            &&& told == Ok::<bool, SnapshotError>(left != right || left.len() == 0)
            &&& after.readings == before.readings
            &&& left == right && left.len() > 0 ==> after.next == before.next && after.same_as_base == before.same_as_base
                && after.same_as_target == before.same_as_target
            &&& left != right ==> after.next == before.next + 1 && after.same_as_base == before.same_as_base
                && after.same_as_target == before.same_as_target
            &&& ended && end is Base ==> after.next == before.next + 1 && after.same_as_base
                == before.same_as_base.insert(at) && after.same_as_target == before.same_as_target
            &&& ended && end is Target ==> after.next == before.next + 1 && after.same_as_target
                == before.same_as_target.insert(at) && after.same_as_base == before.same_as_base
        }),
{
}

proof fn lemma_every_reading_is_listed(seen: DeltaEvidence, expected: Expectation, list: Seq<Names>, i: int, end: End)
    requires
        0 <= i < list.len(),
        reads(seen, expected, end, list[i]),
    ensures
        readings_over(seen, expected, list).contains((list[i], end)),
    decreases list.len(),
{
    let rest = readings_over(seen, expected, list.drop_last());
    let here = readings_at(seen, expected, list.last());
    let all = rest + here;
    if i == list.len() - 1 {
        let first = if reads(seen, expected, End::Base, list.last()) {
            seq![(list.last(), End::Base)]
        } else {
            Seq::<ReadingView>::empty()
        };
        let k = if end is Base {
            0int
        } else {
            first.len() as int
        };
        assert(here[k] == (list[i], end));
        assert(all[rest.len() + k] == (list[i], end));
    } else {
        assert(list.drop_last()[i] == list[i]);
        lemma_every_reading_is_listed(seen, expected, list.drop_last(), i, end);
        let k = choose|k: int| 0 <= k < rest.len() && rest[k] == (list[i], end);
        assert(all[k] == (list[i], end));
    }
}

/// Every changed file whose content matters is read.
pub proof fn law_every_changed_file_is_read(
    readings: Seq<ReadingView>,
    seen: DeltaEvidence,
    expected: Expectation,
    entries: Seq<DeltaView>,
    i: int,
    end: End,
)
    requires
        are_readings(readings, seen, expected, entries),
        0 <= i < entries.len(),
        reads(seen, expected, end, entries[i].path),
    ensures
        readings.contains((entries[i].path, end)),
{
    let list = choose|list: Seq<Names>|
        #[trigger] is_looked_at(list, seen, expected, entries) && readings == readings_over(seen, expected, list);
    assert(list.take(entries.len() as int)[i] == apply::delta_paths(entries)[i]);
    assert(list[i] == entries[i].path);
    lemma_every_reading_is_listed(seen, expected, list, i, end);
}

} // verus!
