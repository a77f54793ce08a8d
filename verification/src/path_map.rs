//! Ordered maps keyed by relative paths.
//!
//! Entries are kept in the order of their paths, each path once.

use crate::path;
use crate::path::{Names, RelPath};
use vstd::prelude::*;

verus! {

/// Paths with their values, as a map lists them.
pub type Entries<V> = Seq<(Names, V)>;

/// The paths stand in order, each once.
pub open spec fn in_order<V>(entries: Entries<V>) -> bool {
    forall|i: int, j: int|
        0 <= i < j < entries.len() ==> path::path_before(#[trigger] entries[i].0, #[trigger] entries[j].0)
}

/// Whether some entry has the path.
pub open spec fn has_path<V>(entries: Entries<V>, path: Names) -> bool {
    exists|i: int| 0 <= i < entries.len() && #[trigger] entries[i].0 == path
}

/// The place of the entry with the path.
pub open spec fn place_of<V>(entries: Entries<V>, path: Names) -> int {
    choose|i: int| 0 <= i < entries.len() && #[trigger] entries[i].0 == path
}

/// What the entries map each path to.
pub open spec fn entry_map<V>(entries: Entries<V>) -> Map<Names, V> {
    Map::new(|path: Names| has_path(entries, path), |path: Names| entries[place_of(entries, path)].1)
}

/// The entries that do not lie at or below a root.
pub open spec fn outside_of<V>(entries: Entries<V>, root: Names) -> Entries<V> {
    entries.filter(|entry: (Names, V)| !path::lies_under(entry.0, root))
}

/// In an ordered list each path has one place.
pub proof fn lemma_place_unique<V>(entries: Entries<V>, i: int, j: int)
    requires
        in_order(entries),
        0 <= i < entries.len(),
        0 <= j < entries.len(),
        entries[i].0 == entries[j].0,
    ensures
        i == j,
{
    path::lemma_path_irreflexive(entries[i].0);
    if i < j {
        assert(path::path_before(entries[i].0, entries[j].0));
    }
    if j < i {
        assert(path::path_before(entries[j].0, entries[i].0));
    }
}

/// The map holds each listed value under its path.
pub proof fn lemma_entry_at<V>(entries: Entries<V>, i: int)
    requires
        in_order(entries),
        0 <= i < entries.len(),
    ensures
        entry_map(entries).dom().contains(entries[i].0),
        entry_map(entries)[entries[i].0] == entries[i].1,
{
    assert(has_path(entries, entries[i].0));
    lemma_place_unique(entries, i, place_of(entries, entries[i].0));
}

/// Replacing one value replaces what its path maps to.
pub proof fn lemma_update<V>(entries: Entries<V>, at: int, value: V)
    requires
        in_order(entries),
        0 <= at < entries.len(),
    ensures
        in_order(entries.update(at, (entries[at].0, value))),
        entry_map(entries.update(at, (entries[at].0, value))) == entry_map(entries).insert(
            entries[at].0,
            value,
        ),
{
    let next = entries.update(at, (entries[at].0, value));
    assert forall|i: int| 0 <= i < entries.len() implies #[trigger] next[i].0 == entries[i].0 by {}
    assert(in_order(next)) by {
        assert forall|i: int, j: int| 0 <= i < j < next.len() implies path::path_before(
            #[trigger] next[i].0,
            #[trigger] next[j].0,
        ) by {
            assert(path::path_before(entries[i].0, entries[j].0));
        }
    }
    let expected = entry_map(entries).insert(entries[at].0, value);
    assert forall|path: Names| entry_map(next).dom().contains(path) <==> expected.dom().contains(path) by {
        if has_path(next, path) {
            let i = place_of(next, path);
            assert(entries[i].0 == path);
        }
        if has_path(entries, path) {
            let i = place_of(entries, path);
            assert(next[i].0 == path);
        }
        assert(next[at].0 == entries[at].0);
    }
    assert forall|path: Names| #[trigger] entry_map(next).dom().contains(path) implies entry_map(next)[path]
        == expected[path] by {
        let i = place_of(next, path);
        lemma_entry_at(next, i);
        lemma_entry_at(entries, i);
        if path == entries[at].0 {
            lemma_place_unique(entries, i, at);
        }
    }
    assert(entry_map(next) =~= expected);
}

/// Listing one more path in its place adds it to the map.
pub proof fn lemma_insert<V>(entries: Entries<V>, at: int, path: Names, value: V)
    requires
        in_order(entries),
        0 <= at <= entries.len(),
        forall|i: int| 0 <= i < at ==> path::path_before(#[trigger] entries[i].0, path),
        forall|i: int| at <= i < entries.len() ==> path::path_before(path, #[trigger] entries[i].0),
    ensures
        in_order(entries.insert(at, (path, value))),
        !entry_map(entries).dom().contains(path),
        entry_map(entries.insert(at, (path, value))) == entry_map(entries).insert(path, value),
{
    let next = entries.insert(at, (path, value));
    path::lemma_path_irreflexive(path);
    assert(in_order(next)) by {
        assert forall|i: int, j: int| 0 <= i < j < next.len() implies path::path_before(
            #[trigger] next[i].0,
            #[trigger] next[j].0,
        ) by {
            let old_i = if i < at { i } else { i - 1 };
            let old_j = if j < at { j } else { j - 1 };
            if i != at && j != at {
                assert(path::path_before(entries[old_i].0, entries[old_j].0));
            }
        }
    }
    let expected = entry_map(entries).insert(path, value);
    assert forall|p: Names| entry_map(next).dom().contains(p) <==> expected.dom().contains(p) by {
        if has_path(next, p) {
            let i = place_of(next, p);
            if i < at {
                assert(entries[i].0 == p);
            } else if i > at {
                assert(entries[i - 1].0 == p);
            }
        }
        if has_path(entries, p) {
            let i = place_of(entries, p);
            if i < at {
                assert(next[i].0 == p);
            } else {
                assert(next[i + 1].0 == p);
            }
        }
        assert(next[at].0 == path);
    }
    assert forall|p: Names| #[trigger] entry_map(next).dom().contains(p) implies entry_map(next)[p]
        == expected[p] by {
        let i = place_of(next, p);
        lemma_entry_at(next, i);
        if i < at {
            lemma_entry_at(entries, i);
        } else if i > at {
            lemma_entry_at(entries, i - 1);
        }
    }
    assert(entry_map(next) =~= expected);
    if has_path(entries, path) {
        let i = place_of(entries, path);
        assert(entries[i].0 == path);
    }
}

/// What passes a filter was listed, and what was listed and is kept passes.
pub proof fn lemma_filter_members<A>(s: Seq<A>, keep: spec_fn(A) -> bool)
    ensures
        forall|x: A| #[trigger] s.filter(keep).contains(x) ==> s.contains(x) && keep(x),
        forall|x: A| #[trigger] s.contains(x) && keep(x) ==> s.filter(keep).contains(x),
    decreases s.len(),
{
    reveal(Seq::filter);
    if s.len() > 0 {
        lemma_filter_members(s.drop_last(), keep);
        let rest = s.drop_last().filter(keep);
        assert forall|x: A| s.filter(keep).contains(x) <==> (s.contains(x) && keep(x)) by {
            assert(s.contains(x) <==> (s.drop_last().contains(x) || x == s.last())) by {
                if s.contains(x) {
                    let i = choose|i: int| 0 <= i < s.len() && s[i] == x;
                    if i < s.len() - 1 {
                        assert(s.drop_last()[i] == x);
                    }
                }
                if s.drop_last().contains(x) {
                    let i = choose|i: int| 0 <= i < s.drop_last().len() && s.drop_last()[i] == x;
                    assert(s[i] == x);
                }
                assert(s[s.len() - 1] == s.last());
            }
            if keep(s.last()) {
                let all = rest.push(s.last());
                assert(s.filter(keep) == all);
                assert(all.contains(x) <==> (rest.contains(x) || x == s.last())) by {
                    if all.contains(x) {
                        let i = choose|i: int| 0 <= i < all.len() && all[i] == x;
                        if i < rest.len() {
                            assert(rest[i] == x);
                        }
                    }
                    if rest.contains(x) {
                        let i = choose|i: int| 0 <= i < rest.len() && rest[i] == x;
                        assert(all[i] == x);
                    }
                    assert(all[rest.len() as int] == s.last());
                }
            }
        }
    }
}

/// A filter keeps the order, and maps each kept path to what it mapped to.
pub proof fn lemma_filter_in_order<V>(entries: Entries<V>, keep: spec_fn((Names, V)) -> bool)
    requires
        in_order(entries),
    ensures
        in_order(entries.filter(keep)),
    decreases entries.len(),
{
    reveal(Seq::filter);
    if entries.len() > 0 {
        let rest = entries.drop_last();
        assert forall|i: int, j: int| 0 <= i < j < rest.len() implies path::path_before(
            #[trigger] rest[i].0,
            #[trigger] rest[j].0,
        ) by {
            assert(path::path_before(entries[i].0, entries[j].0));
        }
        lemma_filter_in_order(rest, keep);
        lemma_filter_members(rest, keep);
        let kept = rest.filter(keep);
        if keep(entries.last()) {
            let next = kept.push(entries.last());
            assert forall|i: int, j: int| 0 <= i < j < next.len() implies path::path_before(
                #[trigger] next[i].0,
                #[trigger] next[j].0,
            ) by {
                if j == kept.len() {
                    assert(kept.contains(kept[i]));
                    let k = choose|k: int| 0 <= k < rest.len() && rest[k] == kept[i];
                    assert(path::path_before(entries[k].0, entries[entries.len() - 1].0));
                } else {
                    assert(path::path_before(kept[i].0, kept[j].0));
                }
            }
        }
    }
}

/// Leaving out what lies at or below a root leaves the rest of the map alone.
pub proof fn lemma_outside_of_map<V>(entries: Entries<V>, root: Names)
    requires
        in_order(entries),
    ensures
        in_order(outside_of(entries, root)),
        forall|path: Names|
            #[trigger] entry_map(outside_of(entries, root)).dom().contains(path) <==> (entry_map(
                entries,
            ).dom().contains(path) && !path::lies_under(path, root)),
        forall|path: Names| #[trigger]
            entry_map(outside_of(entries, root)).dom().contains(path) ==> entry_map(
                outside_of(entries, root),
            )[path] == entry_map(entries)[path],
{
    let keep = |entry: (Names, V)| !path::lies_under(entry.0, root);
    let kept = outside_of(entries, root);
    lemma_filter_in_order(entries, keep);
    lemma_filter_members(entries, keep);
    assert forall|path: Names| #[trigger] entry_map(kept).dom().contains(path) implies entry_map(
        entries,
    ).dom().contains(path) && !path::lies_under(path, root) && entry_map(kept)[path] == entry_map(entries)[path] by {
        let i = place_of(kept, path);
        assert(kept.contains(kept[i]));
        let k = choose|k: int| 0 <= k < entries.len() && entries[k] == kept[i];
        lemma_entry_at(kept, i);
        lemma_entry_at(entries, k);
    }
    assert forall|path: Names|
        entry_map(entries).dom().contains(path) && !path::lies_under(path, root) implies #[trigger] entry_map(
        kept,
    ).dom().contains(path) by {
        let k = place_of(entries, path);
        assert(entries.contains(entries[k]));
        assert(kept.contains(entries[k]));
        let i = choose|i: int| 0 <= i < kept.len() && kept[i] == entries[k];
        assert(kept[i].0 == path);
    }
}

/// Two ordered lists of the same paths list them alike.
pub proof fn lemma_same_paths_listed_alike<A, B>(a: Entries<A>, b: Entries<B>)
    requires
        in_order(a),
        in_order(b),
        forall|path: Names| #[trigger] has_path(a, path) <==> #[trigger] has_path(b, path),
    ensures
        a.len() == b.len(),
        forall|i: int| 0 <= i < a.len() ==> (#[trigger] a[i]).0 == (#[trigger] b[i]).0,
    decreases a.len(),
{
    if a.len() == 0 {
        if b.len() > 0 {
            assert(has_path(b, b[0].0));
            assert(has_path(a, b[0].0));
        }
    } else if b.len() == 0 {
        assert(has_path(a, a[0].0));
        assert(has_path(b, a[0].0));
    } else {
        let last_a = a[a.len() - 1].0;
        let last_b = b[b.len() - 1].0;
        assert(has_path(a, last_a));
        assert(has_path(b, last_a));
        assert(has_path(b, last_b));
        assert(has_path(a, last_b));
        let i = place_of(b, last_a);
        let j = place_of(a, last_b);
        if i < b.len() - 1 && j < a.len() - 1 {
            assert(path::path_before(b[i].0, b[b.len() - 1].0));
            assert(path::path_before(a[j].0, a[a.len() - 1].0));
            path::lemma_path_transitive(last_a, last_b, last_a);
            path::lemma_path_irreflexive(last_a);
        }
        assert(last_a == last_b);
        let rest_a = a.drop_last();
        let rest_b = b.drop_last();
        lemma_drop_last_in_order(a);
        lemma_drop_last_in_order(b);
        assert forall|path: Names| #[trigger] has_path(rest_a, path) <==> #[trigger] has_path(rest_b, path) by {
            lemma_drop_last_paths(a, path);
            lemma_drop_last_paths(b, path);
            assert(has_path(a, path) <==> has_path(b, path));
        }
        lemma_same_paths_listed_alike(rest_a, rest_b);
        assert forall|k: int| 0 <= k < a.len() implies (#[trigger] a[k]).0 == (#[trigger] b[k]).0 by {
            if k < a.len() - 1 {
                assert(rest_a[k].0 == rest_b[k].0);
            }
        }
    }
}

/// Dropping the last entry keeps the order.
pub proof fn lemma_drop_last_in_order<V>(entries: Entries<V>)
    requires
        in_order(entries),
        entries.len() > 0,
    ensures
        in_order(entries.drop_last()),
{
    let rest = entries.drop_last();
    assert forall|i: int, j: int| 0 <= i < j < rest.len() implies path::path_before(
        #[trigger] rest[i].0,
        #[trigger] rest[j].0,
    ) by {
        assert(path::path_before(entries[i].0, entries[j].0));
    }
}

proof fn lemma_drop_last_paths<V>(entries: Entries<V>, path: Names)
    requires
        in_order(entries),
        entries.len() > 0,
    ensures
        has_path(entries.drop_last(), path) <==> (has_path(entries, path) && path != entries.last().0),
{
    let rest = entries.drop_last();
    if has_path(rest, path) {
        let i = place_of(rest, path);
        assert(entries[i].0 == path);
        if path == entries.last().0 {
            lemma_place_unique(entries, i, entries.len() - 1);
        }
    }
    if has_path(entries, path) && path != entries.last().0 {
        let i = place_of(entries, path);
        assert(i < entries.len() - 1);
        assert(rest[i].0 == path);
    }
}

/// One map has one ordered list.
pub proof fn lemma_map_lists_once<V>(a: Entries<V>, b: Entries<V>)
    requires
        in_order(a),
        in_order(b),
        entry_map(a) == entry_map(b),
    ensures
        a == b,
{
    assert forall|p: Names| #[trigger] has_path(a, p) <==> #[trigger] has_path(b, p) by {
        assert(entry_map(a).dom().contains(p) == has_path(a, p));
        assert(entry_map(b).dom().contains(p) == has_path(b, p));
    }
    lemma_same_paths_listed_alike(a, b);
    assert forall|i: int| 0 <= i < a.len() implies a[i] == b[i] by {
        lemma_entry_at(a, i);
        lemma_entry_at(b, i);
        assert(a[i].0 == b[i].0);
    }
    assert(a =~= b);
}

/// A value that can be made again.
pub trait Duplicate: View + Sized {
    /// A second value that stands for the same.
    fn duplicate(&self) -> (result: Self)
        ensures
            result@ == self@,
    ;
}

impl Duplicate for u32 {
    fn duplicate(&self) -> (result: Self) {
        *self
    }
}

struct Slot<V> {
    path: RelPath,
    value: V,
}

/// A map from relative paths to values, in the order of the paths.
pub struct PathMap<V> {
    slots: Vec<Slot<V>>,
}

impl<V: View> PathMap<V> {
    /// The paths with what their values stand for, in order.
    pub closed spec fn entries(&self) -> Entries<V::V> {
        Seq::new(self.slots@.len(), |i: int| (self.slots@[i].path@, self.slots@[i].value@))
    }

    /// The paths stand in order, each once.
    pub open spec fn wf(&self) -> bool {
        in_order(self.entries())
    }
}

impl<V: View> View for PathMap<V> {
    type V = Map<Names, V::V>;

    open spec fn view(&self) -> Map<Names, V::V> {
        entry_map(self.entries())
    }
}

impl<V: View> PathMap<V> {
    /// The map without entries.
    pub fn new() -> (map: PathMap<V>)
        ensures
            map.wf(),
            map.entries() == Entries::<V::V>::empty(),
            map@ == Map::<Names, V::V>::empty(),
    {
        let map = PathMap { slots: Vec::new() };
        proof {
            assert(map.entries() =~= Entries::<V::V>::empty());
            assert(map@ =~= Map::<Names, V::V>::empty());
        }
        map
    }

    /// The number of entries.
    pub fn len(&self) -> (len: usize)
        ensures
            len == self.entries().len(),
    {
        self.slots.len()
    }

    /// The path of one entry.
    pub fn path_at(&self, index: usize) -> (path: &RelPath)
        requires
            index < self.entries().len(),
        ensures
            path@ == self.entries()[index as int].0,
    {
        &self.slots[index].path
    }

    /// The value of one entry.
    pub fn value_at(&self, index: usize) -> (value: &V)
        requires
            index < self.entries().len(),
        ensures
            value@ == self.entries()[index as int].1,
    {
        &self.slots[index].value
    }

    /// Where a path stands, or where it would have to be listed.
    fn locate(&self, path: &RelPath) -> (result: (bool, usize))
        requires
            self.wf(),
        ensures
            result.1 <= self.entries().len(),
            result.0 ==> result.1 < self.entries().len() && self.entries()[result.1 as int].0 == path@,
            !result.0 ==> {
                &&& forall|i: int| 0 <= i < result.1 ==> path::path_before(#[trigger] self.entries()[i].0, path@)
                &&& forall|i: int|
                    result.1 <= i < self.entries().len() ==> path::path_before(
                        path@,
                        #[trigger] self.entries()[i].0,
                    )
                &&& !has_path(self.entries(), path@)
            },
    {
        let mut low: usize = 0;
        let mut high: usize = self.slots.len();
        let ghost listed = self.entries();
        while low < high
            invariant
                low <= high <= self.slots@.len(),
                listed == self.entries(),
                listed.len() == self.slots@.len(),
                in_order(listed),
                forall|i: int| 0 <= i < low ==> path::path_before(#[trigger] listed[i].0, path@),
                forall|i: int| high <= i < listed.len() ==> path::path_before(path@, #[trigger] listed[i].0),
            decreases high - low,
        {
            let middle: usize = low + (high - low) / 2;
            let ghost at = listed[middle as int].0;
            if self.slots[middle].path.equals(path) {
                return (true, middle);
            }
            if self.slots[middle].path.precedes(path) {
                proof {
                    assert forall|i: int| 0 <= i < middle + 1 implies path::path_before(
                        #[trigger] listed[i].0,
                        path@,
                    ) by {
                        if i < middle {
                            assert(path::path_before(listed[i].0, listed[middle as int].0));
                            path::lemma_path_transitive(listed[i].0, at, path@);
                        }
                    }
                }
                low = middle + 1;
            } else {
                proof {
                    path::lemma_path_total(at, path@);
                    assert forall|i: int| middle <= i < listed.len() implies path::path_before(
                        path@,
                        #[trigger] listed[i].0,
                    ) by {
                        if i > middle {
                            assert(path::path_before(listed[middle as int].0, listed[i].0));
                            path::lemma_path_transitive(path@, at, listed[i].0);
                        }
                    }
                }
                high = middle;
            }
        }
        proof {
            path::lemma_path_irreflexive(path@);
            if has_path(listed, path@) {
                let i = place_of(listed, path@);
                assert(listed[i].0 == path@);
            }
        }
        (false, low)
    }

    /// The place of a path.
    pub fn position(&self, path: &RelPath) -> (place: Option<usize>)
        requires
            self.wf(),
        ensures
            match place {
                Some(index) => index < self.entries().len() && self.entries()[index as int].0 == path@,
                None => !has_path(self.entries(), path@),
            },
    {
        let (found, index) = self.locate(path);
        if found {
            Some(index)
        } else {
            None
        }
    }

    /// The value under a path.
    pub fn get(&self, path: &RelPath) -> (value: Option<&V>)
        requires
            self.wf(),
        ensures
            match value {
                Some(found) => self@.dom().contains(path@) && found@ == self@[path@],
                None => !self@.dom().contains(path@),
            },
    {
        let (found, index) = self.locate(path);
        if found {
            proof {
                lemma_entry_at(self.entries(), index as int);
            }
            Some(&self.slots[index].value)
        } else {
            None
        }
    }

    /// Whether a path has a value.
    pub fn contains(&self, path: &RelPath) -> (result: bool)
        requires
            self.wf(),
        ensures
            result == self@.dom().contains(path@),
    {
        self.get(path).is_some()
    }

    /// Puts a value under a path; tells whether it replaced one.
    pub fn insert(&mut self, path: RelPath, value: V) -> (replaced: bool)
        requires
            old(self).wf(),
        ensures
            final(self).wf(),
            final(self)@ == old(self)@.insert(path@, value@),
            replaced == old(self)@.dom().contains(path@),
            final(self).entries().len() == old(self).entries().len() + if replaced { 0int } else { 1int },
    {
        let (found, index) = self.locate(&path);
        let ghost before = self.entries();
        let ghost key = path@;
        let ghost val = value@;
        if found {
            proof {
                lemma_entry_at(before, index as int);
                lemma_update(before, index as int, val);
            }
            self.slots[index] = Slot { path, value };
            proof {
                assert(self.entries() =~= before.update(index as int, (before[index as int].0, val)));
            }
            true
        } else {
            proof {
                lemma_insert(before, index as int, key, val);
            }
            self.slots.insert(index, Slot { path, value });
            proof {
                assert(self.entries() =~= before.insert(index as int, (key, val)));
            }
            false
        }
    }

    /// Puts another value in the place of the one at `index`.
    pub fn replace_at(&mut self, index: usize, value: V)
        requires
            old(self).wf(),
            index < old(self).entries().len(),
        ensures
            final(self).wf(),
            final(self).entries() == old(self).entries().update(
                index as int,
                (old(self).entries()[index as int].0, value@),
            ),
            final(self)@ == old(self)@.insert(old(self).entries()[index as int].0, value@),
    {
        let ghost before = self.entries();
        let ghost val = value@;
        let path = self.slots[index].path.copy();
        proof {
            lemma_update(before, index as int, val);
        }
        self.slots[index] = Slot { path, value };
        proof {
            assert(self.entries() =~= before.update(index as int, (before[index as int].0, val)));
        }
    }

    /// Drops every entry that lies at or below `root`.
    pub fn remove_under(&mut self, root: &RelPath)
        requires
            old(self).wf(),
        ensures
            final(self).wf(),
            final(self).entries() == outside_of(old(self).entries(), root@),
            forall|path: Names|
                #[trigger] final(self)@.dom().contains(path) <==> (old(self)@.dom().contains(path)
                    && !path::lies_under(path, root@)),
            forall|path: Names| #[trigger]
                final(self)@.dom().contains(path) ==> final(self)@[path] == old(self)@[path],
    {
        let ghost before = self.entries();
        let ghost keep = |entry: (Names, V::V)| !path::lies_under(entry.0, root@);
        let mut stack: Vec<Slot<V>> = Vec::new();
        proof {
            assert(before.skip(before.len() as int) =~= Entries::<V::V>::empty());
        }
        while self.slots.len() > 0
            invariant
                before.len() == self.slots@.len() + stack@.len(),
                forall|i: int|
                    0 <= i < self.slots@.len() ==> #[trigger] before[i] == (
                        self.slots@[i].path@,
                        self.slots@[i].value@,
                    ),
                forall|i: int|
                    0 <= i < stack@.len() ==> before[before.len() - 1 - i] == (
                        #[trigger] stack@[i].path@,
                        stack@[i].value@,
                    ),
            decreases self.slots@.len(),
        {
            let ghost held = self.slots@;
            let ghost stacked = stack@;
            match self.slots.pop() {
                Some(slot) => {
                    proof {
                        assert(slot == held[held.len() - 1]);
                        assert(before[held.len() - 1] == (held[held.len() - 1].path@, held[held.len() - 1].value@));
                    }
                    stack.push(slot);
                    proof {
                        assert forall|i: int| 0 <= i < self.slots@.len() implies #[trigger] before[i] == (
                            self.slots@[i].path@,
                            self.slots@[i].value@,
                        ) by {
                            assert(self.slots@[i] == held[i]);
                        }
                        assert forall|i: int| 0 <= i < stack@.len() implies before[before.len() - 1 - i] == (
                            #[trigger] stack@[i].path@,
                            stack@[i].value@,
                        ) by {
                            if i < stacked.len() {
                                assert(stack@[i] == stacked[i]);
                            }
                        }
                    }
                },
                None => {},
            }
        }
        let ghost mut done: int = 0;
        proof {
            reveal(Seq::filter);
            assert(before.take(0).filter(keep) =~= Entries::<V::V>::empty());
            assert(self.entries() =~= Entries::<V::V>::empty());
        }
        while stack.len() > 0
            invariant
                0 <= done <= before.len(),
                done + stack@.len() == before.len(),
                keep == (|entry: (Names, V::V)| !path::lies_under(entry.0, root@)),
                forall|i: int|
                    0 <= i < stack@.len() ==> before[before.len() - 1 - i] == (
                        #[trigger] stack@[i].path@,
                        stack@[i].value@,
                    ),
                self.entries() == before.take(done).filter(keep),
            decreases stack@.len(),
        {
            let ghost stacked = stack@;
            match stack.pop() {
                Some(slot) => {
                    let ghost so_far = self.entries();
                    let ghost entry = (slot.path@, slot.value@);
                    proof {
                        reveal(Seq::filter);
                        assert(slot == stacked[stacked.len() - 1]);
                        assert(before[before.len() - 1 - (stacked.len() - 1)] == (
                            stacked[stacked.len() - 1].path@,
                            stacked[stacked.len() - 1].value@,
                        ));
                        assert(before[done] == entry);
                        assert(before.take(done + 1).drop_last() =~= before.take(done));
                        assert(before.take(done + 1).last() == entry);
                        assert forall|i: int| 0 <= i < stack@.len() implies before[before.len() - 1 - i] == (
                            #[trigger] stack@[i].path@,
                            stack@[i].value@,
                        ) by {
                            assert(stack@[i] == stacked[i]);
                        }
                    }
                    if !slot.path.lies_below_or_at(root) {
                        self.slots.push(slot);
                        proof {
                            assert(self.entries() =~= so_far.push(entry));
                        }
                    }
                    proof {
                        done = done + 1;
                    }
                },
                None => {},
            }
        }
        proof {
            assert(before.take(done) =~= before);
            lemma_outside_of_map(before, root@);
        }
    }
}

impl<V: Duplicate> PathMap<V> {
    /// The same map again.
    pub fn copy(&self) -> (map: PathMap<V>)
        ensures
            map.entries() == self.entries(),
            map@ == self@,
    {
        let mut slots: Vec<Slot<V>> = Vec::new();
        let mut i: usize = 0;
        while i < self.slots.len()
            invariant
                i <= self.slots@.len(),
                slots@.len() == i,
                forall|j: int|
                    0 <= j < i ==> #[trigger] slots@[j].path@ == self.slots@[j].path@ && slots@[j].value@
                        == self.slots@[j].value@,
            decreases self.slots@.len() - i,
        {
            let slot = Slot {
                path: self.slots[i].path.copy(),
                value: self.slots[i].value.duplicate(),
            };
            slots.push(slot);
            i = i + 1;
        }
        let map = PathMap { slots };
        proof {
            assert(map.entries() =~= self.entries());
        }
        map
    }
}

} // verus!
