//! Sets of byte strings, in order.

use crate::path;
use crate::path::{bytes_equal, bytes_precede, copy_bytes};
use vstd::prelude::*;

verus! {

/// The strings stand in order, each once.
pub open spec fn bytes_in_order(items: Seq<Seq<u8>>) -> bool {
    forall|i: int, j: int| 0 <= i < j < items.len() ==> path::bytes_before(#[trigger] items[i], #[trigger] items[j])
}

/// A set of byte strings, in bytewise order.
#[derive(Debug)]
pub struct ByteSet {
    items: Vec<Vec<u8>>,
}

impl ByteSet {
    /// The strings, in order.
    pub closed spec fn items(&self) -> Seq<Seq<u8>> {
        path::byte_views(self.items@)
    }

    /// The strings stand in order, each once.
    pub open spec fn wf(&self) -> bool {
        bytes_in_order(self.items())
    }
}

impl View for ByteSet {
    type V = Set<Seq<u8>>;

    open spec fn view(&self) -> Set<Seq<u8>> {
        self.items().to_set()
    }
}

impl ByteSet {
    /// The set without strings.
    pub fn new() -> (set: ByteSet)
        ensures
            set.wf(),
            set@ == Set::<Seq<u8>>::empty(),
            set.items() == Seq::<Seq<u8>>::empty(),
    {
        let set = ByteSet { items: Vec::new() };
        proof {
            assert(set.items() =~= Seq::<Seq<u8>>::empty());
            assert(set@ =~= Set::<Seq<u8>>::empty());
        }
        set
    }

    /// Whether there is no string.
    pub fn is_empty(&self) -> (empty: bool)
        ensures
            empty == (self@ == Set::<Seq<u8>>::empty()),
    {
        proof {
            if self.items@.len() == 0 {
                assert(self.items() =~= Seq::<Seq<u8>>::empty());
                assert(self@ =~= Set::<Seq<u8>>::empty());
            } else {
                assert(self.items().contains(self.items()[0]));
                assert(self@.contains(self.items()[0]));
            }
        }
        self.items.len() == 0
    }

    /// The first place whose string does not stand before another.
    fn place(&self, item: &[u8]) -> (place: usize)
        requires
            self.wf(),
        ensures
            place <= self.items().len(),
            forall|i: int| 0 <= i < place ==> path::bytes_before(#[trigger] self.items()[i], item@),
            forall|i: int| place <= i < self.items().len() ==> !path::bytes_before(#[trigger] self.items()[i], item@),
    {
        let mut place: usize = 0;
        while place < self.items.len() && bytes_precede(self.items[place].as_slice(), item)
            invariant
                place <= self.items@.len(),
                forall|i: int| 0 <= i < place ==> path::bytes_before(#[trigger] self.items()[i], item@),
            decreases self.items@.len() - place,
        {
            proof {
                assert(self.items()[place as int] == self.items@[place as int]@);
            }
            place = place + 1;
        }
        proof {
            assert forall|i: int| place <= i < self.items().len() implies !path::bytes_before(
                #[trigger] self.items()[i],
                item@,
            ) by {
                assert(self.items()[place as int] == self.items@[place as int]@);
                if i > place && path::bytes_before(self.items()[i], item@) {
                    path::lemma_bytes_transitive(self.items()[place as int], self.items()[i], item@);
                }
            }
        }
        place
    }

    /// Whether a string is in the set, and its place.
    pub fn locate(&self, item: &[u8]) -> (result: (bool, usize))
        requires
            self.wf(),
        ensures
            result.0 == self@.contains(item@),
            result.1 <= self.items().len(),
            result.0 ==> result.1 < self.items().len() && self.items()[result.1 as int] == item@,
            forall|i: int| 0 <= i < result.1 ==> path::bytes_before(#[trigger] self.items()[i], item@),
            !result.0 ==> forall|i: int|
                result.1 <= i < self.items().len() ==> path::bytes_before(item@, #[trigger] self.items()[i]),
    {
        let place = self.place(item);
        if place < self.items.len() && bytes_equal(self.items[place].as_slice(), item) {
            proof {
                assert(self.items()[place as int] == self.items@[place as int]@);
                assert(self.items().contains(item@));
            }
            return (true, place);
        }
        proof {
            assert forall|i: int| 0 <= i < self.items().len() implies #[trigger] self.items()[i] != item@ by {
                if i < place {
                    path::lemma_bytes_irreflexive(item@);
                } else if i > place && self.items()[i] == item@ {
                    assert(path::bytes_before(self.items()[place as int], self.items()[i]));
                } else {
                    assert(self.items()[i] == self.items@[i]@);
                }
            }
            assert forall|i: int| place <= i < self.items().len() implies path::bytes_before(
                item@,
                #[trigger] self.items()[i],
            ) by {
                path::lemma_bytes_total(self.items()[i], item@);
            }
        }
        (false, place)
    }

    /// Whether a string is in the set.
    pub fn contains(&self, item: &[u8]) -> (result: bool)
        requires
            self.wf(),
        ensures
            result == self@.contains(item@),
    {
        self.locate(item).0
    }

    /// Puts a string that is not in the set at its place.
    pub fn insert_at(&mut self, place: usize, item: &[u8])
        requires
            old(self).wf(),
            place <= old(self).items().len(),
            forall|i: int| 0 <= i < place ==> path::bytes_before(#[trigger] old(self).items()[i], item@),
            forall|i: int|
                place <= i < old(self).items().len() ==> path::bytes_before(item@, #[trigger] old(self).items()[i]),
        ensures
            final(self).wf(),
            final(self).items() == old(self).items().insert(place as int, item@),
            final(self)@ == old(self)@.insert(item@),
    {
        let ghost before = self.items();
        self.items.insert(place, copy_bytes(item));
        proof {
            let after = self.items();
            assert(after =~= before.insert(place as int, item@));
            assert forall|i: int, j: int| 0 <= i < j < after.len() implies path::bytes_before(
                #[trigger] after[i],
                #[trigger] after[j],
            ) by {
                let old_i = if i < place { i } else { i - 1 };
                let old_j = if j < place { j } else { j - 1 };
                if i == place {
                    assert(after[j] == before[old_j]);
                } else if j == place {
                    assert(after[i] == before[old_i]);
                } else {
                    assert(after[i] == before[old_i] && after[j] == before[old_j]);
                }
            }
            assert forall|x: Seq<u8>| #[trigger] after.contains(x) <==> (before.contains(x) || x == item@) by {
                if before.contains(x) {
                    let i = choose|i: int| 0 <= i < before.len() && before[i] == x;
                    if i < place {
                        assert(after[i] == x);
                    } else {
                        assert(after[i + 1] == x);
                    }
                }
                if x == item@ {
                    assert(after[place as int] == x);
                }
                if after.contains(x) {
                    let i = choose|i: int| 0 <= i < after.len() && after[i] == x;
                    if i < place {
                        assert(before[i] == x);
                    } else if i > place {
                        assert(before[i - 1] == x);
                    }
                }
            }
            assert(after.to_set() =~= before.to_set().insert(item@));
        }
    }

    /// Puts a string into the set; tells whether it is new.
    pub fn insert(&mut self, item: &[u8]) -> (is_new: bool)
        requires
            old(self).wf(),
        ensures
            final(self).wf(),
            final(self)@ == old(self)@.insert(item@),
            is_new == !old(self)@.contains(item@),
    {
        let (found, place) = self.locate(item);
        if found {
            proof {
                assert(self@.insert(item@) =~= self@);
            }
            return false;
        }
        self.insert_at(place, item);
        true
    }

    /// Takes the string at a place out of the set.
    pub fn remove_at(&mut self, place: usize)
        requires
            old(self).wf(),
            place < old(self).items().len(),
        ensures
            final(self).wf(),
            final(self).items() == old(self).items().remove(place as int),
            final(self)@ == old(self)@.remove(old(self).items()[place as int]),
    {
        let ghost before = self.items();
        let ghost item = before[place as int];
        self.items.remove(place);
        proof {
            let after = self.items();
            assert(after =~= before.remove(place as int));
            assert forall|i: int, j: int| 0 <= i < j < after.len() implies path::bytes_before(
                #[trigger] after[i],
                #[trigger] after[j],
            ) by {
                let old_i = if i < place { i } else { i + 1 };
                let old_j = if j < place { j } else { j + 1 };
                assert(after[i] == before[old_i] && after[j] == before[old_j]);
            }
            assert forall|x: Seq<u8>| #[trigger] after.contains(x) <==> (before.contains(x) && x != item) by {
                if before.contains(x) && x != item {
                    let i = choose|i: int| 0 <= i < before.len() && before[i] == x;
                    if i < place {
                        assert(after[i] == x);
                    } else {
                        assert(after[i - 1] == x);
                    }
                }
                if after.contains(x) {
                    let i = choose|i: int| 0 <= i < after.len() && after[i] == x;
                    let old_i = if i < place { i } else { i + 1 };
                    assert(before[old_i] == x);
                    if x == item {
                        path::lemma_bytes_irreflexive(x);
                        if old_i < place {
                            assert(path::bytes_before(before[old_i], before[place as int]));
                        } else {
                            assert(path::bytes_before(before[place as int], before[old_i]));
                        }
                    }
                }
            }
            assert(after.to_set() =~= before.to_set().remove(item));
        }
    }

    /// Takes a string out of the set; tells whether it was there.
    pub fn remove(&mut self, item: &[u8]) -> (was_there: bool)
        requires
            old(self).wf(),
        ensures
            final(self).wf(),
            final(self)@ == old(self)@.remove(item@),
            was_there == old(self)@.contains(item@),
    {
        let (found, place) = self.locate(item);
        if !found {
            proof {
                assert(self@.remove(item@) =~= self@);
            }
            return false;
        }
        self.remove_at(place);
        true
    }

    /// How many strings there are.
    pub fn len(&self) -> (len: usize)
        ensures
            len == self.items().len(),
    {
        self.items.len()
    }

    /// The string at a place.
    pub fn item_at(&self, index: usize) -> (item: &[u8])
        requires
            index < self.items().len(),
        ensures
            item@ == self.items()[index as int],
    {
        self.items[index].as_slice()
    }

    /// The strings, in order.
    pub fn to_list(&self) -> (list: Vec<Vec<u8>>)
        ensures
            path::byte_views(list@) == self.items(),
    {
        let mut list: Vec<Vec<u8>> = Vec::new();
        let mut i: usize = 0;
        while i < self.items.len()
            invariant
                i <= self.items@.len(),
                list@.len() == i,
                forall|j: int| 0 <= j < i ==> (#[trigger] list@[j])@ == self.items@[j]@,
            decreases self.items@.len() - i,
        {
            list.push(copy_bytes(self.items[i].as_slice()));
            i = i + 1;
        }
        proof {
            assert(path::byte_views(list@) =~= self.items());
        }
        list
    }
}

} // verus!
