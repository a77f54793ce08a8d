//! Maps between byte strings, in the order of their keys.

use crate::byte_set;
use crate::byte_set::ByteSet;
use crate::path;
use crate::path::copy_bytes;
use vstd::prelude::*;

verus! {

/// A map between byte strings, in bytewise order of the keys.
#[derive(Debug)]
pub struct ByteMap {
    keys: ByteSet,
    values: Vec<Vec<u8>>,
}

impl ByteMap {
    /// The keys, in order.
    pub closed spec fn keys(&self) -> Seq<Seq<u8>> {
        self.keys.items()
    }

    /// The values, in the order of their keys.
    pub closed spec fn values(&self) -> Seq<Seq<u8>> {
        path::byte_views(self.values@)
    }

    /// The keys stand in order, each once, and each has a value.
    pub closed spec fn wf(&self) -> bool {
        self.keys.wf() && self.values@.len() == self.keys.items().len()
    }
}

/// The map of keys to the values at their places.
pub open spec fn map_of(keys: Seq<Seq<u8>>, values: Seq<Seq<u8>>) -> Map<Seq<u8>, Seq<u8>> {
    Map::new(|key: Seq<u8>| keys.contains(key), |key: Seq<u8>| values[keys.index_of(key)])
}

impl View for ByteMap {
    type V = Map<Seq<u8>, Seq<u8>>;

    open spec fn view(&self) -> Map<Seq<u8>, Seq<u8>> {
        map_of(self.keys(), self.values())
    }
}

proof fn lemma_place_of_key(keys: Seq<Seq<u8>>, i: int)
    requires
        byte_set::bytes_in_order(keys),
        0 <= i < keys.len(),
    ensures
        keys.contains(keys[i]),
        keys.index_of(keys[i]) == i,
{
    let j = keys.index_of(keys[i]);
    assert(keys[j] == keys[i]);
    path::lemma_bytes_irreflexive(keys[i]);
    if j < i {
        assert(path::bytes_before(keys[j], keys[i]));
    } else if i < j {
        assert(path::bytes_before(keys[i], keys[j]));
    }
}

impl ByteMap {
    /// The map without keys.
    pub fn new() -> (map: ByteMap)
        ensures
            map.wf(),
            map@ == Map::<Seq<u8>, Seq<u8>>::empty(),
    {
        let map = ByteMap { keys: ByteSet::new(), values: Vec::new() };
        proof {
            assert(map@ =~= Map::<Seq<u8>, Seq<u8>>::empty());
        }
        map
    }

    /// Puts a value under a key, in place of the one that was there.
    pub fn insert(&mut self, key: &[u8], value: &[u8])
        requires
            old(self).wf(),
        ensures
            final(self).wf(),
            final(self)@ == old(self)@.insert(key@, value@),
    {
        let ghost keys = self.keys();
        let ghost values = self.values();
        let (found, place) = self.keys.locate(key);
        if found {
            self.values.set(place, copy_bytes(value));
            proof {
                let after = self.values();
                assert(after =~= values.update(place as int, value@));
                lemma_place_of_key(keys, place as int);
                assert forall|k: Seq<u8>| keys.contains(k) implies #[trigger] map_of(keys, after)[k] == map_of(
                    keys,
                    values,
                ).insert(key@, value@)[k] by {
                    let i = keys.index_of(k);
                    assert(keys[i] == k);
                }
                assert(map_of(keys, after) =~= map_of(keys, values).insert(key@, value@));
            }
        } else {
            self.keys.insert_at(place, key);
            self.values.insert(place, copy_bytes(value));
            proof {
                let after_keys = self.keys();
                let after = self.values();
                assert(after_keys =~= keys.insert(place as int, key@));
                assert(after =~= values.insert(place as int, value@));
                assert(!keys.contains(key@));
                assert forall|k: Seq<u8>| #[trigger] map_of(after_keys, after).dom().contains(k) <==> map_of(
                    keys,
                    values,
                ).insert(key@, value@).dom().contains(k) by {
                    if keys.contains(k) {
                        let i = keys.index_of(k);
                        assert(after_keys[if i < place { i } else { i + 1 }] == k);
                    }
                    if k == key@ {
                        assert(after_keys[place as int] == k);
                    }
                    if after_keys.contains(k) {
                        let i = after_keys.index_of(k);
                        if i != place {
                            assert(keys[if i < place { i } else { i - 1 }] == k);
                        }
                    }
                }
                assert forall|k: Seq<u8>| after_keys.contains(k) implies #[trigger] map_of(after_keys, after)[k]
                    == map_of(keys, values).insert(key@, value@)[k] by {
                    let i = after_keys.index_of(k);
                    assert(after_keys[i] == k);
                    if i == place {
                        assert(after_keys[place as int] == key@);
                    } else {
                        let old_i = if i < place { i } else { i - 1 };
                        assert(keys[old_i] == k);
                        lemma_place_of_key(keys, old_i);
                        assert(k != key@);
                    }
                }
                assert(map_of(after_keys, after) =~= map_of(keys, values).insert(key@, value@));
            }
        }
    }

    /// Takes a key and its value out of the map.
    pub fn remove(&mut self, key: &[u8])
        requires
            old(self).wf(),
        ensures
            final(self).wf(),
            final(self)@ == old(self)@.remove(key@),
    {
        let ghost keys = self.keys();
        let ghost values = self.values();
        let (found, place) = self.keys.locate(key);
        if !found {
            proof {
                assert(!keys.contains(key@));
                assert(map_of(keys, values) =~= map_of(keys, values).remove(key@));
            }
            return;
        }
        self.keys.remove_at(place);
        self.values.remove(place);
        proof {
            let after_keys = self.keys();
            let after = self.values();
            assert(after_keys =~= keys.remove(place as int));
            assert(after =~= values.remove(place as int));
            lemma_place_of_key(keys, place as int);
            assert forall|k: Seq<u8>| #[trigger] map_of(after_keys, after).dom().contains(k) <==> map_of(
                keys,
                values,
            ).remove(key@).dom().contains(k) by {
                if keys.contains(k) && k != key@ {
                    let i = keys.index_of(k);
                    assert(keys[i] == k);
                    assert(after_keys[if i < place { i } else { i - 1 }] == k);
                }
                if after_keys.contains(k) {
                    let i = after_keys.index_of(k);
                    let old_i = if i < place { i } else { i + 1 };
                    assert(keys[old_i] == k);
                    lemma_place_of_key(keys, old_i);
                }
            }
            assert forall|k: Seq<u8>| after_keys.contains(k) implies #[trigger] map_of(after_keys, after)[k] == map_of(
                keys,
                values,
            ).remove(key@)[k] by {
                let i = after_keys.index_of(k);
                let old_i = if i < place { i } else { i + 1 };
                assert(keys[old_i] == k);
                lemma_place_of_key(keys, old_i);
            }
            assert(map_of(after_keys, after) =~= map_of(keys, values).remove(key@));
        }
    }

    /// How many keys there are.
    pub fn len(&self) -> (len: usize)
        ensures
            len == self.keys().len(),
    {
        self.keys.len()
    }

    /// The key and the value at a place.
    pub fn item_at(&self, index: usize) -> (item: (&[u8], &[u8]))
        requires
            self.wf(),
            index < self.keys().len(),
        ensures
            item.0@ == self.keys()[index as int],
            self@.dom().contains(item.0@),
            item.1@ == self@[item.0@],
    {
        proof {
            lemma_place_of_key(self.keys(), index as int);
        }
        (self.keys.item_at(index), self.values[index].as_slice())
    }

    /// The keys stand in order and are those of the map.
    pub proof fn lemma_keys(&self)
        requires
            self.wf(),
        ensures
            byte_set::bytes_in_order(self.keys()),
            self.keys().to_set() == self@.dom(),
    {
        assert(self.keys().to_set() =~= self@.dom());
    }
}

} // verus!
