//! Sets of texts, in bytewise order.

use crate::byte_set;
use crate::byte_set::ByteSet;
use crate::path;
use crate::text;
use crate::text::copy_text;
use vstd::prelude::*;

verus! {

/// The bytes of texts.
pub open spec fn encoded(texts: Seq<Seq<char>>) -> Seq<Seq<u8>> {
    Seq::new(texts.len(), |i: int| vstd::utf8::encode_utf8(texts[i]))
}

/// A set of texts, in the order of their bytes.
#[derive(Debug)]
pub struct TextSet {
    keys: ByteSet,
    texts: Vec<String>,
}

impl TextSet {
    /// The texts, in order.
    pub closed spec fn items(&self) -> Seq<Seq<char>> {
        text::string_views(self.texts@)
    }

    /// The texts stand in the order of their bytes, each once.
    pub closed spec fn wf(&self) -> bool {
        self.keys.wf() && self.keys.items() == encoded(self.items())
    }
}

impl View for TextSet {
    type V = Set<Seq<char>>;

    open spec fn view(&self) -> Set<Seq<char>> {
        self.items().to_set()
    }
}

proof fn lemma_encoded_contains(texts: Seq<Seq<char>>, item: Seq<char>)
    ensures
        encoded(texts).contains(vstd::utf8::encode_utf8(item)) == texts.contains(item),
{
    let bytes = vstd::utf8::encode_utf8(item);
    if texts.contains(item) {
        let i = choose|i: int| 0 <= i < texts.len() && texts[i] == item;
        assert(encoded(texts)[i] == bytes);
    }
    if encoded(texts).contains(bytes) {
        let i = choose|i: int| 0 <= i < encoded(texts).len() && encoded(texts)[i] == bytes;
        if texts[i] != item {
            text::lemma_texts_differ(texts[i], item);
        }
        assert(texts[i] == item);
    }
}

impl TextSet {
    /// The set without texts.
    pub fn new() -> (set: TextSet)
        ensures
            set.wf(),
            set@ == Set::<Seq<char>>::empty(),
    {
        let set = TextSet { keys: ByteSet::new(), texts: Vec::new() };
        proof {
            assert(set.items() =~= Seq::<Seq<char>>::empty());
            assert(encoded(set.items()) =~= Seq::<Seq<u8>>::empty());
            assert(set@ =~= Set::<Seq<char>>::empty());
        }
        set
    }

    /// Whether there is no text.
    pub fn is_empty(&self) -> (empty: bool)
        ensures
            empty == (self@ == Set::<Seq<char>>::empty()),
    {
        proof {
            if self.texts@.len() == 0 {
                assert(self.items() =~= Seq::<Seq<char>>::empty());
                assert(self@ =~= Set::<Seq<char>>::empty());
            } else {
                assert(self.items().contains(self.items()[0]));
                assert(self@.contains(self.items()[0]));
            }
        }
        self.texts.len() == 0
    }

    /// How many texts there are.
    pub fn len(&self) -> (len: usize)
        ensures
            len == self.items().len(),
    {
        self.texts.len()
    }

    /// The text at a place.
    pub fn item_at(&self, index: usize) -> (item: &str)
        requires
            index < self.items().len(),
        ensures
            item@ == self.items()[index as int],
    {
        self.texts[index].as_str()
    }

    /// Puts a text into the set.
    pub fn insert(&mut self, item: &str)
        requires
            old(self).wf(),
        ensures
            final(self).wf(),
            final(self)@ == old(self)@.insert(item@),
    {
        let ghost before = self.items();
        let bytes = item.as_bytes();
        let (found, place) = self.keys.locate(bytes);
        proof {
            lemma_encoded_contains(before, item@);
        }
        if found {
            proof {
                assert(self.keys@.contains(vstd::utf8::encode_utf8(item@)));
                assert(before.contains(item@));
                assert(self@.insert(item@) =~= self@);
            }
            return;
        }
        self.keys.insert_at(place, bytes);
        self.texts.insert(place, copy_text(item));
        proof {
            let after = self.items();
            assert(after =~= before.insert(place as int, item@));
            assert(encoded(after) =~= encoded(before).insert(place as int, vstd::utf8::encode_utf8(item@)));
            assert forall|x: Seq<char>| #[trigger] after.contains(x) <==> (before.contains(x) || x == item@) by {
                if before.contains(x) {
                    let i = choose|i: int| 0 <= i < before.len() && before[i] == x;
                    assert(after[if i < place { i } else { i + 1 }] == x);
                }
                if x == item@ {
                    assert(after[place as int] == x);
                }
                if after.contains(x) {
                    let i = choose|i: int| 0 <= i < after.len() && after[i] == x;
                    if i != place {
                        assert(before[if i < place { i } else { i - 1 }] == x);
                    }
                }
            }
            assert(after.to_set() =~= before.to_set().insert(item@));
        }
    }

    /// Takes a text out of the set.
    pub fn remove(&mut self, item: &str)
        requires
            old(self).wf(),
        ensures
            final(self).wf(),
            final(self)@ == old(self)@.remove(item@),
    {
        let ghost before = self.items();
        let ghost keys = self.keys.items();
        let bytes = item.as_bytes();
        let (found, place) = self.keys.locate(bytes);
        proof {
            lemma_encoded_contains(before, item@);
        }
        if !found {
            proof {
                assert(!self.keys@.contains(vstd::utf8::encode_utf8(item@)));
                assert(!before.contains(item@));
                assert(self@.remove(item@) =~= self@);
            }
            return;
        }
        self.keys.remove_at(place);
        self.texts.remove(place);
        proof {
            let after = self.items();
            assert(after =~= before.remove(place as int));
            assert(encoded(after) =~= encoded(before).remove(place as int));
            assert forall|x: Seq<char>| #[trigger] after.contains(x) <==> (before.contains(x) && x != item@) by {
                if before[place as int] != item@ {
                    text::lemma_texts_differ(before[place as int], item@);
                }
                if before.contains(x) && x != item@ {
                    let i = choose|i: int| 0 <= i < before.len() && before[i] == x;
                    assert(after[if i < place { i } else { i - 1 }] == x);
                }
                if after.contains(x) {
                    let i = choose|i: int| 0 <= i < after.len() && after[i] == x;
                    let old_i = if i < place { i } else { i + 1 };
                    assert(before[old_i] == x);
                    if x == item@ {
                        assert(keys[old_i] == keys[place as int]);
                        path::lemma_bytes_irreflexive(keys[place as int]);
                        if old_i < place {
                            assert(path::bytes_before(keys[old_i], keys[place as int]));
                        } else {
                            assert(path::bytes_before(keys[place as int], keys[old_i]));
                        }
                    }
                }
            }
            assert(after.to_set() =~= before.to_set().remove(item@));
        }
    }

    /// The texts, in the order of their bytes.
    pub fn to_list(&self) -> (list: Vec<String>)
        requires
            self.wf(),
        ensures
            text::string_views(list@) == self.items(),
            byte_set::bytes_in_order(encoded(text::string_views(list@))),
    {
        let mut list: Vec<String> = Vec::new();
        let mut i: usize = 0;
        while i < self.texts.len()
            invariant
                i <= self.texts@.len(),
                list@.len() == i,
                forall|j: int| 0 <= j < i ==> (#[trigger] list@[j])@ == self.texts@[j]@,
            decreases self.texts@.len() - i,
        {
            list.push(copy_text(self.texts[i].as_str()));
            i = i + 1;
        }
        proof {
            assert(text::string_views(list@) =~= self.items());
        }
        list
    }
}

} // verus!
