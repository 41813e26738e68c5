//! A map from texts to values, kept in ascending order of the texts.

use vstd::prelude::*;

use crate::text_order;
use crate::text_order::{relate, Relation};

verus! {

/// A map with text keys. Its entries stand in ascending order of their keys,
/// so that they can be walked by position.
#[derive(Debug)]
pub struct StringMap<V> {
    keys: Vec<String>,
    values: Vec<V>,
}

impl<V> View for StringMap<V> {
    type V = Map<Seq<char>, V>;

    closed spec fn view(&self) -> Map<Seq<char>, V> {
        Map::new(|key: Seq<char>| self.texts().contains(key), |key: Seq<char>| self.at(key))
    }
}

impl<V: Clone> Clone for StringMap<V> {
    fn clone(&self) -> (copy: Self)
        ensures
            self.wf() ==> {
                &&& copy.wf()
                &&& copy@.dom() == self@.dom()
                &&& forall|key: Seq<char>| #[trigger]
                    self@.contains_key(key) ==> vstd::pervasive::cloned(self@[key], copy@[key])
            },
    {
        let mut keys: Vec<String> = Vec::new();
        let mut values: Vec<V> = Vec::new();
        let mut i: usize = 0;
        while i < self.keys.len() && i < self.values.len()
            invariant
                i <= self.keys@.len(),
                i <= self.values@.len(),
                keys@ == self.keys@.take(i as int),
                values@.len() == i,
                forall|k: int|
                    0 <= k < i ==> vstd::pervasive::cloned(self.values@[k], #[trigger] values@[k]),
            decreases self.keys@.len() - i,
        {
            keys.push(self.keys[i].clone());
            values.push(self.values[i].clone());
            assert(self.keys@.take(i + 1) =~= self.keys@.take(i as int).push(self.keys@[i as int]));
            i = i + 1;
        }
        let copy = StringMap { keys, values };
        proof {
            if self.wf() {
                assert(copy.keys@ =~= self.keys@);
                assert(copy.texts() =~= self.texts());
                assert(copy@.dom() =~= self@.dom());
                assert forall|key: Seq<char>| #[trigger]
                    self@.contains_key(key) implies vstd::pervasive::cloned(
                    self@[key],
                    copy@[key],
                ) by {
                    let place = self.texts().index_of(key);
                    self.lemma_at(place);
                    copy.lemma_at(place);
                    assert(vstd::pervasive::cloned(self.values@[place], copy.values@[place]));
                }
            }
        }
        copy
    }
}

impl<V> StringMap<V> {
    /// The keys in the order in which they stand.
    closed spec fn texts(&self) -> Seq<Seq<char>> {
        self.keys@.map_values(|key: String| key@)
    }

    /// The value that stands beside a key.
    closed spec fn at(&self, key: Seq<char>) -> V {
        self.values@[self.texts().index_of(key)]
    }

    /// The keys ascend, and each has its value.
    pub closed spec fn wf(&self) -> bool {
        &&& self.keys@.len() == self.values@.len()
        &&& text_order::ascending(self.texts())
    }

    /// The keys in ascending order.
    pub open spec fn order(&self) -> Seq<Seq<char>> {
        text_order::in_order(self@.dom())
    }

    proof fn lemma_order(&self)
        requires
            self.wf(),
        ensures
            self.order() == self.texts(),
            text_order::lists(self.texts(), self@.dom()),
    {
        text_order::lemma_lists_in_order(self.texts(), self@.dom());
    }

    /// The keys in order are those of the map, each of them once.
    pub proof fn lemma_entries(&self)
        requires
            self.wf(),
        ensures
            text_order::lists(self.order(), self@.dom()),
            forall|i: int|
                0 <= i < self.order().len() ==> self@.contains_key(#[trigger] self.order()[i]),
            self@.dom().finite(),
    {
        self.lemma_order();
        assert forall|i: int| 0 <= i < self.order().len() implies self@.contains_key(
            #[trigger] self.order()[i],
        ) by {
            assert(self.texts().contains(self.texts()[i]));
        }
        assert(self@.dom() =~= self.texts().to_set());
        vstd::seq_lib::seq_to_set_is_finite(self.texts());
    }

    proof fn lemma_at(&self, i: int)
        requires
            self.wf(),
            0 <= i < self.keys@.len(),
        ensures
            self.texts()[i] == self.keys@[i]@,
            self@.contains_key(self.keys@[i]@),
            self@[self.keys@[i]@] == self.values@[i],
    {
        let key = self.keys@[i]@;
        assert(self.texts()[i] == key);
        assert(self.texts().contains(key));
        text_order::lemma_ascending_distinct(self.texts(), self.texts().index_of(key), i);
    }

    /// The empty map.
    pub fn new() -> (map: Self)
        ensures
            map.wf(),
            map@ == Map::<Seq<char>, V>::empty(),
    {
        let map = StringMap { keys: Vec::new(), values: Vec::new() };
        assert(map@ =~= Map::<Seq<char>, V>::empty());
        map
    }

    /// The number of entries.
    pub fn len(&self) -> (count: usize)
        requires
            self.wf(),
        ensures
            count == self.order().len(),
    {
        proof {
            self.lemma_order();
        }
        self.keys.len()
    }

    /// The key at a position.
    pub fn key_at(&self, i: usize) -> (key: &String)
        requires
            self.wf(),
            i < self.order().len(),
        ensures
            key@ == self.order()[i as int],
            self@.contains_key(key@),
    {
        proof {
            self.lemma_order();
            self.lemma_at(i as int);
        }
        &self.keys[i]
    }

    /// The value at a position.
    pub fn value_at(&self, i: usize) -> (value: &V)
        requires
            self.wf(),
            i < self.order().len(),
        ensures
            self@.contains_key(self.order()[i as int]),
            *value == self@[self.order()[i as int]],
    {
        proof {
            self.lemma_order();
            self.lemma_at(i as int);
        }
        &self.values[i]
    }

    /// The position of a key, or the position at which it would stand.
    fn find(&self, key: &str) -> (place: Result<usize, usize>)
        requires
            self.wf(),
        ensures
            match place {
                Ok(i) => i < self.keys@.len() && self.keys@[i as int]@ == key@
                    && self@.contains_key(key@) && self@[key@] == self.values@[i as int],
                Err(i) => {
                    &&& i <= self.keys@.len()
                    &&& !self@.contains_key(key@)
                    &&& forall|k: int|
                        0 <= k < i ==> text_order::text_less(#[trigger] self.texts()[k], key@)
                    &&& forall|k: int|
                        i <= k < self.texts().len() ==> text_order::text_less(
                            key@,
                            #[trigger] self.texts()[k],
                        )
                },
            },
    {
        let ghost texts = self.texts();
        let mut low: usize = 0;
        let mut high: usize = self.keys.len();
        while low < high
            invariant
                self.wf(),
                texts == self.texts(),
                texts.len() == self.keys@.len(),
                low <= high <= self.keys@.len(),
                forall|k: int| 0 <= k < low ==> text_order::text_less(#[trigger] texts[k], key@),
                forall|k: int|
                    high <= k < texts.len() ==> text_order::text_less(key@, #[trigger] texts[k]),
            decreases high - low,
        {
            let middle: usize = low + (high - low) / 2;
            proof {
                assert(texts[middle as int] == self.keys@[middle as int]@);
            }
            match relate(self.keys[middle].as_str(), key) {
                Relation::Same => {
                    proof {
                        self.lemma_at(middle as int);
                    }
                    return Ok(middle);
                },
                Relation::Before => {
                    proof {
                        assert forall|k: int| 0 <= k < middle + 1 implies text_order::text_less(
                            #[trigger] texts[k],
                            key@,
                        ) by {
                            if k < middle {
                                text_order::law_text_less_transitive(
                                    texts[k],
                                    texts[middle as int],
                                    key@,
                                );
                            }
                        }
                    }
                    low = middle + 1;
                },
                Relation::After => {
                    proof {
                        assert forall|k: int| middle <= k < texts.len() implies text_order::text_less(
                            key@,
                            #[trigger] texts[k],
                        ) by {
                            if k > middle {
                                text_order::law_text_less_transitive(
                                    key@,
                                    texts[middle as int],
                                    texts[k],
                                );
                            }
                        }
                    }
                    high = middle;
                },
            }
        }
        proof {
            if texts.contains(key@) {
                let k = texts.index_of(key@);
                text_order::law_text_less_irreflexive(texts[k]);
            }
        }
        Err(low)
    }

    /// Whether the map has an entry for a key.
    pub fn contains_key(&self, key: &str) -> (found: bool)
        requires
            self.wf(),
        ensures
            found == self@.contains_key(key@),
    {
        match self.find(key) {
            Ok(_) => true,
            Err(_) => false,
        }
    }

    /// The value of a key.
    pub fn get(&self, key: &str) -> (value: Option<&V>)
        requires
            self.wf(),
        ensures
            match value {
                Some(v) => self@.contains_key(key@) && *v == self@[key@],
                None => !self@.contains_key(key@),
            },
    {
        match self.find(key) {
            Ok(i) => Some(&self.values[i]),
            Err(_) => None,
        }
    }

    /// Gives the value of a key to be changed in place.
    pub fn get_mut(&mut self, key: &str) -> (value: Option<&mut V>)
        requires
            old(self).wf(),
        ensures
            final(self).wf(),
            match value {
                Some(v) => {
                    &&& old(self)@.contains_key(key@)
                    &&& *v == old(self)@[key@]
                    &&& final(self)@ == old(self)@.insert(key@, *final(v))
                },
                None => !old(self)@.contains_key(key@) && *final(self) == *old(self),
            },
    {
        match self.find(key) {
            Ok(i) => {
                proof {
                    lemma_value_changed(*self, i as int);
                }
                Some(&mut self.values[i])
            },
            Err(_) => None,
        }
    }

    /// Sets the value of a key.
    pub fn insert(&mut self, key: String, value: V)
        requires
            old(self).wf(),
        ensures
            final(self).wf(),
            final(self)@ == old(self)@.insert(key@, value),
    {
        let ghost texts = self.texts();
        match self.find(key.as_str()) {
            Ok(i) => {
                proof {
                    lemma_value_changed(*self, i as int);
                }
                self.values.set(i, value);
                assert(self.wf());
                assert(self.values@[i as int] == value);
            },
            Err(i) => {
                let ghost name = key@;
                let ghost before = *self;
                self.keys.insert(i, key);
                self.values.insert(i, value);
                proof {
                    assert(self.texts() =~= texts.insert(i as int, name));
                    lemma_entry_added(before, *self, i as int, name, value);
                }
            },
        }
    }

    /// Takes the entry of a key out of the map, and gives its value.
    pub fn remove(&mut self, key: &str) -> (value: Option<V>)
        requires
            old(self).wf(),
        ensures
            final(self).wf(),
            final(self)@ == old(self)@.remove(key@),
            match value {
                Some(v) => old(self)@.contains_key(key@) && v == old(self)@[key@],
                None => !old(self)@.contains_key(key@),
            },
    {
        match self.find(key) {
            Ok(i) => {
                let ghost before = *self;
                let _ = self.keys.remove(i);
                let value = self.values.remove(i);
                proof {
                    assert(self.texts() =~= before.texts().remove(i as int));
                    lemma_entry_removed(before, *self, i as int);
                }
                Some(value)
            },
            Err(_) => {
                proof {
                    assert(self@.remove(key@) =~= self@);
                }
                None
            },
        }
    }
}

/// To change the value at a position is to set the value of its key.
proof fn lemma_value_changed<V>(before: StringMap<V>, i: int)
    requires
        before.wf(),
        0 <= i < before.keys@.len(),
    ensures
        forall|after: StringMap<V>|
            after.keys == before.keys && after.values@ == before.values@.update(i, after.values@[i])
                ==> #[trigger] after.wf() && after@ == before@.insert(
                before.keys@[i]@,
                after.values@[i],
            ),
{
    assert forall|after: StringMap<V>|
        after.keys == before.keys && after.values@ == before.values@.update(
            i,
            after.values@[i],
        ) implies #[trigger] after.wf() && after@ == before@.insert(
        before.keys@[i]@,
        after.values@[i],
    ) by {
        let key = before.keys@[i]@;
        let value = after.values@[i];
        before.lemma_at(i);
        assert(after.texts() == before.texts());
        assert forall|k: Seq<char>| #[trigger] after@.contains_key(k) implies after@[k]
            == before@.insert(key, value)[k] by {
            let place = after.texts().index_of(k);
            after.lemma_at(place);
            before.lemma_at(place);
            if k == key {
                text_order::lemma_ascending_distinct(after.texts(), place, i);
            }
        }
        assert(after@ =~= before@.insert(key, value));
    }
}

proof fn lemma_entry_added<V>(
    before: StringMap<V>,
    after: StringMap<V>,
    i: int,
    key: Seq<char>,
    value: V,
)
    requires
        before.wf(),
        0 <= i <= before.keys@.len(),
        after.keys@.len() == after.values@.len(),
        after.texts() == before.texts().insert(i, key),
        after.values@ == before.values@.insert(i, value),
        forall|k: int| 0 <= k < i ==> text_order::text_less(#[trigger] before.texts()[k], key),
        forall|k: int|
            i <= k < before.texts().len() ==> text_order::text_less(
                key,
                #[trigger] before.texts()[k],
            ),
    ensures
        after.wf(),
        after@ == before@.insert(key, value),
{
    let x = before.texts();
    let y = after.texts();
    assert forall|a: int, b: int| 0 <= a < b < y.len() implies text_order::text_less(
        #[trigger] y[a],
        #[trigger] y[b],
    ) by {
        if a < i {
            assert(y[a] == x[a]);
        } else if a > i {
            assert(y[a] == x[a - 1]);
        }
        if b < i {
            assert(y[b] == x[b]);
        } else if b > i {
            assert(y[b] == x[b - 1]);
        }
    }
    assert forall|k: Seq<char>| y.contains(k) <==> x.contains(k) || k == key by {
        if x.contains(k) {
            let p = x.index_of(k);
            if p < i {
                assert(y[p] == k);
            } else {
                assert(y[p + 1] == k);
            }
        }
        assert(y[i] == key);
        if y.contains(k) {
            let p = y.index_of(k);
            if p < i {
                assert(x[p] == k);
            } else if p > i {
                assert(x[p - 1] == k);
            }
        }
    }
    assert forall|k: Seq<char>| #[trigger] after@.contains_key(k) implies after@[k]
        == before@.insert(key, value)[k] by {
        let p = y.index_of(k);
        assert(after.keys@[p]@ == k);
        after.lemma_at(p);
        if p < i {
            assert(x[p] == k);
            before.lemma_at(p);
            text_order::law_text_less_irreflexive(key);
        } else if p > i {
            assert(x[p - 1] == k);
            before.lemma_at(p - 1);
            text_order::law_text_less_irreflexive(key);
        }
    }
    assert(after@ =~= before@.insert(key, value));
}

proof fn lemma_entry_removed<V>(before: StringMap<V>, after: StringMap<V>, i: int)
    requires
        before.wf(),
        0 <= i < before.keys@.len(),
        after.keys@.len() == after.values@.len(),
        after.texts() == before.texts().remove(i),
        after.values@ == before.values@.remove(i),
    ensures
        after.wf(),
        after@ == before@.remove(before.keys@[i]@),
{
    let x = before.texts();
    let y = after.texts();
    let key = before.keys@[i]@;
    before.lemma_at(i);
    assert forall|a: int, b: int| 0 <= a < b < y.len() implies text_order::text_less(
        #[trigger] y[a],
        #[trigger] y[b],
    ) by {
        assert(y[a] == x[if a < i { a } else { a + 1 }]);
        assert(y[b] == x[if b < i { b } else { b + 1 }]);
    }
    assert forall|k: Seq<char>| y.contains(k) <==> x.contains(k) && k != key by {
        if x.contains(k) && k != key {
            let p = x.index_of(k);
            if p < i {
                assert(y[p] == k);
            } else {
                assert(y[p - 1] == k);
            }
        }
        if y.contains(k) {
            let p = y.index_of(k);
            let q = if p < i {
                p
            } else {
                p + 1
            };
            assert(x[q] == k);
            if k == key {
                text_order::lemma_ascending_distinct(x, q, i);
            }
        }
    }
    assert forall|k: Seq<char>| #[trigger] after@.contains_key(k) implies after@[k]
        == before@.remove(key)[k] by {
        let p = y.index_of(k);
        assert(after.keys@[p]@ == k);
        after.lemma_at(p);
        let q = if p < i {
            p
        } else {
            p + 1
        };
        assert(x[q] == k);
        before.lemma_at(q);
    }
    assert(after@ =~= before@.remove(key));
}

} // verus!
