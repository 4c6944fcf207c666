//! Maps whose keys are strings.

use vstd::prelude::*;
use crate::order;
use crate::string_set;
use crate::string_set::StringSet;

verus! {

/// A map from strings to values. The keys are kept in ascending order, each value at the
/// position of its key.
pub struct StringMap<V> {
    keys: StringSet,
    values: Vec<V>,
}

impl<V> View for StringMap<V> {
    type V = Map<Seq<char>, V>;

    closed spec fn view(&self) -> Map<Seq<char>, V> {
        Map::new(
            |key: Seq<char>| self.keys@.contains(key),
            |key: Seq<char>| self.values@[self.keys.elements().index_of(key)],
        )
    }
}

impl<V> StringMap<V> {
    /// The keys in ascending order.
    pub closed spec fn key_list(&self) -> Seq<Seq<char>> {
        self.keys.elements()
    }

    /// The values in the order of their keys.
    pub closed spec fn value_list(&self) -> Seq<V> {
        self.values@
    }

    /// The keys are in ascending order, none of them twice, and each has a value.
    pub closed spec fn wf(&self) -> bool {
        &&& self.keys.wf()
        &&& self.values@.len() == self.keys.elements().len()
    }

    /// How the map reads in terms of its keys and values.
    pub proof fn lemma_entries(&self)
        requires
            self.wf(),
        ensures
            string_set::lists(self.key_list(), self@.dom()),
            self.value_list().len() == self.key_list().len(),
            self@.dom().finite(),
            self@.len() == self.key_list().len(),
            forall|i: int|
                0 <= i < self.key_list().len() ==> {
                    &&& self@.contains_key(#[trigger] self.key_list()[i])
                    &&& self@[self.key_list()[i]] == self.value_list()[i]
                },
            forall|key: Seq<char>| #[trigger]
                self@.contains_key(key) ==> exists|i: int|
                    0 <= i < self.key_list().len() && #[trigger] self.key_list()[i] == key,
    {
        let keys = self.key_list();
        string_set::lemma_ascending_no_duplicates(keys);
        keys.unique_seq_to_set();
        assert(self@.dom() =~= keys.to_set());
        assert forall|i: int| 0 <= i < keys.len() implies self@.contains_key(#[trigger] keys[i])
            && self@[keys[i]] == self.value_list()[i] by {
            assert(keys.contains(keys[i]));
            assert(keys.index_of(keys[i]) == i);
        }
    }

    pub fn new() -> (map: Self)
        ensures
            map.wf(),
            map@ == Map::<Seq<char>, V>::empty(),
    {
        let map = StringMap { keys: StringSet::new(), values: Vec::new() };
        proof {
            if map.keys.elements().len() > 0 {
                assert(map.keys@.contains(map.keys.elements()[0]));
            }
            assert(map@ =~= Map::<Seq<char>, V>::empty());
        }
        map
    }

    /// Number of entries.
    pub fn len(&self) -> (n: usize)
        requires
            self.wf(),
        ensures
            n == self@.len(),
            n == self.key_list().len(),
            self@.dom().finite(),
    {
        proof {
            self.lemma_entries();
        }
        self.values.len()
    }

    /// The keys of the map.
    pub fn keys(&self) -> (keys: &StringSet)
        requires
            self.wf(),
        ensures
            keys.wf(),
            keys.elements() == self.key_list(),
            keys@ == self@.dom(),
    {
        proof {
            self.lemma_entries();
        }
        &self.keys
    }

    /// Finds the position of `key`, or the position at which it would have to be inserted.
    pub fn find(&self, key: &str) -> (position: Result<usize, usize>)
        requires
            self.wf(),
        ensures
            match position {
                Ok(i) => {
                    &&& i < self.key_list().len()
                    &&& self.key_list()[i as int] == key@
                    &&& self@.contains_key(key@)
                    &&& self@[key@] == self.value_list()[i as int]
                },
                Err(i) => {
                    &&& !self@.contains_key(key@)
                    &&& i <= self.key_list().len()
                    &&& forall|j: int|
                        0 <= j < i ==> order::str_lt(#[trigger] self.key_list()[j], key@)
                    &&& forall|j: int|
                        i <= j < self.key_list().len() ==> order::str_lt(
                            key@,
                            #[trigger] self.key_list()[j],
                        )
                },
            },
    {
        proof {
            self.lemma_entries();
        }
        self.keys.find(key)
    }

    /// Whether the map has an entry for `key`.
    pub fn contains_key(&self, key: &str) -> (yes: bool)
        requires
            self.wf(),
        ensures
            yes == self@.contains_key(key@),
    {
        match self.find(key) {
            Ok(_) => true,
            Err(_) => false,
        }
    }

    /// The value of `key`.
    pub fn get(&self, key: &str) -> (value: Option<&V>)
        requires
            self.wf(),
        ensures
            match value {
                Some(v) => self@.contains_key(key@) && *v == self@[key@],
                None => !self@.contains_key(key@),
            },
    {
        match self.find(key) {
            Ok(i) => Some(&self.values[i]),
            Err(_) => None,
        }
    }

    /// The value at position `i` in the order of the keys.
    pub fn value_at(&self, i: usize) -> (value: &V)
        requires
            self.wf(),
            i < self.key_list().len(),
        ensures
            *value == self.value_list()[i as int],
            self@.contains_key(self.key_list()[i as int]),
            *value == self@[self.key_list()[i as int]],
    {
        proof {
            self.lemma_entries();
        }
        &self.values[i]
    }

    /// The value at position `i` in the order of the keys, for changing it in place.
    pub fn value_mut(&mut self, i: usize) -> (value: &mut V)
        requires
            old(self).wf(),
            i < old(self).key_list().len(),
        ensures
            *value == old(self).value_list()[i as int],
            *value == old(self)@[old(self).key_list()[i as int]],
            final(self).wf(),
            final(self).key_list() == old(self).key_list(),
            final(self)@ == old(self)@.insert(old(self).key_list()[i as int], *final(value)),
    {
        &mut self.values[i]
    }

    /// Adds an entry for `key`, which has none yet, at the position that belongs to it.
    pub fn insert_at(&mut self, i: usize, key: String, value: V)
        requires
            old(self).wf(),
            i <= old(self).key_list().len(),
            forall|j: int|
                0 <= j < i ==> order::str_lt(#[trigger] old(self).key_list()[j], key@),
            forall|j: int|
                i <= j < old(self).key_list().len() ==> order::str_lt(
                    key@,
                    #[trigger] old(self).key_list()[j],
                ),
        ensures
            final(self).wf(),
            final(self)@ == old(self)@.insert(key@, value),
            final(self).key_list() == old(self).key_list().insert(i as int, key@),
    {
        let ghost name = key@;
        self.keys.insert_at(i, key);
        self.values.insert(i, value);
        proof {
            old(self).lemma_entries();
            self.lemma_entries();
            let before = old(self).key_list();
            let after = self.key_list();
            assert(after[i as int] == name);
            assert forall|other: Seq<char>|
                old(self)@.contains_key(other) implies self@[other] == old(self)@.insert(
                name,
                value,
            )[other] by {
                let j = choose|j: int| 0 <= j < before.len() && before[j] == other;
                let k = if j < i {
                    j
                } else {
                    j + 1
                };
                assert(after[k] == other);
                string_set::lemma_ascending_no_duplicates(after);
            }
            assert(self@ =~= old(self)@.insert(name, value));
        }
    }

    /// Sets the value of `key` and returns the one that it had before.
    pub fn insert(&mut self, key: String, value: V) -> (previous: Option<V>)
        requires
            old(self).wf(),
        ensures
            final(self).wf(),
            final(self)@ == old(self)@.insert(key@, value),
            match previous {
                Some(v) => old(self)@.contains_key(key@) && v == old(self)@[key@],
                None => !old(self)@.contains_key(key@),
            },
    {
        match self.find(key.as_str()) {
            Ok(i) => {
                let mut previous = value;
                std::mem::swap(&mut previous, self.value_mut(i));
                Some(previous)
            },
            Err(i) => {
                self.insert_at(i, key, value);
                None
            },
        }
    }

    /// Removes the entry at position `i` and returns its value.
    pub fn remove_at(&mut self, i: usize) -> (value: V)
        requires
            old(self).wf(),
            i < old(self).key_list().len(),
        ensures
            final(self).wf(),
            value == old(self)@[old(self).key_list()[i as int]],
            final(self)@ == old(self)@.remove(old(self).key_list()[i as int]),
            final(self).key_list() == old(self).key_list().remove(i as int),
    {
        self.keys.remove_at(i);
        let value = self.values.remove(i);
        proof {
            old(self).lemma_entries();
            self.lemma_entries();
            let before = old(self).key_list();
            let after = self.key_list();
            let name = before[i as int];
            assert forall|other: Seq<char>|
                old(self)@.contains_key(other) && other != name implies self@.contains_key(other)
                && self@[other] == old(self)@[other] by {
                let j = choose|j: int| 0 <= j < before.len() && before[j] == other;
                let k = if j < i {
                    j
                } else {
                    j - 1
                };
                assert(after[k] == other);
            }
            assert(self@ =~= old(self)@.remove(name));
        }
        value
    }

    /// Removes the entry of `key` and returns its value.
    pub fn remove(&mut self, key: &str) -> (value: Option<V>)
        requires
            old(self).wf(),
        ensures
            final(self).wf(),
            final(self)@ == old(self)@.remove(key@),
            match value {
                Some(v) => old(self)@.contains_key(key@) && v == old(self)@[key@],
                None => !old(self)@.contains_key(key@),
            },
    {
        match self.find(key) {
            Ok(i) => Some(self.remove_at(i)),
            Err(_) => {
                assert(self@ =~= old(self)@.remove(key@));
                None
            },
        }
    }

    /// Removes all entries.
    pub fn clear(&mut self)
        ensures
            final(self).wf(),
            final(self)@ == Map::<Seq<char>, V>::empty(),
    {
        *self = StringMap::new();
    }
}

} // verus!
