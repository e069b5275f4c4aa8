//! A map from texts to values that remembers the order in which its keys
//! were first inserted.

use vstd::prelude::*;
use vstd::hash_map::StringHashMap;

verus! {

/// The distinct elements of `s`, each at the place of its first occurrence.
pub open spec fn distinct<T>(s: Seq<T>) -> Seq<T>
    decreases s.len(),
{
    if s.len() == 0 {
        Seq::empty()
    } else {
        let before = distinct(s.drop_last());
        if before.contains(s.last()) {
            before
        } else {
            before.push(s.last())
        }
    }
}

/// `distinct(s)` holds every element of `s`, nothing else and nothing twice.
pub proof fn lemma_distinct<T>(s: Seq<T>)
    ensures
        distinct(s).no_duplicates(),
        forall|x: T| #[trigger] distinct(s).contains(x) <==> s.contains(x),
        distinct(s).len() <= s.len(),
    decreases s.len(),
{
    if s.len() > 0 {
        let init = s.drop_last();
        let last = s.last();
        let before = distinct(init);
        let after = distinct(s);
        lemma_distinct(init);
        assert(s == init.push(last));
        assert forall|x: T| #[trigger] after.contains(x) <==> s.contains(x) by {
            assert(before.contains(x) <==> init.contains(x));
            assert(s.contains(x) <==> init.contains(x) || x == last) by {
                if init.contains(x) {
                    let at = choose|at: int| 0 <= at < init.len() && init[at] == x;
                    assert(s[at] == x);
                }
                if x == last {
                    assert(s[s.len() - 1] == x);
                }
            }
            if before.contains(last) {
                assert(after == before);
            } else {
                assert(after == before.push(last));
                assert(after[before.len() as int] == last);
                if before.contains(x) {
                    let place = choose|place: int| 0 <= place < before.len() && before[place] == x;
                    assert(after[place] == x);
                }
                if after.contains(x) && x != last {
                    let place = choose|place: int| 0 <= place < after.len() && after[place] == x;
                    assert(before[place] == x);
                }
            }
        }
    }
}

/// A map keyed by text. No key occurs twice, and the keys stay in the
/// order of their insertion, so walking the map gives the same sequence on
/// every run.
pub struct OrderedMap<V> {
    keys: Vec<String>,
    values: Vec<V>,
    index: StringHashMap<usize>,
}

impl<V> OrderedMap<V> {
    /// The keys, in order of insertion.
    pub closed spec fn keys(&self) -> Seq<Seq<char>> {
        self.keys.deep_view()
    }

    /// The values, each at the place of its key.
    pub closed spec fn values(&self) -> Seq<V> {
        self.values@
    }

    /// Keys and values correspond, and the index leads from each key to its
    /// place.
    pub closed spec fn wf(&self) -> bool {
        &&& self.keys.len() == self.values.len()
        &&& forall|i: int|
            0 <= i < self.keys.len() ==> self.index@.contains_key(#[trigger] self.keys[i]@)
                && self.index@[self.keys[i]@] == i
        &&& forall|key: Seq<char>| #[trigger]
            self.index@.contains_key(key) ==> self.index@[key] < self.keys.len()
                && self.keys[self.index@[key] as int]@ == key
    }

    /// The map from each key to its value.
    pub open spec fn view(&self) -> Map<Seq<char>, V> {
        Map::new(
            |key: Seq<char>| self.keys().contains(key),
            |key: Seq<char>| self.values()[self.keys().index_of(key)],
        )
    }

    /// In a well-formed map there are as many values as keys and no key
    /// occurs twice.
    pub proof fn lemma_wf(&self)
        requires
            self.wf(),
        ensures
            self.keys().len() == self.values().len(),
            self.keys().no_duplicates(),
            forall|i: int|
                0 <= i < self.keys().len() ==> self.keys().index_of(#[trigger] self.keys()[i])
                    == i,
            forall|i: int|
                0 <= i < self.keys().len() ==> self@.contains_key(#[trigger] self.keys()[i])
                    && self@[self.keys()[i]] == self.values()[i],
    {
        let keys = self.keys();
        assert forall|i: int, j: int|
            0 <= i < keys.len() && 0 <= j < keys.len() && i != j implies keys[i] != keys[j] by {
            assert(self.index@[self.keys[i]@] == i);
            assert(self.index@[self.keys[j]@] == j);
        }
        assert forall|i: int| 0 <= i < keys.len() implies keys.index_of(#[trigger] keys[i]) == i
            && self@.contains_key(keys[i]) && self@[keys[i]] == self.values()[i] by {
            keys.index_of_first_ensures(keys[i]);
            let at = keys.index_of(keys[i]);
            assert(keys.contains(keys[i]));
            if at != i {
                assert(keys[at] != keys[i]);
            }
        }
    }

    /// An empty map.
    pub fn new() -> (map: Self)
        ensures
            map.wf(),
            map.keys() == Seq::<Seq<char>>::empty(),
            map.values() == Seq::<V>::empty(),
    {
        OrderedMap { keys: Vec::new(), values: Vec::new(), index: StringHashMap::new() }
    }

    /// The number of keys.
    pub fn len(&self) -> (n: usize)
        requires
            self.wf(),
        ensures
            n == self.keys().len(),
            n == self.values().len(),
    {
        self.keys.len()
    }

    /// The place of `key`, if the map holds it.
    pub fn position(&self, key: &str) -> (place: Option<usize>)
        requires
            self.wf(),
        ensures
            match place {
                Some(i) => i < self.keys().len() && self.keys()[i as int] == key@,
                None => !self.keys().contains(key@),
            },
    {
        match self.index.get(key) {
            Some(i) => Some(*i),
            None => {
                assert(!self.keys().contains(key@)) by {
                    if self.keys().contains(key@) {
                        let at = choose|at: int|
                            0 <= at < self.keys().len() && self.keys()[at] == key@;
                        assert(self.index@.contains_key(self.keys[at]@));
                    }
                }
                None
            },
        }
    }

    /// The key at place `i`.
    pub fn key(&self, i: usize) -> (key: &String)
        requires
            self.wf(),
            i < self.keys().len(),
        ensures
            key@ == self.keys()[i as int],
    {
        &self.keys[i]
    }

    /// The value at place `i`.
    pub fn value(&self, i: usize) -> (value: &V)
        requires
            self.wf(),
            i < self.values().len(),
        ensures
            *value == self.values()[i as int],
    {
        &self.values[i]
    }

    /// Replaces the value at place `i`.
    pub fn set(&mut self, i: usize, value: V)
        requires
            old(self).wf(),
            i < old(self).values().len(),
        ensures
            final(self).wf(),
            final(self).keys() == old(self).keys(),
            final(self).values() == old(self).values().update(i as int, value),
    {
        self.values.set(i, value);
    }

    /// Adds a key that the map does not hold yet, with its value, after all
    /// the others.
    pub fn push(&mut self, key: String, value: V)
        requires
            old(self).wf(),
            !old(self).keys().contains(key@),
        ensures
            final(self).wf(),
            final(self).keys() == old(self).keys().push(key@),
            final(self).values() == old(self).values().push(value),
    {
        let place = self.keys.len();
        let ghost text = key@;
        let copy = key.clone();
        self.index.insert(copy, place);
        self.keys.push(key);
        self.values.push(value);
        proof {
            assert(self.keys.deep_view() == old(self).keys.deep_view().push(text));
            assert forall|i: int| 0 <= i < self.keys.len() implies self.index@.contains_key(
                #[trigger] self.keys[i]@,
            ) && self.index@[self.keys[i]@] == i by {
                if i < place {
                    assert(self.keys[i]@ == old(self).keys[i]@);
                    assert(old(self).keys()[i] == old(self).keys[i]@);
                    assert(old(self).keys().contains(old(self).keys[i]@));
                }
            }
            assert forall|k: Seq<char>| #[trigger] self.index@.contains_key(k) implies
                self.index@[k] < self.keys.len() && self.keys[self.index@[k] as int]@ == k by {
                if k != text {
                    assert(old(self).index@.contains_key(k));
                    assert(self.keys[old(self).index@[k] as int]@ == old(self).keys[old(
                        self,
                    ).index@[k] as int]@);
                }
            }
        }
    }
}

} // verus!
