//! A map from numbers to values that keeps the order in which the keys came.

use vstd::prelude::*;

verus! {

/// A map from numbers to values, kept as a list of keys and a list of
/// values in the order in which the keys came.
pub struct Table<V> {
    keys: Vec<usize>,
    values: Vec<V>,
}

/// The position of a key in a list of keys without duplicates.
pub open spec fn spec_position(keys: Seq<usize>, key: usize) -> Option<int> {
    if keys.contains(key) {
        Some(keys.index_of(key))
    } else {
        None
    }
}

impl<V> Table<V> {
    /// The keys, in the order in which they came.
    pub closed spec fn spec_keys(&self) -> Seq<usize> {
        self.keys@
    }

    /// The values, each at the position of its key.
    pub closed spec fn spec_values(&self) -> Seq<V> {
        self.values@
    }

    /// Each key has one value, and no key comes twice.
    pub open spec fn wf(&self) -> bool {
        self.spec_keys().len() == self.spec_values().len() && self.spec_keys().no_duplicates()
    }

    /// An empty table.
    pub fn new() -> (table: Table<V>)
        ensures
            table.wf(),
            table.spec_keys().len() == 0,
            table.spec_values().len() == 0,
    {
        Table { keys: Vec::new(), values: Vec::new() }
    }

    /// The number of keys.
    pub fn len(&self) -> (n: usize)
        ensures
            n == self.spec_keys().len(),
    {
        self.keys.len()
    }

    /// The position of a key.
    pub fn find(&self, key: usize) -> (at: Option<usize>)
        requires
            self.wf(),
        ensures
            at matches Some(i) ==> i < self.spec_keys().len() && self.spec_keys()[i as int] == key,
            at is None ==> !self.spec_keys().contains(key),
            (match at {
                Some(i) => Some(i as int),
                None => None,
            }) == spec_position(self.spec_keys(), key),
    {
        let mut i: usize = 0;
        while i < self.keys.len()
            invariant
                self.wf(),
                i <= self.keys@.len(),
                forall|j: int| 0 <= j < i ==> self.keys@[j] != key,
            decreases self.keys@.len() - i,
        {
            if self.keys[i] == key {
                proof {
                    assert(self.keys@.contains(key));
                    let k = self.keys@.index_of(key);
                    assert(0 <= k < self.keys@.len() && self.keys@[k] == key);
                    assert(k == i);
                }
                return Some(i);
            }
            i = i + 1;
        }
        None
    }

    /// The key at a position.
    pub fn key(&self, i: usize) -> (key: usize)
        requires
            i < self.spec_keys().len(),
        ensures
            key == self.spec_keys()[i as int],
    {
        self.keys[i]
    }

    /// The value at a position.
    pub fn value(&self, i: usize) -> (value: &V)
        requires
            i < self.spec_values().len(),
        ensures
            *value == self.spec_values()[i as int],
    {
        &self.values[i]
    }

    /// The value at a position, to be changed in place.
    pub fn value_mut(&mut self, i: usize) -> (value: &mut V)
        requires
            old(self).wf(),
            i < old(self).spec_values().len(),
        ensures
            *value == old(self).spec_values()[i as int],
            final(self).spec_keys() == old(self).spec_keys(),
            final(self).spec_values() == old(self).spec_values().update(i as int, *final(value)),
            final(self).wf(),
    {
        &mut self.values[i]
    }

    /// Puts a value in the place of the value at a position, and hands
    /// the old one out.
    pub fn replace(&mut self, i: usize, value: V) -> (was: V)
        requires
            old(self).wf(),
            i < old(self).spec_values().len(),
        ensures
            final(self).wf(),
            was == old(self).spec_values()[i as int],
            final(self).spec_keys() == old(self).spec_keys(),
            final(self).spec_values() == old(self).spec_values().update(i as int, value),
    {
        let mut value = value;
        core::mem::swap(&mut self.values[i], &mut value);
        value
    }

    /// Adds a key with its value at the end. The key must be new.
    pub fn push(&mut self, key: usize, value: V)
        requires
            old(self).wf(),
            !old(self).spec_keys().contains(key),
        ensures
            final(self).wf(),
            final(self).spec_keys() == old(self).spec_keys().push(key),
            final(self).spec_values() == old(self).spec_values().push(value),
    {
        self.keys.push(key);
        self.values.push(value);
        proof {
            assert forall|a: int, b: int| 0 <= a < b < self.keys@.len() implies self.keys@[a] != self.keys@[b] by {
                if b == self.keys@.len() - 1 {
                    assert(old(self).keys@.contains(self.keys@[a]) ==> true);
                    if self.keys@[a] == key {
                        assert(old(self).keys@[a] == key);
                    }
                }
            }
        }
    }

    /// Takes the key at a position out, with its value.
    pub fn remove(&mut self, i: usize) -> (was: (usize, V))
        requires
            old(self).wf(),
            i < old(self).spec_keys().len(),
        ensures
            final(self).wf(),
            was.0 == old(self).spec_keys()[i as int],
            was.1 == old(self).spec_values()[i as int],
            final(self).spec_keys() == old(self).spec_keys().remove(i as int),
            final(self).spec_values() == old(self).spec_values().remove(i as int),
    {
        let key = self.keys.remove(i);
        let value = self.values.remove(i);
        (key, value)
    }
}

} // verus!
