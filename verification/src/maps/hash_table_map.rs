//! An unordered map backend: a flat store of entries in insertion order.
//! It answers every query by key model, so it serves wherever the hashed
//! backend of an unverified collection library would, without promising any
//! particular iteration order.

use vstd::prelude::*;
use crate::keys::StoreKey;
use crate::maps::{Lookup, MapStore};
use crate::store::{distinct_keys, has_key, index_of_key, lemma_insert_then_update,
    lemma_key_at_index};

verus! {

/// An unordered map from keys to values, keeping entries in insertion order.
pub struct HashTableMap<K, V> {
    data: Vec<(K, V)>,
}

impl<K: StoreKey, V> HashTableMap<K, V> {
    /// Creates a new, empty map.
    pub fn new() -> (r: Self)
        ensures
            r.inv(),
            r.entries() == Seq::<(K, V)>::empty(),
    {
        HashTableMap { data: Vec::new() }
    }

    /// Finds the position of the entry whose key model equals `key`'s, if
    /// any.
    fn find(&self, key: &K) -> (r: Option<usize>)
        requires
            self.inv(),
        ensures
            match r {
                Some(i) => {
                    &&& i < self.entries().len()
                    &&& self.entries()[i as int].0@ == key@
                    &&& has_key(self.entries(), key@)
                    &&& index_of_key(self.entries(), key@) == i as int
                },
                None => !has_key(self.entries(), key@),
            },
    {
        let n = self.data.len();
        let mut i: usize = 0;
        while i < n
            invariant
                n == self.data.len(),
                i <= n,
                self.inv(),
                forall|j: int| 0 <= j < i ==> (#[trigger] self.data@[j]).0@ != key@,
            decreases n - i,
        {
            if self.data[i].0.key_eq(key) {
                proof {
                    lemma_key_at_index(self.data@, i as int);
                }
                return Some(i);
            }
            i = i + 1;
        }
        None
    }
}

impl<K: StoreKey, V> Default for HashTableMap<K, V> {
    /// Creates a new, empty map.
    fn default() -> (r: Self)
        ensures
            r.inv(),
            r.entries() == Seq::<(K, V)>::empty(),
    {
        HashTableMap::new()
    }
}

impl<K: StoreKey, V> MapStore for HashTableMap<K, V> {
    type Key = K;

    type Val = V;

    closed spec fn entries(&self) -> Seq<(K, V)> {
        self.data@
    }

    closed spec fn inv(&self) -> bool {
        distinct_keys(self.data@)
    }

    proof fn inv_distinct(&self) {
    }

    fn empty() -> (r: Self) {
        HashTableMap::new()
    }

    fn insert(&mut self, key: K, value: V) -> (prev: Option<V>) {
        match self.find(&key) {
            Some(i) => {
                let p = self.data.remove(i);
                self.data.insert(i, (key, value));
                proof {
                    assert(self.data@ =~= old(self).data@.update(i as int, (key, value)));
                }
                Some(p.1)
            },
            None => {
                self.data.push((key, value));
                proof {
                    let n = old(self).data@.len() as int;
                    assert(self.data@ =~= old(self).data@.insert(n, (key, value)));
                }
                None
            },
        }
    }

    fn get_or_insert(&mut self, key: K, value_if_absent: V) -> (v: &mut V) {
        match self.find(&key) {
            Some(i) => {
                let p = &mut self.data[i];
                &mut p.1
            },
            None => {
                self.data.push((key, value_if_absent));
                let i = self.data.len() - 1;
                proof {
                    broadcast use lemma_insert_then_update;

                    let n = old(self).data@.len() as int;
                    assert(self.data@ =~= old(self).data@.insert(n, (key, value_if_absent)));
                }
                let p = &mut self.data[i];
                &mut p.1
            },
        }
    }

    fn len(&self) -> (r: usize) {
        self.data.len()
    }

    fn is_empty(&self) -> (r: bool) {
        self.data.len() == 0
    }

    fn key_at(&self, i: usize) -> (r: &K) {
        &self.data[i].0
    }

    fn val_at(&self, i: usize) -> (r: &V) {
        &self.data[i].1
    }
}

impl<K: StoreKey, V> Lookup for HashTableMap<K, V> {
    fn contains_key(&self, key: &K) -> (r: bool) {
        self.find(key).is_some()
    }

    fn get(&self, key: &K) -> (r: Option<&V>) {
        match self.find(key) {
            Some(i) => Some(&self.data[i].1),
            None => None,
        }
    }

    fn get_mut(&mut self, key: &K) -> (r: Option<&mut V>) {
        match self.find(key) {
            Some(i) => {
                let p = &mut self.data[i];
                Some(&mut p.1)
            },
            None => None,
        }
    }

    fn remove(&mut self, key: &K) -> (r: Option<V>) {
        match self.find(key) {
            Some(i) => {
                let p = self.data.remove(i);
                Some(p.1)
            },
            None => None,
        }
    }
}

} // verus!
