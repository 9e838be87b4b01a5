//! A sorted map backend: a flat store of entries kept strictly ascending by
//! key model. It serves wherever the ordered-tree backend of an unverified
//! collection library would, and makes key ranges available.

use vstd::prelude::*;
use crate::keys::{OrderedKey, StoreKey};
use crate::maps::{Lookup, MapStore, SortedMap};
use crate::store::{above_lower, below_upper, distinct_keys, has_key, index_of_key,
    lemma_insert_then_update, lemma_key_at_index, lemma_sorted_keys_distinct, sorted_keys,
    KeyBound};

verus! {

/// A map from keys to values, kept sorted by key model.
pub struct TreeMap<K, V> {
    data: Vec<(K, V)>,
}

/// Decides whether `a`'s model lies strictly below `b`'s.
fn strictly_below<K: OrderedKey>(a: &K, b: &K) -> (r: bool)
    ensures
        r == (K::le_model(a@, b@) && a@ != b@),
{
    a.key_le(b) && !a.key_eq(b)
}

impl<K: OrderedKey, V> TreeMap<K, V> {
    /// Creates a new, empty map.
    pub fn new() -> (r: Self)
        ensures
            r.inv(),
            r.entries() == Seq::<(K, V)>::empty(),
    {
        TreeMap { data: Vec::new() }
    }

    /// Finds the position a key occupies or would occupy: the number of
    /// entries strictly below `key`, and whether the entry at that position
    /// holds `key` itself.
    fn locate(&self, key: &K) -> (r: (usize, bool))
        requires
            self.inv(),
        ensures
            r.0 <= self.entries().len(),
            forall|j: int|
                0 <= j < r.0 ==> K::le_model((#[trigger] self.entries()[j]).0@, key@)
                    && self.entries()[j].0@ != key@,
            r.1 ==> r.0 < self.entries().len() && self.entries()[r.0 as int].0@ == key@
                && has_key(self.entries(), key@) && index_of_key(self.entries(), key@)
                == r.0 as int,
            !r.1 ==> !has_key(self.entries(), key@) && forall|j: int|
                r.0 <= j < self.entries().len() ==> K::le_model(
                    key@,
                    (#[trigger] self.entries()[j]).0@,
                ) && self.entries()[j].0@ != key@,
    {
        let n = self.data.len();
        let mut i: usize = 0;
        while i < n && strictly_below(&self.data[i].0, key)
            invariant
                n == self.data.len(),
                i <= n,
                self.inv(),
                forall|j: int|
                    0 <= j < i ==> K::le_model((#[trigger] self.data@[j]).0@, key@)
                        && self.data@[j].0@ != key@,
            decreases n - i,
        {
            i = i + 1;
        }
        if i < n && self.data[i].0.key_eq(key) {
            proof {
                lemma_sorted_keys_distinct(self.data@);
                lemma_key_at_index(self.data@, i as int);
            }
            (i, true)
        } else {
            proof {
                if i < n {
                    // The scan stopped at an entry not strictly below the
                    // key, and it is not the key, so the key lies below it,
                    // and below everything after it.
                    let di = self.data@[i as int].0@;
                    K::le_total(di, key@);
                    assert forall|j: int|
                        i <= j < n implies K::le_model(
                        key@,
                        (#[trigger] self.data@[j]).0@,
                    ) && self.data@[j].0@ != key@ by {
                        let dj = self.data@[j].0@;
                        if !K::le_model(di, key@) {
                            K::le_total(di, key@);
                        } else {
                            // di <= key and the scan stopped: di == key,
                            // contradicting the equality test.
                            assert(di == key@) by {
                                K::le_antisymmetric(di, key@);
                            }
                        }
                        if j > i {
                            K::le_transitive(key@, di, dj);
                            if dj == key@ {
                                K::le_antisymmetric(key@, di);
                            }
                        }
                    }
                }
                if has_key(self.data@, key@) {
                    let w = index_of_key(self.data@, key@);
                    assert(self.data@[w].0@ == key@);
                }
            }
            (i, false)
        }
    }
}

impl<K: OrderedKey, V> Default for TreeMap<K, V> {
    /// Creates a new, empty map.
    fn default() -> (r: Self)
        ensures
            r.inv(),
            r.entries() == Seq::<(K, V)>::empty(),
    {
        TreeMap::new()
    }
}

impl<K: OrderedKey, V> MapStore for TreeMap<K, V> {
    type Key = K;

    type Val = V;

    closed spec fn entries(&self) -> Seq<(K, V)> {
        self.data@
    }

    closed spec fn inv(&self) -> bool {
        sorted_keys(self.data@)
    }

    proof fn inv_distinct(&self) {
        lemma_sorted_keys_distinct(self.data@);
    }

    fn empty() -> (r: Self) {
        TreeMap::new()
    }

    fn insert(&mut self, key: K, value: V) -> (prev: Option<V>) {
        let (i, present) = self.locate(&key);
        if present {
            let p = self.data.remove(i);
            self.data.insert(i, (key, value));
            proof {
                assert(self.data@ =~= old(self).data@.update(i as int, (key, value)));
            }
            Some(p.1)
        } else {
            self.data.insert(i, (key, value));
            None
        }
    }

    fn get_or_insert(&mut self, key: K, value_if_absent: V) -> (v: &mut V) {
        let (i, present) = self.locate(&key);
        if present {
            let p = &mut self.data[i];
            &mut p.1
        } else {
            self.data.insert(i, (key, value_if_absent));
            proof {
                broadcast use lemma_insert_then_update;

            }
            let p = &mut self.data[i];
            &mut p.1
        }
    }

    fn len(&self) -> (r: usize) {
        self.data.len()
    }

    fn is_empty(&self) -> (r: bool) {
        self.data.len() == 0
    }

    fn key_at(&self, i: usize) -> (r: &K) {
        &self.data[i].0
    }

    fn val_at(&self, i: usize) -> (r: &V) {
        &self.data[i].1
    }
}

impl<K: OrderedKey, V> Lookup for TreeMap<K, V> {
    fn contains_key(&self, key: &K) -> (r: bool) {
        let (_, present) = self.locate(key);
        present
    }

    fn get(&self, key: &K) -> (r: Option<&V>) {
        let (i, present) = self.locate(key);
        if present {
            Some(&self.data[i].1)
        } else {
            None
        }
    }

    fn get_mut(&mut self, key: &K) -> (r: Option<&mut V>) {
        let (i, present) = self.locate(key);
        if present {
            let p = &mut self.data[i];
            Some(&mut p.1)
        } else {
            None
        }
    }

    fn remove(&mut self, key: &K) -> (r: Option<V>) {
        let (i, present) = self.locate(key);
        if present {
            let p = self.data.remove(i);
            Some(p.1)
        } else {
            None
        }
    }
}

impl<K: OrderedKey, V> SortedMap for TreeMap<K, V> {
    proof fn inv_sorted(&self) {
    }

    fn range_indexes(&self, lo: &KeyBound<K>, hi: &KeyBound<K>) -> (r: (usize, usize)) {
        let n = self.data.len();
        let mut a: usize = 0;
        while a < n && !lo.admits_above(&self.data[a].0)
            invariant
                n == self.data.len(),
                a <= n,
                self.inv(),
                forall|j: int|
                    0 <= j < a ==> !above_lower::<K>((#[trigger] self.data@[j]).0@, *lo),
            decreases n - a,
        {
            a = a + 1;
        }
        let mut b: usize = a;
        while b < n && hi.admits_below(&self.data[b].0)
            invariant
                n == self.data.len(),
                a <= b <= n,
                self.inv(),
                forall|j: int|
                    a <= j < b ==> below_upper::<K>((#[trigger] self.data@[j]).0@, *hi),
            decreases n - b,
        {
            b = b + 1;
        }
        proof {
            // The lower boundary, once satisfied, stays satisfied upward.
            if a < n {
                assert forall|j: int|
                    a <= j < b implies above_lower::<K>(
                    (#[trigger] self.data@[j]).0@,
                    *lo,
                ) by {
                    if j > a {
                        let da = self.data@[a as int].0@;
                        let dj = self.data@[j].0@;
                        match *lo {
                            KeyBound::Unbounded => {},
                            KeyBound::Included(k) => {
                                K::le_transitive(k@, da, dj);
                            },
                            KeyBound::Excluded(k) => {
                                K::le_transitive(k@, da, dj);
                                if k@ == dj {
                                    K::le_antisymmetric(da, dj);
                                }
                            },
                        }
                    }
                }
            }
            // The upper boundary, once violated, stays violated upward.
            if b < n {
                assert forall|j: int|
                    b <= j < n implies !below_upper::<K>(
                    (#[trigger] self.data@[j]).0@,
                    *hi,
                ) by {
                    if j > b {
                        let db = self.data@[b as int].0@;
                        let dj = self.data@[j].0@;
                        match *hi {
                            KeyBound::Unbounded => {},
                            KeyBound::Included(k) => {
                                if K::le_model(dj, k@) {
                                    K::le_transitive(db, dj, k@);
                                }
                            },
                            KeyBound::Excluded(k) => {
                                if K::le_model(dj, k@) && k@ != dj {
                                    K::le_transitive(db, dj, k@);
                                    if k@ == db {
                                        K::le_antisymmetric(dj, k@);
                                    }
                                }
                            },
                        }
                    }
                }
            }
        }
        (a, b)
    }
}

} // verus!
