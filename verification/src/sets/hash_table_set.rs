//! An unordered set backend: a flat store of elements in insertion order,
//! the counterpart of [`crate::maps::hash_table_map::HashTableMap`].

use vstd::prelude::*;
use crate::keys::StoreKey;
use crate::sets::{Container, SetStore};
use crate::store::{distinct_elems, has_elem, index_of_elem, lemma_elem_at_index};

verus! {

/// An unordered set of elements, kept in insertion order.
pub struct HashTableSet<T> {
    data: Vec<T>,
}

impl<T: StoreKey> HashTableSet<T> {
    /// Creates a new, empty set.
    pub fn new() -> (r: Self)
        ensures
            r.inv(),
            r.elems() == Seq::<T>::empty(),
    {
        HashTableSet { data: Vec::new() }
    }

    /// Finds the position of the element whose model equals `value`'s, if
    /// any.
    fn find(&self, value: &T) -> (r: Option<usize>)
        requires
            self.inv(),
        ensures
            match r {
                Some(i) => {
                    &&& i < self.elems().len()
                    &&& self.elems()[i as int]@ == value@
                    &&& has_elem(self.elems(), value@)
                    &&& index_of_elem(self.elems(), value@) == i as int
                },
                None => !has_elem(self.elems(), value@),
            },
    {
        let n = self.data.len();
        let mut i: usize = 0;
        while i < n
            invariant
                n == self.data.len(),
                i <= n,
                self.inv(),
                forall|j: int| 0 <= j < i ==> (#[trigger] self.data@[j])@ != value@,
            decreases n - i,
        {
            if self.data[i].key_eq(value) {
                proof {
                    lemma_elem_at_index(self.data@, i as int);
                }
                return Some(i);
            }
            i = i + 1;
        }
        None
    }
}

impl<T: StoreKey> Default for HashTableSet<T> {
    /// Creates a new, empty set.
    fn default() -> (r: Self)
        ensures
            r.inv(),
            r.elems() == Seq::<T>::empty(),
    {
        HashTableSet::new()
    }
}

impl<T: StoreKey> SetStore for HashTableSet<T> {
    type Elem = T;

    closed spec fn elems(&self) -> Seq<T> {
        self.data@
    }

    closed spec fn inv(&self) -> bool {
        distinct_elems(self.data@)
    }

    proof fn inv_distinct(&self) {
    }

    fn empty() -> (r: Self) {
        HashTableSet::new()
    }

    fn insert(&mut self, value: T) -> (r: bool) {
        match self.find(&value) {
            Some(_) => false,
            None => {
                self.data.push(value);
                proof {
                    let n = old(self).data@.len() as int;
                    assert(self.data@ =~= old(self).data@.insert(n, value));
                }
                true
            },
        }
    }

    fn len(&self) -> (r: usize) {
        self.data.len()
    }

    fn is_empty(&self) -> (r: bool) {
        self.data.len() == 0
    }

    fn elem_at(&self, i: usize) -> (r: &T) {
        &self.data[i]
    }
}

impl<T: StoreKey> Container for HashTableSet<T> {
    fn remove(&mut self, value: &T) -> (r: bool) {
        match self.find(value) {
            Some(i) => {
                self.data.remove(i);
                true
            },
            None => false,
        }
    }

    fn contains(&self, value: &T) -> (r: bool) {
        self.find(value).is_some()
    }
}

} // verus!
