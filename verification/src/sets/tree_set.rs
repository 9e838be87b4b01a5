//! A sorted set backend: a flat store of elements kept strictly ascending
//! by model, the counterpart of [`crate::maps::tree_map::TreeMap`].

use vstd::prelude::*;
use crate::keys::{OrderedKey, StoreKey};
use crate::sets::{Container, SetStore};
use crate::store::{distinct_elems, has_elem, index_of_elem, lemma_elem_at_index,
    lemma_sorted_elems_distinct, sorted_elems};

verus! {

/// A set of elements, kept sorted by model.
pub struct TreeSet<T> {
    data: Vec<T>,
}

impl<T: OrderedKey> TreeSet<T> {
    /// Creates a new, empty set.
    pub fn new() -> (r: Self)
        ensures
            r.inv(),
            r.elems() == Seq::<T>::empty(),
    {
        TreeSet { data: Vec::new() }
    }

    /// Finds the position an element occupies or would occupy: the number
    /// of elements strictly below `value`, and whether the element at that
    /// position has `value`'s model.
    fn locate(&self, value: &T) -> (r: (usize, bool))
        requires
            self.inv(),
        ensures
            r.0 <= self.elems().len(),
            forall|j: int|
                0 <= j < r.0 ==> T::le_model((#[trigger] self.elems()[j])@, value@)
                    && self.elems()[j]@ != value@,
            r.1 ==> r.0 < self.elems().len() && self.elems()[r.0 as int]@ == value@
                && has_elem(self.elems(), value@) && index_of_elem(self.elems(), value@)
                == r.0 as int,
            !r.1 ==> !has_elem(self.elems(), value@) && forall|j: int|
                r.0 <= j < self.elems().len() ==> T::le_model(
                    value@,
                    (#[trigger] self.elems()[j])@,
                ) && self.elems()[j]@ != value@,
    {
        let n = self.data.len();
        let mut i: usize = 0;
        while i < n && elem_strictly_below(&self.data[i], value)
            invariant
                n == self.data.len(),
                i <= n,
                self.inv(),
                forall|j: int|
                    0 <= j < i ==> T::le_model((#[trigger] self.data@[j])@, value@)
                        && self.data@[j]@ != value@,
            decreases n - i,
        {
            i = i + 1;
        }
        if i < n && self.data[i].key_eq(value) {
            proof {
                lemma_sorted_elems_distinct(self.data@);
                lemma_elem_at_index(self.data@, i as int);
            }
            (i, true)
        } else {
            proof {
                if i < n {
                    let di = self.data@[i as int]@;
                    T::le_total(di, value@);
                    assert forall|j: int|
                        i <= j < n implies T::le_model(
                        value@,
                        (#[trigger] self.data@[j])@,
                    ) && self.data@[j]@ != value@ by {
                        let dj = self.data@[j]@;
                        if !T::le_model(di, value@) {
                            T::le_total(di, value@);
                        } else {
                            assert(di == value@) by {
                                T::le_antisymmetric(di, value@);
                            }
                        }
                        if j > i {
                            T::le_transitive(value@, di, dj);
                            if dj == value@ {
                                T::le_antisymmetric(value@, di);
                            }
                        }
                    }
                }
                if has_elem(self.data@, value@) {
                    let w = index_of_elem(self.data@, value@);
                    assert(self.data@[w]@ == value@);
                }
            }
            (i, false)
        }
    }
}

/// Decides whether `a`'s model lies strictly below `b`'s.
fn elem_strictly_below<T: OrderedKey>(a: &T, b: &T) -> (r: bool)
    ensures
        r == (T::le_model(a@, b@) && a@ != b@),
{
    a.key_le(b) && !a.key_eq(b)
}

impl<T: OrderedKey> TreeSet<T> {
    /// The order law of a sorted set: its elements ascend strictly by
    /// model, so reading them out yields them in ascending order.
    pub proof fn lemma_elems_sorted(self)
        requires
            self.inv(),
        ensures
            sorted_elems(self.elems()),
    {
    }
}

impl<T: OrderedKey> Default for TreeSet<T> {
    /// Creates a new, empty set.
    fn default() -> (r: Self)
        ensures
            r.inv(),
            r.elems() == Seq::<T>::empty(),
    {
        TreeSet::new()
    }
}

impl<T: OrderedKey> SetStore for TreeSet<T> {
    type Elem = T;

    closed spec fn elems(&self) -> Seq<T> {
        self.data@
    }

    closed spec fn inv(&self) -> bool {
        sorted_elems(self.data@)
    }

    proof fn inv_distinct(&self) {
        lemma_sorted_elems_distinct(self.data@);
    }

    fn empty() -> (r: Self) {
        TreeSet::new()
    }

    fn insert(&mut self, value: T) -> (r: bool) {
        let (i, present) = self.locate(&value);
        if present {
            false
        } else {
            self.data.insert(i, value);
            true
        }
    }

    fn len(&self) -> (r: usize) {
        self.data.len()
    }

    fn is_empty(&self) -> (r: bool) {
        self.data.len() == 0
    }

    fn elem_at(&self, i: usize) -> (r: &T) {
        &self.data[i]
    }
}

impl<T: OrderedKey> Container for TreeSet<T> {
    fn remove(&mut self, value: &T) -> (r: bool) {
        let (i, present) = self.locate(value);
        if present {
            self.data.remove(i);
            true
        } else {
            false
        }
    }

    fn contains(&self, value: &T) -> (r: bool) {
        let (_, present) = self.locate(value);
        present
    }
}

} // verus!
