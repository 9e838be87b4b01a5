//! The set capabilities: the minimal operations a value-collection backend
//! must support ([`SetStore`]) and keyed removal and membership
//! ([`Container`]).
//!
//! A backend is modelled by `elems()`, the sequence of its elements in
//! iteration order, constrained by its invariant `inv()`; all contracts are
//! stated over element models.

pub mod hash_table_set;
pub mod tree_set;

pub use self::hash_table_set::HashTableSet;
pub use self::tree_set::TreeSet;

use vstd::prelude::*;
use crate::keys::StoreKey;
use crate::store::{distinct_elems, elem_models, has_elem, index_of_elem};

verus! {

/// A set of elements.
pub trait SetStore: Sized {
    /// The type of elements in the set.
    type Elem: StoreKey;

    /// The elements of the set, in iteration order.
    spec fn elems(&self) -> Seq<Self::Elem>;

    /// The invariant every store operation preserves. It implies that the
    /// element models are distinct.
    spec fn inv(&self) -> bool;

    proof fn inv_distinct(&self)
        requires
            self.inv(),
        ensures
            distinct_elems(self.elems()),
    ;

    /// Creates an empty set.
    fn empty() -> (r: Self)
        ensures
            r.inv(),
            r.elems() == Seq::<Self::Elem>::empty(),
    ;

    /// Inserts a value into the set. Returns `true` if no element with the
    /// same model was present; an element already present stays untouched.
    fn insert(&mut self, value: Self::Elem) -> (r: bool)
        requires
            old(self).inv(),
        ensures
            final(self).inv(),
            if has_elem(old(self).elems(), value@) {
                !r && final(self).elems() == old(self).elems()
            } else {
                r && exists|i: int|
                    0 <= i <= old(self).elems().len() && final(self).elems() == old(
                        self,
                    ).elems().insert(i, value)
            },
    ;

    /// Returns the number of elements in the set.
    fn len(&self) -> (r: usize)
        requires
            self.inv(),
        ensures
            r == self.elems().len(),
    ;

    /// Returns `true` if the set is empty.
    fn is_empty(&self) -> (r: bool)
        requires
            self.inv(),
        ensures
            r == (self.elems().len() == 0),
    ;

    /// Returns the element at position `i` of the iteration order.
    fn elem_at(&self, i: usize) -> (r: &Self::Elem)
        requires
            self.inv(),
            i < self.elems().len(),
        ensures
            *r == self.elems()[i as int],
    ;
}

/// Reads the elements of a set store out into a vector, in the store's
/// iteration order.
pub fn elems_vec<S: SetStore>(s: &S) -> (r: Vec<S::Elem>)
    requires
        s.inv(),
    ensures
        elem_models(r@) == elem_models(s.elems()),
        r@.len() == s.elems().len(),
{
    let n = s.len();
    let mut r: Vec<S::Elem> = Vec::new();
    let mut i: usize = 0;
    while i < n
        invariant
            s.inv(),
            n == s.elems().len(),
            i <= n,
            r@.len() == i,
            forall|j: int| 0 <= j < i ==> (#[trigger] r@[j])@ == s.elems()[j]@,
        decreases n - i,
    {
        r.push(s.elem_at(i).dup());
        i = i + 1;
    }
    proof {
        assert(elem_models(r@) =~= elem_models(s.elems()));
    }
    r
}

/// Membership queries and removal over a [`SetStore`].
pub trait Container: SetStore {
    /// Removes a value from the set. Returns `true` if an element with its
    /// model was present.
    fn remove(&mut self, value: &Self::Elem) -> (r: bool)
        requires
            old(self).inv(),
        ensures
            final(self).inv(),
            if has_elem(old(self).elems(), value@) {
                r && final(self).elems() == old(self).elems().remove(
                    index_of_elem(old(self).elems(), value@),
                )
            } else {
                !r && final(self).elems() == old(self).elems()
            },
    ;

    /// Returns `true` if the set contains an element with the given model.
    fn contains(&self, value: &Self::Elem) -> (r: bool)
        requires
            self.inv(),
        ensures
            r == has_elem(self.elems(), value@),
    ;
}

} // verus!
