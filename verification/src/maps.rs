//! The map capabilities: the minimal operations a key-to-value backend must
//! support ([`MapStore`]), keyed queries and removal ([`Lookup`]), and key
//! ranges over a backend that keeps its keys sorted ([`SortedMap`]).
//!
//! A backend is modelled by `entries()`, the sequence of its entries in
//! iteration order, constrained by its invariant `inv()`. Every contract is
//! stated over key models, so a single generic `MultiMap`/`MultiSet` is
//! verified once against these contracts and runs over any backend that
//! implements them.

pub mod hash_table_map;
pub mod tree_map;

pub use self::hash_table_map::HashTableMap;
pub use self::tree_map::TreeMap;

use vstd::prelude::*;
use crate::keys::{OrderedKey, StoreKey};
use crate::store::{distinct_keys, has_key, index_of_key, sorted_keys, value_of, KeyBound,
    above_lower, below_upper};

verus! {

/// A map from keys to values.
pub trait MapStore: Sized {
    /// The type of keys in the map.
    type Key: StoreKey;

    /// The type of values in the map.
    type Val;

    /// The entries of the map, in iteration order.
    spec fn entries(&self) -> Seq<(Self::Key, Self::Val)>;

    /// The invariant every store operation preserves. It implies that key
    /// models are distinct, and a sorted backend strengthens it to a sort
    /// order on the keys.
    spec fn inv(&self) -> bool;

    proof fn inv_distinct(&self)
        requires
            self.inv(),
        ensures
            distinct_keys(self.entries()),
    ;

    /// Creates an empty map.
    fn empty() -> (r: Self)
        ensures
            r.inv(),
            r.entries() == Seq::<(Self::Key, Self::Val)>::empty(),
    ;

    /// Inserts a value into the map. Returns the previous value if the key
    /// was present; the entry then keeps its position. A new entry appears
    /// at a backend-chosen position.
    fn insert(&mut self, key: Self::Key, value: Self::Val) -> (prev: Option<Self::Val>)
        requires
            old(self).inv(),
        ensures
            final(self).inv(),
            match prev {
                Some(p) => {
                    &&& has_key(old(self).entries(), key@)
                    &&& p == value_of(old(self).entries(), key@)
                    &&& final(self).entries() == old(self).entries().update(
                        index_of_key(old(self).entries(), key@),
                        (key, value),
                    )
                },
                None => {
                    &&& !has_key(old(self).entries(), key@)
                    &&& exists|i: int|
                        0 <= i <= old(self).entries().len() && final(self).entries() == old(
                            self,
                        ).entries().insert(i, (key, value))
                },
            },
    ;

    /// Returns a mutable reference to the value under `key`, inserting
    /// `value_if_absent` first when the key is not present. The single
    /// primitive that lets a wrapper create a per-key value lazily.
    fn get_or_insert(&mut self, key: Self::Key, value_if_absent: Self::Val) -> (v: &mut Self::Val)
        requires
            old(self).inv(),
        ensures
            final(self).inv(),
            has_key(final(self).entries(), key@),
            if has_key(old(self).entries(), key@) {
                &&& *v == value_of(old(self).entries(), key@)
                &&& final(self).entries() == old(self).entries().update(
                    index_of_key(old(self).entries(), key@),
                    (old(self).entries()[index_of_key(old(self).entries(), key@)].0, *final(v)),
                )
            } else {
                &&& *v == value_if_absent
                &&& exists|i: int|
                    0 <= i <= old(self).entries().len() && final(self).entries() == old(
                        self,
                    ).entries().insert(i, (key, *final(v)))
            },
    ;

    /// Returns the number of entries in the map.
    fn len(&self) -> (r: usize)
        requires
            self.inv(),
        ensures
            r == self.entries().len(),
    ;

    /// Returns `true` if the map is empty.
    fn is_empty(&self) -> (r: bool)
        requires
            self.inv(),
        ensures
            r == (self.entries().len() == 0),
    ;

    /// Returns the key of the entry at position `i` of the iteration order.
    fn key_at(&self, i: usize) -> (r: &Self::Key)
        requires
            self.inv(),
            i < self.entries().len(),
        ensures
            *r == self.entries()[i as int].0,
    ;

    /// Returns the value of the entry at position `i` of the iteration order.
    fn val_at(&self, i: usize) -> (r: &Self::Val)
        requires
            self.inv(),
            i < self.entries().len(),
        ensures
            *r == self.entries()[i as int].1,
    ;
}

/// Keyed queries and removal over a [`MapStore`].
pub trait Lookup: MapStore {
    /// Returns `true` if the map contains the given key.
    fn contains_key(&self, key: &Self::Key) -> (r: bool)
        requires
            self.inv(),
        ensures
            r == has_key(self.entries(), key@),
    ;

    /// Returns a reference to the value corresponding to the key, if any.
    fn get(&self, key: &Self::Key) -> (r: Option<&Self::Val>)
        requires
            self.inv(),
        ensures
            match r {
                Some(v) => has_key(self.entries(), key@) && *v == value_of(
                    self.entries(),
                    key@,
                ),
                None => !has_key(self.entries(), key@),
            },
    ;

    /// Returns a mutable reference to the value corresponding to the key, if
    /// any. The entry keeps its position; only its value changes.
    fn get_mut(&mut self, key: &Self::Key) -> (r: Option<&mut Self::Val>)
        requires
            old(self).inv(),
        ensures
            final(self).inv(),
            match r {
                Some(v) => {
                    &&& has_key(old(self).entries(), key@)
                    &&& *v == value_of(old(self).entries(), key@)
                    &&& final(self).entries() == old(self).entries().update(
                        index_of_key(old(self).entries(), key@),
                        (
                            old(self).entries()[index_of_key(old(self).entries(), key@)].0,
                            *final(v),
                        ),
                    )
                },
                None => !has_key(old(self).entries(), key@) && final(self).entries() == old(
                    self,
                ).entries(),
            },
    ;

    /// Removes an entry from the map. Returns its value if the key was
    /// present.
    fn remove(&mut self, key: &Self::Key) -> (r: Option<Self::Val>)
        requires
            old(self).inv(),
        ensures
            final(self).inv(),
            match r {
                Some(v) => {
                    &&& has_key(old(self).entries(), key@)
                    &&& v == value_of(old(self).entries(), key@)
                    &&& final(self).entries() == old(self).entries().remove(
                        index_of_key(old(self).entries(), key@),
                    )
                },
                None => !has_key(old(self).entries(), key@) && final(self).entries() == old(
                    self,
                ).entries(),
            },
    ;
}

/// A map that keeps its entries sorted by key model, which makes key ranges
/// meaningful. Only a backend that maintains order can implement this.
pub trait SortedMap: MapStore where Self::Key: OrderedKey {
    /// The invariant of a sorted backend keeps the entries strictly
    /// ascending by key model.
    proof fn inv_sorted(&self)
        requires
            self.inv(),
        ensures
            sorted_keys(self.entries()),
    ;

    /// Returns the half-open index interval of the entries whose key lies
    /// between the two boundaries. Because the entries are sorted, those
    /// entries form one contiguous block.
    fn range_indexes(&self, lo: &KeyBound<Self::Key>, hi: &KeyBound<Self::Key>) -> (r: (
        usize,
        usize,
    ))
        requires
            self.inv(),
        ensures
            r.0 <= r.1 <= self.entries().len(),
            forall|i: int|
                r.0 <= i < r.1 ==> above_lower::<Self::Key>(
                    (#[trigger] self.entries()[i]).0@,
                    *lo,
                ) && below_upper::<Self::Key>(self.entries()[i].0@, *hi),
            forall|i: int|
                0 <= i < r.0 ==> !above_lower::<Self::Key>(
                    (#[trigger] self.entries()[i]).0@,
                    *lo,
                ),
            forall|i: int|
                r.1 <= i < self.entries().len() ==> !below_upper::<Self::Key>(
                    (#[trigger] self.entries()[i]).0@,
                    *hi,
                ),
    ;
}

} // verus!
