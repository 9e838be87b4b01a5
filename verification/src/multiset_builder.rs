//! A fluent way to construct multi-sets: pick the backing map, then build.
//! The builder only selects types at compile time; it carries no data of
//! its own.

use vstd::prelude::*;
use core::marker::PhantomData;
use crate::keys::{OrderedKey, StoreKey};
use crate::maps::hash_table_map::HashTableMap;
use crate::maps::tree_map::TreeMap;
use crate::maps::{Lookup, MapStore};
use crate::multiset::MultiSet;

verus! {

/// A builder for a multi-set. This struct does nothing by itself; it is
/// the start of a chain of method calls that configure the multi-set
/// before building it.
pub struct MultiSetBuilder {}

impl MultiSetBuilder {
    /// Configures the multi-set to keep its values in an unordered map.
    pub fn hash_values<K: StoreKey>() -> (r: MultiSetBuilderWithVals<HashTableMap<K, usize>>) {
        Self::with_map_type()
    }

    /// Configures the multi-set to keep its values in a sorted map.
    pub fn sorted_values<K: OrderedKey>() -> (r: MultiSetBuilderWithVals<TreeMap<K, usize>>) {
        Self::with_map_type()
    }

    /// Configures the multi-set to use any map store from values to
    /// counts, one written outside this crate included.
    pub fn with_map_type<M>() -> (r: MultiSetBuilderWithVals<M>) {
        MultiSetBuilderWithVals { marker: PhantomData }
    }
}

/// A builder for a multi-set whose map type is already chosen.
pub struct MultiSetBuilderWithVals<M> {
    marker: PhantomData<M>,
}

impl<M> MultiSetBuilderWithVals<M> where M: Lookup + MapStore<Val = usize> {
    /// Builds an empty multi-set over the chosen backend.
    pub fn build(self) -> (r: MultiSet<M>)
        ensures
            r.inv(),
            r.entries().len() == 0,
            r.spec_len() == 0,
            forall|m: <M::Key as View>::V| r.spec_count(m) == 0,
    {
        MultiSet::new()
    }
}

} // verus!
