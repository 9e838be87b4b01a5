//! A fluent way to construct multi-maps: pick the key backend, then the
//! value backend, then build. The builder only selects types at compile
//! time; it carries no data of its own.

use vstd::prelude::*;
use core::marker::PhantomData;
use crate::keys::{OrderedKey, StoreKey};
use crate::maps::hash_table_map::HashTableMap;
use crate::maps::tree_map::TreeMap;
use crate::maps::MapStore;
use crate::multimap::MultiMap;
use crate::sets::hash_table_set::HashTableSet;
use crate::sets::tree_set::TreeSet;
use crate::sets::SetStore;

verus! {

/// A builder for a multi-map. This struct does nothing by itself; it is
/// the start of a chain of method calls that configure the multi-map
/// before building it.
pub struct MultiMapBuilder {}

impl MultiMapBuilder {
    /// Configures the multi-map to keep its keys in an unordered map.
    pub fn hash_keys<K: StoreKey, S>() -> (r: MultiMapBuilderWithKeys<HashTableMap<K, S>>) {
        Self::with_map_type()
    }

    /// Configures the multi-map to keep its keys in a sorted map.
    pub fn sorted_keys<K: OrderedKey, S>() -> (r: MultiMapBuilderWithKeys<TreeMap<K, S>>) {
        Self::with_map_type()
    }

    /// Configures the multi-map to use any map store, one written outside
    /// this crate included.
    pub fn with_map_type<M: MapStore>() -> (r: MultiMapBuilderWithKeys<M>) {
        MultiMapBuilderWithKeys { marker: PhantomData }
    }
}

/// A builder for a multi-map whose map type is already chosen.
pub struct MultiMapBuilderWithKeys<M> {
    marker: PhantomData<M>,
}

impl<M: MapStore> MultiMapBuilderWithKeys<M> {
    /// Configures the multi-map to keep each key's values in an unordered
    /// set.
    pub fn hash_values<V: StoreKey>(self) -> (r: MultiMapBuilderWithKeysAndVals<M>) where
        M: MapStore<Val = HashTableSet<V>>,
    {
        self.with_set_type()
    }

    /// Configures the multi-map to keep each key's values in a sorted set.
    pub fn sorted_values<V: OrderedKey>(self) -> (r: MultiMapBuilderWithKeysAndVals<M>) where
        M: MapStore<Val = TreeSet<V>>,
    {
        self.with_set_type()
    }

    /// Configures the multi-map to use any set store for its values, one
    /// written outside this crate included.
    pub fn with_set_type(self) -> (r: MultiMapBuilderWithKeysAndVals<M>) where
        M::Val: SetStore,
    {
        MultiMapBuilderWithKeysAndVals { marker: PhantomData }
    }
}

/// A builder for a multi-map whose key and value backends are both chosen.
pub struct MultiMapBuilderWithKeysAndVals<M> {
    marker: PhantomData<M>,
}

impl<M> MultiMapBuilderWithKeysAndVals<M> where M: MapStore, M::Val: SetStore {
    /// Builds an empty multi-map over the chosen backends.
    pub fn build(self) -> (r: MultiMap<M>)
        ensures
            r.inv(),
            r.entries().len() == 0,
            r.spec_num_mappings() == 0,
    {
        MultiMap::new()
    }
}

} // verus!
