//! Containers that keep several values per key: a `MultiMap` (each key owns a
//! set of distinct values) and a `MultiSet` (each value carries a count), both
//! written once, generically, over small capability traits that a backing map
//! or set implements.

pub mod keys;
pub mod maps;
pub mod multimap;
pub mod multimap_builder;
pub mod multiset;
pub mod multiset_builder;
pub mod sets;
pub mod store;
pub mod test_utils;

pub use crate::multimap::MultiMap;
pub use crate::multimap_builder::MultiMapBuilder;
pub use crate::multiset::MultiSet;
pub use crate::multiset_builder::MultiSetBuilder;

use vstd::prelude::*;

verus! {

/// A multi-map that keeps keys and value sets unordered.
pub type HashMultiMap<K, V> = MultiMap<
    crate::maps::hash_table_map::HashTableMap<K, crate::sets::hash_table_set::HashTableSet<V>>,
>;

/// A multi-set that keeps its values unordered.
pub type HashMultiSet<K> = MultiSet<crate::maps::hash_table_map::HashTableMap<K, usize>>;

/// A multi-map that keeps its keys and each value set sorted.
pub type BTreeMultiMap<K, V> = MultiMap<
    crate::maps::tree_map::TreeMap<K, crate::sets::tree_set::TreeSet<V>>,
>;

/// A multi-set that keeps its values sorted.
pub type BTreeMultiSet<K> = MultiSet<crate::maps::tree_map::TreeMap<K, usize>>;

} // verus!
