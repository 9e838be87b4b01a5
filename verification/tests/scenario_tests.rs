use multi_containers::store::KeyBound;
use multi_containers::test_utils::unordered_elements_are;
use multi_containers::{BTreeMultiMap, HashMultiMap, MultiMap, MultiMapBuilder};

#[test]
fn scenario_insert_twice_counts_once() {
    let mut map = MultiMapBuilder::hash_keys().hash_values().build();
    assert_eq!(map.insert(1, 2), true);
    assert_eq!(map.insert(1, 2), false);
    assert_eq!(map.insert(1, 3), true);
    assert_eq!(map.insert(2, 3), true);
    assert_eq!(map.insert(2, 3), false);
    assert_eq!(map.num_mappings(), 3);
    assert_eq!(map.num_keys(), 2);
}

#[test]
fn scenario_redundant_insert_keeps_length() {
    let mut map = MultiMapBuilder::sorted_keys().sorted_values().build();
    assert_eq!(map.insert(4, 7), true);
    let before = map.num_mappings();
    assert_eq!(map.insert(4, 7), false);
    assert_eq!(map.num_mappings(), before);
}

#[test]
fn scenario_last_removal_drops_the_key() {
    let mut map = MultiMapBuilder::hash_keys().hash_values().build();
    map.insert("a".to_string(), 1);
    assert_eq!(map.remove(&"a".to_string(), &1), true);
    assert_eq!(map.remove(&"a".to_string(), &1), false);
    assert_eq!(map.contains_key(&"a".to_string()), false);
}

#[test]
fn scenario_sorted_range_flattens_inner_keys() {
    let mut map: BTreeMultiMap<u64, u64> = MultiMap::new();
    map.insert(1, 10);
    map.insert(2, 21);
    map.insert(2, 20);
    map.insert(3, 30);
    map.insert(4, 40);
    let pairs = map.mappings_in_range(&KeyBound::Included(2), &KeyBound::Included(3));
    assert_eq!(pairs, vec![(2, 20), (2, 21), (3, 30)]);
}

#[test]
fn scenario_from_entries_matches_sequential_inserts() {
    let built: HashMultiMap<u64, u64> =
        MultiMap::from_entries(vec![(1, 2), (1, 3), (2, 3)]);
    let mut manual: HashMultiMap<u64, u64> = MultiMap::new();
    manual.insert(1, 2);
    manual.insert(1, 3);
    manual.insert(2, 3);
    assert_eq!(built.num_mappings(), manual.num_mappings());
    assert_eq!(built.num_keys(), manual.num_keys());
    assert!(unordered_elements_are(&built.keys(), &manual.keys()));
    for (k, v) in manual.mappings() {
        assert!(built.contains(&k, &v));
    }
    for (k, v) in built.mappings() {
        assert!(manual.contains(&k, &v));
    }
}

#[test]
fn scenario_empty_map_answers_quietly() {
    let mut map: HashMultiMap<u64, u64> = MultiMap::new();
    assert!(map.is_empty());
    assert_eq!(map.num_keys(), 0);
    assert_eq!(map.num_mappings(), 0);
    assert_eq!(map.contains_key(&1), false);
    assert_eq!(map.remove(&1, &2), false);
    assert!(map.remove_key(&1).is_none());
    assert!(map.get(&1).is_none());
    assert!(map.keys().is_empty());
    assert!(map.mappings().is_empty());
}

#[test]
fn scenario_borrowed_and_owned_key_agree() {
    let mut map = MultiMapBuilder::hash_keys().hash_values().build();
    map.insert("shared".to_string(), 5);
    let owned = "shared".to_string();
    let rebuilt = String::from("shared");
    assert_eq!(map.contains_key(&owned), map.contains_key(&rebuilt));
    assert!(map.contains_key(&rebuilt));
}
