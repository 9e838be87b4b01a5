use multi_containers::sets::SetStore;
use multi_containers::store::KeyBound;
use multi_containers::test_utils::{is_sorted, unordered_elements_are};
use multi_containers::MultiMapBuilder;

#[test]
fn insert_reports_new_mappings() {
    let mut map = MultiMapBuilder::hash_keys().hash_values().build();
    assert_eq!(map.insert(1, 2), true);
    assert_eq!(map.insert(1, 2), false);
    assert_eq!(map.insert(1, 3), true);
    assert_eq!(map.insert(2, 3), true);
    assert_eq!(map.insert(2, 3), false);
    assert_eq!(map.num_mappings(), 3);
    assert_eq!(map.num_keys(), 2);
}

#[test]
fn insert_reports_new_mappings_sorted() {
    let mut map = MultiMapBuilder::sorted_keys().sorted_values().build();
    assert_eq!(map.insert(1, 2), true);
    assert_eq!(map.insert(1, 2), false);
    assert_eq!(map.insert(1, 3), true);
    assert_eq!(map.insert(2, 3), true);
    assert_eq!(map.insert(2, 3), false);
    assert_eq!(map.num_mappings(), 3);
    assert_eq!(map.num_keys(), 2);
}

#[test]
fn contains_sees_only_inserted_pairs() {
    let mut map = MultiMapBuilder::hash_keys().hash_values().build();
    assert_eq!(map.insert(1, 2), true);
    assert_eq!(map.contains(&1, &2), true);
    assert_eq!(map.contains(&1, &3), false);
    assert_eq!(map.contains(&2, &2), false);
    assert_eq!(map.insert(1, 3), true);
    assert_eq!(map.contains(&1, &3), true);
}

#[test]
fn contains_key_tracks_keys() {
    let mut map = MultiMapBuilder::sorted_keys().hash_values().build();
    assert_eq!(map.insert(1, 2), true);
    assert_eq!(map.contains_key(&1), true);
    assert_eq!(map.contains_key(&2), false);
    assert_eq!(map.insert(2, 3), true);
    assert_eq!(map.contains_key(&2), true);
}

#[test]
fn remove_prunes_emptied_keys() {
    let mut map = MultiMapBuilder::hash_keys().sorted_values().build();
    assert_eq!(map.insert(1, 2), true);
    assert_eq!(map.remove(&1, &2), true);
    assert_eq!(map.remove(&1, &2), false);
    assert_eq!(map.contains_key(&1), false);
    assert_eq!(map.insert(1, 2), true);
    assert_eq!(map.insert(1, 3), true);
    assert_eq!(map.remove(&1, &2), true);
    assert_eq!(map.contains_key(&1), true);
    assert_eq!(map.remove(&1, &3), true);
    assert_eq!(map.remove(&1, &2), false);
    assert_eq!(map.contains_key(&1), false);
    assert!(map.keys().is_empty());
}

#[test]
fn remove_key_takes_whole_value_set() {
    let mut map = MultiMapBuilder::hash_keys().hash_values().build();
    assert_eq!(map.insert(1, 2), true);
    assert_eq!(map.insert(1, 3), true);
    let taken = map.remove_key(&1).unwrap();
    assert_eq!(taken.len(), 2);
    assert!(map.remove_key(&1).is_none());
    assert_eq!(map.num_mappings(), 0);
}

#[test]
fn get_is_read_only_view_of_values() {
    let mut map = MultiMapBuilder::sorted_keys().sorted_values().build();
    assert_eq!(map.insert(1, 2), true);
    assert!(map.get(&1).is_some());
    assert!(map.get(&2).is_none());
    assert_eq!(map.insert(1, 3), true);
    assert_eq!(map.get(&1).unwrap().len(), 2);
}

#[test]
fn keys_lists_each_key_once() {
    let mut map = MultiMapBuilder::hash_keys().hash_values().build();
    assert_eq!(map.insert(1, 2), true);
    assert_eq!(map.insert(2, 3), true);
    assert_eq!(map.insert(2, 4), true);
    assert!(unordered_elements_are(&map.keys(), &vec![1, 2]));
}

#[test]
fn value_sets_pair_keys_with_their_values() {
    let mut map = MultiMapBuilder::hash_keys().hash_values().build();
    assert_eq!(map.insert(1, 2), true);
    assert_eq!(map.insert(2, 3), true);
    let sets = map.value_sets();
    assert_eq!(sets.len(), 2);
    for (k, vs) in &sets {
        if *k == 1 {
            assert_eq!(vs, &vec![2]);
        } else {
            assert_eq!(*k, 2);
            assert_eq!(vs, &vec![3]);
        }
    }
}

#[test]
fn mappings_flatten_all_pairs() {
    let mut map = MultiMapBuilder::hash_keys().hash_values().build();
    assert_eq!(map.insert(1, 2), true);
    assert_eq!(map.insert(1, 3), true);
    assert_eq!(map.insert(2, 3), true);
    assert_eq!(map.insert(2, 4), true);
    let pairs = map.mappings();
    assert_eq!(pairs.len(), 4);
    for expected in [(1, 2), (1, 3), (2, 3), (2, 4)] {
        assert!(pairs.contains(&expected));
    }
}

#[test]
fn is_empty_follows_contents() {
    let mut map = MultiMapBuilder::hash_keys().hash_values().build();
    assert_eq!(map.is_empty(), true);
    assert_eq!(map.insert(1, 2), true);
    assert_eq!(map.is_empty(), false);
    assert_eq!(map.remove(&1, &2), true);
    assert_eq!(map.is_empty(), true);
}

#[test]
fn num_keys_counts_distinct_keys() {
    let mut map = MultiMapBuilder::sorted_keys().sorted_values().build();
    assert_eq!(map.num_keys(), 0);
    assert_eq!(map.insert(1, 2), true);
    assert_eq!(map.num_keys(), 1);
    assert_eq!(map.insert(2, 3), true);
    assert_eq!(map.num_keys(), 2);
    assert_eq!(map.insert(2, 4), true);
    assert_eq!(map.num_keys(), 2);
    assert!(map.remove_key(&1).is_some());
    assert_eq!(map.num_keys(), 1);
    assert!(map.remove_key(&1).is_none());
    assert_eq!(map.num_keys(), 1);
}

#[test]
fn num_mappings_tracks_every_change() {
    let mut map = MultiMapBuilder::hash_keys().hash_values().build();
    assert_eq!(map.num_mappings(), 0);
    assert_eq!(map.insert(1, 2), true);
    assert_eq!(map.num_mappings(), 1);
    assert_eq!(map.insert(1, 3), true);
    assert_eq!(map.num_mappings(), 2);
    assert_eq!(map.insert(2, 3), true);
    assert_eq!(map.num_mappings(), 3);
    assert_eq!(map.insert(2, 4), true);
    assert_eq!(map.num_mappings(), 4);
    assert_eq!(map.remove(&1, &2), true);
    assert_eq!(map.num_mappings(), 3);
    assert_eq!(map.remove(&1, &3), true);
    assert_eq!(map.num_mappings(), 2);
    assert_eq!(map.remove(&2, &3), true);
    assert_eq!(map.num_mappings(), 1);
    assert_eq!(map.remove(&2, &4), true);
    assert_eq!(map.num_mappings(), 0);
}

#[test]
fn num_mappings_equals_flattened_length() {
    let mut map = MultiMapBuilder::sorted_keys().hash_values().build();
    map.insert(1, 2);
    map.insert(2, 3);
    map.insert(2, 4);
    map.insert(3, 5);
    map.remove(&2, &3);
    assert_eq!(map.num_mappings(), map.mappings().len());
}

#[test]
fn sorted_backend_iterates_in_key_order() {
    let mut map = MultiMapBuilder::sorted_keys().hash_values().build();
    assert_eq!(map.insert(1, 2), true);
    assert_eq!(map.insert(3, 5), true);
    assert_eq!(map.insert(2, 3), true);
    assert_eq!(map.insert(2, 4), true);
    assert!(is_sorted(&map.keys()));
    let mapping_keys: Vec<i32> = map.mappings().into_iter().map(|(k, _)| k).collect();
    assert!(is_sorted(&mapping_keys));
}

#[test]
fn sorted_values_keep_each_set_sorted() {
    let mut map = MultiMapBuilder::hash_keys().sorted_values().build();
    assert_eq!(map.insert(1, 2), true);
    assert_eq!(map.insert(2, 4), true);
    assert_eq!(map.insert(2, 3), true);
    assert_eq!(map.insert(3, 5), true);
    for (_, set) in map.value_sets() {
        assert!(is_sorted(&set));
    }
}

#[test]
fn range_yields_exactly_the_keys_between_bounds() {
    let mut map = MultiMapBuilder::sorted_keys().sorted_values().build();
    map.insert(1, 2);
    map.insert(2, 3);
    map.insert(2, 4);
    map.insert(3, 5);
    let within = map.value_sets_in_range(&KeyBound::Included(1), &KeyBound::Excluded(3));
    let range_keys: Vec<i32> = within.iter().map(|(k, _)| *k).collect();
    assert_eq!(range_keys, vec![1, 2]);
    let pairs = map.mappings_in_range(&KeyBound::Included(1), &KeyBound::Excluded(3));
    assert_eq!(pairs, vec![(1, 2), (2, 3), (2, 4)]);
    let open = map.mappings_in_range(&KeyBound::Unbounded, &KeyBound::Unbounded);
    assert_eq!(open.len(), 4);
}
