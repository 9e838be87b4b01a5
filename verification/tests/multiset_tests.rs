use multi_containers::store::KeyBound;
use multi_containers::test_utils::{is_sorted, unordered_elements_are};
use multi_containers::{MultiSet, MultiSetBuilder};

#[test]
fn insert_returns_previous_count() {
    let mut set = MultiSetBuilder::hash_values().build();
    assert_eq!(set.insert(1), 0);
    assert_eq!(set.insert(1), 1);
    assert_eq!(set.insert(2), 0);
    assert_eq!(set.insert(2), 1);
    assert_eq!(set.insert(2), 2);
}

#[test]
fn insert_some_adds_in_bulk() {
    let mut set = MultiSetBuilder::sorted_values().build();
    assert_eq!(set.insert_some(1, 2), 0);
    assert_eq!(set.insert_some(1, 2), 2);
    assert_eq!(set.insert_some(2, 3), 0);
    assert_eq!(set.insert_some(2, 3), 3);
    assert_eq!(set.insert_some(2, 3), 6);
}

#[test]
fn insert_some_of_nothing_changes_nothing() {
    let mut set = MultiSetBuilder::hash_values().build();
    assert_eq!(set.insert_some(7, 0), 0);
    assert_eq!(set.contains(&7), false);
    assert_eq!(set.len(), 0);
    assert_eq!(set.insert_some(7, 2), 0);
    assert_eq!(set.insert_some(7, 0), 2);
    assert_eq!(set.count(&7), 2);
}

#[test]
fn set_count_overwrites_and_prunes() {
    let mut set = MultiSetBuilder::hash_values().build();
    assert_eq!(set.set_count(1, 2), 0);
    assert_eq!(set.set_count(1, 2), 2);
    assert_eq!(set.set_count(2, 3), 0);
    assert_eq!(set.set_count(2, 3), 3);
    assert_eq!(set.set_count(2, 0), 3);
    assert_eq!(set.set_count(2, 0), 0);
    assert_eq!(set.contains(&2), false);
    assert_eq!(set.len(), 2);
}

#[test]
fn remove_counts_down_one_at_a_time() {
    let mut set = MultiSetBuilder::hash_values().build();
    set.insert_some(1, 2);
    set.insert_some(2, 3);
    assert_eq!(set.remove(&1), 2);
    assert_eq!(set.remove(&1), 1);
    assert_eq!(set.remove(&1), 0);
    assert_eq!(set.remove(&2), 3);
    assert_eq!(set.remove(&2), 2);
    assert_eq!(set.remove(&2), 1);
    assert_eq!(set.remove(&2), 0);
}

#[test]
fn remove_scenario_counts_to_zero() {
    let mut set = MultiSetBuilder::hash_values().build();
    assert_eq!(set.insert_some(1, 2), 0);
    assert_eq!(set.count(&1), 2);
    assert_eq!(set.remove(&1), 2);
    assert_eq!(set.count(&1), 1);
    assert_eq!(set.remove(&1), 1);
    assert_eq!(set.count(&1), 0);
    assert_eq!(set.contains(&1), false);
}

#[test]
fn remove_at_most_clamps_to_whats_there() {
    let mut set = MultiSetBuilder::sorted_values().build();
    set.insert_some(1, 2);
    set.insert_some(2, 3);
    assert_eq!(set.remove_at_most(&1, 1), 2);
    assert_eq!(set.remove_at_most(&1, 1), 1);
    assert_eq!(set.remove_at_most(&2, 2), 3);
    assert_eq!(set.remove_at_most(&2, 2), 1);
    assert_eq!(set.remove_at_most(&2, 2), 0);
    assert_eq!(set.len(), 0);
}

#[test]
fn remove_all_takes_every_occurrence() {
    let mut set = MultiSetBuilder::hash_values().build();
    set.insert_some(1, 2);
    set.insert_some(2, 3);
    assert_eq!(set.remove_all(&1), 2);
    assert_eq!(set.remove_all(&1), 0);
    assert_eq!(set.remove_all(&2), 3);
    assert_eq!(set.remove_all(&2), 0);
    assert!(set.is_empty());
}

#[test]
fn contains_sees_positive_counts_only() {
    let mut set = MultiSetBuilder::hash_values().build();
    set.insert_some(1, 2);
    set.insert_some(2, 3);
    assert!(set.contains(&1));
    assert!(set.contains(&2));
    assert!(!set.contains(&3));
}

#[test]
fn count_reports_occurrences() {
    let mut set = MultiSetBuilder::sorted_values().build();
    set.insert_some(1, 2);
    set.insert_some(2, 3);
    assert_eq!(set.count(&1), 2);
    assert_eq!(set.count(&2), 3);
    assert_eq!(set.count(&3), 0);
}

#[test]
fn is_empty_follows_length() {
    let mut set = MultiSetBuilder::hash_values().build();
    assert!(set.is_empty());
    set.insert(1);
    assert!(!set.is_empty());
    set.remove(&1);
    assert!(set.is_empty());
}

#[test]
fn len_sums_all_counts() {
    let mut set = MultiSetBuilder::hash_values().build();
    assert_eq!(set.len(), 0);
    set.insert(1);
    assert_eq!(set.len(), 1);
    set.insert(1);
    assert_eq!(set.len(), 2);
    set.insert(2);
    assert_eq!(set.len(), 3);
    set.remove(&1);
    assert_eq!(set.len(), 2);
    set.remove_all(&1);
    assert_eq!(set.len(), 1);
}

#[test]
fn iter_repeats_each_value_by_count() {
    let mut set = MultiSetBuilder::hash_values().build();
    set.insert_some(1, 2);
    set.insert_some(2, 3);
    assert!(unordered_elements_are(&set.iter(), &vec![1, 1, 2, 2, 2]));
    assert_eq!(set.iter().len(), set.len());
}

#[test]
fn counts_lists_each_value_once() {
    let mut set = MultiSetBuilder::hash_values().build();
    set.insert_some(1, 2);
    set.insert_some(2, 3);
    let counts = set.counts();
    assert_eq!(counts.len(), 2);
    for (v, c) in &counts {
        if *v == 1 {
            assert_eq!(*c, 2);
        } else {
            assert_eq!(*v, 2);
            assert_eq!(*c, 3);
        }
    }
}

#[test]
fn from_values_counts_duplicates() {
    let set: multi_containers::HashMultiSet<i32> = MultiSet::from_values(vec![1, 1, 2, 2, 2]);
    assert!(unordered_elements_are(&set.iter(), &vec![1, 1, 2, 2, 2]));
    assert_eq!(set.count(&1), 2);
    assert_eq!(set.count(&2), 3);
}

#[test]
fn extreme_counts_survive_clamping() {
    let mut set = MultiSetBuilder::hash_values().build();
    assert_eq!(set.insert_some(1u64, usize::MAX), 0);
    assert_eq!(set.len(), usize::MAX);
    assert_eq!(set.count(&1), usize::MAX);
    assert_eq!(set.remove_at_most(&1, usize::MAX), usize::MAX);
    assert_eq!(set.len(), 0);
    assert_eq!(set.contains(&1), false);
}

#[test]
fn sorted_ranges_come_out_ascending() {
    let mut set = MultiSetBuilder::sorted_values().build();
    set.insert_some(1, 2);
    set.insert_some(2, 3);
    assert!(is_sorted(&set.range(
        &KeyBound::Unbounded,
        &KeyBound::Unbounded
    )));
    assert!(is_sorted(&set.range(
        &KeyBound::Included(1),
        &KeyBound::Unbounded
    )));
    assert!(is_sorted(&set.range(
        &KeyBound::Unbounded,
        &KeyBound::Excluded(2)
    )));
    assert!(is_sorted(&set.range(
        &KeyBound::Included(1),
        &KeyBound::Excluded(2)
    )));
}

#[test]
fn sorted_range_counts_restrict_to_bounds() {
    let mut set = MultiSetBuilder::sorted_values().build();
    set.insert_some(1, 2);
    set.insert_some(2, 3);
    set.insert_some(3, 4);
    set.insert_some(5, 6);
    let counts = set.range_counts(&KeyBound::Included(2), &KeyBound::Excluded(4));
    assert_eq!(counts, vec![(2, 3), (3, 4)]);
    let values = set.range(&KeyBound::Included(2), &KeyBound::Excluded(4));
    assert_eq!(values, vec![2, 2, 2, 3, 3, 3, 3]);
}
