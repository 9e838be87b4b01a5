use multi_containers::test_utils::{is_sorted, unordered_elements_are};

#[test]
fn unordered_comparison_accepts_permutations() {
    assert!(unordered_elements_are(&vec![1, 2, 3], &vec![3, 1, 2]));
    assert!(unordered_elements_are(&vec![1, 1, 2], &vec![2, 1, 1]));
    assert!(unordered_elements_are(
        &Vec::<u64>::new(),
        &Vec::<u64>::new()
    ));
}

#[test]
fn unordered_comparison_rejects_different_multiplicities() {
    assert!(!unordered_elements_are(&vec![1, 2], &vec![1, 2, 2]));
    assert!(!unordered_elements_are(&vec![1, 2, 2], &vec![1, 2]));
    assert!(!unordered_elements_are(&vec![1, 1, 2], &vec![1, 2, 2]));
    assert!(!unordered_elements_are(&vec![1], &Vec::<i32>::new()));
}

#[test]
fn unordered_comparison_works_on_strings() {
    let left = vec!["b".to_string(), "a".to_string()];
    let right = vec!["a".to_string(), "b".to_string()];
    assert!(unordered_elements_are(&left, &right));
    let short = vec!["a".to_string()];
    assert!(!unordered_elements_are(&left, &short));
}

#[test]
fn sortedness_check_allows_equal_neighbors() {
    assert!(is_sorted(&vec![1, 1, 2, 3]));
    assert!(is_sorted(&vec![5]));
    assert!(is_sorted(&Vec::<u32>::new()));
    assert!(!is_sorted(&vec![2, 1]));
    assert!(!is_sorted(&vec![1, 3, 2]));
}
