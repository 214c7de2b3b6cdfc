//! Tests for the ordered-sum enumeration used by size-indexed search.

use synthesizer::sum_permutations;

#[test]
fn test_sum_permutations() {
    let res = sum_permutations(3, 9);
    assert!(res.iter().all(|v| v.iter().sum::<usize>() == 9));
    assert!(res.iter().all(|v| v.iter().count() == 3));
    assert!(res.iter().any(|v| v == &[3, 3, 3]));
    assert!(res.iter().any(|v| v == &[1, 5, 3]));
    assert!(res.iter().any(|v| v == &[3, 5, 1]));
}

#[test]
fn test_sum_permutations_zero_length() {
    let res = sum_permutations(0, 0);
    assert_eq!(res.len(), 1);
    assert!(res[0].is_empty());
    let none = sum_permutations(0, 4);
    assert!(none.is_empty());
}

#[test]
fn test_sum_permutations_exact_set() {
    let res = sum_permutations(2, 2);
    assert_eq!(res.len(), 3);
    assert!(res.iter().any(|v| v == &[0, 2]));
    assert!(res.iter().any(|v| v == &[1, 1]));
    assert!(res.iter().any(|v| v == &[2, 0]));
}
