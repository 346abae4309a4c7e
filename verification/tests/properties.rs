//! Property and scenario tests shared by every sorting routine: exact
//! expected outputs, boundary cases, idempotence, multiset preservation
//! against a reference sort, randomized reverse-sorted inputs, stability of
//! the index-returning sort, and the quicksort partition invariant.

use rand::Rng;

/// The shared scenario battery for one in-place sorting routine.
fn check_scenarios(sort_fn: fn(&mut Vec<i64>)) {
    // sixteen integers with duplicates of 3 and 44
    let mut v: Vec<i64> = vec![6, 5, 3, 1, 2, 4, 10, 7, 3, 32, 44, 56, 67, 3, 44, 2];
    sort_fn(&mut v);
    assert_eq!(v, vec![1, 2, 2, 3, 3, 3, 4, 5, 6, 7, 10, 32, 44, 44, 56, 67]);

    let mut empty: Vec<i64> = vec![];
    sort_fn(&mut empty);
    assert_eq!(empty, Vec::<i64>::new());

    let mut single: Vec<i64> = vec![1];
    sort_fn(&mut single);
    assert_eq!(single, vec![1]);

    let mut pair: Vec<i64> = vec![2, 1];
    sort_fn(&mut pair);
    assert_eq!(pair, vec![1, 2]);
}

/// An already-sorted vector comes back unchanged.
fn check_sorted_unchanged(sort_fn: fn(&mut Vec<i64>)) {
    let mut v: Vec<i64> = vec![1, 2, 3, 4, 5];
    sort_fn(&mut v);
    assert_eq!(v, vec![1, 2, 3, 4, 5]);
}

/// Sorting twice gives the same vector as sorting once.
fn check_idempotent(sort_fn: fn(&mut Vec<i64>)) {
    let mut once: Vec<i64> = vec![9, -3, 7, 7, 0, -3, 12, 1];
    sort_fn(&mut once);
    let mut twice = once.clone();
    sort_fn(&mut twice);
    assert_eq!(once, twice);
}

/// On random vectors the routine agrees with the standard library sort:
/// same length, same multiset, ascending order.
fn check_against_reference(sort_fn: fn(&mut Vec<i64>)) {
    for len in [0usize, 1, 2, 3, 10, 50] {
        let mut v: Vec<i64> = (0..len)
            .map(|_| rand::thread_rng().gen_range(-49..51))
            .collect();
        let mut reference = v.clone();
        reference.sort();
        sort_fn(&mut v);
        assert_eq!(v.len(), len);
        assert_eq!(v, reference);
    }
}

/// A reverse-sorted vector of fifty random values comes out ascending.
fn check_reverse_random(sort_fn: fn(&mut Vec<i64>)) {
    for _ in 0..10 {
        let mut v: Vec<i64> = (0..50)
            .map(|_| rand::thread_rng().gen_range(-49..51))
            .collect();
        v.sort();
        v.reverse();
        sort_fn(&mut v);
        assert!(v.windows(2).all(|w| w[0] <= w[1]));
        assert_eq!(v.len(), 50);
    }
}

#[test]
fn prop_bubble_scenarios() {
    check_scenarios(sorting::simplesorts::bubble::sort);
}

#[test]
fn prop_bubble_sorted_unchanged() {
    check_sorted_unchanged(sorting::simplesorts::bubble::sort);
}

#[test]
fn prop_bubble_idempotent() {
    check_idempotent(sorting::simplesorts::bubble::sort);
}

#[test]
fn prop_bubble_reference() {
    check_against_reference(sorting::simplesorts::bubble::sort);
}

#[test]
fn prop_bubble_reverse_random() {
    check_reverse_random(sorting::simplesorts::bubble::sort);
}

#[test]
fn prop_insertion_scenarios() {
    check_scenarios(sorting::simplesorts::insertion::sort);
}

#[test]
fn prop_insertion_sorted_unchanged() {
    check_sorted_unchanged(sorting::simplesorts::insertion::sort);
}

#[test]
fn prop_insertion_idempotent() {
    check_idempotent(sorting::simplesorts::insertion::sort);
}

#[test]
fn prop_insertion_reference() {
    check_against_reference(sorting::simplesorts::insertion::sort);
}

#[test]
fn prop_insertion_reverse_random() {
    check_reverse_random(sorting::simplesorts::insertion::sort);
}

#[test]
fn prop_selection_scenarios() {
    check_scenarios(sorting::simplesorts::selection::sort);
}

#[test]
fn prop_selection_sorted_unchanged() {
    check_sorted_unchanged(sorting::simplesorts::selection::sort);
}

#[test]
fn prop_selection_idempotent() {
    check_idempotent(sorting::simplesorts::selection::sort);
}

#[test]
fn prop_selection_reference() {
    check_against_reference(sorting::simplesorts::selection::sort);
}

#[test]
fn prop_selection_reverse_random() {
    check_reverse_random(sorting::simplesorts::selection::sort);
}

#[test]
fn prop_heap_scenarios() {
    check_scenarios(sorting::efficientsorts::heap::sort);
}

#[test]
fn prop_heap_sorted_unchanged() {
    check_sorted_unchanged(sorting::efficientsorts::heap::sort);
}

#[test]
fn prop_heap_idempotent() {
    check_idempotent(sorting::efficientsorts::heap::sort);
}

#[test]
fn prop_heap_reference() {
    check_against_reference(sorting::efficientsorts::heap::sort);
}

#[test]
fn prop_heap_reverse_random() {
    check_reverse_random(sorting::efficientsorts::heap::sort);
}

#[test]
fn prop_merge_scenarios() {
    check_scenarios(sorting::efficientsorts::merge::sort);
}

#[test]
fn prop_merge_sorted_unchanged() {
    check_sorted_unchanged(sorting::efficientsorts::merge::sort);
}

#[test]
fn prop_merge_idempotent() {
    check_idempotent(sorting::efficientsorts::merge::sort);
}

#[test]
fn prop_merge_reference() {
    check_against_reference(sorting::efficientsorts::merge::sort);
}

#[test]
fn prop_merge_reverse_random() {
    check_reverse_random(sorting::efficientsorts::merge::sort);
}

#[test]
fn prop_quick_scenarios() {
    check_scenarios(sorting::efficientsorts::quick::sort);
}

#[test]
fn prop_quick_sorted_unchanged() {
    check_sorted_unchanged(sorting::efficientsorts::quick::sort);
}

#[test]
fn prop_quick_idempotent() {
    check_idempotent(sorting::efficientsorts::quick::sort);
}

#[test]
fn prop_quick_reference() {
    check_against_reference(sorting::efficientsorts::quick::sort);
}

#[test]
fn prop_quick_reverse_random() {
    check_reverse_random(sorting::efficientsorts::quick::sort);
}

/// The index-returning insertion sort leaves its input untouched and hands
/// back the stable sorting permutation.
#[test]
fn prop_indices_expected() {
    let input: Vec<i64> = vec![3, 1, 3, 2, 3];
    let idx = sorting::simplesorts::insertion_sort::sort(&input);
    assert_eq!(input, vec![3, 1, 3, 2, 3]);
    assert_eq!(idx, vec![1, 3, 0, 2, 4]);
}

/// Tied elements keep their original relative order in the returned
/// permutation: stability, observed through indices.
#[test]
fn prop_indices_stable_ties() {
    let input: Vec<i64> = vec![6, 5, 3, 1, 2, 4, 10, 7, 3, 32, 44, 56, 67, 3, 44, 2];
    let idx = sorting::simplesorts::insertion_sort::sort(&input);
    assert_eq!(idx.len(), input.len());
    // a permutation: every position occurs exactly once
    let mut seen = vec![false; input.len()];
    for &k in &idx {
        assert!(k < input.len());
        assert!(!seen[k]);
        seen[k] = true;
    }
    // the input read through it is ascending, with ties by ascending position
    for w in idx.windows(2) {
        assert!(input[w[0]] <= input[w[1]]);
        if input[w[0]] == input[w[1]] {
            assert!(w[0] < w[1]);
        }
    }
}

#[test]
fn prop_indices_empty_and_singleton() {
    let empty: Vec<i64> = vec![];
    assert_eq!(sorting::simplesorts::insertion_sort::sort(&empty), Vec::<usize>::new());
    let single: Vec<i64> = vec![7];
    assert_eq!(sorting::simplesorts::insertion_sort::sort(&single), vec![0]);
}

/// The quicksort partition invariant: everything at or before the returned
/// position is `<=` the pivot, everything after is `>=` it, and the window
/// keeps its elements.
fn check_partition(mut v: Vec<i64>) {
    let n = v.len();
    let mut expected = v.clone();
    expected.sort();
    let p = sorting::efficientsorts::quick::partition(&mut v, 0, n);
    assert!(p < n);
    for k in 0..=p {
        assert!(v[k] <= v[p]);
    }
    for k in p + 1..n {
        assert!(v[k] >= v[p]);
    }
    let mut actual = v.clone();
    actual.sort();
    assert_eq!(actual, expected);
}

#[test]
fn prop_partition_invariant_basic() {
    check_partition(vec![6, 5, 3, 1, 2, 4, 10, 7, 3, 32, 44, 56, 67, 3, 44, 2]);
    check_partition(vec![2, 1]);
    check_partition(vec![1, 2, 3]);
    check_partition(vec![3, 2, 1]);
}

#[test]
fn prop_partition_invariant_duplicates() {
    check_partition(vec![2, 2, 2]);
    check_partition(vec![5, 1, 5, 1, 5]);
    for _ in 0..20 {
        let v: Vec<i64> = (0..30)
            .map(|_| rand::thread_rng().gen_range(-5..5))
            .collect();
        check_partition(v);
    }
}
