use max_n::comparator::{Reversed, U64Natural};
use max_n::fixed_size_min_heap::FixedSizeMinHeap;
use max_n::max_n_trait::MaxN;
use max_n::selection::{max_n_by_from_iter, max_n_by_with_slice, SelectError};

#[test]
fn top_k_matches_full_sort_reference() {
    let a: Vec<u64> = vec![5, 1, 9, 3, 7, 7, 2, 8, 0, 6];
    let mut b = max_n_by_from_iter(a.clone(), 4, U64Natural).unwrap();
    let mut full = a;
    full.sort();
    b.sort();
    assert_eq!(b[..], full[full.len() - 4..]);
}

#[test]
fn heap_property_holds_after_selection() {
    let a: Vec<u64> = vec![12, 4, 19, 4, 8, 31, 2, 15, 15, 7, 28, 1];
    let k = 6;
    let out = max_n_by_from_iter(a, k, U64Natural).unwrap();
    assert_eq!(out.len(), k);
    for i in 1..k {
        assert!(out[(i - 1) / 2] <= out[i]);
        assert!(out[0] <= out[i]);
    }
}

#[test]
fn sorted_result_is_tail_of_sorted_input() {
    let a: Vec<u64> = vec![3, 3, 3, 1, 2, 2, 9, 0, 9, 3];
    let mut sorted = a.clone();
    sorted.sort();
    for k in 1..=a.len() {
        let mut out = max_n_by_from_iter(a.clone(), k, U64Natural).unwrap();
        out.sort();
        assert_eq!(out[..], sorted[sorted.len() - k..]);
    }
}

#[test]
fn k_equal_one_returns_the_maximum() {
    let a: Vec<u64> = vec![41, 7, 99, 99, 3];
    assert_eq!(max_n_by_from_iter(a, 1, U64Natural).unwrap(), vec![99u64]);
}

#[test]
fn k_equal_len_returns_everything() {
    let a: Vec<u64> = vec![41, 7, 99, 3];
    let mut out = max_n_by_from_iter(a.clone(), a.len(), U64Natural).unwrap();
    let mut full = a;
    out.sort();
    full.sort();
    assert_eq!(out, full);
}

#[test]
fn fewer_than_k_elements_fails() {
    let a: Vec<u64> = vec![1, 2];
    let r = max_n_by_from_iter(a, 3, U64Natural);
    assert_eq!(r, Err(SelectError::InsufficientElements));
}

#[test]
fn empty_input_fails_for_positive_k() {
    let a: Vec<u64> = Vec::new();
    let r = max_n_by_from_iter(a, 1, U64Natural);
    assert_eq!(r, Err(SelectError::InsufficientElements));
}

#[test]
fn offer_of_smaller_element_changes_nothing() {
    let seed: Vec<u64> = vec![5, 7, 6];
    let mut heap = FixedSizeMinHeap::from_array(seed, U64Natural);
    heap.push(4);
    let kept = heap.into_data();
    assert_eq!(kept, vec![5u64, 7, 6]);
}

#[test]
fn offer_of_equal_element_is_rejected() {
    let seed: Vec<u64> = vec![5, 7, 6];
    let mut heap = FixedSizeMinHeap::from_array(seed, U64Natural);
    heap.push(5);
    let kept = heap.into_data();
    assert_eq!(kept, vec![5u64, 7, 6]);
}

#[test]
fn offer_of_greater_element_replaces_the_minimum() {
    let seed: Vec<u64> = vec![5, 7, 6];
    let mut heap = FixedSizeMinHeap::from_array(seed, U64Natural);
    heap.push(9);
    let mut kept = heap.into_data();
    kept.sort();
    assert_eq!(kept, vec![6u64, 7, 9]);
}

#[test]
fn with_slice_selects_over_seed_and_tail() {
    let seed: Vec<u64> = vec![1, 2];
    let tail: Vec<u64> = vec![10, 0, 5];
    let mut out = max_n_by_with_slice(seed, tail, U64Natural);
    out.sort();
    assert_eq!(out, vec![5u64, 10]);
}

#[test]
fn trait_max_n_by_selects_the_largest() {
    let a: Vec<u64> = vec![4, 8, 1, 6];
    let mut out = a.max_n_by(2, U64Natural).unwrap();
    out.sort();
    assert_eq!(out, vec![6u64, 8]);
}

#[test]
fn trait_min_n_by_selects_the_smallest() {
    let a: Vec<u64> = vec![4, 8, 1, 6];
    let mut out = a.min_n_by(2, U64Natural).unwrap();
    out.sort();
    assert_eq!(out, vec![1u64, 4]);
}

#[test]
fn reversed_comparator_selects_minima_via_core() {
    let a: Vec<u64> = vec![9, 2, 7, 2, 5];
    let mut out = max_n_by_from_iter(a, 3, Reversed(U64Natural)).unwrap();
    out.sort();
    assert_eq!(out, vec![2u64, 2, 5]);
}
