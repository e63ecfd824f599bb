use beams::choice::{largest_at_most, smallest_at_least};
use beams::pool::{sort_descending, total_material};

#[test]
fn sorting_puts_the_longest_first() {
    let mut pieces = vec![10, 50, 20, 50, 0, 7];
    sort_descending(&mut pieces);
    assert_eq!(pieces, vec![50, 50, 20, 10, 7, 0]);
}

#[test]
fn sorting_leaves_a_sorted_pool_alone() {
    let mut pieces = vec![9, 9, 4, 1];
    sort_descending(&mut pieces);
    assert_eq!(pieces, vec![9, 9, 4, 1]);
}

#[test]
fn sorting_handles_empty_and_single() {
    let mut none: Vec<usize> = Vec::new();
    sort_descending(&mut none);
    assert!(none.is_empty());
    let mut one = vec![3];
    sort_descending(&mut one);
    assert_eq!(one, vec![3]);
}

#[test]
fn sorting_reverses_an_ascending_run() {
    let mut pieces: Vec<usize> = (0..50).collect();
    sort_descending(&mut pieces);
    let expected: Vec<usize> = (0..50).rev().collect();
    assert_eq!(pieces, expected);
}

#[test]
fn material_adds_the_lengths() {
    assert_eq!(total_material(&vec![100, 60, 50, 10]), Some(220));
    assert_eq!(total_material(&Vec::new()), Some(0));
}

#[test]
fn material_that_does_not_fit_is_reported() {
    assert_eq!(total_material(&vec![usize::MAX, 1]), None);
    assert_eq!(total_material(&vec![usize::MAX, 0]), Some(usize::MAX));
    assert_eq!(total_material(&vec![1, usize::MAX, 5]), None);
}

#[test]
fn smallest_cover_is_found() {
    let pool = vec![60, 50, 10];
    assert_eq!(smallest_at_least(&pool, 40), Some(1));
    assert_eq!(smallest_at_least(&pool, 60), Some(0));
    assert_eq!(smallest_at_least(&pool, 61), None);
    assert_eq!(smallest_at_least(&pool, 0), Some(2));
    assert_eq!(smallest_at_least(&Vec::new(), 0), None);
}

#[test]
fn smallest_cover_among_equals_is_the_first() {
    assert_eq!(smallest_at_least(&vec![7, 5, 9, 5], 4), Some(1));
}

#[test]
fn largest_fit_is_found() {
    let pool = vec![60, 50, 10];
    assert_eq!(largest_at_most(&pool, 100), Some(0));
    assert_eq!(largest_at_most(&pool, 55), Some(1));
    assert_eq!(largest_at_most(&pool, 9), None);
    assert_eq!(largest_at_most(&Vec::new(), 9), None);
}

#[test]
fn largest_fit_among_equals_is_the_last() {
    assert_eq!(largest_at_most(&vec![5, 7, 3, 7, 9], 8), Some(3));
}
