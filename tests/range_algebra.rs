use std::cmp::Ordering;

use opening_hours::range::{compare, compare_inclusive, range_intersection, time_ranges_union, wrapping_contains};

#[test]
fn union_merges_overlapping_and_touching() {
    let out = time_ranges_union(vec![5..7, 0..2, 1..3, 3..4, 9..9]);
    assert_eq!(out, vec![0..4, 5..7, 9..9]);
}

#[test]
fn union_of_nothing_is_empty() {
    assert_eq!(time_ranges_union(Vec::new()), Vec::new());
}

#[test]
fn union_keeps_contained_ranges_inside() {
    assert_eq!(time_ranges_union(vec![0..10, 2..3, 12..14]), vec![0..10, 12..14]);
}

#[test]
fn union_is_idempotent() {
    let once = time_ranges_union(vec![8..9, 1..4, 3..6, 6..7]);
    let twice = time_ranges_union(once.clone());
    assert_eq!(once, vec![1..7, 8..9]);
    assert_eq!(twice, once);
}

#[test]
fn intersection_of_overlapping_ranges() {
    assert_eq!(range_intersection(0..10, 5..15), Some(5..10));
    assert_eq!(range_intersection(5..15, 0..10), Some(5..10));
}

#[test]
fn intersection_of_touching_ranges_is_empty() {
    assert_eq!(range_intersection(0..5, 5..10), None);
    assert_eq!(range_intersection(0..5, 7..10), None);
}

#[test]
fn intersection_is_associative_on_values() {
    let left = range_intersection(0..10, 3..12).and_then(|r| range_intersection(r, 5..20));
    let right = range_intersection(3..12, 5..20).and_then(|r| range_intersection(0..10, r));
    assert_eq!(left, Some(5..10));
    assert_eq!(left, right);
}

#[test]
fn wrapping_contains_plain_range() {
    assert!(wrapping_contains(3, 7, 3));
    assert!(wrapping_contains(3, 7, 7));
    assert!(!wrapping_contains(3, 7, 8));
}

#[test]
fn wrapping_contains_wrapped_range() {
    assert!(wrapping_contains(20, 5, 22));
    assert!(wrapping_contains(20, 5, 20));
    assert!(wrapping_contains(20, 5, 2));
    assert!(wrapping_contains(20, 5, 5));
    assert!(!wrapping_contains(20, 5, 10));
    assert!(!wrapping_contains(20, 5, 6));
}

#[test]
fn compare_half_open() {
    assert_eq!(compare(&(3..7), 2), Ordering::Less);
    assert_eq!(compare(&(3..7), 3), Ordering::Equal);
    assert_eq!(compare(&(3..7), 6), Ordering::Equal);
    assert_eq!(compare(&(3..7), 7), Ordering::Greater);
}

#[test]
fn compare_inclusive_range() {
    assert_eq!(compare_inclusive(3, 7, 2), Ordering::Less);
    assert_eq!(compare_inclusive(3, 7, 7), Ordering::Equal);
    assert_eq!(compare_inclusive(3, 7, 8), Ordering::Greater);
}
