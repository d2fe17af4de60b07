//! Tests for the distribution-based sorts.

use sorts::bucket::bucket_sort_int;
use sorts::counting::{counting_sort, counting_sort_stable};
use sorts::radix::{radix_sort, radix_sort_msd};

#[test]
fn test_counting_sort() {
    let mut arr: Vec<usize> = vec![4, 2, 2, 8, 3, 3, 1];
    counting_sort(&mut arr);
    assert_eq!(arr, vec![1, 2, 2, 3, 3, 4, 8]);
}

#[test]
fn test_counting_sort_stable() {
    let mut arr: Vec<i32> = vec![-5, 3, -1, 0, 3, -5, 2];
    counting_sort_stable(&mut arr);
    assert_eq!(arr, vec![-5, -5, -1, 0, 2, 3, 3]);
}

#[test]
fn counting_sort_test_empty() {
    let mut arr: Vec<usize> = vec![];
    counting_sort(&mut arr);
    assert_eq!(arr, vec![]);
}

#[test]
fn counting_sort_test_single() {
    let mut arr: Vec<usize> = vec![42];
    counting_sort(&mut arr);
    assert_eq!(arr, vec![42]);
}

#[test]
fn test_all_same() {
    let mut arr: Vec<usize> = vec![5, 5, 5, 5];
    counting_sort(&mut arr);
    assert_eq!(arr, vec![5, 5, 5, 5]);
}

#[test]
fn test_radix_sort() {
    let mut arr: Vec<u32> = vec![170, 45, 75, 90, 802, 24, 2, 66];
    radix_sort(&mut arr);
    assert_eq!(arr, vec![2, 24, 45, 66, 75, 90, 170, 802]);
}

#[test]
fn test_radix_sort_msd() {
    let mut arr: Vec<u32> = vec![170, 45, 75, 90, 802, 24, 2, 66];
    radix_sort_msd(&mut arr);
    assert_eq!(arr, vec![2, 24, 45, 66, 75, 90, 170, 802]);
}

#[test]
fn radix_sort_test_empty() {
    let mut arr: Vec<u32> = vec![];
    radix_sort(&mut arr);
    assert_eq!(arr, vec![]);
}

#[test]
fn radix_sort_test_single() {
    let mut arr: Vec<u32> = vec![42];
    radix_sort(&mut arr);
    assert_eq!(arr, vec![42]);
}

#[test]
fn test_same_digits() {
    let mut arr: Vec<u32> = vec![111, 222, 111, 333, 222];
    radix_sort(&mut arr);
    assert_eq!(arr, vec![111, 111, 222, 222, 333]);
}

#[test]
fn test_bucket_sort_int() {
    let mut arr: Vec<i32> = vec![29, 25, 3, 49, 9, 37, 21, 43];
    bucket_sort_int(&mut arr);
    assert_eq!(arr, vec![3, 9, 21, 25, 29, 37, 43, 49]);
}
