//! Tests for the comparison-based sorts.

use sorts::bubble::bubble_sort;
use sorts::heap::{heap_sort, heap_sort_iterative};
use sorts::insertion::{
    binary_insertion_sort,
    insertion_sort,
    insertion_sort_by_key,
    insertion_sort_swap,
    Entry,
};
use sorts::merge::{merge_sort, merge_sort_iterative};
use sorts::quick::{quick_sort, quick_sort_3way, quick_sort_hoare};
use sorts::selection::{selection_sort, selection_sort_bidirectional};
use sorts::shell::shell_sort;

#[test]
fn bubble_sort_test_normal_array() {
    let mut arr: Vec<i64> = vec![64, 34, 25, 12, 22, 11, 90];
    bubble_sort(&mut arr);
    assert_eq!(arr, vec![11, 12, 22, 25, 34, 64, 90]);
}

#[test]
fn bubble_sort_test_empty_array() {
    let mut arr: Vec<i64> = vec![];
    bubble_sort(&mut arr);
    assert_eq!(arr, vec![]);
}

#[test]
fn bubble_sort_test_single_element() {
    let mut arr: Vec<i64> = vec![42];
    bubble_sort(&mut arr);
    assert_eq!(arr, vec![42]);
}

#[test]
fn bubble_sort_test_sorted_array() {
    let mut arr: Vec<i64> = vec![1, 2, 3, 4, 5];
    bubble_sort(&mut arr);
    assert_eq!(arr, vec![1, 2, 3, 4, 5]);
}

#[test]
fn bubble_sort_test_reversed_array() {
    let mut arr: Vec<i64> = vec![5, 4, 3, 2, 1];
    bubble_sort(&mut arr);
    assert_eq!(arr, vec![1, 2, 3, 4, 5]);
}

#[test]
fn bubble_sort_test_with_duplicates() {
    let mut arr: Vec<i64> = vec![3, 1, 4, 1, 5, 9, 2, 6, 5, 3, 5];
    bubble_sort(&mut arr);
    assert_eq!(arr, vec![1, 1, 2, 3, 3, 4, 5, 5, 5, 6, 9]);
}

#[test]
fn test_insertion_sort() {
    let mut arr: Vec<i64> = vec![12, 11, 13, 5, 6];
    insertion_sort(&mut arr);
    assert_eq!(arr, vec![5, 6, 11, 12, 13]);
}

#[test]
fn test_insertion_sort_swap() {
    let mut arr: Vec<i64> = vec![12, 11, 13, 5, 6];
    insertion_sort_swap(&mut arr);
    assert_eq!(arr, vec![5, 6, 11, 12, 13]);
}

#[test]
fn test_binary_insertion_sort() {
    let mut arr: Vec<i64> = vec![12, 11, 13, 5, 6];
    binary_insertion_sort(&mut arr);
    assert_eq!(arr, vec![5, 6, 11, 12, 13]);
}

#[test]
fn insertion_sort_test_empty_array() {
    let mut arr: Vec<i64> = vec![];
    insertion_sort(&mut arr);
    assert_eq!(arr, vec![]);
}

#[test]
fn insertion_sort_test_single_element() {
    let mut arr: Vec<i64> = vec![42];
    insertion_sort(&mut arr);
    assert_eq!(arr, vec![42]);
}

#[test]
fn insertion_sort_test_sorted_array() {
    let mut arr: Vec<i64> = vec![1, 2, 3, 4, 5];
    insertion_sort(&mut arr);
    assert_eq!(arr, vec![1, 2, 3, 4, 5]);
}

#[test]
fn insertion_sort_test_reversed_array() {
    let mut arr: Vec<i64> = vec![5, 4, 3, 2, 1];
    insertion_sort(&mut arr);
    assert_eq!(arr, vec![1, 2, 3, 4, 5]);
}

#[test]
fn insertion_sort_test_with_duplicates() {
    let mut arr: Vec<i64> = vec![3, 1, 4, 1, 5, 9, 2, 6, 5, 3, 5];
    insertion_sort(&mut arr);
    assert_eq!(arr, vec![1, 1, 2, 3, 3, 4, 5, 5, 5, 6, 9]);
}

#[test]
fn test_stability() {
    let mut arr = vec![
        Entry { key: 3, pos: 0 },
        Entry { key: 1, pos: 1 },
        Entry { key: 3, pos: 2 },
        Entry { key: 1, pos: 3 },
    ];

    insertion_sort_by_key(&mut arr);

    assert!(arr[0].key == 1 && arr[0].pos == 1);
    assert!(arr[1].key == 1 && arr[1].pos == 3);
    assert!(arr[2].key == 3 && arr[2].pos == 0);
    assert!(arr[3].key == 3 && arr[3].pos == 2);
}

#[test]
fn selection_sort_test_normal_array() {
    let mut arr: Vec<i64> = vec![64, 25, 12, 22, 11];
    selection_sort(&mut arr);
    assert_eq!(arr, vec![11, 12, 22, 25, 64]);
}

#[test]
fn selection_sort_test_empty_array() {
    let mut arr: Vec<i64> = vec![];
    selection_sort(&mut arr);
    assert_eq!(arr, vec![]);
}

#[test]
fn selection_sort_test_single_element() {
    let mut arr: Vec<i64> = vec![42];
    selection_sort(&mut arr);
    assert_eq!(arr, vec![42]);
}

#[test]
fn selection_sort_test_sorted_array() {
    let mut arr: Vec<i64> = vec![1, 2, 3, 4, 5];
    selection_sort(&mut arr);
    assert_eq!(arr, vec![1, 2, 3, 4, 5]);
}

#[test]
fn selection_sort_test_reversed_array() {
    let mut arr: Vec<i64> = vec![5, 4, 3, 2, 1];
    selection_sort(&mut arr);
    assert_eq!(arr, vec![1, 2, 3, 4, 5]);
}

#[test]
fn test_bidirectional() {
    let mut arr: Vec<i64> = vec![29, 10, 14, 37, 13, 8, 25];
    selection_sort_bidirectional(&mut arr);
    assert_eq!(arr, vec![8, 10, 13, 14, 25, 29, 37]);
}

#[test]
fn selection_sort_test_with_duplicates() {
    let mut arr: Vec<i64> = vec![3, 1, 4, 1, 5, 9, 2, 6, 5, 3, 5];
    selection_sort(&mut arr);
    assert_eq!(arr, vec![1, 1, 2, 3, 3, 4, 5, 5, 5, 6, 9]);
}

#[test]
fn test_heap_sort() {
    let mut arr: Vec<i64> = vec![12, 11, 13, 5, 6, 7];
    heap_sort(&mut arr);
    assert_eq!(arr, vec![5, 6, 7, 11, 12, 13]);
}

#[test]
fn test_heap_sort_iterative() {
    let mut arr: Vec<i64> = vec![12, 11, 13, 5, 6, 7];
    heap_sort_iterative(&mut arr);
    assert_eq!(arr, vec![5, 6, 7, 11, 12, 13]);
}

#[test]
fn heap_sort_test_empty() {
    let mut arr: Vec<i64> = vec![];
    heap_sort(&mut arr);
    assert_eq!(arr, vec![]);
}

#[test]
fn heap_sort_test_single() {
    let mut arr: Vec<i64> = vec![42];
    heap_sort(&mut arr);
    assert_eq!(arr, vec![42]);
}

#[test]
fn heap_sort_test_duplicates() {
    let mut arr: Vec<i64> = vec![3, 1, 4, 1, 5, 9, 2, 6, 5];
    heap_sort(&mut arr);
    assert_eq!(arr, vec![1, 1, 2, 3, 4, 5, 5, 6, 9]);
}

#[test]
fn test_quick_sort() {
    let mut arr: Vec<i64> = vec![10, 7, 8, 9, 1, 5];
    quick_sort(&mut arr);
    assert_eq!(arr, vec![1, 5, 7, 8, 9, 10]);
}

#[test]
fn test_quick_sort_hoare() {
    let mut arr: Vec<i64> = vec![10, 7, 8, 9, 1, 5];
    quick_sort_hoare(&mut arr);
    assert_eq!(arr, vec![1, 5, 7, 8, 9, 10]);
}

#[test]
fn test_quick_sort_3way() {
    let mut arr: Vec<i64> = vec![4, 2, 4, 1, 4, 3];
    quick_sort_3way(&mut arr);
    assert_eq!(arr, vec![1, 2, 3, 4, 4, 4]);
}

#[test]
fn quick_sort_test_empty() {
    let mut arr: Vec<i64> = vec![];
    quick_sort(&mut arr);
    assert_eq!(arr, vec![]);
}

#[test]
fn quick_sort_test_single() {
    let mut arr: Vec<i64> = vec![42];
    quick_sort(&mut arr);
    assert_eq!(arr, vec![42]);
}

#[test]
fn test_merge_sort() {
    let mut arr: Vec<i64> = vec![38, 27, 43, 3, 9, 82, 10];
    merge_sort(&mut arr);
    assert_eq!(arr, vec![3, 9, 10, 27, 38, 43, 82]);
}

#[test]
fn test_merge_sort_iterative() {
    let mut arr: Vec<i64> = vec![38, 27, 43, 3, 9, 82, 10];
    merge_sort_iterative(&mut arr);
    assert_eq!(arr, vec![3, 9, 10, 27, 38, 43, 82]);
}

#[test]
fn merge_sort_test_empty() {
    let mut arr: Vec<i64> = vec![];
    merge_sort(&mut arr);
    assert_eq!(arr, vec![]);
}

#[test]
fn merge_sort_test_single() {
    let mut arr: Vec<i64> = vec![42];
    merge_sort(&mut arr);
    assert_eq!(arr, vec![42]);
}

#[test]
fn merge_sort_test_duplicates() {
    let mut arr: Vec<i64> = vec![3, 1, 4, 1, 5, 9, 2, 6, 5];
    merge_sort(&mut arr);
    assert_eq!(arr, vec![1, 1, 2, 3, 4, 5, 5, 6, 9]);
}

#[test]
fn test_shell_sort() {
    let mut arr: Vec<i64> = vec![12, 34, 54, 2, 3];
    shell_sort(&mut arr);
    assert_eq!(arr, vec![2, 3, 12, 34, 54]);
}
