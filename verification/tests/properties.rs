//! Cross-algorithm scenarios: every entry point on the same inputs, the
//! boundary cases, and spot checks of the shared contract (a sorted
//! permutation of the input).

use sorts::bubble::{bubble_sort, bubble_sort_by_key};
use sorts::bucket::bucket_sort_int;
use sorts::counting::counting_sort_stable;
use sorts::heap::{heap_sort, heap_sort_iterative};
use sorts::insertion::{
    binary_insertion_sort,
    insertion_sort,
    insertion_sort_by_key,
    insertion_sort_swap,
    Entry,
};
use sorts::merge::{merge_sort, merge_sort_by_key, merge_sort_iterative};
use sorts::quick::{quick_sort, quick_sort_3way, quick_sort_hoare};
use sorts::radix::radix_sort_msd;
use sorts::selection::{selection_sort, selection_sort_bidirectional};
use sorts::shell::shell_sort;

fn comparison_sorts() -> Vec<fn(&mut Vec<i64>)> {
    vec![
        bubble_sort,
        insertion_sort,
        insertion_sort_swap,
        binary_insertion_sort,
        selection_sort,
        selection_sort_bidirectional,
        shell_sort,
        merge_sort,
        merge_sort_iterative,
        quick_sort,
        quick_sort_hoare,
        quick_sort_3way,
        heap_sort,
        heap_sort_iterative,
    ]
}

#[test]
fn every_comparison_sort_on_mixed_input() {
    for sort in comparison_sorts() {
        let mut arr: Vec<i64> = vec![64, 34, 25, 12, 22, 11, 90];
        sort(&mut arr);
        assert_eq!(arr, vec![11, 12, 22, 25, 34, 64, 90]);
    }
}

#[test]
fn every_comparison_sort_on_reversed_input() {
    for sort in comparison_sorts() {
        let mut arr: Vec<i64> = vec![5, 4, 3, 2, 1];
        sort(&mut arr);
        assert_eq!(arr, vec![1, 2, 3, 4, 5]);
    }
}

#[test]
fn every_comparison_sort_on_boundary_inputs() {
    for sort in comparison_sorts() {
        let mut empty: Vec<i64> = vec![];
        sort(&mut empty);
        assert_eq!(empty, vec![]);

        let mut single: Vec<i64> = vec![7];
        sort(&mut single);
        assert_eq!(single, vec![7]);

        let mut constant: Vec<i64> = vec![4, 4, 4, 4, 4];
        sort(&mut constant);
        assert_eq!(constant, vec![4, 4, 4, 4, 4]);
    }
}

#[test]
fn every_comparison_sort_is_idempotent() {
    for sort in comparison_sorts() {
        let mut arr: Vec<i64> = vec![9, -3, 7, 7, 0, -3, 12];
        sort(&mut arr);
        let first = arr.clone();
        sort(&mut arr);
        assert_eq!(arr, first);
    }
}

#[test]
fn every_comparison_sort_permutes_its_input() {
    let input: Vec<i64> = vec![2, -8, 2, 5, 0, 5, 5, -8, 1];
    for sort in comparison_sorts() {
        let mut arr = input.clone();
        sort(&mut arr);
        assert_eq!(arr.len(), input.len());
        for x in &input {
            let before = input.iter().filter(|y| *y == x).count();
            let after = arr.iter().filter(|y| *y == x).count();
            assert_eq!(before, after);
        }
        for w in arr.windows(2) {
            assert!(w[0] <= w[1]);
        }
    }
}

#[test]
fn three_way_quick_sort_on_heavy_duplicates() {
    let mut arr: Vec<i64> = vec![4, 2, 4, 1, 4, 3, 4, 2];
    quick_sort_3way(&mut arr);
    assert_eq!(arr, vec![1, 2, 2, 3, 4, 4, 4, 4]);
}

#[test]
fn counting_sort_stable_boundary_inputs() {
    let mut empty: Vec<i32> = vec![];
    counting_sort_stable(&mut empty);
    assert_eq!(empty, vec![]);

    let mut single: Vec<i32> = vec![-7];
    counting_sort_stable(&mut single);
    assert_eq!(single, vec![-7]);

    let mut constant: Vec<i32> = vec![2, 2, 2];
    counting_sort_stable(&mut constant);
    assert_eq!(constant, vec![2, 2, 2]);
}

#[test]
fn bucket_sort_int_boundary_inputs() {
    let mut empty: Vec<i32> = vec![];
    bucket_sort_int(&mut empty);
    assert_eq!(empty, vec![]);

    let mut single: Vec<i32> = vec![11];
    bucket_sort_int(&mut single);
    assert_eq!(single, vec![11]);

    let mut constant: Vec<i32> = vec![6, 6, 6, 6];
    bucket_sort_int(&mut constant);
    assert_eq!(constant, vec![6, 6, 6, 6]);
}

#[test]
fn bucket_sort_int_negative_values_and_duplicates() {
    let mut arr: Vec<i32> = vec![5, -3, 12, 0, -3, 5, 100, -50];
    bucket_sort_int(&mut arr);
    assert_eq!(arr, vec![-50, -3, -3, 0, 5, 5, 12, 100]);
}

#[test]
fn radix_sort_msd_boundary_inputs() {
    let mut empty: Vec<u32> = vec![];
    radix_sort_msd(&mut empty);
    assert_eq!(empty, vec![]);

    let mut single: Vec<u32> = vec![42];
    radix_sort_msd(&mut single);
    assert_eq!(single, vec![42]);

    let mut zeros: Vec<u32> = vec![0, 10, 0, 100, 0];
    radix_sort_msd(&mut zeros);
    assert_eq!(zeros, vec![0, 0, 0, 10, 100]);
}

#[test]
fn keyed_bubble_sort_keeps_equal_key_order() {
    let mut arr = vec![
        Entry { key: 3, pos: 0 },
        Entry { key: 1, pos: 1 },
        Entry { key: 3, pos: 2 },
        Entry { key: 1, pos: 3 },
        Entry { key: 2, pos: 4 },
    ];
    bubble_sort_by_key(&mut arr);
    let keys: Vec<i64> = arr.iter().map(|q| q.key).collect();
    let tags: Vec<usize> = arr.iter().map(|q| q.pos).collect();
    assert_eq!(keys, vec![1, 1, 2, 3, 3]);
    assert_eq!(tags, vec![1, 3, 4, 0, 2]);
}

#[test]
fn keyed_merge_sort_keeps_equal_key_order() {
    let mut arr = vec![
        Entry { key: 5, pos: 0 },
        Entry { key: 1, pos: 1 },
        Entry { key: 5, pos: 2 },
        Entry { key: 1, pos: 3 },
        Entry { key: 5, pos: 4 },
        Entry { key: 0, pos: 5 },
    ];
    merge_sort_by_key(&mut arr);
    let keys: Vec<i64> = arr.iter().map(|q| q.key).collect();
    let tags: Vec<usize> = arr.iter().map(|q| q.pos).collect();
    assert_eq!(keys, vec![0, 1, 1, 5, 5, 5]);
    assert_eq!(tags, vec![5, 1, 3, 0, 2, 4]);
}

#[test]
fn keyed_sort_keeps_equal_key_order() {
    let mut arr = vec![
        Entry { key: 2, pos: 0 },
        Entry { key: 1, pos: 1 },
        Entry { key: 2, pos: 2 },
        Entry { key: 1, pos: 3 },
        Entry { key: 2, pos: 4 },
    ];
    insertion_sort_by_key(&mut arr);
    let keys: Vec<i64> = arr.iter().map(|q| q.key).collect();
    let tags: Vec<usize> = arr.iter().map(|q| q.pos).collect();
    assert_eq!(keys, vec![1, 1, 2, 2, 2]);
    assert_eq!(tags, vec![1, 3, 0, 2, 4]);
}
