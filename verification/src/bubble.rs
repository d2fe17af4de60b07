//! Bubble sort: repeated sweeps over adjacent pairs.

use vstd::prelude::*;
use crate::perm::{sorted, lemma_adjacent_sorted, swap_at};
use crate::insertion::{with_key, lemma_with_key_swap_adjacent, Entry};

verus! {

/// Sweeps adjacent pairs, swapping those out of order; each sweep floats the
/// largest remaining element to the end of the unsorted prefix, and a sweep
/// without swaps ends the sort early.
pub fn bubble_sort(arr: &mut Vec<i64>)
    ensures
        sorted(final(arr)@),
        final(arr)@.to_multiset() == old(arr)@.to_multiset(),
        final(arr)@.len() == old(arr)@.len(),
{
    let n = arr.len();
    if n <= 1 {
        return;
    }
    let mut i: usize = 0;
    while i < n
        invariant_except_break
            n == arr.len(),
            i <= n,
            arr@.to_multiset() == old(arr)@.to_multiset(),
            forall|k: int, m: int|
                #![trigger arr@[k], arr@[m]]
                n - i <= k < n && 0 <= m < k ==> arr@[m] <= arr@[k],
        ensures
            n == arr.len(),
            arr@.to_multiset() == old(arr)@.to_multiset(),
            sorted(arr@),
        decreases n - i,
    {
        let mut swapped = false;
        let mut j: usize = 0;
        while j < n - 1 - i
            invariant
                n == arr.len(),
                i < n,
                j <= n - 1 - i,
                arr@.to_multiset() == old(arr)@.to_multiset(),
                forall|k: int, m: int|
                    #![trigger arr@[k], arr@[m]]
                    n - i <= k < n && 0 <= m < k ==> arr@[m] <= arr@[k],
                forall|m: int| 0 <= m < j ==> #[trigger] arr@[m] <= arr@[j as int],
                !swapped ==> forall|m: int| 0 <= m < j ==> #[trigger] arr@[m] <= arr@[m + 1],
            decreases n - 1 - i - j,
        {
            if arr[j] > arr[j + 1] {
                swap_at(arr, j, j + 1);
                swapped = true;
            }
            j += 1;
        }
        if !swapped {
            proof {
                lemma_adjacent_sorted(arr@, 0, (n - i) as int);
            }
            break ;
        }
        i += 1;
    }
}

/// Neighbouring key order carried along the chain of adjacent pairs.
proof fn lemma_adjacent_keys_sorted(s: Seq<Entry>, lo: int, hi: int)
    requires
        0 <= lo,
        hi <= s.len(),
        forall|m: int| lo <= m < hi - 1 ==> #[trigger] s[m].key <= s[m + 1].key,
    ensures
        forall|a: int, b: int| #![trigger s[a], s[b]] lo <= a <= b < hi ==> s[a].key <= s[b].key,
    decreases hi - lo,
{
    if lo < hi - 1 {
        lemma_adjacent_keys_sorted(s, lo + 1, hi);
        assert forall|a: int, b: int|
            #![trigger s[a], s[b]]
            lo <= a <= b < hi implies s[a].key <= s[b].key by {
            if a == lo && b > lo {
                assert(s[lo].key <= s[lo + 1].key);
                assert(s[lo + 1].key <= s[b].key);
            }
        }
    }
}

/// Bubble sort over keyed entries, comparing keys alone.  The contract
/// states the algorithm's stability exactly: a sweep swaps only adjacent
/// pairs whose keys are strictly out of order, so for every key the
/// subsequence of entries carrying it is returned unchanged.
pub fn bubble_sort_by_key(arr: &mut Vec<Entry>)
    ensures
        final(arr)@.len() == old(arr)@.len(),
        final(arr)@.to_multiset() == old(arr)@.to_multiset(),
        forall|a: int, b: int|
            #![trigger final(arr)@[a], final(arr)@[b]]
            0 <= a <= b < final(arr)@.len() ==> final(arr)@[a].key <= final(arr)@[b].key,
        forall|k: i64| #[trigger] with_key(final(arr)@, k) == with_key(old(arr)@, k),
{
    let n = arr.len();
    if n <= 1 {
        return ;
    }
    let mut i: usize = 0;
    while i < n
        invariant_except_break
            n == arr.len(),
            i <= n,
            arr@.to_multiset() == old(arr)@.to_multiset(),
            forall|k: i64| #[trigger] with_key(arr@, k) == with_key(old(arr)@, k),
            forall|a: int, b: int|
                #![trigger arr@[a], arr@[b]]
                n - i <= a < n && 0 <= b < a ==> arr@[b].key <= arr@[a].key,
        ensures
            n == arr.len(),
            arr@.to_multiset() == old(arr)@.to_multiset(),
            forall|k: i64| #[trigger] with_key(arr@, k) == with_key(old(arr)@, k),
            forall|a: int, b: int|
                #![trigger arr@[a], arr@[b]]
                0 <= a <= b < n ==> arr@[a].key <= arr@[b].key,
        decreases n - i,
    {
        let mut swapped = false;
        let mut j: usize = 0;
        while j < n - 1 - i
            invariant
                n == arr.len(),
                i < n,
                j <= n - 1 - i,
                arr@.to_multiset() == old(arr)@.to_multiset(),
                forall|k: i64| #[trigger] with_key(arr@, k) == with_key(old(arr)@, k),
                forall|a: int, b: int|
                    #![trigger arr@[a], arr@[b]]
                    n - i <= a < n && 0 <= b < a ==> arr@[b].key <= arr@[a].key,
                forall|m: int| 0 <= m < j ==> #[trigger] arr@[m].key <= arr@[j as int].key,
                !swapped ==> forall|m: int|
                    0 <= m < j ==> #[trigger] arr@[m].key <= arr@[m + 1].key,
            decreases n - 1 - i - j,
        {
            if arr[j].key > arr[j + 1].key {
                let ghost pre = arr@;
                swap_at(arr, j, j + 1);
                proof {
                    lemma_with_key_swap_adjacent(pre, j as int);
                }
                swapped = true;
            }
            j += 1;
        }
        if !swapped {
            proof {
                lemma_adjacent_keys_sorted(arr@, 0, (n - i) as int);
            }
            break ;
        }
        i += 1;
    }
}

} // verus!
