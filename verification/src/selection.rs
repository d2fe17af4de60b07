//! Selection sort: repeatedly move an extreme element of the unsorted window
//! to its final position.

use vstd::prelude::*;
use crate::perm::{sorted, swap_at};

verus! {

/// For each position of the prefix, scans the unsorted suffix for its
/// minimum and swaps it into place.  Unstable: a swap can carry an element
/// past equal keys.
pub fn selection_sort(arr: &mut Vec<i64>)
    ensures
        sorted(final(arr)@),
        final(arr)@.to_multiset() == old(arr)@.to_multiset(),
        final(arr)@.len() == old(arr)@.len(),
{
    let n = arr.len();
    if n <= 1 {
        return;
    }
    let mut i: usize = 0;
    while i < n - 1
        invariant
            n == arr.len(),
            i <= n - 1,
            arr@.to_multiset() == old(arr)@.to_multiset(),
            forall|k: int, m: int|
                #![trigger arr@[k], arr@[m]]
                0 <= k < i && k < m < n ==> arr@[k] <= arr@[m],
        decreases n - 1 - i,
    {
        let mut min_index: usize = i;
        let mut j: usize = i + 1;
        while j < n
            invariant
                n == arr.len(),
                i <= min_index < j <= n,
                forall|m: int| i <= m < j ==> arr@[min_index as int] <= #[trigger] arr@[m],
            decreases n - j,
        {
            if arr[j] < arr[min_index] {
                min_index = j;
            }
            j += 1;
        }
        if min_index != i {
            swap_at(arr, i, min_index);
        }
        i += 1;
    }
}

/// Each pass finds both the minimum and the maximum of the remaining window
/// and places them at its two ends, halving the number of passes.  When the
/// maximum starts at the window's left end, the minimum swap displaces it,
/// so the maximum's position is re-resolved before the second swap.
pub fn selection_sort_bidirectional(arr: &mut Vec<i64>)
    ensures
        sorted(final(arr)@),
        final(arr)@.to_multiset() == old(arr)@.to_multiset(),
        final(arr)@.len() == old(arr)@.len(),
{
    let n = arr.len();
    if n <= 1 {
        return;
    }
    let mut left: usize = 0;
    let mut right: usize = n - 1;
    while left < right
        invariant
            n == arr.len(),
            left <= right + 1,
            right < n,
            arr@.to_multiset() == old(arr)@.to_multiset(),
            forall|k: int, m: int|
                #![trigger arr@[k], arr@[m]]
                0 <= k < left && k < m < n ==> arr@[k] <= arr@[m],
            forall|k: int, m: int|
                #![trigger arr@[k], arr@[m]]
                right < k < n && 0 <= m < k ==> arr@[m] <= arr@[k],
        decreases right + 1 - left,
    {
        let mut min_index: usize = left;
        let mut max_index: usize = left;
        let mut j: usize = left;
        while j <= right
            invariant
                n == arr.len(),
                left <= min_index <= right,
                left <= max_index <= right,
                left <= j <= right + 1,
                right < n,
                min_index < j || min_index == left,
                max_index < j || max_index == left,
                forall|m: int| left <= m < j ==> arr@[min_index as int] <= #[trigger] arr@[m],
                forall|m: int| left <= m < j ==> #[trigger] arr@[m] <= arr@[max_index as int],
            decreases right + 1 - j,
        {
            if arr[j] < arr[min_index] {
                min_index = j;
            }
            if arr[j] > arr[max_index] {
                max_index = j;
            }
            j += 1;
        }
        if min_index != left {
            swap_at(arr, left, min_index);
        }
        if max_index == left {
            max_index = min_index;
        }
        if max_index != right {
            swap_at(arr, right, max_index);
        }
        assert(forall|m: int|
            left <= m <= right ==> arr@[left as int] <= #[trigger] arr@[m] && arr@[m]
                <= arr@[right as int]);
        left += 1;
        right -= 1;
    }
}

} // verus!
