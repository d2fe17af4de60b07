//! Quick sort with three partition schemes: Lomuto, Hoare, and the
//! three-way (Dutch national flag) partition for duplicate-heavy inputs.

use vstd::prelude::*;
use crate::perm::{
    sorted,
    sorted_range,
    lemma_inner_patch_multiset,
    lemma_multiset_range_transfer,
    swap_in_range,
};

verus! {

/// Lomuto partition of the window `[lo, hi)`: the last element is the pivot;
/// a single left-to-right scan swaps the elements strictly below the pivot
/// into a growing left zone, and the pivot lands on the zone's boundary.
pub fn partition(v: &mut Vec<i64>, lo: usize, hi: usize) -> (p: usize)
    requires
        lo < hi <= old(v).len(),
    ensures
        lo <= p < hi,
        final(v)@.len() == old(v)@.len(),
        final(v)@.subrange(lo as int, hi as int).to_multiset() == old(v)@.subrange(
            lo as int,
            hi as int,
        ).to_multiset(),
        forall|k: int| 0 <= k < old(v)@.len() && !(lo <= k < hi) ==> final(v)@[k] == old(v)@[k],
        final(v)@[p as int] == old(v)@[hi - 1],
        forall|k: int| lo <= k < p ==> final(v)@[k] < final(v)@[p as int],
        forall|k: int| p < k < hi ==> final(v)@[k] >= final(v)@[p as int],
{
    let pivot_index = hi - 1;
    let mut i: usize = lo;
    let mut j: usize = lo;
    while j < pivot_index
        invariant
            old(v).len() == v.len(),
            lo <= i <= j <= pivot_index,
            pivot_index == hi - 1,
            hi <= v.len(),
            v@[pivot_index as int] == old(v)@[pivot_index as int],
            v@.subrange(lo as int, hi as int).to_multiset() == old(v)@.subrange(
                lo as int,
                hi as int,
            ).to_multiset(),
            forall|k: int| 0 <= k < v@.len() && !(lo <= k < hi) ==> v@[k] == old(v)@[k],
            forall|k: int| lo <= k < i ==> v@[k] < v@[pivot_index as int],
            forall|k: int| i <= k < j ==> v@[k] >= v@[pivot_index as int],
        decreases pivot_index - j,
    {
        if v[j] < v[pivot_index] {
            swap_in_range(v, lo, hi, i, j);
            i += 1;
        }
        j += 1;
    }
    swap_in_range(v, lo, hi, i, pivot_index);
    i
}

/// Quick sort of the window `[lo, hi)` around Lomuto partitions.
fn quick_sort_range(v: &mut Vec<i64>, lo: usize, hi: usize)
    requires
        lo <= hi <= old(v).len(),
    ensures
        final(v)@.len() == old(v)@.len(),
        sorted_range(final(v)@, lo as int, hi as int),
        final(v)@.subrange(lo as int, hi as int).to_multiset() == old(v)@.subrange(
            lo as int,
            hi as int,
        ).to_multiset(),
        forall|k: int| 0 <= k < old(v)@.len() && !(lo <= k < hi) ==> final(v)@[k] == old(v)@[k],
    decreases hi - lo,
{
    if hi - lo <= 1 {
        return ;
    }
    let p = partition(v, lo, hi);
    let ghost v1 = v@;
    let ghost piv = v1[p as int];
    quick_sort_range(v, lo, p);
    let ghost v2 = v@;
    quick_sort_range(v, p + 1, hi);
    let ghost v3 = v@;
    proof {
        let below = |x: i64| x < piv;
        assert forall|k: int| lo <= k < p implies #[trigger] below(v1[k]) by {
            assert(v1[k] < piv);
        }
        lemma_multiset_range_transfer(v1, v2, lo as int, p as int, below);
        let above = |x: i64| x >= piv;
        assert forall|k: int| p + 1 <= k < hi implies #[trigger] above(v2[k]) by {
            assert(v2[k] == v1[k]);
            assert(v1[k] >= piv);
        }
        lemma_multiset_range_transfer(v2, v3, p as int + 1, hi as int, above);
        assert forall|a: int, b: int|
            #![trigger v3[a], v3[b]]
            lo <= a <= b < hi implies v3[a] <= v3[b] by {
            if a < p {
                assert(below(v2[a]));
                assert(v3[a] == v2[a]);
            }
            if b > p {
                assert(above(v3[b]));
            }
            if a <= b && b < p {
                assert(v2[a] <= v2[b]);
            }
            if a == p {
                assert(v3[p as int] == piv);
            }
            if b == p && a < p {
                assert(v3[b] == piv);
            }
        }
        lemma_inner_patch_multiset(v1, v2, lo as int, hi as int, lo as int, p as int);
        lemma_inner_patch_multiset(v2, v3, lo as int, hi as int, p as int + 1, hi as int);
    }
}

/// Quick sort with the Lomuto partition.  In place and unstable; average
/// O(n log n), quadratic in the worst case.
pub fn quick_sort(arr: &mut Vec<i64>)
    ensures
        sorted(final(arr)@),
        final(arr)@.to_multiset() == old(arr)@.to_multiset(),
        final(arr)@.len() == old(arr)@.len(),
{
    let n = arr.len();
    if n <= 1 {
        return ;
    }
    quick_sort_range(arr, 0, n);
    proof {
        assert(arr@.subrange(0, n as int) =~= arr@);
        assert(old(arr)@.subrange(0, n as int) =~= old(arr)@);
    }
}

/// Hoare partition of the window `[lo, hi)`: the middle element is chosen as
/// pivot and parked at `lo`; two cursors then advance from both ends past
/// elements already on the correct side and swap the offenders, until they
/// cross.  Everything at or left of the returned index is at most the pivot,
/// everything right of it is at least the pivot.
pub fn partition_hoare(v: &mut Vec<i64>, lo: usize, hi: usize) -> (p: usize)
    requires
        lo + 2 <= hi,
        hi <= old(v).len(),
    ensures
        lo <= p <= hi - 2,
        final(v)@.len() == old(v)@.len(),
        final(v)@.subrange(lo as int, hi as int).to_multiset() == old(v)@.subrange(
            lo as int,
            hi as int,
        ).to_multiset(),
        forall|k: int| 0 <= k < old(v)@.len() && !(lo <= k < hi) ==> final(v)@[k] == old(v)@[k],
        forall|k: int|
            lo <= k <= p ==> final(v)@[k] <= old(v)@[(lo + (hi - lo) / 2) as int],
        forall|k: int|
            p < k < hi ==> final(v)@[k] >= old(v)@[(lo + (hi - lo) / 2) as int],
{
    let mid = lo + (hi - lo) / 2;
    swap_in_range(v, lo, hi, lo, mid);
    let pivot = v[lo];
    let mut i: usize = lo;
    let mut j: usize = hi - 1;
    loop
        invariant
            old(v).len() == v.len(),
            lo + 2 <= hi <= v.len(),
            lo <= i < hi,
            lo <= j < hi,
            i <= j + 1,
            pivot == old(v)@[(lo + (hi - lo) / 2) as int],
            v@.subrange(lo as int, hi as int).to_multiset() == old(v)@.subrange(
                lo as int,
                hi as int,
            ).to_multiset(),
            forall|k: int| 0 <= k < v@.len() && !(lo <= k < hi) ==> v@[k] == old(v)@[k],
            forall|k: int| lo <= k < i ==> v@[k] <= pivot,
            forall|k: int| j < k < hi ==> v@[k] >= pivot,
            exists|k: int| i <= k < hi && #[trigger] v@[k] >= pivot,
            exists|k: int| lo <= k <= j && #[trigger] v@[k] <= pivot,
            i == lo ==> v@[lo as int] == pivot && j == hi - 1,
            i > lo ==> j <= hi - 2,
        decreases j + 1 - i,
    {
        let ghost i_start = i;
        while v[i] < pivot
            invariant
                old(v).len() == v.len(),
                lo <= i < hi <= v.len(),
                i >= i_start,
                v@[i_start as int] >= pivot ==> i == i_start,
                forall|k: int| lo <= k < i ==> v@[k] <= pivot,
                exists|k: int| i <= k < hi && #[trigger] v@[k] >= pivot,
            decreases hi - i,
        {
            proof {
                let k = choose|k: int| i <= k < hi && #[trigger] v@[k] >= pivot;
                assert(k > i);
                assert(i + 1 <= k < hi && v@[k] >= pivot);
            }
            i += 1;
        }
        let ghost j_start = j;
        while v[j] > pivot
            invariant
                old(v).len() == v.len(),
                lo <= j < hi <= v.len(),
                j <= j_start,
                forall|k: int| j < k < hi ==> v@[k] >= pivot,
                exists|k: int| lo <= k <= j && #[trigger] v@[k] <= pivot,
            decreases j,
        {
            proof {
                let k = choose|k: int| lo <= k <= j && #[trigger] v@[k] <= pivot;
                assert(k < j);
            }
            j -= 1;
        }
        if i >= j {
            return j;
        }
        swap_in_range(v, lo, hi, i, j);
        proof {
            assert(v@[j as int] >= pivot);
            assert(v@[i as int] <= pivot);
        }
        i += 1;
        j -= 1;
    }
}

/// Quick sort of the window `[lo, hi)` around Hoare partitions; the left
/// recursion includes the returned index, unlike the Lomuto scheme.
fn quick_sort_hoare_range(v: &mut Vec<i64>, lo: usize, hi: usize)
    requires
        lo <= hi <= old(v).len(),
    ensures
        final(v)@.len() == old(v)@.len(),
        sorted_range(final(v)@, lo as int, hi as int),
        final(v)@.subrange(lo as int, hi as int).to_multiset() == old(v)@.subrange(
            lo as int,
            hi as int,
        ).to_multiset(),
        forall|k: int| 0 <= k < old(v)@.len() && !(lo <= k < hi) ==> final(v)@[k] == old(v)@[k],
    decreases hi - lo,
{
    if hi - lo <= 1 {
        return ;
    }
    let ghost piv = old(v)@[(lo + (hi - lo) / 2) as int];
    let p = partition_hoare(v, lo, hi);
    let ghost v1 = v@;
    quick_sort_hoare_range(v, lo, p + 1);
    let ghost v2 = v@;
    quick_sort_hoare_range(v, p + 1, hi);
    let ghost v3 = v@;
    proof {
        let below = |x: i64| x <= piv;
        assert forall|k: int| lo <= k < p + 1 implies #[trigger] below(v1[k]) by {
            assert(v1[k] <= piv);
        }
        lemma_multiset_range_transfer(v1, v2, lo as int, p as int + 1, below);
        let above = |x: i64| x >= piv;
        assert forall|k: int| p + 1 <= k < hi implies #[trigger] above(v2[k]) by {
            assert(v2[k] == v1[k]);
            assert(v1[k] >= piv);
        }
        lemma_multiset_range_transfer(v2, v3, p as int + 1, hi as int, above);
        assert forall|a: int, b: int|
            #![trigger v3[a], v3[b]]
            lo <= a <= b < hi implies v3[a] <= v3[b] by {
            if a <= p {
                assert(below(v2[a]));
                assert(v3[a] == v2[a]);
            }
            if b > p {
                assert(above(v3[b]));
            }
            if b <= p {
                assert(v3[a] == v2[a]);
                assert(v3[b] == v2[b]);
                assert(v2[a] <= v2[b]);
            }
        }
        lemma_inner_patch_multiset(v1, v2, lo as int, hi as int, lo as int, p as int + 1);
        lemma_inner_patch_multiset(v2, v3, lo as int, hi as int, p as int + 1, hi as int);
    }
}

/// Quick sort with the Hoare partition.
pub fn quick_sort_hoare(arr: &mut Vec<i64>)
    ensures
        sorted(final(arr)@),
        final(arr)@.to_multiset() == old(arr)@.to_multiset(),
        final(arr)@.len() == old(arr)@.len(),
{
    let n = arr.len();
    if n <= 1 {
        return ;
    }
    quick_sort_hoare_range(arr, 0, n);
    proof {
        assert(arr@.subrange(0, n as int) =~= arr@);
        assert(old(arr)@.subrange(0, n as int) =~= old(arr)@);
    }
}

/// Three-way (Dutch national flag) partition of `[lo, hi)`: one linear scan
/// splits the window into elements below, equal to, and above the pivot (the
/// middle element's value).  Returns the first and the last index of the
/// equal zone, which is never empty.
pub fn partition_3way(v: &mut Vec<i64>, lo: usize, hi: usize) -> (r: (usize, usize))
    requires
        lo < hi <= old(v).len(),
    ensures
        lo <= r.0 <= r.1 < hi,
        final(v)@.len() == old(v)@.len(),
        final(v)@.subrange(lo as int, hi as int).to_multiset() == old(v)@.subrange(
            lo as int,
            hi as int,
        ).to_multiset(),
        forall|k: int| 0 <= k < old(v)@.len() && !(lo <= k < hi) ==> final(v)@[k] == old(v)@[k],
        forall|k: int|
            lo <= k < r.0 ==> final(v)@[k] < old(v)@[(lo + (hi - lo) / 2) as int],
        forall|k: int|
            r.0 <= k <= r.1 ==> final(v)@[k] == old(v)@[(lo + (hi - lo) / 2) as int],
        forall|k: int|
            r.1 < k < hi ==> final(v)@[k] > old(v)@[(lo + (hi - lo) / 2) as int],
{
    let pivot = v[lo + (hi - lo) / 2];
    let mut lt: usize = lo;
    let mut i: usize = lo;
    let mut gt: usize = hi;
    while i < gt
        invariant
            old(v).len() == v.len(),
            lo <= lt <= i <= gt <= hi <= v.len(),
            pivot == old(v)@[(lo + (hi - lo) / 2) as int],
            v@.subrange(lo as int, hi as int).to_multiset() == old(v)@.subrange(
                lo as int,
                hi as int,
            ).to_multiset(),
            forall|k: int| 0 <= k < v@.len() && !(lo <= k < hi) ==> v@[k] == old(v)@[k],
            forall|k: int| lo <= k < lt ==> v@[k] < pivot,
            forall|k: int| lt <= k < i ==> v@[k] == pivot,
            forall|k: int| gt <= k < hi ==> v@[k] > pivot,
        decreases gt - i,
    {
        if v[i] < pivot {
            swap_in_range(v, lo, hi, lt, i);
            lt += 1;
            i += 1;
        } else if v[i] > pivot {
            gt -= 1;
            swap_in_range(v, lo, hi, i, gt);
        } else {
            i += 1;
        }
    }
    proof {
        broadcast use vstd::seq_lib::group_to_multiset_ensures;

        let sub_old = old(v)@.subrange(lo as int, hi as int);
        let sub_new = v@.subrange(lo as int, hi as int);
        let mid = (lo + (hi - lo) / 2) as int;
        assert(sub_old[mid - lo] == pivot);
        assert(sub_old.contains(pivot));
        assert(sub_old.to_multiset().count(pivot) > 0);
        assert(sub_new.to_multiset().count(pivot) > 0);
        assert(sub_new.contains(pivot));
        let m = choose|m: int| 0 <= m < sub_new.len() && sub_new[m] == pivot;
        assert(v@[lo + m] == pivot);
        assert(lt <= lo + m < gt);
    }
    (lt, gt - 1)
}

/// Quick sort of the window `[lo, hi)` around three-way partitions: the
/// equal zone is already in place, so the recursion skips it entirely and
/// the sort collapses to a linear scan when all keys are equal.
fn quick_sort_3way_range(v: &mut Vec<i64>, lo: usize, hi: usize)
    requires
        lo <= hi <= old(v).len(),
    ensures
        final(v)@.len() == old(v)@.len(),
        sorted_range(final(v)@, lo as int, hi as int),
        final(v)@.subrange(lo as int, hi as int).to_multiset() == old(v)@.subrange(
            lo as int,
            hi as int,
        ).to_multiset(),
        forall|k: int| 0 <= k < old(v)@.len() && !(lo <= k < hi) ==> final(v)@[k] == old(v)@[k],
    decreases hi - lo,
{
    if hi - lo <= 1 {
        return ;
    }
    let ghost piv = old(v)@[(lo + (hi - lo) / 2) as int];
    let (lt, ge) = partition_3way(v, lo, hi);
    let ghost v1 = v@;
    if lt > lo {
        quick_sort_3way_range(v, lo, lt);
    }
    let ghost v2 = v@;
    if ge + 1 < hi {
        quick_sort_3way_range(v, ge + 1, hi);
    }
    let ghost v3 = v@;
    proof {
        let below = |x: i64| x < piv;
        assert forall|k: int| lo <= k < lt implies #[trigger] below(v1[k]) by {
            assert(v1[k] < piv);
        }
        assert(v1.subrange(lo as int, lt as int).to_multiset() == v2.subrange(
            lo as int,
            lt as int,
        ).to_multiset()) by {
            if lt == lo {
                assert(v1.subrange(lo as int, lt as int) =~= v2.subrange(lo as int, lt as int));
            }
        }
        lemma_multiset_range_transfer(v1, v2, lo as int, lt as int, below);
        let above = |x: i64| x > piv;
        assert forall|k: int| ge + 1 <= k < hi implies #[trigger] above(v2[k]) by {
            assert(v2[k] == v1[k]);
            assert(v1[k] > piv);
        }
        assert(v2.subrange(ge as int + 1, hi as int).to_multiset() == v3.subrange(
            ge as int + 1,
            hi as int,
        ).to_multiset()) by {
            if ge + 1 == hi {
                assert(v2.subrange(ge as int + 1, hi as int) =~= v3.subrange(
                    ge as int + 1,
                    hi as int,
                ));
            }
        }
        lemma_multiset_range_transfer(v2, v3, ge as int + 1, hi as int, above);
        assert forall|a: int, b: int|
            #![trigger v3[a], v3[b]]
            lo <= a <= b < hi implies v3[a] <= v3[b] by {
            if a < lt {
                assert(below(v2[a]));
                assert(v3[a] == v2[a]);
            }
            if b > ge {
                assert(above(v3[b]));
            }
            if lt <= a <= ge {
                assert(v3[a] == v2[a] && v2[a] == v1[a]);
            }
            if lt <= b <= ge {
                assert(v3[b] == v2[b] && v2[b] == v1[b]);
            }
            if a <= b && b < lt {
                assert(v3[a] == v2[a] && v3[b] == v2[b]);
                assert(v2[a] <= v2[b]);
            }
            if ge < a && a <= b {
                assert(v3[a] <= v3[b]);
            }
        }
        lemma_inner_patch_multiset(v1, v2, lo as int, hi as int, lo as int, lt as int);
        lemma_inner_patch_multiset(v2, v3, lo as int, hi as int, ge as int + 1, hi as int);
    }
}

/// Quick sort with the three-way partition, suited to inputs with many
/// duplicate keys.
pub fn quick_sort_3way(arr: &mut Vec<i64>)
    ensures
        sorted(final(arr)@),
        final(arr)@.to_multiset() == old(arr)@.to_multiset(),
        final(arr)@.len() == old(arr)@.len(),
{
    let n = arr.len();
    if n <= 1 {
        return ;
    }
    quick_sort_3way_range(arr, 0, n);
    proof {
        assert(arr@.subrange(0, n as int) =~= arr@);
        assert(old(arr)@.subrange(0, n as int) =~= old(arr)@);
    }
}

} // verus!
