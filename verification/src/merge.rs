//! Merge sort: recursive top-down and bottom-up iterative forms, sharing one
//! verified merge step over temporary copies of the two runs.

use vstd::prelude::*;
use crate::insertion::{
    with_key,
    key_sorted,
    key_sorted_range,
    lemma_with_key_concat,
    lemma_with_key_none,
    lemma_with_key_push,
    Entry,
};
use crate::perm::{
    sorted,
    sorted_range,
    lemma_inner_patch_multiset,
    lemma_mod_diff_zero,
    lemma_multiple_ge,
    copy_range,
};
use vstd::seq_lib::lemma_multiset_commutative;
use vstd::arithmetic::div_mod::{
    lemma_fundamental_div_mod,
    lemma_mod_add_multiples_vanish,
    lemma_mod_multiples_vanish,
    lemma_small_mod,
};

verus! {

/// Merge the sorted sequences `left` and `right` into the window of `arr`
/// that starts at `lo`, reading both from lowest to highest and taking from
/// `left` on ties, which is what makes the merge sort stable.
pub fn merge(arr: &mut Vec<i64>, lo: usize, left: &Vec<i64>, right: &Vec<i64>)
    requires
        lo + left.len() + right.len() <= old(arr).len(),
        sorted(left@),
        sorted(right@),
    ensures
        final(arr)@.len() == old(arr)@.len(),
        forall|k: int|
            0 <= k < old(arr)@.len() && !(lo <= k < lo + left@.len() + right@.len())
                ==> final(arr)@[k] == old(arr)@[k],
        final(arr)@.subrange(lo as int, lo + left@.len() + right@.len()).to_multiset() == (left@
            + right@).to_multiset(),
        sorted_range(final(arr)@, lo as int, lo + left@.len() + right@.len()),
{
    broadcast use vstd::seq_lib::group_to_multiset_ensures;
    broadcast use vstd::multiset::group_multiset_axioms;

    let ll = left.len();
    let rl = right.len();
    let hi = lo + ll + rl;
    let mut i: usize = 0;
    let mut j: usize = 0;
    let mut k: usize = lo;
    proof {
        assert(arr@.subrange(lo as int, lo as int) =~= Seq::<i64>::empty());
        assert(left@.subrange(0, 0) =~= Seq::<i64>::empty());
        assert(right@.subrange(0, 0) =~= Seq::<i64>::empty());
        assert((left@.subrange(0, 0) + right@.subrange(0, 0)).to_multiset() =~= Seq::<
            i64,
        >::empty().to_multiset());
    }
    while i < ll && j < rl
        invariant
            arr@.len() == old(arr)@.len(),
            ll == left@.len(),
            rl == right@.len(),
            hi == lo + ll + rl <= arr@.len(),
            i <= ll,
            j <= rl,
            k == lo + i + j,
            sorted(left@),
            sorted(right@),
            forall|m: int| 0 <= m < arr@.len() && !(lo <= m < hi) ==> arr@[m] == old(arr)@[m],
            arr@.subrange(lo as int, k as int).to_multiset() == (left@.subrange(0, i as int)
                + right@.subrange(0, j as int)).to_multiset(),
            sorted_range(arr@, lo as int, k as int),
            i < ll ==> forall|m: int| lo <= m < k ==> #[trigger] arr@[m] <= left@[i as int],
            j < rl ==> forall|m: int| lo <= m < k ==> #[trigger] arr@[m] <= right@[j as int],
        decreases ll + rl - i - j,
    {
        let ghost pre = arr@;
        if left[i] <= right[j] {
            let x = left[i];
            arr[k] = x;
            proof {
                assert(arr@.subrange(lo as int, k as int + 1) =~= pre.subrange(lo as int, k as int)
                    + seq![x]);
                assert(left@.subrange(0, i as int + 1) =~= left@.subrange(0, i as int) + seq![x]);
                lemma_multiset_commutative(pre.subrange(lo as int, k as int), seq![x]);
                lemma_multiset_commutative(left@.subrange(0, i as int), seq![x]);
                lemma_multiset_commutative(left@.subrange(0, i as int), right@.subrange(0, j as int));
                lemma_multiset_commutative(
                    left@.subrange(0, i as int + 1),
                    right@.subrange(0, j as int),
                );
                assert(arr@.subrange(lo as int, k as int + 1).to_multiset() =~= (left@.subrange(
                    0,
                    i as int + 1,
                ) + right@.subrange(0, j as int)).to_multiset());
            }
            i += 1;
        } else {
            let x = right[j];
            arr[k] = x;
            proof {
                assert(arr@.subrange(lo as int, k as int + 1) =~= pre.subrange(lo as int, k as int)
                    + seq![x]);
                assert(right@.subrange(0, j as int + 1) =~= right@.subrange(0, j as int) + seq![x]);
                lemma_multiset_commutative(pre.subrange(lo as int, k as int), seq![x]);
                lemma_multiset_commutative(right@.subrange(0, j as int), seq![x]);
                lemma_multiset_commutative(left@.subrange(0, i as int), right@.subrange(0, j as int));
                lemma_multiset_commutative(
                    left@.subrange(0, i as int),
                    right@.subrange(0, j as int + 1),
                );
                assert(arr@.subrange(lo as int, k as int + 1).to_multiset() =~= (left@.subrange(
                    0,
                    i as int,
                ) + right@.subrange(0, j as int + 1)).to_multiset());
            }
            j += 1;
        }
        k += 1;
    }
    while i < ll
        invariant
            arr@.len() == old(arr)@.len(),
            ll == left@.len(),
            rl == right@.len(),
            hi == lo + ll + rl <= arr@.len(),
            i <= ll,
            j <= rl,
            k == lo + i + j,
            i < ll ==> j == rl,
            sorted(left@),
            sorted(right@),
            j < rl ==> forall|m: int| lo <= m < k ==> #[trigger] arr@[m] <= right@[j as int],
            forall|m: int| 0 <= m < arr@.len() && !(lo <= m < hi) ==> arr@[m] == old(arr)@[m],
            arr@.subrange(lo as int, k as int).to_multiset() == (left@.subrange(0, i as int)
                + right@.subrange(0, j as int)).to_multiset(),
            sorted_range(arr@, lo as int, k as int),
            i < ll ==> forall|m: int| lo <= m < k ==> #[trigger] arr@[m] <= left@[i as int],
        decreases ll - i,
    {
        let ghost pre = arr@;
        let x = left[i];
        arr[k] = x;
        proof {
            assert(arr@.subrange(lo as int, k as int + 1) =~= pre.subrange(lo as int, k as int)
                + seq![x]);
            assert(left@.subrange(0, i as int + 1) =~= left@.subrange(0, i as int) + seq![x]);
            lemma_multiset_commutative(pre.subrange(lo as int, k as int), seq![x]);
            lemma_multiset_commutative(left@.subrange(0, i as int), seq![x]);
            lemma_multiset_commutative(left@.subrange(0, i as int), right@.subrange(0, j as int));
            lemma_multiset_commutative(left@.subrange(0, i as int + 1), right@.subrange(0, j as int));
            assert(arr@.subrange(lo as int, k as int + 1).to_multiset() =~= (left@.subrange(
                0,
                i as int + 1,
            ) + right@.subrange(0, j as int)).to_multiset());
        }
        i += 1;
        k += 1;
    }
    while j < rl
        invariant
            arr@.len() == old(arr)@.len(),
            ll == left@.len(),
            rl == right@.len(),
            hi == lo + ll + rl <= arr@.len(),
            i == ll,
            j <= rl,
            k == lo + i + j,
            sorted(right@),
            forall|m: int| 0 <= m < arr@.len() && !(lo <= m < hi) ==> arr@[m] == old(arr)@[m],
            arr@.subrange(lo as int, k as int).to_multiset() == (left@.subrange(0, i as int)
                + right@.subrange(0, j as int)).to_multiset(),
            sorted_range(arr@, lo as int, k as int),
            j < rl ==> forall|m: int| lo <= m < k ==> #[trigger] arr@[m] <= right@[j as int],
        decreases rl - j,
    {
        let ghost pre = arr@;
        let x = right[j];
        arr[k] = x;
        proof {
            assert(arr@.subrange(lo as int, k as int + 1) =~= pre.subrange(lo as int, k as int)
                + seq![x]);
            assert(right@.subrange(0, j as int + 1) =~= right@.subrange(0, j as int) + seq![x]);
            lemma_multiset_commutative(pre.subrange(lo as int, k as int), seq![x]);
            lemma_multiset_commutative(right@.subrange(0, j as int), seq![x]);
            lemma_multiset_commutative(left@.subrange(0, i as int), right@.subrange(0, j as int));
            lemma_multiset_commutative(left@.subrange(0, i as int), right@.subrange(0, j as int + 1));
            assert(arr@.subrange(lo as int, k as int + 1).to_multiset() =~= (left@.subrange(
                0,
                i as int,
            ) + right@.subrange(0, j as int + 1)).to_multiset());
        }
        j += 1;
        k += 1;
    }
    proof {
        assert(left@.subrange(0, ll as int) =~= left@);
        assert(right@.subrange(0, rl as int) =~= right@);
    }
}

/// Merge sort of the window `[lo, hi)`: split at the midpoint, sort each
/// half, then merge the halves through temporary copies.
fn merge_sort_range(arr: &mut Vec<i64>, lo: usize, hi: usize)
    requires
        lo <= hi <= old(arr).len(),
    ensures
        final(arr)@.len() == old(arr)@.len(),
        sorted_range(final(arr)@, lo as int, hi as int),
        final(arr)@.subrange(lo as int, hi as int).to_multiset() == old(arr)@.subrange(
            lo as int,
            hi as int,
        ).to_multiset(),
        forall|k: int| 0 <= k < old(arr)@.len() && !(lo <= k < hi) ==> final(arr)@[k] == old(
            arr,
        )@[k],
    decreases hi - lo,
{
    if hi - lo <= 1 {
        return ;
    }
    let mid = lo + (hi - lo) / 2;
    let ghost v0 = arr@;
    merge_sort_range(arr, lo, mid);
    let ghost v1 = arr@;
    merge_sort_range(arr, mid, hi);
    let ghost v2 = arr@;
    let left = copy_range(arr, lo, mid);
    let right = copy_range(arr, mid, hi);
    proof {
        assert forall|a: int, b: int|
            #![trigger left@[a], left@[b]]
            0 <= a <= b < left@.len() implies left@[a] <= left@[b] by {
            assert(left@[a] == v2[lo + a] && left@[b] == v2[lo + b]);
            assert(v2[lo + a] == v1[lo + a] && v2[lo + b] == v1[lo + b]);
        }
        assert forall|a: int, b: int|
            #![trigger right@[a], right@[b]]
            0 <= a <= b < right@.len() implies right@[a] <= right@[b] by {
            assert(right@[a] == v2[mid + a] && right@[b] == v2[mid + b]);
        }
    }
    merge(arr, lo, &left, &right);
    proof {
        lemma_inner_patch_multiset(v0, v1, lo as int, hi as int, lo as int, mid as int);
        lemma_inner_patch_multiset(v1, v2, lo as int, hi as int, mid as int, hi as int);
        assert(left@ + right@ =~= v2.subrange(lo as int, hi as int));
    }
}

/// Recursive merge sort.  Stable, O(n log n) in every case, with O(n)
/// auxiliary space.
pub fn merge_sort(arr: &mut Vec<i64>)
    ensures
        sorted(final(arr)@),
        final(arr)@.to_multiset() == old(arr)@.to_multiset(),
        final(arr)@.len() == old(arr)@.len(),
{
    let n = arr.len();
    if n <= 1 {
        return ;
    }
    merge_sort_range(arr, 0, n);
    proof {
        assert(arr@.subrange(0, n as int) =~= arr@);
        assert(old(arr)@.subrange(0, n as int) =~= old(arr)@);
    }
}

/// The run of length `size` that starts at `a` (clipped to the end of the
/// sequence) is sorted.
spec fn run_sorted_at(s: Seq<i64>, size: int, a: int) -> bool {
    sorted_range(
        s,
        a,
        if a + size <= s.len() {
            a + size
        } else {
            s.len() as int
        },
    )
}

/// The sequence splits into sorted runs of length `size`, aligned at the
/// multiples of `size`.
spec fn runs_sorted(s: Seq<i64>, size: int) -> bool {
    forall|a: int| 0 <= a < s.len() && a % size == 0 ==> #[trigger] run_sorted_at(s, size, a)
}

/// A multiple of `2 * g` is a multiple of `g`.
proof fn lemma_mod_double(a: int, g: int)
    requires
        g >= 1,
        a % (2 * g) == 0,
    ensures
        a % g == 0,
{
    lemma_fundamental_div_mod(a, 2 * g);
    let q = a / (2 * g);
    assert(a == 2 * g * q);
    assert(g * (2 * q) + 0 == a) by (nonlinear_arith)
        requires
            a == 2 * g * q,
    ;
    lemma_mod_multiples_vanish(2 * q, 0, g);
    lemma_small_mod(0, g as nat);
}

/// Bottom-up merge sort: treats the sequence as sorted runs of length one
/// and merges adjacent run pairs of doubling size until one run spans the
/// whole sequence.  The final partial run is clipped to the sequence length.
pub fn merge_sort_iterative(arr: &mut Vec<i64>)
    ensures
        sorted(final(arr)@),
        final(arr)@.to_multiset() == old(arr)@.to_multiset(),
        final(arr)@.len() == old(arr)@.len(),
{
    let n = arr.len();
    if n <= 1 {
        return ;
    }
    let mut size: usize = 1;
    while size < n
        invariant
            n == arr.len(),
            1 <= size,
            arr@.to_multiset() == old(arr)@.to_multiset(),
            runs_sorted(arr@, size as int),
            size >= n ==> sorted(arr@),
        decreases n - size,
    {
        let ghost two = 2 * (size as int);
        let mut left: usize = 0;
        proof {
            lemma_small_mod(0, two as nat);
        }
        while left < n - size
            invariant
                n == arr.len(),
                1 <= size < n,
                left <= n,
                two == 2 * (size as int),
                left as int % two == 0 || left == n,
                arr@.to_multiset() == old(arr)@.to_multiset(),
                forall|a: int|
                    0 <= a < left && a % two == 0 ==> #[trigger] run_sorted_at(arr@, two, a),
                forall|a: int|
                    left <= a < n && a % (size as int) == 0 ==> #[trigger] run_sorted_at(
                        arr@,
                        size as int,
                        a,
                    ),
            decreases n - left,
        {
            let mid = left + size;
            let right = if n - mid > size {
                mid + size
            } else {
                n
            };
            proof {
                lemma_mod_double(left as int, size as int);
                lemma_mod_add_multiples_vanish(left as int, size as int);
                assert(run_sorted_at(arr@, size as int, left as int));
                assert(run_sorted_at(arr@, size as int, mid as int));
            }
            let lvec = copy_range(arr, left, mid);
            let rvec = copy_range(arr, mid, right);
            let ghost v1 = arr@;
            proof {
                assert forall|a: int, b: int|
                    #![trigger lvec@[a], lvec@[b]]
                    0 <= a <= b < lvec@.len() implies lvec@[a] <= lvec@[b] by {
                    assert(lvec@[a] == v1[left + a] && lvec@[b] == v1[left + b]);
                }
                assert forall|a: int, b: int|
                    #![trigger rvec@[a], rvec@[b]]
                    0 <= a <= b < rvec@.len() implies rvec@[a] <= rvec@[b] by {
                    assert(rvec@[a] == v1[mid + a] && rvec@[b] == v1[mid + b]);
                }
            }
            merge(arr, left, &lvec, &rvec);
            proof {
                assert(lvec@ + rvec@ =~= v1.subrange(left as int, right as int));
                lemma_inner_patch_multiset(
                    v1,
                    arr@,
                    0,
                    n as int,
                    left as int,
                    right as int,
                );
                assert(v1.subrange(0, n as int) =~= v1);
                assert(arr@.subrange(0, n as int) =~= arr@);
                assert(run_sorted_at(arr@, two, left as int));
                assert forall|a: int|
                    0 <= a < right && a % two == 0 implies #[trigger] run_sorted_at(
                        arr@,
                        two,
                        a,
                    ) by {
                    if a < left {
                        lemma_mod_diff_zero(left as int, a, two);
                        lemma_multiple_ge(left - a, two);
                        assert(forall|m: int| a <= m < a + two ==> arr@[m] == v1[m]);
                        assert(run_sorted_at(v1, two, a));
                    } else if a > left {
                        lemma_mod_diff_zero(a, left as int, two);
                        lemma_multiple_ge(a - left, two);
                        assert(false);
                    }
                }
                assert forall|a: int|
                    right <= a < n && a % (size as int) == 0 implies #[trigger] run_sorted_at(
                        arr@,
                        size as int,
                        a,
                    ) by {
                    assert(forall|m: int| a <= m < n ==> arr@[m] == v1[m]);
                    assert(run_sorted_at(v1, size as int, a));
                }
                if right == n {
                } else {
                    lemma_mod_add_multiples_vanish(left as int, two);
                    assert((left as int + two) % two == left as int % two);
                }
            }
            left = right;
        }
        proof {
            assert forall|a: int| 0 <= a < n && a % two == 0 implies #[trigger] run_sorted_at(
                arr@,
                two,
                a,
            ) by {
                if a >= left {
                    assert(left < n);
                    assert(left as int % two == 0);
                    if a > left {
                        lemma_mod_diff_zero(a, left as int, two);
                        lemma_multiple_ge(a - left, two);
                    }
                    assert(a == left);
                    lemma_mod_double(left as int, size as int);
                    assert(run_sorted_at(arr@, size as int, a));
                }
            }
        }
        let next = if size <= (n - 1) / 2 {
            size * 2
        } else {
            n
        };
        proof {
            if next == n {
                assert(0int % two == 0) by {
                    lemma_small_mod(0, two as nat);
                }
                assert(run_sorted_at(arr@, two, 0));
                assert(2 * size >= n);
                assert(sorted(arr@));
            }
            assert(0int % (n as int) == 0) by {
                lemma_small_mod(0, n as nat);
            }
            if next == n {
                assert(run_sorted_at(arr@, n as int, 0));
            }
        }
        size = next;
    }
}

/// Merge of two key-sorted runs of entries into the window of `arr` that
/// starts at `lo`, taking from `left` on key ties.  Besides order and
/// multiset, the contract carries the merge's stability: each key class of
/// the merged window is `left`'s class followed by `right`'s.
fn merge_by_key(arr: &mut Vec<Entry>, lo: usize, left: &Vec<Entry>, right: &Vec<Entry>)
    requires
        lo + left.len() + right.len() <= old(arr).len(),
        key_sorted(left@),
        key_sorted(right@),
    ensures
        final(arr)@.len() == old(arr)@.len(),
        forall|k: int|
            0 <= k < old(arr)@.len() && !(lo <= k < lo + left@.len() + right@.len())
                ==> final(arr)@[k] == old(arr)@[k],
        final(arr)@.subrange(lo as int, lo + left@.len() + right@.len()).to_multiset() == (left@
            + right@).to_multiset(),
        key_sorted_range(final(arr)@, lo as int, lo + left@.len() + right@.len()),
        forall|k: i64|
            #[trigger] with_key(
                final(arr)@.subrange(lo as int, lo + left@.len() + right@.len()),
                k,
            ) == with_key(left@, k) + with_key(right@, k),
{
    broadcast use vstd::seq_lib::group_to_multiset_ensures;
    broadcast use vstd::multiset::group_multiset_axioms;

    let ll = left.len();
    let rl = right.len();
    let hi = lo + ll + rl;
    let mut i: usize = 0;
    let mut j: usize = 0;
    let mut out: usize = lo;
    proof {
        assert(arr@.subrange(lo as int, lo as int) =~= Seq::<Entry>::empty());
        assert(left@.subrange(0, 0) =~= Seq::<Entry>::empty());
        assert(right@.subrange(0, 0) =~= Seq::<Entry>::empty());
        assert((left@.subrange(0, 0) + right@.subrange(0, 0)).to_multiset() =~= Seq::<
            Entry,
        >::empty().to_multiset());
        assert forall|k: i64| #[trigger] with_key(arr@.subrange(lo as int, lo as int), k)
            == with_key(left@.subrange(0, 0), k) + with_key(right@.subrange(0, 0), k) by {
            lemma_with_key_none(Seq::<Entry>::empty(), k);
            assert(with_key(arr@.subrange(lo as int, lo as int), k) =~= with_key(
                left@.subrange(0, 0),
                k,
            ) + with_key(right@.subrange(0, 0), k));
        }
    }
    while i < ll && j < rl
        invariant
            arr@.len() == old(arr)@.len(),
            ll == left@.len(),
            rl == right@.len(),
            hi == lo + ll + rl <= arr@.len(),
            i <= ll,
            j <= rl,
            out == lo + i + j,
            key_sorted(left@),
            key_sorted(right@),
            forall|m: int| 0 <= m < arr@.len() && !(lo <= m < hi) ==> arr@[m] == old(arr)@[m],
            arr@.subrange(lo as int, out as int).to_multiset() == (left@.subrange(0, i as int)
                + right@.subrange(0, j as int)).to_multiset(),
            key_sorted_range(arr@, lo as int, out as int),
            i < ll ==> forall|m: int|
                lo <= m < out ==> (#[trigger] arr@[m]).key <= left@[i as int].key,
            j < rl ==> forall|m: int|
                lo <= m < out ==> (#[trigger] arr@[m]).key <= right@[j as int].key,
            i < ll ==> forall|c: int|
                0 <= c < j ==> (#[trigger] right@[c]).key < left@[i as int].key,
            forall|k: i64|
                #[trigger] with_key(arr@.subrange(lo as int, out as int), k) == with_key(
                    left@.subrange(0, i as int),
                    k,
                ) + with_key(right@.subrange(0, j as int), k),
        decreases ll + rl - i - j,
    {
        let ghost prew = arr@.subrange(lo as int, out as int);
        if left[i].key <= right[j].key {
            let x = left[i];
            arr[out] = x;
            proof {
                assert(arr@.subrange(lo as int, out as int + 1) =~= prew + seq![x]);
                assert(left@.subrange(0, i as int + 1) =~= left@.subrange(0, i as int) + seq![x]);
                vstd::seq_lib::lemma_multiset_commutative(prew, seq![x]);
                vstd::seq_lib::lemma_multiset_commutative(left@.subrange(0, i as int), seq![x]);
                vstd::seq_lib::lemma_multiset_commutative(
                    left@.subrange(0, i as int),
                    right@.subrange(0, j as int),
                );
                vstd::seq_lib::lemma_multiset_commutative(
                    left@.subrange(0, i as int + 1),
                    right@.subrange(0, j as int),
                );
                assert(arr@.subrange(lo as int, out as int + 1).to_multiset() =~= (left@.subrange(
                    0,
                    i as int + 1,
                ) + right@.subrange(0, j as int)).to_multiset());
                assert forall|k: i64|
                    #[trigger] with_key(arr@.subrange(lo as int, out as int + 1), k) == with_key(
                    left@.subrange(0, i as int + 1),
                    k,
                ) + with_key(right@.subrange(0, j as int), k) by {
                    lemma_with_key_push(prew, x, k);
                    lemma_with_key_push(left@.subrange(0, i as int), x, k);
                    assert(arr@.subrange(lo as int, out as int + 1) == prew.push(x));
                    assert(left@.subrange(0, i as int + 1) == left@.subrange(0, i as int).push(x));
                    if k == x.key {
                        let consumed = right@.subrange(0, j as int);
                        assert forall|c: int|
                            0 <= c < consumed.len() implies (#[trigger] consumed[c]).key != k by {
                            assert(right@[c].key < left@[i as int].key);
                        }
                        lemma_with_key_none(consumed, k);
                        assert(with_key(prew.push(x), k) =~= with_key(
                            left@.subrange(0, i as int + 1),
                            k,
                        ) + with_key(consumed, k));
                    } else {
                        assert(with_key(prew.push(x), k) =~= with_key(
                            left@.subrange(0, i as int + 1),
                            k,
                        ) + with_key(right@.subrange(0, j as int), k));
                    }
                }
            }
            i += 1;
        } else {
            let y = right[j];
            arr[out] = y;
            proof {
                assert(arr@.subrange(lo as int, out as int + 1) =~= prew + seq![y]);
                assert(right@.subrange(0, j as int + 1) =~= right@.subrange(0, j as int) + seq![y]);
                vstd::seq_lib::lemma_multiset_commutative(prew, seq![y]);
                vstd::seq_lib::lemma_multiset_commutative(right@.subrange(0, j as int), seq![y]);
                vstd::seq_lib::lemma_multiset_commutative(
                    left@.subrange(0, i as int),
                    right@.subrange(0, j as int),
                );
                vstd::seq_lib::lemma_multiset_commutative(
                    left@.subrange(0, i as int),
                    right@.subrange(0, j as int + 1),
                );
                assert(arr@.subrange(lo as int, out as int + 1).to_multiset() =~= (left@.subrange(
                    0,
                    i as int,
                ) + right@.subrange(0, j as int + 1)).to_multiset());
                assert forall|k: i64|
                    #[trigger] with_key(arr@.subrange(lo as int, out as int + 1), k) == with_key(
                    left@.subrange(0, i as int),
                    k,
                ) + with_key(right@.subrange(0, j as int + 1), k) by {
                    lemma_with_key_push(prew, y, k);
                    lemma_with_key_push(right@.subrange(0, j as int), y, k);
                    assert(arr@.subrange(lo as int, out as int + 1) == prew.push(y));
                    assert(right@.subrange(0, j as int + 1) == right@.subrange(0, j as int).push(
                        y,
                    ));
                    assert(with_key(prew.push(y), k) =~= with_key(left@.subrange(0, i as int), k)
                        + with_key(right@.subrange(0, j as int + 1), k));
                }
            }
            j += 1;
        }
        out += 1;
    }
    while i < ll
        invariant
            arr@.len() == old(arr)@.len(),
            ll == left@.len(),
            rl == right@.len(),
            hi == lo + ll + rl <= arr@.len(),
            i <= ll,
            j <= rl,
            out == lo + i + j,
            i < ll ==> j == rl,
            key_sorted(left@),
            key_sorted(right@),
            j < rl ==> forall|m: int|
                lo <= m < out ==> (#[trigger] arr@[m]).key <= right@[j as int].key,
            i < ll ==> forall|c: int|
                0 <= c < j ==> (#[trigger] right@[c]).key < left@[i as int].key,
            forall|m: int| 0 <= m < arr@.len() && !(lo <= m < hi) ==> arr@[m] == old(arr)@[m],
            arr@.subrange(lo as int, out as int).to_multiset() == (left@.subrange(0, i as int)
                + right@.subrange(0, j as int)).to_multiset(),
            key_sorted_range(arr@, lo as int, out as int),
            i < ll ==> forall|m: int|
                lo <= m < out ==> (#[trigger] arr@[m]).key <= left@[i as int].key,
            forall|k: i64|
                #[trigger] with_key(arr@.subrange(lo as int, out as int), k) == with_key(
                    left@.subrange(0, i as int),
                    k,
                ) + with_key(right@.subrange(0, j as int), k),
        decreases ll - i,
    {
        let ghost prew = arr@.subrange(lo as int, out as int);
        let x = left[i];
        arr[out] = x;
        proof {
            assert(arr@.subrange(lo as int, out as int + 1) =~= prew + seq![x]);
            assert(left@.subrange(0, i as int + 1) =~= left@.subrange(0, i as int) + seq![x]);
            vstd::seq_lib::lemma_multiset_commutative(prew, seq![x]);
            vstd::seq_lib::lemma_multiset_commutative(left@.subrange(0, i as int), seq![x]);
            vstd::seq_lib::lemma_multiset_commutative(
                left@.subrange(0, i as int),
                right@.subrange(0, j as int),
            );
            vstd::seq_lib::lemma_multiset_commutative(
                left@.subrange(0, i as int + 1),
                right@.subrange(0, j as int),
            );
            assert(arr@.subrange(lo as int, out as int + 1).to_multiset() =~= (left@.subrange(
                0,
                i as int + 1,
            ) + right@.subrange(0, j as int)).to_multiset());
            assert forall|k: i64|
                #[trigger] with_key(arr@.subrange(lo as int, out as int + 1), k) == with_key(
                left@.subrange(0, i as int + 1),
                k,
            ) + with_key(right@.subrange(0, j as int), k) by {
                lemma_with_key_push(prew, x, k);
                lemma_with_key_push(left@.subrange(0, i as int), x, k);
                assert(arr@.subrange(lo as int, out as int + 1) == prew.push(x));
                assert(left@.subrange(0, i as int + 1) == left@.subrange(0, i as int).push(x));
                if k == x.key {
                    let consumed = right@.subrange(0, j as int);
                    assert forall|c: int|
                        0 <= c < consumed.len() implies (#[trigger] consumed[c]).key != k by {
                        assert(right@[c].key < left@[i as int].key);
                    }
                    lemma_with_key_none(consumed, k);
                    assert(with_key(prew.push(x), k) =~= with_key(
                        left@.subrange(0, i as int + 1),
                        k,
                    ) + with_key(consumed, k));
                } else {
                    assert(with_key(prew.push(x), k) =~= with_key(
                        left@.subrange(0, i as int + 1),
                        k,
                    ) + with_key(right@.subrange(0, j as int), k));
                }
            }
        }
        i += 1;
        out += 1;
    }
    while j < rl
        invariant
            arr@.len() == old(arr)@.len(),
            ll == left@.len(),
            rl == right@.len(),
            hi == lo + ll + rl <= arr@.len(),
            i == ll,
            j <= rl,
            out == lo + i + j,
            key_sorted(right@),
            forall|m: int| 0 <= m < arr@.len() && !(lo <= m < hi) ==> arr@[m] == old(arr)@[m],
            arr@.subrange(lo as int, out as int).to_multiset() == (left@.subrange(0, i as int)
                + right@.subrange(0, j as int)).to_multiset(),
            key_sorted_range(arr@, lo as int, out as int),
            j < rl ==> forall|m: int|
                lo <= m < out ==> (#[trigger] arr@[m]).key <= right@[j as int].key,
            forall|k: i64|
                #[trigger] with_key(arr@.subrange(lo as int, out as int), k) == with_key(
                    left@.subrange(0, i as int),
                    k,
                ) + with_key(right@.subrange(0, j as int), k),
        decreases rl - j,
    {
        let ghost prew = arr@.subrange(lo as int, out as int);
        let y = right[j];
        arr[out] = y;
        proof {
            assert(arr@.subrange(lo as int, out as int + 1) =~= prew + seq![y]);
            assert(right@.subrange(0, j as int + 1) =~= right@.subrange(0, j as int) + seq![y]);
            vstd::seq_lib::lemma_multiset_commutative(prew, seq![y]);
            vstd::seq_lib::lemma_multiset_commutative(right@.subrange(0, j as int), seq![y]);
            vstd::seq_lib::lemma_multiset_commutative(
                left@.subrange(0, i as int),
                right@.subrange(0, j as int),
            );
            vstd::seq_lib::lemma_multiset_commutative(
                left@.subrange(0, i as int),
                right@.subrange(0, j as int + 1),
            );
            assert(arr@.subrange(lo as int, out as int + 1).to_multiset() =~= (left@.subrange(
                0,
                i as int,
            ) + right@.subrange(0, j as int + 1)).to_multiset());
            assert forall|k: i64|
                #[trigger] with_key(arr@.subrange(lo as int, out as int + 1), k) == with_key(
                left@.subrange(0, i as int),
                k,
            ) + with_key(right@.subrange(0, j as int + 1), k) by {
                lemma_with_key_push(prew, y, k);
                lemma_with_key_push(right@.subrange(0, j as int), y, k);
                assert(arr@.subrange(lo as int, out as int + 1) == prew.push(y));
                assert(right@.subrange(0, j as int + 1) == right@.subrange(0, j as int).push(y));
                assert(with_key(prew.push(y), k) =~= with_key(left@.subrange(0, i as int), k)
                    + with_key(right@.subrange(0, j as int + 1), k));
            }
        }
        j += 1;
        out += 1;
    }
    proof {
        assert(left@.subrange(0, ll as int) =~= left@);
        assert(right@.subrange(0, rl as int) =~= right@);
    }
}

/// Keyed merge sort of the window `[lo, hi)`: order, multiset, frame, and
/// every key class returned in its input order.
fn merge_sort_by_key_range(arr: &mut Vec<Entry>, lo: usize, hi: usize)
    requires
        lo <= hi <= old(arr).len(),
    ensures
        final(arr)@.len() == old(arr)@.len(),
        key_sorted_range(final(arr)@, lo as int, hi as int),
        final(arr)@.subrange(lo as int, hi as int).to_multiset() == old(arr)@.subrange(
            lo as int,
            hi as int,
        ).to_multiset(),
        forall|k: int| 0 <= k < old(arr)@.len() && !(lo <= k < hi) ==> final(arr)@[k] == old(
            arr,
        )@[k],
        forall|k: i64|
            #[trigger] with_key(final(arr)@.subrange(lo as int, hi as int), k) == with_key(
                old(arr)@.subrange(lo as int, hi as int),
                k,
            ),
    decreases hi - lo,
{
    if hi - lo <= 1 {
        return ;
    }
    let mid = lo + (hi - lo) / 2;
    let ghost v0 = arr@;
    merge_sort_by_key_range(arr, lo, mid);
    let ghost v1 = arr@;
    merge_sort_by_key_range(arr, mid, hi);
    let ghost v2 = arr@;
    let left = copy_range(arr, lo, mid);
    let right = copy_range(arr, mid, hi);
    proof {
        assert forall|a: int, b: int|
            #![trigger left@[a], left@[b]]
            0 <= a <= b < left@.len() implies left@[a].key <= left@[b].key by {
            assert(left@[a] == v2[lo + a] && left@[b] == v2[lo + b]);
            assert(v2[lo + a] == v1[lo + a] && v2[lo + b] == v1[lo + b]);
        }
        assert forall|a: int, b: int|
            #![trigger right@[a], right@[b]]
            0 <= a <= b < right@.len() implies right@[a].key <= right@[b].key by {
            assert(right@[a] == v2[mid + a] && right@[b] == v2[mid + b]);
        }
    }
    merge_by_key(arr, lo, &left, &right);
    proof {
        lemma_inner_patch_multiset(v0, v1, lo as int, hi as int, lo as int, mid as int);
        lemma_inner_patch_multiset(v1, v2, lo as int, hi as int, mid as int, hi as int);
        assert(left@ + right@ =~= v2.subrange(lo as int, hi as int));
        assert(left@ =~= v2.subrange(lo as int, mid as int));
        assert(right@ =~= v2.subrange(mid as int, hi as int));
        assert(v1.subrange(mid as int, hi as int) =~= v0.subrange(mid as int, hi as int));
        assert(v2.subrange(lo as int, mid as int) =~= v1.subrange(lo as int, mid as int));
        assert forall|k: i64|
            #[trigger] with_key(arr@.subrange(lo as int, hi as int), k) == with_key(
            v0.subrange(lo as int, hi as int),
            k,
        ) by {
            assert(with_key(arr@.subrange(lo as int, hi as int), k) == with_key(left@, k)
                + with_key(right@, k));
            assert(with_key(left@, k) == with_key(v0.subrange(lo as int, mid as int), k));
            assert(with_key(right@, k) == with_key(v0.subrange(mid as int, hi as int), k));
            lemma_with_key_concat(
                v0.subrange(lo as int, mid as int),
                v0.subrange(mid as int, hi as int),
                k,
            );
            assert(v0.subrange(lo as int, mid as int) + v0.subrange(mid as int, hi as int)
                =~= v0.subrange(lo as int, hi as int));
        }
    }
}

/// Keyed merge sort, comparing keys alone and taking from the left run on
/// ties.  The contract states the sort's stability exactly: for every key,
/// the subsequence of entries carrying that key is returned unchanged.
pub fn merge_sort_by_key(arr: &mut Vec<Entry>)
    ensures
        final(arr)@.len() == old(arr)@.len(),
        final(arr)@.to_multiset() == old(arr)@.to_multiset(),
        key_sorted(final(arr)@),
        forall|k: i64| #[trigger] with_key(final(arr)@, k) == with_key(old(arr)@, k),
{
    let n = arr.len();
    if n <= 1 {
        return ;
    }
    merge_sort_by_key_range(arr, 0, n);
    proof {
        assert(arr@.subrange(0, n as int) =~= arr@);
        assert(old(arr)@.subrange(0, n as int) =~= old(arr)@);
    }
}

} // verus!
