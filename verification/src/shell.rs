//! Shell sort: insertion sort generalized to a shrinking gap sequence.

use vstd::prelude::*;
use crate::perm::{sorted, lemma_multiple_ge, lemma_swap_multiset};
use vstd::arithmetic::div_mod::{
    lemma_mod_add_multiples_vanish,
    lemma_mod_sub_multiples_vanish,
    lemma_small_mod,
};

verus! {

/// Elements of `s` whose positions differ by a multiple of `gap` are
/// mutually ordered, over positions below `upto`.
spec fn gap_sorted(s: Seq<i64>, gap: int, upto: int) -> bool {
    forall|k: int, m: int|
        #![trigger s[k], s[m]]
        0 <= k < m < upto && m < s.len() && (m - k) % gap == 0 ==> s[k] <= s[m]
}

/// One gapped insertion pass: every element from position `gap` on is
/// shifted down its own gap-strided chain until the chain is ordered.
fn shell_pass(arr: &mut Vec<i64>, gap: usize)
    requires
        gap >= 1,
    ensures
        final(arr)@.len() == old(arr)@.len(),
        final(arr)@.to_multiset() == old(arr)@.to_multiset(),
        gap_sorted(final(arr)@, gap as int, old(arr)@.len() as int),
{
    let n = arr.len();
    proof {
        assert forall|k: int, m: int|
            #![trigger arr@[k], arr@[m]]
            0 <= k < m < gap && m < arr@.len() && (m - k) % (gap as int) == 0 implies arr@[k]
            <= arr@[m] by {
            lemma_small_mod((m - k) as nat, gap as nat);
        }
    }
    let mut i: usize = gap;
    while i < n
        invariant
            n == arr.len(),
            gap >= 1,
            gap <= i,
            arr@.to_multiset() == old(arr)@.to_multiset(),
            gap_sorted(arr@, gap as int, i as int),
        decreases n - i,
    {
        let temp = arr[i];
        let ghost s0 = arr@;
        proof {
            assert(arr@.update(i as int, temp) =~= arr@);
        }
        let mut j: usize = i;
        proof {
            lemma_small_mod(0, gap as nat);
        }
        while j >= gap && arr[j - gap] > temp
            invariant
                n == arr.len(),
                s0.len() == n,
                gap >= 1,
                gap <= i < n,
                j <= i,
                (i - j) % (gap as int) == 0,
                temp == s0[i as int],
                arr@.update(j as int, temp).to_multiset() == s0.to_multiset(),
                forall|m: int|
                    #![trigger arr@[m]]
                    j < m <= i && (m - j) % (gap as int) == 0 ==> arr@[m] > temp,
                forall|k: int, m: int|
                    #![trigger arr@[k], arr@[m]]
                    0 <= k < m <= i && (m - k) % (gap as int) == 0 && k != j && m != j ==> arr@[k]
                        <= arr@[m],
            decreases j,
        {
            let shifted = arr[j - gap];
            let jj = j - gap;
            proof {
                let u = arr@.update(j as int, temp);
                lemma_swap_multiset(u, jj as int, j as int);
                assert(arr@.update(j as int, arr@[jj as int]).update(jj as int, temp)
                    =~= u.update(jj as int, u[j as int]).update(j as int, u[jj as int]));
            }
            arr[j] = shifted;
            proof {
                lemma_mod_add_multiples_vanish((i - j) as int, gap as int);
                assert((i - jj as int) % (gap as int) == 0);
                assert forall|m: int|
                    #![trigger arr@[m]]
                    jj < m <= i && (m - jj as int) % (gap as int) == 0 implies arr@[m]
                    > temp by {
                    lemma_mod_sub_multiples_vanish(m - jj as int, gap as int);
                    if m != j {
                        lemma_multiple_ge(m - jj as int, gap as int);
                    }
                }
                assert forall|k: int, m: int|
                    #![trigger arr@[k], arr@[m]]
                    0 <= k < m <= i && (m - k) % (gap as int) == 0 && k != jj && m != jj implies
                    arr@[k] <= arr@[m] by {
                    if m == j && k < j {
                        lemma_multiple_ge(j - k, gap as int);
                        lemma_mod_sub_multiples_vanish(j - k, gap as int);
                        assert((jj as int - k) % (gap as int) == 0);
                        if k < jj as int {
                            assert(arr@[k] <= arr@[jj as int]);
                        }
                    }
                    if k == j && m > j {
                        lemma_mod_add_multiples_vanish(m - j, gap as int);
                        assert((m - jj as int) % (gap as int) == 0);
                        assert(arr@[jj as int] <= arr@[m]);
                    }
                }
            }
            j = jj;
        }
        arr[j] = temp;
        proof {
            assert forall|k: int, m: int|
                #![trigger arr@[k], arr@[m]]
                0 <= k < m <= i && (m - k) % (gap as int) == 0 implies arr@[k] <= arr@[m] by {
                if m == j {
                    lemma_multiple_ge(m - k, gap as int);
                    lemma_mod_sub_multiples_vanish(j as int - k, gap as int);
                    assert(k <= j - gap);
                    if k < j - gap {
                        assert(arr@[k] <= arr@[j as int - gap as int]);
                    }
                    assert(arr@[j as int - gap as int] <= temp);
                }
            }
        }
        i += 1;
    }
}

/// Shell sort: runs gapped insertion passes with the gap halving from `n/2`
/// down to one; the final unit-gap pass is a full insertion sort, which
/// leaves the sequence sorted.  Unstable: long-gap moves can reorder equal
/// keys.
pub fn shell_sort(arr: &mut Vec<i64>)
    ensures
        sorted(final(arr)@),
        final(arr)@.to_multiset() == old(arr)@.to_multiset(),
        final(arr)@.len() == old(arr)@.len(),
{
    let n = arr.len();
    if n <= 1 {
        return;
    }
    let mut gap: usize = n / 2;
    while gap > 0
        invariant
            n == arr.len(),
            arr@.to_multiset() == old(arr)@.to_multiset(),
            gap == 0 ==> sorted(arr@),
        decreases gap,
    {
        shell_pass(arr, gap);
        proof {
            if gap == 1 {
                assert forall|a: int, b: int|
                    #![trigger arr@[a], arr@[b]]
                    0 <= a <= b < n implies arr@[a] <= arr@[b] by {
                    if a < b {
                        assert((b - a) % 1int == 0);
                    }
                }
            }
        }
        gap = gap / 2;
    }
}

} // verus!
