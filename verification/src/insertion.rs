//! Insertion sort: grow a sorted prefix by inserting the next element into
//! its place, in three variants (move, swap, binary search).

use vstd::prelude::*;
use crate::perm::{
    sorted,
    sorted_range,
    lemma_filter_push,
    lemma_filter_singleton,
    lemma_swap_multiset,
    swap_at,
};

verus! {

/// Move variant: holds the element being inserted aside and shifts greater
/// elements one place right by assignment, then drops the held element into
/// the gap.  Stable: only strictly greater elements are shifted.
pub fn insertion_sort(arr: &mut Vec<i64>)
    ensures
        sorted(final(arr)@),
        final(arr)@.to_multiset() == old(arr)@.to_multiset(),
        final(arr)@.len() == old(arr)@.len(),
{
    let n = arr.len();
    if n <= 1 {
        return;
    }
    let mut i: usize = 1;
    while i < n
        invariant
            n == arr.len(),
            1 <= i <= n,
            arr@.to_multiset() == old(arr)@.to_multiset(),
            sorted_range(arr@, 0, i as int),
        decreases n - i,
    {
        let key = arr[i];
        let ghost s0 = arr@;
        proof {
            assert(arr@.update(i as int, key) =~= arr@);
        }
        let mut j: usize = i;
        while j > 0 && arr[j - 1] > key
            invariant
                n == arr.len(),
                j <= i < n,
                key == s0[i as int],
                arr@.update(j as int, key).to_multiset() == s0.to_multiset(),
                forall|m: int| j < m <= i ==> #[trigger] arr@[m] > key,
                forall|a: int, b: int|
                    #![trigger arr@[a], arr@[b]]
                    0 <= a <= b <= i && a != j && b != j ==> arr@[a] <= arr@[b],
            decreases j,
        {
            proof {
                let u = arr@.update(j as int, key);
                lemma_swap_multiset(u, j as int - 1, j as int);
                assert(arr@.update(j as int, arr@[j as int - 1]).update(j as int - 1, key)
                    =~= u.update(j as int - 1, u[j as int]).update(j as int, u[j as int - 1]));
            }
            let shifted = arr[j - 1];
            arr[j] = shifted;
            j -= 1;
        }
        arr[j] = key;
        proof {
            assert(sorted_range(arr@, 0, i as int + 1));
        }
        i += 1;
    }
}

/// Swap variant: walks the new element left through adjacent swaps until its
/// predecessor is no longer greater.  Stable, with more writes than the move
/// variant.
pub fn insertion_sort_swap(arr: &mut Vec<i64>)
    ensures
        sorted(final(arr)@),
        final(arr)@.to_multiset() == old(arr)@.to_multiset(),
        final(arr)@.len() == old(arr)@.len(),
{
    let n = arr.len();
    if n <= 1 {
        return;
    }
    let mut i: usize = 1;
    while i < n
        invariant
            n == arr.len(),
            1 <= i <= n,
            arr@.to_multiset() == old(arr)@.to_multiset(),
            sorted_range(arr@, 0, i as int),
        decreases n - i,
    {
        let mut j: usize = i;
        while j > 0 && arr[j - 1] > arr[j]
            invariant
                n == arr.len(),
                j <= i < n,
                arr@.to_multiset() == old(arr)@.to_multiset(),
                forall|b: int| j < b <= i ==> arr@[j as int] <= #[trigger] arr@[b],
                forall|a: int, b: int|
                    #![trigger arr@[a], arr@[b]]
                    0 <= a <= b <= i && a != j && b != j ==> arr@[a] <= arr@[b],
            decreases j,
        {
            swap_at(arr, j - 1, j);
            j -= 1;
        }
        proof {
            assert(sorted_range(arr@, 0, i as int + 1));
        }
        i += 1;
    }
}

/// Binary search over the sorted prefix `[0, end)`: the first index whose
/// element compares strictly greater than `target`.  Ties go right, which is
/// what keeps the binary insertion sort stable.
pub fn binary_search_insert_position(arr: &Vec<i64>, end: usize, target: i64) -> (r: usize)
    requires
        end <= arr.len(),
        sorted_range(arr@, 0, end as int),
    ensures
        r <= end,
        forall|m: int| 0 <= m < r ==> #[trigger] arr@[m] <= target,
        forall|m: int| r <= m < end ==> #[trigger] arr@[m] > target,
{
    let mut left: usize = 0;
    let mut right: usize = end;
    while left < right
        invariant
            end <= arr.len(),
            left <= right <= end,
            forall|m: int| 0 <= m < left ==> #[trigger] arr@[m] <= target,
            forall|m: int| right <= m < end ==> #[trigger] arr@[m] > target,
            sorted_range(arr@, 0, end as int),
        decreases right - left,
    {
        let mid = left + (right - left) / 2;
        if arr[mid] <= target {
            left = mid + 1;
        } else {
            right = mid;
        }
    }
    left
}

/// Binary-insertion variant: finds the insertion point of each element with
/// a binary search over the sorted prefix, then opens the slot with a single
/// block shift.  Fewer comparisons; the same number of moves.
pub fn binary_insertion_sort(arr: &mut Vec<i64>)
    ensures
        sorted(final(arr)@),
        final(arr)@.to_multiset() == old(arr)@.to_multiset(),
        final(arr)@.len() == old(arr)@.len(),
{
    let n = arr.len();
    if n <= 1 {
        return;
    }
    let mut i: usize = 1;
    while i < n
        invariant
            n == arr.len(),
            1 <= i <= n,
            arr@.to_multiset() == old(arr)@.to_multiset(),
            sorted_range(arr@, 0, i as int),
        decreases n - i,
    {
        let key = arr[i];
        let pos = binary_search_insert_position(arr, i, key);
        let ghost s0 = arr@;
        proof {
            assert(arr@.update(i as int, key) =~= arr@);
        }
        let mut j: usize = i;
        while j > pos
            invariant
                n == arr.len(),
                pos <= j <= i < n,
                key == s0[i as int],
                s0.len() == n,
                forall|m: int| 0 <= m < pos ==> #[trigger] s0[m] <= key,
                forall|m: int| pos <= m < i ==> #[trigger] s0[m] > key,
                arr@.update(j as int, key).to_multiset() == s0.to_multiset(),
                forall|m: int| 0 <= m < n && !(j <= m <= i) ==> arr@[m] == s0[m],
                forall|m: int| j < m <= i ==> #[trigger] arr@[m] > key,
                forall|a: int, b: int|
                    #![trigger arr@[a], arr@[b]]
                    0 <= a <= b <= i && a != j && b != j ==> arr@[a] <= arr@[b],
            decreases j - pos,
        {
            proof {
                let u = arr@.update(j as int, key);
                lemma_swap_multiset(u, j as int - 1, j as int);
                assert(arr@.update(j as int, arr@[j as int - 1]).update(j as int - 1, key)
                    =~= u.update(j as int - 1, u[j as int]).update(j as int, u[j as int - 1]));
            }
            let shifted = arr[j - 1];
            proof {
                assert(arr@[j as int - 1] == s0[j as int - 1]);
                assert(s0[j as int - 1] > key);
            }
            arr[j] = shifted;
            j -= 1;
        }
        arr[j] = key;
        proof {
            assert forall|a: int, b: int|
                #![trigger arr@[a], arr@[b]]
                0 <= a <= b <= i implies arr@[a] <= arr@[b] by {
                if b == j && a < j {
                    assert(arr@[a] == s0[a]);
                    assert(s0[a] <= key);
                }
                if a == j && b > j {
                    assert(arr@[b] > key);
                }
            }
            assert(sorted_range(arr@, 0, i as int + 1));
        }
        i += 1;
    }
}

/// A sort key paired with the position the element held in the input, so
/// that stability is observable.
#[derive(Clone, Copy, PartialEq, Eq, Structural)]
pub struct Entry {
    pub key: i64,
    pub pos: usize,
}

/// The entries of `s` carrying the key `k`, in sequence order.
pub open spec fn with_key(s: Seq<Entry>, k: i64) -> Seq<Entry> {
    s.filter(|q: Entry| q.key == k)
}

/// The entries are in non-decreasing key order.
pub open spec fn key_sorted(s: Seq<Entry>) -> bool {
    forall|a: int, b: int| #![trigger s[a], s[b]] 0 <= a <= b < s.len() ==> s[a].key <= s[b].key
}

/// The slice of entries from `lo` to `hi` is in non-decreasing key order.
pub open spec fn key_sorted_range(s: Seq<Entry>, lo: int, hi: int) -> bool {
    forall|a: int, b: int| #![trigger s[a], s[b]] lo <= a <= b < hi ==> s[a].key <= s[b].key
}

/// Insertion sort over keyed entries, comparing keys alone.  The contract
/// states the sort's stability exactly: for every key, the subsequence of
/// entries carrying that key is returned unchanged, so equal keys keep
/// their input order.
pub fn insertion_sort_by_key(arr: &mut Vec<Entry>)
    ensures
        final(arr)@.len() == old(arr)@.len(),
        final(arr)@.to_multiset() == old(arr)@.to_multiset(),
        forall|a: int, b: int|
            #![trigger final(arr)@[a], final(arr)@[b]]
            0 <= a <= b < final(arr)@.len() ==> final(arr)@[a].key <= final(arr)@[b].key,
        forall|k: i64| #[trigger] with_key(final(arr)@, k) == with_key(old(arr)@, k),
{
    let n = arr.len();
    if n <= 1 {
        return ;
    }
    let mut i: usize = 1;
    while i < n
        invariant
            n == arr.len(),
            1 <= i <= n,
            arr@.to_multiset() == old(arr)@.to_multiset(),
            forall|a: int, b: int|
                #![trigger arr@[a], arr@[b]]
                0 <= a <= b < i ==> arr@[a].key <= arr@[b].key,
            forall|k: i64| #[trigger] with_key(arr@, k) == with_key(old(arr)@, k),
        decreases n - i,
    {
        let key = arr[i];
        let ghost s0 = arr@;
        proof {
            assert(arr@.update(i as int, key) =~= arr@);
            assert(arr@ =~= s0.subrange(0, i as int + 1) + s0.subrange(i as int, i as int)
                + s0.subrange(i as int + 1, n as int));
        }
        let mut j: usize = i;
        while j > 0 && arr[j - 1].key > key.key
            invariant
                n == arr.len(),
                j <= i < n,
                s0.len() == n,
                key == s0[i as int],
                arr@.update(j as int, key).to_multiset() == s0.to_multiset(),
                arr@ == s0.subrange(0, j as int + 1) + s0.subrange(j as int, i as int)
                    + s0.subrange(i as int + 1, n as int),
                forall|m: int| j <= m < i ==> #[trigger] s0[m].key > key.key,
                forall|m: int| j < m <= i ==> #[trigger] arr@[m].key > key.key,
                forall|a: int, b: int|
                    #![trigger arr@[a], arr@[b]]
                    0 <= a <= b <= i && a != j && b != j ==> arr@[a].key <= arr@[b].key,
            decreases j,
        {
            proof {
                let u = arr@.update(j as int, key);
                lemma_swap_multiset(u, j as int - 1, j as int);
                assert(arr@.update(j as int, arr@[j as int - 1]).update(j as int - 1, key)
                    =~= u.update(j as int - 1, u[j as int]).update(j as int, u[j as int - 1]));
                assert(arr@.update(j as int, arr@[j as int - 1]) =~= s0.subrange(0, j as int)
                    + s0.subrange(j as int - 1, i as int) + s0.subrange(i as int + 1, n as int));
            }
            let shifted = arr[j - 1];
            arr[j] = shifted;
            j -= 1;
        }
        arr[j] = key;
        proof {
            assert(arr@ =~= s0.subrange(0, j as int) + seq![s0[i as int]] + s0.subrange(
                j as int,
                i as int,
            ) + s0.subrange(i as int + 1, n as int));
            assert(s0 =~= s0.subrange(0, j as int) + s0.subrange(j as int, i as int)
                + seq![s0[i as int]] + s0.subrange(i as int + 1, n as int)) by {
                assert(s0.subrange(j as int, i as int + 1) =~= s0.subrange(j as int, i as int)
                    + seq![s0[i as int]]);
                assert(s0 =~= s0.subrange(0, j as int) + s0.subrange(j as int, i as int + 1)
                    + s0.subrange(i as int + 1, n as int));
            }
            assert forall|k: i64| #[trigger] with_key(arr@, k) == with_key(s0, k) by {
                let pred = |q: Entry| q.key == k;
                let pa = s0.subrange(0, j as int);
                let pb = s0.subrange(j as int, i as int);
                let pc = s0.subrange(i as int + 1, n as int);
                let px = seq![s0[i as int]];
                Seq::filter_distributes_over_add(pa, px, pred);
                Seq::filter_distributes_over_add(pa + px, pb, pred);
                Seq::filter_distributes_over_add(pa + px + pb, pc, pred);
                Seq::filter_distributes_over_add(pa, pb, pred);
                Seq::filter_distributes_over_add(pa + pb, px, pred);
                Seq::filter_distributes_over_add(pa + pb + px, pc, pred);
                lemma_filter_singleton(pred, s0[i as int]);
                if k == s0[i as int].key {
                    assert(pb.filter(pred) =~= Seq::<Entry>::empty()) by {
                        if pb.filter(pred).len() > 0 {
                            pb.lemma_filter_pred(pred, 0);
                            lemma_filter_member(pb, pred, 0);
                            let w = choose|w: int| 0 <= w < pb.len() && pb[w] == pb.filter(pred)[0];
                            assert(s0[j + w].key > k);
                            assert(false);
                        }
                    }
                    assert(px.filter(pred) + pb.filter(pred) =~= pb.filter(pred) + px.filter(
                        pred,
                    ));
                } else {
                    assert(px.filter(pred) =~= Seq::<Entry>::empty());
                    assert(px.filter(pred) + pb.filter(pred) =~= pb.filter(pred) + px.filter(
                        pred,
                    ));
                }
                assert(with_key(arr@, k) =~= with_key(s0, k));
            }
            assert forall|a: int, b: int|
                #![trigger arr@[a], arr@[b]]
                0 <= a <= b <= i implies arr@[a].key <= arr@[b].key by {
                if b == j && a < j {
                    assert(arr@[a] == s0[a]);
                }
                if a == j && b > j {
                    assert(arr@[b].key > key.key);
                }
            }
        }
        i += 1;
    }
}

/// How pushing one entry extends a key class.
pub proof fn lemma_with_key_push(s: Seq<Entry>, x: Entry, k: i64)
    ensures
        with_key(s.push(x), k) == if x.key == k {
            with_key(s, k).push(x)
        } else {
            with_key(s, k)
        },
{
    lemma_filter_push(s, |q: Entry| q.key == k, x);
}

/// A sequence of entries that all carry other keys contributes nothing to
/// the class of `k`.
pub proof fn lemma_with_key_none(s: Seq<Entry>, k: i64)
    requires
        forall|c: int| 0 <= c < s.len() ==> (#[trigger] s[c]).key != k,
    ensures
        with_key(s, k) == Seq::<Entry>::empty(),
{
    let pred = |q: Entry| q.key == k;
    assert(s.all(|q: Entry| !pred(q))) by {
        assert forall|c: int| 0 <= c < s.len() implies !pred(s[c]) by {}
    }
    s.lemma_all_neg_filter_empty(pred);
    assert(with_key(s, k) =~= Seq::<Entry>::empty());
}

/// Key classes distribute over concatenation.
pub proof fn lemma_with_key_concat(a: Seq<Entry>, b: Seq<Entry>, k: i64)
    ensures
        with_key(a + b, k) == with_key(a, k) + with_key(b, k),
{
    Seq::filter_distributes_over_add(a, b, |q: Entry| q.key == k);
}

/// Swapping two adjacent entries with distinct keys reorders no key class:
/// every `with_key` subsequence is untouched.
pub proof fn lemma_with_key_swap_adjacent(s: Seq<Entry>, i: int)
    requires
        0 <= i,
        i + 1 < s.len(),
        s[i].key != s[i + 1].key,
    ensures
        forall|k: i64|
            #[trigger] with_key(s.update(i, s[i + 1]).update(i + 1, s[i]), k) == with_key(s, k),
{
    let x = s[i];
    let y = s[i + 1];
    let t = s.update(i, y).update(i + 1, x);
    let head = s.subrange(0, i);
    let tail = s.subrange(i + 2, s.len() as int);
    assert(s =~= head + seq![x] + seq![y] + tail);
    assert(t =~= head + seq![y] + seq![x] + tail);
    assert forall|k: i64| #[trigger] with_key(t, k) == with_key(s, k) by {
        let pred = |q: Entry| q.key == k;
        Seq::filter_distributes_over_add(head, seq![x], pred);
        Seq::filter_distributes_over_add(head + seq![x], seq![y], pred);
        Seq::filter_distributes_over_add(head + seq![x] + seq![y], tail, pred);
        Seq::filter_distributes_over_add(head, seq![y], pred);
        Seq::filter_distributes_over_add(head + seq![y], seq![x], pred);
        Seq::filter_distributes_over_add(head + seq![y] + seq![x], tail, pred);
        lemma_filter_singleton(pred, x);
        lemma_filter_singleton(pred, y);
        assert(seq![x].filter(pred) + seq![y].filter(pred) =~= seq![y].filter(pred)
            + seq![x].filter(pred));
        assert(with_key(t, k) =~= with_key(s, k));
    }
}

/// An element of a filtered sequence occurs in the sequence it came from.
proof fn lemma_filter_member(s: Seq<Entry>, pred: spec_fn(Entry) -> bool, i: int)
    requires
        0 <= i < s.filter(pred).len(),
    ensures
        exists|w: int| 0 <= w < s.len() && s[w] == s.filter(pred)[i],
    decreases s.len(),
{
    reveal(Seq::filter);
    if s.len() > 0 {
        let dl = s.drop_last();
        let out = s.filter(pred);
        if pred(s.last()) && i == out.len() - 1 {
            assert(s[s.len() - 1] == out[i]);
        } else {
            assert(out[i] == dl.filter(pred)[i]);
            lemma_filter_member(dl, pred, i);
            let w = choose|w: int| 0 <= w < dl.len() && dl[w] == out[i];
            assert(s[w] == out[i]);
        }
    }
}

} // verus!
