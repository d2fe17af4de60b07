//! Shared vocabulary of the crate: what it means for a sequence to be
//! sorted, and the multiset reasoning that every algorithm uses to show its
//! output is a permutation of its input.

use vstd::prelude::*;

verus! {

/// The slice of `s` from `lo` (inclusive) to `hi` (exclusive) is in
/// non-decreasing order.
pub open spec fn sorted_range(s: Seq<i64>, lo: int, hi: int) -> bool {
    forall|a: int, b: int| #![trigger s[a], s[b]] lo <= a <= b < hi ==> s[a] <= s[b]
}

/// The whole sequence is in non-decreasing order.
pub open spec fn sorted(s: Seq<i64>) -> bool {
    sorted_range(s, 0, s.len() as int)
}

/// Non-decreasing order for `i32` sequences.
pub open spec fn sorted_i32(s: Seq<i32>) -> bool {
    forall|a: int, b: int| #![trigger s[a], s[b]] 0 <= a <= b < s.len() ==> s[a] <= s[b]
}

/// Non-decreasing order for `u32` sequences.
pub open spec fn sorted_u32(s: Seq<u32>) -> bool {
    forall|a: int, b: int| #![trigger s[a], s[b]] 0 <= a <= b < s.len() ==> s[a] <= s[b]
}

/// Non-decreasing order for `usize` sequences.
pub open spec fn sorted_usize(s: Seq<usize>) -> bool {
    forall|a: int, b: int| #![trigger s[a], s[b]] 0 <= a <= b < s.len() ==> s[a] <= s[b]
}

/// Swapping two positions of a sequence leaves its multiset of elements
/// unchanged.
pub proof fn lemma_swap_multiset<T>(s: Seq<T>, i: int, j: int)
    requires
        0 <= i < s.len(),
        0 <= j < s.len(),
    ensures
        s.update(i, s[j]).update(j, s[i]).to_multiset() == s.to_multiset(),
{
    broadcast use vstd::seq_lib::group_to_multiset_ensures;
    broadcast use vstd::multiset::group_multiset_axioms;

    let s1 = s.update(i, s[j]);
    let s2 = s1.update(j, s[i]);
    assert(s1.to_multiset() == s.to_multiset().insert(s[j]).remove(s[i]));
    assert(s2.to_multiset() == s1.to_multiset().insert(s[i]).remove(s1[j]));
    assert(s1[j] == s[j]);
    assert(s2.to_multiset() =~= s.to_multiset());
}

/// Swapping two positions inside `[lo, hi)` leaves the multiset of that
/// slice unchanged.
pub proof fn lemma_swap_range_multiset<T>(s: Seq<T>, lo: int, hi: int, i: int, j: int)
    requires
        0 <= lo <= i < hi <= s.len(),
        lo <= j < hi,
    ensures
        s.update(i, s[j]).update(j, s[i]).subrange(lo, hi).to_multiset() == s.subrange(
            lo,
            hi,
        ).to_multiset(),
{
    let t = s.update(i, s[j]).update(j, s[i]);
    let sub = s.subrange(lo, hi);
    assert(t.subrange(lo, hi) =~= sub.update(i - lo, sub[j - lo]).update(j - lo, sub[i - lo]));
    lemma_swap_multiset(sub, i - lo, j - lo);
}

/// Two equal-length sequences that agree outside `[lo, hi)` and whose slices
/// over `[lo, hi)` hold the same multiset hold the same multiset overall.
pub proof fn lemma_patch_multiset<T>(s: Seq<T>, t: Seq<T>, lo: int, hi: int)
    requires
        s.len() == t.len(),
        0 <= lo <= hi <= s.len(),
        s.subrange(lo, hi).to_multiset() == t.subrange(lo, hi).to_multiset(),
        forall|k: int| 0 <= k < s.len() && !(lo <= k < hi) ==> s[k] == t[k],
    ensures
        s.to_multiset() == t.to_multiset(),
{
    let n = s.len() as int;
    assert(s =~= s.subrange(0, lo) + s.subrange(lo, hi) + s.subrange(hi, n));
    assert(t =~= t.subrange(0, lo) + t.subrange(lo, hi) + t.subrange(hi, n));
    assert(s.subrange(0, lo) =~= t.subrange(0, lo));
    assert(s.subrange(hi, n) =~= t.subrange(hi, n));
    vstd::seq_lib::lemma_multiset_commutative(
        s.subrange(0, lo) + s.subrange(lo, hi),
        s.subrange(hi, n),
    );
    vstd::seq_lib::lemma_multiset_commutative(s.subrange(0, lo), s.subrange(lo, hi));
    vstd::seq_lib::lemma_multiset_commutative(
        t.subrange(0, lo) + t.subrange(lo, hi),
        t.subrange(hi, n),
    );
    vstd::seq_lib::lemma_multiset_commutative(t.subrange(0, lo), t.subrange(lo, hi));
    assert(s.to_multiset() =~= t.to_multiset());
}

/// A multiset-preserving rewrite of the inner window `[a, b)` preserves the
/// multiset of any enclosing window `[lo, hi)`.
pub proof fn lemma_inner_patch_multiset<T>(s: Seq<T>, t: Seq<T>, lo: int, hi: int, a: int, b: int)
    requires
        s.len() == t.len(),
        0 <= lo <= a <= b <= hi <= s.len(),
        s.subrange(a, b).to_multiset() == t.subrange(a, b).to_multiset(),
        forall|k: int| 0 <= k < s.len() && !(a <= k < b) ==> s[k] == t[k],
    ensures
        s.subrange(lo, hi).to_multiset() == t.subrange(lo, hi).to_multiset(),
{
    let ss = s.subrange(lo, hi);
    let tt = t.subrange(lo, hi);
    assert(ss.subrange(a - lo, b - lo) =~= s.subrange(a, b));
    assert(tt.subrange(a - lo, b - lo) =~= t.subrange(a, b));
    lemma_patch_multiset(ss, tt, a - lo, b - lo);
}

/// A property that holds of every element of `s` holds of every element of
/// any rearrangement `t` of the same multiset.
pub proof fn lemma_multiset_transfer<T>(s: Seq<T>, t: Seq<T>, p: spec_fn(T) -> bool)
    requires
        s.to_multiset() == t.to_multiset(),
        forall|k: int| 0 <= k < s.len() ==> #[trigger] p(s[k]),
    ensures
        forall|k: int| 0 <= k < t.len() ==> #[trigger] p(t[k]),
{
    broadcast use vstd::seq_lib::group_to_multiset_ensures;

    assert forall|k: int| 0 <= k < t.len() implies #[trigger] p(t[k]) by {
        assert(t.contains(t[k]));
        assert(t.to_multiset().count(t[k]) > 0);
        assert(s.to_multiset().count(t[k]) > 0);
        assert(s.contains(t[k]));
        let m = choose|m: int| 0 <= m < s.len() && s[m] == t[k];
        assert(p(s[m]));
    }
}

/// The range form of `lemma_multiset_transfer`: a property of every element
/// of `s`'s slice `[lo, hi)` carries over to `t`'s slice when the two slices
/// hold the same multiset.
pub proof fn lemma_multiset_range_transfer<T>(
    s: Seq<T>,
    t: Seq<T>,
    lo: int,
    hi: int,
    p: spec_fn(T) -> bool,
)
    requires
        s.len() == t.len(),
        0 <= lo <= hi <= s.len(),
        s.subrange(lo, hi).to_multiset() == t.subrange(lo, hi).to_multiset(),
        forall|k: int| lo <= k < hi ==> #[trigger] p(s[k]),
    ensures
        forall|k: int| lo <= k < hi ==> #[trigger] p(t[k]),
{
    let a = s.subrange(lo, hi);
    let b = t.subrange(lo, hi);
    assert forall|k: int| 0 <= k < a.len() implies #[trigger] p(a[k]) by {
        assert(a[k] == s[lo + k]);
    }
    lemma_multiset_transfer(a, b, p);
    assert forall|k: int| lo <= k < hi implies #[trigger] p(t[k]) by {
        assert(t[k] == b[k - lo]);
        assert(p(b[k - lo]));
    }
}

/// A slice whose adjacent pairs are ordered is sorted: the order is carried
/// along the chain of neighbours.
pub proof fn lemma_adjacent_sorted(s: Seq<i64>, lo: int, hi: int)
    requires
        0 <= lo,
        hi <= s.len(),
        forall|k: int| lo <= k < hi - 1 ==> #[trigger] s[k] <= s[k + 1],
    ensures
        sorted_range(s, lo, hi),
    decreases hi - lo,
{
    if lo < hi - 1 {
        lemma_adjacent_sorted(s, lo + 1, hi);
        assert forall|a: int, b: int| #![trigger s[a], s[b]] lo <= a <= b < hi implies s[a]
            <= s[b] by {
            if a == lo && b > lo {
                assert(s[lo] <= s[lo + 1]);
                assert(s[lo + 1] <= s[b]);
            }
        }
    }
}

/// A positive multiple of `g` is at least `g`.
pub proof fn lemma_multiple_ge(d: int, g: int)
    requires
        g >= 1,
        d > 0,
        d % g == 0,
    ensures
        d >= g,
{
    vstd::arithmetic::div_mod::lemma_fundamental_div_mod(d, g);
    let q = d / g;
    assert(d == g * q + d % g);
    if q <= 0 {
        assert(g * q <= 0) by (nonlinear_arith)
            requires
                g >= 1,
                q <= 0,
        ;
    }
    assert(g * q >= g) by (nonlinear_arith)
        requires
            g >= 1,
            q >= 1,
    ;
}

/// The difference of two multiples of `m` is a multiple of `m`.
pub proof fn lemma_mod_diff_zero(x: int, y: int, m: int)
    requires
        m >= 1,
        x % m == 0,
        y % m == 0,
    ensures
        (x - y) % m == 0,
{
    vstd::arithmetic::div_mod::lemma_fundamental_div_mod(x, m);
    vstd::arithmetic::div_mod::lemma_fundamental_div_mod(y, m);
    let qx = x / m;
    let qy = y / m;
    assert(x - y == m * (qx - qy)) by (nonlinear_arith)
        requires
            x == m * qx,
            y == m * qy,
    ;
    vstd::arithmetic::div_mod::lemma_mod_multiples_vanish(qx - qy, 0, m);
    vstd::arithmetic::div_mod::lemma_small_mod(0, m as nat);
}


/// `lemma_sort_boundary`, for the sorts over `i32` keys.
pub proof fn lemma_sort_boundary_i32(input: Seq<i32>, output: Seq<i32>)
    requires
        sorted_i32(output),
        output.to_multiset() == input.to_multiset(),
    ensures
        input.len() == 0 ==> output == input,
        input.len() == 1 ==> output == input,
        (forall|k: int| 0 <= k < input.len() ==> #[trigger] input[k] == input[0]) ==> output
            == input,
{
    if input.len() == 0 || input.len() == 1 || (forall|k: int|
        0 <= k < input.len() ==> #[trigger] input[k] == input[0]) {
        assert(sorted_i32(input));
        lemma_sorted_arrangement_unique_i32(output, input);
    }
}

/// `lemma_sort_boundary`, for the sorts over `u32` keys.
pub proof fn lemma_sort_boundary_u32(input: Seq<u32>, output: Seq<u32>)
    requires
        sorted_u32(output),
        output.to_multiset() == input.to_multiset(),
    ensures
        input.len() == 0 ==> output == input,
        input.len() == 1 ==> output == input,
        (forall|k: int| 0 <= k < input.len() ==> #[trigger] input[k] == input[0]) ==> output
            == input,
{
    if input.len() == 0 || input.len() == 1 || (forall|k: int|
        0 <= k < input.len() ==> #[trigger] input[k] == input[0]) {
        assert(sorted_u32(input));
        lemma_sorted_arrangement_unique_u32(output, input);
    }
}

/// `lemma_sort_boundary`, for the sorts over `usize` keys.
pub proof fn lemma_sort_boundary_usize(input: Seq<usize>, output: Seq<usize>)
    requires
        sorted_usize(output),
        output.to_multiset() == input.to_multiset(),
    ensures
        input.len() == 0 ==> output == input,
        input.len() == 1 ==> output == input,
        (forall|k: int| 0 <= k < input.len() ==> #[trigger] input[k] == input[0]) ==> output
            == input,
{
    if input.len() == 0 || input.len() == 1 || (forall|k: int|
        0 <= k < input.len() ==> #[trigger] input[k] == input[0]) {
        assert(sorted_usize(input));
        lemma_sorted_arrangement_unique_usize(output, input);
    }
}

/// Pushing an element extends a filtered sequence exactly when the element
/// passes the predicate.
pub proof fn lemma_filter_push<T>(s: Seq<T>, pred: spec_fn(T) -> bool, x: T)
    ensures
        s.push(x).filter(pred) == if pred(x) {
            s.filter(pred).push(x)
        } else {
            s.filter(pred)
        },
{
    reveal(Seq::filter);
    assert(s.push(x).drop_last() =~= s);
    assert(s.push(x).last() == x);
}

/// A one-element sequence filters to itself or to nothing.
pub proof fn lemma_filter_singleton<T>(pred: spec_fn(T) -> bool, x: T)
    ensures
        seq![x].filter(pred) == if pred(x) {
            seq![x]
        } else {
            Seq::<T>::empty()
        },
{
    reveal(Seq::filter);
    assert(seq![x].drop_last() =~= Seq::<T>::empty());
    assert(seq![x].last() == x);
    assert(Seq::<T>::empty().filter(pred) =~= Seq::<T>::empty());
    if pred(x) {
        assert(Seq::<T>::empty().filter(pred).push(x) =~= seq![x]);
    }
}

/// A multiset of integers has exactly one non-decreasing arrangement.
pub proof fn lemma_sorted_arrangement_unique(a: Seq<i64>, b: Seq<i64>)
    requires
        sorted(a),
        sorted(b),
        a.to_multiset() == b.to_multiset(),
    ensures
        a == b,
{
    let leq = |x: i64, y: i64| x <= y;
    assert(vstd::relations::total_ordering(leq));
    assert(vstd::relations::sorted_by(a, leq));
    assert(vstd::relations::sorted_by(b, leq));
    vstd::seq_lib::lemma_sorted_unique(a, b, leq);
    assert(a =~= b);
}


/// A multiset of `i32` keys has exactly one non-decreasing arrangement.
pub proof fn lemma_sorted_arrangement_unique_i32(a: Seq<i32>, b: Seq<i32>)
    requires
        sorted_i32(a),
        sorted_i32(b),
        a.to_multiset() == b.to_multiset(),
    ensures
        a == b,
{
    let leq = |x: i32, y: i32| x <= y;
    assert(vstd::relations::total_ordering(leq));
    vstd::seq_lib::lemma_sorted_unique(a, b, leq);
    assert(a =~= b);
}

/// A multiset of `u32` keys has exactly one non-decreasing arrangement.
pub proof fn lemma_sorted_arrangement_unique_u32(a: Seq<u32>, b: Seq<u32>)
    requires
        sorted_u32(a),
        sorted_u32(b),
        a.to_multiset() == b.to_multiset(),
    ensures
        a == b,
{
    let leq = |x: u32, y: u32| x <= y;
    assert(vstd::relations::total_ordering(leq));
    vstd::seq_lib::lemma_sorted_unique(a, b, leq);
    assert(a =~= b);
}

/// A multiset of `usize` keys has exactly one non-decreasing arrangement.
pub proof fn lemma_sorted_arrangement_unique_usize(a: Seq<usize>, b: Seq<usize>)
    requires
        sorted_usize(a),
        sorted_usize(b),
        a.to_multiset() == b.to_multiset(),
    ensures
        a == b,
{
    let leq = |x: usize, y: usize| x <= y;
    assert(vstd::relations::total_ordering(leq));
    vstd::seq_lib::lemma_sorted_unique(a, b, leq);
    assert(a =~= b);
}

/// Sorting is idempotent.  `first` is the output of a sort run on `input`,
/// `second` the output of a sort run on `first`: the second run returns its
/// input unchanged, and when `input` was already sorted so does the first.
pub proof fn lemma_sort_idempotent(input: Seq<i64>, first: Seq<i64>, second: Seq<i64>)
    requires
        sorted(first),
        first.to_multiset() == input.to_multiset(),
        sorted(second),
        second.to_multiset() == first.to_multiset(),
    ensures
        second == first,
        sorted(input) ==> first == input,
{
    lemma_sorted_arrangement_unique(second, first);
    if sorted(input) {
        lemma_sorted_arrangement_unique(first, input);
    }
}


/// `lemma_sort_idempotent`, for the sorts over `i32` keys.
pub proof fn lemma_sort_idempotent_i32(input: Seq<i32>, first: Seq<i32>, second: Seq<i32>)
    requires
        sorted_i32(first),
        first.to_multiset() == input.to_multiset(),
        sorted_i32(second),
        second.to_multiset() == first.to_multiset(),
    ensures
        second == first,
        sorted_i32(input) ==> first == input,
{
    lemma_sorted_arrangement_unique_i32(second, first);
    if sorted_i32(input) {
        lemma_sorted_arrangement_unique_i32(first, input);
    }
}

/// `lemma_sort_idempotent`, for the sorts over `u32` keys.
pub proof fn lemma_sort_idempotent_u32(input: Seq<u32>, first: Seq<u32>, second: Seq<u32>)
    requires
        sorted_u32(first),
        first.to_multiset() == input.to_multiset(),
        sorted_u32(second),
        second.to_multiset() == first.to_multiset(),
    ensures
        second == first,
        sorted_u32(input) ==> first == input,
{
    lemma_sorted_arrangement_unique_u32(second, first);
    if sorted_u32(input) {
        lemma_sorted_arrangement_unique_u32(first, input);
    }
}

/// `lemma_sort_idempotent`, for the sorts over `usize` keys.
pub proof fn lemma_sort_idempotent_usize(input: Seq<usize>, first: Seq<usize>, second: Seq<usize>)
    requires
        sorted_usize(first),
        first.to_multiset() == input.to_multiset(),
        sorted_usize(second),
        second.to_multiset() == first.to_multiset(),
    ensures
        second == first,
        sorted_usize(input) ==> first == input,
{
    lemma_sorted_arrangement_unique_usize(second, first);
    if sorted_usize(input) {
        lemma_sorted_arrangement_unique_usize(first, input);
    }
}

/// Boundary behaviour shared by every sort contract: an empty input stays
/// empty, a single element stays put, and an all-equal input is returned
/// unchanged.
pub proof fn lemma_sort_boundary(input: Seq<i64>, output: Seq<i64>)
    requires
        sorted(output),
        output.to_multiset() == input.to_multiset(),
    ensures
        input.len() == 0 ==> output == input,
        input.len() == 1 ==> output == input,
        (forall|k: int| 0 <= k < input.len() ==> #[trigger] input[k] == input[0]) ==> output == input,
{
    if input.len() == 0 || input.len() == 1 || (forall|k: int|
        0 <= k < input.len() ==> #[trigger] input[k] == input[0]) {
        assert(sorted(input));
        lemma_sorted_arrangement_unique(output, input);
    }
}

/// Exchange the elements at positions `i` and `j`.
pub fn swap_at<T: Copy>(v: &mut Vec<T>, i: usize, j: usize)
    requires
        i < old(v).len(),
        j < old(v).len(),
    ensures
        final(v)@ == old(v)@.update(i as int, old(v)@[j as int]).update(
            j as int,
            old(v)@[i as int],
        ),
        final(v)@.to_multiset() == old(v)@.to_multiset(),
        final(v)@.len() == old(v)@.len(),
        final(v)@[i as int] == old(v)@[j as int],
        final(v)@[j as int] == old(v)@[i as int],
        forall|k: int| 0 <= k < old(v)@.len() && k != i && k != j ==> final(v)@[k] == old(v)@[k],
{
    proof {
        lemma_swap_multiset(v@, i as int, j as int);
    }
    let a: T = v[i];
    let b: T = v[j];
    v[i] = b;
    v[j] = a;
}

/// Exchange the elements at positions `a` and `b`, both inside the window
/// `[lo, hi)`, keeping track that the window's multiset does not change.
pub fn swap_in_range<T: Copy>(v: &mut Vec<T>, lo: usize, hi: usize, a: usize, b: usize)
    requires
        lo <= a < hi,
        lo <= b < hi,
        hi <= old(v).len(),
    ensures
        final(v)@.len() == old(v)@.len(),
        final(v)@[a as int] == old(v)@[b as int],
        final(v)@[b as int] == old(v)@[a as int],
        forall|k: int| 0 <= k < old(v)@.len() && k != a && k != b ==> final(v)@[k] == old(v)@[k],
        final(v)@.subrange(lo as int, hi as int).to_multiset() == old(v)@.subrange(
            lo as int,
            hi as int,
        ).to_multiset(),
{
    proof {
        lemma_swap_range_multiset(v@, lo as int, hi as int, a as int, b as int);
    }
    swap_at(v, a, b);
}

/// Copy of the slice `[lo, hi)` of `v` as a fresh vector.
pub fn copy_range<T: Copy>(v: &Vec<T>, lo: usize, hi: usize) -> (r: Vec<T>)
    requires
        lo <= hi,
        hi <= v.len(),
    ensures
        r@ == v@.subrange(lo as int, hi as int),
{
    let mut r: Vec<T> = Vec::new();
    let mut k: usize = lo;
    while k < hi
        invariant
            lo <= k <= hi,
            hi <= v.len(),
            r@ == v@.subrange(lo as int, k as int),
        decreases hi - k,
    {
        r.push(v[k]);
        k += 1;
        proof {
            assert(r@ =~= v@.subrange(lo as int, k as int));
        }
    }
    r
}

} // verus!
