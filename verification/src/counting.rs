//! Counting sort: an unsigned variant that rebuilds values from a tally
//! table, and a stable signed variant that places each element through a
//! prefix-sum position table, walking the input backwards.

use vstd::prelude::*;
use crate::perm::{sorted_i32, sorted_usize};
use vstd::multiset::Multiset;

verus! {

/// Sum of the first `k` entries of a tally table.
pub open spec fn prefix_sum(c: Seq<usize>, k: int) -> int
    decreases k,
{
    if k <= 0 {
        0
    } else {
        prefix_sum(c, k - 1) + c[k - 1]
    }
}

/// Prefix sums of a tally table grow with the prefix.
pub proof fn lemma_prefix_sum_mono(c: Seq<usize>, a: int, b: int)
    requires
        0 <= a <= b,
    ensures
        prefix_sum(c, a) <= prefix_sum(c, b),
    decreases b,
{
    if a < b {
        lemma_prefix_sum_mono(c, a, b - 1);
    }
}

/// How one bumped tally entry moves a prefix sum.
pub proof fn lemma_prefix_sum_update(c: Seq<usize>, d: int, v: usize, k: int)
    requires
        0 <= d < c.len(),
        k <= c.len(),
    ensures
        prefix_sum(c.update(d, v), k) == prefix_sum(c, k) + if d < k {
            v - c[d]
        } else {
            0
        },
    decreases k,
{
    if k > 0 {
        lemma_prefix_sum_update(c, d, v, k - 1);
    }
}

/// A single tally entry never exceeds the table's total.
pub proof fn lemma_entry_le_sum(c: Seq<usize>, d: int)
    requires
        0 <= d < c.len(),
    ensures
        c[d] <= prefix_sum(c, c.len() as int),
{
    lemma_prefix_sum_mono(c, 0, d);
    lemma_prefix_sum_mono(c, d + 1, c.len() as int);
}

/// Counting sort for unsigned keys: tallies how often each value occurs,
/// then rewrites the sequence in ascending value order.  Rebuilds bare
/// values, so it carries no payload and makes no stability promise.
pub fn counting_sort(arr: &mut Vec<usize>)
    requires
        old(arr)@.len() >= 2 ==> forall|k: int|
            0 <= k < old(arr)@.len() ==> old(arr)@[k] < usize::MAX,
    ensures
        sorted_usize(final(arr)@),
        final(arr)@.to_multiset() == old(arr)@.to_multiset(),
        final(arr)@.len() == old(arr)@.len(),
{
    broadcast use vstd::seq_lib::group_to_multiset_ensures;
    broadcast use vstd::multiset::group_multiset_axioms;
    broadcast use vstd::multiset::group_multiset_properties;

    let n = arr.len();
    if n <= 1 {
        return ;
    }
    let ghost input = arr@;
    let mut max_val: usize = arr[0];
    let mut t: usize = 1;
    while t < n
        invariant
            n == arr.len(),
            arr@ == input,
            1 <= t <= n,
            exists|k: int| 0 <= k < t && arr@[k] == max_val,
            forall|k: int| 0 <= k < t ==> arr@[k] <= max_val,
        decreases n - t,
    {
        if arr[t] > max_val {
            max_val = arr[t];
        }
        t += 1;
    }
    let mut count: Vec<usize> = Vec::new();
    let mut d: usize = 0;
    while d < max_val + 1
        invariant
            count@.len() == d,
            d <= max_val + 1,
            max_val < usize::MAX,
            forall|e: int| 0 <= e < d ==> count@[e] == 0,
        decreases max_val + 1 - d,
    {
        count.push(0);
        d += 1;
    }
    proof {
        assert forall|k: int| 0 <= k <= count@.len() implies prefix_sum(count@, k) == 0 by {
            lemma_prefix_sum_zero(count@, k);
        }
        assert(input.subrange(0, 0) =~= Seq::<usize>::empty());
    }
    let mut t: usize = 0;
    while t < n
        invariant
            n == arr.len(),
            arr@ == input,
            t <= n,
            count@.len() == max_val + 1,
            forall|k: int| 0 <= k < n ==> input[k] <= max_val,
            forall|v: usize|
                v <= max_val ==> count@[v as int] == input.subrange(
                    0,
                    t as int,
                ).to_multiset().count(v),
            prefix_sum(count@, count@.len() as int) == t,
        decreases n - t,
    {
        let x = arr[t];
        let cur = count[x];
        proof {
            lemma_entry_le_sum(count@, x as int);
            lemma_prefix_sum_update(count@, x as int, (cur + 1) as usize, count@.len() as int);
        }
        count[x] = cur + 1;
        t += 1;
        proof {
            let prev = input.subrange(0, t as int - 1);
            let curs = input.subrange(0, t as int);
            assert(curs =~= prev.push(x));
            vstd::seq_lib::to_multiset_build(prev, x);
            assert forall|v: usize| v <= max_val implies count@[v as int] == curs.to_multiset().count(
                v,
            ) by {
                if v == x {
                    assert(prev.to_multiset().insert(x).count(x) == prev.to_multiset().count(x)
                        + 1);
                } else {
                    assert(prev.to_multiset().insert(x).count(v) == prev.to_multiset().count(v));
                }
            }
        }
    }
    proof {
        assert(input.subrange(0, n as int) =~= input);
    }
    let ghost c0 = count@;
    let klen = count.len();
    let mut idx: usize = 0;
    let mut val: usize = 0;
    proof {
        assert(arr@.subrange(0, 0) =~= Seq::<usize>::empty());
    }
    while val < klen
        invariant
            n == arr.len(),
            count@ == c0,
            c0.len() == klen == max_val + 1,
            val <= klen,
            idx == prefix_sum(c0, val as int),
            idx <= n,
            prefix_sum(c0, klen as int) == n,
            forall|v: usize| v <= max_val ==> c0[v as int] == input.to_multiset().count(v),
            forall|k: int| 0 <= k < n ==> input[k] <= max_val,
            forall|k: int| 0 <= k < idx ==> #[trigger] arr@[k] < val,
            forall|a: int, b: int|
                #![trigger arr@[a], arr@[b]]
                0 <= a <= b < idx ==> arr@[a] <= arr@[b],
            forall|v: usize|
                #![trigger arr@.subrange(0, idx as int).to_multiset().count(v)]
                arr@.subrange(0, idx as int).to_multiset().count(v) == if v < val {
                    c0[v as int] as int
                } else {
                    0int
                },
        decreases klen - val,
    {
        let cnt = count[val];
        let mut w: usize = 0;
        proof {
            lemma_prefix_sum_mono(c0, val as int + 1, klen as int);
        }
        while w < cnt
            invariant
                n == arr.len(),
                count@ == c0,
                c0.len() == klen == max_val + 1,
                val < klen,
                cnt == c0[val as int],
                w <= cnt,
                idx == prefix_sum(c0, val as int) + w,
                prefix_sum(c0, val as int + 1) <= prefix_sum(c0, klen as int) == n,
                forall|k: int| 0 <= k < idx ==> #[trigger] arr@[k] <= val,
                forall|a: int, b: int|
                    #![trigger arr@[a], arr@[b]]
                    0 <= a <= b < idx ==> arr@[a] <= arr@[b],
                forall|v: usize|
                    #![trigger arr@.subrange(0, idx as int).to_multiset().count(v)]
                    arr@.subrange(0, idx as int).to_multiset().count(v) == if v < val {
                        c0[v as int] as int
                    } else if v == val {
                        w as int
                    } else {
                        0int
                    },
            decreases cnt - w,
        {
            let ghost pre = arr@;
            arr[idx] = val;
            idx += 1;
            w += 1;
            proof {
                let prev = pre.subrange(0, idx as int - 1);
                let curs = arr@.subrange(0, idx as int);
                assert(curs =~= prev.push(val));
                vstd::seq_lib::to_multiset_build(prev, val);
                assert forall|v: usize| true implies curs.to_multiset().count(v) == (if v < val {
                    c0[v as int] as int
                } else if v == val {
                    w as int
                } else {
                    0int
                }) by {
                    if v == val {
                        assert(prev.to_multiset().insert(val).count(val) == prev.to_multiset().count(
                            val,
                        ) + 1);
                    } else {
                        assert(prev.to_multiset().insert(val).count(v) == prev.to_multiset().count(
                            v,
                        ));
                    }
                }
            }
        }
        val += 1;
        proof {
            assert forall|k: int| 0 <= k < idx implies #[trigger] arr@[k] < val by {}
        }
    }
    proof {
        assert(idx == n);
        assert(arr@.subrange(0, n as int) =~= arr@);
        assert forall|v: usize| true implies arr@.to_multiset().count(v) == input.to_multiset().count(
            v,
        ) by {
            if v <= max_val {
            } else {
                if input.to_multiset().count(v) > 0 {
                    assert(input.contains(v));
                    let k = choose|k: int| 0 <= k < input.len() && input[k] == v;
                    assert(false);
                }
            }
        }
        assert(arr@.to_multiset() =~= input.to_multiset());
    }
}

/// An all-zero tally table sums to zero.
pub proof fn lemma_prefix_sum_zero(c: Seq<usize>, k: int)
    requires
        k <= c.len(),
        forall|e: int| 0 <= e < c.len() ==> c[e] == 0,
    ensures
        prefix_sum(c, k) == 0,
    decreases k,
{
    if k > 0 {
        lemma_prefix_sum_zero(c, k - 1);
    }
}

/// The sequence of all keyed values in ascending key order: for each key
/// offset `e` below `g`, the value `minv + e` repeated `c[e]` times.
spec fn runs(minv: int, c: Seq<usize>, g: int) -> Seq<i32>
    decreases g,
{
    if g <= 0 {
        Seq::empty()
    } else {
        runs(minv, c, g - 1) + Seq::new(c[g - 1] as nat, |q: int| (minv + g - 1) as i32)
    }
}

/// `runs` has one slot per tallied occurrence.
proof fn lemma_runs_len(minv: int, c: Seq<usize>, g: int)
    requires
        g >= 0,
    ensures
        runs(minv, c, g).len() == prefix_sum(c, g),
    decreases g,
{
    if g > 0 {
        lemma_runs_len(minv, c, g - 1);
    }
}

/// Inside the region of key offset `d`, `runs` holds the value `minv + d`.
proof fn lemma_runs_index(minv: int, c: Seq<usize>, g: int, d: int, p: int)
    requires
        0 <= d < g,
        prefix_sum(c, d) <= p < prefix_sum(c, d + 1),
    ensures
        0 <= p < runs(minv, c, g).len(),
        runs(minv, c, g)[p] == (minv + d) as i32,
    decreases g,
{
    lemma_runs_len(minv, c, g);
    lemma_prefix_sum_mono(c, 0, d);
    lemma_prefix_sum_mono(c, d + 1, g);
    if d == g - 1 {
        lemma_runs_len(minv, c, g - 1);
    } else {
        lemma_runs_index(minv, c, g - 1, d, p);
        lemma_runs_len(minv, c, g - 1);
        lemma_prefix_sum_mono(c, d + 1, g - 1);
    }
}

/// How often a value occurs in a repeated-value sequence.
proof fn lemma_repeat_count(x: i32, m: nat, v: i32)
    ensures
        Seq::new(m, |q: int| x).to_multiset().count(v) == if v == x {
            m as int
        } else {
            0int
        },
    decreases m,
{
    broadcast use vstd::seq_lib::group_to_multiset_ensures;
    broadcast use vstd::multiset::group_multiset_axioms;
    broadcast use vstd::multiset::group_multiset_properties;

    if m == 0 {
        assert(Seq::new(0nat, |q: int| x) =~= Seq::<i32>::empty());
        assert(Seq::<i32>::empty().to_multiset() =~= Multiset::<i32>::empty());
    } else {
        lemma_repeat_count(x, (m - 1) as nat, v);
        assert(Seq::new(m, |q: int| x) =~= Seq::new((m - 1) as nat, |q: int| x).push(x));
        vstd::seq_lib::to_multiset_build(Seq::new((m - 1) as nat, |q: int| x), x);
    }
}

/// How often each value occurs in `runs`.
proof fn lemma_runs_count(minv: int, c: Seq<usize>, g: int, v: i32)
    requires
        g >= 0,
        i32::MIN <= minv,
        minv + g <= i32::MAX as int + 1,
    ensures
        runs(minv, c, g).to_multiset().count(v) == if minv <= v < minv + g {
            c[v - minv] as int
        } else {
            0int
        },
    decreases g,
{
    broadcast use vstd::multiset::group_multiset_axioms;
    broadcast use vstd::seq_lib::group_to_multiset_ensures;

    if g == 0 {
        assert(runs(minv, c, 0) =~= Seq::<i32>::empty());
        assert(Seq::<i32>::empty().to_multiset() =~= Multiset::<i32>::empty());
    } else {
        lemma_runs_count(minv, c, g - 1, v);
        lemma_repeat_count((minv + g - 1) as i32, c[g - 1] as nat, v);
        vstd::seq_lib::lemma_multiset_commutative(
            runs(minv, c, g - 1),
            Seq::new(c[g - 1] as nat, |q: int| (minv + g - 1) as i32),
        );
    }
}

/// Every position below the table's total falls in exactly one key region.
pub proof fn lemma_psum_region(c: Seq<usize>, p: int, g: int)
    requires
        0 <= g,
        0 <= p < prefix_sum(c, g),
    ensures
        exists|d: int|
            0 <= d < g && #[trigger] prefix_sum(c, d) <= p < prefix_sum(c, d + 1),
    decreases g,
{
    if p < prefix_sum(c, g - 1) {
        lemma_psum_region(c, p, g - 1);
        let d = choose|d: int|
            0 <= d < g - 1 && #[trigger] prefix_sum(c, d) <= p < prefix_sum(c, d + 1);
        assert(0 <= d < g && prefix_sum(c, d) <= p < prefix_sum(c, d + 1));
    } else {
        assert(prefix_sum(c, g - 1) <= p < prefix_sum(c, g));
    }
}

/// Dropping a prefix of a sequence cannot raise the count of any value.
pub proof fn lemma_suffix_count_le<T>(s: Seq<T>, t: int, v: T)
    requires
        0 <= t <= s.len(),
    ensures
        s.subrange(t, s.len() as int).to_multiset().count(v) <= s.to_multiset().count(v),
        s.to_multiset().count(v) == s.subrange(0, t).to_multiset().count(v) + s.subrange(
            t,
            s.len() as int,
        ).to_multiset().count(v),
{
    broadcast use vstd::multiset::group_multiset_axioms;

    assert(s =~= s.subrange(0, t) + s.subrange(t, s.len() as int));
    vstd::seq_lib::lemma_multiset_commutative(s.subrange(0, t), s.subrange(t, s.len() as int));
}

/// How often a value occurs in a one-element sequence.
pub proof fn lemma_singleton_count<T>(x: T, v: T)
    ensures
        seq![x].to_multiset().count(v) == if v == x {
            1int
        } else {
            0int
        },
{
    broadcast use vstd::multiset::group_multiset_axioms;
    broadcast use vstd::multiset::group_multiset_properties;
    broadcast use vstd::seq_lib::group_to_multiset_ensures;

    assert(seq![x] =~= Seq::<T>::empty().push(x));
    vstd::seq_lib::to_multiset_build(Seq::<T>::empty(), x);
    assert(Seq::<T>::empty().to_multiset() =~= Multiset::<T>::empty());
}

/// Stable counting sort for signed keys: tallies each key, turns the tally
/// into ending positions by a prefix sum, then walks the input backwards and
/// drops every element just before its key's current position.  The reverse
/// walk with decrement-after-use keeps equal keys in input order.
#[verifier::rlimit(100)]
pub fn counting_sort_stable(arr: &mut Vec<i32>)
    requires
        forall|i: int, j: int|
            0 <= i < old(arr)@.len() && 0 <= j < old(arr)@.len() ==> (old(arr)@[i] as int
                - old(arr)@[j] as int) < usize::MAX as int,
    ensures
        sorted_i32(final(arr)@),
        final(arr)@.to_multiset() == old(arr)@.to_multiset(),
        final(arr)@.len() == old(arr)@.len(),
{
    broadcast use vstd::seq_lib::group_to_multiset_ensures;
    broadcast use vstd::multiset::group_multiset_axioms;
    broadcast use vstd::multiset::group_multiset_properties;

    let n = arr.len();
    if n <= 1 {
        return ;
    }
    let ghost input = arr@;
    let mut min_val: i32 = arr[0];
    let mut max_val: i32 = arr[0];
    let mut t: usize = 1;
    while t < n
        invariant
            n == arr.len(),
            arr@ == input,
            1 <= t <= n,
            min_val <= max_val,
            exists|k: int| 0 <= k < t && arr@[k] == min_val,
            exists|k: int| 0 <= k < t && arr@[k] == max_val,
            forall|k: int| 0 <= k < t ==> min_val <= arr@[k] && arr@[k] <= max_val,
        decreases n - t,
    {
        if arr[t] < min_val {
            min_val = arr[t];
        }
        if arr[t] > max_val {
            max_val = arr[t];
        }
        t += 1;
    }
    let ghost minv = min_val as int;
    proof {
        let ka = choose|k: int| 0 <= k < n && arr@[k] == max_val;
        let kb = choose|k: int| 0 <= k < n && arr@[k] == min_val;
        assert((input[ka] as int - input[kb] as int) < usize::MAX as int);
    }
    let range = ((max_val as i64 - min_val as i64) + 1) as usize;
    let ghost rng = range as int;
    let mut count: Vec<usize> = Vec::new();
    let mut d: usize = 0;
    while d < range
        invariant
            count@.len() == d,
            d <= range,
            forall|e: int| 0 <= e < d ==> count@[e] == 0,
        decreases range - d,
    {
        count.push(0);
        d += 1;
    }
    proof {
        assert forall|k: int| 0 <= k <= count@.len() implies prefix_sum(count@, k) == 0 by {
            lemma_prefix_sum_zero(count@, k);
        }
        assert(input.subrange(0, 0) =~= Seq::<i32>::empty());
        assert(Seq::<i32>::empty().to_multiset() =~= Multiset::<i32>::empty());
    }
    let mut t: usize = 0;
    while t < n
        invariant
            n == arr.len(),
            arr@ == input,
            t <= n,
            count@.len() == range,
            minv == min_val as int,
            rng == range as int == max_val as int - minv + 1,
            rng < usize::MAX as int + 1,
            forall|k: int| 0 <= k < n ==> minv <= input[k] && input[k] <= max_val,
            forall|e: int|
                0 <= e < rng ==> count@[e] == input.subrange(0, t as int).to_multiset().count(
                    ((minv + e) as i32),
                ),
            prefix_sum(count@, rng) == t,
        decreases n - t,
    {
        let x = arr[t];
        let d = ((x as i64 - min_val as i64)) as usize;
        proof {
            assert(d as int == x as int - minv);
        }
        let cur = count[d];
        proof {
            lemma_entry_le_sum(count@, d as int);
            lemma_prefix_sum_update(count@, d as int, (cur + 1) as usize, rng);
        }
        count[d] = cur + 1;
        t += 1;
        proof {
            let prev = input.subrange(0, t as int - 1);
            let curs = input.subrange(0, t as int);
            assert(curs =~= prev.push(x));
            vstd::seq_lib::to_multiset_build(prev, x);
            assert forall|e: int| 0 <= e < rng implies count@[e] == curs.to_multiset().count(
                ((minv + e) as i32),
            ) by {
                let v = (minv + e) as i32;
                if v == x {
                    assert(e == d);
                    assert(prev.to_multiset().insert(x).count(x) == prev.to_multiset().count(x)
                        + 1);
                } else {
                    assert(prev.to_multiset().insert(x).count(v) == prev.to_multiset().count(v));
                }
            }
        }
    }
    proof {
        assert(input.subrange(0, n as int) =~= input);
    }
    let ghost c0 = count@;
    proof {
        assert(prefix_sum(c0, 0) == 0);
        if range >= 1 {
            assert(prefix_sum(c0, 1) == c0[0]);
        }
    }
    let mut i: usize = 1;
    while i < range
        invariant
            count@.len() == range == c0.len(),
            1 <= i <= range || (i == 1 && range == 0),
            prefix_sum(c0, rng) == n,
            rng == range as int,
            forall|e: int| 0 <= e < i && e < rng ==> count@[e] == prefix_sum(c0, e + 1),
            forall|e: int| i <= e < rng ==> count@[e] == c0[e],
        decreases range - i,
    {
        let a = count[i - 1];
        let b = count[i];
        proof {
            lemma_prefix_sum_mono(c0, i as int + 1, rng);
        }
        count[i] = a + b;
        i += 1;
    }
    proof {
        assert(prefix_sum(c0, 0) == 0);
        if range >= 1 {
            assert(prefix_sum(c0, 1) == c0[0]);
        }
        assert forall|e: int| 0 <= e < rng implies count@[e] == prefix_sum(c0, e + 1) by {}
    }
    let mut output: Vec<i32> = Vec::new();
    let mut z: usize = 0;
    while z < n
        invariant
            output@.len() == z <= n,
        decreases n - z,
    {
        output.push(0);
        z += 1;
    }
    let mut t: usize = n;
    proof {
        assert(input.subrange(n as int, n as int) =~= Seq::<i32>::empty());
        assert(Seq::<i32>::empty().to_multiset() =~= Multiset::<i32>::empty());
    }
    while t > 0
        invariant
            n == arr.len(),
            arr@ == input,
            t <= n,
            output@.len() == n,
            count@.len() == range == c0.len(),
            minv == min_val as int,
            rng == range as int == max_val as int - minv + 1,
            rng < usize::MAX as int + 1,
            prefix_sum(c0, rng) == n,
            forall|k: int| 0 <= k < n ==> minv <= input[k] && input[k] <= max_val,
            forall|e: int| 0 <= e < rng ==> c0[e] == input.to_multiset().count(((minv + e) as i32)),
            forall|e: int|
                0 <= e < rng ==> count@[e] == prefix_sum(c0, e + 1) - input.subrange(
                    t as int,
                    n as int,
                ).to_multiset().count(((minv + e) as i32)),
            forall|e: int, p: int|
                #![trigger count@[e], output@[p]]
                0 <= e < rng && count@[e] <= p < prefix_sum(c0, e + 1) ==> output@[p] == ((minv
                    + e) as i32),
        decreases t,
    {
        t -= 1;
        let x = arr[t];
        let d = ((x as i64 - min_val as i64)) as usize;
        proof {
            assert(d as int == x as int - minv);
        }
        let ghost suffix_old = input.subrange(t as int + 1, n as int);
        let ghost suffix_new = input.subrange(t as int, n as int);
        proof {
            assert(suffix_new =~= seq![x] + suffix_old);
            vstd::seq_lib::lemma_multiset_commutative(seq![x], suffix_old);
            assert forall|v: i32| suffix_new.to_multiset().count(v) == suffix_old.to_multiset().count(
                v,
            ) + (if v == x {
                1int
            } else {
                0int
            }) by {
                lemma_singleton_count(x, v);
            }
            lemma_suffix_count_le(input, t as int + 1, x);
            assert(input.subrange(0, t as int + 1).to_multiset().count(x) >= 1) by {
                assert(input.subrange(0, t as int + 1)[t as int] == x);
                assert(input.subrange(0, t as int + 1).contains(x));
                vstd::seq_lib::to_multiset_contains(input.subrange(0, t as int + 1), x);
            }
            assert(suffix_old.to_multiset().count(x) <= c0[d as int] - 1);
            lemma_prefix_sum_mono(c0, 0, d as int);
            lemma_prefix_sum_mono(c0, d as int + 1, rng);
        }
        let ghost cnt_pre = count@;
        let ghost out_pre = output@;
        proof {
            assert(forall|e: int, p: int|
                #![trigger cnt_pre[e], out_pre[p]]
                0 <= e < rng && cnt_pre[e] <= p < prefix_sum(c0, e + 1) ==> out_pre[p] == ((minv
                    + e) as i32));
        }
        let pos = count[d] - 1;
        count[d] = pos;
        output[pos] = x;
        proof {
            assert(cnt_pre[d as int] >= prefix_sum(c0, d as int) + 1);
            assert(pos >= prefix_sum(c0, d as int));
            assert(pos < prefix_sum(c0, d as int + 1));
            assert forall|e: int|
                0 <= e < rng implies count@[e] == prefix_sum(c0, e + 1) - suffix_new.to_multiset().count(
                ((minv + e) as i32),
            ) by {
                if e != d {
                    assert((minv + e) as i32 != x);
                    assert(count@[e] == cnt_pre[e]);
                }
            }
            assert forall|e: int, p: int|
                #![trigger count@[e], output@[p]]
                0 <= e < rng && count@[e] <= p < prefix_sum(c0, e + 1) implies output@[p] == ((minv
                    + e) as i32) by {
                if e == d {
                    if p > pos {
                        assert(cnt_pre[d as int] <= p < prefix_sum(c0, d as int + 1));
                        assert(out_pre[p] == ((minv + d) as i32));
                        assert(output@[p] == out_pre[p]);
                    } else {
                        assert(p == pos);
                        assert(output@[pos as int] == x);
                    }
                } else {
                    assert(count@[e] == cnt_pre[e]);
                    if e < d {
                        lemma_prefix_sum_mono(c0, e + 1, d as int);
                        assert(p < pos);
                    } else {
                        lemma_prefix_sum_mono(c0, d as int + 1, e);
                        lemma_suffix_count_le(input, t as int + 1, ((minv + e) as i32));
                        assert(suffix_old.to_multiset().count(((minv + e) as i32)) <= c0[e]);
                        assert(cnt_pre[e] >= prefix_sum(c0, e));
                        assert(p >= prefix_sum(c0, e));
                        assert(p > pos);
                    }
                    lemma_prefix_sum_mono(c0, e + 1, rng);
                    assert(p < n);
                    assert(cnt_pre[e] <= p < prefix_sum(c0, e + 1));
                    assert(out_pre[p] == ((minv + e) as i32));
                    assert(output@[p] == out_pre[p]);
                }
            }
        }
    }
    let mut k: usize = 0;
    while k < n
        invariant
            n == arr.len(),
            output@.len() == n,
            k <= n,
            forall|m: int| 0 <= m < k ==> arr@[m] == output@[m],
        decreases n - k,
    {
        let y = output[k];
        arr[k] = y;
        k += 1;
    }
    proof {
        assert(arr@ =~= output@);
        let whole = input.subrange(0, n as int);
        assert(whole =~= input);
        assert forall|e: int| 0 <= e < rng implies count@[e] == prefix_sum(c0, e) by {
            assert(count@[e] == prefix_sum(c0, e + 1) - input.to_multiset().count(
                ((minv + e) as i32),
            ));
        }
        assert forall|p: int| 0 <= p < n implies output@[p] == runs(minv, c0, rng)[p] by {
            lemma_psum_region(c0, p, rng);
            let d = choose|d: int|
                0 <= d < rng && #[trigger] prefix_sum(c0, d) <= p < prefix_sum(c0, d + 1);
            assert(count@[d] == prefix_sum(c0, d));
            assert(output@[p] == ((minv + d) as i32));
            lemma_runs_index(minv, c0, rng, d, p);
        }
        lemma_runs_len(minv, c0, rng);
        assert(output@ =~= runs(minv, c0, rng));
        assert forall|a: int, b: int|
            #![trigger output@[a], output@[b]]
            0 <= a <= b < n implies output@[a] <= output@[b] by {
            lemma_psum_region(c0, a, rng);
            lemma_psum_region(c0, b, rng);
            let da = choose|d: int|
                0 <= d < rng && #[trigger] prefix_sum(c0, d) <= a < prefix_sum(c0, d + 1);
            let db = choose|d: int|
                0 <= d < rng && #[trigger] prefix_sum(c0, d) <= b < prefix_sum(c0, d + 1);
            assert(output@[a] == ((minv + da) as i32));
            assert(output@[b] == ((minv + db) as i32));
            if da > db {
                lemma_prefix_sum_mono(c0, db + 1, da);
                assert(false);
            }
        }
        assert forall|v: i32| true implies output@.to_multiset().count(v)
            == input.to_multiset().count(v) by {
            lemma_runs_count(minv, c0, rng, v);
            if minv <= v <= max_val {
            } else {
                if input.to_multiset().count(v) > 0 {
                    assert(input.contains(v));
                    let m = choose|m: int| 0 <= m < input.len() && input[m] == v;
                    assert(false);
                }
            }
        }
        assert(arr@.to_multiset() =~= input.to_multiset());
    }
}

} // verus!
