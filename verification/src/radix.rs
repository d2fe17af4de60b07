//! Radix sort over non-negative integers, bucketing on decimal digits:
//! least-significant-digit passes built on a stable counting sort, and a
//! most-significant-digit recursion over freshly allocated buckets.

use vstd::prelude::*;
use vstd::multiset::Multiset;
use crate::perm::{sorted_u32, lemma_filter_push, lemma_filter_singleton};
use crate::counting::{
    prefix_sum,
    lemma_prefix_sum_mono,
    lemma_prefix_sum_update,
    lemma_prefix_sum_zero,
    lemma_entry_le_sum,
    lemma_psum_region,
};
use vstd::arithmetic::div_mod::{
    lemma_fundamental_div_mod,
    lemma_div_denominator,
    lemma_mod_breakdown,
    lemma_small_mod,
};

verus! {

/// The decimal digit of `x` at the place with weight `e`.
pub open spec fn digit_of(x: u32, e: int) -> int {
    (x as int / e) % 10
}

/// The elements of `s` whose digit at place `e` is `g`, in input order.
pub open spec fn digit_filter(s: Seq<u32>, e: int, g: int) -> Seq<u32> {
    s.filter(|x: u32| digit_of(x, e) == g)
}

/// `s` is non-decreasing in value modulo `m`.
pub open spec fn mod_sorted(s: Seq<u32>, m: int) -> bool {
    forall|i: int, j: int|
        #![trigger s[i], s[j]]
        0 <= i <= j < s.len() ==> s[i] as int % m <= s[j] as int % m
}

/// Filtering distributes over splitting a sequence at `t`.
proof fn lemma_filter_parts(s: Seq<u32>, t: int, pred: spec_fn(u32) -> bool)
    requires
        0 <= t <= s.len(),
    ensures
        s.filter(pred) == s.subrange(0, t).filter(pred) + s.subrange(t, s.len() as int).filter(
            pred,
        ),
{
    assert(s =~= s.subrange(0, t) + s.subrange(t, s.len() as int));
    Seq::filter_distributes_over_add(s.subrange(0, t), s.subrange(t, s.len() as int), pred);
}

/// An element of a filtered sequence occurs in the sequence it was taken
/// from.
proof fn lemma_filter_element_of(s: Seq<u32>, pred: spec_fn(u32) -> bool, i: int)
    requires
        0 <= i < s.filter(pred).len(),
    ensures
        s.contains(s.filter(pred)[i]),
    decreases s.len(),
{
    reveal(Seq::filter);
    if s.len() > 0 {
        let dl = s.drop_last();
        let out = s.filter(pred);
        if pred(s.last()) && i == out.len() - 1 {
            assert(out[i] == s[s.len() - 1]);
        } else {
            assert(out[i] == dl.filter(pred)[i]);
            lemma_filter_element_of(dl, pred, i);
            let k = choose|k: int| 0 <= k < dl.len() && dl[k] == out[i];
            assert(s[k] == out[i]);
        }
    }
}

/// Filtering keeps a modular sorting of the elements.
proof fn lemma_filter_mod_sorted(s: Seq<u32>, m: int, pred: spec_fn(u32) -> bool)
    requires
        mod_sorted(s, m),
    ensures
        mod_sorted(s.filter(pred), m),
    decreases s.len(),
{
    reveal(Seq::filter);
    if s.len() > 0 {
        let dl = s.drop_last();
        assert(mod_sorted(dl, m)) by {
            assert forall|i: int, j: int|
                #![trigger dl[i], dl[j]]
                0 <= i <= j < dl.len() implies dl[i] as int % m <= dl[j] as int % m by {
                assert(dl[i] == s[i] && dl[j] == s[j]);
            }
        }
        lemma_filter_mod_sorted(dl, m, pred);
        if pred(s.last()) {
            let f = dl.filter(pred).push(s.last());
            assert(s.filter(pred) == f);
            assert forall|i: int, j: int|
                #![trigger f[i], f[j]]
                0 <= i <= j < f.len() implies f[i] as int % m <= f[j] as int % m by {
                if j == f.len() - 1 && i < j {
                    assert(f[i] == dl.filter(pred)[i]);
                    lemma_filter_element_of(dl, pred, i);
                    let k = choose|k: int| 0 <= k < dl.len() && dl[k] == f[i];
                    assert(s[k] as int % m <= s[s.len() - 1] as int % m);
                }
            }
        }
    }
}

/// The multiset of all elements whose digit at place `e` is below `g`.
spec fn msum(s: Seq<u32>, e: int, g: int) -> Multiset<u32>
    decreases g,
{
    if g <= 0 {
        Multiset::empty()
    } else {
        msum(s, e, g - 1).add(digit_filter(s, e, g - 1).to_multiset())
    }
}

/// An empty sequence contributes nothing to any digit.
proof fn lemma_msum_empty(e: int, g: int)
    ensures
        msum(Seq::<u32>::empty(), e, g) =~= Multiset::<u32>::empty(),
    decreases g,
{
    broadcast use vstd::multiset::group_multiset_axioms;

    if g > 0 {
        reveal(Seq::filter);
        lemma_msum_empty(e, g - 1);
        assert(Seq::<u32>::empty().filter(|x: u32| digit_of(x, e) == g - 1) =~= Seq::<
            u32,
        >::empty());
        assert(Seq::<u32>::empty().to_multiset() =~= Multiset::<u32>::empty()) by {
            broadcast use vstd::seq_lib::group_to_multiset_ensures;

        }
    }
}

/// How pushing one element moves the per-digit multisets.
proof fn lemma_msum_push(s: Seq<u32>, e: int, x: u32, g: int)
    requires
        e >= 1,
    ensures
        msum(s.push(x), e, g) =~= if digit_of(x, e) < g {
            msum(s, e, g).insert(x)
        } else {
            msum(s, e, g)
        },
    decreases g,
{
    broadcast use vstd::multiset::group_multiset_axioms;
    broadcast use vstd::multiset::group_multiset_properties;
    broadcast use vstd::seq_lib::group_to_multiset_ensures;

    if g > 0 {
        lemma_msum_push(s, e, x, g - 1);
        lemma_filter_push(s, |y: u32| digit_of(y, e) == g - 1, x);
        assert(x as int / e >= 0) by {
            lemma_fundamental_div_mod(x as int, e);
        }
    }
}

/// Splitting a sequence by final digit loses nothing: the ten per-digit
/// multisets add back to the whole.
proof fn lemma_msum_all(s: Seq<u32>, e: int)
    requires
        e >= 1,
    ensures
        msum(s, e, 10) =~= s.to_multiset(),
    decreases s.len(),
{
    broadcast use vstd::multiset::group_multiset_axioms;
    broadcast use vstd::seq_lib::group_to_multiset_ensures;

    if s.len() == 0 {
        lemma_msum_empty(e, 10);
        assert(s =~= Seq::<u32>::empty());
        assert(s.to_multiset() =~= Multiset::<u32>::empty());
    } else {
        let dl = s.drop_last();
        let x = s.last();
        assert(s =~= dl.push(x));
        lemma_msum_all(dl, e);
        lemma_msum_push(dl, e, x, 10);
        assert(0 <= digit_of(x, e) < 10) by {
            lemma_fundamental_div_mod(x as int, e);
            lemma_fundamental_div_mod(x as int / e, 10);
        }
    }
}

/// The elements of `s` grouped by their digit at place `e`: the classes of
/// digit zero through `g - 1`, concatenated in digit order, each class in
/// input order.  This is the exact outcome of one stable counting pass.
pub open spec fn digit_partition(s: Seq<u32>, e: int, g: int) -> Seq<u32>
    decreases g,
{
    if g <= 0 {
        Seq::empty()
    } else {
        digit_partition(s, e, g - 1) + digit_filter(s, e, g - 1)
    }
}

/// The digit classes of the partition line up with the tally's prefix sums.
proof fn lemma_partition_len(s: Seq<u32>, e: int, c: Seq<usize>, g: int)
    requires
        0 <= g <= 10,
        c.len() == 10,
        forall|gg: int| 0 <= gg < 10 ==> c[gg] == digit_filter(s, e, gg).len(),
    ensures
        digit_partition(s, e, g).len() == prefix_sum(c, g),
    decreases g,
{
    if g > 0 {
        lemma_partition_len(s, e, c, g - 1);
    }
}

/// Inside the region of digit `d`, the partition holds that digit's class.
proof fn lemma_partition_index(s: Seq<u32>, e: int, c: Seq<usize>, g: int, d: int, p: int)
    requires
        0 <= d < g <= 10,
        c.len() == 10,
        forall|gg: int| 0 <= gg < 10 ==> c[gg] == digit_filter(s, e, gg).len(),
        prefix_sum(c, d) <= p < prefix_sum(c, d + 1),
    ensures
        0 <= p < digit_partition(s, e, g).len(),
        digit_partition(s, e, g)[p] == digit_filter(s, e, d)[p - prefix_sum(c, d)],
    decreases g,
{
    lemma_partition_len(s, e, c, g);
    lemma_prefix_sum_mono(c, 0, d);
    lemma_prefix_sum_mono(c, d + 1, g);
    if d == g - 1 {
        lemma_partition_len(s, e, c, g - 1);
    } else {
        lemma_partition_index(s, e, c, g - 1, d, p);
        lemma_partition_len(s, e, c, g - 1);
        lemma_prefix_sum_mono(c, d + 1, g - 1);
    }
}

/// The multiset of a prefix of tiled digit regions: positions up to the
/// running total of the first `g` digit tallies hold exactly the elements
/// with those digits.
proof fn lemma_regions_ms(out: Seq<u32>, s: Seq<u32>, e: int, c: Seq<usize>, g: int)
    requires
        0 <= g <= 10,
        c.len() == 10,
        e >= 1,
        prefix_sum(c, 10) <= out.len(),
        forall|gg: int|
            0 <= gg < 10 ==> out.subrange(
                #[trigger] prefix_sum(c, gg),
                prefix_sum(c, gg + 1),
            ) == digit_filter(s, e, gg),
    ensures
        out.subrange(0, prefix_sum(c, g)).to_multiset() == msum(s, e, g),
    decreases g,
{
    broadcast use vstd::multiset::group_multiset_axioms;
    broadcast use vstd::seq_lib::group_to_multiset_ensures;

    if g == 0 {
        assert(out.subrange(0, 0) =~= Seq::<u32>::empty());
        assert(Seq::<u32>::empty().to_multiset() =~= Multiset::<u32>::empty());
    } else {
        lemma_regions_ms(out, s, e, c, g - 1);
        lemma_prefix_sum_mono(c, 0, g - 1);
        lemma_prefix_sum_mono(c, g, 10);
        assert(out.subrange(0, prefix_sum(c, g)) =~= out.subrange(0, prefix_sum(c, g - 1))
            + out.subrange(prefix_sum(c, g - 1), prefix_sum(c, g)));
        vstd::seq_lib::lemma_multiset_commutative(
            out.subrange(0, prefix_sum(c, g - 1)),
            out.subrange(prefix_sum(c, g - 1), prefix_sum(c, g)),
        );
        assert(msum(s, e, g) =~= out.subrange(0, prefix_sum(c, g)).to_multiset());
    }
}

/// Once the digit regions tile the output and each holds its filtered
/// slice of the input, the pass's contract follows: same multiset, and
/// ordered by value modulo ten times the digit place.
#[verifier::rlimit(100)]
#[verifier::spinoff_prover]
proof fn lemma_pass_final(output: Seq<u32>, input: Seq<u32>, e: int, c0: Seq<usize>)
    requires
        e >= 1,
        c0.len() == 10,
        prefix_sum(c0, 10) == input.len(),
        output.len() == input.len(),
        mod_sorted(input, e),
        forall|g: int|
            0 <= g < 10 ==> output.subrange(#[trigger] prefix_sum(c0, g), prefix_sum(c0, g + 1))
                == digit_filter(input, e, g),
    ensures
        output.to_multiset() == input.to_multiset(),
        mod_sorted(output, 10 * e),
{
    let n = input.len() as int;
    lemma_regions_ms(output, input, e, c0, 10);
    lemma_msum_all(input, e);
    assert(output.subrange(0, n) =~= output);
    assert(output.to_multiset() == input.to_multiset());
    assert forall|i: int, j: int|
        #![trigger output[i], output[j]]
        0 <= i <= j < n implies output[i] as int % (10 * e) <= output[j] as int % (10 * e) by {
        lemma_psum_region(c0, i, 10);
        lemma_psum_region(c0, j, 10);
        let gi = choose|d: int|
            0 <= d < 10 && #[trigger] prefix_sum(c0, d) <= i < prefix_sum(c0, d + 1);
        let gj = choose|d: int|
            0 <= d < 10 && #[trigger] prefix_sum(c0, d) <= j < prefix_sum(c0, d + 1);
        let fi = digit_filter(input, e, gi);
        let fj = digit_filter(input, e, gj);
        lemma_prefix_sum_mono(c0, 0, gi);
        lemma_prefix_sum_mono(c0, gi + 1, 10);
        lemma_prefix_sum_mono(c0, 0, gj);
        lemma_prefix_sum_mono(c0, gj + 1, 10);
        assert(output.subrange(prefix_sum(c0, gi), prefix_sum(c0, gi + 1)) == fi);
        assert(output.subrange(prefix_sum(c0, gj), prefix_sum(c0, gj + 1)) == fj);
        assert(output[i] == fi[i - prefix_sum(c0, gi)]);
        assert(output[j] == fj[j - prefix_sum(c0, gj)]);
        input.lemma_filter_pred(|y: u32| digit_of(y, e) == gi, i - prefix_sum(c0, gi));
        input.lemma_filter_pred(|y: u32| digit_of(y, e) == gj, j - prefix_sum(c0, gj));
        assert(digit_of(output[i], e) == gi && digit_of(output[j], e) == gj);
        lemma_mod_breakdown(output[i] as int, e, 10);
        lemma_mod_breakdown(output[j] as int, e, 10);
        if gi > gj {
            lemma_prefix_sum_mono(c0, gj + 1, gi);
            assert(false);
        }
        if gi < gj {
            assert(e * gi + output[i] as int % e < e * (gi + 1)) by (nonlinear_arith)
                requires
                    e >= 1,
                    output[i] as int % e < e,
            ;
            assert(e * (gi + 1) <= e * gj) by (nonlinear_arith)
                requires
                    gi + 1 <= gj,
                    e >= 1,
            ;
            assert(e * gj <= e * gj + output[j] as int % e);
        } else {
            lemma_filter_mod_sorted(input, e, |y: u32| digit_of(y, e) == gi);
            assert(fi[i - prefix_sum(c0, gi)] as int % e <= fi[j - prefix_sum(c0, gi)] as int
                % e);
        }
    }
}

/// One stable counting-sort pass keyed on the digit at place `exp`: the
/// result is exactly the digit classes of the input concatenated in digit
/// order, each class kept in input order — the per-pass stability that LSD
/// radix sorting depends on.  On a sequence already ordered by value modulo
/// `exp`, the pass therefore yields one ordered by value modulo `10 * exp`.
#[verifier::rlimit(100)]
pub fn counting_sort_by_digit(arr: &mut Vec<u32>, exp: u64)
    requires
        exp >= 1,
    ensures
        final(arr)@.len() == old(arr)@.len(),
        final(arr)@.to_multiset() == old(arr)@.to_multiset(),
        final(arr)@ == digit_partition(old(arr)@, exp as int, 10),
        mod_sorted(old(arr)@, exp as int) ==> mod_sorted(final(arr)@, 10 * (exp as int)),
{
    broadcast use vstd::seq_lib::group_to_multiset_ensures;
    broadcast use vstd::multiset::group_multiset_axioms;

    let n = arr.len();
    let ghost input = arr@;
    let ghost e = exp as int;
    let mut count: Vec<usize> = Vec::new();
    let mut d: usize = 0;
    while d < 10
        invariant
            count@.len() == d <= 10,
            forall|g: int| 0 <= g < d ==> count@[g] == 0,
        decreases 10 - d,
    {
        count.push(0);
        d += 1;
    }
    proof {
        assert forall|k: int| 0 <= k <= 10 implies prefix_sum(count@, k) == 0 by {
            lemma_prefix_sum_zero(count@, k);
        }
        assert(input.subrange(0, 0) =~= Seq::<u32>::empty());
        assert forall|g: int| 0 <= g < 10 implies digit_filter(
            input.subrange(0, 0),
            e,
            g,
        ).len() == 0 by {
            reveal(Seq::filter);
            assert(Seq::<u32>::empty().filter(|x: u32| digit_of(x, e) == g) =~= Seq::<
                u32,
            >::empty());
        }
    }
    let mut t: usize = 0;
    while t < n
        invariant
            n == arr.len(),
            arr@ == input,
            t <= n,
            e == exp as int >= 1,
            count@.len() == 10,
            forall|g: int|
                0 <= g < 10 ==> count@[g] == digit_filter(input.subrange(0, t as int), e, g).len(),
            prefix_sum(count@, 10) == t,
        decreases n - t,
    {
        let x = arr[t];
        let g = ((x as u64 / exp) % 10) as usize;
        proof {
            assert(g as int == digit_of(x, e));
        }
        let cur = count[g];
        proof {
            lemma_entry_le_sum(count@, g as int);
            lemma_prefix_sum_update(count@, g as int, (cur + 1) as usize, 10);
        }
        count[g] = cur + 1;
        t += 1;
        proof {
            let prev = input.subrange(0, t as int - 1);
            let curs = input.subrange(0, t as int);
            assert(curs =~= prev.push(x));
            assert forall|gg: int| 0 <= gg < 10 implies count@[gg] == digit_filter(
                curs,
                e,
                gg,
            ).len() by {
                lemma_filter_push(prev, |y: u32| digit_of(y, e) == gg, x);
            }
        }
    }
    proof {
        assert(input.subrange(0, n as int) =~= input);
    }
    let ghost c0 = count@;
    let mut i: usize = 1;
    proof {
        assert(prefix_sum(c0, 0) == 0);
        assert(prefix_sum(c0, 1) == c0[0]);
    }
    while i < 10
        invariant
            count@.len() == 10 == c0.len(),
            1 <= i <= 10,
            prefix_sum(c0, 10) == n,
            forall|g: int| 0 <= g < i ==> count@[g] == prefix_sum(c0, g + 1),
            forall|g: int| i <= g < 10 ==> count@[g] == c0[g],
        decreases 10 - i,
    {
        let a = count[i - 1];
        let b = count[i];
        proof {
            lemma_prefix_sum_mono(c0, i as int + 1, 10);
        }
        count[i] = a + b;
        i += 1;
    }
    let mut output: Vec<u32> = Vec::new();
    let mut z: usize = 0;
    while z < n
        invariant
            output@.len() == z <= n,
        decreases n - z,
    {
        output.push(0);
        z += 1;
    }
    let mut t: usize = n;
    proof {
        assert(input.subrange(n as int, n as int) =~= Seq::<u32>::empty());
        assert forall|g: int| 0 <= g < 10 implies digit_filter(
            input.subrange(n as int, n as int),
            e,
            g,
        ) =~= Seq::<u32>::empty() by {
            reveal(Seq::filter);
            assert(Seq::<u32>::empty().filter(|x: u32| digit_of(x, e) == g) =~= Seq::<
                u32,
            >::empty());
        }
        assert forall|g: int| 0 <= g < 10 implies output@.subrange(
            count@[g] as int,
            prefix_sum(c0, g + 1),
        ) =~= Seq::<u32>::empty() by {
            lemma_prefix_sum_mono(c0, 0, g + 1);
            lemma_prefix_sum_mono(c0, g + 1, 10);
        }
    }
    while t > 0
        invariant
            n == arr.len(),
            arr@ == input,
            t <= n,
            e == exp as int >= 1,
            output@.len() == n,
            count@.len() == 10 == c0.len(),
            prefix_sum(c0, 10) == n,
            forall|g: int| 0 <= g < 10 ==> c0[g] == digit_filter(input, e, g).len(),
            forall|g: int|
                0 <= g < 10 ==> count@[g] == prefix_sum(c0, g + 1) - digit_filter(
                    input.subrange(t as int, n as int),
                    e,
                    g,
                ).len(),
            forall|g: int|
                0 <= g < 10 ==> output@.subrange(#[trigger] count@[g] as int, prefix_sum(c0, g + 1))
                    == digit_filter(input.subrange(t as int, n as int), e, g),
        decreases t,
    {
        t -= 1;
        let x = arr[t];
        let g = ((x as u64 / exp) % 10) as usize;
        proof {
            assert(g as int == digit_of(x, e));
        }
        let ghost suffix_old = input.subrange(t as int + 1, n as int);
        let ghost suffix_new = input.subrange(t as int, n as int);
        let ghost cnt_pre = count@;
        let ghost out_pre = output@;
        proof {
            assert(suffix_new =~= seq![x] + suffix_old);
            assert forall|gg: int| 0 <= gg < 10 implies digit_filter(suffix_new, e, gg)
                == if gg == g {
                seq![x] + digit_filter(suffix_old, e, gg)
            } else {
                digit_filter(suffix_old, e, gg)
            } by {
                let pred = |y: u32| digit_of(y, e) == gg;
                Seq::filter_distributes_over_add(seq![x], suffix_old, pred);
                lemma_filter_singleton(pred, x);
                if gg != g {
                    assert(Seq::<u32>::empty() + digit_filter(suffix_old, e, gg) =~= digit_filter(
                        suffix_old,
                        e,
                        gg,
                    ));
                }
            }
            lemma_filter_parts(input, t as int + 1, |y: u32| digit_of(y, e) == g as int);
            assert(digit_filter(input.subrange(0, t as int + 1), e, g as int).len() >= 1) by {
                let pred = |y: u32| digit_of(y, e) == g as int;
                let pre = input.subrange(0, t as int + 1);
                assert(pre[t as int] == x && pred(x));
                pre.lemma_filter_contains(pred, t as int);
                assert(pre.filter(pred).contains(x));
                assert(pre.filter(pred).len() > 0);
            }
            lemma_prefix_sum_mono(c0, 0, g as int);
            lemma_prefix_sum_mono(c0, g as int + 1, 10);
            assert(cnt_pre[g as int] >= prefix_sum(c0, g as int) + 1);
            assert(cnt_pre[g as int] <= prefix_sum(c0, g as int + 1));
        }
        let pos = count[g] - 1;
        count[g] = pos;
        output[pos] = x;
        proof {
            assert forall|gg: int|
                0 <= gg < 10 implies count@[gg] == prefix_sum(c0, gg + 1) - digit_filter(
                suffix_new,
                e,
                gg,
            ).len() by {}
            assert forall|gg: int|
                0 <= gg < 10 implies output@.subrange(
                #[trigger] count@[gg] as int,
                prefix_sum(c0, gg + 1),
            ) == digit_filter(suffix_new, e, gg) by {
                if gg == g {
                    assert(output@.subrange(pos as int, prefix_sum(c0, g as int + 1)) =~= seq![x]
                        + out_pre.subrange(pos as int + 1, prefix_sum(c0, g as int + 1)));
                } else {
                    lemma_filter_parts(input, t as int + 1, |y: u32| digit_of(y, e) == gg);
                    assert(cnt_pre[gg] >= prefix_sum(c0, gg));
                    lemma_prefix_sum_mono(c0, 0, gg);
                    lemma_prefix_sum_mono(c0, gg + 1, 10);
                    assert(pos >= prefix_sum(c0, g as int));
                    assert(pos < prefix_sum(c0, g as int + 1));
                    if gg < g {
                        lemma_prefix_sum_mono(c0, gg + 1, g as int);
                        assert(prefix_sum(c0, gg + 1) <= pos);
                    } else {
                        lemma_prefix_sum_mono(c0, g as int + 1, gg);
                        assert(pos < cnt_pre[gg]);
                    }
                    assert(output@.subrange(count@[gg] as int, prefix_sum(c0, gg + 1))
                        =~= out_pre.subrange(cnt_pre[gg] as int, prefix_sum(c0, gg + 1)));
                }
            }
        }
    }
    let mut k: usize = 0;
    while k < n
        invariant
            n == arr.len(),
            output@.len() == n,
            k <= n,
            forall|m: int| 0 <= m < k ==> arr@[m] == output@[m],
        decreases n - k,
    {
        let y = output[k];
        arr[k] = y;
        k += 1;
    }
    proof {
        assert(arr@ =~= output@);
        assert(input.subrange(0, n as int) =~= input);
        assert forall|g: int|
            0 <= g < 10 implies output@.subrange(
            #[trigger] prefix_sum(c0, g),
            prefix_sum(c0, g + 1),
        ) == digit_filter(input, e, g) by {
            assert(count@[g] == prefix_sum(c0, g + 1) - digit_filter(input, e, g).len());
        }
        assert forall|p: int| 0 <= p < n implies output@[p] == digit_partition(
            input,
            e,
            10,
        )[p] by {
            lemma_psum_region(c0, p, 10);
            let d = choose|d: int|
                0 <= d < 10 && #[trigger] prefix_sum(c0, d) <= p < prefix_sum(c0, d + 1);
            lemma_prefix_sum_mono(c0, 0, d);
            lemma_prefix_sum_mono(c0, d + 1, 10);
            assert(output@.subrange(prefix_sum(c0, d), prefix_sum(c0, d + 1)) == digit_filter(
                input,
                e,
                d,
            ));
            assert(output@[p] == digit_filter(input, e, d)[p - prefix_sum(c0, d)]);
            lemma_partition_index(input, e, c0, 10, d, p);
        }
        lemma_partition_len(input, e, c0, 10);
        assert(output@ =~= digit_partition(input, e, 10));
        lemma_regions_ms(output@, input, e, c0, 10);
        lemma_msum_all(input, e);
        assert(output@.subrange(0, n as int) =~= output@);
        if mod_sorted(input, e) {
            lemma_pass_final(output@, input, e, c0);
        }
    }
}

/// Least-significant-digit radix sort: stable counting passes on each
/// decimal digit, from the ones place upward, until the divisor passes the
/// maximum value.
pub fn radix_sort(arr: &mut Vec<u32>)
    ensures
        sorted_u32(final(arr)@),
        final(arr)@.to_multiset() == old(arr)@.to_multiset(),
        final(arr)@.len() == old(arr)@.len(),
{
    let n = arr.len();
    if n <= 1 {
        return ;
    }
    let mut max_val: u32 = arr[0];
    let mut t: usize = 1;
    while t < n
        invariant
            n == arr.len(),
            arr@ == old(arr)@,
            1 <= t <= n,
            forall|k: int| 0 <= k < t ==> arr@[k] <= max_val,
        decreases n - t,
    {
        if arr[t] > max_val {
            max_val = arr[t];
        }
        t += 1;
    }
    let mut exp: u64 = 1;
    proof {
        assert forall|i: int, j: int|
            #![trigger arr@[i], arr@[j]]
            0 <= i <= j < n implies arr@[i] as int % 1 <= arr@[j] as int % 1 by {
            lemma_small_mod(0, 1);
        }
    }
    while max_val as u64 / exp > 0
        invariant
            n == arr.len(),
            1 <= exp,
            arr@.to_multiset() == old(arr)@.to_multiset(),
            mod_sorted(arr@, exp as int),
            exp as int <= 10 * (max_val as int + 1),
            forall|k: int| 0 <= k < n ==> #[trigger] arr@[k] <= max_val,
        decreases max_val as int / exp as int,
    {
        let ghost pre = arr@;
        proof {
            lemma_fundamental_div_mod(max_val as int, exp as int);
            let q = max_val as int / exp as int;
            assert(q >= 1);
            assert(exp as int * q >= exp as int) by (nonlinear_arith)
                requires
                    q >= 1,
                    exp as int >= 1,
            ;
            vstd::arithmetic::div_mod::lemma_mod_bound(max_val as int, exp as int);
            assert(exp as int <= max_val as int);
        }
        counting_sort_by_digit(arr, exp);
        proof {
            let le_max = |x: u32| x <= max_val;
            assert forall|k: int| 0 <= k < pre.len() implies #[trigger] le_max(pre[k]) by {}
            crate::perm::lemma_multiset_transfer(pre, arr@, le_max);
            assert forall|k: int| 0 <= k < n implies #[trigger] arr@[k] <= max_val by {
                assert(le_max(arr@[k]));
            }
            lemma_div_denominator(max_val as int, exp as int, 10);
            vstd::arithmetic::div_mod::lemma_div_decreases(max_val as int / exp as int, 10);
        }
        exp = exp * 10;
    }
    proof {
        assert(max_val as u64 / exp == 0);
        assert(max_val as int / (exp as int) == 0);
        lemma_fundamental_div_mod(max_val as int, exp as int);
        vstd::arithmetic::div_mod::lemma_mod_bound(max_val as int, exp as int);
        assert(max_val as int == max_val as int % (exp as int));
        assert((max_val as int) < exp as int);
        assert forall|i: int, j: int|
            #![trigger arr@[i], arr@[j]]
            0 <= i <= j < n implies arr@[i] <= arr@[j] by {
            lemma_small_mod(arr@[i] as nat, exp as nat);
            lemma_small_mod(arr@[j] as nat, exp as nat);
            assert(arr@[i] as int % (exp as int) <= arr@[j] as int % (exp as int));
        }
    }
}

/// `e` is a power of ten.
pub open spec fn is_pow10(e: int) -> bool
    decreases e,
{
    if e <= 0 {
        false
    } else if e == 1 {
        true
    } else {
        e % 10 == 0 && is_pow10(e / 10)
    }
}

/// The weight of the most significant decimal digit of `num`: the largest
/// power of ten not exceeding `num`, or one for single-digit values.
pub fn get_max_exp(num: u32) -> (r: u32)
    ensures
        r >= 1,
        is_pow10(r as int),
        (num as int) < 10 * (r as int),
        num >= 1 ==> r as int <= num as int,
        num == 0 ==> r == 1,
{
    let mut n = num;
    let mut exp: u32 = 1;
    while n >= 10
        invariant
            exp >= 1,
            is_pow10(exp as int),
            num as int / (exp as int) == n as int,
            num >= 1 ==> exp as int <= num as int,
            num == 0 ==> exp == 1,
        decreases n,
    {
        proof {
            lemma_fundamental_div_mod(num as int, exp as int);
            assert(exp as int * (n as int) <= num as int && 10 * (exp as int) <= exp as int * (
            n as int)) by (nonlinear_arith)
                requires
                    num as int == exp as int * (n as int) + num as int % (exp as int),
                    num as int % (exp as int) >= 0,
                    n >= 10,
                    exp >= 1,
            ;
            lemma_div_denominator(num as int, exp as int, 10);
            vstd::arithmetic::div_mod::lemma_mod_multiples_vanish(exp as int, 0, 10);
            lemma_small_mod(0, 10);
            vstd::arithmetic::div_mod::lemma_div_multiples_vanish(exp as int, 10);
            assert((10 * (exp as int)) % 10 == 0);
            assert((10 * (exp as int)) / 10 == exp as int);
        }
        n = n / 10;
        exp = exp * 10;
    }
    proof {
        lemma_fundamental_div_mod(num as int, exp as int);
        vstd::arithmetic::div_mod::lemma_mod_bound(num as int, exp as int);
        assert(exp as int * (n as int) <= exp as int * 9) by (nonlinear_arith)
            requires
                n <= 9,
                exp >= 1,
        ;
    }
    exp
}

/// Most-significant-digit radix sort of a window that already agrees on
/// every digit above the place `exp`: buckets the elements by their digit at
/// `exp`, sorts each bucket on the next place down, and concatenates the
/// buckets in digit order.
#[verifier::rlimit(100)]
pub fn radix_sort_msd_recursive(arr: &mut Vec<u32>, exp: u32)
    requires
        exp >= 1 ==> is_pow10(exp as int),
        exp >= 1 ==> forall|i: int, j: int|
            0 <= i < old(arr)@.len() && 0 <= j < old(arr)@.len() ==> old(arr)@[i] as int / (10
                * exp as int) == old(arr)@[j] as int / (10 * exp as int),
    ensures
        final(arr)@.len() == old(arr)@.len(),
        final(arr)@.to_multiset() == old(arr)@.to_multiset(),
        exp == 0 ==> final(arr)@ == old(arr)@,
        old(arr)@.len() <= 1 ==> final(arr)@ == old(arr)@,
        exp >= 1 ==> sorted_u32(final(arr)@),
    decreases exp,
{
    broadcast use vstd::seq_lib::group_to_multiset_ensures;
    broadcast use vstd::multiset::group_multiset_axioms;

    let n = arr.len();
    if n <= 1 || exp == 0 {
        return ;
    }
    let ghost input = arr@;
    let ghost e = exp as int;
    let ghost hsh = input[0] as int / (10 * e);
    let mut buckets: Vec<Vec<u32>> = Vec::new();
    let mut d: usize = 0;
    while d < 10
        invariant
            buckets@.len() == d <= 10,
            forall|g: int| 0 <= g < d ==> #[trigger] buckets@[g]@ == Seq::<u32>::empty(),
        decreases 10 - d,
    {
        buckets.push(Vec::new());
        d += 1;
    }
    proof {
        assert(input.subrange(0, 0) =~= Seq::<u32>::empty());
        assert forall|g: int| 0 <= g < 10 implies #[trigger] buckets@[g]@ == digit_filter(
            input.subrange(0, 0),
            e,
            g,
        ) by {
            reveal(Seq::filter);
            assert(Seq::<u32>::empty().filter(|x: u32| digit_of(x, e) == g) =~= Seq::<
                u32,
            >::empty());
        }
    }
    let mut t: usize = 0;
    while t < n
        invariant
            n == arr.len(),
            arr@ == input,
            t <= n,
            e == exp as int >= 1,
            buckets@.len() == 10,
            forall|g: int|
                0 <= g < 10 ==> #[trigger] buckets@[g]@ == digit_filter(
                    input.subrange(0, t as int),
                    e,
                    g,
                ),
        decreases n - t,
    {
        let x = arr[t];
        let g = ((x / exp) % 10) as usize;
        proof {
            assert(g as int == digit_of(x, e));
        }
        let ghost bpre = buckets@;
        buckets[g].push(x);
        t += 1;
        proof {
            let prev = input.subrange(0, t as int - 1);
            let curs = input.subrange(0, t as int);
            assert(curs =~= prev.push(x));
            assert forall|gg: int| 0 <= gg < 10 implies #[trigger] buckets@[gg]@ == digit_filter(
                curs,
                e,
                gg,
            ) by {
                lemma_filter_push(prev, |y: u32| digit_of(y, e) == gg, x);
                if gg != g {
                    assert(buckets@[gg]@ == bpre[gg]@);
                }
            }
        }
    }
    proof {
        assert(input.subrange(0, n as int) =~= input);
        lemma_msum_all(input, e);
    }
    let mut idx: usize = 0;
    let mut g: usize = 0;
    while g < 10
        invariant
            n == arr.len(),
            g <= 10,
            e == exp as int >= 1,
            is_pow10(e),
            buckets@.len() == 10,
            input.len() == n,
            msum(input, e, 10) == input.to_multiset(),
            forall|i: int, j: int|
                0 <= i < n && 0 <= j < n ==> input[i] as int / (10 * e) == input[j] as int / (10
                    * e),
            hsh == input[0] as int / (10 * e),
            forall|gg: int|
                g <= gg < 10 ==> #[trigger] buckets@[gg]@ == digit_filter(input, e, gg),
            idx as int == msum(input, e, g as int).len(),
            idx <= n,
            arr@.subrange(0, idx as int).to_multiset() == msum(input, e, g as int),
            forall|a: int, b: int|
                #![trigger arr@[a], arr@[b]]
                0 <= a <= b < idx ==> arr@[a] <= arr@[b],
            forall|k: int|
                0 <= k < idx ==> digit_of(#[trigger] arr@[k], e) < g && arr@[k] as int / (10 * e)
                    == hsh,
        decreases 10 - g,
    {
        let ghost bucket0 = buckets@[g as int]@;
        proof {
            assert(bucket0 == digit_filter(input, e, g as int));
            assert forall|i: int, j: int|
                0 <= i < bucket0.len() && 0 <= j < bucket0.len() implies bucket0[i] as int / (10
                * (e / 10)) == bucket0[j] as int / (10 * (e / 10)) && (e / 10 == 0
                ==> bucket0[i] == bucket0[j]) by {
                lemma_filter_element_of(input, |y: u32| digit_of(y, e) == g as int, i);
                lemma_filter_element_of(input, |y: u32| digit_of(y, e) == g as int, j);
                input.lemma_filter_pred(|y: u32| digit_of(y, e) == g as int, i);
                input.lemma_filter_pred(|y: u32| digit_of(y, e) == g as int, j);
                let ki = choose|k: int| 0 <= k < input.len() && input[k] == bucket0[i];
                let kj = choose|k: int| 0 <= k < input.len() && input[k] == bucket0[j];
                lemma_same_high_digit(bucket0[i], bucket0[j], e, g as int, hsh);
            }
            if exp >= 10 {
                assert(is_pow10(e / 10));
                lemma_fundamental_div_mod(e, 10);
                assert(10 * (e / 10) == e);
            }
        }
        radix_sort_msd_recursive(&mut buckets[g], exp / 10);
        let ghost bucket1 = buckets@[g as int]@;
        proof {
            if exp < 10 {
                assert(bucket1 == bucket0);
                assert forall|a: int, b: int|
                    #![trigger bucket1[a], bucket1[b]]
                    0 <= a <= b < bucket1.len() implies bucket1[a] <= bucket1[b] by {
                    assert(bucket0[a] == bucket0[b]);
                }
            }
            let keep = |x: u32| digit_of(x, e) == g as int && x as int / (10 * e) == hsh;
            assert forall|k: int| 0 <= k < bucket0.len() implies #[trigger] keep(bucket0[k]) by {
                input.lemma_filter_pred(|y: u32| digit_of(y, e) == g as int, k);
                lemma_filter_element_of(input, |y: u32| digit_of(y, e) == g as int, k);
                let ki = choose|kk: int| 0 <= kk < input.len() && input[kk] == bucket0[k];
            }
            crate::perm::lemma_multiset_transfer(bucket0, bucket1, keep);
            assert forall|k: int|
                0 <= k < bucket1.len() implies digit_of(#[trigger] bucket1[k], e) == g as int
                && bucket1[k] as int / (10 * e) == hsh by {
                assert(keep(bucket1[k]));
            }
            broadcast use vstd::multiset::group_multiset_axioms;

            assert(bucket1.subrange(0, 0) =~= Seq::<u32>::empty());
            vstd::seq_lib::to_multiset_len(Seq::<u32>::empty());
            vstd::multiset::lemma_multiset_empty_len(Seq::<u32>::empty().to_multiset());
            assert(Seq::<u32>::empty().to_multiset() =~= Multiset::<u32>::empty());
            assert(msum(input, e, g as int).add(Multiset::<u32>::empty()) =~= msum(
                input,
                e,
                g as int,
            ));
        }
        let blen = buckets[g].len();
        let mut u: usize = 0;
        while u < blen
            invariant
                n == arr.len(),
                g < 10,
                u <= blen,
                e == exp as int >= 1,
                buckets@.len() == 10,
                input.len() == n,
                buckets@[g as int]@ == bucket1,
                blen == bucket1.len(),
                bucket1.to_multiset() == digit_filter(input, e, g as int).to_multiset(),
                msum(input, e, 10) == input.to_multiset(),
                hsh == input[0] as int / (10 * e),
                forall|gg: int|
                    g < gg < 10 ==> #[trigger] buckets@[gg]@ == digit_filter(input, e, gg),
                forall|a: int, b: int|
                    #![trigger bucket1[a], bucket1[b]]
                    0 <= a <= b < bucket1.len() ==> bucket1[a] <= bucket1[b],
                forall|k: int|
                    0 <= k < bucket1.len() ==> digit_of(#[trigger] bucket1[k], e) == g
                        && bucket1[k] as int / (10 * e) == hsh,
                idx as int == msum(input, e, g as int).len() + u,
                idx <= n,
                arr@.subrange(0, idx as int).to_multiset() == msum(input, e, g as int).add(
                    bucket1.subrange(0, u as int).to_multiset(),
                ),
                forall|a: int, b: int|
                    #![trigger arr@[a], arr@[b]]
                    0 <= a <= b < idx ==> arr@[a] <= arr@[b],
                forall|k: int|
                    0 <= k < idx - u ==> digit_of(#[trigger] arr@[k], e) < g && arr@[k] as int / (
                    10 * e) == hsh,
                forall|k: int|
                    idx - u <= k < idx ==> arr@[k] == bucket1[k - (idx - u)],
            decreases blen - u,
        {
            proof {
                broadcast use vstd::multiset::group_multiset_axioms;

                lemma_msum_len_mono(input, e, g as int + 1, 10);
                vstd::seq_lib::to_multiset_len(bucket1.subrange(0, u as int));
                assert(bucket1.subrange(0, u as int).len() == u);
                vstd::seq_lib::to_multiset_len(bucket1);
                vstd::seq_lib::to_multiset_len(input);
                assert(msum(input, e, g as int + 1) == msum(input, e, g as int).add(digit_filter(
                    input,
                    e,
                    g as int,
                ).to_multiset()));
                assert(bucket1.to_multiset().len() == blen);
                assert(idx < n);
            }
            let ghost pre = arr@;
            let x = buckets[g][u];
            arr[idx] = x;
            proof {
                assert(arr@.subrange(0, idx as int + 1) =~= pre.subrange(0, idx as int) + seq![x]);
                vstd::seq_lib::lemma_multiset_commutative(pre.subrange(0, idx as int), seq![x]);
                assert(bucket1.subrange(0, u as int + 1) =~= bucket1.subrange(0, u as int)
                    + seq![x]);
                vstd::seq_lib::lemma_multiset_commutative(bucket1.subrange(0, u as int), seq![x]);
                assert(arr@.subrange(0, idx as int + 1).to_multiset() =~= msum(
                    input,
                    e,
                    g as int,
                ).add(bucket1.subrange(0, u as int + 1).to_multiset()));
                assert forall|a: int, b: int|
                    #![trigger arr@[a], arr@[b]]
                    0 <= a <= b < idx + 1 implies arr@[a] <= arr@[b] by {
                    if b == idx && a < b {
                        assert(arr@[a] == pre[a]);
                        if a < idx - u {
                            lemma_digit_value_order(arr@[a], x, e, hsh);
                        } else {
                            assert(arr@[a] == bucket1[a - (idx - u)]);
                            assert(bucket1[a - (idx - u)] <= bucket1[u as int]);
                        }
                    }
                }
            }
            u += 1;
            idx += 1;
        }
        g += 1;
        proof {
            broadcast use vstd::multiset::group_multiset_axioms;

            assert(bucket1.subrange(0, blen as int) =~= bucket1);
            vstd::seq_lib::to_multiset_len(bucket1);
            assert(msum(input, e, g as int) == msum(input, e, g as int - 1).add(digit_filter(
                input,
                e,
                g as int - 1,
            ).to_multiset()));
            assert(arr@.subrange(0, idx as int).to_multiset() =~= msum(input, e, g as int));
        }
    }
    proof {
        assert(idx as int == msum(input, e, 10).len());
        vstd::seq_lib::to_multiset_len(input);
        assert(idx == n);
        assert(arr@.subrange(0, n as int) =~= arr@);
    }
}

/// The running per-digit multisets only grow with the digit bound.
proof fn lemma_msum_len_mono(s: Seq<u32>, e: int, a: int, b: int)
    requires
        0 <= a <= b,
    ensures
        msum(s, e, a).len() <= msum(s, e, b).len(),
    decreases b,
{
    broadcast use vstd::multiset::group_multiset_axioms;

    if a < b {
        lemma_msum_len_mono(s, e, a, b - 1);
    }
}

/// Two values with the same digits above place `e` and the same digit at
/// place `e` agree on everything above the sub-`e` remainder; and a smaller
/// digit at `e` forces a smaller value.
proof fn lemma_same_high_digit(x: u32, y: u32, e: int, g: int, h: int)
    requires
        e >= 1,
        x as int / (10 * e) == h,
        y as int / (10 * e) == h,
        digit_of(x, e) == g,
        digit_of(y, e) == g,
    ensures
        x as int / e == y as int / e,
        e == 1 ==> x == y,
{
    lemma_div_denominator(x as int, e, 10);
    lemma_div_denominator(y as int, e, 10);
    lemma_fundamental_div_mod(x as int / e, 10);
    lemma_fundamental_div_mod(y as int / e, 10);
    if e == 1 {
        lemma_fundamental_div_mod(x as int, 1);
        lemma_fundamental_div_mod(y as int, 1);
        lemma_small_mod(0, 1);
        assert(x as int % 1 == 0 && y as int % 1 == 0) by {
            vstd::arithmetic::div_mod::lemma_mod_bound(x as int, 1);
            vstd::arithmetic::div_mod::lemma_mod_bound(y as int, 1);
        }
    }
}

/// With equal digits above place `e`, a strictly smaller digit at `e` means
/// a strictly smaller value.
proof fn lemma_digit_value_order(x: u32, y: u32, e: int, h: int)
    requires
        e >= 1,
        x as int / (10 * e) == h,
        y as int / (10 * e) == h,
        digit_of(x, e) < digit_of(y, e),
    ensures
        x < y,
{
    lemma_mod_breakdown(x as int, e, 10);
    lemma_mod_breakdown(y as int, e, 10);
    lemma_fundamental_div_mod(x as int, 10 * e);
    lemma_fundamental_div_mod(y as int, 10 * e);
    vstd::arithmetic::div_mod::lemma_mod_bound(x as int, 10 * e);
    vstd::arithmetic::div_mod::lemma_mod_bound(y as int, 10 * e);
    vstd::arithmetic::div_mod::lemma_mod_bound(x as int, e);
    vstd::arithmetic::div_mod::lemma_mod_bound(y as int, e);
    let dx = digit_of(x, e);
    let dy = digit_of(y, e);
    assert(e * dx + x as int % e < e * dy + y as int % e) by (nonlinear_arith)
        requires
            e >= 1,
            dx < dy,
            0 <= x as int % e < e,
            0 <= y as int % e,
    ;
}

/// Most-significant-digit radix sort: finds the highest decimal place of
/// the maximum and recursively buckets from that place downward.
pub fn radix_sort_msd(arr: &mut Vec<u32>)
    ensures
        sorted_u32(final(arr)@),
        final(arr)@.to_multiset() == old(arr)@.to_multiset(),
        final(arr)@.len() == old(arr)@.len(),
{
    let n = arr.len();
    if n <= 1 {
        return ;
    }
    let mut max_val: u32 = arr[0];
    let mut t: usize = 1;
    while t < n
        invariant
            n == arr.len(),
            arr@ == old(arr)@,
            1 <= t <= n,
            forall|k: int| 0 <= k < t ==> arr@[k] <= max_val,
        decreases n - t,
    {
        if arr[t] > max_val {
            max_val = arr[t];
        }
        t += 1;
    }
    let max_exp = get_max_exp(max_val);
    proof {
        assert forall|i: int, j: int|
            0 <= i < n && 0 <= j < n implies arr@[i] as int / (10 * max_exp as int) == arr@[j] as int
            / (10 * max_exp as int) by {
            vstd::arithmetic::div_mod::lemma_basic_div(arr@[i] as int, 10 * max_exp as int);
            vstd::arithmetic::div_mod::lemma_basic_div(arr@[j] as int, 10 * max_exp as int);
        }
    }
    radix_sort_msd_recursive(arr, max_exp);
}

} // verus!
