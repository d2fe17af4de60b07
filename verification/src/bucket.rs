//! Bucket sort for integers: spread the values over one bucket per element
//! in proportion to their position between the minimum and the maximum, sort
//! each bucket with an insertion sort, and concatenate the buckets.

use vstd::prelude::*;
use vstd::multiset::Multiset;
use crate::perm::{sorted_i32, lemma_swap_multiset, lemma_multiset_transfer};
use vstd::arithmetic::mul::lemma_mul_inequality;
use vstd::arithmetic::div_mod::{
    lemma_div_is_ordered,
    lemma_div_multiples_vanish,
    lemma_div_pos_is_pos,
};

verus! {

/// The bucket that value `x` lands in: its offset above the minimum, scaled
/// by the last bucket index over the full value range, truncated.
pub open spec fn bucket_index(x: i32, minv: int, rng: int, m: int) -> int {
    (x - minv) * m / rng
}

/// A value between the minimum and the maximum lands inside the bucket
/// table.
proof fn lemma_bucket_index_bounds(x: i32, minv: int, rng: int, m: int)
    requires
        rng >= 1,
        m >= 0,
        minv <= x,
        x - minv <= rng,
    ensures
        0 <= bucket_index(x, minv, rng, m) <= m,
{
    lemma_div_pos_is_pos((x - minv) * m, rng);
    lemma_mul_inequality(x - minv, rng, m);
    assert((x - minv) * m >= 0) by (nonlinear_arith)
        requires
            x - minv >= 0,
            m >= 0,
    ;
    lemma_div_is_ordered((x - minv) * m, rng * m, rng);
    lemma_div_multiples_vanish(m, rng);
}

/// Bucket placement is monotone: a smaller value never lands in a later
/// bucket.
proof fn lemma_bucket_index_mono(x: i32, y: i32, minv: int, rng: int, m: int)
    requires
        rng >= 1,
        m >= 0,
        x <= y,
    ensures
        bucket_index(x, minv, rng, m) <= bucket_index(y, minv, rng, m),
{
    lemma_mul_inequality(x - minv, y - minv, m);
    lemma_div_is_ordered((x - minv) * m, (y - minv) * m, rng);
}

/// The elements of the first `j` buckets, as one multiset.
spec fn buckets_ms(bs: Seq<Vec<i32>>, j: int) -> Multiset<i32>
    decreases j,
{
    if j <= 0 {
        Multiset::empty()
    } else {
        buckets_ms(bs, j - 1).add(bs[j - 1]@.to_multiset())
    }
}

/// Pushing into one bucket inserts into the combined multiset.
proof fn lemma_buckets_ms_push(bs: Seq<Vec<i32>>, g: int, x: i32, j: int, nb: Seq<Vec<i32>>)
    requires
        0 <= g < bs.len(),
        nb.len() == bs.len(),
        nb[g]@ == bs[g]@.push(x),
        forall|b: int| 0 <= b < bs.len() && b != g ==> nb[b]@ == #[trigger] bs[b]@,
        j <= bs.len(),
    ensures
        buckets_ms(nb, j) =~= if g < j {
            buckets_ms(bs, j).insert(x)
        } else {
            buckets_ms(bs, j)
        },
    decreases j,
{
    broadcast use vstd::multiset::group_multiset_axioms;
    broadcast use vstd::seq_lib::group_to_multiset_ensures;

    if j > 0 {
        lemma_buckets_ms_push(bs, g, x, j - 1, nb);
    }
}

/// Combined bucket multisets only grow with the bucket bound.
proof fn lemma_buckets_ms_mono(bs: Seq<Vec<i32>>, a: int, b: int)
    requires
        0 <= a <= b,
    ensures
        buckets_ms(bs, a).len() <= buckets_ms(bs, b).len(),
    decreases b,
{
    broadcast use vstd::multiset::group_multiset_axioms;

    if a < b {
        lemma_buckets_ms_mono(bs, a, b - 1);
    }
}

/// Insertion sort used inside the buckets, where runs are short: holds the
/// element being inserted aside and shifts greater elements right.  Stable.
pub fn insertion_sort(arr: &mut Vec<i32>)
    ensures
        sorted_i32(final(arr)@),
        final(arr)@.to_multiset() == old(arr)@.to_multiset(),
        final(arr)@.len() == old(arr)@.len(),
{
    let n = arr.len();
    if n <= 1 {
        return ;
    }
    let mut i: usize = 1;
    while i < n
        invariant
            n == arr.len(),
            1 <= i <= n,
            arr@.to_multiset() == old(arr)@.to_multiset(),
            forall|a: int, b: int|
                #![trigger arr@[a], arr@[b]]
                0 <= a <= b < i ==> arr@[a] <= arr@[b],
        decreases n - i,
    {
        let key = arr[i];
        let ghost s0 = arr@;
        proof {
            assert(arr@.update(i as int, key) =~= arr@);
        }
        let mut j: usize = i;
        while j > 0 && arr[j - 1] > key
            invariant
                n == arr.len(),
                j <= i < n,
                key == s0[i as int],
                arr@.update(j as int, key).to_multiset() == s0.to_multiset(),
                forall|m: int| j < m <= i ==> #[trigger] arr@[m] > key,
                forall|a: int, b: int|
                    #![trigger arr@[a], arr@[b]]
                    0 <= a <= b <= i && a != j && b != j ==> arr@[a] <= arr@[b],
            decreases j,
        {
            proof {
                let u = arr@.update(j as int, key);
                lemma_swap_multiset(u, j as int - 1, j as int);
                assert(arr@.update(j as int, arr@[j as int - 1]).update(j as int - 1, key)
                    =~= u.update(j as int - 1, u[j as int]).update(j as int, u[j as int - 1]));
            }
            let shifted = arr[j - 1];
            arr[j] = shifted;
            j -= 1;
        }
        arr[j] = key;
        proof {
            assert forall|a: int, b: int|
                #![trigger arr@[a], arr@[b]]
                0 <= a <= b <= i implies arr@[a] <= arr@[b] by {}
        }
        i += 1;
    }
}

/// Bucket sort for integer keys: one bucket per element, each value mapped
/// in proportion to its position between the minimum and the maximum; the
/// buckets are insertion-sorted and concatenated in order.  A constant
/// sequence short-circuits before the range could divide by zero.
#[verifier::rlimit(50)]
pub fn bucket_sort_int(arr: &mut Vec<i32>)
    ensures
        sorted_i32(final(arr)@),
        final(arr)@.to_multiset() == old(arr)@.to_multiset(),
        final(arr)@.len() == old(arr)@.len(),
{
    broadcast use vstd::seq_lib::group_to_multiset_ensures;
    broadcast use vstd::multiset::group_multiset_axioms;

    let n = arr.len();
    if n <= 1 {
        return ;
    }
    let ghost input = arr@;
    let mut min_val: i32 = arr[0];
    let mut max_val: i32 = arr[0];
    let mut t: usize = 1;
    while t < n
        invariant
            n == arr.len(),
            arr@ == input,
            1 <= t <= n,
            min_val <= max_val,
            forall|k: int| 0 <= k < t ==> min_val <= arr@[k] && arr@[k] <= max_val,
        decreases n - t,
    {
        if arr[t] < min_val {
            min_val = arr[t];
        }
        if arr[t] > max_val {
            max_val = arr[t];
        }
        t += 1;
    }
    if min_val == max_val {
        return ;
    }
    let ghost minv = min_val as int;
    let bucket_count = n;
    let range = max_val as i64 - min_val as i64;
    let ghost rng = range as int;
    let ghost m = bucket_count - 1 as int;
    let mut buckets: Vec<Vec<i32>> = Vec::new();
    let mut d: usize = 0;
    while d < bucket_count
        invariant
            buckets@.len() == d <= bucket_count,
            forall|b: int| 0 <= b < d ==> #[trigger] buckets@[b]@ == Seq::<i32>::empty(),
        decreases bucket_count - d,
    {
        buckets.push(Vec::new());
        d += 1;
    }
    proof {
        lemma_buckets_ms_empty(buckets@, n as int);
        vstd::seq_lib::to_multiset_len(Seq::<i32>::empty());
        vstd::multiset::lemma_multiset_empty_len(Seq::<i32>::empty().to_multiset());
        assert(input.subrange(0, 0) =~= Seq::<i32>::empty());
    }
    let mut t: usize = 0;
    while t < n
        invariant
            n == arr.len(),
            arr@ == input,
            t <= n,
            buckets@.len() == n == bucket_count,
            minv == min_val as int,
            rng == range as int == max_val as int - minv >= 1,
            m == n - 1,
            forall|k: int| 0 <= k < n ==> minv <= input[k] && input[k] <= max_val,
            forall|b: int, k: int|
                0 <= b < n && 0 <= k < buckets@[b]@.len() ==> bucket_index(
                    #[trigger] buckets@[b]@[k],
                    minv,
                    rng,
                    m,
                ) == b && minv <= buckets@[b]@[k] <= max_val,
            buckets_ms(buckets@, n as int) == input.subrange(0, t as int).to_multiset(),
        decreases n - t,
    {
        let x = arr[t];
        proof {
            assert(min_val <= x && x <= max_val);
        }
        let diff = (x as i64 - min_val as i64) as u128;
        let scale = (bucket_count - 1) as u128;
        proof {
            assert(diff as int * scale as int <= 0x1_0000_0000 * 0xffff_ffff_ffff_ffffu128 as int)
                by (nonlinear_arith)
                requires
                    0 <= diff as int <= 0x1_0000_0000,
                    0 <= scale as int <= 0xffff_ffff_ffff_ffffu128 as int,
            ;
        }
        let g = ((diff * scale / (range as u128)) as usize);
        proof {
            lemma_bucket_index_bounds(x, minv, rng, m);
            assert(g as int == bucket_index(x, minv, rng, m));
        }
        let ghost bpre = buckets@;
        buckets[g].push(x);
        t += 1;
        proof {
            lemma_buckets_ms_push(bpre, g as int, x, n as int, buckets@);
            let prev = input.subrange(0, t as int - 1);
            let curs = input.subrange(0, t as int);
            assert(curs =~= prev.push(x));
            vstd::seq_lib::to_multiset_build(prev, x);
        }
    }
    proof {
        assert(input.subrange(0, n as int) =~= input);
    }
    let ghost b0 = buckets@;
    let mut idx: usize = 0;
    let mut g: usize = 0;
    while g < bucket_count
        invariant
            n == arr.len(),
            g <= n == bucket_count,
            buckets@.len() == n,
            input.len() == n,
            minv == min_val as int,
            rng >= 1,
            m == n - 1,
            buckets_ms(b0, n as int) == input.to_multiset(),
            forall|b: int| g <= b < n ==> #[trigger] buckets@[b]@ == b0[b]@,
            forall|b: int, k: int|
                0 <= b < n && 0 <= k < b0[b]@.len() ==> bucket_index(
                    #[trigger] b0[b]@[k],
                    minv,
                    rng,
                    m,
                ) == b && minv <= b0[b]@[k] <= max_val,
            idx as int == buckets_ms(b0, g as int).len(),
            idx <= n,
            arr@.subrange(0, idx as int).to_multiset() == buckets_ms(b0, g as int),
            forall|a: int, b: int|
                #![trigger arr@[a], arr@[b]]
                0 <= a <= b < idx ==> arr@[a] <= arr@[b],
            forall|k: int|
                0 <= k < idx ==> bucket_index(#[trigger] arr@[k], minv, rng, m) < g,
        decreases n - g,
    {
        let ghost bucket0 = buckets@[g as int]@;
        insertion_sort(&mut buckets[g]);
        let ghost bucket1 = buckets@[g as int]@;
        proof {
            let keep = |x: i32| bucket_index(x, minv, rng, m) == g as int && minv <= x <= max_val;
            assert forall|k: int| 0 <= k < bucket0.len() implies #[trigger] keep(bucket0[k]) by {}
            lemma_multiset_transfer(bucket0, bucket1, keep);
            assert forall|k: int|
                0 <= k < bucket1.len() implies bucket_index(#[trigger] bucket1[k], minv, rng, m)
                == g as int by {
                assert(keep(bucket1[k]));
            }
            assert(bucket1.subrange(0, 0) =~= Seq::<i32>::empty());
            vstd::seq_lib::to_multiset_len(Seq::<i32>::empty());
            vstd::multiset::lemma_multiset_empty_len(Seq::<i32>::empty().to_multiset());
            assert(buckets_ms(b0, g as int).add(Multiset::<i32>::empty()) =~= buckets_ms(
                b0,
                g as int,
            ));
        }
        let blen = buckets[g].len();
        let mut u: usize = 0;
        while u < blen
            invariant
                n == arr.len(),
                g < n,
                u <= blen,
                buckets@.len() == n,
                input.len() == n,
                minv == min_val as int,
                rng >= 1,
                m == n - 1,
                buckets@[g as int]@ == bucket1,
                blen == bucket1.len(),
                bucket1.to_multiset() == b0[g as int]@.to_multiset(),
                buckets_ms(b0, n as int) == input.to_multiset(),
                forall|b: int| g < b < n ==> #[trigger] buckets@[b]@ == b0[b]@,
                forall|b: int, k: int|
                    0 <= b < n && 0 <= k < b0[b]@.len() ==> bucket_index(
                        #[trigger] b0[b]@[k],
                        minv,
                        rng,
                        m,
                    ) == b && minv <= b0[b]@[k] <= max_val,
                forall|a: int, b: int|
                    #![trigger bucket1[a], bucket1[b]]
                    0 <= a <= b < bucket1.len() ==> bucket1[a] <= bucket1[b],
                forall|k: int|
                    0 <= k < bucket1.len() ==> bucket_index(#[trigger] bucket1[k], minv, rng, m)
                        == g,
                idx as int == buckets_ms(b0, g as int).len() + u,
                idx <= n,
                arr@.subrange(0, idx as int).to_multiset() == buckets_ms(b0, g as int).add(
                    bucket1.subrange(0, u as int).to_multiset(),
                ),
                forall|a: int, b: int|
                    #![trigger arr@[a], arr@[b]]
                    0 <= a <= b < idx ==> arr@[a] <= arr@[b],
                forall|k: int|
                    0 <= k < idx - u ==> bucket_index(#[trigger] arr@[k], minv, rng, m) < g,
                forall|k: int|
                    idx - u <= k < idx ==> arr@[k] == bucket1[k - (idx - u)],
            decreases blen - u,
        {
            proof {
                broadcast use vstd::multiset::group_multiset_axioms;

                lemma_buckets_ms_mono(b0, g as int + 1, n as int);
                vstd::seq_lib::to_multiset_len(bucket1.subrange(0, u as int));
                vstd::seq_lib::to_multiset_len(bucket1);
                vstd::seq_lib::to_multiset_len(input);
                assert(buckets_ms(b0, g as int + 1) == buckets_ms(b0, g as int).add(
                    b0[g as int]@.to_multiset(),
                ));
                assert(idx < n);
            }
            let ghost pre = arr@;
            let x = buckets[g][u];
            arr[idx] = x;
            proof {
                assert(arr@.subrange(0, idx as int + 1) =~= pre.subrange(0, idx as int) + seq![x]);
                vstd::seq_lib::lemma_multiset_commutative(pre.subrange(0, idx as int), seq![x]);
                assert(bucket1.subrange(0, u as int + 1) =~= bucket1.subrange(0, u as int)
                    + seq![x]);
                vstd::seq_lib::lemma_multiset_commutative(bucket1.subrange(0, u as int), seq![x]);
                assert(arr@.subrange(0, idx as int + 1).to_multiset() =~= buckets_ms(
                    b0,
                    g as int,
                ).add(bucket1.subrange(0, u as int + 1).to_multiset()));
                assert forall|a: int, b: int|
                    #![trigger arr@[a], arr@[b]]
                    0 <= a <= b < idx + 1 implies arr@[a] <= arr@[b] by {
                    if b == idx && a < b {
                        assert(arr@[a] == pre[a]);
                        if a < idx - u {
                            if arr@[a] > x {
                                lemma_bucket_index_mono(x, arr@[a], minv, rng, m);
                                assert(false);
                            }
                        } else {
                            assert(arr@[a] == bucket1[a - (idx - u)]);
                            assert(bucket1[a - (idx - u)] <= bucket1[u as int]);
                        }
                    }
                }
            }
            u += 1;
            idx += 1;
        }
        g += 1;
        proof {
            broadcast use vstd::multiset::group_multiset_axioms;

            assert(bucket1.subrange(0, blen as int) =~= bucket1);
            vstd::seq_lib::to_multiset_len(bucket1);
            assert(buckets_ms(b0, g as int) == buckets_ms(b0, g as int - 1).add(
                b0[g as int - 1]@.to_multiset(),
            ));
            assert(arr@.subrange(0, idx as int).to_multiset() =~= buckets_ms(b0, g as int));
        }
    }
    proof {
        vstd::seq_lib::to_multiset_len(input);
        assert(idx == n);
        assert(arr@.subrange(0, n as int) =~= arr@);
    }
}

/// A table of empty buckets holds nothing.
proof fn lemma_buckets_ms_empty(bs: Seq<Vec<i32>>, j: int)
    requires
        j <= bs.len(),
        forall|b: int| 0 <= b < bs.len() ==> #[trigger] bs[b]@ == Seq::<i32>::empty(),
    ensures
        buckets_ms(bs, j) =~= Multiset::empty(),
    decreases j,
{
    broadcast use vstd::multiset::group_multiset_axioms;
    broadcast use vstd::seq_lib::group_to_multiset_ensures;

    if j > 0 {
        lemma_buckets_ms_empty(bs, j - 1);
        vstd::seq_lib::to_multiset_len(Seq::<i32>::empty());
        vstd::multiset::lemma_multiset_empty_len(Seq::<i32>::empty().to_multiset());
    }
}

} // verus!
