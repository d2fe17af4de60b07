//! Heap sort: build a binary max-heap in place, then repeatedly swap the
//! root (the maximum) behind the shrinking heap.  The sift-down step comes
//! in a recursive and an iterative (stack-safe) form with the same contract.

use vstd::prelude::*;
use crate::perm::{
    sorted,
    sorted_range,
    lemma_inner_patch_multiset,
    lemma_patch_multiset,
    lemma_multiset_range_transfer,
    swap_at,
    swap_in_range,
};

verus! {

/// Every heap edge whose parent position is at least `lo` is ordered:
/// the parent holds a value at least its child's, over positions below
/// `size`.
pub open spec fn heap_edges_from(s: Seq<i64>, size: int, lo: int) -> bool {
    forall|c: int| 0 < c < size && (c - 1) / 2 >= lo ==> s[(c - 1) / 2] >= #[trigger] s[c]
}

/// Every heap edge whose parent lies in the subtree of `lo` is ordered:
/// this is all the heap structure a sift-down at `lo` leaves behind.
pub open spec fn subtree_edges(s: Seq<i64>, size: int, lo: int) -> bool {
    forall|c: int|
        0 < c < size && in_subtree(lo, (c - 1) / 2) ==> s[(c - 1) / 2] >= #[trigger] s[c]
}

/// As `subtree_edges`, except that the edges out of `lo` itself need not be
/// ordered yet: this is all the heap structure a sift-down at `lo` relies
/// on.
pub open spec fn subtree_edges_except_root(s: Seq<i64>, size: int, lo: int) -> bool {
    forall|c: int|
        0 < c < size && in_subtree(lo, (c - 1) / 2) && (c - 1) / 2 != lo ==> s[(c - 1) / 2]
            >= #[trigger] s[c]
}

/// Between `pre` and `post`, only positions inside the subtree of `r` and
/// below `size` may differ.
pub open spec fn unchanged_outside_subtree(pre: Seq<i64>, post: Seq<i64>, size: int, r: int) -> bool {
    forall|k: int| 0 <= k < pre.len() && !(in_subtree(r, k) && k < size) ==> post[k] == pre[k]
}

/// The first `size` positions of `s` form a max-heap.
pub open spec fn is_heap(s: Seq<i64>, size: int) -> bool {
    heap_edges_from(s, size, 0)
}

/// The outcome of one complete sift-down at `root` over the first `size`
/// positions: repeatedly exchange the current node with its largest strictly
/// greater child.  Both sift-down forms return exactly this sequence, which
/// is what makes their behaviour identical call by call.
#[verifier::opaque]
pub open spec fn sift_down(s: Seq<i64>, size: int, root: int) -> Seq<i64>
    decreases size - root,
{
    if root < 0 || root >= size {
        s
    } else {
        let left = 2 * root + 1;
        let right = 2 * root + 2;
        let l_big = if left < size && s[left] > s[root] {
            left
        } else {
            root
        };
        let big = if right < size && s[right] > s[l_big] {
            right
        } else {
            l_big
        };
        if big == root {
            s
        } else {
            sift_down(s.update(root, s[big]).update(big, s[root]), size, big)
        }
    }
}

/// One unfolding of the sift-down recurrence.
proof fn lemma_sift_down_unfold(s: Seq<i64>, size: int, root: int)
    requires
        0 <= root < size,
    ensures
        ({
            let left = 2 * root + 1;
            let right = 2 * root + 2;
            let l_big = if left < size && s[left] > s[root] {
                left
            } else {
                root
            };
            let big = if right < size && s[right] > s[l_big] {
                right
            } else {
                l_big
            };
            sift_down(s, size, root) == if big == root {
                s
            } else {
                sift_down(s.update(root, s[big]).update(big, s[root]), size, big)
            }
        }),
{
    reveal(sift_down);
}

/// A node no smaller than its children is already sifted down: the heap
/// property holds throughout its subtree and the sift-down leaves the
/// sequence unchanged.
proof fn lemma_sift_down_base(s: Seq<i64>, size: int, root: int)
    requires
        0 <= root < size <= s.len(),
        subtree_edges_except_root(s, size, root),
        2 * root + 1 < size ==> s[2 * root + 1] <= s[root],
        2 * root + 2 < size ==> s[2 * root + 2] <= s[root],
    ensures
        subtree_edges(s, size, root),
        sift_down(s, size, root) == s,
{
    reveal(sift_down);
    assert forall|c: int|
        0 < c < size && in_subtree(root, (c - 1) / 2) implies s[(c - 1) / 2] >= #[trigger] s[c] by {
        let p = (c - 1) / 2;
        if p == root {
            assert(c == 2 * root + 1 || c == 2 * root + 2);
        }
    }
}

/// Position `k` lies in the subtree rooted at position `r` of the implicit
/// binary-heap layout.
#[verifier::opaque]
pub open spec fn in_subtree(r: int, k: int) -> bool
    decreases k,
{
    if k == r {
        true
    } else if k <= r || k <= 0 {
        false
    } else {
        in_subtree(r, (k - 1) / 2)
    }
}

/// Every position is in its own subtree.
proof fn lemma_subtree_self(r: int)
    ensures
        in_subtree(r, r),
{
    reveal(in_subtree);
}

/// Every position lies in the subtree of the heap's root.
proof fn lemma_subtree_zero(k: int)
    requires
        k >= 0,
    ensures
        in_subtree(0, k),
    decreases k,
{
    reveal(in_subtree);
    if k > 0 {
        lemma_subtree_zero((k - 1) / 2);
    }
}

/// A direct child lies in its parent's subtree.
proof fn lemma_subtree_child(r: int, c: int)
    requires
        r >= 0,
        c == 2 * r + 1 || c == 2 * r + 2,
    ensures
        in_subtree(r, c),
{
    reveal(in_subtree);
    assert((c - 1) / 2 == r);
    assert(in_subtree(r, r));
}

/// A position in the subtree of `r`, other than `r` itself, follows `r` and
/// its parent is in the subtree as well.
proof fn lemma_subtree_parent(r: int, k: int)
    requires
        in_subtree(r, k),
        k != r,
    ensures
        k > r,
        k > 0,
        in_subtree(r, (k - 1) / 2),
{
    reveal(in_subtree);
}

/// The subtree of `r` holds exactly `r` and the children of its members.
proof fn lemma_subtree_step(r: int, c: int)
    requires
        c > r,
        c > 0,
        in_subtree(r, (c - 1) / 2),
    ensures
        in_subtree(r, c),
{
    reveal(in_subtree);
}

/// Positions of the subtree rooted at `r` do not precede `r`.
proof fn lemma_subtree_ge(r: int, k: int)
    requires
        in_subtree(r, k),
    ensures
        k >= r,
    decreases k,
{
    reveal(in_subtree);
    if k != r && k > 0 && k > r {
        lemma_subtree_ge(r, (k - 1) / 2);
    }
}

/// Subtree containment is transitive.
proof fn lemma_subtree_trans(a: int, b: int, k: int)
    requires
        in_subtree(a, b),
        in_subtree(b, k),
    ensures
        in_subtree(a, k),
    decreases k,
{
    reveal(in_subtree);
    if k != b {
        lemma_subtree_trans(a, b, (k - 1) / 2);
    }
}

/// In a max-heap the root holds a maximal value.
proof fn lemma_heap_root_max(s: Seq<i64>, size: int, k: int)
    requires
        is_heap(s, size),
        0 <= k < size <= s.len(),
    ensures
        s[k] <= s[0],
    decreases k,
{
    if k > 0 {
        assert(s[(k - 1) / 2] >= s[k]);
        lemma_heap_root_max(s, size, (k - 1) / 2);
    }
}

/// After swapping `root` with its strictly larger child `largest`, every
/// edge whose parent lies beyond `largest` is still ordered.
proof fn lemma_swap_keeps_deeper_edges(s0: Seq<i64>, s1: Seq<i64>, size: int, root: int, largest: int)
    requires
        0 <= root < largest < size <= s0.len(),
        s0.len() == s1.len(),
        largest == 2 * root + 1 || largest == 2 * root + 2,
        subtree_edges_except_root(s0, size, root),
        s1 == s0.update(root, s0[largest]).update(largest, s0[root]),
    ensures
        subtree_edges_except_root(s1, size, largest),
{
    lemma_subtree_child(root, largest);
    assert forall|c: int|
        0 < c < size && in_subtree(largest, (c - 1) / 2) && (c - 1) / 2 != largest implies s1[(c
        - 1) / 2] >= #[trigger] s1[c] by {
        let p = (c - 1) / 2;
        lemma_subtree_ge(largest, p);
        lemma_subtree_trans(root, largest, p);
        assert(c >= 2 * p + 1);
        assert(s1[p] == s0[p] && s1[c] == s0[c]);
        assert(s0[p] >= s0[c]);
    }
}

/// Joins one sift-down step with the recursive result on the larger child:
/// `s0` is the state at entry, `s1` the state after swapping `root` with its
/// strictly larger child `largest`, and `s2` the state the recursive call on
/// `largest` produced.
proof fn lemma_heapify_join(s0: Seq<i64>, s1: Seq<i64>, s2: Seq<i64>, size: int, root: int, largest: int)
    requires
        0 <= root < size <= s0.len(),
        s0.len() == s1.len(),
        s1.len() == s2.len(),
        root < largest < size,
        largest == 2 * root + 1 || largest == 2 * root + 2,
        subtree_edges_except_root(s0, size, root),
        s0[largest] >= s0[root],
        2 * root + 1 < size ==> s0[largest] >= s0[2 * root + 1],
        2 * root + 2 < size ==> s0[largest] >= s0[2 * root + 2],
        s1 == s0.update(root, s0[largest]).update(largest, s0[root]),
        unchanged_outside_subtree(s1, s2, size, largest),
        s2.subrange(largest, size).to_multiset() == s1.subrange(largest, size).to_multiset(),
        subtree_edges(s2, size, largest),
        s2[largest] == s1[largest] || (2 * largest + 1 < size && s2[largest] == s1[2 * largest
            + 1]) || (2 * largest + 2 < size && s2[largest] == s1[2 * largest + 2]),
    ensures
        subtree_edges(s2, size, root),
        unchanged_outside_subtree(s0, s2, size, root),
        forall|k: int| 0 <= k < s1.len() && !(largest <= k < size) ==> s1[k] == s2[k],
        s2.subrange(root, size).to_multiset() == s1.subrange(root, size).to_multiset(),
        s2[root] == s0[largest],
{
    assert forall|k: int| 0 <= k < s1.len() && !(largest <= k < size) implies s1[k] == s2[k] by {
        if in_subtree(largest, k) {
            lemma_subtree_ge(largest, k);
        }
    }
    lemma_inner_patch_multiset(s1, s2, root, size, largest, size);
    lemma_subtree_self(root);
    lemma_subtree_self(largest);
    lemma_subtree_child(root, largest);
    assert(s2[root] == s1[root]) by {
        if in_subtree(largest, root) {
            lemma_subtree_ge(largest, root);
        }
    }
    assert forall|k: int|
        0 <= k < s0.len() && !(in_subtree(root, k) && k < size) implies s2[k] == s0[k] by {
        assert(k != root && k != largest);
        assert(s1[k] == s0[k]);
        if in_subtree(largest, k) && k < size {
            lemma_subtree_trans(root, largest, k);
            assert(false);
        }
        assert(s2[k] == s1[k]);
    }
    assert forall|c: int| 0 < c < size && in_subtree(root, (c - 1) / 2) implies s2[(c - 1) / 2]
        >= #[trigger] s2[c] by {
        let p = (c - 1) / 2;
        lemma_subtree_ge(root, p);
        assert(c >= 2 * p + 1);
        if c == largest {
            assert(p == root);
            assert(s1[p] == s0[largest]);
            assert(s1[c] == s0[root]);
            assert(2 * largest + 1 < size ==> s1[2 * largest + 1] == s0[2 * largest + 1] && s0[2
                * largest + 1] <= s0[largest]);
            assert(2 * largest + 2 < size ==> s1[2 * largest + 2] == s0[2 * largest + 2] && s0[2
                * largest + 2] <= s0[largest]);
        } else if in_subtree(largest, c) {
            lemma_subtree_parent(largest, c);
            lemma_subtree_ge(largest, (c - 1) / 2);
        } else {
            if in_subtree(largest, p) && p < size {
                lemma_subtree_ge(largest, p);
                lemma_subtree_step(largest, c);
                assert(false);
            }
            assert(s2[c] == s1[c]);
            assert(s2[p] == s1[p]);
            if p == root {
                assert(s1[p] == s0[largest]);
                assert(s1[c] == s0[c]);
            } else {
                assert(s1[p] == s0[p] && s1[c] == s0[c]);
                assert(s0[p] >= s0[c]);
            }
        }
    }
}

/// Recursive sift-down: restores the heap property at `root`, relying on
/// nothing but the order of the edges strictly inside `root`'s subtree.
/// Touches only the subtree of `root` below `heap_size`, and the value left
/// at `root` is one of the three values that stood at `root` and its
/// children.
#[verifier::rlimit(100)]
#[verifier::spinoff_prover]
pub fn heapify(v: &mut Vec<i64>, heap_size: usize, root: usize)
    requires
        root < heap_size <= old(v).len(),
        subtree_edges_except_root(old(v)@, heap_size as int, root as int),
    ensures
        final(v)@.len() == old(v)@.len(),
        unchanged_outside_subtree(old(v)@, final(v)@, heap_size as int, root as int),
        final(v)@.subrange(root as int, heap_size as int).to_multiset() == old(v)@.subrange(
            root as int,
            heap_size as int,
        ).to_multiset(),
        subtree_edges(final(v)@, heap_size as int, root as int),
        final(v)@ == sift_down(old(v)@, heap_size as int, root as int),
        final(v)@[root as int] == old(v)@[root as int] || (2 * root + 1 < heap_size
            && final(v)@[root as int] == old(v)@[2 * root + 1]) || (2 * root + 2 < heap_size
            && final(v)@[root as int] == old(v)@[2 * root + 2]),
    decreases heap_size - root,
{
    let mut largest = root;
    if root < heap_size / 2 {
        let left = 2 * root + 1;
        if left < heap_size && v[left] > v[largest] {
            largest = left;
        }
        let right = left + 1;
        if right < heap_size && v[right] > v[largest] {
            largest = right;
        }
    }
    if largest != root {
        let ghost s0 = v@;
        swap_in_range(v, root, heap_size, root, largest);
        let ghost s1 = v@;
        proof {
            assert(s1 =~= s0.update(root as int, s0[largest as int]).update(
                largest as int,
                s0[root as int],
            ));
            lemma_swap_keeps_deeper_edges(
                s0,
                s1,
                heap_size as int,
                root as int,
                largest as int,
            );
        }
        heapify(v, heap_size, largest);
        proof {
            lemma_heapify_join(
                s0,
                s1,
                v@,
                heap_size as int,
                root as int,
                largest as int,
            );
            lemma_sift_down_unfold(s0, heap_size as int, root as int);
            assert(v@ == sift_down(s0, heap_size as int, root as int));
        }
    } else {
        proof {
            lemma_sift_down_base(v@, heap_size as int, root as int);
        }
    }
}

/// Iterative sift-down, with the same contract as the recursive `heapify`
/// but bounded stack use.
pub fn heapify_iterative(v: &mut Vec<i64>, heap_size: usize, root: usize)
    requires
        root < heap_size <= old(v).len(),
        subtree_edges_except_root(old(v)@, heap_size as int, root as int),
    ensures
        final(v)@.len() == old(v)@.len(),
        unchanged_outside_subtree(old(v)@, final(v)@, heap_size as int, root as int),
        final(v)@.subrange(root as int, heap_size as int).to_multiset() == old(v)@.subrange(
            root as int,
            heap_size as int,
        ).to_multiset(),
        subtree_edges(final(v)@, heap_size as int, root as int),
        final(v)@ == sift_down(old(v)@, heap_size as int, root as int),
        final(v)@[root as int] == old(v)@[root as int] || (2 * root + 1 < heap_size
            && final(v)@[root as int] == old(v)@[2 * root + 1]) || (2 * root + 2 < heap_size
            && final(v)@[root as int] == old(v)@[2 * root + 2]),
{
    let ghost s0 = old(v)@;
    proof {
        lemma_subtree_self(root as int);
    }
    let mut cur = root;
    loop
        invariant
            root <= cur < heap_size <= v@.len(),
            v@.len() == s0.len(),
            in_subtree(root as int, cur as int),
            cur == root ==> v@ == s0,
            sift_down(s0, heap_size as int, root as int) == sift_down(
                v@,
                heap_size as int,
                cur as int,
            ),
            forall|c: int|
                0 < c < heap_size && in_subtree(root as int, (c - 1) / 2) && (c - 1) / 2 != cur
                    ==> v@[(c - 1) / 2] >= #[trigger] v@[c],
            cur != root ==> forall|c: int|
                cur < c < heap_size && (c - 1) / 2 == cur ==> v@[(cur as int - 1) / 2]
                    >= #[trigger] v@[c],
            v@[root as int] == s0[root as int] || (2 * root + 1 < heap_size && v@[root as int]
                == s0[2 * root + 1]) || (2 * root + 2 < heap_size && v@[root as int] == s0[2 * root
                + 2]),
            unchanged_outside_subtree(s0, v@, heap_size as int, root as int),
            v@.subrange(root as int, heap_size as int).to_multiset() == s0.subrange(
                root as int,
                heap_size as int,
            ).to_multiset(),
        ensures
            v@.len() == s0.len(),
            subtree_edges(v@, heap_size as int, root as int),
            v@ == sift_down(s0, heap_size as int, root as int),
            v@[root as int] == s0[root as int] || (2 * root + 1 < heap_size && v@[root as int]
                == s0[2 * root + 1]) || (2 * root + 2 < heap_size && v@[root as int] == s0[2 * root
                + 2]),
            unchanged_outside_subtree(s0, v@, heap_size as int, root as int),
            v@.subrange(root as int, heap_size as int).to_multiset() == s0.subrange(
                root as int,
                heap_size as int,
            ).to_multiset(),
        decreases heap_size - cur,
    {
        let mut largest = cur;
        if cur < heap_size / 2 {
            let left = 2 * cur + 1;
            if left < heap_size && v[left] > v[largest] {
                largest = left;
            }
            let right = left + 1;
            if right < heap_size && v[right] > v[largest] {
                largest = right;
            }
        }
        if largest == cur {
            proof {
                lemma_sift_down_unfold(v@, heap_size as int, cur as int);
                assert(sift_down(v@, heap_size as int, cur as int) == v@);
                assert forall|c: int|
                    0 < c < heap_size && in_subtree(root as int, (c - 1) / 2) implies v@[(c - 1)
                    / 2] >= #[trigger] v@[c] by {
                    let p = (c - 1) / 2;
                    if p == cur {
                        assert(c == 2 * cur + 1 || c == 2 * cur + 2);
                    }
                }
            }
            break ;
        }
        proof {
            lemma_subtree_ge(root as int, cur as int);
            lemma_subtree_child(cur as int, largest as int);
            lemma_subtree_trans(root as int, cur as int, largest as int);
        }
        let ghost vpre = v@;
        let ghost cur_pre = cur;
        swap_in_range(v, root, heap_size, cur, largest);
        proof {
            assert(v@ =~= vpre.update(cur_pre as int, vpre[largest as int]).update(
                largest as int,
                vpre[cur_pre as int],
            ));
            lemma_sift_down_unfold(vpre, heap_size as int, cur_pre as int);
            assert(sift_down(vpre, heap_size as int, cur_pre as int) == sift_down(
                v@,
                heap_size as int,
                largest as int,
            ));
            assert forall|c: int|
                0 < c < heap_size && in_subtree(root as int, (c - 1) / 2) && (c - 1) / 2
                != largest implies v@[(c - 1) / 2] >= #[trigger] v@[c] by {
                let p = (c - 1) / 2;
                lemma_subtree_ge(root as int, p);
                assert(c >= 2 * p + 1);
                if p == cur_pre {
                    assert(c == 2 * cur_pre + 1 || c == 2 * cur_pre + 2);
                    assert(v@[p] == vpre[largest as int]);
                } else if c == cur_pre {
                    assert(cur_pre > root);
                    assert(v@[p] == vpre[p]);
                    assert(v@[c] == vpre[largest as int]);
                    assert(vpre[(cur_pre as int - 1) / 2] >= vpre[largest as int]);
                } else {
                    assert(c != largest && c != cur_pre && p != cur_pre);
                    assert(v@[p] == vpre[p] && v@[c] == vpre[c]);
                    assert(vpre[p] >= vpre[c]);
                }
            }
        }
        cur = largest;
    }
}

/// Edges with parents beyond the build cursor cover everything the next
/// sift-down relies on.
proof fn lemma_build_step_pre(s: Seq<i64>, n: int, i: int)
    requires
        0 <= i,
        heap_edges_from(s, n, i + 1),
    ensures
        subtree_edges_except_root(s, n, i),
{
    assert forall|c: int|
        0 < c < n && in_subtree(i, (c - 1) / 2) && (c - 1) / 2 != i implies s[(c - 1) / 2]
        >= #[trigger] s[c] by {
        lemma_subtree_ge(i, (c - 1) / 2);
    }
}

/// After the sift-down at the build cursor, every edge with a parent at or
/// beyond the cursor is ordered: inside the cursor's subtree by the
/// sift-down, outside it untouched.
proof fn lemma_build_step_post(s1: Seq<i64>, s2: Seq<i64>, n: int, i: int)
    requires
        0 <= i,
        s1.len() == s2.len(),
        n <= s1.len(),
        heap_edges_from(s1, n, i + 1),
        subtree_edges(s2, n, i),
        unchanged_outside_subtree(s1, s2, n, i),
    ensures
        heap_edges_from(s2, n, i),
{
    assert forall|c: int| 0 < c < n && (c - 1) / 2 >= i implies s2[(c - 1) / 2]
        >= #[trigger] s2[c] by {
        let p = (c - 1) / 2;
        if !in_subtree(i, p) {
            lemma_subtree_self(i);
            if in_subtree(i, c) && c != i {
                lemma_subtree_parent(i, c);
                assert(false);
            }
            assert(c != i);
            assert(s2[p] == s1[p] && s2[c] == s1[c]);
            assert(p != i);
            assert(s1[p] >= s1[c]);
        }
    }
}

/// After the extraction step swaps the heap's maximum behind the shrunken
/// heap, the edges strictly inside the new heap are still ordered.
proof fn lemma_extract_step_edges(pre: Seq<i64>, mid: Seq<i64>, end: int)
    requires
        1 <= end < pre.len(),
        pre.len() == mid.len(),
        is_heap(pre, end + 1),
        mid == pre.update(0, pre[end]).update(end, pre[0]),
    ensures
        subtree_edges_except_root(mid, end, 0),
{
    assert forall|c: int|
        0 < c < end && in_subtree(0, (c - 1) / 2) && (c - 1) / 2 != 0 implies mid[(c - 1) / 2]
        >= #[trigger] mid[c] by {
        let p = (c - 1) / 2;
        assert(c >= 2 * p + 1);
        assert(mid[p] == pre[p] && mid[c] == pre[c]);
        assert(pre[p] >= pre[c]);
    }
}

/// Ordered edges inside the root's subtree are all the heap's edges.
proof fn lemma_root_subtree_heap(s: Seq<i64>, size: int)
    requires
        subtree_edges(s, size, 0),
    ensures
        is_heap(s, size),
{
    assert forall|c: int| 0 < c < size implies s[(c - 1) / 2] >= #[trigger] s[c] by {
        lemma_subtree_zero((c - 1) / 2);
    }
}

/// Heap sort around the recursive sift-down.
#[verifier::rlimit(100)]
pub fn heap_sort(arr: &mut Vec<i64>)
    ensures
        sorted(final(arr)@),
        final(arr)@.to_multiset() == old(arr)@.to_multiset(),
        final(arr)@.len() == old(arr)@.len(),
{
    let n = arr.len();
    if n <= 1 {
        return ;
    }
    let mut i: usize = n / 2;
    while i > 0
        invariant
            n == arr.len(),
            i <= n,
            arr@.to_multiset() == old(arr)@.to_multiset(),
            heap_edges_from(arr@, n as int, i as int),
        decreases i,
    {
        i -= 1;
        let ghost pre = arr@;
        proof {
            lemma_build_step_pre(arr@, n as int, i as int);
        }
        heapify(arr, n, i);
        proof {
            assert forall|k: int| 0 <= k < pre.len() && !(i <= k < n) implies pre[k] == arr@[k] by {
                if in_subtree(i as int, k) {
                    lemma_subtree_ge(i as int, k);
                }
            }
            lemma_patch_multiset(pre, arr@, i as int, n as int);
            lemma_build_step_post(pre, arr@, n as int, i as int);
        }
    }
    let mut end: usize = n;
    while end > 1
        invariant
            n == arr.len(),
            1 <= end <= n,
            arr@.to_multiset() == old(arr)@.to_multiset(),
            is_heap(arr@, end as int),
            sorted_range(arr@, end as int, n as int),
            forall|k: int, m: int|
                #![trigger arr@[k], arr@[m]]
                0 <= k < end && end <= m < n ==> arr@[k] <= arr@[m],
        decreases end,
    {
        end -= 1;
        let ghost pre = arr@;
        proof {
            assert forall|k: int| 0 <= k < end + 1 implies #[trigger] pre[k] <= pre[0] by {
                lemma_heap_root_max(pre, end as int + 1, k);
            }
        }
        swap_at(arr, 0, end);
        let ghost mid = arr@;
        proof {
            lemma_extract_step_edges(pre, mid, end as int);
        }
        heapify(arr, end, 0);
        proof {
            assert forall|k: int| 0 <= k < mid.len() && !(0 <= k < end) implies mid[k]
                == arr@[k] by {
                if in_subtree(0, k) {
                    lemma_subtree_ge(0, k);
                }
            }
            lemma_patch_multiset(mid, arr@, 0, end as int);
            lemma_root_subtree_heap(arr@, end as int);
            let bound = pre[0];
            let le_bound = |x: i64| x <= bound;
            assert forall|k: int| 0 <= k < end implies #[trigger] le_bound(mid[k]) by {
                assert(mid[k] == pre[k] || mid[k] == pre[end as int]);
            }
            lemma_multiset_range_transfer(mid, arr@, 0, end as int, le_bound);
            assert forall|m: int| end <= m < n implies #[trigger] arr@[m] >= bound by {
                if m == end {
                    assert(arr@[m] == pre[0]);
                } else {
                    assert(arr@[m] == pre[m]);
                    assert(pre[0] <= pre[m]);
                }
            }
            assert forall|k: int, m: int|
                #![trigger arr@[k], arr@[m]]
                0 <= k < end && end <= m < n implies arr@[k] <= arr@[m] by {
                assert(le_bound(arr@[k]));
                assert(arr@[m] >= bound);
            }
            assert forall|a: int, b: int|
                #![trigger arr@[a], arr@[b]]
                end <= a <= b < n implies arr@[a] <= arr@[b] by {
                assert(arr@[a] >= bound);
                if a == end {
                    assert(arr@[a] == pre[0]);
                    if b > end {
                        assert(arr@[b] == pre[b]);
                        assert(pre[0] <= pre[b]);
                    }
                } else {
                    assert(arr@[a] == pre[a] && arr@[b] == pre[b]);
                    assert(pre[a] <= pre[b]);
                }
            }
        }
    }
}

/// Heap sort around the iterative sift-down, with identical behaviour and
/// contract.
#[verifier::rlimit(100)]
pub fn heap_sort_iterative(arr: &mut Vec<i64>)
    ensures
        sorted(final(arr)@),
        final(arr)@.to_multiset() == old(arr)@.to_multiset(),
        final(arr)@.len() == old(arr)@.len(),
{
    let n = arr.len();
    if n <= 1 {
        return ;
    }
    let mut i: usize = n / 2;
    while i > 0
        invariant
            n == arr.len(),
            i <= n,
            arr@.to_multiset() == old(arr)@.to_multiset(),
            heap_edges_from(arr@, n as int, i as int),
        decreases i,
    {
        i -= 1;
        let ghost pre = arr@;
        proof {
            lemma_build_step_pre(arr@, n as int, i as int);
        }
        heapify_iterative(arr, n, i);
        proof {
            assert forall|k: int| 0 <= k < pre.len() && !(i <= k < n) implies pre[k] == arr@[k] by {
                if in_subtree(i as int, k) {
                    lemma_subtree_ge(i as int, k);
                }
            }
            lemma_patch_multiset(pre, arr@, i as int, n as int);
            lemma_build_step_post(pre, arr@, n as int, i as int);
        }
    }
    let mut end: usize = n;
    while end > 1
        invariant
            n == arr.len(),
            1 <= end <= n,
            arr@.to_multiset() == old(arr)@.to_multiset(),
            is_heap(arr@, end as int),
            sorted_range(arr@, end as int, n as int),
            forall|k: int, m: int|
                #![trigger arr@[k], arr@[m]]
                0 <= k < end && end <= m < n ==> arr@[k] <= arr@[m],
        decreases end,
    {
        end -= 1;
        let ghost pre = arr@;
        proof {
            assert forall|k: int| 0 <= k < end + 1 implies #[trigger] pre[k] <= pre[0] by {
                lemma_heap_root_max(pre, end as int + 1, k);
            }
        }
        swap_at(arr, 0, end);
        let ghost mid = arr@;
        proof {
            lemma_extract_step_edges(pre, mid, end as int);
        }
        heapify_iterative(arr, end, 0);
        proof {
            assert forall|k: int| 0 <= k < mid.len() && !(0 <= k < end) implies mid[k]
                == arr@[k] by {
                if in_subtree(0, k) {
                    lemma_subtree_ge(0, k);
                }
            }
            lemma_patch_multiset(mid, arr@, 0, end as int);
            lemma_root_subtree_heap(arr@, end as int);
            let bound = pre[0];
            let le_bound = |x: i64| x <= bound;
            assert forall|k: int| 0 <= k < end implies #[trigger] le_bound(mid[k]) by {
                assert(mid[k] == pre[k] || mid[k] == pre[end as int]);
            }
            lemma_multiset_range_transfer(mid, arr@, 0, end as int, le_bound);
            assert forall|m: int| end <= m < n implies #[trigger] arr@[m] >= bound by {
                if m == end {
                    assert(arr@[m] == pre[0]);
                } else {
                    assert(arr@[m] == pre[m]);
                    assert(pre[0] <= pre[m]);
                }
            }
            assert forall|k: int, m: int|
                #![trigger arr@[k], arr@[m]]
                0 <= k < end && end <= m < n implies arr@[k] <= arr@[m] by {
                assert(le_bound(arr@[k]));
                assert(arr@[m] >= bound);
            }
            assert forall|a: int, b: int|
                #![trigger arr@[a], arr@[b]]
                end <= a <= b < n implies arr@[a] <= arr@[b] by {
                assert(arr@[a] >= bound);
                if a == end {
                    assert(arr@[a] == pre[0]);
                    if b > end {
                        assert(arr@[b] == pre[b]);
                        assert(pre[0] <= pre[b]);
                    }
                } else {
                    assert(arr@[a] == pre[a] && arr@[b] == pre[b]);
                    assert(pre[a] <= pre[b]);
                }
            }
        }
    }
}

} // verus!
