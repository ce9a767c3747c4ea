//! Hoare partitioning and quickselect over a range of positions of an array.
use crate::array::{random_index, IntArray1};
use crate::order::{
    lemma_permuted_source, lemma_permuted_trans, lemma_permuted_widen, lemma_swap_permutes,
    permuted_within,
};
use vstd::prelude::*;

verus! {

/// Rearranges positions `[lo, hi)` of `a` around the element at `pivot` with
/// Hoare's scheme and returns the pivot's final position `q`: every element
/// of `[lo, q)` is below the pivot value, every element of `[q, hi)` is at
/// least the pivot value.
pub fn partition_range(a: &mut IntArray1, lo: usize, hi: usize, pivot: usize) -> (q: usize)
    requires
        lo <= pivot < hi <= old(a)@.len(),
    ensures
        permuted_within(old(a)@, final(a)@, lo as int, hi as int),
        lo <= q < hi,
        final(a)@[q as int] == old(a)@[pivot as int],
        forall|k: int| lo <= k < q ==> #[trigger] final(a)@[k] < final(a)@[q as int],
        forall|k: int| q <= k < hi ==> #[trigger] final(a)@[k] >= final(a)@[q as int],
{
    let ghost s0 = a@;
    let pv = a.get(pivot);
    a.swap(pivot, lo);
    proof {
        lemma_swap_permutes(s0, lo as int, hi as int, pivot as int, lo as int);
    }
    let mut i: usize = lo + 1;
    let mut j: usize = hi - 1;
    loop
        invariant
            permuted_within(s0, a@, lo as int, hi as int),
            hi <= a@.len(),
            a@[lo as int] == pv,
            lo + 1 <= i <= j + 1,
            lo <= j < hi,
            forall|k: int| lo + 1 <= k < i ==> #[trigger] a@[k] < pv,
            forall|k: int| j < k < hi ==> #[trigger] a@[k] >= pv,
        ensures
            permuted_within(s0, a@, lo as int, hi as int),
            a@[lo as int] == pv,
            lo + 1 <= i <= hi,
            forall|k: int| lo + 1 <= k < i ==> #[trigger] a@[k] < pv,
            forall|k: int| i <= k < hi ==> #[trigger] a@[k] >= pv,
        decreases j + 1 - i,
    {
        while i <= j && a.get(i) < pv
            invariant
                hi <= a@.len(),
                lo + 1 <= i <= j + 1,
                lo <= j < hi,
                forall|k: int| lo + 1 <= k < i ==> #[trigger] a@[k] < pv,
            decreases j + 1 - i,
        {
            i += 1;
        }
        let ghost j0 = j;
        while j > lo + 1 && pv <= a.get(j)
            invariant
                hi <= a@.len(),
                a@[lo as int] == pv,
                lo + 1 <= i <= j + 1,
                lo <= j <= j0 < hi,
                i <= j0 ==> a@[i as int] >= pv,
                forall|k: int| lo + 1 <= k < i ==> #[trigger] a@[k] < pv,
                forall|k: int| j < k < hi ==> #[trigger] a@[k] >= pv,
            decreases j,
        {
            j -= 1;
        }
        if i >= j {
            break;
        }
        let ghost s1 = a@;
        a.swap(i, j);
        proof {
            lemma_swap_permutes(s1, lo as int, hi as int, i as int, j as int);
            lemma_permuted_trans(s0, s1, a@, lo as int, hi as int);
        }
        i += 1;
        j -= 1;
    }
    let ghost s2 = a@;
    a.swap(lo, i - 1);
    proof {
        lemma_swap_permutes(s2, lo as int, hi as int, lo as int, i - 1);
        lemma_permuted_trans(s0, s2, a@, lo as int, hi as int);
    }
    i - 1
}

/// Quickselect: rearranges positions `[lo, hi)` of `a` so that no element of
/// `[lo, i)` exceeds the one at `i` and no element of `(i, hi)` falls below
/// it, and returns the element at `i`, which is then the one that sorting the
/// range would put there. Pivots are drawn uniformly at random.
pub fn select_range(a: &mut IntArray1, lo: usize, hi: usize, i: usize) -> (r: i64)
    requires
        lo <= i < hi <= old(a)@.len(),
    ensures
        permuted_within(old(a)@, final(a)@, lo as int, hi as int),
        r == final(a)@[i as int],
        forall|k: int| lo <= k < i ==> #[trigger] final(a)@[k] <= r,
        forall|k: int| i < k < hi ==> r <= #[trigger] final(a)@[k],
{
    select_range_with(a, lo, hi, i, &random_index)
}

/// As `select_range`, with the pivot of each step chosen by `pick`: given the
/// length `n` of the current range, `pick` returns an offset below `n`.
pub fn select_range_with<F: Fn(usize) -> usize>(
    a: &mut IntArray1,
    lo: usize,
    hi: usize,
    i: usize,
    pick: &F,
) -> (r: i64)
    requires
        lo <= i < hi <= old(a)@.len(),
        forall|n: usize| n > 0 ==> #[trigger] pick.requires((n,)),
        forall|n: usize, p: usize| n > 0 && #[trigger] pick.ensures((n,), p) ==> p < n,
    ensures
        permuted_within(old(a)@, final(a)@, lo as int, hi as int),
        r == final(a)@[i as int],
        forall|k: int| lo <= k < i ==> #[trigger] final(a)@[k] <= r,
        forall|k: int| i < k < hi ==> r <= #[trigger] final(a)@[k],
    decreases hi - lo,
{
    if hi - lo == 1 {
        return a.get(lo);
    }
    let pivot = lo + pick(hi - lo);
    let ghost s0 = a@;
    let q = partition_range(a, lo, hi, pivot);
    let ghost s1 = a@;
    if i < q {
        let r = select_range_with(a, lo, q, i, pick);
        proof {
            let s2 = a@;
            lemma_permuted_widen(s1, s2, lo as int, q as int, lo as int, hi as int);
            lemma_permuted_trans(s0, s1, s2, lo as int, hi as int);
            lemma_permuted_source(s1, s2, lo as int, q as int, i as int);
            assert forall|k: int| i < k < hi implies r <= #[trigger] s2[k] by {
                if k >= q {
                    assert(s2[k] == s1[k]);
                }
            }
        }
        r
    } else if i == q {
        a.get(i)
    } else {
        let r = select_range_with(a, q + 1, hi, i, pick);
        proof {
            let s2 = a@;
            lemma_permuted_widen(s1, s2, q + 1, hi as int, lo as int, hi as int);
            lemma_permuted_trans(s0, s1, s2, lo as int, hi as int);
            lemma_permuted_source(s1, s2, q + 1, hi as int, i as int);
            assert forall|k: int| lo <= k < i implies #[trigger] s2[k] <= r by {
                if k <= q {
                    assert(s2[k] == s1[k]);
                }
            }
        }
        r
    }
}

} // verus!
