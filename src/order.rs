//! Mathematical model: ascending order, rearrangement of a range of
//! positions, and what an element's final place says about its rank.
use vstd::multiset::group_multiset_axioms;
use vstd::prelude::*;
use vstd::relations::{sorted_by, total_ordering};
use vstd::seq_lib::{
    group_to_multiset_ensures,
    lemma_multiset_commutative,
    lemma_sorted_unique,
    to_multiset_update,
};

verus! {

/// The ascending order on `i64`.
pub open spec fn ascending() -> spec_fn(i64, i64) -> bool {
    |x: i64, y: i64| x <= y
}

/// The sequence `s` sorted in ascending order.
pub open spec fn sorted_values(s: Seq<i64>) -> Seq<i64> {
    s.sort_by(ascending())
}

/// `s1` is `s0` with the positions in `[lo, hi)` rearranged among themselves
/// and every other position left as it was.
pub open spec fn permuted_within(s0: Seq<i64>, s1: Seq<i64>, lo: int, hi: int) -> bool {
    &&& 0 <= lo <= hi <= s0.len()
    &&& s1.len() == s0.len()
    &&& forall|k: int| 0 <= k < s0.len() && !(lo <= k < hi) ==> #[trigger] s1[k] == s0[k]
    &&& s1.subrange(lo, hi).to_multiset() == s0.subrange(lo, hi).to_multiset()
}

/// Exchanging two positions inside `[lo, hi)` rearranges that range.
pub proof fn lemma_swap_permutes(s: Seq<i64>, lo: int, hi: int, x: int, y: int)
    requires
        0 <= lo <= x < hi <= s.len(),
        lo <= y < hi,
    ensures
        permuted_within(s, s.update(x, s[y]).update(y, s[x]), lo, hi),
{
    broadcast use group_multiset_axioms;

    let t = s.update(x, s[y]).update(y, s[x]);
    let a = s.subrange(lo, hi);
    let a1 = a.update(x - lo, a[y - lo]);
    assert(t.subrange(lo, hi) =~= a1.update(y - lo, a[x - lo]));
    to_multiset_update(a, x - lo, a[y - lo]);
    to_multiset_update(a1, y - lo, a[x - lo]);
    assert(a.to_multiset().count(a[x - lo]) > 0) by {
        broadcast use group_to_multiset_ensures;

        assert(a.contains(a[x - lo]));
    }
    assert(a1.update(y - lo, a[x - lo]).to_multiset() =~= a.to_multiset());
}

/// Rearranging a range twice rearranges it.
pub proof fn lemma_permuted_trans(s0: Seq<i64>, s1: Seq<i64>, s2: Seq<i64>, lo: int, hi: int)
    requires
        permuted_within(s0, s1, lo, hi),
        permuted_within(s1, s2, lo, hi),
    ensures
        permuted_within(s0, s2, lo, hi),
{
}

/// A rearrangement of a range is a rearrangement of any range around it.
pub proof fn lemma_permuted_widen(
    s0: Seq<i64>,
    s1: Seq<i64>,
    lo: int,
    hi: int,
    lo2: int,
    hi2: int,
)
    requires
        permuted_within(s0, s1, lo, hi),
        0 <= lo2 <= lo,
        hi <= hi2 <= s0.len(),
    ensures
        permuted_within(s0, s1, lo2, hi2),
{
    let p0 = s0.subrange(lo2, lo);
    let m0 = s0.subrange(lo, hi);
    let q0 = s0.subrange(hi, hi2);
    let m1 = s1.subrange(lo, hi);
    assert(s1.subrange(lo2, lo) =~= p0);
    assert(s1.subrange(hi, hi2) =~= q0);
    assert(s0.subrange(lo2, hi2) =~= (p0 + m0) + q0);
    assert(s1.subrange(lo2, hi2) =~= (p0 + m1) + q0);
    lemma_multiset_commutative(p0 + m0, q0);
    lemma_multiset_commutative(p0, m0);
    lemma_multiset_commutative(p0 + m1, q0);
    lemma_multiset_commutative(p0, m1);
}

/// Every value in a rearranged range was somewhere in that range before.
pub proof fn lemma_permuted_source(s0: Seq<i64>, s1: Seq<i64>, lo: int, hi: int, k: int)
    requires
        permuted_within(s0, s1, lo, hi),
        lo <= k < hi,
    ensures
        exists|k0: int| lo <= k0 < hi && s0[k0] == s1[k],
{
    broadcast use group_to_multiset_ensures;

    let a0 = s0.subrange(lo, hi);
    let a1 = s1.subrange(lo, hi);
    assert(a1[k - lo] == s1[k]);
    assert(a1.contains(s1[k]));
    assert(a0.to_multiset().count(s1[k]) > 0);
    assert(a0.contains(s1[k]));
    let j = choose|j: int| 0 <= j < a0.len() && a0[j] == s1[k];
    assert(s0[lo + j] == s1[k]);
}

/// A rearrangement of the whole sequence keeps its multiset of values.
pub proof fn lemma_permuted_whole(s0: Seq<i64>, s1: Seq<i64>)
    requires
        permuted_within(s0, s1, 0, s0.len() as int),
    ensures
        s1.to_multiset() == s0.to_multiset(),
{
    assert(s0.subrange(0, s0.len() as int) =~= s0);
    assert(s1.subrange(0, s1.len() as int) =~= s1);
}

/// Sorting `t` keeps its length and its values, so bounds on the values of
/// `t` hold of the sorted sequence too.
proof fn lemma_sorted_within(t: Seq<i64>, lo: i64, hi: i64)
    requires
        forall|k: int| 0 <= k < t.len() ==> lo <= #[trigger] t[k] <= hi,
    ensures
        sorted_values(t).len() == t.len(),
        sorted_by(sorted_values(t), ascending()),
        sorted_values(t).to_multiset() == t.to_multiset(),
        forall|k: int| 0 <= k < t.len() ==> lo <= #[trigger] sorted_values(t)[k] <= hi,
{
    broadcast use group_to_multiset_ensures;

    t.lemma_sort_by_ensures(ascending());
    let u = sorted_values(t);
    assert(u.to_multiset().len() == t.to_multiset().len());
    assert forall|k: int| 0 <= k < t.len() implies lo <= #[trigger] u[k] <= hi by {
        assert(u.contains(u[k]));
        assert(t.contains(u[k]));
    }
}

/// An element that no earlier element exceeds and no later element falls
/// below sits where sorting would put it; and where the value just before it
/// in sorted order is smaller, every earlier element is smaller too.
pub proof fn lemma_rank(s0: Seq<i64>, s1: Seq<i64>, i: int)
    requires
        s1.to_multiset() == s0.to_multiset(),
        0 <= i < s1.len(),
        forall|k: int| 0 <= k < i ==> #[trigger] s1[k] <= s1[i],
        forall|k: int| i < k < s1.len() ==> s1[i] <= #[trigger] s1[k],
    ensures
        sorted_values(s0).len() == s0.len(),
        sorted_values(s0)[i] == s1[i],
        i > 0 && sorted_values(s0)[i - 1] < sorted_values(s0)[i] ==> forall|k: int|
            0 <= k < i ==> #[trigger] s1[k] < s1[i],
{
    broadcast use group_to_multiset_ensures;

    let leq = ascending();
    let r = s1[i];
    assert(total_ordering(leq));
    let left = s1.subrange(0, i);
    let right = s1.subrange(i + 1, s1.len() as int);
    lemma_sorted_within(left, i64::MIN, r);
    lemma_sorted_within(right, r, i64::MAX);
    s0.lemma_sort_by_ensures(leq);
    assert(sorted_values(s0).to_multiset().len() == s0.to_multiset().len());
    let ls = sorted_values(left);
    let rs = sorted_values(right);
    let t = ls + seq![r] + rs;
    assert(t[i] == r);
    assert forall|a: int, b: int| 0 <= a < b < t.len() implies #[trigger] leq(t[a], t[b]) by {
        if b < i {
            assert(leq(ls[a], ls[b]));
        } else if a > i {
            assert(leq(rs[a - i - 1], rs[b - i - 1]));
        }
    }
    assert(s1 =~= (left + seq![r]) + right);
    lemma_multiset_commutative(left + seq![r], right);
    lemma_multiset_commutative(left, seq![r]);
    lemma_multiset_commutative(ls + seq![r], rs);
    lemma_multiset_commutative(ls, seq![r]);
    lemma_sorted_unique(t, sorted_values(s0), leq);
    if i > 0 && sorted_values(s0)[i - 1] < sorted_values(s0)[i] {
        assert forall|k: int| 0 <= k < i implies #[trigger] s1[k] < s1[i] by {
            if s1[k] == r {
                assert(left[k] == r);
                assert(left.contains(r));
                assert(left.to_multiset().count(r) > 0);
                assert(ls.to_multiset().count(r) > 0);
                assert(ls.contains(r));
                let m = choose|m: int| 0 <= m < ls.len() && ls[m] == r;
                if m < i - 1 {
                    assert(leq(t[m], t[i - 1]));
                }
            }
        }
    }
}

} // verus!
