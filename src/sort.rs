//! Selection and partitioning of a whole one-dimensional array.
use crate::array::IntArray1;
use crate::order::{lemma_permuted_whole, lemma_rank, sorted_values};
use crate::select::{partition_range, select_range};
use vstd::prelude::*;

verus! {

/// Methods for selecting and partitioning 1-D arrays in place.
pub trait Sort1dExt: View<V = Seq<i64>> + Sized {
    /// Returns the element that would occupy position `i` if the array were
    /// sorted in increasing order, rearranging the array in place: afterwards
    /// position `i` holds that element, no element before it is larger and no
    /// element after it is smaller. Where the element just below it in sorted
    /// order is smaller (or `i` is 0), every element before position `i` is
    /// strictly smaller.
    fn sorted_get_mut(&mut self, i: usize) -> (r: i64)
        requires
            i < old(self)@.len(),
        ensures
            final(self)@.to_multiset() == old(self)@.to_multiset(),
            final(self)@.len() == old(self)@.len(),
            r == sorted_values(old(self)@)[i as int],
            r == final(self)@[i as int],
            forall|k: int| 0 <= k < i ==> #[trigger] final(self)@[k] <= r,
            forall|k: int| i < k < final(self)@.len() ==> r <= #[trigger] final(self)@[k],
            i == 0 || sorted_values(old(self)@)[i - 1] < r ==> forall|k: int|
                0 <= k < i ==> #[trigger] final(self)@[k] < r,
    ;

    /// Moves the element at `pivot_index` to the position `q` it would have
    /// in increasing order, with every element before `q` smaller than it and
    /// every element from `q` on at least as large; returns `q`.
    fn partition_mut(&mut self, pivot_index: usize) -> (q: usize)
        requires
            pivot_index < old(self)@.len(),
        ensures
            final(self)@.to_multiset() == old(self)@.to_multiset(),
            final(self)@.len() == old(self)@.len(),
            q < final(self)@.len(),
            final(self)@[q as int] == old(self)@[pivot_index as int],
            forall|k: int| 0 <= k < q ==> #[trigger] final(self)@[k] < final(self)@[q as int],
            forall|k: int|
                q <= k < final(self)@.len() ==> #[trigger] final(self)@[k] >= final(self)@[q as int],
    ;
}

impl Sort1dExt for IntArray1 {
    fn sorted_get_mut(&mut self, i: usize) -> (r: i64) {
        let ghost s0 = self@;
        let n = self.len();
        let r = select_range(self, 0, n, i);
        proof {
            lemma_permuted_whole(s0, self@);
            lemma_rank(s0, self@, i as int);
        }
        r
    }

    fn partition_mut(&mut self, pivot_index: usize) -> (q: usize) {
        let ghost s0 = self@;
        let n = self.len();
        let q = partition_range(self, 0, n, pivot_index);
        proof {
            lemma_permuted_whole(s0, self@);
        }
        q
    }
}

} // verus!
