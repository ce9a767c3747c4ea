//! A one-dimensional `ndarray` array of `i64`, with the calls into `ndarray`
//! and `rand` that the algorithms rely on.
use rand::Rng;
use vstd::prelude::*;

verus! {

/// An owned one-dimensional array of `i64`, stored as an `ndarray::Array1`.
#[verifier::external_body]
pub struct IntArray1 {
    inner: ndarray::Array1<i64>,
}

/// The elements of the array, in index order.
pub uninterp spec fn array_values(a: IntArray1) -> Seq<i64>;

impl View for IntArray1 {
    type V = Seq<i64>;

    /// The elements of the array, in index order.
    open spec fn view(&self) -> Seq<i64> {
        array_values(*self)
    }
}

impl IntArray1 {
    /// Relies on `ndarray`'s `From<Vec<A>>` for `Array1`: the vector's
    /// elements become the array's, in the same order; it panics on a length
    /// above `isize::MAX`.
    #[verifier::external_body]
    pub fn from_vec(v: Vec<i64>) -> (r: IntArray1)
        requires
            v@.len() <= isize::MAX,
        ensures
            array_values(r) == v@,
    {
        IntArray1 { inner: ndarray::Array1::from(v) }
    }

    /// Relies on `ArrayBase::to_vec` of 1-D arrays: the elements in index order.
    #[verifier::external_body]
    pub fn to_vec(&self) -> (r: Vec<i64>)
        ensures
            r@ == array_values(*self),
    {
        self.inner.to_vec()
    }

    /// Relies on `ArrayBase::len`: the total number of elements.
    #[verifier::external_body]
    pub(crate) fn len(&self) -> (r: usize)
        ensures
            r == array_values(*self).len(),
    {
        self.inner.len()
    }

    /// Relies on indexing an `Array1` by `usize`, which panics out of bounds.
    #[verifier::external_body]
    pub(crate) fn get(&self, k: usize) -> (r: i64)
        requires
            k < array_values(*self).len(),
        ensures
            r == array_values(*self)[k as int],
    {
        self.inner[k]
    }

    /// Relies on `ArrayBase::swap`: exchanges two elements; panics out of bounds.
    #[verifier::external_body]
    pub(crate) fn swap(&mut self, x: usize, y: usize)
        requires
            x < array_values(*old(self)).len(),
            y < array_values(*old(self)).len(),
        ensures
            array_values(*final(self)) == array_values(*old(self)).update(
                x as int,
                array_values(*old(self))[y as int],
            ).update(y as int, array_values(*old(self))[x as int]),
    {
        self.inner.swap(x, y)
    }
}

/// Relies on `rand::thread_rng` and `Rng::gen_range(0, n)`: a value in `[0, n)`;
/// `gen_range` panics when the range is empty.
#[verifier::external_body]
pub(crate) fn random_index(n: usize) -> (r: usize)
    requires
        n > 0,
    ensures
        r < n,
{
    rand::thread_rng().gen_range(0, n)
}

} // verus!
