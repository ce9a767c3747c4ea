//! In-place order-statistic selection and Hoare partitioning on
//! one-dimensional `ndarray` arrays, with machine-checked contracts.
pub mod array;
pub mod order;
pub mod select;
pub mod sort;

pub use array::IntArray1;
pub use sort::Sort1dExt;
