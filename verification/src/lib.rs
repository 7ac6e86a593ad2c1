//! Comparison sorts on slices, with verified contracts.
//!
//! Three routines rearrange a mutable slice into non-decreasing order:
//! [`bubble_sort`], [`insertion_sort`] and [`merge_sort`]. Each contract says
//! that the result holds exactly the elements of the input, that it is ordered
//! whenever the element type is totally ordered, and where elements of equal
//! rank end up.
pub mod order;
pub mod arrangement;
pub mod inversions;
pub mod slice_ops;
pub mod bubble;
pub mod insertion;
pub mod merge;
pub mod laws;

pub use crate::bubble::bubble_sort;
pub use crate::insertion::insertion_sort;
pub use crate::merge::merge_sort;
