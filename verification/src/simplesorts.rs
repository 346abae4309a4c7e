//! The simple quadratic sorts: bubble, insertion and selection, plus the
//! index-returning insertion variant.

pub mod bubble;
pub mod insertion;
pub mod insertion_sort;
pub mod selection;
