//! The asymptotically efficient sorts: heap, merge and quicksort.

pub mod heap;
pub mod merge;
pub mod quick;
