//! Classic in-memory comparison sorts with machine-checked contracts.
//!
//! Six self-contained routines — bubble, insertion, selection, heap, merge
//! and quicksort — each mutate a vector in place and are proved to leave it
//! sorted while preserving the multiset of its elements.  Elements are drawn
//! from any type implementing [`order::TotalOrder`], which packages the
//! ordering relation together with the laws the proofs rely on.
//!
//! Bubble and insertion sort additionally carry a stability guarantee: the
//! relative order of elements that compare equal both ways is preserved, as
//! witnessed by an explicit permutation in their postconditions.

pub mod efficientsorts;
pub mod order;
pub mod perm;
pub mod simplesorts;
