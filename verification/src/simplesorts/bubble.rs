//! Bubble sort.
//!
//! Repeated adjacent-pair exchange: each pass bubbles the largest remaining
//! element to the end of the unsorted head.  A pass that performs no
//! exchange proves the vector sorted, so the routine exits early on
//! already-sorted input.  Exchanges happen only on strictly out-of-order
//! pairs, which makes the sort stable.

use vstd::prelude::*;

use crate::order::TotalOrder;
use crate::order::lemma_adjacent_le_span;
use crate::order::sorted;
use crate::perm::identity_perm;
use crate::perm::lemma_identity_perm_stable;
use crate::perm::lemma_stable_adjacent_swap;
use crate::perm::lemma_stable_permutation_intro;
use crate::perm::perm_applies;
use crate::perm::perm_ties_ascend;
use crate::perm::perm_valid;
use crate::perm::stable_permutation_of;
use crate::perm::swap;

verus! {

/// Sort the vector ascending, in place.
///
/// The result is sorted, holds the same multiset of elements as before, and
/// is reached by a permutation that keeps tied elements in their original
/// relative order (bubble sort is stable).
pub fn sort<T: TotalOrder>(input: &mut Vec<T>)
    ensures
        sorted(final(input)@),
        final(input)@.to_multiset() == old(input)@.to_multiset(),
        final(input)@.len() == old(input)@.len(),
        stable_permutation_of(old(input)@, final(input)@),
{
    let n = input.len();
    let ghost orig = input@;
    let ghost mut perm = identity_perm(n as int);
    proof {
        lemma_identity_perm_stable::<T>(orig);
    }
    let mut i: usize = 0;
    let mut done = false;
    while i < n && !done
        invariant
            n == input@.len(),
            orig.len() == n,
            i <= n,
            input@.to_multiset() == orig.to_multiset(),
            perm.len() == n,
            perm_valid(perm),
            perm_applies(perm, orig, input@),
            perm_ties_ascend(perm, orig),
            forall|a: int, b: int|
                0 <= a < b < n && n - i <= b ==> #[trigger] input@[a].le(input@[b]),
            done ==> sorted(input@),
        decreases n - i,
    {
        let mut swapped = false;
        let mut j: usize = 0;
        while j + 1 < n - i
            invariant
                n == input@.len(),
                orig.len() == n,
                i < n,
                j + 1 <= n - i,
                input@.to_multiset() == orig.to_multiset(),
                perm.len() == n,
                perm_valid(perm),
                perm_applies(perm, orig, input@),
                perm_ties_ascend(perm, orig),
                forall|a: int, b: int|
                    0 <= a < b < n && n - i <= b ==> #[trigger] input@[a].le(input@[b]),
                forall|k: int| 0 <= k < j ==> #[trigger] input@[k].le(input@[j as int]),
                !swapped ==> forall|k: int| 0 <= k < j ==> #[trigger] input@[k].le(input@[k + 1]),
            decreases n - i - j,
        {
            let in_order = input[j].leq(&input[j + 1]);
            if !in_order {
                proof {
                    T::lemma_connex(input@[j as int], input@[j as int + 1]);
                    lemma_stable_adjacent_swap(perm, orig, input@, j as int);
                }
                swap(input, j, j + 1);
                proof {
                    perm = perm.update(j as int, perm[j as int + 1]).update(
                        j as int + 1,
                        perm[j as int],
                    );
                }
                swapped = true;
            } else {
                proof {
                    assert forall|k: int| 0 <= k < j + 1 implies #[trigger] input@[k].le(
                        input@[j as int + 1],
                    ) by {
                        if k < j {
                            T::lemma_transitive(
                                input@[k],
                                input@[j as int],
                                input@[j as int + 1],
                            );
                        }
                    }
                }
            }
            j += 1;
        }
        if !swapped {
            done = true;
            proof {
                assert forall|a: int, b: int| 0 <= a < b < n implies #[trigger] input@[a].le(
                    input@[b],
                ) by {
                    if b < n - i {
                        lemma_adjacent_le_span(input@, a, b);
                    }
                }
            }
        }
        i += 1;
    }
    proof {
        lemma_stable_permutation_intro(perm, orig, input@);
    }
}

} // verus!
