//! Selection sort.
//!
//! For each position of the sorted prefix being grown, scan the unsorted
//! suffix for its minimum — the leftmost one on ties — and exchange it into
//! place.  Not stable: the exchange can carry an element past equals.

use vstd::prelude::*;

use crate::order::TotalOrder;
use crate::order::sorted;
use crate::perm::swap;

verus! {

/// Sort the vector ascending, in place.
///
/// The result is sorted and holds the same multiset of elements as before.
pub fn sort<T: TotalOrder>(array: &mut Vec<T>)
    ensures
        sorted(final(array)@),
        final(array)@.to_multiset() == old(array)@.to_multiset(),
        final(array)@.len() == old(array)@.len(),
{
    let n = array.len();
    if n == 0 {
        return ;
    }
    let ghost orig = array@;
    let mut i: usize = 0;
    while i + 1 < n
        invariant
            n == array@.len(),
            orig.len() == n,
            i < n,
            array@.to_multiset() == orig.to_multiset(),
            forall|a: int, b: int| 0 <= a < b < i ==> #[trigger] array@[a].le(array@[b]),
            forall|a: int, b: int| 0 <= a < i <= b < n ==> #[trigger] array@[a].le(array@[b]),
        decreases n - i,
    {
        let mut m: usize = i;
        let mut j: usize = i + 1;
        proof {
            T::lemma_connex(array@[i as int], array@[i as int]);
        }
        while j < n
            invariant
                n == array@.len(),
                i < n,
                i + 1 <= j <= n,
                i <= m < j,
                forall|k: int| i <= k < j ==> #[trigger] array@[m as int].le(array@[k]),
            decreases n - j,
        {
            let keeps = array[m].leq(&array[j]);
            if !keeps {
                proof {
                    T::lemma_connex(array@[m as int], array@[j as int]);
                    assert forall|k: int| i <= k < j + 1 implies #[trigger] array@[j as int].le(
                        array@[k],
                    ) by {
                        if k < j {
                            T::lemma_transitive(array@[j as int], array@[m as int], array@[k]);
                        } else {
                            T::lemma_connex(array@[j as int], array@[j as int]);
                        }
                    }
                }
                m = j;
            } else {
                proof {
                    assert(array@[m as int].le(array@[j as int]));
                }
            }
            j += 1;
        }
        let ghost before = array@;
        swap(array, i, m);
        proof {
            assert forall|a: int, b: int| 0 <= a < b < i + 1 implies #[trigger] array@[a].le(
                array@[b],
            ) by {
                if b == i {
                    assert(array@[b] == before[m as int]);
                    assert(before[a].le(before[m as int]));
                }
            }
            assert forall|a: int, b: int| 0 <= a < i + 1 <= b < n implies #[trigger] array@[a].le(
                array@[b],
            ) by {
                if a < i {
                    if b == m as int {
                        assert(array@[b] == before[i as int]);
                    }
                } else {
                    assert(array@[a] == before[m as int]);
                    if b == m as int {
                        assert(array@[b] == before[i as int]);
                        assert(before[m as int].le(before[i as int]));
                    } else {
                        assert(before[m as int].le(before[b]));
                    }
                }
            }
        }
        i += 1;
    }
    proof {
        assert forall|a: int, b: int| 0 <= a < b < n implies #[trigger] array@[a].le(array@[b]) by {
            if b < i as int {
            } else {
                assert(a < i as int);
            }
        }
    }
}

} // verus!
