//! Insertion sort.
//!
//! Grow a sorted prefix one element at a time: scan the prefix for the
//! first entry strictly greater than the incoming element, then bubble the
//! element down to that position by adjacent exchanges.  Comparing with
//! strict "greater than" never moves an element past an equal one, which
//! makes the sort stable.

use vstd::prelude::*;

use crate::order::TotalOrder;
use crate::order::sorted;
use crate::perm::identity_perm;
use crate::perm::lemma_identity_perm_stable;
use crate::perm::lemma_stable_adjacent_swap;
use crate::perm::lemma_stable_permutation_intro;
use crate::perm::perm_applies;
use crate::perm::perm_ties_ascend;
use crate::perm::perm_valid;
use crate::perm::stable_permutation_of;
use crate::perm::swap;

verus! {

/// Sort the vector ascending, in place.
///
/// The result is sorted, holds the same multiset of elements as before, and
/// is reached by a permutation that keeps tied elements in their original
/// relative order (insertion sort is stable).
pub fn sort<T: TotalOrder>(input: &mut Vec<T>)
    ensures
        sorted(final(input)@),
        final(input)@.to_multiset() == old(input)@.to_multiset(),
        final(input)@.len() == old(input)@.len(),
        stable_permutation_of(old(input)@, final(input)@),
{
    let n = input.len();
    let ghost orig = input@;
    let ghost mut perm = identity_perm(n as int);
    proof {
        lemma_identity_perm_stable::<T>(orig);
    }
    if n <= 1 {
        proof {
            lemma_stable_permutation_intro(perm, orig, input@);
        }
        return ;
    }
    let mut i: usize = 1;
    while i < n
        invariant
            n == input@.len(),
            orig.len() == n,
            1 <= i <= n,
            input@.to_multiset() == orig.to_multiset(),
            perm.len() == n,
            perm_valid(perm),
            perm_applies(perm, orig, input@),
            perm_ties_ascend(perm, orig),
            forall|a: int, b: int| 0 <= a < b < i ==> #[trigger] input@[a].le(input@[b]),
        decreases n - i,
    {
        // find the first prefix entry strictly greater than the element at i
        let mut j: usize = 0;
        while j < i && input[j].leq(&input[i])
            invariant
                j <= i,
                i < n,
                n == input@.len(),
                forall|k: int| 0 <= k < j ==> #[trigger] input@[k].le(input@[i as int]),
            decreases i - j,
        {
            j += 1;
        }
        if j < i {
            let ghost pre = input@;
            let ghost key = pre[i as int];
            proof {
                assert(!pre[j as int].le(key));
                assert forall|m: int| j <= m < i implies !(#[trigger] pre[m].le(key)) by {
                    if m > j && pre[m].le(key) {
                        T::lemma_transitive(pre[j as int], pre[m], key);
                    }
                }
            }
            let mut k: usize = i;
            while k > j
                invariant
                    j < i < n,
                    j <= k <= i,
                    n == input@.len(),
                    orig.len() == n,
                    input@[k as int] == pre[i as int],
                    forall|m: int| 0 <= m < k ==> #[trigger] input@[m] == pre[m],
                    forall|m: int| k < m <= i ==> #[trigger] input@[m] == pre[m - 1],
                    forall|m: int| i < m < n ==> #[trigger] input@[m] == pre[m],
                    input@.to_multiset() == orig.to_multiset(),
                    perm.len() == n,
                    perm_valid(perm),
                    perm_applies(perm, orig, input@),
                    perm_ties_ascend(perm, orig),
                    forall|m: int| j <= m < i ==> !(#[trigger] pre[m].le(pre[i as int])),
                decreases k,
            {
                proof {
                    assert(input@[k as int] == pre[i as int]);
                    assert(input@[k as int - 1] == pre[k as int - 1]);
                    assert(!input@[k as int - 1].le(input@[k as int]));
                    lemma_stable_adjacent_swap(perm, orig, input@, k as int - 1);
                }
                swap(input, k - 1, k);
                proof {
                    perm = perm.update(k as int - 1, perm[k as int]).update(
                        k as int,
                        perm[k as int - 1],
                    );
                }
                k -= 1;
            }
            proof {
                let key2 = pre[i as int];
                assert(input@[j as int] == key2);
                assert forall|a: int, b: int| 0 <= a < b < i + 1 implies #[trigger] input@[a].le(
                    input@[b],
                ) by {
                    if b < j {
                        assert(input@[a] == pre[a] && input@[b] == pre[b]);
                    } else if b == j {
                        assert(input@[a] == pre[a] && input@[b] == key2);
                        assert(pre[a].le(key2));
                    } else {
                        assert(input@[b] == pre[b - 1]);
                        if a < j {
                            assert(input@[a] == pre[a]);
                            if a == b - 1 {
                            } else {
                                assert(pre[a].le(pre[b - 1]));
                            }
                        } else if a == j {
                            assert(input@[a] == key2);
                            assert(!pre[b - 1].le(key2));
                            T::lemma_connex(pre[b - 1], key2);
                        } else {
                            assert(input@[a] == pre[a - 1]);
                            assert(pre[a - 1].le(pre[b - 1]));
                        }
                    }
                }
            }
        } else {
            proof {
                assert forall|a: int, b: int| 0 <= a < b < i + 1 implies #[trigger] input@[a].le(
                    input@[b],
                ) by {
                    if b == i as int {
                        assert(input@[a].le(input@[i as int]));
                    }
                }
            }
        }
        i += 1;
    }
    proof {
        lemma_stable_permutation_intro(perm, orig, input@);
    }
}

} // verus!
