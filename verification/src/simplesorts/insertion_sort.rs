//! Index-returning insertion sort.
//!
//! A derived form of insertion sort that leaves its input untouched and
//! instead returns the permutation of positions that reads the input back
//! in ascending order.  Each position is inserted after every earlier
//! position holding an element `le` its own, so tied elements keep their
//! original relative order: the returned permutation is the unique stable
//! sorting permutation of the input.

use vstd::prelude::*;

use crate::order::TotalOrder;

verus! {

/// Return the positions of `input` in sorted order, leaving `input`
/// untouched.
///
/// The result is pinned completely: it is the one permutation of
/// `0 .. input.len()` along which the input reads ascending and which
/// lists tied elements by ascending original position.
pub fn sort<T: TotalOrder>(input: &Vec<T>) -> (r: Vec<usize>)
    ensures
        r@.len() == input@.len(),
        forall|k: int| 0 <= k < r@.len() ==> (#[trigger] r@[k]) < input@.len(),
        forall|a: int, b: int| #![trigger r@[a], r@[b]]
            0 <= a < b < r@.len() ==> r@[a] != r@[b],
        forall|a: int, b: int| #![trigger r@[a], r@[b]]
            0 <= a < b < r@.len() ==> input@[r@[a] as int].le(input@[r@[b] as int]),
        forall|a: int, b: int| #![trigger r@[a], r@[b]]
            0 <= a < b < r@.len() && input@[r@[b] as int].le(input@[r@[a] as int]) ==> r@[a]
                < r@[b],
{
    let n = input.len();
    let mut r: Vec<usize> = Vec::new();
    let mut i: usize = 0;
    while i < n
        invariant
            n == input@.len(),
            i <= n,
            r@.len() == i,
            forall|k: int| 0 <= k < i ==> (#[trigger] r@[k]) < i,
            forall|a: int, b: int| #![trigger r@[a], r@[b]] 0 <= a < b < i ==> r@[a] != r@[b],
            forall|a: int, b: int| #![trigger r@[a], r@[b]]
                0 <= a < b < i ==> input@[r@[a] as int].le(input@[r@[b] as int]),
            forall|a: int, b: int| #![trigger r@[a], r@[b]]
                0 <= a < b < i && input@[r@[b] as int].le(input@[r@[a] as int]) ==> r@[a] < r@[b],
        decreases n - i,
    {
        // find the first already-placed position whose element is strictly
        // greater than the element at position i
        let mut j: usize = 0;
        while j < i && input[r[j]].leq(&input[i])
            invariant
                j <= i,
                i < n,
                n == input@.len(),
                r@.len() == i,
                forall|k: int| 0 <= k < i ==> (#[trigger] r@[k]) < i,
                forall|k: int| 0 <= k < j ==> input@[(#[trigger] r@[k]) as int].le(
                    input@[i as int],
                ),
            decreases i - j,
        {
            j += 1;
        }
        let ghost rpre = r@;
        let ghost key = input@[i as int];
        proof {
            if j < i {
                assert forall|m: int| j <= m < i implies !(input@[(#[trigger] rpre[m]) as int].le(
                    key,
                )) by {
                    if m > j && input@[rpre[m] as int].le(key) {
                        T::lemma_transitive(
                            input@[rpre[j as int] as int],
                            input@[rpre[m] as int],
                            key,
                        );
                    }
                }
            }
        }
        r.insert(j, i);
        proof {
            assert forall|k: int| 0 <= k < r@.len() implies (#[trigger] r@[k]) == (if k
                < j {
                rpre[k]
            } else if k == j {
                i as usize
            } else {
                rpre[k - 1]
            }) by {
            }
            assert forall|a: int, b: int| #![trigger r@[a], r@[b]]
                0 <= a < b < i + 1 implies input@[r@[a] as int].le(input@[r@[b] as int]) by {
                if b < j {
                } else if b == j {
                    assert(input@[rpre[a] as int].le(key));
                } else {
                    if a < j {
                    } else if a == j {
                        assert(!(input@[rpre[b - 1] as int].le(key)));
                        T::lemma_connex(input@[rpre[b - 1] as int], key);
                    } else {
                    }
                }
            }
            assert forall|a: int, b: int| #![trigger r@[a], r@[b]]
                0 <= a < b < i + 1 && input@[r@[b] as int].le(input@[r@[a] as int]) implies r@[a]
                < r@[b] by {
                if b == j {
                    assert(r@[a] == rpre[a] && rpre[a] < i);
                } else if b > j && a == j {
                    assert(!(input@[rpre[b - 1] as int].le(key)));
                }
            }
        }
        i += 1;
    }
    r
}

} // verus!
