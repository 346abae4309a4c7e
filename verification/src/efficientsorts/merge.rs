//! Merge sort.
//!
//! Top-down divide and conquer: split the vector in halves, sort each
//! recursively, then merge the two sorted runs into a fresh buffer —
//! taking the left head on equal heads — and hand the buffer back.  The
//! auxiliary space is one buffer of the input's length.

use vstd::prelude::*;

use crate::order::TotalOrder;
use crate::order::sorted;
use crate::perm::swap;

verus! {

/// Sort the vector ascending, in place from the caller's point of view.
///
/// The result is sorted and holds the same multiset of elements as before.
pub fn sort<T: TotalOrder>(input: &mut Vec<T>)
    ensures
        sorted(final(input)@),
        final(input)@.to_multiset() == old(input)@.to_multiset(),
        final(input)@.len() == old(input)@.len(),
{
    let n = input.len();
    if n <= 1 {
        return ;
    }
    let mut work: Vec<T> = Vec::new();
    core::mem::swap(input, &mut work);
    let mut merged = merge_sort(work);
    core::mem::swap(input, &mut merged);
}

/// Recursively sort an owned vector.
fn merge_sort<T: TotalOrder>(v: Vec<T>) -> (r: Vec<T>)
    ensures
        sorted(r@),
        r@.to_multiset() == v@.to_multiset(),
        r@.len() == v@.len(),
    decreases v@.len(),
{
    let n = v.len();
    if n <= 1 {
        return v;
    }
    if n == 2 {
        let mut w = v;
        let in_order = w[0].leq(&w[1]);
        if !in_order {
            proof {
                T::lemma_connex(w@[0], w@[1]);
            }
            swap(&mut w, 0, 1);
        }
        return w;
    }
    let ghost whole = v@;
    let mut left = v;
    let right = left.split_off(n / 2);
    proof {
        assert(whole =~= whole.subrange(0, n as int / 2) + whole.subrange(
            n as int / 2,
            n as int,
        ));
        vstd::seq_lib::lemma_multiset_commutative(
            whole.subrange(0, n as int / 2),
            whole.subrange(n as int / 2, n as int),
        );
    }
    let left_sorted = merge_sort(left);
    let right_sorted = merge_sort(right);
    merge(left_sorted, right_sorted)
}

/// Merge two sorted vectors into one sorted vector holding the elements of
/// both.  On equal heads the left element is taken first.
fn merge<T: TotalOrder>(a: Vec<T>, b: Vec<T>) -> (r: Vec<T>)
    requires
        sorted(a@),
        sorted(b@),
        a@.len() + b@.len() <= usize::MAX,
    ensures
        sorted(r@),
        r@.to_multiset() == a@.to_multiset().add(b@.to_multiset()),
        r@.len() == a@.len() + b@.len(),
{
    broadcast use vstd::seq_lib::group_to_multiset_ensures;
    broadcast use vstd::multiset::group_multiset_axioms;

    let mut a = a;
    let mut b = b;
    let ghost a0 = a@;
    let ghost b0 = b@;
    let mut r: Vec<T> = Vec::new();
    while a.len() > 0 && b.len() > 0
        invariant
            sorted(a@),
            sorted(b@),
            sorted(r@),
            r@.len() + a@.len() + b@.len() == a0.len() + b0.len(),
            r@.to_multiset().add(a@.to_multiset()).add(b@.to_multiset()) == a0.to_multiset().add(
                b0.to_multiset(),
            ),
            forall|x: int, y: int|
                0 <= x < r@.len() && 0 <= y < a@.len() ==> #[trigger] r@[x].le(a@[y]),
            forall|x: int, y: int|
                0 <= x < r@.len() && 0 <= y < b@.len() ==> #[trigger] r@[x].le(b@[y]),
        decreases a.len() + b.len(),
    {
        let take_left = a[0].leq(&b[0]);
        if take_left {
            let ghost apre = a@;
            let ghost rpre = r@;
            let x = a.remove(0);
            r.push(x);
            proof {
                broadcast use vstd::seq_lib::group_to_multiset_ensures;
                broadcast use vstd::multiset::group_multiset_axioms;

                assert(apre.contains(x)) by {
                    assert(apre[0] == x);
                }
                assert(apre.remove(0).to_multiset() == apre.to_multiset().remove(apre[0]));
                assert(a@.to_multiset() == apre.to_multiset().remove(x));
                assert(rpre.push(x).to_multiset() =~= rpre.to_multiset().insert(x));
                assert(r@.to_multiset() == rpre.to_multiset().insert(x));
                assert(apre.to_multiset().count(x) > 0);
                assert(r@.to_multiset().add(a@.to_multiset()).add(b@.to_multiset()) =~= rpre
                    .to_multiset().add(apre.to_multiset()).add(b@.to_multiset()));
                assert forall|i: int, j: int| 0 <= i < j < r@.len() implies #[trigger] r@[i].le(
                    r@[j],
                ) by {
                    if j == r@.len() - 1 {
                        assert(rpre[i].le(apre[0]));
                    }
                }
                assert forall|x2: int, y: int|
                    0 <= x2 < r@.len() && 0 <= y < a@.len() implies #[trigger] r@[x2].le(
                    a@[y],
                ) by {
                    assert(a@[y] == apre[y + 1]);
                    if x2 < r@.len() - 1 {
                        assert(rpre[x2].le(apre[y + 1]));
                    } else {
                        assert(apre[0].le(apre[y + 1]));
                    }
                }
                assert forall|x2: int, y: int|
                    0 <= x2 < r@.len() && 0 <= y < b@.len() implies #[trigger] r@[x2].le(
                    b@[y],
                ) by {
                    if x2 < r@.len() - 1 {
                        assert(rpre[x2].le(b@[y]));
                    } else {
                        if y > 0 {
                            T::lemma_transitive(apre[0], b@[0], b@[y]);
                        }
                    }
                }
            }
        } else {
            let ghost bpre = b@;
            let ghost rpre = r@;
            let x = b.remove(0);
            r.push(x);
            proof {
                broadcast use vstd::seq_lib::group_to_multiset_ensures;
                broadcast use vstd::multiset::group_multiset_axioms;

                T::lemma_connex(a@[0], bpre[0]);
                assert(bpre.contains(x)) by {
                    assert(bpre[0] == x);
                }
                assert(bpre.remove(0).to_multiset() == bpre.to_multiset().remove(bpre[0]));
                assert(b@.to_multiset() == bpre.to_multiset().remove(x));
                assert(rpre.push(x).to_multiset() =~= rpre.to_multiset().insert(x));
                assert(r@.to_multiset() == rpre.to_multiset().insert(x));
                assert(bpre.to_multiset().count(x) > 0);
                assert(r@.to_multiset().add(a@.to_multiset()).add(b@.to_multiset()) =~= rpre
                    .to_multiset().add(a@.to_multiset()).add(bpre.to_multiset()));
                assert forall|i: int, j: int| 0 <= i < j < r@.len() implies #[trigger] r@[i].le(
                    r@[j],
                ) by {
                    if j == r@.len() - 1 {
                        assert(rpre[i].le(bpre[0]));
                    }
                }
                assert forall|x2: int, y: int|
                    0 <= x2 < r@.len() && 0 <= y < b@.len() implies #[trigger] r@[x2].le(
                    b@[y],
                ) by {
                    assert(b@[y] == bpre[y + 1]);
                    if x2 < r@.len() - 1 {
                        assert(rpre[x2].le(bpre[y + 1]));
                    } else {
                        assert(bpre[0].le(bpre[y + 1]));
                    }
                }
                assert forall|x2: int, y: int|
                    0 <= x2 < r@.len() && 0 <= y < a@.len() implies #[trigger] r@[x2].le(
                    a@[y],
                ) by {
                    if x2 < r@.len() - 1 {
                        assert(rpre[x2].le(a@[y]));
                    } else {
                        if y > 0 {
                            T::lemma_transitive(bpre[0], a@[0], a@[y]);
                        }
                    }
                }
            }
        }
    }
    while a.len() > 0
        invariant
            sorted(a@),
            sorted(r@),
            a@.len() == 0 || b@.len() == 0,
            r@.len() + a@.len() + b@.len() == a0.len() + b0.len(),
            r@.to_multiset().add(a@.to_multiset()).add(b@.to_multiset()) == a0.to_multiset().add(
                b0.to_multiset(),
            ),
            forall|x: int, y: int|
                0 <= x < r@.len() && 0 <= y < a@.len() ==> #[trigger] r@[x].le(a@[y]),
            forall|x: int, y: int|
                0 <= x < r@.len() && 0 <= y < b@.len() ==> #[trigger] r@[x].le(b@[y]),
        decreases a.len(),
    {
        let ghost apre = a@;
        let ghost rpre = r@;
        let x = a.remove(0);
        r.push(x);
        proof {
            broadcast use vstd::seq_lib::group_to_multiset_ensures;
            broadcast use vstd::multiset::group_multiset_axioms;

            assert(apre.contains(x)) by {
                assert(apre[0] == x);
            }
            assert(apre.remove(0).to_multiset() == apre.to_multiset().remove(apre[0]));
            assert(a@.to_multiset() == apre.to_multiset().remove(x));
            assert(rpre.push(x).to_multiset() =~= rpre.to_multiset().insert(x));
            assert(r@.to_multiset() == rpre.to_multiset().insert(x));
            assert(apre.to_multiset().count(x) > 0);
            assert(r@.to_multiset().add(a@.to_multiset()).add(b@.to_multiset()) =~= rpre
                .to_multiset().add(apre.to_multiset()).add(b@.to_multiset()));
            assert forall|i: int, j: int| 0 <= i < j < r@.len() implies #[trigger] r@[i].le(
                r@[j],
            ) by {
                if j == r@.len() - 1 {
                    assert(rpre[i].le(apre[0]));
                }
            }
            assert forall|x2: int, y: int|
                0 <= x2 < r@.len() && 0 <= y < a@.len() implies #[trigger] r@[x2].le(a@[y]) by {
                assert(a@[y] == apre[y + 1]);
                if x2 < r@.len() - 1 {
                    assert(rpre[x2].le(apre[y + 1]));
                } else {
                    assert(apre[0].le(apre[y + 1]));
                }
            }
        }
    }
    while b.len() > 0
        invariant
            sorted(b@),
            sorted(r@),
            a@.len() == 0,
            r@.len() + a@.len() + b@.len() == a0.len() + b0.len(),
            r@.to_multiset().add(a@.to_multiset()).add(b@.to_multiset()) == a0.to_multiset().add(
                b0.to_multiset(),
            ),
            forall|x: int, y: int|
                0 <= x < r@.len() && 0 <= y < b@.len() ==> #[trigger] r@[x].le(b@[y]),
        decreases b.len(),
    {
        let ghost bpre = b@;
        let ghost rpre = r@;
        let x = b.remove(0);
        r.push(x);
        proof {
            broadcast use vstd::seq_lib::group_to_multiset_ensures;
            broadcast use vstd::multiset::group_multiset_axioms;

            assert(bpre.contains(x)) by {
                assert(bpre[0] == x);
            }
            assert(bpre.remove(0).to_multiset() == bpre.to_multiset().remove(bpre[0]));
            assert(b@.to_multiset() == bpre.to_multiset().remove(x));
            assert(rpre.push(x).to_multiset() =~= rpre.to_multiset().insert(x));
            assert(r@.to_multiset() == rpre.to_multiset().insert(x));
            assert(bpre.to_multiset().count(x) > 0);
            assert(r@.to_multiset().add(a@.to_multiset()).add(b@.to_multiset()) =~= rpre
                .to_multiset().add(a@.to_multiset()).add(bpre.to_multiset()));
            assert forall|i: int, j: int| 0 <= i < j < r@.len() implies #[trigger] r@[i].le(
                r@[j],
            ) by {
                if j == r@.len() - 1 {
                    assert(rpre[i].le(bpre[0]));
                }
            }
            assert forall|x2: int, y: int|
                0 <= x2 < r@.len() && 0 <= y < b@.len() implies #[trigger] r@[x2].le(b@[y]) by {
                assert(b@[y] == bpre[y + 1]);
                if x2 < r@.len() - 1 {
                    assert(rpre[x2].le(bpre[y + 1]));
                } else {
                    assert(bpre[0].le(bpre[y + 1]));
                }
            }
        }
    }
    proof {
        assert(a@.to_multiset().len() == a@.len());
        assert(b@.to_multiset().len() == b@.len());
        assert(r@.to_multiset() =~= r@.to_multiset().add(a@.to_multiset()).add(b@.to_multiset()));
    }
    r
}

} // verus!
