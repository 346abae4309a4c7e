//! Quicksort.
//!
//! Recursive partition around a median-of-three pivot.  [`partition`]
//! performs a single left-to-right scan keeping every element strictly
//! below the pivot to its left and every other element to its right; the
//! two sides are then sorted recursively.  Not stable.

use vstd::prelude::*;

use crate::order::TotalOrder;
use crate::order::sorted;
use crate::perm::lemma_multiset_pointwise;
use crate::perm::lemma_subrange_multiset_split;
use crate::perm::lemma_swap_in_range_multiset;
use crate::perm::swap;

verus! {

/// Sort the vector ascending, in place.
///
/// The result is sorted and holds the same multiset of elements as before.
pub fn sort<T: TotalOrder>(array: &mut Vec<T>)
    ensures
        sorted(final(array)@),
        final(array)@.to_multiset() == old(array)@.to_multiset(),
        final(array)@.len() == old(array)@.len(),
{
    let n = array.len();
    let ghost orig = array@;
    sort_range(array, 0, n);
    proof {
        assert(array@.subrange(0, n as int) =~= array@);
        assert(orig.subrange(0, n as int) =~= orig);
    }
}

/// Sort the window `[lo, hi)` of the vector in place, leaving every
/// position outside the window untouched.
fn sort_range<T: TotalOrder>(v: &mut Vec<T>, lo: usize, hi: usize)
    requires
        lo <= hi,
        hi <= old(v).len(),
    ensures
        final(v)@.len() == old(v)@.len(),
        forall|k: int|
            0 <= k < old(v)@.len() && !(lo <= k < hi) ==> final(v)@[k] == old(v)@[k],
        forall|a: int, b: int| lo <= a < b < hi ==> #[trigger] final(v)@[a].le(final(v)@[b]),
        final(v)@.subrange(lo as int, hi as int).to_multiset() == old(v)@.subrange(
            lo as int,
            hi as int,
        ).to_multiset(),
    decreases hi - lo,
{
    if hi - lo <= 1 {
        return ;
    }
    if hi - lo == 2 {
        let in_order = v[lo].leq(&v[lo + 1]);
        if !in_order {
            proof {
                T::lemma_connex(v@[lo as int], v@[lo as int + 1]);
                lemma_swap_in_range_multiset(v@, lo as int, hi as int, lo as int, lo as int + 1);
            }
            swap(v, lo, lo + 1);
        }
        return ;
    }
    let p = partition(v, lo, hi);
    let ghost mid = v@;
    let ghost pv = mid[p as int];
    sort_range(v, lo, p);
    let ghost left_done = v@;
    proof {
        assert(left_done[p as int] == pv);
        assert(left_done.subrange(lo as int, p as int).to_multiset() == mid.subrange(
            lo as int,
            p as int,
        ).to_multiset());
        let cnd = (|x: T| !pv.le(x));
        assert forall|k: int| 0 <= k < p - lo implies #[trigger] cnd(
            mid.subrange(lo as int, p as int)[k],
        ) by {
            assert(mid.subrange(lo as int, p as int)[k] == mid[lo + k]);
            assert(!pv.le(mid[lo + k]));
        }
        lemma_multiset_pointwise(
            mid.subrange(lo as int, p as int),
            left_done.subrange(lo as int, p as int),
            cnd,
        );
        assert forall|k: int| lo <= k < p implies !(#[trigger] pv.le(left_done[k])) by {
            assert(left_done.subrange(lo as int, p as int)[k - lo] == left_done[k]);
            assert(cnd(left_done.subrange(lo as int, p as int)[k - lo]));
        }
    }
    sort_range(v, p + 1, hi);
    proof {
        let fin = v@;
        assert(fin[p as int] == pv);
        // the right window still holds only elements at or above the pivot
        let cnd2 = (|x: T| pv.le(x));
        assert forall|k: int| 0 <= k < hi - (p + 1) implies #[trigger] cnd2(
            mid.subrange(p as int + 1, hi as int)[k],
        ) by {
            assert(mid.subrange(p as int + 1, hi as int)[k] == mid[p + 1 + k]);
            assert(pv.le(mid[p + 1 + k]));
        }
        assert(fin.subrange(p as int + 1, hi as int).to_multiset() == mid.subrange(
            p as int + 1,
            hi as int,
        ).to_multiset()) by {
            assert(left_done.subrange(p as int + 1, hi as int) =~= mid.subrange(
                p as int + 1,
                hi as int,
            ));
        }
        lemma_multiset_pointwise(
            mid.subrange(p as int + 1, hi as int),
            fin.subrange(p as int + 1, hi as int),
            cnd2,
        );
        assert forall|k: int| p < k < hi implies #[trigger] pv.le(fin[k]) by {
            assert(fin.subrange(p as int + 1, hi as int)[k - (p + 1)] == fin[k]);
            assert(cnd2(fin.subrange(p as int + 1, hi as int)[k - (p + 1)]));
        }
        // the left window was not touched by the second recursive call
        assert forall|k: int| lo <= k < p implies fin[k] == left_done[k] by {}
        // assemble sortedness of the whole window
        assert forall|a: int, b: int| lo <= a < b < hi implies #[trigger] fin[a].le(fin[b]) by {
            if b < p {
            } else if b == p {
                assert(!pv.le(fin[a]));
                T::lemma_connex(fin[a], pv);
            } else if a == p {
            } else if a < p {
                assert(!pv.le(fin[a]));
                T::lemma_connex(fin[a], pv);
                T::lemma_transitive(fin[a], pv, fin[b]);
            }
        }
        // assemble the multiset preservation of the whole window
        lemma_subrange_multiset_split(mid, lo as int, p as int, hi as int);
        lemma_subrange_multiset_split(mid, p as int, p as int + 1, hi as int);
        lemma_subrange_multiset_split(left_done, lo as int, p as int, hi as int);
        lemma_subrange_multiset_split(left_done, p as int, p as int + 1, hi as int);
        lemma_subrange_multiset_split(fin, lo as int, p as int, hi as int);
        lemma_subrange_multiset_split(fin, p as int, p as int + 1, hi as int);
        assert(left_done.subrange(p as int, p as int + 1) =~= mid.subrange(p as int, p as int + 1));
        assert(fin.subrange(p as int, p as int + 1) =~= mid.subrange(p as int, p as int + 1));
        assert(fin.subrange(lo as int, p as int) =~= left_done.subrange(lo as int, p as int));
    }
}

/// Partition the window `[lo, hi)` around a median-of-three pivot.
///
/// Returns the pivot's final position `p`: afterwards every element of
/// `[lo, p)` is strictly below the pivot, every element of `(p, hi)` is at
/// or above it — so all of `[lo, p]` is `<=` the pivot and the pivot is
/// `<=` all of `(p, hi)` — and the window holds the same multiset of
/// elements as before.  Positions outside the window are untouched.
pub fn partition<T: TotalOrder>(v: &mut Vec<T>, lo: usize, hi: usize) -> (p: usize)
    requires
        lo + 2 <= hi,
        hi <= old(v).len(),
    ensures
        lo <= p < hi,
        final(v)@.len() == old(v)@.len(),
        forall|k: int|
            0 <= k < old(v)@.len() && !(lo <= k < hi) ==> final(v)@[k] == old(v)@[k],
        forall|k: int| lo <= k < p ==> !(final(v)@[p as int].le(#[trigger] final(v)@[k])),
        forall|k: int| lo <= k <= p ==> (#[trigger] final(v)@[k]).le(final(v)@[p as int]),
        forall|k: int| p < k < hi ==> final(v)@[p as int].le(#[trigger] final(v)@[k]),
        final(v)@.subrange(lo as int, hi as int).to_multiset() == old(v)@.subrange(
            lo as int,
            hi as int,
        ).to_multiset(),
{
    let mid = lo + (hi - lo) / 2;
    let hi1 = hi - 1;
    // median of three: find the largest of the three candidate positions,
    // drop it, and take the larger of the two that remain
    let mut mx: usize = lo;
    if !(v[mid].leq(&v[mx])) {
        mx = mid;
    }
    if !(v[hi1].leq(&v[mx])) {
        mx = hi1;
    }
    let c1: usize = if mx == lo {
        mid
    } else {
        lo
    };
    let c2: usize = if mx == hi1 {
        mid
    } else {
        hi1
    };
    let piv: usize = if !(v[c1].leq(&v[c2])) {
        c1
    } else {
        c2
    };
    proof {
        lemma_swap_in_range_multiset(v@, lo as int, hi as int, lo as int, piv as int);
    }
    swap(v, lo, piv);
    let mut p: usize = lo;
    let mut i: usize = lo + 1;
    while i < hi
        invariant
            lo <= p < i <= hi,
            hi <= v@.len(),
            v@.len() == old(v)@.len(),
            forall|k: int|
                0 <= k < old(v)@.len() && !(lo <= k < hi) ==> v@[k] == old(v)@[k],
            forall|k: int| lo <= k < p ==> !(v@[p as int].le(#[trigger] v@[k])),
            forall|k: int| p < k < i ==> v@[p as int].le(#[trigger] v@[k]),
            v@.subrange(lo as int, hi as int).to_multiset() == old(v)@.subrange(
                lo as int,
                hi as int,
            ).to_multiset(),
        decreases hi - i,
    {
        let below = !(v[p].leq(&v[i]));
        if below {
            let ghost s0 = v@;
            proof {
                lemma_swap_in_range_multiset(v@, lo as int, hi as int, p as int, i as int);
            }
            swap(v, p, i);
            if i == p + 1 {
                p = i;
                proof {
                    assert(v@[p as int] == s0[p as int - 1]);
                    assert forall|k: int| lo <= k < p implies !(v@[p as int].le(
                        #[trigger] v@[k],
                    )) by {
                        if k == p - 1 {
                            assert(v@[k] == s0[i as int]);
                        } else {
                            assert(v@[k] == s0[k]);
                        }
                    }
                }
            } else {
                proof {
                    lemma_swap_in_range_multiset(v@, lo as int, hi as int, i as int, p as int + 1);
                }
                swap(v, i, p + 1);
                p = p + 1;
                proof {
                    assert(v@[p as int] == s0[p as int - 1]);
                    assert forall|k: int| lo <= k < p implies !(v@[p as int].le(
                        #[trigger] v@[k],
                    )) by {
                        if k == p - 1 {
                            assert(v@[k] == s0[i as int]);
                        } else {
                            assert(v@[k] == s0[k]);
                        }
                    }
                    assert forall|k: int| p < k < i + 1 implies v@[p as int].le(
                        #[trigger] v@[k],
                    ) by {
                        if k == i as int {
                            assert(v@[k] == s0[p as int]);
                        } else {
                            assert(v@[k] == s0[k]);
                        }
                    }
                }
            }
        }
        i += 1;
    }
    proof {
        assert forall|k: int| lo <= k <= p implies (#[trigger] v@[k]).le(v@[p as int]) by {
            if k < p {
                T::lemma_connex(v@[k], v@[p as int]);
            } else {
                T::lemma_connex(v@[p as int], v@[p as int]);
            }
        }
    }
    p
}

} // verus!
