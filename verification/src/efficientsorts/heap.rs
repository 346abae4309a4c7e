//! Heap sort.
//!
//! Two phases over an implicit binary max-heap laid out in the vector
//! (children of node `i` sit at `2i + 1` and `2i + 2`): first sift every
//! node down from the last parent back to the root, establishing the heap
//! property over the whole vector; then repeatedly exchange the root — the
//! maximum — with the last heap element, shrink the heap, and sift the new
//! root down.  In place, O(1) auxiliary space, not stable.

use vstd::prelude::*;

use crate::order::TotalOrder;
use crate::order::sorted;
use crate::perm::lemma_multiset_pointwise;
use crate::perm::lemma_swap_in_range_multiset;
use crate::perm::lemma_window_multiset_whole;
use crate::perm::swap;

verus! {

/// Index of the parent of heap node `c`.
pub open spec fn parent(c: int) -> int {
    (c - 1) / 2
}

/// The max-heap property over nodes of `s` up to index `last`, restricted
/// to edges whose parent is at index `lo` or later: every such node is `le`
/// its parent.
pub open spec fn heap_frm<T: TotalOrder>(s: Seq<T>, lo: int, last: int) -> bool {
    forall|c: int| 1 <= c <= last && lo <= parent(c) ==> #[trigger] s[c].le(s[parent(c)])
}

/// Under the full heap property the root dominates every node.
proof fn lemma_heap_root_max<T: TotalOrder>(s: Seq<T>, last: int, i: int)
    requires
        heap_frm(s, 0, last),
        0 <= i <= last,
        last < s.len(),
    ensures
        s[i].le(s[0]),
    decreases i,
{
    if i == 0 {
        T::lemma_connex(s[0], s[0]);
    } else {
        assert(s[i].le(s[parent(i)]));
        lemma_heap_root_max(s, last, parent(i));
        T::lemma_transitive(s[i], s[parent(i)], s[0]);
    }
}

/// Sort the vector ascending, in place.
///
/// The result is sorted and holds the same multiset of elements as before.
pub fn sort<T: TotalOrder>(input: &mut Vec<T>)
    ensures
        sorted(final(input)@),
        final(input)@.to_multiset() == old(input)@.to_multiset(),
        final(input)@.len() == old(input)@.len(),
{
    let n = input.len();
    if n <= 1 {
        return ;
    }
    let ghost orig = input@;
    heapify(input);
    let mut end = n - 1;
    while end > 0
        invariant
            n == input@.len(),
            orig.len() == n,
            end < n,
            input@.to_multiset() == orig.to_multiset(),
            heap_frm(input@, 0, end as int),
            forall|a: int, b: int|
                end < a < b < n ==> #[trigger] input@[a].le(input@[b]),
            end + 1 < n ==> forall|a: int|
                0 <= a <= end ==> #[trigger] input@[a].le(input@[end as int + 1]),
        decreases end,
    {
        let ghost s0 = input@;
        proof {
            assert forall|k: int| 0 <= k <= end implies #[trigger] s0[k].le(s0[0]) by {
                lemma_heap_root_max(s0, end as int, k);
            }
        }
        swap(input, 0, end);
        proof {
            // the maximum now closes the sorted suffix
            assert forall|a: int, b: int| end - 1 < a < b < n implies #[trigger] input@[a].le(
                input@[b],
            ) by {
                if a == end as int {
                    assert(input@[a] == s0[0]);
                    if b == end as int + 1 {
                        assert(s0[0].le(s0[end as int + 1]));
                    } else {
                        T::lemma_transitive(s0[0], s0[end as int + 1], s0[b]);
                    }
                }
            }
            assert forall|a: int| 0 <= a <= end - 1 implies #[trigger] input@[a].le(
                input@[end as int],
            ) by {
                if a == 0 {
                    assert(input@[a] == s0[end as int]);
                } else {
                    assert(input@[a] == s0[a]);
                }
            }
        }
        end -= 1;
        let ghost bs = input@;
        proof {
            // the heap property survives the exchange everywhere below the root
            assert forall|c: int| 1 <= c <= end && 1 <= parent(c) implies #[trigger] bs[c].le(
                bs[parent(c)],
            ) by {
                assert(bs[c] == s0[c] && bs[parent(c)] == s0[parent(c)]);
            }
        }
        sift_down(input, 0, end);
        proof {
            let af = input@;
            let ghost bnd = bs[end as int + 1];
            let cnd = (|x: T| x.le(bnd));
            assert forall|k: int| 0 <= k < end + 1 implies #[trigger] cnd(
                bs.subrange(0, end as int + 1)[k],
            ) by {
                assert(bs.subrange(0, end as int + 1)[k] == bs[k]);
                assert(bs[k].le(bnd));
            }
            lemma_multiset_pointwise(
                bs.subrange(0, end as int + 1),
                af.subrange(0, end as int + 1),
                cnd,
            );
            assert forall|a: int| 0 <= a <= end implies #[trigger] af[a].le(
                af[end as int + 1],
            ) by {
                assert(af.subrange(0, end as int + 1)[a] == af[a]);
                assert(cnd(af.subrange(0, end as int + 1)[a]));
                assert(af[end as int + 1] == bs[end as int + 1]);
            }
            lemma_window_multiset_whole(bs, af, 0, end as int + 1);
        }
    }
    proof {
        assert forall|a: int, b: int| 0 <= a < b < n implies #[trigger] input@[a].le(
            input@[b],
        ) by {
            if a == 0 {
                if b > 1 {
                    T::lemma_transitive(input@[0], input@[1], input@[b]);
                }
            }
        }
    }
}

/// Index of the parent of heap node `i` (the root is its own parent).
fn node_parent_id(i: usize) -> (r: usize)
    ensures
        i == 0 ==> r == 0,
        i > 0 ==> r as int == parent(i as int),
{
    if i == 0 {
        0
    } else {
        (i - 1) / 2
    }
}

/// Index of the left child of heap node `i`.
fn node_child_left(i: usize) -> (r: usize)
    requires
        2 * i + 1 <= usize::MAX,
    ensures
        r as int == 2 * i + 1,
{
    2 * i + 1
}

/// Establish the max-heap property over the whole vector by sifting each
/// node down, from the last parent back to the root.
fn heapify<T: TotalOrder>(input: &mut Vec<T>)
    requires
        old(input).len() >= 1,
    ensures
        final(input)@.len() == old(input)@.len(),
        final(input)@.to_multiset() == old(input)@.to_multiset(),
        heap_frm(final(input)@, 0, old(input)@.len() - 1),
{
    let n = input.len();
    let last = n - 1;
    let mut start = node_parent_id(last) + 1;
    proof {
        assert forall|c: int| 1 <= c <= last && start <= parent(c) implies #[trigger] input@[c].le(
            input@[parent(c)],
        ) by {
            assert(parent(c) <= parent(last as int));
            assert(false);
        }
    }
    while start > 0
        invariant
            n == input@.len(),
            n >= 1,
            last == n - 1,
            start as int <= last as int + 1,
            input@.to_multiset() == old(input)@.to_multiset(),
            heap_frm(input@, start as int, last as int),
        decreases start,
    {
        start = start - 1;
        let ghost bs = input@;
        sift_down(input, start, last);
        proof {
            lemma_window_multiset_whole(bs, input@, start as int, last as int + 1);
        }
    }
}

/// Restore the heap property at node `start` over the heap `[0, last]`,
/// assuming it already holds everywhere below `start`: walk the node down,
/// exchanging it with its larger child until neither child is larger.
fn sift_down<T: TotalOrder>(v: &mut Vec<T>, start: usize, last: usize)
    requires
        start <= last,
        last < old(v).len(),
        heap_frm(old(v)@, start as int + 1, last as int),
    ensures
        final(v)@.len() == old(v)@.len(),
        heap_frm(final(v)@, start as int, last as int),
        forall|k: int|
            0 <= k < old(v)@.len() && !(start <= k <= last) ==> final(v)@[k] == old(v)@[k],
        final(v)@.subrange(start as int, last as int + 1).to_multiset() == old(v)@.subrange(
            start as int,
            last as int + 1,
        ).to_multiset(),
{
    let mut i: usize = start;
    while last > 0 && i <= (last - 1) / 2
        invariant
            start <= i <= last,
            last < v@.len(),
            v@.len() == old(v)@.len(),
            forall|c: int|
                1 <= c <= last && start <= parent(c) && parent(c) != i ==> #[trigger] v@[c].le(
                    v@[parent(c)],
                ),
            i > start ==> forall|c: int|
                1 <= c <= last && parent(c) == i ==> #[trigger] v@[c].le(v@[parent(i as int)]),
            forall|k: int|
                0 <= k < v@.len() && !(start <= k <= last) ==> v@[k] == old(v)@[k],
            v@.subrange(start as int, last as int + 1).to_multiset() == old(v)@.subrange(
                start as int,
                last as int + 1,
            ).to_multiset(),
        decreases last - i,
    {
        let child = node_child_left(i);
        let mut m: usize = i;
        if !(v[child].leq(&v[m])) {
            proof {
                T::lemma_connex(v@[child as int], v@[i as int]);
            }
            m = child;
        }
        if child < last {
            if !(v[child + 1].leq(&v[m])) {
                proof {
                    T::lemma_connex(v@[child as int + 1], v@[m as int]);
                    if m == child {
                        T::lemma_transitive(
                            v@[i as int],
                            v@[child as int],
                            v@[child as int + 1],
                        );
                    } else {
                        T::lemma_transitive(
                            v@[child as int],
                            v@[i as int],
                            v@[child as int + 1],
                        );
                    }
                }
                m = child + 1;
            }
        }
        proof {
            T::lemma_connex(v@[m as int], v@[m as int]);
            assert(v@[i as int].le(v@[m as int]));
            assert(v@[child as int].le(v@[m as int]));
            assert(child < last ==> v@[child as int + 1].le(v@[m as int]));
        }
        if m == i {
            proof {
                assert forall|c: int| 1 <= c <= last && start <= parent(c) implies #[trigger] v@[c]
                    .le(v@[parent(c)]) by {
                    if parent(c) == i as int {
                        assert(c == 2 * (i as int) + 1 || c == 2 * (i as int) + 2);
                    }
                }
            }
            return ;
        }
        let ghost s0 = v@;
        proof {
            lemma_swap_in_range_multiset(v@, start as int, last as int + 1, i as int, m as int);
        }
        swap(v, i, m);
        proof {
            let ii = i as int;
            let mm = m as int;
            assert(parent(mm) == ii);
            assert forall|c: int|
                1 <= c <= last && start <= parent(c) && parent(c) != mm implies #[trigger] v@[c].le(
                v@[parent(c)],
            ) by {
                if c == mm {
                    assert(v@[c] == s0[ii] && v@[parent(c)] == s0[mm]);
                } else if parent(c) == ii {
                    assert(v@[c] == s0[c] && v@[parent(c)] == s0[mm]);
                    assert(c == 2 * ii + 1 || c == 2 * ii + 2);
                } else if c == ii {
                    assert(v@[c] == s0[mm]);
                    assert(parent(ii) < ii);
                    assert(v@[parent(c)] == s0[parent(ii)]);
                    assert(i > start);
                    assert(s0[mm].le(s0[parent(ii)]));
                } else {
                    assert(v@[c] == s0[c] && v@[parent(c)] == s0[parent(c)]);
                }
            }
            assert forall|c: int| 1 <= c <= last && parent(c) == mm implies #[trigger] v@[c].le(
                v@[parent(mm)],
            ) by {
                assert(c != ii && c != mm);
                assert(v@[c] == s0[c]);
                assert(v@[parent(mm)] == s0[mm]);
                assert(s0[c].le(s0[mm]));
            }
        }
        i = m;
    }
    proof {
        assert forall|c: int| 1 <= c <= last && start <= parent(c) implies #[trigger] v@[c].le(
            v@[parent(c)],
        ) by {
            if parent(c) == i as int {
                assert(c >= 2 * (i as int) + 1);
                assert(false);
            }
        }
    }
}

} // verus!
