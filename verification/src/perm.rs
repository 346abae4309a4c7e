//! Permutations of vector contents.
//!
//! Every sorting routine here rearranges a vector by exchanging elements.
//! This module provides the one exchange primitive, [`swap`], together with
//! the specification vocabulary for talking about the rearrangement itself:
//! a recorded permutation ([`perm_valid`], [`perm_applies`]) and the
//! stability condition that elements comparing equal both ways keep their
//! original relative order ([`perm_ties_ascend`]).

use vstd::prelude::*;

use crate::order::TotalOrder;

verus! {

/// `p` is a permutation of the positions `0 .. p.len()`: every entry is in
/// range and no entry repeats.
pub open spec fn perm_valid(p: Seq<int>) -> bool {
    &&& forall|i: int| 0 <= i < p.len() ==> 0 <= #[trigger] p[i] < p.len()
    &&& forall|i: int, j: int| #![trigger p[i], p[j]] 0 <= i < j < p.len() ==> p[i] != p[j]
}

/// `post` is `pre` rearranged by `p`: position `i` of `post` holds the
/// element that `pre` held at position `p[i]`.
pub open spec fn perm_applies<T>(p: Seq<int>, pre: Seq<T>, post: Seq<T>) -> bool {
    &&& p.len() == pre.len()
    &&& post.len() == pre.len()
    &&& forall|i: int| 0 <= i < p.len() && 0 <= p[i] < pre.len() ==> post[i] == pre[#[trigger] p[i]]
}

/// Elements of `pre` that compare equal both ways are listed by `p` in
/// ascending original position: the stability condition.
pub open spec fn perm_ties_ascend<T: TotalOrder>(p: Seq<int>, pre: Seq<T>) -> bool {
    forall|i: int, j: int| #![trigger p[i], p[j]]
        0 <= i < j < p.len() && 0 <= p[i] < pre.len() && 0 <= p[j] < pre.len()
            && pre[p[i]].le(pre[p[j]]) && pre[p[j]].le(pre[p[i]]) ==> p[i] < p[j]
}

/// `post` arises from `pre` by a permutation that keeps tied elements in
/// their original relative order: the stability guarantee of a stable sort.
pub open spec fn stable_permutation_of<T: TotalOrder>(pre: Seq<T>, post: Seq<T>) -> bool {
    exists|p: Seq<int>|
        #[trigger] perm_applies(p, pre, post) && perm_valid(p) && perm_ties_ascend(p, pre)
}

/// The identity permutation on `n` positions.
pub open spec fn identity_perm(n: int) -> Seq<int> {
    Seq::new(n as nat, |i: int| i)
}

/// The identity permutation is valid, applies any sequence to itself, and
/// trivially keeps ties in order.
pub proof fn lemma_identity_perm_stable<T: TotalOrder>(s: Seq<T>)
    ensures
        perm_valid(identity_perm(s.len() as int)),
        perm_applies(identity_perm(s.len() as int), s, s),
        perm_ties_ascend(identity_perm(s.len() as int), s),
{
}

/// Introduction rule for [`stable_permutation_of`]: exhibiting a recorded
/// permutation establishes the existential.
pub proof fn lemma_stable_permutation_intro<T: TotalOrder>(p: Seq<int>, pre: Seq<T>, post: Seq<T>)
    requires
        perm_valid(p),
        perm_applies(p, pre, post),
        perm_ties_ascend(p, pre),
    ensures
        stable_permutation_of(pre, post),
{
}

/// Exchanging two positions of a sequence does not change its multiset of
/// elements.
pub proof fn lemma_swap_multiset<T>(s: Seq<T>, i: int, j: int)
    requires
        0 <= i < s.len(),
        0 <= j < s.len(),
    ensures
        s.update(i, s[j]).update(j, s[i]).to_multiset() == s.to_multiset(),
{
    broadcast use vstd::seq_lib::group_to_multiset_ensures;
    broadcast use vstd::multiset::group_multiset_axioms;

    if i == j {
        assert(s.update(i, s[j]).update(j, s[i]) =~= s);
    } else {
        let s1 = s.update(i, s[j]);
        assert(s.contains(s[i])) by {
            assert(s[i] == s[i]);
        }
        assert(s1.contains(s[j])) by {
            assert(s1[i] == s[j]);
        }
        assert(s1[j] == s[j]);
        assert(s1.update(j, s[i]).to_multiset() =~= s.to_multiset());
    }
}

/// Exchanging two positions that both lie in the window `[lo, hi)` does not
/// change the multiset of elements of that window.
pub proof fn lemma_swap_in_range_multiset<T>(s: Seq<T>, lo: int, hi: int, i: int, j: int)
    requires
        0 <= lo <= i < hi <= s.len(),
        lo <= j < hi,
    ensures
        s.update(i, s[j]).update(j, s[i]).subrange(lo, hi).to_multiset() == s.subrange(
            lo,
            hi,
        ).to_multiset(),
{
    let t = s.update(i, s[j]).update(j, s[i]);
    let w = s.subrange(lo, hi);
    assert(t.subrange(lo, hi) =~= w.update(i - lo, w[j - lo]).update(j - lo, w[i - lo]));
    lemma_swap_multiset(w, i - lo, j - lo);
}

/// A property that holds of every element of a sequence holds of every
/// element of any sequence with the same multiset.
pub proof fn lemma_multiset_pointwise<T>(pre: Seq<T>, post: Seq<T>, cond: spec_fn(T) -> bool)
    requires
        post.to_multiset() == pre.to_multiset(),
        forall|i: int| 0 <= i < pre.len() ==> #[trigger] cond(pre[i]),
    ensures
        forall|i: int| 0 <= i < post.len() ==> #[trigger] cond(post[i]),
{
    broadcast use vstd::seq_lib::group_to_multiset_ensures;

    assert forall|i: int| 0 <= i < post.len() implies #[trigger] cond(post[i]) by {
        assert(post.contains(post[i])) by {
            assert(post[i] == post[i]);
        }
        assert(pre.to_multiset().count(post[i]) > 0);
        assert(pre.contains(post[i]));
        let w = choose|w: int| 0 <= w < pre.len() && pre[w] == post[i];
        assert(cond(pre[w]));
    }
}

/// The multiset of a window splits at any interior position into the
/// multisets of the two sub-windows.
pub proof fn lemma_subrange_multiset_split<T>(s: Seq<T>, lo: int, mid: int, hi: int)
    requires
        0 <= lo <= mid <= hi <= s.len(),
    ensures
        s.subrange(lo, hi).to_multiset() == s.subrange(lo, mid).to_multiset().add(
            s.subrange(mid, hi).to_multiset(),
        ),
{
    assert(s.subrange(lo, hi) =~= s.subrange(lo, mid) + s.subrange(mid, hi));
    vstd::seq_lib::lemma_multiset_commutative(s.subrange(lo, mid), s.subrange(mid, hi));
}

/// If two sequences agree outside a window and their windows hold the same
/// multiset, the whole sequences hold the same multiset.
pub proof fn lemma_window_multiset_whole<T>(pre: Seq<T>, post: Seq<T>, lo: int, hi: int)
    requires
        pre.len() == post.len(),
        0 <= lo <= hi <= pre.len(),
        forall|k: int| 0 <= k < pre.len() && !(lo <= k < hi) ==> post[k] == pre[k],
        post.subrange(lo, hi).to_multiset() == pre.subrange(lo, hi).to_multiset(),
    ensures
        post.to_multiset() == pre.to_multiset(),
{
    let n = pre.len() as int;
    lemma_subrange_multiset_split(pre, 0, lo, n);
    lemma_subrange_multiset_split(pre, lo, hi, n);
    lemma_subrange_multiset_split(post, 0, lo, n);
    lemma_subrange_multiset_split(post, lo, hi, n);
    assert(post.subrange(0, lo) =~= pre.subrange(0, lo));
    assert(post.subrange(hi, n) =~= pre.subrange(hi, n));
    assert(pre.subrange(0, n) =~= pre);
    assert(post.subrange(0, n) =~= post);
}

/// Exchanging two adjacent, strictly out-of-order elements preserves the
/// recorded permutation's validity, its application, and the stability
/// condition: strictly ordered elements are never a tie, and no other pair
/// changes relative order.
pub proof fn lemma_stable_adjacent_swap<T: TotalOrder>(
    p: Seq<int>,
    pre: Seq<T>,
    post: Seq<T>,
    j: int,
)
    requires
        perm_valid(p),
        perm_applies(p, pre, post),
        perm_ties_ascend(p, pre),
        0 <= j,
        j + 1 < p.len(),
        !post[j].le(post[j + 1]),
    ensures
        perm_valid(p.update(j, p[j + 1]).update(j + 1, p[j])),
        perm_applies(
            p.update(j, p[j + 1]).update(j + 1, p[j]),
            pre,
            post.update(j, post[j + 1]).update(j + 1, post[j]),
        ),
        perm_ties_ascend(p.update(j, p[j + 1]).update(j + 1, p[j]), pre),
{
    let q = p.update(j, p[j + 1]).update(j + 1, p[j]);
    let post2 = post.update(j, post[j + 1]).update(j + 1, post[j]);
    assert forall|a: int, b: int| #![trigger q[a], q[b]] 0 <= a < b < q.len() implies q[a] != q[b] by {
        if a == j && b == j + 1 {
            assert(p[j] != p[j + 1]);
        } else if b == j {
            assert(p[a] != p[j + 1]);
        } else if b == j + 1 && a != j {
            assert(p[a] != p[j]);
        } else if a == j {
            assert(p[j + 1] != p[b]);
        } else if a == j + 1 {
            assert(p[j] != p[b]);
        } else {
            assert(p[a] != p[b]);
        }
    }
    assert forall|a: int, b: int| #![trigger q[a], q[b]]
        0 <= a < b < q.len() && 0 <= q[a] < pre.len() && 0 <= q[b] < pre.len()
            && pre[q[a]].le(pre[q[b]]) && pre[q[b]].le(pre[q[a]]) implies q[a] < q[b] by {
        if a == j && b == j + 1 {
            // a tie here would contradict the strict inversion being swapped
            assert(post[j] == pre[p[j]]);
            assert(post[j + 1] == pre[p[j + 1]]);
            assert(false);
        } else if a == j {
            assert(q[a] == p[j + 1] && q[b] == p[b]);
        } else if a == j + 1 {
            assert(q[a] == p[j] && q[b] == p[b]);
        } else if b == j {
            assert(q[a] == p[a] && q[b] == p[j + 1]);
        } else if b == j + 1 {
            assert(q[a] == p[a] && q[b] == p[j]);
        } else {
            assert(q[a] == p[a] && q[b] == p[b]);
        }
    }
    assert(perm_applies(q, pre, post2));
}

/// Exchange the elements at positions `i` and `j`.
///
/// The postcondition gives both the pointwise description of the new
/// contents and the fact that the multiset of elements is unchanged.
pub fn swap<T>(v: &mut Vec<T>, i: usize, j: usize)
    requires
        i < old(v).len(),
        j < old(v).len(),
    ensures
        final(v)@ == old(v)@.update(i as int, old(v)@[j as int]).update(j as int, old(v)@[i as int]),
        final(v)@.to_multiset() == old(v)@.to_multiset(),
        final(v)@.len() == old(v)@.len(),
{
    let ghost s = v@;
    if i < j {
        let x = v.remove(j);
        let y = v.remove(i);
        v.insert(i, x);
        v.insert(j, y);
        proof {
            assert(v@ =~= s.update(i as int, s[j as int]).update(j as int, s[i as int]));
        }
    } else if j < i {
        let x = v.remove(i);
        let y = v.remove(j);
        v.insert(j, x);
        v.insert(i, y);
        proof {
            assert(v@ =~= s.update(i as int, s[j as int]).update(j as int, s[i as int]));
        }
    } else {
        proof {
            assert(v@ =~= s.update(i as int, s[j as int]).update(j as int, s[i as int]));
        }
    }
    proof {
        lemma_swap_multiset(s, i as int, j as int);
    }
}

} // verus!
