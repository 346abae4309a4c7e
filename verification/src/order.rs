//! The element ordering every sorting routine relies on.
//!
//! [`TotalOrder`] packages a mathematical ordering relation `le`, an
//! executable decision procedure `leq` for it, and proof obligations that
//! every implementation must discharge: the relation is transitive and any
//! two values are comparable.  Antisymmetry is deliberately not demanded, so
//! a total preorder (say, records compared by one key) can be sorted too;
//! the one law that needs antisymmetry states it as an explicit hypothesis.

use vstd::prelude::*;

verus! {

/// A type whose values can be sorted.
///
/// `le` is the ordering as a specification-level relation, `leq` decides it
/// at run time, and the two lemmas oblige implementations to make the
/// relation transitive and total (any two values comparable).
pub trait TotalOrder: Sized {
    /// The ordering relation: `self` comes no later than `other`.
    spec fn le(self, other: Self) -> bool;

    /// Any two values are comparable.
    proof fn lemma_connex(a: Self, b: Self)
        ensures
            a.le(b) || b.le(a),
    ;

    /// The ordering is transitive.
    proof fn lemma_transitive(a: Self, b: Self, c: Self)
        requires
            a.le(b),
            b.le(c),
        ensures
            a.le(c),
    ;

    /// Decides the ordering on two values.
    fn leq(&self, other: &Self) -> (r: bool)
        ensures
            r == self.le(*other),
    ;
}

/// A sequence is sorted ascending under the element ordering.
pub open spec fn sorted<T: TotalOrder>(s: Seq<T>) -> bool {
    forall|i: int, j: int| 0 <= i < j < s.len() ==> #[trigger] s[i].le(s[j])
}

/// The ordering of `T` is antisymmetric: values comparing equal both ways
/// are the same value.  Holds for all the primitive integer orderings.
pub open spec fn antisymmetric_order<T: TotalOrder>() -> bool {
    forall|a: T, b: T| #![trigger a.le(b), b.le(a)] a.le(b) && b.le(a) ==> a == b
}

/// On a range where each element is `le` its successor, any earlier element
/// is `le` any later one.
pub proof fn lemma_adjacent_le_span<T: TotalOrder>(s: Seq<T>, a: int, b: int)
    requires
        0 <= a <= b < s.len(),
        forall|k: int| a <= k < b ==> #[trigger] s[k].le(s[k + 1]),
    ensures
        a < b ==> s[a].le(s[b]),
    decreases b - a,
{
    if a + 1 < b {
        lemma_adjacent_le_span(s, a, b - 1);
        assert(s[b - 1].le(s[b - 1 + 1]));
        T::lemma_transitive(s[a], s[b - 1], s[b]);
    } else if a + 1 == b {
        assert(s[a].le(s[a + 1]));
    }
}

/// Law: a sequence that is already sorted is left unchanged by any routine
/// meeting the shared sorting contract — sorted output with the same
/// multiset of elements.  In particular, sorting a sequence twice gives the
/// same sequence as sorting it once.  Needs the ordering to be
/// antisymmetric; with ties between distinct values two different sorted
/// arrangements of one multiset exist.
pub proof fn lemma_sorted_sort_unchanged<T: TotalOrder>(pre: Seq<T>, post: Seq<T>)
    requires
        antisymmetric_order::<T>(),
        sorted(pre),
        sorted(post),
        post.to_multiset() == pre.to_multiset(),
    ensures
        post == pre,
{
    let leq = (|a: T, b: T| a.le(b));
    assert forall|x: T| #[trigger] leq(x, x) by {
        T::lemma_connex(x, x);
    }
    assert forall|x: T, y: T| #![trigger leq(x, y), leq(y, x)]
        leq(x, y) && leq(y, x) implies x == y by {
        assert(x.le(y) && y.le(x));
    }
    assert forall|x: T, y: T, z: T| #![trigger leq(x, y), leq(y, z)]
        leq(x, y) && leq(y, z) implies leq(x, z) by {
        T::lemma_transitive(x, y, z);
    }
    assert forall|x: T, y: T| #![trigger leq(x, y), leq(y, x)]
        leq(x, y) || leq(y, x) by {
        T::lemma_connex(x, y);
    }
    assert(vstd::relations::total_ordering(leq));
    assert(vstd::relations::sorted_by(pre, leq));
    assert(vstd::relations::sorted_by(post, leq));
    vstd::seq_lib::lemma_sorted_unique(post, pre, leq);
    assert(post =~= pre);
}

/// Law: the empty and the singleton sequence are fixed points of every
/// routine meeting the sorting contract.  With at most one element there is
/// nothing to reorder, so preserving the multiset alone already pins the
/// result.
pub proof fn lemma_short_sort_unchanged<T>(pre: Seq<T>, post: Seq<T>)
    requires
        pre.len() <= 1,
        post.to_multiset() == pre.to_multiset(),
    ensures
        post == pre,
{
    broadcast use vstd::seq_lib::group_to_multiset_ensures;

    pre.to_multiset_ensures();
    post.to_multiset_ensures();
    assert(post.len() == pre.len());
    if pre.len() == 0 {
        assert(post =~= pre);
    } else {
        assert(post.contains(post[0])) by {
            assert(post[0] == post[0]);
        }
        assert(pre.to_multiset().count(post[0]) > 0);
        assert(pre.contains(post[0]));
        let w = choose|w: int| 0 <= w < pre.len() && pre[w] == post[0];
        assert(w == 0);
        assert(post =~= pre);
    }
}

impl TotalOrder for i8 {
    open spec fn le(self, other: i8) -> bool {
        self <= other
    }

    proof fn lemma_connex(a: i8, b: i8) {
    }

    proof fn lemma_transitive(a: i8, b: i8, c: i8) {
    }

    fn leq(&self, other: &i8) -> (r: bool) {
        *self <= *other
    }
}

impl TotalOrder for i16 {
    open spec fn le(self, other: i16) -> bool {
        self <= other
    }

    proof fn lemma_connex(a: i16, b: i16) {
    }

    proof fn lemma_transitive(a: i16, b: i16, c: i16) {
    }

    fn leq(&self, other: &i16) -> (r: bool) {
        *self <= *other
    }
}

impl TotalOrder for i32 {
    open spec fn le(self, other: i32) -> bool {
        self <= other
    }

    proof fn lemma_connex(a: i32, b: i32) {
    }

    proof fn lemma_transitive(a: i32, b: i32, c: i32) {
    }

    fn leq(&self, other: &i32) -> (r: bool) {
        *self <= *other
    }
}

impl TotalOrder for i64 {
    open spec fn le(self, other: i64) -> bool {
        self <= other
    }

    proof fn lemma_connex(a: i64, b: i64) {
    }

    proof fn lemma_transitive(a: i64, b: i64, c: i64) {
    }

    fn leq(&self, other: &i64) -> (r: bool) {
        *self <= *other
    }
}

impl TotalOrder for isize {
    open spec fn le(self, other: isize) -> bool {
        self <= other
    }

    proof fn lemma_connex(a: isize, b: isize) {
    }

    proof fn lemma_transitive(a: isize, b: isize, c: isize) {
    }

    fn leq(&self, other: &isize) -> (r: bool) {
        *self <= *other
    }
}

impl TotalOrder for u8 {
    open spec fn le(self, other: u8) -> bool {
        self <= other
    }

    proof fn lemma_connex(a: u8, b: u8) {
    }

    proof fn lemma_transitive(a: u8, b: u8, c: u8) {
    }

    fn leq(&self, other: &u8) -> (r: bool) {
        *self <= *other
    }
}

impl TotalOrder for u16 {
    open spec fn le(self, other: u16) -> bool {
        self <= other
    }

    proof fn lemma_connex(a: u16, b: u16) {
    }

    proof fn lemma_transitive(a: u16, b: u16, c: u16) {
    }

    fn leq(&self, other: &u16) -> (r: bool) {
        *self <= *other
    }
}

impl TotalOrder for u32 {
    open spec fn le(self, other: u32) -> bool {
        self <= other
    }

    proof fn lemma_connex(a: u32, b: u32) {
    }

    proof fn lemma_transitive(a: u32, b: u32, c: u32) {
    }

    fn leq(&self, other: &u32) -> (r: bool) {
        *self <= *other
    }
}

impl TotalOrder for u64 {
    open spec fn le(self, other: u64) -> bool {
        self <= other
    }

    proof fn lemma_connex(a: u64, b: u64) {
    }

    proof fn lemma_transitive(a: u64, b: u64, c: u64) {
    }

    fn leq(&self, other: &u64) -> (r: bool) {
        *self <= *other
    }
}

impl TotalOrder for usize {
    open spec fn le(self, other: usize) -> bool {
        self <= other
    }

    proof fn lemma_connex(a: usize, b: usize) {
    }

    proof fn lemma_transitive(a: usize, b: usize, c: usize) {
    }

    fn leq(&self, other: &usize) -> (r: bool) {
        *self <= *other
    }
}

} // verus!
