//! Sorting of faces and of values.

use vstd::prelude::*;
use vstd::relations::{sorted_by, total_ordering};
use vstd::seq_lib::{lemma_sorted_unique, to_multiset_build, to_multiset_insert};

verus! {

/// A value that is ordered by an integer, its rank. Different values have
/// different ranks.
pub trait Ranked: Copy + Sized {
    /// The integer by which values of this type are ordered.
    spec fn rank(self) -> int;

    /// Values of equal rank are equal.
    proof fn rank_tells_apart(a: Self, b: Self)
        requires
            a.rank() == b.rank(),
        ensures
            a == b,
    ;

    /// Whether `self` comes before `other`, or is equal to it.
    fn at_most(self, other: Self) -> (b: bool)
        ensures
            b == (self.rank() <= other.rank()),
    ;
}

impl Ranked for u64 {
    open spec fn rank(self) -> int {
        self as int
    }

    proof fn rank_tells_apart(a: Self, b: Self) {
    }

    fn at_most(self, other: Self) -> (b: bool) {
        self <= other
    }
}

impl Ranked for i64 {
    open spec fn rank(self) -> int {
        self as int
    }

    proof fn rank_tells_apart(a: Self, b: Self) {
    }

    fn at_most(self, other: Self) -> (b: bool) {
        self <= other
    }
}

/// The order of ranks, as a relation.
pub open spec fn by_rank<T: Ranked>() -> spec_fn(T, T) -> bool {
    |a: T, b: T| a.rank() <= b.rank()
}

/// The items of `s` from the lowest to the highest.
pub open spec fn ascending<T: Ranked>(s: Seq<T>) -> Seq<T> {
    s.sort_by(by_rank::<T>())
}

/// The items of `s` from the highest to the lowest.
pub open spec fn descending<T: Ranked>(s: Seq<T>) -> Seq<T> {
    ascending(s).reverse()
}

/// Whether `s` runs from low to high.
pub open spec fn is_ascending<T: Ranked>(s: Seq<T>) -> bool {
    forall|i: int, j: int| 0 <= i < j < s.len() ==> s[i].rank() <= s[j].rank()
}

pub proof fn lemma_by_rank_total<T: Ranked>()
    ensures
        total_ordering(by_rank::<T>()),
{
    let r = by_rank::<T>();
    assert forall|x: T, y: T| #[trigger] r(x, y) && #[trigger] r(y, x) implies x == y by {
        T::rank_tells_apart(x, y);
    }
}

/// `ascending(s)` holds the items of `s`, each as often as `s` does, in
/// rising order.
pub proof fn lemma_ascending<T: Ranked>(s: Seq<T>)
    ensures
        ascending(s).to_multiset() == s.to_multiset(),
        ascending(s).len() == s.len(),
        is_ascending(ascending(s)),
{
    lemma_by_rank_total::<T>();
    s.lemma_sort_by_ensures(by_rank::<T>());
    s.to_multiset_ensures();
    ascending(s).to_multiset_ensures();
    let a = ascending(s);
    assert forall|i: int, j: int| 0 <= i < j < a.len() implies a[i].rank() <= a[j].rank() by {
        assert(by_rank::<T>()(a[i], a[j]));
    }
}

/// A rising sequence with the items of `s` is `ascending(s)`.
pub proof fn lemma_ascending_unique<T: Ranked>(s: Seq<T>, a: Seq<T>)
    requires
        is_ascending(a),
        a.to_multiset() == s.to_multiset(),
    ensures
        a == ascending(s),
{
    lemma_by_rank_total::<T>();
    s.lemma_sort_by_ensures(by_rank::<T>());
    assert(sorted_by(a, by_rank::<T>()));
    lemma_sorted_unique(a, ascending(s), by_rank::<T>());
}

/// The items of `v`, lowest first.
pub fn sort_ascending<T: Ranked>(v: &Vec<T>) -> (out: Vec<T>)
    ensures
        out@ == ascending(v@),
{
    let mut out: Vec<T> = Vec::new();
    let mut i: usize = 0;
    assert(out@ =~= v@.take(0));
    while i < v.len()
        invariant
            i <= v.len(),
            out@.len() == i,
            is_ascending(out@),
            out@.to_multiset() == v@.take(i as int).to_multiset(),
        decreases v.len() - i,
    {
        let x = v[i];
        let mut pos: usize = out.len();
        while pos > 0 && !out[pos - 1].at_most(x)
            invariant
                pos <= out@.len(),
                forall|k: int| pos <= k < out@.len() ==> out@[k].rank() > x.rank(),
            decreases pos,
        {
            pos = pos - 1;
        }
        let ghost before = out@;
        out.insert(pos, x);
        proof {
            to_multiset_insert(before, pos as int, x);
            assert(v@.take(i + 1) =~= v@.take(i as int).push(x));
            to_multiset_build(v@.take(i as int), x);
            assert forall|a: int, b: int| 0 <= a < b < out@.len() implies out@[a].rank()
                <= out@[b].rank() by {
                if a < pos && b > pos {
                    assert(out@[a] == before[a]);
                    assert(out@[b] == before[b - 1]);
                } else if a < pos && b == pos {
                    assert(out@[a] == before[a]);
                    if a < pos - 1 {
                        assert(before[a].rank() <= before[pos - 1].rank());
                    }
                } else if a < pos && b < pos {
                    assert(out@[a] == before[a]);
                    assert(out@[b] == before[b]);
                } else if a == pos {
                    assert(out@[b] == before[b - 1]);
                } else {
                    assert(out@[a] == before[a - 1]);
                    assert(out@[b] == before[b - 1]);
                }
            }
        }
        i = i + 1;
    }
    proof {
        assert(v@.take(v.len() as int) =~= v@);
        lemma_ascending_unique(v@, out@);
    }
    out
}

/// The items of `v`, highest first.
pub fn sort_descending<T: Ranked>(v: &Vec<T>) -> (out: Vec<T>)
    ensures
        out@ == descending(v@),
{
    let up = sort_ascending(v);
    let mut out: Vec<T> = Vec::new();
    let mut i: usize = up.len();
    while i > 0
        invariant
            i <= up@.len(),
            out@.len() == up@.len() - i,
            forall|k: int| 0 <= k < out@.len() ==> out@[k] == up@[up@.len() - 1 - k],
        decreases i,
    {
        i = i - 1;
        out.push(up[i]);
    }
    assert(out@ =~= up@.reverse());
    out
}

} // verus!
