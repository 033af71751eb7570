//! Ranking: the `ORDER BY` of the history queries. A ranked type carries a total
//! order on its view; `rank_sort` returns exactly `Seq::sort_by` of that order.

use vstd::prelude::*;
use vstd::multiset::Multiset;
use vstd::relations::{sorted_by, total_ordering};

verus! {

pub trait Rank: View + Sized {
    /// `a` may come before `b`.
    spec fn rank_le(a: Self::V, b: Self::V) -> bool;

    proof fn lemma_rank_total()
        ensures
            total_ordering(|a: Self::V, b: Self::V| Self::rank_le(a, b)),
    ;

    fn ranks_before(&self, other: &Self) -> (r: bool)
        ensures
            r == Self::rank_le(self@, other@),
    ;
}

pub open spec fn rank_order<T: Rank>() -> spec_fn(T::V, T::V) -> bool {
    |a: T::V, b: T::V| T::rank_le(a, b)
}

pub open spec fn views<T: View>(s: Seq<T>) -> Seq<T::V> {
    s.map_values(|x: T| x@)
}

/// The elements of `s` in rank order.
pub open spec fn ranked<T: Rank>(s: Seq<T::V>) -> Seq<T::V> {
    s.sort_by(rank_order::<T>())
}

/// `s` restricted to its first `limit` elements; a negative limit (SQLite's
/// `LIMIT -1`) keeps everything.
pub open spec fn limited<A>(s: Seq<A>, limit: i64) -> Seq<A> {
    if 0 <= limit < s.len() {
        s.take(limit as int)
    } else {
        s
    }
}

proof fn lemma_insert_multiset<A>(s: Seq<A>, p: int, x: A)
    requires
        0 <= p <= s.len(),
    ensures
        s.insert(p, x).to_multiset() == s.to_multiset().insert(x),
{
    broadcast use vstd::seq_lib::group_to_multiset_ensures;
    broadcast use vstd::multiset::group_multiset_axioms;

    let l = s.take(p);
    let r = s.skip(p);
    assert(s =~= l + r);
    assert(s.insert(p, x) =~= l + (seq![x] + r));
    vstd::seq_lib::lemma_multiset_commutative(l, r);
    vstd::seq_lib::lemma_multiset_commutative(l, seq![x] + r);
    vstd::seq_lib::lemma_multiset_commutative(seq![x], r);
    assert(seq![x].to_multiset() =~= Multiset::empty().insert(x)) by {
        assert(seq![x] =~= Seq::<A>::empty().push(x));
    }
    assert(s.insert(p, x).to_multiset() =~= s.to_multiset().insert(x));
}

/// Sorts by rank (insertion sort); the result is `ranked` of the input.
pub fn rank_sort<T: Rank>(v: Vec<T>) -> (r: Vec<T>)
    ensures
        views(r@) == ranked::<T>(views(v@)),
{
    let ghost leq = rank_order::<T>();
    proof {
        T::lemma_rank_total();
    }
    let ghost input = views(v@);
    let mut out: Vec<T> = Vec::new();
    let mut rest = v;
    let ghost consumed: Seq<T::V> = Seq::empty();
    assert(views(out@) =~= Seq::<T::V>::empty());
    assert(input =~= views(rest@) + consumed.reverse());
    while rest.len() > 0
        invariant
            total_ordering(leq),
            leq == rank_order::<T>(),
            sorted_by(views(out@), leq),
            views(out@).to_multiset() == consumed.to_multiset(),
            input == views(rest@) + consumed.reverse(),
        decreases rest.len(),
    {
        let ghost before = views(out@);
        let ghost rest_v = views(rest@);
        let x = rest.pop().unwrap();
        let ghost xv = x@;
        proof {
            assert(rest_v =~= views(rest@).push(xv));
            assert(consumed.push(xv).reverse() =~= seq![xv] + consumed.reverse());
            assert(input =~= views(rest@) + consumed.push(xv).reverse());
        }
        let mut p: usize = 0;
        while p < out.len() && !x.ranks_before(&out[p])
            invariant
                p <= out.len(),
                before == views(out@),
                xv == x@,
                total_ordering(leq),
                leq == rank_order::<T>(),
                forall|i: int| 0 <= i < p ==> !leq(xv, #[trigger] before[i]),
            decreases out.len() - p,
        {
            proof {
                assert(before[p as int] == out@[p as int]@);
            }
            p = p + 1;
        }
        out.insert(p, x);
        proof {
            let after = views(out@);
            assert(after =~= before.insert(p as int, xv));
            // x is strictly after everything before position p
            assert forall|i: int, j: int| 0 <= i < j < after.len() implies #[trigger] leq(
                after[i],
                after[j],
            ) by {
                if j < p {
                    assert(after[i] == before[i] && after[j] == before[j]);
                } else if j == p {
                    assert(after[i] == before[i]);
                    assert(!leq(xv, before[i]));
                } else if i == p {
                    assert(after[j] == before[j - 1]);
                    // leq(xv, before[p]) and before[p] <= before[j - 1]
                    assert(leq(xv, before[p as int]));
                    if j - 1 > p {
                        assert(leq(before[p as int], before[j - 1]));
                    }
                } else if i < p {
                    assert(after[i] == before[i] && after[j] == before[j - 1]);
                } else {
                    assert(after[i] == before[i - 1] && after[j] == before[j - 1]);
                }
            }
            lemma_insert_multiset(before, p as int, xv);
            broadcast use vstd::seq_lib::group_to_multiset_ensures;

            consumed = consumed.push(xv);
        }
    }
    proof {
        assert(input =~= consumed.reverse());
        consumed.lemma_reverse_to_multiset();
        input.lemma_sort_by_ensures(leq);
        vstd::seq_lib::lemma_sorted_unique(views(out@), input.sort_by(leq), leq);
    }
    out
}

} // verus!
