//! Stable sorting by insertion, for the lists the node reports in a fixed order.

use vstd::prelude::*;

verus! {

/// A type whose values have a place in a list: one value may have to stand ahead of
/// another.
pub trait Ranked: View + Sized {
    /// `a` has to stand ahead of `b`.
    spec fn ahead(a: Self::V, b: Self::V) -> bool;

    /// Whether this value has to stand ahead of another.
    fn is_ahead(&self, other: &Self) -> (r: bool)
        ensures
            r == Self::ahead(self@, other@),
    ;
}

/// Models of the elements of a list.
pub open spec fn views<T: View>(v: Seq<T>) -> Seq<T::V> {
    v.map_values(|x: T| x@)
}

/// A list with one more value, behind everything it does not have to stand ahead of.
pub open spec fn placed<T: Ranked>(s: Seq<T::V>, x: T::V) -> Seq<T::V>
    decreases s.len(),
{
    if s.len() == 0 || !T::ahead(x, s.last()) {
        s.push(x)
    } else {
        placed::<T>(s.drop_last(), x).push(s.last())
    }
}

/// The values of a list in rank order; values of the same rank keep their order.
pub open spec fn ranked<T: Ranked>(s: Seq<T::V>) -> Seq<T::V>
    decreases s.len(),
{
    if s.len() == 0 {
        s
    } else {
        placed::<T>(ranked::<T>(s.drop_last()), s.last())
    }
}

proof fn lemma_placed_multiset<T: Ranked>(s: Seq<T::V>, x: T::V)
    ensures
        placed::<T>(s, x).to_multiset() == s.to_multiset().insert(x),
    decreases s.len(),
{
    broadcast use vstd::seq_lib::group_to_multiset_ensures;

    if !(s.len() == 0 || !T::ahead(x, s.last())) {
        lemma_placed_multiset::<T>(s.drop_last(), x);
        assert(s =~= s.drop_last().push(s.last()));
        assert(placed::<T>(s, x).to_multiset() =~= s.to_multiset().insert(x));
    }
}

/// Ranking a list keeps exactly its values.
pub proof fn law_ranking_keeps_values<T: Ranked>(s: Seq<T::V>)
    ensures
        ranked::<T>(s).to_multiset() == s.to_multiset(),
    decreases s.len(),
{
    broadcast use vstd::seq_lib::group_to_multiset_ensures;

    if s.len() > 0 {
        law_ranking_keeps_values::<T>(s.drop_last());
        lemma_placed_multiset::<T>(ranked::<T>(s.drop_last()), s.last());
        assert(s =~= s.drop_last().push(s.last()));
    }
}

/// A list is in rank order: no value has to stand ahead of an earlier one.
pub open spec fn in_order<T: Ranked>(s: Seq<T::V>) -> bool {
    forall|i: int, j: int|
        0 <= i < j < s.len() ==> !T::ahead(#[trigger] s[j], #[trigger] s[i])
}

/// Being ahead is irreflexive, and its negation is transitive.
pub open spec fn orderly<T: Ranked>() -> bool {
    &&& forall|a: T::V| !#[trigger] T::ahead(a, a)
    &&& forall|a: T::V, b: T::V, c: T::V|
        !#[trigger] T::ahead(b, a) && !#[trigger] T::ahead(c, b) ==> !T::ahead(c, a)
    &&& forall|a: T::V, b: T::V| #[trigger] T::ahead(a, b) ==> !T::ahead(b, a)
}

proof fn lemma_placed_at<T: Ranked>(s: Seq<T::V>, x: T::V, i: int)
    requires
        0 <= i < placed::<T>(s, x).len(),
    ensures
        placed::<T>(s, x).len() == s.len() + 1,
        placed::<T>(s, x)[i] == x || exists|k: int|
            0 <= k < s.len() && #[trigger] s[k] == placed::<T>(s, x)[i],
    decreases s.len(),
{
    let p = placed::<T>(s, x);
    if s.len() == 0 || !T::ahead(x, s.last()) {
        if i < s.len() {
            assert(s[i] == p[i]);
        }
    } else {
        let q = placed::<T>(s.drop_last(), x);
        if s.len() > 1 || i == 0 {
            lemma_placed_at::<T>(s.drop_last(), x, if i < q.len() {
                i
            } else {
                0
            });
        } else {
            lemma_placed_at::<T>(s.drop_last(), x, 0);
        }
        if i < q.len() {
            if q[i] != x {
                let k = choose|k: int| 0 <= k < s.drop_last().len() && #[trigger] s.drop_last()[k] == q[i];
                assert(s[k] == p[i]);
            }
        } else {
            assert(s[s.len() - 1] == p[i]);
        }
    }
}

proof fn lemma_placed_in_order<T: Ranked>(s: Seq<T::V>, x: T::V)
    requires
        orderly::<T>(),
        in_order::<T>(s),
    ensures
        in_order::<T>(placed::<T>(s, x)),
    decreases s.len(),
{
    let p = placed::<T>(s, x);
    if s.len() == 0 || !T::ahead(x, s.last()) {
        assert forall|i: int, j: int| 0 <= i < j < p.len() implies !T::ahead(
            #[trigger] p[j],
            #[trigger] p[i],
        ) by {
            assert(p[i] == s[i]);
            if j == s.len() {
                if i < s.len() - 1 {
                    assert(!T::ahead(s[s.len() - 1], s[i]));
                }
                assert(!T::ahead(x, s.last()));
                assert(!T::ahead(x, s[i]));
            } else {
                assert(p[j] == s[j]);
            }
        }
    } else {
        let d = s.drop_last();
        let q = placed::<T>(d, x);
        assert(in_order::<T>(d)) by {
            assert forall|i: int, j: int| 0 <= i < j < d.len() implies !T::ahead(
                #[trigger] d[j],
                #[trigger] d[i],
            ) by {
                assert(d[i] == s[i] && d[j] == s[j]);
            }
        }
        lemma_placed_in_order::<T>(d, x);
        assert forall|i: int, j: int| 0 <= i < j < p.len() implies !T::ahead(
            #[trigger] p[j],
            #[trigger] p[i],
        ) by {
            assert(p[i] == q[i]);
            if j == q.len() {
                assert(p[j] == s.last());
                lemma_placed_at::<T>(d, x, i);
                if q[i] == x {
                    assert(T::ahead(x, s.last()));
                } else {
                    let k = choose|k: int| 0 <= k < d.len() && #[trigger] d[k] == q[i];
                    assert(d[k] == s[k]);
                    assert(!T::ahead(s[s.len() - 1], s[k]));
                }
            } else {
                assert(p[j] == q[j]);
            }
        }
    }
}

/// Ranking a list puts it in rank order.
pub proof fn law_ranking_orders<T: Ranked>(s: Seq<T::V>)
    requires
        orderly::<T>(),
    ensures
        in_order::<T>(ranked::<T>(s)),
    decreases s.len(),
{
    if s.len() > 0 {
        law_ranking_orders::<T>(s.drop_last());
        lemma_placed_in_order::<T>(ranked::<T>(s.drop_last()), s.last());
    }
}

pub proof fn lemma_split_step<T: Ranked>(s: Seq<T::V>, x: T::V, at: int)
    requires
        0 < at <= s.len(),
        placed::<T>(s, x) == placed::<T>(s.take(at), x) + s.skip(at),
        T::ahead(x, s[at - 1]),
    ensures
        placed::<T>(s, x) == placed::<T>(s.take(at - 1), x) + s.skip(at - 1),
{
    let t = s.take(at);
    assert(t.drop_last() =~= s.take(at - 1));
    assert(t.last() == s[at - 1]);
    assert(placed::<T>(t, x) == placed::<T>(s.take(at - 1), x).push(s[at - 1]));
    assert(placed::<T>(s.take(at - 1), x).push(s[at - 1]) + s.skip(at) =~= placed::<T>(
        s.take(at - 1),
        x,
    ) + s.skip(at - 1));
}

/// Puts a value into a list at its rank.
pub fn place<T: Ranked>(v: &mut Vec<T>, x: T)
    ensures
        views(final(v)@) == placed::<T>(views(old(v)@), x@),
{
    let ghost s = views(v@);
    let mut at: usize = v.len();
    assert(s.take(at as int) =~= s);
    assert(placed::<T>(s, x@) =~= placed::<T>(s.take(at as int), x@) + s.skip(at as int));
    while at > 0 && x.is_ahead(&v[at - 1])
        invariant
            at <= v@.len(),
            s == views(v@),
            v@ == old(v)@,
            placed::<T>(s, x@) == placed::<T>(s.take(at as int), x@) + s.skip(at as int),
        decreases at,
    {
        proof {
            lemma_split_step::<T>(s, x@, at as int);
        }
        at = at - 1;
    }
    let ghost xv = x@;
    proof {
        if at > 0 {
            assert(s.take(at as int).last() == s[at - 1]);
        }
    }
    v.insert(at, x);
    assert(views(v@) =~= s.take(at as int).push(xv) + s.skip(at as int));
}

} // verus!
