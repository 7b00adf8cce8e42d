//! An ordered table from byte strings to values, kept as rows sorted by key.
//!
//! A table is modelled as a map; walking its rows in order is modelled by `ordered`,
//! the one sequence of entries sorted by key that makes up the map.

use crate::text;
use crate::text::Rank;
use vstd::prelude::*;

verus! {

/// One row of a table.
pub struct Row<V> {
    pub key: Vec<u8>,
    pub val: V,
}

/// An ordered table.
pub struct Table<V> {
    rows: Vec<Box<Row<V>>>,
}

// ---------------------------------------------------------------- entries

/// Keys strictly increase.
pub open spec fn increasing<V>(s: Seq<(Seq<u8>, V)>) -> bool {
    forall|i: int, j: int|
        0 <= i < j < s.len() ==> text::lex_lt(#[trigger] s[i].0, #[trigger] s[j].0)
}

/// The map a sequence of entries makes up.
pub open spec fn map_of<V>(s: Seq<(Seq<u8>, V)>) -> Map<Seq<u8>, V>
    decreases s.len(),
{
    if s.len() == 0 {
        Map::empty()
    } else {
        map_of(s.drop_last()).insert(s.last().0, s.last().1)
    }
}

/// The entries of a map in key order.
pub open spec fn ordered<V>(m: Map<Seq<u8>, V>) -> Seq<(Seq<u8>, V)> {
    choose|s: Seq<(Seq<u8>, V)>| increasing(s) && map_of(s) == m
}

/// A key is in the map exactly when an entry holds it.
pub proof fn lemma_map_of_dom<V>(s: Seq<(Seq<u8>, V)>, k: Seq<u8>)
    ensures
        map_of(s).contains_key(k) <==> (exists|i: int| 0 <= i < s.len() && (#[trigger] s[i]).0 == k),
    decreases s.len(),
{
    if s.len() > 0 {
        let d = s.drop_last();
        lemma_map_of_dom(d, k);
        if map_of(s).contains_key(k) {
            if s.last().0 == k {
                assert(s[s.len() - 1].0 == k);
            } else {
                let i = choose|i: int| 0 <= i < d.len() && (#[trigger] d[i]).0 == k;
                assert(s[i].0 == k);
            }
        }
        if exists|i: int| 0 <= i < s.len() && (#[trigger] s[i]).0 == k {
            let i = choose|i: int| 0 <= i < s.len() && (#[trigger] s[i]).0 == k;
            if i < d.len() {
                assert(d[i].0 == k);
            }
        }
    }
}

/// With strictly increasing keys, the map holds each entry's value at its key.
pub proof fn lemma_map_of_at<V>(s: Seq<(Seq<u8>, V)>, i: int)
    requires
        increasing(s),
        0 <= i < s.len(),
    ensures
        map_of(s).contains_key(s[i].0),
        map_of(s)[s[i].0] == s[i].1,
    decreases s.len(),
{
    let d = s.drop_last();
    if i < d.len() {
        assert forall|a: int, b: int| 0 <= a < b < d.len() implies text::lex_lt(
            #[trigger] d[a].0,
            #[trigger] d[b].0,
        ) by {
            assert(text::lex_lt(s[a].0, s[b].0));
        }
        lemma_map_of_at(d, i);
        assert(d[i] == s[i]);
        assert(text::lex_lt(s[i].0, s[s.len() - 1].0));
        text::lemma_lex_irreflexive(s[i].0);
    }
}

/// Strictly increasing keys are all different.
pub proof fn lemma_increasing_unique<V>(s: Seq<(Seq<u8>, V)>, i: int, j: int)
    requires
        increasing(s),
        0 <= i < s.len(),
        0 <= j < s.len(),
        s[i].0 == s[j].0,
    ensures
        i == j,
{
    text::lemma_lex_irreflexive(s[i].0);
    if i < j {
        assert(text::lex_lt(s[i].0, s[j].0));
    }
    if j < i {
        assert(text::lex_lt(s[j].0, s[i].0));
    }
}

/// Without its last entry a sorted sequence is still sorted, and its map loses just
/// that key.
pub proof fn lemma_increasing_drop_last<V>(s: Seq<(Seq<u8>, V)>)
    requires
        increasing(s),
        s.len() > 0,
    ensures
        increasing(s.drop_last()),
        map_of(s.drop_last()) == map_of(s).remove(s.last().0),
{
    let d = s.drop_last();
    assert forall|a: int, b: int| 0 <= a < b < d.len() implies text::lex_lt(
        #[trigger] d[a].0,
        #[trigger] d[b].0,
    ) by {
        assert(text::lex_lt(s[a].0, s[b].0));
    }
    let k = s.last().0;
    lemma_map_of_dom(d, k);
    if map_of(d).contains_key(k) {
        let a = choose|a: int| 0 <= a < d.len() && (#[trigger] d[a]).0 == k;
        lemma_increasing_unique(s, a, s.len() - 1);
    }
    assert(map_of(d) =~= map_of(s).remove(k));
}

/// The last key of a sorted sequence is the greatest key of its map.
proof fn lemma_last_is_greatest<V>(s: Seq<(Seq<u8>, V)>, k: Seq<u8>)
    requires
        increasing(s),
        s.len() > 0,
        map_of(s).contains_key(k),
    ensures
        k == s.last().0 || text::lex_lt(k, s.last().0),
{
    lemma_map_of_dom(s, k);
    let j = choose|j: int| 0 <= j < s.len() && (#[trigger] s[j]).0 == k;
    if j < s.len() - 1 {
        assert(text::lex_lt(s[j].0, s[s.len() - 1].0));
    }
}

/// Entries sorted by key are determined by the map they make up.
pub proof fn lemma_increasing_canonical<V>(s: Seq<(Seq<u8>, V)>, t: Seq<(Seq<u8>, V)>)
    requires
        increasing(s),
        increasing(t),
        map_of(s) == map_of(t),
    ensures
        s == t,
    decreases s.len() + t.len(),
{
    if s.len() == 0 {
        if t.len() > 0 {
            lemma_map_of_at(t, 0);
            assert(!map_of(s).contains_key(t[0].0));
        }
        assert(s =~= t);
    } else if t.len() == 0 {
        lemma_map_of_at(s, 0);
        assert(!map_of(t).contains_key(s[0].0));
    } else {
        lemma_map_of_at(s, s.len() - 1);
        lemma_map_of_at(t, t.len() - 1);
        lemma_last_is_greatest(t, s.last().0);
        lemma_last_is_greatest(s, t.last().0);
        if s.last().0 != t.last().0 {
            text::lemma_lex_transitive(s.last().0, t.last().0, s.last().0);
            text::lemma_lex_irreflexive(s.last().0);
        }
        lemma_increasing_drop_last(s);
        lemma_increasing_drop_last(t);
        lemma_increasing_canonical(s.drop_last(), t.drop_last());
        assert(s.last() == t.last());
        assert(s =~= s.drop_last().push(s.last()));
        assert(t =~= t.drop_last().push(t.last()));
    }
}

/// Walking sorted entries is walking their map in key order.
pub proof fn lemma_ordered<V>(s: Seq<(Seq<u8>, V)>)
    requires
        increasing(s),
    ensures
        ordered(map_of(s)) == s,
        increasing(ordered(map_of(s))),
        map_of(ordered(map_of(s))) == map_of(s),
{
    let t = ordered(map_of(s));
    assert(increasing(s) && map_of(s) == map_of(s));
    lemma_increasing_canonical(s, t);
}

/// Putting a fresh key in its place extends the map.
proof fn lemma_insert_at<V>(s: Seq<(Seq<u8>, V)>, i: int, e: (Seq<u8>, V))
    requires
        increasing(s),
        0 <= i <= s.len(),
        forall|j: int| 0 <= j < i ==> text::lex_lt(#[trigger] s[j].0, e.0),
        forall|j: int| i <= j < s.len() ==> text::lex_lt(e.0, #[trigger] s[j].0),
    ensures
        increasing(s.insert(i, e)),
        map_of(s.insert(i, e)) == map_of(s).insert(e.0, e.1),
{
    let t = s.insert(i, e);
    assert forall|a: int, b: int| 0 <= a < b < t.len() implies text::lex_lt(
        #[trigger] t[a].0,
        #[trigger] t[b].0,
    ) by {
        let a0 = if a < i {
            a
        } else {
            a - 1
        };
        let b0 = if b < i {
            b
        } else {
            b - 1
        };
        if a != i && b != i {
            assert(t[a] == s[a0] && t[b] == s[b0]);
        } else if a == i {
            assert(t[b] == s[b0]);
        } else {
            assert(t[a] == s[a0]);
        }
    }
    lemma_insert_map(s, i, e);
}

/// Inserting an entry among sorted ones extends the map.
proof fn lemma_insert_map<V>(s: Seq<(Seq<u8>, V)>, i: int, e: (Seq<u8>, V))
    requires
        increasing(s),
        0 <= i <= s.len(),
        increasing(s.insert(i, e)),
    ensures
        map_of(s.insert(i, e)) == map_of(s).insert(e.0, e.1),
{
    let t = s.insert(i, e);
    let m = map_of(s).insert(e.0, e.1);
    assert forall|k: Seq<u8>|
        #![trigger map_of(t).dom().contains(k)]
        #![trigger m.dom().contains(k)]
        map_of(t).dom().contains(k) == m.dom().contains(k) && (m.dom().contains(k) ==> map_of(t)[k]
            == m[k]) by {
        lemma_map_of_dom(t, k);
        lemma_map_of_dom(s, k);
        if map_of(t).contains_key(k) {
            let j = choose|j: int| 0 <= j < t.len() && (#[trigger] t[j]).0 == k;
            lemma_map_of_at(t, j);
            if j < i {
                assert(t[j] == s[j]);
                lemma_map_of_at(s, j);
                lemma_map_of_at(t, i);
                if k == e.0 {
                    lemma_increasing_unique(t, i, j);
                }
            } else if j > i {
                assert(t[j] == s[j - 1]);
                lemma_map_of_at(s, j - 1);
                if k == e.0 {
                    lemma_increasing_unique(t, i, j);
                }
            }
        }
        if m.contains_key(k) {
            if k == e.0 {
                assert(t[i].0 == k);
            } else {
                let j = choose|j: int| 0 <= j < s.len() && (#[trigger] s[j]).0 == k;
                if j < i {
                    assert(t[j] == s[j]);
                } else {
                    assert(t[j + 1] == s[j]);
                }
            }
        }
    }
    assert(map_of(t) =~= m);
}

/// Replacing the value of an entry replaces it in the map.
proof fn lemma_update_at<V>(s: Seq<(Seq<u8>, V)>, i: int, v: V)
    requires
        increasing(s),
        0 <= i < s.len(),
    ensures
        increasing(s.update(i, (s[i].0, v))),
        map_of(s.update(i, (s[i].0, v))) == map_of(s).insert(s[i].0, v),
{
    let t = s.update(i, (s[i].0, v));
    assert forall|a: int, b: int| 0 <= a < b < t.len() implies text::lex_lt(
        #[trigger] t[a].0,
        #[trigger] t[b].0,
    ) by {
        assert(text::lex_lt(s[a].0, s[b].0));
    }
    let m = map_of(s).insert(s[i].0, v);
    assert forall|k: Seq<u8>|
        #![trigger map_of(t).dom().contains(k)]
        #![trigger m.dom().contains(k)]
        map_of(t).dom().contains(k) == m.dom().contains(k) && (m.dom().contains(k) ==> map_of(t)[k]
            == m[k]) by {
        lemma_map_of_dom(t, k);
        lemma_map_of_dom(s, k);
        if map_of(t).contains_key(k) {
            let j = choose|j: int| 0 <= j < t.len() && (#[trigger] t[j]).0 == k;
            assert(s[j].0 == k);
            lemma_map_of_at(t, j);
            lemma_map_of_at(s, j);
            if j != i && s[j].0 == s[i].0 {
                lemma_increasing_unique(s, i, j);
            }
        }
        if m.contains_key(k) {
            if k == s[i].0 {
                assert(t[i].0 == k);
            } else {
                let j = choose|j: int| 0 <= j < s.len() && (#[trigger] s[j]).0 == k;
                assert(t[j].0 == k);
            }
        }
    }
    assert(map_of(t) =~= m);
}

/// Entries with a function applied to their values.
pub open spec fn mapped<V, W>(s: Seq<(Seq<u8>, V)>, f: spec_fn(V) -> W) -> Seq<(Seq<u8>, W)> {
    s.map_values(|e: (Seq<u8>, V)| (e.0, f(e.1)))
}

proof fn lemma_mapped_map<V, W>(s: Seq<(Seq<u8>, V)>, f: spec_fn(V) -> W)
    ensures
        map_of(mapped(s, f)) == map_of(s).map_values(f),
    decreases s.len(),
{
    if s.len() > 0 {
        let d = s.drop_last();
        lemma_mapped_map(d, f);
        assert(mapped(s, f).drop_last() =~= mapped(d, f));
        assert(mapped(s, f).last() == (s.last().0, f(s.last().1)));
    }
    assert(map_of(mapped(s, f)) =~= map_of(s).map_values(f));
}

/// Applying a function to the values of a map applies it along the walk.
pub proof fn lemma_ordered_mapped<V, W>(s: Seq<(Seq<u8>, V)>, f: spec_fn(V) -> W)
    requires
        increasing(s),
    ensures
        ordered(map_of(s).map_values(f)) == mapped(s, f),
{
    let m = mapped(s, f);
    lemma_mapped_map(s, f);
    assert forall|i: int, j: int| 0 <= i < j < m.len() implies text::lex_lt(
        #[trigger] m[i].0,
        #[trigger] m[j].0,
    ) by {
        assert(text::lex_lt(s[i].0, s[j].0));
    }
    lemma_ordered(m);
}

/// A map has entries that can be walked in key order.
pub open spec fn tabular<V>(m: Map<Seq<u8>, V>) -> bool {
    exists|s: Seq<(Seq<u8>, V)>| increasing(s) && #[trigger] map_of(s) == m
}

/// Walking a map in key order meets exactly its entries.
pub proof fn lemma_tabular<V>(m: Map<Seq<u8>, V>)
    requires
        tabular(m),
    ensures
        increasing(ordered(m)),
        map_of(ordered(m)) == m,
{
    let s = choose|s: Seq<(Seq<u8>, V)>| increasing(s) && #[trigger] map_of(s) == m;
    lemma_ordered(s);
}

/// Where a key belongs among sorted entries.
pub open spec fn spot<V>(s: Seq<(Seq<u8>, V)>, k: Seq<u8>) -> int
    decreases s.len(),
{
    if s.len() == 0 || text::lex_lt(s.last().0, k) {
        s.len() as int
    } else {
        spot(s.drop_last(), k)
    }
}

proof fn lemma_spot<V>(s: Seq<(Seq<u8>, V)>, k: Seq<u8>)
    requires
        increasing(s),
        !map_of(s).contains_key(k),
    ensures
        0 <= spot(s, k) <= s.len(),
        forall|j: int| 0 <= j < spot(s, k) ==> text::lex_lt(#[trigger] s[j].0, k),
        forall|j: int| spot(s, k) <= j < s.len() ==> text::lex_lt(k, #[trigger] s[j].0),
    decreases s.len(),
{
    if s.len() > 0 {
        lemma_map_of_dom(s, k);
        if text::lex_lt(s.last().0, k) {
            assert forall|j: int| 0 <= j < s.len() implies text::lex_lt(#[trigger] s[j].0, k) by {
                if j < s.len() - 1 {
                    assert(text::lex_lt(s[j].0, s[s.len() - 1].0));
                    text::lemma_lex_transitive(s[j].0, s.last().0, k);
                }
            }
        } else {
            let d = s.drop_last();
            lemma_increasing_drop_last(s);
            lemma_map_of_dom(d, k);
            assert(!map_of(d).contains_key(k)) by {
                if map_of(d).contains_key(k) {
                    let j = choose|j: int| 0 <= j < d.len() && (#[trigger] d[j]).0 == k;
                    assert(s[j].0 == k);
                }
            }
            lemma_spot(d, k);
            assert(s[s.len() - 1].0 != k);
            text::lemma_lex_total(s.last().0, k);
            assert forall|j: int| 0 <= j < spot(s, k) implies text::lex_lt(
                #[trigger] s[j].0,
                k,
            ) by {
                assert(d[j] == s[j]);
            }
            assert forall|j: int| spot(s, k) <= j < s.len() implies text::lex_lt(
                k,
                #[trigger] s[j].0,
            ) by {
                if j < d.len() {
                    assert(d[j] == s[j]);
                }
            }
        }
    }
}

/// Putting a fresh key into a map puts one entry into its walk.
pub proof fn lemma_walk_put_fresh<V>(m: Map<Seq<u8>, V>, k: Seq<u8>, v: V) -> (i: int)
    requires
        tabular(m),
        !m.contains_key(k),
    ensures
        tabular(m.insert(k, v)),
        0 <= i <= ordered(m).len(),
        ordered(m.insert(k, v)) == ordered(m).insert(i, (k, v)),
{
    let s = ordered(m);
    lemma_tabular(m);
    lemma_spot(s, k);
    let i = spot(s, k);
    lemma_insert_at(s, i, (k, v));
    lemma_ordered(s.insert(i, (k, v)));
    assert(increasing(s.insert(i, (k, v))) && map_of(s.insert(i, (k, v))) == m.insert(k, v));
    i
}

/// Putting a value at a key a map holds replaces one entry of its walk.
pub proof fn lemma_walk_put<V>(m: Map<Seq<u8>, V>, k: Seq<u8>, v: V) -> (i: int)
    requires
        tabular(m),
        m.contains_key(k),
    ensures
        tabular(m.insert(k, v)),
        0 <= i < ordered(m).len(),
        ordered(m)[i] == (k, m[k]),
        ordered(m.insert(k, v)) == ordered(m).update(i, (k, v)),
{
    let s = ordered(m);
    lemma_tabular(m);
    lemma_map_of_dom(s, k);
    let i = choose|i: int| 0 <= i < s.len() && (#[trigger] s[i]).0 == k;
    lemma_map_of_at(s, i);
    lemma_update_at(s, i, v);
    let t = s.update(i, (k, v));
    lemma_ordered(t);
    assert(increasing(t) && map_of(t) == m.insert(k, v));
    i
}

/// Removing a key drops one entry of the walk.
pub proof fn lemma_walk_del<V>(m: Map<Seq<u8>, V>, k: Seq<u8>) -> (i: int)
    requires
        tabular(m),
        m.contains_key(k),
    ensures
        tabular(m.remove(k)),
        0 <= i < ordered(m).len(),
        ordered(m)[i] == (k, m[k]),
        ordered(m.remove(k)) == ordered(m).remove(i),
{
    let s = ordered(m);
    lemma_tabular(m);
    lemma_map_of_dom(s, k);
    let i = choose|i: int| 0 <= i < s.len() && (#[trigger] s[i]).0 == k;
    lemma_map_of_at(s, i);
    lemma_remove_at(s, i);
    let t = s.remove(i);
    lemma_ordered(t);
    assert(increasing(t) && map_of(t) == m.remove(k));
    i
}

/// Dropping an entry drops its key from the map.
proof fn lemma_remove_at<V>(s: Seq<(Seq<u8>, V)>, i: int)
    requires
        increasing(s),
        0 <= i < s.len(),
    ensures
        increasing(s.remove(i)),
        map_of(s.remove(i)) == map_of(s).remove(s[i].0),
{
    let t = s.remove(i);
    assert forall|a: int, b: int| 0 <= a < b < t.len() implies text::lex_lt(
        #[trigger] t[a].0,
        #[trigger] t[b].0,
    ) by {
        let a0 = if a < i {
            a
        } else {
            a + 1
        };
        let b0 = if b < i {
            b
        } else {
            b + 1
        };
        assert(t[a] == s[a0] && t[b] == s[b0]);
        assert(text::lex_lt(s[a0].0, s[b0].0));
    }
    let m = map_of(s).remove(s[i].0);
    assert forall|k: Seq<u8>|
        #![trigger map_of(t).dom().contains(k)]
        #![trigger m.dom().contains(k)]
        map_of(t).dom().contains(k) == m.dom().contains(k) && (m.dom().contains(k) ==> map_of(t)[k]
            == m[k]) by {
        lemma_map_of_dom(t, k);
        lemma_map_of_dom(s, k);
        if map_of(t).contains_key(k) {
            let j = choose|j: int| 0 <= j < t.len() && (#[trigger] t[j]).0 == k;
            lemma_map_of_at(t, j);
            let j0 = if j < i {
                j
            } else {
                j + 1
            };
            assert(s[j0] == t[j]);
            lemma_map_of_at(s, j0);
            if k == s[i].0 {
                lemma_increasing_unique(s, i, j0);
            }
        }
        if m.contains_key(k) {
            let j = choose|j: int| 0 <= j < s.len() && (#[trigger] s[j]).0 == k;
            if j < i {
                assert(t[j] == s[j]);
            } else {
                assert(j != i);
                assert(t[j - 1] == s[j]);
            }
        }
    }
    assert(map_of(t) =~= m);
}

// ---------------------------------------------------------------- the table

impl<V> Table<V> {
    /// The entries, in key order.
    pub closed spec fn entries(self) -> Seq<(Seq<u8>, V)> {
        self.rows@.map_values(|r: Box<Row<V>>| (r.key@, r.val))
    }

    /// Rows are sorted by key, without repetition.
    pub open spec fn wf(self) -> bool {
        increasing(self.entries())
    }

    /// An empty table.
    pub fn new() -> (r: Table<V>)
        ensures
            r.wf(),
            r@ == Map::<Seq<u8>, V>::empty(),
            r.entries() == Seq::<(Seq<u8>, V)>::empty(),
    {
        let t: Table<V> = Table { rows: Vec::new() };
        assert(t.entries() =~= Seq::<(Seq<u8>, V)>::empty());
        t
    }

    /// Number of rows.
    pub fn len(&self) -> (r: usize)
        ensures
            r == self.entries().len(),
    {
        self.rows.len()
    }

    /// Position of a key, or the position where it belongs.
    fn find(&self, key: &[u8]) -> (r: (usize, bool))
        requires
            self.wf(),
        ensures
            r.0 <= self.rows@.len(),
            r.1 ==> r.0 < self.rows@.len() && self.rows@[r.0 as int].key@ == key@,
            !r.1 ==> (forall|j: int|
                0 <= j < r.0 ==> text::lex_lt(#[trigger] self.entries()[j].0, key@)),
            !r.1 ==> (forall|j: int|
                r.0 <= j < self.rows@.len() ==> text::lex_lt(
                    key@,
                    #[trigger] self.entries()[j].0,
                )),
    {
        let mut lo: usize = 0;
        let mut hi: usize = self.rows.len();
        while lo < hi
            invariant
                self.wf(),
                lo <= hi <= self.rows@.len(),
                forall|j: int| 0 <= j < lo ==> text::lex_lt(#[trigger] self.entries()[j].0, key@),
                forall|j: int|
                    hi <= j < self.rows@.len() ==> text::lex_lt(
                        key@,
                        #[trigger] self.entries()[j].0,
                    ),
            decreases hi - lo,
        {
            let mid: usize = lo + (hi - lo) / 2;
            let ghost e = self.entries();
            assert(e[mid as int].0 == self.rows@[mid as int].key@);
            match text::rank_bytes(self.rows[mid].key.as_slice(), key) {
                Rank::Equal => {
                    return (mid, true);
                },
                Rank::Less => {
                    assert forall|j: int| 0 <= j < mid + 1 implies text::lex_lt(
                        #[trigger] self.entries()[j].0,
                        key@,
                    ) by {
                        if j < mid {
                            assert(text::lex_lt(e[j].0, e[mid as int].0));
                            text::lemma_lex_transitive(e[j].0, e[mid as int].0, key@);
                        }
                    }
                    lo = mid + 1;
                },
                Rank::Greater => {
                    assert forall|j: int| mid <= j < self.rows@.len() implies text::lex_lt(
                        key@,
                        #[trigger] self.entries()[j].0,
                    ) by {
                        if j > mid {
                            assert(text::lex_lt(e[mid as int].0, e[j].0));
                            text::lemma_lex_transitive(key@, e[mid as int].0, e[j].0);
                        }
                    }
                    hi = mid;
                },
            }
        }
        (lo, false)
    }

    proof fn lemma_absent(self, key: Seq<u8>, i: int)
        requires
            self.wf(),
            0 <= i <= self.rows@.len(),
            forall|j: int| 0 <= j < i ==> text::lex_lt(#[trigger] self.entries()[j].0, key),
            forall|j: int|
                i <= j < self.rows@.len() ==> text::lex_lt(key, #[trigger] self.entries()[j].0),
        ensures
            !self@.contains_key(key),
    {
        text::lemma_lex_irreflexive(key);
        lemma_map_of_dom(self.entries(), key);
    }

    /// The value at a key.
    pub fn get(&self, key: &[u8]) -> (r: Option<&V>)
        requires
            self.wf(),
        ensures
            match r {
                Some(v) => self@.contains_key(key@) && *v == self@[key@],
                None => !self@.contains_key(key@),
            },
    {
        let (i, found) = self.find(key);
        if found {
            proof {
                lemma_map_of_at(self.entries(), i as int);
            }
            Some(&self.rows[i].val)
        } else {
            proof {
                self.lemma_absent(key@, i as int);
            }
            None
        }
    }

    /// Whether a key is present.
    pub fn has(&self, key: &[u8]) -> (r: bool)
        requires
            self.wf(),
        ensures
            r == self@.contains_key(key@),
    {
        self.get(key).is_some()
    }

    /// Puts a value at a key, replacing what was there.
    pub fn insert(&mut self, key: Vec<u8>, val: V)
        requires
            old(self).wf(),
        ensures
            final(self).wf(),
            final(self)@ == old(self)@.insert(key@, val),
    {
        let (i, found) = self.find(key.as_slice());
        let ghost s = self.entries();
        let ghost k = key@;
        if found {
            self.rows[i] = Box::new(Row { key, val });
            proof {
                lemma_update_at(s, i as int, val);
                assert(self.entries() =~= s.update(i as int, (s[i as int].0, val)));
            }
        } else {
            self.rows.insert(i, Box::new(Row { key, val }));
            proof {
                lemma_insert_at(s, i as int, (k, val));
                assert(self.entries() =~= s.insert(i as int, (k, val)));
            }
        }
    }

    /// Removes a key.
    pub fn remove(&mut self, key: &[u8])
        requires
            old(self).wf(),
        ensures
            final(self).wf(),
            final(self)@ == old(self)@.remove(key@),
    {
        let (i, found) = self.find(key);
        let ghost s = self.entries();
        if found {
            let _gone = self.rows.remove(i);
            proof {
                lemma_remove_at(s, i as int);
                assert(self.entries() =~= s.remove(i as int));
            }
        } else {
            proof {
                self.lemma_absent(key@, i as int);
                assert(self@ =~= old(self)@.remove(key@));
            }
        }
    }

    /// The key of the row at a position.
    pub fn key_at(&self, i: usize) -> (r: &Vec<u8>)
        requires
            i < self.entries().len(),
        ensures
            r@ == self.entries()[i as int].0,
    {
        &self.rows[i].key
    }

    /// The value of the row at a position.
    pub fn val_at(&self, i: usize) -> (r: &V)
        requires
            i < self.entries().len(),
        ensures
            *r == self.entries()[i as int].1,
    {
        &self.rows[i].val
    }

    /// Takes the last row out.
    pub fn pop(&mut self) -> (r: Option<(Vec<u8>, V)>)
        requires
            old(self).wf(),
        ensures
            final(self).wf(),
            match r {
                Some(e) => old(self).entries().len() > 0 && (e.0@, e.1)
                    == old(self).entries().last() && final(self).entries()
                    == old(self).entries().drop_last(),
                None => old(self).entries().len() == 0 && final(self).entries()
                    == old(self).entries(),
            },
    {
        let ghost s = self.entries();
        match self.rows.pop() {
            Some(b) => {
                let row = *b;
                proof {
                    assert(self.entries() =~= s.drop_last());
                    lemma_increasing_drop_last(s);
                }
                Some((row.key, row.val))
            },
            None => {
                assert(self.entries() =~= s);
                None
            },
        }
    }
}

impl<V> View for Table<V> {
    type V = Map<Seq<u8>, V>;

    open spec fn view(&self) -> Map<Seq<u8>, V> {
        map_of(self.entries())
    }
}

} // verus!
