//! Cutting texts into pieces, words and lists.

use crate::text;
use crate::types;
use vstd::prelude::*;

verus! {

/// Whether a text is cut at a character: at a given one, or at white space.
pub open spec fn cuts(at: Option<char>, c: char) -> bool {
    match at {
        Some(x) => c == x,
        None => text::is_space(c),
    }
}

/// The pieces of a text between the characters it is cut at.
pub open spec fn pieces(s: Seq<char>, at: Option<char>) -> Seq<Seq<char>>
    decreases s.len(),
{
    if s.len() == 0 {
        seq![Seq::<char>::empty()]
    } else {
        let p = pieces(s.drop_last(), at);
        if cuts(at, s.last()) {
            p.push(Seq::<char>::empty())
        } else {
            p.drop_last().push(p.last().push(s.last()))
        }
    }
}

/// The pieces that are not empty.
pub open spec fn filled(p: Seq<Seq<char>>) -> Seq<Seq<char>>
    decreases p.len(),
{
    if p.len() == 0 {
        Seq::empty()
    } else if p.last().len() == 0 {
        filled(p.drop_last())
    } else {
        filled(p.drop_last()).push(p.last())
    }
}

/// The words of a text.
pub open spec fn words(s: Seq<char>) -> Seq<Seq<char>> {
    filled(pieces(s, None))
}

/// Pieces without white space around them.
pub open spec fn all_trimmed(p: Seq<Seq<char>>) -> Seq<Seq<char>> {
    p.map_values(|t: Seq<char>| text::trimmed(t))
}

/// The items of a list separated by commas, without white space, none empty.
pub open spec fn listed(s: Seq<char>) -> Seq<Seq<char>> {
    filled(all_trimmed(pieces(s, Some(','))))
}

/// There is always a piece.
pub proof fn lemma_pieces_some(s: Seq<char>, at: Option<char>)
    ensures
        pieces(s, at).len() > 0,
    decreases s.len(),
{
    if s.len() > 0 {
        lemma_pieces_some(s.drop_last(), at);
    }
}

/// A text that is not cut continues the last piece.
pub proof fn lemma_pieces_continue(s: Seq<char>, t: Seq<char>, at: Option<char>)
    requires
        forall|i: int| 0 <= i < t.len() ==> !cuts(at, #[trigger] t[i]),
    ensures
        pieces(s + t, at) == pieces(s, at).drop_last().push(pieces(s, at).last() + t),
    decreases t.len(),
{
    let p = pieces(s, at);
    lemma_pieces_some(s, at);
    if t.len() == 0 {
        assert(s + t =~= s);
        assert(p.last() + t =~= p.last());
        assert(p.drop_last().push(p.last()) =~= p);
    } else {
        lemma_pieces_continue(s, t.drop_last(), at);
        assert((s + t).drop_last() =~= s + t.drop_last());
        assert((s + t).last() == t.last());
        let q = p.drop_last().push(p.last() + t.drop_last());
        assert(q.drop_last() =~= p.drop_last());
        assert((p.last() + t.drop_last()).push(t.last()) =~= p.last() + t);
    }
}

/// The pieces of a text.
pub fn split(s: &str, at: Option<char>) -> (r: Vec<String>)
    ensures
        types::texts(r@) == pieces(s@, at),
{
    let v = text::chars_of(s);
    let mut out: Vec<String> = Vec::new();
    let mut cur = String::new();
    let mut i: usize = 0;
    proof {
        assert(v@.take(0) =~= Seq::<char>::empty());
        assert(types::texts(out@).push(cur@) =~= seq![Seq::<char>::empty()]);
    }
    while i < v.len()
        invariant
            i <= v@.len(),
            v@ == s@,
            types::texts(out@).push(cur@) =~= pieces(v@.take(i as int), at),
        decreases v@.len() - i,
    {
        let c = v[i];
        let ghost was = types::texts(out@);
        let ghost held = cur@;
        proof {
            assert(v@.take(i + 1).drop_last() =~= v@.take(i as int));
            assert(was.push(held).drop_last() =~= was);
        }
        let cut = match at {
            Some(x) => c == x,
            None => text::is_space_exec(c),
        };
        if cut {
            out.push(cur);
            cur = String::new();
            assert(types::texts(out@) =~= was.push(held));
        } else {
            cur.push(c);
        }
        i = i + 1;
    }
    let ghost was = types::texts(out@);
    let ghost held = cur@;
    out.push(cur);
    proof {
        assert(v@.take(v@.len() as int) =~= v@);
        assert(types::texts(out@) =~= was.push(held));
    }
    out
}

/// The texts that are not empty.
fn keep_filled(v: &Vec<String>) -> (r: Vec<String>)
    ensures
        types::texts(r@) == filled(types::texts(v@)),
{
    let ghost all = types::texts(v@);
    let mut out: Vec<String> = Vec::new();
    let mut i: usize = 0;
    proof {
        assert(all.take(0) =~= Seq::<Seq<char>>::empty());
        assert(types::texts(out@) =~= Seq::<Seq<char>>::empty());
    }
    while i < v.len()
        invariant
            i <= v@.len(),
            all == types::texts(v@),
            types::texts(out@) =~= filled(all.take(i as int)),
        decreases v@.len() - i,
    {
        let ghost was = types::texts(out@);
        proof {
            assert(all.take(i + 1).drop_last() =~= all.take(i as int));
            assert(all.take(i + 1).last() == v@[i as int]@);
        }
        if !v[i].as_str().is_empty() {
            let t = v[i].clone();
            let ghost tv = t@;
            out.push(t);
            assert(types::texts(out@) =~= was.push(tv));
        }
        i = i + 1;
    }
    assert(all.take(all.len() as int) =~= all);
    out
}

/// The words of a text.
pub fn split_words(s: &str) -> (r: Vec<String>)
    ensures
        types::texts(r@) == words(s@),
{
    keep_filled(&split(s, None))
}

/// The items of a list separated by commas.
pub fn split_list(s: &str) -> (r: Vec<String>)
    ensures
        types::texts(r@) == listed(s@),
{
    let p = split(s, Some(','));
    let ghost all = pieces(s@, Some(','));
    let mut out: Vec<String> = Vec::new();
    let mut i: usize = 0;
    while i < p.len()
        invariant
            i <= p@.len(),
            all == types::texts(p@),
            types::texts(out@) =~= all_trimmed(all.take(i as int)),
        decreases p@.len() - i,
    {
        let ghost was = types::texts(out@);
        let t = text::trim(p[i].as_str());
        let ghost tv = t@;
        out.push(t);
        proof {
            assert(types::texts(out@) =~= was.push(tv));
            assert(all[i as int] == p@[i as int]@);
            assert(all_trimmed(all.take(i + 1)) =~= all_trimmed(all.take(i as int)).push(tv));
        }
        i = i + 1;
    }
    assert(all.take(all.len() as int) =~= all);
    keep_filled(&out)
}

/// Whether a text starts with another.
pub open spec fn starts(s: Seq<char>, t: Seq<char>) -> bool {
    t.len() <= s.len() && s.take(t.len() as int) == t
}

/// A text ends with another.
pub open spec fn ends(s: Seq<char>, t: Seq<char>) -> bool {
    t.len() <= s.len() && s.skip(s.len() - t.len()) == t
}

/// Whether a text ends with another.
pub fn ends_with(s: &str, t: &str) -> (r: bool)
    ensures
        r == ends(s@, t@),
{
    let a = text::chars_of(s);
    let b = text::chars_of(t);
    if b.len() > a.len() {
        return false;
    }
    let tail = text::text_range(&a, a.len() - b.len(), a.len());
    assert(tail@ =~= s@.skip(s@.len() - t@.len()));
    text::same(tail.as_str(), t)
}

/// The rest of a text after another that it starts with.
pub fn after(s: &str, t: &str) -> (r: Option<String>)
    ensures
        match r {
            Some(x) => starts(s@, t@) && x@ == s@.skip(t@.len() as int),
            None => !starts(s@, t@),
        },
{
    let a = text::chars_of(s);
    let b = text::chars_of(t);
    let n: usize = a.len();
    let m: usize = b.len();
    if m > n {
        return None;
    }
    let mut i: usize = 0;
    while i < m
        invariant
            i <= m <= n,
            n == a@.len(),
            m == b@.len(),
            a@ == s@,
            b@ == t@,
            forall|j: int| 0 <= j < i ==> a@[j] == b@[j],
        decreases m - i,
    {
        if a[i] != b[i] {
            proof {
                if starts(s@, t@) {
                    assert(s@.take(t@.len() as int)[i as int] == t@[i as int]);
                }
            }
            return None;
        }
        i = i + 1;
    }
    assert(s@.take(t@.len() as int) =~= t@);
    let r = text::text_range(&a, m, n);
    assert(r@ =~= s@.skip(t@.len() as int));
    Some(r)
}

/// A text without the given character at its end, however often it stands there.
pub open spec fn end_stripped(s: Seq<char>, c: char) -> Seq<char>
    decreases s.len(),
{
    if s.len() > 0 && s.last() == c {
        end_stripped(s.drop_last(), c)
    } else {
        s
    }
}

/// Removes a character from the end of a text.
pub fn strip_end(s: &str, c: char) -> (r: String)
    ensures
        r@ == end_stripped(s@, c),
{
    let v = text::chars_of(s);
    let mut n: usize = v.len();
    assert(v@.take(n as int) =~= v@);
    while n > 0 && v[n - 1] == c
        invariant
            n <= v@.len(),
            v@ == s@,
            end_stripped(v@.take(n as int), c) == end_stripped(s@, c),
        decreases n,
    {
        assert(v@.take(n as int).drop_last() =~= v@.take(n - 1));
        assert(v@.take(n as int).last() == v@[n - 1]);
        n = n - 1;
    }
    let r = text::text_range(&v, 0, n);
    assert(r@ =~= v@.take(n as int));
    r
}

/// A text holds another somewhere.
pub open spec fn holds(s: Seq<char>, t: Seq<char>) -> bool {
    exists|i: int|
        0 <= i <= s.len() - t.len() && #[trigger] s.subrange(i, i + t.len()) == t
}

/// Whether a text holds another somewhere.
pub fn contains(s: &str, t: &str) -> (r: bool)
    ensures
        r == holds(s@, t@),
{
    let a = text::chars_of(s);
    let n: usize = a.len();
    let m: usize = text::chars_of(t).len();
    if m > n {
        return false;
    }
    let last: usize = n - m;
    let mut i: usize = 0;
    while i <= last
        invariant
            a@ == s@,
            n == a@.len(),
            m == t@.len(),
            last == n - m,
            i <= last + 1,
            forall|j: int| 0 <= j < i ==> #[trigger] s@.subrange(j, j + m) != t@,
        decreases last + 1 - i,
    {
        let here = text::text_range(&a, i, i + m);
        assert(here@ =~= s@.subrange(i as int, i + m));
        if text::same(here.as_str(), t) {
            return true;
        }
        if i == last {
            return false;
        }
        i = i + 1;
    }
    false
}

/// A text without another at its start, however often it stands there.
pub open spec fn start_stripped(s: Seq<char>, t: Seq<char>) -> Seq<char>
    decreases s.len(),
{
    if t.len() > 0 && starts(s, t) {
        start_stripped(s.skip(t.len() as int), t)
    } else {
        s
    }
}

/// Removes a text from the start of another.
pub fn strip_start(s: &str, t: &str) -> (r: String)
    requires
        t@.len() > 0,
    ensures
        r@ == start_stripped(s@, t@),
{
    let mut rest = text::copy(s);
    loop
        invariant
            t@.len() > 0,
            start_stripped(rest@, t@) == start_stripped(s@, t@),
        decreases rest@.len(),
    {
        match after(rest.as_str(), t) {
            Some(x) => {
                rest = x;
            },
            None => {
                return rest;
            },
        }
    }
}

} // verus!
