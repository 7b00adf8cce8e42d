//! Write journal: makes block execution atomic.
//!
//! A block writes accounts, tokens, contracts and Merkle nodes directly. If a later
//! check fails, those writes have to be undone. `begin` opens a savepoint, `commit`
//! keeps what was written since, and `rollback` restores every table to what it was
//! when the savepoint opened. Savepoints nest: a block opens one and every
//! transaction inside it opens its own.
//!
//! Only the value a key had when the savepoint opened is remembered, so repeated
//! writes to one key cost one entry.

use crate::contracts::Contract;
use crate::contracts::ContractV;
use crate::contracts::Receipt;
use crate::contracts::ReceiptV;
use crate::slashing::SlashRecord;
use crate::slashing::SlashV;
use crate::table;
use crate::table::Table;
use crate::text;
use crate::tokens::Token;
use crate::tokens::TokenV;
use crate::types::Account;
use crate::types::AccountV;
use crate::types::Block;
use crate::types::BlockV;
use vstd::prelude::*;

verus! {

/// A stored value.
pub enum Cell {
    Bytes(Vec<u8>),
    Account(Account),
    Block(Block),
    Token(Token),
    Contract(Contract),
    Receipt(Receipt),
    Slash(SlashRecord),
}

/// Model of a stored value.
pub enum CellV {
    Bytes(Seq<u8>),
    Account(AccountV),
    Block(BlockV),
    Token(TokenV),
    Contract(ContractV),
    Receipt(ReceiptV),
    Slash(SlashV),
}

impl View for Cell {
    type V = CellV;

    open spec fn view(&self) -> CellV {
        match *self {
            Cell::Bytes(b) => CellV::Bytes(b@),
            Cell::Account(a) => CellV::Account(a@),
            Cell::Block(b) => CellV::Block(b@),
            Cell::Token(t) => CellV::Token(t@),
            Cell::Contract(c) => CellV::Contract(c@),
            Cell::Receipt(r) => CellV::Receipt(r@),
            Cell::Slash(s) => CellV::Slash(s@),
        }
    }
}

impl Clone for Cell {
    fn clone(&self) -> (r: Cell)
        ensures
            r@ == self@,
    {
        match self {
            Cell::Bytes(b) => Cell::Bytes(text::copy_bytes(b.as_slice())),
            Cell::Account(a) => Cell::Account(a.clone()),
            Cell::Block(b) => Cell::Block(b.clone()),
            Cell::Token(t) => Cell::Token(t.clone()),
            Cell::Contract(c) => Cell::Contract(c.clone()),
            Cell::Receipt(r) => Cell::Receipt(r.clone()),
            Cell::Slash(s) => Cell::Slash(s.clone()),
        }
    }
}

/// A table of stored values.
pub type Tree = Table<Cell>;

/// Model of one table.
pub type Rows = Map<Seq<u8>, CellV>;

/// Model of a whole database: its tables by number.
pub type Db = Seq<Rows>;

/// Model of a table.
pub open spec fn rows(t: Tree) -> Rows {
    t@.map_values(|c: Cell| c@)
}

/// Entries with modelled values.
pub open spec fn modelled(s: Seq<(Seq<u8>, Cell)>) -> Seq<(Seq<u8>, CellV)> {
    s.map_values(|e: (Seq<u8>, Cell)| (e.0, e.1@))
}

/// Modelling entry by entry is modelling the map.
proof fn lemma_modelled_map(s: Seq<(Seq<u8>, Cell)>)
    ensures
        table::map_of(modelled(s)) == table::map_of(s).map_values(|c: Cell| c@),
    decreases s.len(),
{
    if s.len() > 0 {
        let d = s.drop_last();
        lemma_modelled_map(d);
        assert(modelled(s).drop_last() =~= modelled(d));
        assert(modelled(s).last() == (s.last().0, s.last().1@));
    }
    assert(table::map_of(modelled(s)) =~= table::map_of(s).map_values(|c: Cell| c@));
}

/// Walking a table's rows is walking its model in key order.
pub proof fn lemma_walk(t: Tree)
    requires
        t.wf(),
    ensures
        table::ordered(rows(t)) == modelled(t.entries()),
        table::increasing(modelled(t.entries())),
        table::map_of(modelled(t.entries())) == rows(t),
        modelled(t.entries()).len() == t.entries().len(),
{
    let s = t.entries();
    let m = modelled(s);
    lemma_modelled_map(s);
    assert forall|i: int, j: int| 0 <= i < j < m.len() implies text::lex_lt(
        #[trigger] m[i].0,
        #[trigger] m[j].0,
    ) by {
        assert(text::lex_lt(s[i].0, s[j].0));
    }
    table::lemma_ordered(m);
}

/// Reads a table.
pub fn tree_get<'a>(t: &'a Tree, key: &[u8]) -> (r: Option<&'a Cell>)
    requires
        t.wf(),
    ensures
        match r {
            Some(c) => rows(*t).contains_key(key@) && c@ == rows(*t)[key@],
            None => !rows(*t).contains_key(key@),
        },
{
    t.get(key)
}

/// Writes a table.
pub fn tree_put(t: &mut Tree, key: &[u8], c: Cell)
    requires
        old(t).wf(),
    ensures
        final(t).wf(),
        rows(*final(t)) == rows(*old(t)).insert(key@, c@),
{
    t.insert(text::copy_bytes(key), c);
    assert(rows(*t) =~= rows(*old(t)).insert(key@, c@));
}

/// Removes a key from a table.
pub fn tree_del(t: &mut Tree, key: &[u8])
    requires
        old(t).wf(),
    ensures
        final(t).wf(),
        rows(*final(t)) == rows(*old(t)).remove(key@),
{
    t.remove(key);
    assert(rows(*t) =~= rows(*old(t)).remove(key@));
}

// ---------------------------------------------------------------- savepoints

/// What a savepoint remembers: the value each key it covers had when it opened.
pub type Frame = Table<Option<Cell>>;

/// Model of a savepoint.
pub type FrameV = Map<Seq<u8>, Option<CellV>>;

/// Model of an optional value.
pub open spec fn opt_cell(c: Option<Cell>) -> Option<CellV> {
    match c {
        Some(x) => Some(x@),
        None => None,
    }
}

/// Model of a savepoint.
pub open spec fn frame_view(f: Frame) -> FrameV {
    f@.map_values(|c: Option<Cell>| opt_cell(c))
}

/// Key of a savepoint entry: the table's number, then the key.
pub open spec fn frame_key(t: int, k: Seq<u8>) -> Seq<u8> {
    seq![t as u8] + k
}

/// One table with everything a savepoint remembers of it restored.
pub open spec fn restored_rows(m: Rows, f: FrameV, t: int) -> Rows {
    Map::new(
        |k: Seq<u8>|
            if f.contains_key(frame_key(t, k)) {
                f[frame_key(t, k)] is Some
            } else {
                m.contains_key(k)
            },
        |k: Seq<u8>|
            if f.contains_key(frame_key(t, k)) {
                f[frame_key(t, k)]->0
            } else {
                m[k]
            },
    )
}

/// The database with everything a savepoint remembers restored.
pub open spec fn restored(db: Db, f: FrameV) -> Db {
    Seq::new(db.len(), |t: int| restored_rows(db[t], f, t))
}

/// The databases that rolling back to each savepoint would give, outermost first.
pub open spec fn saved(db: Db, frames: Seq<FrameV>) -> Seq<Db>
    decreases frames.len(),
{
    if frames.len() == 0 {
        Seq::empty()
    } else {
        let top = restored(db, frames.last());
        saved(top, frames.drop_last()).push(top)
    }
}

/// Stack of savepoints. Empty means nothing is executing and writes pass straight
/// through.
pub struct Journal {
    frames: Vec<Frame>,
}

impl Journal {
    /// Every savepoint is a well-formed table.
    pub closed spec fn wf(self) -> bool {
        forall|i: int| 0 <= i < self.frames@.len() ==> (#[trigger] self.frames@[i]).wf()
    }

    /// Models of the open savepoints, outermost first.
    pub closed spec fn frames_view(self) -> Seq<FrameV> {
        self.frames@.map_values(|f: Frame| frame_view(f))
    }

    /// No savepoint open.
    pub fn new() -> (r: Journal)
        ensures
            r.wf(),
            r.frames_view() == Seq::<FrameV>::empty(),
    {
        let j = Journal { frames: Vec::new() };
        assert(j.frames_view() =~= Seq::<FrameV>::empty());
        j
    }

    /// Opens a savepoint.
    pub fn begin(&mut self)
        requires
            old(self).wf(),
        ensures
            final(self).wf(),
            final(self).frames_view() == old(self).frames_view().push(
                Map::<Seq<u8>, Option<CellV>>::empty(),
            ),
    {
        let f: Frame = Table::new();
        proof {
            assert(frame_view(f) =~= Map::<Seq<u8>, Option<CellV>>::empty());
        }
        self.frames.push(f);
        assert(self.frames_view() =~= old(self).frames_view().push(
            Map::<Seq<u8>, Option<CellV>>::empty(),
        ));
    }

    /// Whether a savepoint is open.
    pub fn active(&self) -> (r: bool)
        ensures
            r == (self.frames_view().len() > 0),
    {
        self.frames.len() > 0
    }

    /// Remembers the value a key has now, unless the innermost savepoint already
    /// remembers one for it.
    pub fn record(&mut self, tree_id: usize, tree: &Tree, key: &[u8])
        requires
            old(self).wf(),
            tree.wf(),
            tree_id < 256,
        ensures
            final(self).wf(),
            final(self).frames_view() == recorded(
                old(self).frames_view(),
                tree_id as int,
                key@,
                rows(*tree),
            ),
    {
        let n: usize = self.frames.len();
        if n == 0 {
            assert(self.frames_view() =~= old(self).frames_view());
            return;
        }
        let ghost before_frames = self.frames_view();
        let mut fk: Vec<u8> = Vec::new();
        fk.push(tree_id as u8);
        text::push_bytes(&mut fk, key);
        assert(fk@ =~= frame_key(tree_id as int, key@));
        let mut top: Frame = match self.frames.pop() {
            Some(f) => f,
            None => Table::new(),
        };
        assert(frame_view(top) == before_frames.last());
        let ghost ft = frame_view(top);
        if !top.has(fk.as_slice()) {
            let now: Option<Cell> = match tree_get(tree, key) {
                Some(c) => Some(c.clone()),
                None => None,
            };
            top.insert(fk, now);
            assert(frame_view(top) =~= ft.insert(
                frame_key(tree_id as int, key@),
                current(rows(*tree), key@),
            ));
        }
        self.frames.push(top);
        assert(self.frames_view() =~= recorded(
            before_frames,
            tree_id as int,
            key@,
            rows(*tree),
        ));
    }

    /// Keeps what was written since the innermost savepoint opened. What it
    /// remembers moves to the enclosing one, unless that already remembers an older
    /// value.
    pub fn commit(&mut self)
        requires
            old(self).wf(),
        ensures
            final(self).wf(),
            final(self).frames_view() == committed(old(self).frames_view()),
    {
        let ghost all = self.frames_view();
        let done: Frame = match self.frames.pop() {
            Some(f) => f,
            None => {
                assert(self.frames_view() =~= all);
                return;
            },
        };
        assert(frame_view(done) == all.last());
        let ghost rest = self.frames_view();
        assert(rest =~= all.drop_last());
        let mut parent: Frame = match self.frames.pop() {
            Some(f) => f,
            None => {
                assert(self.frames_view() =~= committed(all));
                return;
            },
        };
        assert(frame_view(parent) == rest.last());
        let ghost p0 = frame_view(parent);
        let ghost s = done.entries();
        let mut i: usize = 0;
        assert(s.take(0) =~= Seq::<(Seq<u8>, Option<Cell>)>::empty());
        assert(merged(p0, prefix_frame(s, 0)) =~= p0);
        while i < done.len()
            invariant
                i <= s.len(),
                s == done.entries(),
                done.wf(),
                parent.wf(),
                frame_view(parent) == merged(p0, prefix_frame(s, i as int)),
            decreases s.len() - i,
        {
            let ghost before = frame_view(parent);
            proof {
                let t = s.take(i + 1);
                assert(t.drop_last() =~= s.take(i as int));
                assert(t.last() == s[i as int]);
                lemma_prefix_fresh(s, i as int);
                assert(prefix_frame(s, i + 1) =~= prefix_frame(s, i as int).insert(
                    s[i as int].0,
                    opt_cell(s[i as int].1),
                ));
            }
            let k = done.key_at(i);
            let ghost pre = prefix_frame(s, i as int);
            assert(!pre.contains_key(k@));
            assert(before.contains_key(k@) == p0.contains_key(k@));
            assert(parent@.contains_key(k@) == before.contains_key(k@));
            proof {
                lemma_merged_step(p0, pre, k@, opt_cell(s[i as int].1));
            }
            if !parent.has(k.as_slice()) {
                let v: Option<Cell> = match done.val_at(i) {
                    Some(c) => Some(c.clone()),
                    None => None,
                };
                parent.insert(text::copy_bytes(k.as_slice()), v);
                assert(frame_view(parent) =~= before.insert(k@, opt_cell(s[i as int].1)));
            }
            i = i + 1;
        }
        proof {
            assert(s.take(s.len() as int) =~= s);
            assert(prefix_frame(s, s.len() as int) =~= frame_view(done));
        }
        self.frames.push(parent);
        proof {
            assert(self.frames_view() =~= committed(all));
        }
    }

    /// Restores every table to what it was when the innermost savepoint opened.
    pub fn rollback(&mut self, trees: &mut Vec<Tree>)
        requires
            old(self).wf(),
            old(trees)@.len() <= 256,
            forall|i: int| 0 <= i < old(trees)@.len() ==> (#[trigger] old(trees)@[i]).wf(),
        ensures
            final(self).wf(),
            final(trees)@.len() == old(trees)@.len(),
            forall|i: int| 0 <= i < final(trees)@.len() ==> (#[trigger] final(trees)@[i]).wf(),
            if old(self).frames_view().len() > 0 {
                &&& final(self).frames_view() == old(self).frames_view().drop_last()
                &&& db_of(final(trees)@) == restored(
                    db_of(old(trees)@),
                    old(self).frames_view().last(),
                )
            } else {
                &&& final(self).frames_view() == old(self).frames_view()
                &&& db_of(final(trees)@) == db_of(old(trees)@)
            },
    {
        let ghost all = self.frames_view();
        let ghost db0 = db_of(trees@);
        let done: Frame = match self.frames.pop() {
            Some(f) => f,
            None => {
                assert(self.frames_view() =~= all);
                return;
            },
        };
        assert(frame_view(done) == all.last());
        assert(self.frames_view() =~= all.drop_last());
        let ghost s = done.entries();
        let mut i: usize = 0;
        proof {
            assert(s.take(0) =~= Seq::<(Seq<u8>, Option<Cell>)>::empty());
            lemma_restored_nothing(db0);
            assert(prefix_frame(s, 0) =~= Map::<Seq<u8>, Option<CellV>>::empty());
        }
        while i < done.len()
            invariant
                i <= s.len(),
                s == done.entries(),
                done.wf(),
                trees@.len() == old(trees)@.len(),
                trees@.len() <= 256,
                db0 == db_of(old(trees)@),
                forall|j: int| 0 <= j < trees@.len() ==> (#[trigger] trees@[j]).wf(),
                db_of(trees@) == restored(db0, prefix_frame(s, i as int)),
            decreases s.len() - i,
        {
            let ghost before = db_of(trees@);
            proof {
                let t = s.take(i + 1);
                assert(t.drop_last() =~= s.take(i as int));
                assert(t.last() == s[i as int]);
                assert(prefix_frame(s, i + 1) =~= prefix_frame(s, i as int).insert(
                    s[i as int].0,
                    opt_cell(s[i as int].1),
                ));
            }
            let fk = done.key_at(i);
            let n: usize = fk.len();
            if n == 0 {
                proof {
                    lemma_restored_step(db0, prefix_frame(s, i as int), fk@, opt_cell(s[i as int].1));
                }
            } else {
                let t: usize = fk[0] as usize;
                let key = vstd::slice::slice_subrange(fk.as_slice(), 1, n);
                proof {
                    assert(fk@ =~= frame_key(t as int, key@));
                    lemma_restored_step(db0, prefix_frame(s, i as int), fk@, opt_cell(s[i as int].1));
                }
                if t < trees.len() {
                    match done.val_at(i) {
                        Some(c) => {
                            tree_put(&mut trees[t], key, c.clone());
                        },
                        None => {
                            tree_del(&mut trees[t], key);
                        },
                    }
                    assert(db_of(trees@) =~= before.update(t as int, rows(trees@[t as int])));
                }
            }
            i = i + 1;
        }
        proof {
            assert(s.take(s.len() as int) =~= s);
            assert(prefix_frame(s, s.len() as int) =~= frame_view(done));
        }
    }
}

/// Model of a list of tables.
pub open spec fn db_of(trees: Seq<Tree>) -> Db {
    trees.map_values(|t: Tree| rows(t))
}

/// The value a key has now.
pub open spec fn current(m: Rows, k: Seq<u8>) -> Option<CellV> {
    if m.contains_key(k) {
        Some(m[k])
    } else {
        None
    }
}

/// The savepoints after a key's current value is remembered.
pub open spec fn recorded(frames: Seq<FrameV>, t: int, k: Seq<u8>, m: Rows) -> Seq<FrameV> {
    if frames.len() == 0 || frames.last().contains_key(frame_key(t, k)) {
        frames
    } else {
        frames.drop_last().push(frames.last().insert(frame_key(t, k), current(m, k)))
    }
}

/// What an outer savepoint remembers after taking over an inner one.
pub open spec fn merged(outer: FrameV, inner: FrameV) -> FrameV {
    inner.union_prefer_right(outer)
}

/// The savepoints after the innermost one is committed.
pub open spec fn committed(frames: Seq<FrameV>) -> Seq<FrameV> {
    if frames.len() <= 1 {
        frames.take(0)
    } else {
        let rest = frames.drop_last();
        rest.drop_last().push(merged(rest.last(), frames.last()))
    }
}

spec fn prefix_frame(s: Seq<(Seq<u8>, Option<Cell>)>, i: int) -> FrameV {
    table::map_of(s.take(i)).map_values(|c: Option<Cell>| opt_cell(c))
}

proof fn lemma_merged_step(outer: FrameV, inner: FrameV, k: Seq<u8>, v: Option<CellV>)
    requires
        !inner.contains_key(k),
    ensures
        merged(outer, inner.insert(k, v)) == if outer.contains_key(k) {
            merged(outer, inner)
        } else {
            merged(outer, inner).insert(k, v)
        },
{
    if outer.contains_key(k) {
        assert(merged(outer, inner.insert(k, v)) =~= merged(outer, inner));
    } else {
        assert(merged(outer, inner.insert(k, v)) =~= merged(outer, inner).insert(k, v));
    }
}

proof fn lemma_prefix_fresh(s: Seq<(Seq<u8>, Option<Cell>)>, i: int)
    requires
        table::increasing(s),
        0 <= i < s.len(),
    ensures
        !table::map_of(s.take(i)).contains_key(s[i].0),
{
    table::lemma_map_of_dom(s.take(i), s[i].0);
    if table::map_of(s.take(i)).contains_key(s[i].0) {
        let j = choose|j: int| 0 <= j < s.take(i).len() && (#[trigger] s.take(i)[j]).0 == s[i].0;
        table::lemma_increasing_unique(s, i, j);
    }
}

/// Restoring nothing changes nothing.
pub proof fn lemma_restored_nothing(db: Db)
    ensures
        restored(db, Map::<Seq<u8>, Option<CellV>>::empty()) == db,
{
    let f = Map::<Seq<u8>, Option<CellV>>::empty();
    assert forall|t: int| 0 <= t < db.len() implies restored(db, f)[t] == db[t] by {
        assert(restored_rows(db[t], f, t) =~= db[t]);
    }
    assert(restored(db, f) =~= db);
}

proof fn lemma_frame_key(t: int, k: Seq<u8>, u: int, l: Seq<u8>)
    requires
        0 <= t < 256,
        0 <= u < 256,
        frame_key(t, k) == frame_key(u, l),
    ensures
        t == u,
        k == l,
{
    assert(frame_key(t, k)[0] == t as u8);
    assert(frame_key(u, l)[0] == u as u8);
    assert(frame_key(t, k).skip(1) =~= k);
    assert(frame_key(u, l).skip(1) =~= l);
}

/// Restoring one more key is restoring the rest and then that key.
proof fn lemma_restored_step(db: Db, f: FrameV, fk: Seq<u8>, c: Option<CellV>)
    requires
        db.len() <= 256,
    ensures
        ({
            let d = restored(db, f);
            let e = restored(db, f.insert(fk, c));
            if fk.len() > 0 && fk[0] < db.len() {
                let t = fk[0] as int;
                let k = fk.skip(1);
                e == d.update(
                    t,
                    match c {
                        Some(x) => d[t].insert(k, x),
                        None => d[t].remove(k),
                    },
                )
            } else {
                e == d
            }
        }),
{
    let g = f.insert(fk, c);
    let d = restored(db, f);
    let e = restored(db, g);
    if fk.len() > 0 {
        assert(fk =~= frame_key(fk[0] as int, fk.skip(1)));
    }
    assert forall|t: int| 0 <= t < db.len() implies (#[trigger] e[t]) == (if fk.len() > 0 && fk[0]
        == t {
        match c {
            Some(x) => d[t].insert(fk.skip(1), x),
            None => d[t].remove(fk.skip(1)),
        }
    } else {
        d[t]
    }) by {
        let want = if fk.len() > 0 && fk[0] == t {
            match c {
                Some(x) => d[t].insert(fk.skip(1), x),
                None => d[t].remove(fk.skip(1)),
            }
        } else {
            d[t]
        };
        assert forall|k: Seq<u8>|
            #![trigger e[t].dom().contains(k)]
            #![trigger want.dom().contains(k)]
            e[t].dom().contains(k) == want.dom().contains(k) && (want.dom().contains(k) ==> e[t][k]
                == want[k]) by {
            if frame_key(t, k) == fk {
                lemma_frame_key(t, k, fk[0] as int, fk.skip(1));
            } else if fk.len() > 0 && fk[0] == t && k == fk.skip(1) {
                assert(frame_key(t, k) =~= fk);
            }
        }
        assert(e[t] =~= want);
    }
    if fk.len() > 0 && fk[0] < db.len() {
        let t = fk[0] as int;
        let k = fk.skip(1);
        assert(e =~= d.update(
            t,
            match c {
                Some(x) => d[t].insert(k, x),
                None => d[t].remove(k),
            },
        ));
    } else {
        assert(e =~= d);
    }
}

} // verus!
