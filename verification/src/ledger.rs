//! A database of numbered tables with nested savepoints.
//!
//! It is modelled by its contents and by the contents that each open savepoint would
//! restore.

use crate::journal;
use crate::journal::Cell;
use crate::journal::CellV;
use crate::journal::Db;
use crate::journal::FrameV;
use crate::journal::Journal;
use crate::journal::Rows;
use crate::journal::Tree;
use crate::table::Table;
use crate::text;
use vstd::prelude::*;

verus! {

/// The tables and the journal of what savepoints remember.
pub struct Ledger {
    trees: Vec<Tree>,
    journal: Journal,
}

/// Model of a database: its contents, and what each open savepoint would restore,
/// outermost first.
#[verifier::ext_equal]
pub struct LedgerV {
    pub db: Db,
    pub saved: Seq<Db>,
}

/// One write.
pub enum WriteV {
    Put { t: int, k: Seq<u8>, c: CellV },
    Del { t: int, k: Seq<u8> },
}

/// A table with a value put at a key.
pub open spec fn put(db: Db, t: int, k: Seq<u8>, c: CellV) -> Db {
    db.update(t, db[t].insert(k, c))
}

/// A table with a key removed.
pub open spec fn del(db: Db, t: int, k: Seq<u8>) -> Db {
    db.update(t, db[t].remove(k))
}

impl LedgerV {
    /// With one more savepoint.
    pub open spec fn begun(self) -> LedgerV {
        LedgerV { db: self.db, saved: self.saved.push(self.db) }
    }

    /// With the innermost savepoint closed and its writes kept.
    pub open spec fn kept(self) -> LedgerV {
        LedgerV {
            db: self.db,
            saved: if self.saved.len() == 0 {
                self.saved
            } else {
                self.saved.drop_last()
            },
        }
    }

    /// With the innermost savepoint closed and its writes undone.
    pub open spec fn undone(self) -> LedgerV {
        if self.saved.len() == 0 {
            self
        } else {
            LedgerV { db: self.saved.last(), saved: self.saved.drop_last() }
        }
    }

    /// After one write.
    pub open spec fn wrote(self, w: WriteV) -> LedgerV {
        LedgerV {
            db: match w {
                WriteV::Put { t, k, c } => put(self.db, t, k, c),
                WriteV::Del { t, k } => del(self.db, t, k),
            },
            saved: self.saved,
        }
    }

    /// After a list of writes, in order.
    pub open spec fn wrote_all(self, ws: Seq<WriteV>) -> LedgerV
        decreases ws.len(),
    {
        if ws.len() == 0 {
            self
        } else {
            self.wrote_all(ws.drop_last()).wrote(ws.last())
        }
    }
}

proof fn lemma_wrote_all_saved(v: LedgerV, ws: Seq<WriteV>)
    ensures
        v.wrote_all(ws).saved == v.saved,
    decreases ws.len(),
{
    if ws.len() > 0 {
        lemma_wrote_all_saved(v, ws.drop_last());
    }
}

/// A transaction that is aborted leaves nothing behind, whatever it wrote, and what
/// was written before it stays.
pub proof fn law_aborted_writes_leave_nothing(v: LedgerV, ws: Seq<WriteV>)
    ensures
        v.begun().wrote_all(ws).undone() == v,
{
    lemma_wrote_all_saved(v.begun(), ws);
    assert(v.begun().wrote_all(ws).undone() =~= v);
}

/// A rejected block undoes everything since it began, including the writes of
/// transactions inside it that had succeeded.
pub proof fn law_aborted_block_leaves_nothing(
    v: LedgerV,
    before: Seq<WriteV>,
    inside: Seq<WriteV>,
    after: Seq<WriteV>,
)
    ensures
        v.begun().wrote_all(before).begun().wrote_all(inside).kept().wrote_all(after).undone()
            == v,
{
    let a = v.begun().wrote_all(before);
    lemma_wrote_all_saved(v.begun(), before);
    let b = a.begun().wrote_all(inside);
    lemma_wrote_all_saved(a.begun(), inside);
    assert(b.kept().saved =~= a.saved);
    lemma_wrote_all_saved(b.kept(), after);
    assert(b.kept().wrote_all(after).undone() =~= v);
}

/// A committed transaction keeps its writes while the block may still be rejected.
pub proof fn law_committed_writes_stay(v: LedgerV, ws: Seq<WriteV>)
    ensures
        v.begun().wrote_all(ws).kept() == v.wrote_all(ws),
    decreases ws.len(),
{
    lemma_wrote_all_saved(v.begun(), ws);
    lemma_wrote_all_saved(v, ws);
    lemma_wrote_all_db(v.begun(), v, ws);
    assert(v.begun().wrote_all(ws).kept() =~= v.wrote_all(ws));
}

proof fn lemma_wrote_all_db(v: LedgerV, u: LedgerV, ws: Seq<WriteV>)
    requires
        v.db == u.db,
    ensures
        v.wrote_all(ws).db == u.wrote_all(ws).db,
    decreases ws.len(),
{
    if ws.len() > 0 {
        lemma_wrote_all_db(v, u, ws.drop_last());
    }
}

// ---------------------------------------------------------------- savepoint arithmetic

proof fn lemma_saved_begin(db: Db, frames: Seq<FrameV>)
    ensures
        journal::saved(db, frames.push(Map::<Seq<u8>, Option<CellV>>::empty())) == journal::saved(
            db,
            frames,
        ).push(db),
{
    let e = Map::<Seq<u8>, Option<CellV>>::empty();
    journal::lemma_restored_nothing(db);
    assert(frames.push(e).drop_last() =~= frames);
    assert(frames.push(e).last() == e);
}

/// Remembering a key before writing it leaves what the savepoints restore unchanged.
proof fn lemma_saved_write(db: Db, frames: Seq<FrameV>, t: int, k: Seq<u8>, m: Rows)
    requires
        0 <= t < db.len(),
        db.len() <= 256,
        forall|l: Seq<u8>|
            l != k ==> (#[trigger] m.dom().contains(l) == db[t].dom().contains(l)) && (
            m.dom().contains(l) ==> m[l] == db[t][l]),
    ensures
        journal::saved(db.update(t, m), journal::recorded(frames, t, k, db[t])) == journal::saved(
            db,
            frames,
        ),
{
    if frames.len() > 0 {
        let after = journal::recorded(frames, t, k, db[t]);
        assert(after.drop_last() =~= frames.drop_last());
        let f = frames.last();
        let g = after.last();
        let d = journal::restored(db, f);
        let e = journal::restored(db.update(t, m), g);
        let fk = journal::frame_key(t, k);
        assert forall|u: int| 0 <= u < db.len() implies (#[trigger] e[u]) == d[u] by {
            assert forall|l: Seq<u8>|
                #![trigger e[u].dom().contains(l)]
                #![trigger d[u].dom().contains(l)]
                e[u].dom().contains(l) == d[u].dom().contains(l) && (d[u].dom().contains(l)
                    ==> e[u][l] == d[u][l]) by {
                let fl = journal::frame_key(u, l);
                if fl == fk {
                    assert(fl[0] == u as u8 && fk[0] == t as u8);
                    assert(fl.skip(1) =~= l);
                    assert(fk.skip(1) =~= k);
                    assert(u == t && l == k);
                } else if u == t {
                    assert(l != k);
                    assert(m.dom().contains(l) == db[t].dom().contains(l));
                }
                assert(g.contains_key(fl) == (f.contains_key(fl) || fl == fk));
            }
            assert(e[u] =~= d[u]);
        }
        assert(e =~= d);
    }
}

proof fn lemma_restored_merged(db: Db, outer: FrameV, inner: FrameV)
    ensures
        journal::restored(db, journal::merged(outer, inner)) == journal::restored(
            journal::restored(db, inner),
            outer,
        ),
{
    let d = journal::restored(db, journal::merged(outer, inner));
    let e = journal::restored(journal::restored(db, inner), outer);
    assert forall|u: int| 0 <= u < db.len() implies (#[trigger] d[u]) == e[u] by {
        assert(d[u] =~= e[u]);
    }
    assert(d =~= e);
}

proof fn lemma_saved_commit(db: Db, frames: Seq<FrameV>)
    requires
        frames.len() > 0,
    ensures
        journal::saved(db, journal::committed(frames)) == journal::saved(
            db,
            frames,
        ).drop_last(),
{
    let top = journal::restored(db, frames.last());
    let rest = frames.drop_last();
    assert(journal::saved(db, frames).drop_last() =~= journal::saved(top, rest));
    if frames.len() == 1 {
        assert(journal::committed(frames) =~= rest);
        assert(rest.len() == 0);
    } else {
        let c = journal::committed(frames);
        assert(c.drop_last() =~= rest.drop_last());
        lemma_restored_merged(db, rest.last(), frames.last());
    }
}

proof fn lemma_saved_len(db: Db, frames: Seq<FrameV>)
    ensures
        journal::saved(db, frames).len() == frames.len(),
    decreases frames.len(),
{
    if frames.len() > 0 {
        lemma_saved_len(journal::restored(db, frames.last()), frames.drop_last());
    }
}

// ---------------------------------------------------------------- the database

impl View for Ledger {
    type V = LedgerV;

    closed spec fn view(&self) -> LedgerV {
        let db = journal::db_of(self.trees@);
        LedgerV { db, saved: journal::saved(db, self.journal.frames_view()) }
    }
}

impl Ledger {
    /// Tables and savepoints are well formed, and there are at most 256 tables.
    pub closed spec fn wf(self) -> bool {
        &&& self.trees@.len() <= 256
        &&& forall|i: int| 0 <= i < self.trees@.len() ==> (#[trigger] self.trees@[i]).wf()
        &&& self.journal.wf()
    }

    /// `n` empty tables and no savepoint.
    pub fn new(n: usize) -> (r: Ledger)
        requires
            n <= 256,
        ensures
            r.wf(),
            r@.db == Seq::new(n as nat, |i: int| Map::<Seq<u8>, CellV>::empty()),
            r@.saved == Seq::<Db>::empty(),
    {
        let mut trees: Vec<Tree> = Vec::new();
        let mut i: usize = 0;
        while i < n
            invariant
                i <= n,
                trees@.len() == i,
                forall|j: int|
                    0 <= j < i ==> (#[trigger] trees@[j]).wf() && journal::rows(trees@[j])
                        == Map::<Seq<u8>, CellV>::empty(),
            decreases n - i,
        {
            let t: Tree = Table::new();
            assert(journal::rows(t) =~= Map::<Seq<u8>, CellV>::empty());
            trees.push(t);
            i = i + 1;
        }
        let r = Ledger { trees, journal: Journal::new() };
        assert(r@.db =~= Seq::new(n as nat, |i: int| Map::<Seq<u8>, CellV>::empty()));
        r
    }

    /// Opens a savepoint.
    pub fn begin(&mut self)
        requires
            old(self).wf(),
        ensures
            final(self).wf(),
            final(self)@ == old(self)@.begun(),
    {
        self.journal.begin();
        proof {
            lemma_saved_begin(journal::db_of(self.trees@), old(self).journal.frames_view());
        }
    }

    /// Whether a savepoint is open.
    pub fn active(&self) -> (r: bool)
        ensures
            r == (self@.saved.len() > 0),
    {
        proof {
            lemma_saved_len(journal::db_of(self.trees@), self.journal.frames_view());
        }
        self.journal.active()
    }

    /// Closes the innermost savepoint and keeps its writes.
    pub fn commit(&mut self)
        requires
            old(self).wf(),
        ensures
            final(self).wf(),
            final(self)@ == old(self)@.kept(),
    {
        let ghost db = journal::db_of(self.trees@);
        let ghost frames = self.journal.frames_view();
        self.journal.commit();
        proof {
            lemma_saved_len(db, frames);
            if frames.len() > 0 {
                lemma_saved_commit(db, frames);
            } else {
                assert(journal::committed(frames) =~= frames);
            }
        }
    }

    /// Closes the innermost savepoint and undoes its writes.
    pub fn rollback(&mut self)
        requires
            old(self).wf(),
        ensures
            final(self).wf(),
            final(self)@ == old(self)@.undone(),
    {
        let ghost db = journal::db_of(self.trees@);
        let ghost frames = self.journal.frames_view();
        self.journal.rollback(&mut self.trees);
        proof {
            lemma_saved_len(db, frames);
            if frames.len() > 0 {
                let top = journal::restored(db, frames.last());
                assert(journal::saved(db, frames).drop_last() =~= journal::saved(
                    top,
                    frames.drop_last(),
                ));
            }
            assert(self@ =~= old(self)@.undone());
        }
    }

    /// The value at a key of a table.
    pub fn get(&self, t: usize, key: &[u8]) -> (r: Option<&Cell>)
        requires
            self.wf(),
            t < self@.db.len(),
        ensures
            match r {
                Some(c) => self@.db[t as int].contains_key(key@) && c@
                    == self@.db[t as int][key@],
                None => !self@.db[t as int].contains_key(key@),
            },
    {
        journal::tree_get(&self.trees[t], key)
    }

    /// Puts a value at a key of a table.
    pub fn put(&mut self, t: usize, key: &[u8], c: Cell)
        requires
            old(self).wf(),
            t < old(self)@.db.len(),
        ensures
            final(self).wf(),
            final(self)@.db == put(old(self)@.db, t as int, key@, c@),
            final(self)@.saved == old(self)@.saved,
    {
        let ghost db = journal::db_of(self.trees@);
        let ghost frames = self.journal.frames_view();
        self.journal.record(t, &self.trees[t], key);
        journal::tree_put(&mut self.trees[t], key, c);
        proof {
            let m = db[t as int].insert(key@, c@);
            assert(journal::db_of(self.trees@) =~= db.update(t as int, m));
            lemma_saved_write(db, frames, t as int, key@, m);
        }
    }

    /// Removes a key from a table.
    pub fn del(&mut self, t: usize, key: &[u8])
        requires
            old(self).wf(),
            t < old(self)@.db.len(),
        ensures
            final(self).wf(),
            final(self)@.db == del(old(self)@.db, t as int, key@),
            final(self)@.saved == old(self)@.saved,
    {
        let ghost db = journal::db_of(self.trees@);
        let ghost frames = self.journal.frames_view();
        self.journal.record(t, &self.trees[t], key);
        journal::tree_del(&mut self.trees[t], key);
        proof {
            let m = db[t as int].remove(key@);
            assert(journal::db_of(self.trees@) =~= db.update(t as int, m));
            lemma_saved_write(db, frames, t as int, key@, m);
        }
    }

    /// A table as it is kept.
    pub closed spec fn tree_spec(self, t: int) -> Tree {
        self.trees@[t]
    }

    /// A table, to walk its rows.
    pub fn tree(&self, t: usize) -> (r: &Tree)
        requires
            self.wf(),
            t < self@.db.len(),
        ensures
            r.wf(),
            *r == self.tree_spec(t as int),
            journal::rows(*r) == self@.db[t as int],
    {
        &self.trees[t]
    }

    /// Removes every key of a table.
    pub fn clear(&mut self, t: usize)
        requires
            old(self).wf(),
            t < old(self)@.db.len(),
        ensures
            final(self).wf(),
            final(self)@.db == old(self)@.db.update(
                t as int,
                Map::<Seq<u8>, CellV>::empty(),
            ),
            final(self)@.saved == old(self)@.saved,
    {
        let count: usize = self.trees[t].len();
        let mut left: usize = count;
        while left > 0
            invariant
                self.wf(),
                t < self@.db.len(),
                self@.db.len() == old(self)@.db.len(),
                left == self.trees@[t as int].entries().len(),
                forall|i: int|
                    0 <= i < self@.db.len() && i != t ==> #[trigger] self@.db[i] == old(self)@.db[i],
                self@.saved == old(self)@.saved,
            decreases left,
        {
            let key = text::copy_bytes(self.trees[t].key_at(left - 1).as_slice());
            let ghost before = self.trees@[t as int];
            let ghost b = self@.db;
            assert(b[t as int] == journal::rows(before));
            proof {
                crate::table::lemma_map_of_at(before.entries(), left - 1);
                crate::table::lemma_increasing_drop_last(before.entries());
            }
            self.del(t, key.as_slice());
            left = self.trees[t].len();
            proof {
                assert(self@.db[t as int] == journal::rows(self.trees@[t as int]));
                lemma_fewer(before, self.trees@[t as int], key@);
            }
        }
        proof {
            assert(self.trees@[t as int].entries() =~= Seq::empty());
            assert(self@.db[t as int] =~= Map::<Seq<u8>, CellV>::empty());
            assert(self@.db =~= old(self)@.db.update(t as int, Map::<Seq<u8>, CellV>::empty()));
        }
    }
}

/// Removing the last key of a table shortens it by one row.
proof fn lemma_fewer(before: Tree, after: Tree, key: Seq<u8>)
    requires
        before.wf(),
        after.wf(),
        before.entries().len() > 0,
        key == before.entries().last().0,
        journal::rows(after) == journal::rows(before).remove(key),
    ensures
        after.entries().len() == before.entries().len() - 1,
{
    journal::lemma_walk(before);
    journal::lemma_walk(after);
    let s = journal::modelled(before.entries());
    let t = journal::modelled(after.entries());
    crate::table::lemma_increasing_drop_last(s);
    assert(s.last().0 == key);
    crate::table::lemma_increasing_canonical(t, s.drop_last());
}

} // verus!
