//! State snapshots: join the network without replaying every block.
//!
//! A snapshot is the state at one finalized height plus that height's block. It is
//! verified, not trusted: an import rebuilds the Merkle tree from the tables and
//! refuses the snapshot unless the root it finds is the root the snapshot names.

use crate::conserve;
use crate::crypto;
use crate::journal::Cell;
use crate::journal::CellV;
use crate::journal::Db;
use crate::ledger;
use crate::mirror;
use crate::poseidon::ParamsV;
use crate::smt;
use crate::state;
use crate::state::FixedV;
use crate::state::Store;
use crate::supply;
use crate::table;
use crate::text;
use crate::types::Block;
use crate::types::BlockV;
use vstd::prelude::*;
use vstd::string::*;
use vstd::utf8::*;

verus! {

/// The format written by this version.
pub const SNAPSHOT_FORMAT: u32 = 2;

/// One table of a snapshot: keys in hexadecimal with their values.
pub struct Table {
    pub name: String,
    pub entries: Vec<(String, Cell)>,
}

/// A snapshot.
pub struct Snapshot {
    pub format: u32,
    pub chain_id: u64,
    pub height: u64,
    pub block_hash: String,
    pub state_root: String,
    /// Root of the state at rest after this height: what an import reproduces and
    /// checks. Empty in files of the first format, which stand for the block's root.
    pub at_rest_root: String,
    pub base_fee: String,
    pub shielded_pool: String,
    pub shielded_sealed: u64,
    pub shielded_vk: String,
    pub block: Block,
    pub tables: Vec<Table>,
}

/// Model of one table of a snapshot.
#[verifier::ext_equal]
pub struct TableV {
    pub name: Seq<char>,
    pub entries: Seq<(Seq<char>, CellV)>,
}

/// Model of a snapshot.
#[verifier::ext_equal]
pub struct SnapshotV {
    pub format: u32,
    pub chain_id: u64,
    pub height: u64,
    pub block_hash: Seq<char>,
    pub state_root: Seq<char>,
    pub at_rest_root: Seq<char>,
    pub base_fee: Seq<char>,
    pub shielded_pool: Seq<char>,
    pub shielded_sealed: u64,
    pub shielded_vk: Seq<char>,
    pub block: BlockV,
    pub tables: Seq<TableV>,
}

/// Model of the entries of a table.
pub open spec fn entries_view(v: Seq<(String, Cell)>) -> Seq<(Seq<char>, CellV)> {
    v.map_values(|e: (String, Cell)| (e.0@, e.1@))
}

impl View for Table {
    type V = TableV;

    open spec fn view(&self) -> TableV {
        TableV { name: self.name@, entries: entries_view(self.entries@) }
    }
}

/// Models of tables.
pub open spec fn tables_view(v: Seq<Table>) -> Seq<TableV> {
    v.map_values(|t: Table| t@)
}

impl View for Snapshot {
    type V = SnapshotV;

    open spec fn view(&self) -> SnapshotV {
        SnapshotV {
            format: self.format,
            chain_id: self.chain_id,
            height: self.height,
            block_hash: self.block_hash@,
            state_root: self.state_root@,
            at_rest_root: self.at_rest_root@,
            base_fee: self.base_fee@,
            shielded_pool: self.shielded_pool@,
            shielded_sealed: self.shielded_sealed,
            shielded_vk: self.shielded_vk@,
            block: self.block@,
            tables: tables_view(self.tables@),
        }
    }
}

/// Number of entries of tables.
pub open spec fn entries_in(s: Seq<TableV>) -> nat
    decreases s.len(),
{
    if s.len() == 0 {
        0
    } else {
        entries_in(s.drop_last()) + s.last().entries.len()
    }
}

impl Clone for Table {
    fn clone(&self) -> (r: Table)
        ensures
            r@ == self@,
    {
        let mut entries: Vec<(String, Cell)> = Vec::new();
        let mut i: usize = 0;
        while i < self.entries.len()
            invariant
                i <= self.entries@.len(),
                entries_view(entries@) =~= entries_view(self.entries@).take(i as int),
            decreases self.entries@.len() - i,
        {
            let ghost was = entries_view(entries@);
            let k = self.entries[i].0.clone();
            let c = self.entries[i].1.clone();
            let ghost e = (k@, c@);
            entries.push((k, c));
            assert(entries_view(entries@) =~= was.push(e));
            i = i + 1;
        }
        assert(entries_view(self.entries@).take(self.entries@.len() as int) =~= entries_view(
            self.entries@,
        ));
        Table { name: self.name.clone(), entries }
    }
}

impl Clone for Snapshot {
    fn clone(&self) -> (r: Snapshot)
        ensures
            r@ == self@,
    {
        let mut tables: Vec<Table> = Vec::new();
        let mut i: usize = 0;
        while i < self.tables.len()
            invariant
                i <= self.tables@.len(),
                tables_view(tables@) =~= tables_view(self.tables@).take(i as int),
            decreases self.tables@.len() - i,
        {
            let ghost was = tables_view(tables@);
            let t = self.tables[i].clone();
            let ghost tv = t@;
            tables.push(t);
            assert(tables_view(tables@) =~= was.push(tv));
            i = i + 1;
        }
        assert(tables_view(self.tables@).take(self.tables@.len() as int) =~= tables_view(
            self.tables@,
        ));
        Snapshot {
            format: self.format,
            chain_id: self.chain_id,
            height: self.height,
            block_hash: self.block_hash.clone(),
            state_root: self.state_root.clone(),
            at_rest_root: self.at_rest_root.clone(),
            base_fee: self.base_fee.clone(),
            shielded_pool: self.shielded_pool.clone(),
            shielded_sealed: self.shielded_sealed,
            shielded_vk: self.shielded_vk.clone(),
            block: self.block.clone(),
            tables,
        }
    }
}

impl Snapshot {
    /// Number of entries of all tables, as far as it fits.
    pub fn entry_count(&self) -> (r: usize)
        ensures
            r == if entries_in(self@.tables) <= usize::MAX {
                entries_in(self@.tables)
            } else {
                usize::MAX as nat
            },
    {
        let ghost s = self@.tables;
        let mut n: usize = 0;
        let mut i: usize = 0;
        assert(s.take(0) =~= Seq::<TableV>::empty());
        while i < self.tables.len()
            invariant
                i <= self.tables@.len(),
                s == tables_view(self.tables@),
                n == if entries_in(s.take(i as int)) <= usize::MAX {
                    entries_in(s.take(i as int))
                } else {
                    usize::MAX as nat
                },
            decreases self.tables@.len() - i,
        {
            proof {
                assert(s.take(i + 1).drop_last() =~= s.take(i as int));
                assert(s.take(i + 1).last() == self.tables@[i as int]@);
            }
            n = n.saturating_add(self.tables[i].entries.len());
            i = i + 1;
        }
        assert(s.take(s.len() as int) =~= s);
        n
    }
}

// ---------------------------------------------------------------- export

/// Rows with their keys in hexadecimal.
pub open spec fn hexed(s: Seq<(Seq<u8>, CellV)>) -> Seq<(Seq<char>, CellV)> {
    s.map_values(|e: (Seq<u8>, CellV)| (crypto::hex_text(e.0), e.1))
}

/// A table of a snapshot of a database.
pub open spec fn table_of(db: Db, name: Seq<char>) -> TableV {
    TableV { name, entries: hexed(state::dumped(db, name)) }
}

/// All tables of a snapshot of a database.
pub open spec fn tables_of(db: Db) -> Seq<TableV> {
    state::snapshot_names().map_values(|n: Seq<char>| table_of(db, n))
}

/// The height a snapshot is taken at: the finalized one, or the tip while nothing is
/// finalized.
pub open spec fn export_height(db: Db) -> nat {
    if state::finalized_of(db) > 0 {
        state::finalized_of(db)
    } else {
        match state::tip_height_of(db) {
            Some(h) => h,
            None => 0,
        }
    }
}

/// The count the last sealed root covers.
pub open spec fn sealed_count(db: Db) -> nat {
    match state::meta_number(db, "shielded_sealed"@, u64::MAX as nat) {
        Some(n) => n,
        None => 0,
    }
}

/// The verifying key in hexadecimal, empty when there is none.
pub open spec fn key_text(db: Db) -> Seq<char> {
    match state::verifying_key_of(db) {
        Some(k) => crypto::hex_text(k),
        None => ""@,
    }
}

/// Outcome of taking a snapshot.
pub open spec fn exported(f: FixedV, db: Db, chain_id: u64) -> Result<SnapshotV, Seq<char>> {
    let height = export_height(db);
    match state::block_of(db, height) {
        None => Err("block "@ + text::dec(height) + " is not stored"@),
        Some(block) => if state::checkpoint_of(db) matches Some(c) && c.0 == height && c.1
            != state::state_root_of(f.notes, db) {
            Err(
                "state at rest does not match this node's checkpoint at height "@ + text::dec(
                    height,
                ),
            )
        } else {
            Ok(
                SnapshotV {
                    format: SNAPSHOT_FORMAT,
                    chain_id,
                    height: height as u64,
                    block_hash: block.hash,
                    state_root: block.state_root,
                    at_rest_root: state::root_at(f.notes, db, height),
                    base_fee: text::dec(state::base_fee_of(db)),
                    shielded_pool: text::dec(state::pool_of(db)),
                    shielded_sealed: sealed_count(db) as u64,
                    shielded_vk: key_text(db),
                    block,
                    tables: tables_of(db),
                },
            )
        },
    }
}

/// A table of a snapshot of a store.
fn dump_table(store: &Store, name: &str) -> (r: Table)
    requires
        store.wf(),
    ensures
        r@ == table_of(store@.db, name@),
{
    let rows = store.raw_dump(name);
    let ghost m = state::rows_view(rows@);
    let mut entries: Vec<(String, Cell)> = Vec::new();
    let mut i: usize = 0;
    while i < rows.len()
        invariant
            i <= rows@.len(),
            m == state::rows_view(rows@),
            entries_view(entries@) =~= hexed(m.take(i as int)),
        decreases rows@.len() - i,
    {
        let ghost was = entries_view(entries@);
        let k = crypto::to_hex(rows[i].0.as_slice());
        let c = rows[i].1.clone();
        let ghost e = (k@, c@);
        entries.push((k, c));
        proof {
            assert(entries_view(entries@) =~= was.push(e));
            assert(m[i as int] == (rows@[i as int].0@, rows@[i as int].1@));
            assert(hexed(m.take(i + 1)) =~= hexed(m.take(i as int)).push(e));
        }
        i = i + 1;
    }
    assert(m.take(m.len() as int) =~= m);
    Table { name: text::copy(name), entries }
}

/// Captures the state at the finalized tip.
pub fn export(store: &Store, chain_id: u64) -> (r: Result<Snapshot, String>)
    requires
        store.wf(),
    ensures
        match r {
            Ok(s) => exported(store.fixed(), store@.db, chain_id) == Ok::<SnapshotV, Seq<char>>(s@),
            Err(e) => exported(store.fixed(), store@.db, chain_id) == Err::<SnapshotV, Seq<char>>(
                e@,
            ),
        },
{
    let ghost db = store@.db;
    let finalized = store.finalized_height();
    let height: u64 = if finalized > 0 {
        finalized
    } else {
        match store.tip_height() {
            Some(h) => h,
            None => 0,
        }
    };
    let block = match store.block(height) {
        Some(b) => b,
        None => {
            let mut m = text::copy("block ");
            text::push_dec(&mut m, height as u128);
            m.append(" is not stored");
            return Err(m);
        },
    };
    match store.state_checkpoint() {
        Some((h, root)) => {
            if h == height {
                let here = store.state_root();
                if !text::same(root.as_str(), here.as_str()) {
                    let mut m = text::copy(
                        "state at rest does not match this node's checkpoint at height ",
                    );
                    text::push_dec(&mut m, height as u128);
                    return Err(m);
                }
            }
        },
        None => {},
    }
    let names = state::snapshot_tables();
    let mut tables: Vec<Table> = Vec::new();
    let mut i: usize = 0;
    while i < names.len()
        invariant
            i <= names@.len(),
            names@.len() == 11,
            forall|j: int| 0 <= j < 11 ==> (#[trigger] names@[j])@ == state::snapshot_names()[j],
            store.wf(),
            db == store@.db,
            tables_view(tables@) =~= tables_of(db).take(i as int),
        decreases names@.len() - i,
    {
        let ghost was = tables_view(tables@);
        let t = dump_table(store, names[i]);
        let ghost tv = t@;
        tables.push(t);
        assert(tables_view(tables@) =~= was.push(tv));
        assert(tables_of(db)[i as int] == tv);
        i = i + 1;
    }
    assert(tables_of(db).take(11) =~= tables_of(db));
    let base_fee = text::decimal(store.base_fee());
    let shielded_pool = text::decimal(store.shielded_pool_balance());
    let shielded_vk = match store.shielded_verifying_key() {
        Some(k) => crypto::to_hex(k.as_slice()),
        None => text::copy(""),
    };
    let snap = Snapshot {
        format: SNAPSHOT_FORMAT,
        chain_id,
        height,
        block_hash: block.hash.clone(),
        state_root: block.state_root.clone(),
        at_rest_root: store.state_root_at(height),
        base_fee,
        shielded_pool,
        shielded_sealed: store.shielded_last_sealed_count(),
        shielded_vk,
        block,
        tables,
    };
    assert(snap@ =~= exported(store.fixed(), db, chain_id)->Ok_0);
    Ok(snap)
}

// ---------------------------------------------------------------- import

/// The rows entries denote: every key must be hexadecimal.
pub open spec fn unhexed(s: Seq<(Seq<char>, CellV)>) -> Option<Seq<(Seq<u8>, CellV)>>
    decreases s.len(),
{
    if s.len() == 0 {
        Some(Seq::empty())
    } else {
        match unhexed(s.drop_last()) {
            None => None,
            Some(r) => match crypto::unhex(s.last().0) {
                None => None,
                Some(k) => Some(r.push((k, s.last().1))),
            },
        }
    }
}

/// The database with one table of a snapshot laid in.
pub open spec fn laid_one(db: Db, t: TableV) -> Result<Db, Seq<char>> {
    match unhexed(t.entries) {
        None => Err("bad key in "@ + t.name),
        Some(rows) => state::restored_table(db, t.name, rows),
    }
}

/// The database with the tables of a snapshot laid in, in order.
pub open spec fn laid(db: Db, ts: Seq<TableV>) -> Result<Db, Seq<char>>
    decreases ts.len(),
{
    if ts.len() == 0 {
        Ok(db)
    } else {
        match laid(db, ts.drop_last()) {
            Err(e) => Err(e),
            Ok(d) => laid_one(d, ts.last()),
        }
    }
}

/// The root an import has to find: the one at rest, or the block's in files of the
/// first format.
pub open spec fn expected_root(s: SnapshotV) -> Seq<char> {
    if s.at_rest_root.len() == 0 {
        s.state_root
    } else {
        s.at_rest_root
    }
}

/// The pool balance a snapshot names.
pub open spec fn pool_named(s: SnapshotV) -> Option<nat> {
    if s.shielded_pool.len() == 0 {
        Some(0)
    } else {
        text::parsed_upto(s.shielded_pool, u128::MAX as nat)
    }
}

/// The verifying key a snapshot names, if it names one well.
pub open spec fn key_named(s: SnapshotV) -> Option<Option<Seq<u8>>> {
    if s.shielded_vk.len() == 0 {
        Some(None)
    } else {
        match crypto::unhex(s.shielded_vk) {
            Some(k) => Some(Some(k)),
            None => None,
        }
    }
}

/// What is wrong with a snapshot before any table of it is looked at.
pub open spec fn snapshot_fault(s: SnapshotV, chain_id: u64) -> Option<Seq<char>> {
    if s.format != SNAPSHOT_FORMAT && s.format != 1 {
        Some("unsupported snapshot format "@ + text::dec(s.format as nat))
    } else if s.chain_id != chain_id {
        Some(
            "snapshot is for chain "@ + text::dec(s.chain_id as nat) + ", this node is "@
                + text::dec(chain_id as nat),
        )
    } else if s.block.height != s.height {
        Some("snapshot height does not match its block"@)
    } else if s.block.hash_text() != s.block.hash || s.block.hash != s.block_hash {
        Some("snapshot block hash does not match its contents"@)
    } else if s.block.state_root != s.state_root {
        Some("snapshot state root does not match its block header"@)
    } else if text::parsed_upto(s.base_fee, u128::MAX as nat) is None {
        Some("bad base fee"@)
    } else if pool_named(s) is None {
        Some("bad shielded pool balance"@)
    } else if key_named(s) is None {
        Some("bad shielded verifying key"@)
    } else {
        None
    }
}

/// The database with what a snapshot says of fees and the shielded pool.
pub open spec fn with_named(db: Db, s: SnapshotV) -> Db {
    let a = state::with_meta(
        db,
        "base_fee"@,
        text::utf8(text::dec(text::parsed_upto(s.base_fee, u128::MAX as nat)->Some_0)),
    );
    let b = state::with_meta(a, "shielded_pool"@, text::utf8(text::dec(pool_named(s)->Some_0)));
    let c = state::with_meta(
        b,
        "shielded_sealed"@,
        text::utf8(text::dec(s.shielded_sealed as nat)),
    );
    match key_named(s)->Some_0 {
        Some(k) => state::with_meta(c, "shielded_vk"@, text::utf8(crypto::hex_text(k))),
        None => c,
    }
}

/// The database with a verified snapshot adopted: its block is the finalized tip, the
/// state is the integrity baseline, and everything below is absent history.
pub open spec fn baselined(f: FixedV, db: Db, s: SnapshotV) -> Db {
    let a = state::with_finalized(state::with_block(db, s.block), s.height as nat);
    let b = state::with_checkpoint(a, s.height as nat, state::state_root_of(f.notes, a));
    state::with_meta(b, "pruned_below"@, text::be(s.height as nat, 8))
}

/// The state a snapshot builds, before its root is checked.
pub open spec fn built(f: FixedV, db: Db, s: SnapshotV) -> Db {
    state::rebuilt(f, with_named(db, s), s.height as nat)
}

/// Outcome of importing a snapshot. One refused at a glance leaves the store; one
/// refused later leaves it wiped rather than half written.
pub open spec fn installed(f: FixedV, db: Db, s: SnapshotV, chain_id: u64) -> (
    Result<u64, Seq<char>>,
    Db,
) {
    match snapshot_fault(s, chain_id) {
        Some(e) => (Err(e), db),
        None => match laid(state::wiped(db), s.tables) {
            Err(e) => (Err(e), unlaid(state::wiped(db), s.tables)),
            Ok(d) => {
                let g = built(f, d, s);
                let root = state::root_at(f.notes, g, s.height as nat);
                if root != expected_root(s) {
                    (
                        Err(
                            "snapshot state root mismatch: expected "@ + expected_root(s)
                                + " but imported state hashes to "@ + root,
                        ),
                        state::wiped(g),
                    )
                } else {
                    (Ok(s.height), baselined(f, g, s))
                }
            },
        },
    }
}

/// The database after a table of a snapshot could not be laid in: everything laid in
/// before it is wiped again.
pub open spec fn unlaid(db: Db, ts: Seq<TableV>) -> Db
    decreases ts.len(),
{
    if ts.len() == 0 {
        db
    } else {
        match laid(db, ts.drop_last()) {
            Err(_) => unlaid(db, ts.drop_last()),
            Ok(d) => state::wiped(d),
        }
    }
}

/// The rows of a table of a snapshot.
fn read_entries(t: &Table) -> (r: Option<Vec<(Vec<u8>, Cell)>>)
    ensures
        match r {
            Some(v) => unhexed(t@.entries) == Some(state::rows_view(v@)),
            None => unhexed(t@.entries) is None,
        },
{
    let ghost s = t@.entries;
    let mut out: Vec<(Vec<u8>, Cell)> = Vec::new();
    let mut i: usize = 0;
    proof {
        assert(s.take(0) =~= Seq::<(Seq<char>, CellV)>::empty());
        assert(state::rows_view(out@) =~= Seq::<(Seq<u8>, CellV)>::empty());
    }
    while i < t.entries.len()
        invariant
            i <= t.entries@.len(),
            s == entries_view(t.entries@),
            unhexed(s.take(i as int)) == Some(state::rows_view(out@)),
        decreases t.entries@.len() - i,
    {
        proof {
            assert(s.take(i + 1).drop_last() =~= s.take(i as int));
            assert(s.take(i + 1).last() == s[i as int]);
        }
        match crypto::from_hex(t.entries[i].0.as_str()) {
            None => {
                proof {
                    lemma_unhexed_fails(s, i + 1);
                }
                return None;
            },
            Some(k) => {
                let ghost was = state::rows_view(out@);
                let c = t.entries[i].1.clone();
                let ghost e = (k@, c@);
                out.push((k, c));
                assert(state::rows_view(out@) =~= was.push(e));
            },
        }
        i = i + 1;
    }
    assert(s.take(s.len() as int) =~= s);
    Some(out)
}

proof fn lemma_unhexed_fails(s: Seq<(Seq<char>, CellV)>, k: int)
    requires
        0 <= k <= s.len(),
        unhexed(s.take(k)) is None,
    ensures
        unhexed(s) is None,
    decreases s.len(),
{
    if k == s.len() {
        assert(s.take(k) =~= s);
    } else {
        assert(s.drop_last().take(k) =~= s.take(k));
        lemma_unhexed_fails(s.drop_last(), k);
    }
}

proof fn lemma_laid_fails(db: Db, ts: Seq<TableV>, k: int)
    requires
        0 < k <= ts.len(),
        laid(db, ts.take(k)) is Err,
    ensures
        laid(db, ts) == laid(db, ts.take(k)),
        unlaid(db, ts) == unlaid(db, ts.take(k)),
    decreases ts.len(),
{
    if k == ts.len() {
        assert(ts.take(k) =~= ts);
    } else {
        assert(ts.drop_last().take(k) =~= ts.take(k));
        lemma_laid_fails(db, ts.drop_last(), k);
    }
}

/// Lays one table of a snapshot in.
fn lay_one(store: &mut Store, t: &Table) -> (r: Result<(), String>)
    requires
        old(store).wf(),
    ensures
        state::follows(*old(store), *final(store)),
        match r {
            Ok(()) => laid_one(old(store)@.db, t@) == Ok::<Db, Seq<char>>(final(store)@.db),
            Err(e) => laid_one(old(store)@.db, t@) == Err::<Db, Seq<char>>(e@) && final(store)@.db
                == old(store)@.db,
        },
{
    match read_entries(t) {
        None => {
            let mut m = text::copy("bad key in ");
            m.append(t.name.as_str());
            Err(m)
        },
        Some(rows) => store.raw_restore(t.name.as_str(), &rows),
    }
}

/// Lays the tables of a snapshot in; when one cannot be, what was laid in is wiped.
fn lay(store: &mut Store, ts: &Vec<Table>) -> (r: Result<(), String>)
    requires
        old(store).wf(),
    ensures
        state::follows(*old(store), *final(store)),
        match r {
            Ok(()) => laid(old(store)@.db, tables_view(ts@)) == Ok::<Db, Seq<char>>(
                final(store)@.db,
            ),
            Err(e) => laid(old(store)@.db, tables_view(ts@)) == Err::<Db, Seq<char>>(e@)
                && final(store)@.db == unlaid(old(store)@.db, tables_view(ts@)),
        },
{
    let ghost all = tables_view(ts@);
    let ghost db0 = store@.db;
    let mut i: usize = 0;
    assert(all.take(0) =~= Seq::<TableV>::empty());
    while i < ts.len()
        invariant
            i <= ts@.len(),
            all == tables_view(ts@),
            db0 == old(store)@.db,
            state::follows(*old(store), *store),
            laid(db0, all.take(i as int)) == Ok::<Db, Seq<char>>(store@.db),
        decreases ts@.len() - i,
    {
        proof {
            assert(all.take(i + 1).drop_last() =~= all.take(i as int));
            assert(all.take(i + 1).last() == ts@[i as int]@);
        }
        match lay_one(store, &ts[i]) {
            Ok(()) => {},
            Err(e) => {
                proof {
                    lemma_laid_fails(db0, all, i + 1);
                }
                store.reset_chain();
                return Err(e);
            },
        }
        i = i + 1;
    }
    assert(all.take(all.len() as int) =~= all);
    Ok(())
}

/// What is wrong with a snapshot at a glance.
fn find_fault(snap: &Snapshot, chain_id: u64) -> (r: Option<String>)
    ensures
        match r {
            Some(e) => snapshot_fault(snap@, chain_id) == Some(e@),
            None => snapshot_fault(snap@, chain_id) is None,
        },
{
    if snap.format != SNAPSHOT_FORMAT && snap.format != 1 {
        let mut m = text::copy("unsupported snapshot format ");
        text::push_dec(&mut m, snap.format as u128);
        return Some(m);
    }
    if snap.chain_id != chain_id {
        let mut m = text::copy("snapshot is for chain ");
        text::push_dec(&mut m, snap.chain_id as u128);
        m.append(", this node is ");
        text::push_dec(&mut m, chain_id as u128);
        return Some(m);
    }
    if snap.block.height != snap.height {
        return Some(text::copy("snapshot height does not match its block"));
    }
    let hash = snap.block.compute_hash();
    if !text::same(hash.as_str(), snap.block.hash.as_str()) || !text::same(
        snap.block.hash.as_str(),
        snap.block_hash.as_str(),
    ) {
        return Some(text::copy("snapshot block hash does not match its contents"));
    }
    if !text::same(snap.block.state_root.as_str(), snap.state_root.as_str()) {
        return Some(text::copy("snapshot state root does not match its block header"));
    }
    if text::parse_u128(snap.base_fee.as_str()).is_none() {
        return Some(text::copy("bad base fee"));
    }
    if !snap.shielded_pool.as_str().is_empty() && text::parse_u128(
        snap.shielded_pool.as_str(),
    ).is_none() {
        return Some(text::copy("bad shielded pool balance"));
    }
    if !snap.shielded_vk.as_str().is_empty() && crypto::from_hex(
        snap.shielded_vk.as_str(),
    ).is_none() {
        return Some(text::copy("bad shielded verifying key"));
    }
    None
}

/// Writes what a snapshot says of fees and the shielded pool.
fn write_named(store: &mut Store, snap: &Snapshot, chain_id: u64)
    requires
        old(store).wf(),
        snapshot_fault(snap@, chain_id) is None,
    ensures
        state::follows(*old(store), *final(store)),
        final(store)@.db == with_named(old(store)@.db, snap@),
{
    match text::parse_u128(snap.base_fee.as_str()) {
        Some(n) => store.set_base_fee(n),
        None => {},
    }
    let pool: u128 = if snap.shielded_pool.as_str().is_empty() {
        0
    } else {
        match text::parse_u128(snap.shielded_pool.as_str()) {
            Some(n) => n,
            None => 0,
        }
    };
    store.shielded_set_pool_balance(pool);
    store.shielded_set_last_sealed_count(snap.shielded_sealed);
    if !snap.shielded_vk.as_str().is_empty() {
        match crypto::from_hex(snap.shielded_vk.as_str()) {
            Some(k) => store.shielded_set_verifying_key(k.as_slice()),
            None => {},
        }
    }
}

/// Installs a snapshot and verifies it.
pub fn import(store: &mut Store, snap: &Snapshot, chain_id: u64) -> (r: Result<u64, String>)
    requires
        old(store).wf(),
    ensures
        state::follows(*old(store), *final(store)),
        match r {
            Ok(h) => installed(old(store).fixed(), old(store)@.db, snap@, chain_id).0 == Ok::<
                u64,
                Seq<char>,
            >(h),
            Err(e) => installed(old(store).fixed(), old(store)@.db, snap@, chain_id).0 == Err::<
                u64,
                Seq<char>,
            >(e@),
        },
        final(store)@.db == installed(old(store).fixed(), old(store)@.db, snap@, chain_id).1,
{
    match find_fault(snap, chain_id) {
        Some(e) => {
            return Err(e);
        },
        None => {},
    }
    store.reset_chain();
    match lay(store, &snap.tables) {
        Ok(()) => {},
        Err(e) => {
            return Err(e);
        },
    }
    write_named(store, snap, chain_id);
    store.build_merkle_state(snap.height);
    let root = store.state_root_at(snap.height);
    let want: &str = if snap.at_rest_root.as_str().is_empty() {
        snap.state_root.as_str()
    } else {
        snap.at_rest_root.as_str()
    };
    if !text::same(root.as_str(), want) {
        store.reset_chain();
        let mut m = text::copy("snapshot state root mismatch: expected ");
        m.append(want);
        m.append(" but imported state hashes to ");
        m.append(root.as_str());
        return Err(m);
    }
    store.put_block(&snap.block);
    store.set_finalized_height(snap.height);
    let digest = store.state_root();
    store.set_state_checkpoint(snap.height, digest.as_str());
    store.mark_pruned_below(snap.height);
    Ok(snap.height)
}


// ---------------------------------------------------------------- laws

/// A refused snapshot installs nothing: the store is as it was, or it holds no state
/// at all, no block and no tip.
pub proof fn law_refused_snapshot_installs_nothing(f: FixedV, db: Db, s: SnapshotV, chain_id: u64)
    requires
        db.len() == 16,
        installed(f, db, s, chain_id).0 is Err,
    ensures
        ({
            let after = installed(f, db, s, chain_id).1;
            after == db || bare(after)
        }),
{
    if snapshot_fault(s, chain_id) is None {
        lemma_wiped_bare(db);
        match laid(state::wiped(db), s.tables) {
            Err(_) => {
                lemma_unlaid_bare(state::wiped(db), s.tables);
            },
            Ok(d) => {
                lemma_laid_len(state::wiped(db), s.tables);
                lemma_rebuilt_frame(f, with_named(d, s), s.height as nat);
                lemma_wiped_bare(built(f, d, s));
            },
        }
    }
}

/// Nothing of a chain is left: no account, block, index entry, staker, token, balance,
/// contract, storage, receipt, penalty, Merkle node or note, and no tip.
pub open spec fn bare(db: Db) -> bool {
    &&& db.len() == 16
    &&& forall|i: int|
        0 <= i < 16 && i != 3 && i != 8 ==> #[trigger] db[i] == Map::<Seq<u8>, CellV>::empty()
    &&& state::tip_height_of(db) is None
    &&& state::checkpoint_of(db) is None
}

proof fn lemma_wiped_bare(db: Db)
    requires
        db.len() == 16,
    ensures
        bare(state::wiped(db)),
{
    let d = state::wiped(db);
    assert(!d[3].contains_key(text::utf8("state_checkpoint"@)));
    assert(!d[3].contains_key(text::utf8("tip_height"@)));
}

proof fn lemma_laid_len(db: Db, ts: Seq<TableV>)
    requires
        db.len() == 16,
        laid(db, ts) is Ok,
    ensures
        laid(db, ts)->Ok_0.len() == 16,
    decreases ts.len(),
{
    if ts.len() > 0 {
        lemma_laid_len(db, ts.drop_last());
    }
}

proof fn lemma_unlaid_bare(db: Db, ts: Seq<TableV>)
    requires
        bare(db),
    ensures
        bare(unlaid(db, ts)),
    decreases ts.len(),
{
    if ts.len() > 0 {
        if laid(db, ts.drop_last()) is Ok {
            lemma_laid_len(db, ts.drop_last());
            lemma_wiped_bare(laid(db, ts.drop_last())->Ok_0);
        } else {
            lemma_unlaid_bare(db, ts.drop_last());
        }
    }
}

/// Writing leaves of the Merkle tree leaves every other table, and what it makes of
/// the tree depends on nothing else.
proof fn lemma_all_merkled(a: Db, b: Db, domain: Seq<char>, t: int, s: Seq<(Seq<u8>, CellV)>)
    requires
        a.len() == 16,
        b.len() == 16,
        a[12] == b[12],
    ensures
        state::all_merkled(a, domain, t, s).len() == 16,
        forall|i: int|
            0 <= i < 16 && i != 12 ==> #[trigger] state::all_merkled(a, domain, t, s)[i] == a[i],
        state::all_merkled(a, domain, t, s)[12] == state::all_merkled(b, domain, t, s)[12],
    decreases s.len(),
{
    if s.len() > 0 {
        lemma_all_merkled(a, b, domain, t, s.drop_last());
        lemma_all_merkled(b, a, domain, t, s.drop_last());
    }
}

/// Databases whose rebuilt Merkle trees agree.
spec fn alike(a: Db, b: Db) -> bool {
    &&& a.len() == 16
    &&& b.len() == 16
    &&& a[0] == b[0]
    &&& a[5] == b[5]
    &&& a[6] == b[6]
    &&& a[7] == b[7]
    &&& a[9] == b[9]
    &&& a[13] == b[13]
    &&& a[14] == b[14]
    &&& state::pool_of(a) == state::pool_of(b)
}

/// The tables of a rebuilt database before the pool is folded in.
spec fn five(db: Db) -> Db {
    let a = state::all_merkled(state::emptied(db, 12), "acct"@, 0, table::ordered(db[0]));
    let b = state::all_merkled(a, "token"@, 5, table::ordered(db[5]));
    let c = state::all_merkled(b, "tokenbal"@, 6, table::ordered(db[6]));
    let d = state::all_merkled(c, "contract"@, 7, table::ordered(db[7]));
    state::all_merkled(d, "cstorage"@, 9, table::ordered(db[9]))
}

proof fn lemma_five(a: Db, b: Db)
    requires
        alike(a, b),
    ensures
        five(a).len() == 16,
        forall|i: int| 0 <= i < 16 && i != 12 ==> #[trigger] five(a)[i] == a[i],
        five(a)[12] == five(b)[12],
{
    let a0 = state::emptied(a, 12);
    let b0 = state::emptied(b, 12);
    lemma_all_merkled(a0, b0, "acct"@, 0, table::ordered(a[0]));
    lemma_all_merkled(b0, a0, "acct"@, 0, table::ordered(a[0]));
    let a1 = state::all_merkled(a0, "acct"@, 0, table::ordered(a[0]));
    let b1 = state::all_merkled(b0, "acct"@, 0, table::ordered(a[0]));
    lemma_all_merkled(a1, b1, "token"@, 5, table::ordered(a[5]));
    lemma_all_merkled(b1, a1, "token"@, 5, table::ordered(a[5]));
    let a2 = state::all_merkled(a1, "token"@, 5, table::ordered(a[5]));
    let b2 = state::all_merkled(b1, "token"@, 5, table::ordered(a[5]));
    lemma_all_merkled(a2, b2, "tokenbal"@, 6, table::ordered(a[6]));
    lemma_all_merkled(b2, a2, "tokenbal"@, 6, table::ordered(a[6]));
    let a3 = state::all_merkled(a2, "tokenbal"@, 6, table::ordered(a[6]));
    let b3 = state::all_merkled(b2, "tokenbal"@, 6, table::ordered(a[6]));
    lemma_all_merkled(a3, b3, "contract"@, 7, table::ordered(a[7]));
    lemma_all_merkled(b3, a3, "contract"@, 7, table::ordered(a[7]));
    let a4 = state::all_merkled(a3, "contract"@, 7, table::ordered(a[7]));
    let b4 = state::all_merkled(b3, "contract"@, 7, table::ordered(a[7]));
    lemma_all_merkled(a4, b4, "cstorage"@, 9, table::ordered(a[9]));
    lemma_all_merkled(b4, a4, "cstorage"@, 9, table::ordered(a[9]));
    let a5 = state::all_merkled(a4, "cstorage"@, 9, table::ordered(a[9]));
    assert forall|i: int| 0 <= i < 16 && i != 12 implies #[trigger] five(a)[i] == a[i] by {
        assert(a5[i] == a4[i]);
        assert(a4[i] == a3[i]);
        assert(a3[i] == a2[i]);
        assert(a2[i] == a1[i]);
        assert(a1[i] == a0[i]);
        assert(a0[i] == a[i]);
    }
}

/// Rebuilding the Merkle tree leaves every other table and every name of the meta
/// table but the tree's own.
proof fn lemma_rebuilt_frame(f: FixedV, db: Db, height: nat)
    requires
        db.len() == 16,
    ensures
        state::rebuilt(f, db, height).len() == 16,
        forall|i: int|
            0 <= i < 16 && i != 3 && i != 12 ==> #[trigger] state::rebuilt(f, db, height)[i]
                == db[i],
        forall|name: Seq<char>|
            name != "smt_version"@ ==> #[trigger] state::meta(state::rebuilt(f, db, height), name)
                == state::meta(db, name),
{
    lemma_five(db, db);
    let e = five(db);
    let g = if height >= f.shielded_from {
        state::pool_merkled(e, state::note_root_of(f.notes, e))
    } else {
        e
    };
    assert(g[3] == e[3]);
    assert(e[3] == db[3]);
    assert forall|name: Seq<char>| name != "smt_version"@ implies #[trigger] state::meta(
        state::rebuilt(f, db, height),
        name,
    ) == state::meta(db, name) by {
        supply::lemma_meta_after(g, "smt_version"@, text::utf8("1"@), name);
        assert(state::meta(g, name) == state::meta(db, name));
    }
    assert forall|i: int| 0 <= i < 16 && i != 3 && i != 12 implies #[trigger] state::rebuilt(
        f,
        db,
        height,
    )[i] == db[i] by {
        assert(g[i] == e[i]);
        assert(e[i] == db[i]);
    }
}

/// The rebuilt Merkle tree depends on the tables and the pool's balance alone.
proof fn lemma_rebuilt_alike(f: FixedV, a: Db, b: Db, height: nat)
    requires
        alike(a, b),
    ensures
        state::rebuilt(f, a, height)[12] == state::rebuilt(f, b, height)[12],
{
    lemma_five(a, b);
    lemma_five(b, a);
    let ea = five(a);
    let eb = five(b);
    assert(ea[13] == eb[13] && ea[14] == eb[14] && ea[3] == a[3] && eb[3] == b[3]);
    assert(state::pool_of(ea) == state::pool_of(a));
    assert(state::pool_of(eb) == state::pool_of(b));
    let root = state::note_root_of(f.notes, ea);
    assert(root == state::note_root_of(f.notes, eb));
    if height >= f.shielded_from {
        lemma_pool_merkled(ea, eb, root);
    }
}

proof fn lemma_pool_merkled(a: Db, b: Db, root: Seq<char>)
    requires
        a.len() == 16,
        b.len() == 16,
        a[12] == b[12],
        a[14] == b[14],
        state::pool_of(a) == state::pool_of(b),
    ensures
        state::pool_merkled(a, root)[12] == state::pool_merkled(b, root)[12],
{
    let a1 = state::merkled(a, "shielded"@, text::utf8("root"@), Some(text::utf8(root)));
    let b1 = state::merkled(b, "shielded"@, text::utf8("root"@), Some(text::utf8(root)));
    assert(a1[12] == b1[12] && a1[3] == a[3] && b1[3] == b[3]);
    assert(state::pool_of(a1) == state::pool_of(a));
    assert(state::pool_of(b1) == state::pool_of(b));
    let v = Some(text::utf8(text::dec(state::pool_of(a1))));
    let a2 = state::merkled(a1, "shielded"@, text::utf8("pool"@), v);
    let b2 = state::merkled(b1, "shielded"@, text::utf8("pool"@), v);
    assert(a2[12] == b2[12] && a2[14] == a[14] && b2[14] == b[14]);
    assert(state::nulls_digest_of(a2) == state::nulls_digest_of(b2));
}

/// Writing keys in hexadecimal and reading them back gives the rows.
proof fn lemma_unhexed(s: Seq<(Seq<u8>, CellV)>)
    ensures
        unhexed(hexed(s)) == Some(s),
    decreases s.len(),
{
    if s.len() > 0 {
        lemma_unhexed(s.drop_last());
        assert(hexed(s).drop_last() =~= hexed(s.drop_last()));
        crypto::lemma_unhex_hex(s.last().0);
        assert(s.drop_last().push(s.last()) =~= s);
    } else {
        assert(s =~= Seq::<(Seq<u8>, CellV)>::empty());
    }
}

/// Number of the table at a place of the list.
spec fn nth_table(i: int) -> int {
    if i == 0 {
        0
    } else if i < 7 {
        i + 3
    } else if i == 7 {
        11
    } else {
        i + 5
    }
}

proof fn lemma_numbers(i: int)
    requires
        0 <= i < 11,
    ensures
        state::table_number(state::snapshot_names()[i]) == Some(nth_table(i)),
{
    reveal_strlit("accounts");
    reveal_strlit("stakers");
    reveal_strlit("tokens");
    reveal_strlit("token_balances");
    reveal_strlit("contracts");
    reveal_strlit("contract_code");
    reveal_strlit("contract_storage");
    reveal_strlit("slashes");
    reveal_strlit("receipts");
    reveal_strlit("shielded_leaves");
    reveal_strlit("shielded_nulls");
    reveal_strlit("shielded_roots");
    assert("accounts"@.len() == 8);
    assert("stakers"@.len() == 7);
    assert("tokens"@.len() == 6);
    assert("token_balances"@.len() == 14);
    assert("contracts"@.len() == 9);
    assert("contract_code"@.len() == 13);
    assert("contract_storage"@.len() == 16);
    assert("slashes"@.len() == 7);
    assert("receipts"@.len() == 8);
    assert("shielded_leaves"@.len() == 15);
    assert("shielded_nulls"@.len() == 14);
    assert("shielded_roots"@.len() == 14);
    assert("accounts"@[0] != "receipts"@[0]);
    assert("stakers"@[1] != "slashes"@[1]);
    assert("token_balances"@[0] != "shielded_nulls"@[0]);
    assert("token_balances"@[0] != "shielded_roots"@[0]);
    assert("shielded_nulls"@[9] != "shielded_roots"@[9]);
}

/// The tables of the list are well formed.
pub open spec fn tables_ok(db: Db) -> bool {
    forall|t: int| 0 <= t < 16 ==> table::tabular(#[trigger] db[t])
}

/// A database with the first tables of the list taken from another.
spec fn overlaid(at: Db, db: Db, k: int) -> Db
    decreases k,
{
    if k <= 0 {
        at
    } else {
        overlaid(at, db, k - 1).update(nth_table(k - 1), db[nth_table(k - 1)])
    }
}

proof fn lemma_laid(at: Db, db: Db, k: int)
    requires
        at.len() == 16,
        db.len() == 16,
        tables_ok(db),
        0 <= k <= 11,
    ensures
        laid(at, tables_of(db).take(k)) == Ok::<Db, Seq<char>>(overlaid(at, db, k)),
        overlaid(at, db, k).len() == 16,
    decreases k,
{
    let ts = tables_of(db).take(k);
    if k > 0 {
        lemma_laid(at, db, k - 1);
        lemma_numbers(k - 1);
        assert(ts.drop_last() =~= tables_of(db).take(k - 1));
        let name = state::snapshot_names()[k - 1];
        assert(ts.last() == table_of(db, name));
        let t = nth_table(k - 1);
        lemma_unhexed(table::ordered(db[t]));
        table::lemma_tabular(db[t]);
    }
}

proof fn lemma_overlaid(at: Db, db: Db)
    requires
        at.len() == 16,
        db.len() == 16,
    ensures
        ({
            let d = overlaid(at, db, 11);
            &&& d.len() == 16
            &&& d[0] == db[0]
            &&& d[4] == db[4]
            &&& d[5] == db[5]
            &&& d[6] == db[6]
            &&& d[7] == db[7]
            &&& d[8] == db[8]
            &&& d[9] == db[9]
            &&& d[11] == db[11]
            &&& d[13] == db[13]
            &&& d[14] == db[14]
            &&& d[15] == db[15]
        }),
{
    reveal_with_fuel(overlaid, 12);
}

proof fn lemma_named_names()
    ensures
        "base_fee"@ != "shielded_pool"@,
        "base_fee"@ != "shielded_sealed"@,
        "base_fee"@ != "shielded_vk"@,
        "shielded_pool"@ != "shielded_sealed"@,
        "shielded_pool"@ != "shielded_vk"@,
        "shielded_sealed"@ != "shielded_vk"@,
        "base_fee"@ != "smt_version"@,
        "shielded_pool"@ != "smt_version"@,
        "shielded_sealed"@ != "smt_version"@,
        "shielded_vk"@ != "smt_version"@,
{
    reveal_strlit("base_fee");
    reveal_strlit("shielded_pool");
    reveal_strlit("shielded_sealed");
    reveal_strlit("shielded_vk");
    reveal_strlit("smt_version");
    assert("base_fee"@.len() == 8);
    assert("shielded_pool"@.len() == 13);
    assert("shielded_sealed"@.len() == 15);
    assert("shielded_vk"@.len() == 11);
    assert("smt_version"@.len() == 11);
    assert("shielded_vk"@[1] != "smt_version"@[1]);
}

/// What a snapshot says of fees and the pool is read back.
proof fn lemma_named(db: Db, s: SnapshotV, chain_id: u64)
    requires
        db.len() == 16,
        snapshot_fault(s, chain_id) is None,
        state::meta(db, "shielded_vk"@) is None,
    ensures
        ({
            let d = with_named(db, s);
            &&& d.len() == 16
            &&& forall|i: int| 0 <= i < 16 && i != 3 ==> #[trigger] d[i] == db[i]
            &&& Some(state::base_fee_of(d)) == text::parsed_upto(s.base_fee, u128::MAX as nat)
            &&& Some(state::pool_of(d)) == pool_named(s)
            &&& sealed_count(d) == s.shielded_sealed
            &&& Some(state::verifying_key_of(d)) == key_named(s)
        }),
{
    lemma_named_names();
    let fee = text::parsed_upto(s.base_fee, u128::MAX as nat)->Some_0;
    let pool = pool_named(s)->Some_0;
    let v1 = text::utf8(text::dec(fee));
    let v2 = text::utf8(text::dec(pool));
    let v3 = text::utf8(text::dec(s.shielded_sealed as nat));
    let a = state::with_meta(db, "base_fee"@, v1);
    let b = state::with_meta(a, "shielded_pool"@, v2);
    let c = state::with_meta(b, "shielded_sealed"@, v3);
    let d = with_named(db, s);
    supply::lemma_meta_after(db, "base_fee"@, v1, "base_fee"@);
    supply::lemma_meta_after(db, "base_fee"@, v1, "shielded_vk"@);
    supply::lemma_meta_after(a, "shielded_pool"@, v2, "base_fee"@);
    supply::lemma_meta_after(a, "shielded_pool"@, v2, "shielded_pool"@);
    supply::lemma_meta_after(a, "shielded_pool"@, v2, "shielded_vk"@);
    supply::lemma_meta_after(b, "shielded_sealed"@, v3, "base_fee"@);
    supply::lemma_meta_after(b, "shielded_sealed"@, v3, "shielded_pool"@);
    supply::lemma_meta_after(b, "shielded_sealed"@, v3, "shielded_sealed"@);
    supply::lemma_meta_after(b, "shielded_sealed"@, v3, "shielded_vk"@);
    text::lemma_utf8_round_trip(text::dec(fee));
    text::lemma_lossy_round_trip(text::dec(fee));
    text::lemma_utf8_round_trip(text::dec(pool));
    text::lemma_utf8_round_trip(text::dec(s.shielded_sealed as nat));
    text::lemma_parsed_dec(fee);
    text::lemma_parsed_dec(pool);
    text::lemma_parsed_dec(s.shielded_sealed as nat);
    match key_named(s)->Some_0 {
        Some(k) => {
            let v4 = text::utf8(crypto::hex_text(k));
            supply::lemma_meta_after(c, "shielded_vk"@, v4, "base_fee"@);
            supply::lemma_meta_after(c, "shielded_vk"@, v4, "shielded_pool"@);
            supply::lemma_meta_after(c, "shielded_vk"@, v4, "shielded_sealed"@);
            supply::lemma_meta_after(c, "shielded_vk"@, v4, "shielded_vk"@);
            text::lemma_utf8_round_trip(crypto::hex_text(k));
            crypto::lemma_unhex_hex(k);
        },
        None => {},
    }
}

/// What a snapshot of a database carries.
pub open spec fn carries(a: Db, b: Db) -> bool {
    &&& a.len() == 16
    &&& b.len() == 16
    &&& a[0] == b[0]
    &&& a[4] == b[4]
    &&& a[5] == b[5]
    &&& a[6] == b[6]
    &&& a[7] == b[7]
    &&& a[8] == b[8]
    &&& a[9] == b[9]
    &&& a[11] == b[11]
    &&& a[13] == b[13]
    &&& a[14] == b[14]
    &&& a[15] == b[15]
    &&& state::base_fee_of(a) == state::base_fee_of(b)
    &&& state::pool_of(a) == state::pool_of(b)
    &&& sealed_count(a) == sealed_count(b)
    &&& state::verifying_key_of(a) == state::verifying_key_of(b)
}

/// A snapshot of a node's state installs on any other store of the same chain and
/// carries the state over: every account, stake, token, contract, penalty and note,
/// the base fee and the pool. The block of the snapshot becomes the finalized tip and
/// its state the integrity baseline.
///
/// The block stored at the height of the snapshot is the one its hash was taken of,
/// an installed verifying key is not empty, and from the height at which blocks carry
/// Merkle roots the node's tree holds what its tables hold, as every chain keeps it.
pub proof fn law_snapshot_round_trip(f: FixedV, db: Db, other: Db, chain_id: u64)
    requires
        db.len() == 16,
        other.len() == 16,
        tables_ok(db),
        exported(f, db, chain_id) is Ok,
        state::block_of(db, export_height(db))->Some_0.height == export_height(db),
        state::block_of(db, export_height(db))->Some_0.hash_text() == state::block_of(
            db,
            export_height(db),
        )->Some_0.hash,
        state::verifying_key_of(db) != Some(Seq::<u8>::empty()),
        export_height(db) >= state::STATE_ROOT_V2_ACTIVATION_HEIGHT ==> {
            let pool = mirror::pool_at(f, export_height(db));
            mirror::mirrored(pool, db) && mirror::apart(mirror::in_use(pool, db))
        },
    ensures
        ({
            let s = exported(f, db, chain_id)->Ok_0;
            let (r, after) = installed(f, other, s, chain_id);
            &&& r == Ok::<u64, Seq<char>>(s.height)
            &&& s.height == export_height(db)
            &&& carries(after, db)
            &&& state::tip_height_of(after) == Some(export_height(db))
            &&& state::block_of(after, export_height(db)) == state::block_of(db, export_height(db))
            &&& state::finalized_of(after) >= export_height(db)
            &&& state::checkpoint_of(after) == Some(
                (export_height(db), state::state_root_of(f.notes, db)),
            )
        }),
{
    let s = exported(f, db, chain_id)->Ok_0;
    let h = export_height(db);
    lemma_export_sane(f, db, chain_id);
    let w = state::wiped(other);
    lemma_wiped_bare(other);
    assert(state::meta(w, "shielded_vk"@) is None) by {
        lemma_named_names();
        lemma_wiped_key(other);
    }
    assert(laid(w, s.tables) == Ok::<Db, Seq<char>>(overlaid(w, db, 11))) by {
        lemma_laid(w, db, 11);
        assert(tables_of(db).take(11) =~= s.tables);
    }
    let d = overlaid(w, db, 11);
    let g = built(f, d, s);
    if h >= state::STATE_ROOT_V2_ACTIVATION_HEIGHT {
        let pool = mirror::pool_at(f, h);
        assert(table::tabular(db[0]) && table::tabular(db[5]) && table::tabular(db[6])
            && table::tabular(db[7]) && table::tabular(db[9]));
        mirror::law_rebuilt_is_mirrored(f, db, h);
        mirror::law_same_state_same_root(pool, db, pool, state::rebuilt(f, db, h));
    }
    lemma_built(f, w, db, s, chain_id);
    lemma_installed(f, g, s);
}

/// The chain wiped has no verifying key.
proof fn lemma_wiped_key(db: Db)
    requires
        db.len() == 16,
    ensures
        state::meta(state::wiped(db), "shielded_vk"@) is None,
{
    assert(!state::wiped(db)[3].contains_key(text::utf8("shielded_vk"@)));
}

/// The state a snapshot builds is the state it was taken of.
proof fn lemma_built(f: FixedV, w: Db, db: Db, s: SnapshotV, chain_id: u64)
    requires
        w.len() == 16,
        db.len() == 16,
        state::meta(w, "shielded_vk"@) is None,
        snapshot_fault(s, chain_id) is None,
        text::parsed_upto(s.base_fee, u128::MAX as nat) == Some(state::base_fee_of(db)),
        pool_named(s) == Some(state::pool_of(db)),
        s.shielded_sealed == sealed_count(db),
        key_named(s) == Some(state::verifying_key_of(db)),
        s.height >= state::STATE_ROOT_V2_ACTIVATION_HEIGHT ==> state::merkle_root_of(db)
            == state::merkle_root_of(state::rebuilt(f, db, s.height as nat)),
    ensures
        ({
            let g = built(f, overlaid(w, db, 11), s);
            &&& carries(g, db)
            &&& state::root_at(f.notes, g, s.height as nat) == state::root_at(
                f.notes,
                db,
                s.height as nat,
            )
            &&& state::state_root_of(f.notes, g) == state::state_root_of(f.notes, db)
        }),
{
    let h = s.height as nat;
    let d = overlaid(w, db, 11);
    lemma_overlaid(w, db);
    lemma_overlaid_meta(w, db, 11);
    lemma_named(d, s, chain_id);
    lemma_named_names();
    let n = with_named(d, s);
    let g = built(f, d, s);
    lemma_rebuilt_frame(f, n, h);
    assert(n[0] == db[0] && n[5] == db[5] && n[6] == db[6] && n[7] == db[7] && n[9] == db[9]
        && n[13] == db[13] && n[14] == db[14]);
    assert(alike(n, db));
    lemma_rebuilt_alike(f, n, db, h);
    assert(state::meta(g, "base_fee"@) == state::meta(n, "base_fee"@));
    assert(state::meta(g, "shielded_pool"@) == state::meta(n, "shielded_pool"@));
    assert(state::meta(g, "shielded_sealed"@) == state::meta(n, "shielded_sealed"@));
    assert(state::meta(g, "shielded_vk"@) == state::meta(n, "shielded_vk"@));
    assert(g[0] == n[0] && g[4] == n[4] && g[5] == n[5] && g[6] == n[6] && g[7] == n[7] && g[8]
        == n[8] && g[9] == n[9] && g[11] == n[11] && g[13] == n[13] && g[14] == n[14] && g[15]
        == n[15]);
    assert(alike(g, db));
    lemma_same_digest(f, g, db);
}

/// The meta table is not among the tables of the list.
proof fn lemma_overlaid_meta(at: Db, db: Db, k: int)
    requires
        at.len() == 16,
        0 <= k <= 11,
    ensures
        overlaid(at, db, k).len() == 16,
        overlaid(at, db, k)[3] == at[3],
    decreases k,
{
    if k > 0 {
        lemma_overlaid_meta(at, db, k - 1);
    }
}

/// A snapshot a node takes passes the first look.
proof fn lemma_export_sane(f: FixedV, db: Db, chain_id: u64)
    requires
        exported(f, db, chain_id) is Ok,
        state::block_of(db, export_height(db))->Some_0.height == export_height(db),
        state::block_of(db, export_height(db))->Some_0.hash_text() == state::block_of(
            db,
            export_height(db),
        )->Some_0.hash,
        state::verifying_key_of(db) != Some(Seq::<u8>::empty()),
    ensures
        ({
            let s = exported(f, db, chain_id)->Ok_0;
            &&& snapshot_fault(s, chain_id) is None
            &&& s.height == export_height(db)
            &&& text::parsed_upto(s.base_fee, u128::MAX as nat) == Some(state::base_fee_of(db))
            &&& pool_named(s) == Some(state::pool_of(db))
            &&& s.shielded_sealed == sealed_count(db)
            &&& key_named(s) == Some(state::verifying_key_of(db))
            &&& expected_root(s) == state::root_at(f.notes, db, export_height(db))
        }),
{
    let s = exported(f, db, chain_id)->Ok_0;
    text::lemma_parsed_dec(state::base_fee_of(db));
    text::lemma_parsed_dec(state::pool_of(db));
    text::lemma_dec_digits(state::pool_of(db));
    reveal_strlit("");
    match state::verifying_key_of(db) {
        Some(k) => {
            crypto::lemma_unhex_hex(k);
            assert(k.len() > 0) by {
                if k.len() == 0 {
                    assert(k =~= Seq::<u8>::empty());
                }
            }
            assert(s.shielded_vk.len() == 2 * k.len());
        },
        None => {},
    }
    crypto::lemma_hash_text_len(state::state_text(f.notes, db));
    smt::lemma_node_len(db[12], Seq::<bool>::empty());
    assert(s.at_rest_root.len() > 0);
}

/// Databases alike have the same full-state digest.
proof fn lemma_same_digest(f: FixedV, a: Db, b: Db)
    requires
        alike(a, b),
    ensures
        state::state_root_of(f.notes, a) == state::state_root_of(f.notes, b),
{
    assert(state::nulls_digest_of(a) == state::nulls_digest_of(b));
    assert(state::note_root_of(f.notes, a) == state::note_root_of(f.notes, b));
}

/// Adopting a verified snapshot keeps the state and moves the tip, the finalized
/// height and the checkpoint to it.
proof fn lemma_installed(f: FixedV, g: Db, s: SnapshotV)
    requires
        g.len() == 16,
        s.block.height == s.height,
    ensures
        ({
            let after = baselined(f, g, s);
            &&& carries(after, g)
            &&& state::tip_height_of(after) == Some(s.height as nat)
            &&& state::block_of(after, s.height as nat) == Some(s.block)
            &&& state::finalized_of(after) >= s.height
            &&& state::checkpoint_of(after) == Some(
                (s.height as nat, state::state_root_of(f.notes, g)),
            )
        }),
{
    let h = s.height as nat;
    let a0 = state::with_block(g, s.block);
    let a = state::with_finalized(a0, h);
    let root = state::state_root_of(f.notes, a);
    let b = state::with_checkpoint(a, h, root);
    let after = baselined(f, g, s);
    supply::lemma_block_stored(g, s.block);
    lemma_adoption_names();
    text::lemma_pow256_values();
    text::lemma_be(h, 8);
    let t = text::utf8(state::joined(text::dec(h), root));
    assert forall|name: Seq<char>| kept_name(name) implies #[trigger] state::meta(after, name)
        == state::meta(g, name) by {
        lemma_block_meta(g, s.block, name);
        supply::lemma_meta_after(a0, "finalized_height"@, text::be(h, 8), name);
        supply::lemma_meta_after(a, "state_checkpoint"@, t, name);
        supply::lemma_meta_after(b, "pruned_below"@, text::be(h, 8), name);
    }
    assert(kept_name("base_fee"@));
    assert(kept_name("shielded_pool"@));
    assert(kept_name("shielded_sealed"@));
    assert(kept_name("shielded_vk"@));
    assert(state::meta(after, "base_fee"@) == state::meta(g, "base_fee"@));
    assert(state::meta(after, "shielded_pool"@) == state::meta(g, "shielded_pool"@));
    assert(state::meta(after, "shielded_sealed"@) == state::meta(g, "shielded_sealed"@));
    assert(state::meta(after, "shielded_vk"@) == state::meta(g, "shielded_vk"@));
    supply::lemma_meta_after(a0, "finalized_height"@, text::be(h, 8), "finalized_height"@);
    supply::lemma_meta_after(a0, "finalized_height"@, text::be(h, 8), "tip_height"@);
    supply::lemma_meta_after(a, "state_checkpoint"@, t, "finalized_height"@);
    supply::lemma_meta_after(a, "state_checkpoint"@, t, "tip_height"@);
    supply::lemma_meta_after(b, "pruned_below"@, text::be(h, 8), "finalized_height"@);
    supply::lemma_meta_after(b, "pruned_below"@, text::be(h, 8), "tip_height"@);
    supply::lemma_meta_after(b, "pruned_below"@, text::be(h, 8), "state_checkpoint"@);
    supply::lemma_checkpoint_recorded(a, s.height, root);
    supply::lemma_meta_after(a0, "finalized_height"@, text::be(h, 8), "shielded_pool"@);
    assert(state::meta(a, "shielded_pool"@) == state::meta(g, "shielded_pool"@)) by {
        lemma_block_meta(g, s.block, "shielded_pool"@);
    }
    assert(a[0] == g[0] && a[5] == g[5] && a[6] == g[6] && a[7] == g[7] && a[9] == g[9] && a[13]
        == g[13] && a[14] == g[14]);
    assert(alike(a, g));
    lemma_same_digest(f, a, g);
    assert(after[1] == a0[1]);
    assert forall|i: int| 0 <= i < 16 && i != 1 && i != 2 && i != 3 implies #[trigger] after[i]
        == g[i] by {
        assert(b[i] == a[i]);
        assert(a[i] == a0[i]);
        assert(a0[i] == g[i]);
    }
}

/// A name of the meta table that adopting a snapshot does not write.
spec fn kept_name(name: Seq<char>) -> bool {
    &&& name != "tip_height"@
    &&& name != "tip_hash"@
    &&& name != "finalized_height"@
    &&& name != "state_checkpoint"@
    &&& name != "pruned_below"@
}

proof fn lemma_adoption_names()
    ensures
        kept_name("base_fee"@),
        kept_name("shielded_pool"@),
        kept_name("shielded_sealed"@),
        kept_name("shielded_vk"@),
        "finalized_height"@ != "tip_height"@,
        "finalized_height"@ != "state_checkpoint"@,
        "finalized_height"@ != "pruned_below"@,
        "tip_height"@ != "state_checkpoint"@,
        "tip_height"@ != "pruned_below"@,
        "state_checkpoint"@ != "pruned_below"@,
{
    reveal_strlit("base_fee");
    reveal_strlit("shielded_pool");
    reveal_strlit("shielded_sealed");
    reveal_strlit("shielded_vk");
    reveal_strlit("tip_height");
    reveal_strlit("tip_hash");
    reveal_strlit("finalized_height");
    reveal_strlit("state_checkpoint");
    reveal_strlit("pruned_below");
    assert("base_fee"@.len() == 8);
    assert("shielded_pool"@.len() == 13);
    assert("shielded_sealed"@.len() == 15);
    assert("shielded_vk"@.len() == 11);
    assert("tip_height"@.len() == 10);
    assert("tip_hash"@.len() == 8);
    assert("finalized_height"@.len() == 16);
    assert("state_checkpoint"@.len() == 16);
    assert("pruned_below"@.len() == 12);
    assert("base_fee"@[0] != "tip_hash"@[0]);
    assert("finalized_height"@[0] != "state_checkpoint"@[0]);
}

/// Storing a block writes the tip's names alone.
proof fn lemma_block_meta(db: Db, b: BlockV, name: Seq<char>)
    requires
        db.len() == 16,
        name != "tip_height"@,
        name != "tip_hash"@,
    ensures
        state::meta(state::with_block(db, b), name) == state::meta(db, name),
{
    let h = text::be(b.height as nat, 8);
    let d0 = ledger::put(db, 1, h, CellV::Block(b));
    supply::lemma_indexed_frame(d0, b.transactions, b.height as nat);
    let d1 = state::with_indexed(d0, b.transactions, b.height as nat);
    assert(d1[3] == d0[3]);
    supply::lemma_meta_after(d1, "tip_height"@, h, name);
    let d2 = state::with_meta(d1, "tip_height"@, h);
    supply::lemma_meta_after(d2, "tip_hash"@, text::utf8(b.hash), name);
    assert(state::meta(d1, name) == state::meta(db, name));
}

// ---------------------------------------------------------------- steady states

/// Entries whose keys are texts.
pub open spec fn under_texts(s: Seq<(Seq<char>, CellV)>) -> bool {
    forall|i: int|
        0 <= i < s.len() ==> (crypto::unhex((#[trigger] s[i]).0) matches Some(k) ==> valid_utf8(k))
}

/// A snapshot whose stakers are listed under texts, as every node lists them.
pub open spec fn named_stakers(ts: Seq<TableV>) -> bool {
    forall|i: int| 0 <= i < ts.len() && (#[trigger] ts[i]).name == "stakers"@ ==> under_texts(
        ts[i].entries,
    )
}

proof fn lemma_unhexed_texts(s: Seq<(Seq<char>, CellV)>)
    requires
        unhexed(s) is Some,
        under_texts(s),
    ensures
        forall|i: int|
            0 <= i < unhexed(s)->Some_0.len() ==> valid_utf8((#[trigger] unhexed(s)->Some_0[i]).0),
    decreases s.len(),
{
    if s.len() > 0 {
        let d = s.drop_last();
        assert(under_texts(d)) by {
            assert forall|i: int| 0 <= i < d.len() implies (crypto::unhex((#[trigger] d[i]).0)
                matches Some(k) ==> valid_utf8(k)) by {
                assert(d[i] == s[i]);
            }
        }
        lemma_unhexed_texts(d);
        assert(s[s.len() - 1] == s.last());
    }
}

/// Rows make up a map that can be walked.
proof fn lemma_rows_tabular(s: Seq<(Seq<u8>, CellV)>)
    ensures
        table::tabular(table::map_of(s)),
    decreases s.len(),
{
    if s.len() == 0 {
        conserve::lemma_empty_tabular();
    } else {
        let m = table::map_of(s.drop_last());
        lemma_rows_tabular(s.drop_last());
        if m.contains_key(s.last().0) {
            let i = table::lemma_walk_put(m, s.last().0, s.last().1);
        } else {
            let i = table::lemma_walk_put_fresh(m, s.last().0, s.last().1);
        }
    }
}

proof fn lemma_laid_steady(db: Db, ts: Seq<TableV>)
    requires
        conserve::steady(db),
        named_stakers(ts),
        laid(db, ts) is Ok,
    ensures
        conserve::steady(laid(db, ts)->Ok_0),
    decreases ts.len(),
{
    if ts.len() > 0 {
        let us = ts.drop_last();
        let t = ts.last();
        assert(ts[ts.len() - 1] == t);
        assert(named_stakers(us)) by {
            assert forall|i: int|
                0 <= i < us.len() && (#[trigger] us[i]).name == "stakers"@ implies under_texts(
                us[i].entries,
            ) by {
                assert(us[i] == ts[i]);
            }
        }
        lemma_laid_steady(db, us);
        let d = laid(db, us)->Ok_0;
        let rows = unhexed(t.entries)->Some_0;
        let e = laid(db, ts)->Ok_0;
        lemma_rows_tabular(rows);
        if state::table_number(t.name) == Some(4int) {
            lemma_unhexed_texts(t.entries);
            assert(e[4] == table::map_of(rows));
            assert forall|k: Seq<u8>| #[trigger] e[4].contains_key(k) implies valid_utf8(k) by {
                table::lemma_map_of_dom(rows, k);
                let i = choose|i: int| 0 <= i < rows.len() && (#[trigger] rows[i]).0 == k;
                assert(valid_utf8(rows[i].0));
            }
        } else {
            assert(e[4] == d[4]);
        }
    }
}

/// A chain that goes on from a snapshot starts steady.
pub proof fn law_installed_snapshot_is_steady(f: FixedV, db: Db, s: SnapshotV, chain_id: u64)
    requires
        db.len() == 16,
        named_stakers(s.tables),
        installed(f, db, s, chain_id).0 is Ok,
    ensures
        conserve::steady(installed(f, db, s, chain_id).1),
{
    lemma_wiped_bare(db);
    let w = state::wiped(db);
    conserve::lemma_bare_is_steady(w);
    lemma_laid_steady(w, s.tables);
    let d = laid(w, s.tables)->Ok_0;
    let n = with_named(d, s);
    assert(n.len() == 16 && n[0] == d[0] && n[4] == d[4]);
    lemma_rebuilt_frame(f, n, s.height as nat);
    let g = built(f, d, s);
    assert(g[0] == d[0] && g[4] == d[4]);
    supply::lemma_block_stored(g, s.block);
    let b = state::with_block(g, s.block);
    let a = state::with_finalized(b, s.height as nat);
    assert(a[0] == d[0] && a[4] == d[4]);
}

proof fn lemma_laid_walkable(db: Db, ts: Seq<TableV>)
    requires
        mirror::walkable(db),
        laid(db, ts) is Ok,
    ensures
        mirror::walkable(laid(db, ts)->Ok_0),
    decreases ts.len(),
{
    if ts.len() > 0 {
        lemma_laid_walkable(db, ts.drop_last());
        lemma_rows_tabular(unhexed(ts.last().entries)->Some_0);
    }
}

/// A chain that goes on from a snapshot starts with tree and tables alike.
pub proof fn law_installed_snapshot_is_mirrored(f: FixedV, db: Db, s: SnapshotV, chain_id: u64)
    requires
        db.len() == 16,
        installed(f, db, s, chain_id).0 is Ok,
        mirror::apart(
            mirror::in_use(
                mirror::pool_at(f, s.height as nat),
                installed(f, db, s, chain_id).1,
            ),
        ),
    ensures
        mirror::mirrored(
            mirror::pool_at(f, s.height as nat),
            installed(f, db, s, chain_id).1,
        ),
{
    let pool = mirror::pool_at(f, s.height as nat);
    let h = s.height as nat;
    lemma_wiped_bare(db);
    conserve::lemma_empty_tabular();
    let w = state::wiped(db);
    lemma_laid_walkable(w, s.tables);
    let d = laid(w, s.tables)->Ok_0;
    let n = with_named(d, s);
    assert(n.len() == 16 && n[0] == d[0] && n[5] == d[5] && n[6] == d[6] && n[7] == d[7] && n[9]
        == d[9]);
    let g = built(f, d, s);
    let after = installed(f, db, s, chain_id).1;
    lemma_rebuilt_frame(f, n, h);
    lemma_baselined_same(f, g, s);
    assert(after == baselined(f, g, s));
    mirror::lemma_aside(pool, g, after);
    lemma_rebuilt_leaves(pool, f, n, h);
    mirror::law_rebuilt_is_mirrored(f, n, h);
}

/// Rebuilding the tree changes no leaf.
proof fn lemma_rebuilt_leaves(pool: Option<ParamsV>, f: FixedV, db: Db, height: nat)
    requires
        db.len() == 16,
    ensures
        mirror::leaves_of(pool, state::rebuilt(f, db, height)) == mirror::leaves_of(pool, db),
{
    let r = state::rebuilt(f, db, height);
    lemma_rebuilt_frame(f, db, height);
    assert("shielded_pool"@ != "smt_version"@) by {
        reveal_strlit("shielded_pool");
        reveal_strlit("smt_version");
        assert("shielded_pool"@.len() == 13);
        assert("smt_version"@.len() == 11);
    }
    assert(state::meta(r, "shielded_pool"@) == state::meta(db, "shielded_pool"@));
    assert(r[0] == db[0] && r[5] == db[5] && r[6] == db[6] && r[7] == db[7] && r[9] == db[9]
        && r[13] == db[13] && r[14] == db[14]);
    mirror::lemma_same_leaves(pool, db, r);
}

/// Adopting a verified snapshot leaves its state.
proof fn lemma_baselined_same(f: FixedV, g: Db, s: SnapshotV)
    requires
        g.len() == 16,
    ensures
        ({
            let after = baselined(f, g, s);
            &&& after.len() == 16
            &&& state::meta(after, "shielded_pool"@) == state::meta(g, "shielded_pool"@)
            &&& forall|i: int|
                0 <= i < 16 && i != 1 && i != 2 && i != 3 ==> #[trigger] after[i] == g[i]
        }),
{
    let h = s.height as nat;
    let a0 = state::with_block(g, s.block);
    let a = state::with_finalized(a0, h);
    let root = state::state_root_of(f.notes, a);
    let b = state::with_checkpoint(a, h, root);
    let after = baselined(f, g, s);
    let t = text::utf8(state::joined(text::dec(h), root));
    supply::lemma_block_stored(g, s.block);
    lemma_adoption_names();
    lemma_block_meta(g, s.block, "shielded_pool"@);
    supply::lemma_meta_after(a0, "finalized_height"@, text::be(h, 8), "shielded_pool"@);
    supply::lemma_meta_after(a, "state_checkpoint"@, t, "shielded_pool"@);
    supply::lemma_meta_after(b, "pruned_below"@, text::be(h, 8), "shielded_pool"@);
    assert forall|i: int| 0 <= i < 16 && i != 1 && i != 2 && i != 3 implies #[trigger] after[i]
        == g[i] by {
        assert(b[i] == a[i]);
        assert(a[i] == a0[i]);
        assert(a0[i] == g[i]);
    }
}

} // verus!
