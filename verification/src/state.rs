//! The state store: accounts, stakers, tokens, contracts, blocks, indexes and the
//! shielded pool, with the Merkle tree that commits to consensus state.
//!
//! The store is modelled by its database. Every write is journaled, so a rejected
//! block or a failed transaction leaves the database exactly as it was.

use crate::contracts::Contract;
use crate::contracts::ContractV;
use crate::contracts::Receipt;
use crate::contracts::ReceiptV;
use crate::crypto;
use crate::journal;
use crate::journal::Cell;
use crate::journal::CellV;
use crate::journal::Db;
use crate::journal::Rows;
use crate::journal::Tree;
use crate::ledger;
use crate::ledger::Ledger;
use crate::ledger::LedgerV;
use crate::poseidon;
use crate::poseidon::Fr;
use crate::poseidon::ParamsV;
use crate::rank;
use crate::rank::Ranked;
use crate::shielded;
use crate::shielded::NoteTree;
use crate::slashing::SlashRecord;
use crate::slashing::SlashV;
use crate::smt;
use crate::table;
use crate::text;
use crate::tokens::Token;
use crate::tokens::TokenV;
use crate::types;
use crate::types::Account;
use crate::types::AccountV;
use crate::types::Block;
use crate::types::BlockV;
use crate::types::ChainParams;
use crate::types::TxV;
use vstd::prelude::*;
use vstd::string::*;
use vstd::utf8::*;

verus! {

/// Height at which the sparse Merkle root becomes the consensus state root.
pub const STATE_ROOT_V2_ACTIVATION_HEIGHT: u64 = 200_000;

/// Table numbers.
pub const T_ACCOUNTS: usize = 0;

pub const T_BLOCKS: usize = 1;

pub const T_TXS: usize = 2;

pub const T_META: usize = 3;

/// Addresses that currently have stake or locked unbonding amounts.
pub const T_STAKERS: usize = 4;

pub const T_TOKENS: usize = 5;

/// Token ledger: `<token id>:<address>`.
pub const T_TOKEN_BALANCES: usize = 6;

pub const T_CONTRACTS: usize = 7;

/// Contract bytecode by code hash.
pub const T_CONTRACT_CODE: usize = 8;

/// Contract storage: `<address>:<key>`.
pub const T_CONTRACT_STORAGE: usize = 9;

pub const T_RECEIPTS: usize = 10;

pub const T_SLASHES: usize = 11;

pub const T_SMT: usize = 12;

/// Note commitments in append order, by big-endian position.
pub const T_SHIELDED_LEAVES: usize = 13;

/// Spent nullifiers and the height each was burned at.
pub const T_SHIELDED_NULLS: usize = 14;

/// Sealed tree roots a spend may anchor to.
pub const T_SHIELDED_ROOTS: usize = 15;

pub const TABLE_COUNT: usize = 16;

// ---------------------------------------------------------------- rows of the model

/// The bytes at a key of a table, when bytes are stored there.
pub open spec fn bytes_at(db: Db, t: int, k: Seq<u8>) -> Option<Seq<u8>> {
    if db[t].contains_key(k) {
        match db[t][k] {
            CellV::Bytes(b) => Some(b),
            _ => None,
        }
    } else {
        None
    }
}

/// Bytes of the meta table under a name.
pub open spec fn meta(db: Db, name: Seq<char>) -> Option<Seq<u8>> {
    bytes_at(db, 3, text::utf8(name))
}

/// The database with bytes of the meta table replaced.
pub open spec fn with_meta(db: Db, name: Seq<char>, v: Seq<u8>) -> Db {
    ledger::put(db, 3, text::utf8(name), CellV::Bytes(v))
}

/// The database with a name of the meta table removed.
pub open spec fn without_meta(db: Db, name: Seq<char>) -> Db {
    ledger::del(db, 3, text::utf8(name))
}

/// The height stored under a name of the meta table.
pub open spec fn meta_height(db: Db, name: Seq<char>) -> Option<nat> {
    match meta(db, name) {
        Some(b) => text::height_of(b),
        None => None,
    }
}

/// The number written in decimal under a name of the meta table.
pub open spec fn meta_number(db: Db, name: Seq<char>, max: nat) -> Option<nat> {
    match meta(db, name) {
        Some(b) => if valid_utf8(b) {
            text::parsed_upto(decode_utf8(b), max)
        } else {
            None
        },
        None => None,
    }
}

/// The database with one leaf of the Merkle tree written or cleared.
pub open spec fn merkled(db: Db, domain: Seq<char>, key: Seq<u8>, value: Option<Seq<u8>>) -> Db {
    db.update(12, smt::smt_set(db[12], domain, key, value))
}

/// The account of an address.
pub open spec fn account_of(db: Db, address: Seq<char>) -> AccountV {
    let k = text::utf8(address);
    if db[0].contains_key(k) {
        match db[0][k] {
            CellV::Account(a) => a,
            _ => types::blank_account(),
        }
    } else {
        types::blank_account()
    }
}

/// Leaf value an account contributes to the Merkle tree: what transactions move;
/// penalties stay out because block history determines them.
pub open spec fn account_leaf_of(a: AccountV) -> Seq<char> {
    text::dec(a.balance as nat) + "|"@ + text::dec(a.nonce as nat) + "|"@ + text::dec(
        a.staked as nat,
    ) + "|"@ + text::dec(types::cap128(a.locked()) as nat) + "|"@ + text::dec(a.rewards as nat)
}

/// The database with an account replaced.
pub open spec fn with_account(db: Db, address: Seq<char>, a: AccountV) -> Db {
    let k = text::utf8(address);
    let d = merkled(
        ledger::put(db, 0, k, CellV::Account(a)),
        "acct"@,
        k,
        Some(text::utf8(account_leaf_of(a))),
    );
    if a.staked > 0 || a.unbonding.len() > 0 {
        ledger::put(d, 4, k, CellV::Bytes(text::utf8("1"@)))
    } else {
        ledger::del(d, 4, k)
    }
}

/// The token with an id.
pub open spec fn token_of(db: Db, id: Seq<char>) -> Option<TokenV> {
    let k = text::utf8(id);
    if db[5].contains_key(k) {
        match db[5][k] {
            CellV::Token(t) => Some(t),
            _ => None,
        }
    } else {
        None
    }
}

/// Leaf value a token contributes to the Merkle tree.
pub open spec fn token_leaf_of(t: TokenV) -> Seq<char> {
    t.symbol + "|"@ + text::dec(t.decimals as nat) + "|"@ + text::dec(t.supply as nat) + "|"@
        + t.creator + "|"@ + types::bool_text(t.mintable)
}

/// The database with a token replaced.
pub open spec fn with_token(db: Db, t: TokenV) -> Db {
    merkled(
        ledger::put(db, 5, text::utf8(t.id), CellV::Token(t)),
        "token"@,
        text::utf8(t.id),
        Some(text::utf8(token_leaf_of(t))),
    )
}

/// Two texts joined with a colon.
pub open spec fn joined(a: Seq<char>, b: Seq<char>) -> Seq<char> {
    a + ":"@ + b
}

/// Units of a token an address holds.
pub open spec fn token_balance_of(db: Db, token: Seq<char>, address: Seq<char>) -> nat {
    match bytes_at(db, 6, text::utf8(joined(token, address))) {
        Some(b) => match text::parsed_upto(text::lossy(b), u128::MAX as nat) {
            Some(n) => n,
            None => 0,
        },
        None => 0,
    }
}

/// The database with a token balance replaced; nothing is kept for a zero balance.
pub open spec fn with_token_balance(
    db: Db,
    token: Seq<char>,
    address: Seq<char>,
    amount: nat,
) -> Db {
    let k = text::utf8(joined(token, address));
    if amount == 0 {
        merkled(ledger::del(db, 6, k), "tokenbal"@, k, None)
    } else {
        let v = text::utf8(text::dec(amount));
        merkled(ledger::put(db, 6, k, CellV::Bytes(v)), "tokenbal"@, k, Some(v))
    }
}

/// The contract at an address.
pub open spec fn contract_of(db: Db, address: Seq<char>) -> Option<ContractV> {
    let k = text::utf8(address);
    if db[7].contains_key(k) {
        match db[7][k] {
            CellV::Contract(c) => Some(c),
            _ => None,
        }
    } else {
        None
    }
}

/// Leaf value a contract contributes to the Merkle tree.
pub open spec fn contract_leaf_of(c: ContractV) -> Seq<char> {
    c.code_hash + "|"@ + c.creator + "|"@ + text::dec(c.created_height as nat)
}

/// The database with a contract replaced.
pub open spec fn with_contract(db: Db, c: ContractV) -> Db {
    merkled(
        ledger::put(db, 7, text::utf8(c.address), CellV::Contract(c)),
        "contract"@,
        text::utf8(c.address),
        Some(text::utf8(contract_leaf_of(c))),
    )
}

/// A value of a contract's storage.
pub open spec fn storage_of(db: Db, address: Seq<char>, key: Seq<char>) -> Option<Seq<u8>> {
    bytes_at(db, 9, text::utf8(joined(address, key)))
}

/// The database with a value of a contract's storage written or removed.
pub open spec fn with_storage(
    db: Db,
    address: Seq<char>,
    key: Seq<char>,
    value: Option<Seq<u8>>,
) -> Db {
    let k = text::utf8(joined(address, key));
    match value {
        Some(v) => merkled(ledger::put(db, 9, k, CellV::Bytes(v)), "cstorage"@, k, Some(v)),
        None => merkled(ledger::del(db, 9, k), "cstorage"@, k, None),
    }
}

/// Bytecode by code hash.
pub open spec fn code_of(db: Db, hash: Seq<char>) -> Option<Seq<u8>> {
    bytes_at(db, 8, text::utf8(hash))
}

/// The database with bytecode stored under its hash.
pub open spec fn with_code(db: Db, hash: Seq<char>, code: Seq<u8>) -> Db {
    ledger::put(db, 8, text::utf8(hash), CellV::Bytes(code))
}

/// The receipt of a contract call.
pub open spec fn receipt_of(db: Db, tx_hash: Seq<char>) -> Option<ReceiptV> {
    let k = text::utf8(tx_hash);
    if db[10].contains_key(k) {
        match db[10][k] {
            CellV::Receipt(r) => Some(r),
            _ => None,
        }
    } else {
        None
    }
}

/// The database with a receipt stored.
pub open spec fn with_receipt(db: Db, tx_hash: Seq<char>, r: ReceiptV) -> Db {
    ledger::put(db, 10, text::utf8(tx_hash), CellV::Receipt(r))
}

/// The slash recorded under an evidence id.
pub open spec fn slash_of(db: Db, id: Seq<char>) -> Option<SlashV> {
    let k = text::utf8(id);
    if db[11].contains_key(k) {
        match db[11][k] {
            CellV::Slash(s) => Some(s),
            _ => None,
        }
    } else {
        None
    }
}

/// The database with a slash recorded.
pub open spec fn with_slash(db: Db, s: SlashV) -> Db {
    ledger::put(db, 11, text::utf8(s.id), CellV::Slash(s))
}

/// The block at a height.
pub open spec fn block_of(db: Db, height: nat) -> Option<BlockV> {
    let k = text::be(height, 8);
    if db[1].contains_key(k) {
        match db[1][k] {
            CellV::Block(b) => Some(b),
            _ => None,
        }
    } else {
        None
    }
}

/// The height a transaction was included at.
pub open spec fn tx_height_of(db: Db, hash: Seq<char>) -> Option<nat> {
    match bytes_at(db, 2, text::utf8(hash)) {
        Some(b) => text::height_of(b),
        None => None,
    }
}

/// The database with a list of transactions indexed at a height.
pub open spec fn with_indexed(db: Db, txs: Seq<TxV>, height: nat) -> Db
    decreases txs.len(),
{
    if txs.len() == 0 {
        db
    } else {
        ledger::put(
            with_indexed(db, txs.drop_last(), height),
            2,
            text::utf8(txs.last().hash_text()),
            CellV::Bytes(text::be(height, 8)),
        )
    }
}

/// The database with a block stored, its transactions indexed and the tip moved.
pub open spec fn with_block(db: Db, b: BlockV) -> Db {
    let h = text::be(b.height as nat, 8);
    let d = with_indexed(
        ledger::put(db, 1, h, CellV::Block(b)),
        b.transactions,
        b.height as nat,
    );
    with_meta(with_meta(d, "tip_height"@, h), "tip_hash"@, text::utf8(b.hash))
}

/// Height of the tip, when there is one.
pub open spec fn tip_height_of(db: Db) -> Option<nat> {
    meta_height(db, "tip_height"@)
}

/// Hash of the tip, or an empty text.
pub open spec fn tip_hash_of(db: Db) -> Seq<char> {
    match meta(db, "tip_hash"@) {
        Some(b) => text::lossy(b),
        None => ""@,
    }
}

/// Base fee in force.
pub open spec fn base_fee_of(db: Db) -> nat {
    match meta(db, "base_fee"@) {
        Some(b) => match text::parsed_upto(text::lossy(b), u128::MAX as nat) {
            Some(n) => n,
            None => types::MIN_FEE as nat,
        },
        None => types::MIN_FEE as nat,
    }
}

/// Highest finalized height.
pub open spec fn finalized_of(db: Db) -> nat {
    match meta_height(db, "finalized_height"@) {
        Some(h) => h,
        None => 0,
    }
}

/// Lowest height whose block is still stored.
pub open spec fn pruned_below_of(db: Db) -> nat {
    match meta_height(db, "pruned_below"@) {
        Some(h) => h,
        None => 0,
    }
}

/// Everything about a store that execution does not change.
#[verifier::ext_equal]
pub struct FixedV {
    pub params: ChainParams,
    pub shielded_from: u64,
    pub notes: ParamsV,
}

/// The state store.
pub struct Store {
    ledger: Ledger,
    notes: NoteTree,
    params: ChainParams,
    shielded_from: u64,
}

impl View for Store {
    type V = LedgerV;

    closed spec fn view(&self) -> LedgerV {
        self.ledger@
    }
}

/// One store follows from another by writes alone: it is well formed, its savepoints
/// are the same and so is everything execution does not change.
pub open spec fn follows(before: Store, after: Store) -> bool {
    &&& after.wf()
    &&& after@.saved == before@.saved
    &&& after.fixed() == before.fixed()
}

impl Store {
    /// The tables are well formed and complete.
    pub closed spec fn wf(self) -> bool {
        &&& self.ledger.wf()
        &&& self.ledger@.db.len() == 16
        &&& forall|i: int| 0 <= i < self.ledger@.saved.len() ==> (#[trigger] self.ledger@.saved[i]).len() == 16
        &&& self.notes.wf()
    }

    /// What execution does not change.
    pub closed spec fn fixed(self) -> FixedV {
        FixedV { params: self.params, shielded_from: self.shielded_from, notes: self.notes@ }
    }

    /// The database has every table.
    pub proof fn lemma_tables(&self)
        requires
            self.wf(),
        ensures
            self@.db.len() == 16,
    {
    }

    /// An empty store of a chain.
    pub fn new(params: ChainParams, shielded_from: u64) -> (r: Store)
        ensures
            r.wf(),
            r@.db == Seq::new(16, |i: int| Map::<Seq<u8>, CellV>::empty()),
            r@.saved == Seq::<Db>::empty(),
            r.fixed().params == params,
            r.fixed().shielded_from == shielded_from,
    {
        Store { ledger: Ledger::new(TABLE_COUNT), notes: NoteTree::new(), params, shielded_from }
    }

    /// An empty store of a chain, over note-tree functions that exist already.
    pub fn with_notes(params: ChainParams, shielded_from: u64, notes: NoteTree) -> (r: Store)
        requires
            notes.wf(),
        ensures
            r.wf(),
            r@.db == Seq::new(16, |i: int| Map::<Seq<u8>, CellV>::empty()),
            r@.saved == Seq::<Db>::empty(),
            r.fixed() == (FixedV { params, shielded_from, notes: notes@ }),
    {
        Store { ledger: Ledger::new(TABLE_COUNT), notes, params, shielded_from }
    }

    /// The chain parameters.
    pub fn params(&self) -> (r: ChainParams)
        ensures
            r == self.fixed().params,
    {
        self.params
    }

    // ------------------------------------------------------------ atomic execution

    /// Opens a savepoint for a block.
    pub fn begin_block(&mut self)
        requires
            old(self).wf(),
        ensures
            final(self).wf(),
            final(self)@ == old(self)@.begun(),
            final(self).fixed() == old(self).fixed(),
    {
        self.ledger.begin();
    }

    /// Keeps everything the block wrote.
    pub fn commit_block(&mut self)
        requires
            old(self).wf(),
        ensures
            final(self).wf(),
            final(self)@ == old(self)@.kept(),
            final(self).fixed() == old(self).fixed(),
    {
        self.ledger.commit();
    }

    /// Undoes every write since the block began.
    pub fn abort_block(&mut self)
        requires
            old(self).wf(),
        ensures
            final(self).wf(),
            final(self)@ == old(self)@.undone(),
            final(self).fixed() == old(self).fixed(),
    {
        self.ledger.rollback();
    }

    /// Opens a savepoint around one transaction.
    pub fn begin_tx(&mut self)
        requires
            old(self).wf(),
        ensures
            final(self).wf(),
            final(self)@ == old(self)@.begun(),
            final(self).fixed() == old(self).fixed(),
    {
        self.ledger.begin();
    }

    /// Keeps this transaction's writes; the block may still be rejected.
    pub fn commit_tx(&mut self)
        requires
            old(self).wf(),
        ensures
            final(self).wf(),
            final(self)@ == old(self)@.kept(),
            final(self).fixed() == old(self).fixed(),
    {
        self.ledger.commit();
    }

    /// Undoes just this transaction's writes.
    pub fn abort_tx(&mut self)
        requires
            old(self).wf(),
        ensures
            final(self).wf(),
            final(self)@ == old(self)@.undone(),
            final(self).fixed() == old(self).fixed(),
    {
        self.ledger.rollback();
    }

    // ------------------------------------------------------------ bytes and meta

    /// The bytes at a key of a table.
    fn bytes(&self, t: usize, key: &[u8]) -> (r: Option<&Vec<u8>>)
        requires
            self.wf(),
            t < 16,
        ensures
            match r {
                Some(b) => bytes_at(self@.db, t as int, key@) == Some(b@),
                None => bytes_at(self@.db, t as int, key@) is None,
            },
    {
        match self.ledger.get(t, key) {
            Some(Cell::Bytes(b)) => Some(b),
            _ => None,
        }
    }

    /// Puts a value at a key of a table.
    fn jput(&mut self, t: usize, key: &[u8], c: Cell)
        requires
            old(self).wf(),
            t < 16,
        ensures
            follows(*old(self), *final(self)),
            final(self)@.db == ledger::put(old(self)@.db, t as int, key@, c@),
    {
        self.ledger.put(t, key, c);
    }

    /// Puts bytes at a key of a table.
    fn jput_bytes(&mut self, t: usize, key: &[u8], v: &[u8])
        requires
            old(self).wf(),
            t < 16,
        ensures
            follows(*old(self), *final(self)),
            final(self)@.db == ledger::put(old(self)@.db, t as int, key@, CellV::Bytes(v@)),
    {
        self.ledger.put(t, key, Cell::Bytes(text::copy_bytes(v)));
    }

    /// Removes a key of a table.
    fn jdel(&mut self, t: usize, key: &[u8])
        requires
            old(self).wf(),
            t < 16,
        ensures
            follows(*old(self), *final(self)),
            final(self)@.db == ledger::del(old(self)@.db, t as int, key@),
    {
        self.ledger.del(t, key);
    }

    /// Empties a table.
    fn jclear(&mut self, t: usize)
        requires
            old(self).wf(),
            t < 16,
        ensures
            follows(*old(self), *final(self)),
            final(self)@.db == old(self)@.db.update(t as int, Map::<Seq<u8>, CellV>::empty()),
    {
        self.ledger.clear(t);
    }

    /// Writes or clears one leaf of the Merkle tree.
    fn smt_set(&mut self, domain: &str, key: &[u8], value: Option<&[u8]>)
        requires
            old(self).wf(),
        ensures
            follows(*old(self), *final(self)),
            final(self)@.db == merkled(old(self)@.db, domain@, key@, smt::bytes_view(value)),
    {
        smt::set_leaf(&mut self.ledger, T_SMT, domain, key, value);
    }

    /// Stores bytes under a name of the meta table.
    fn put_meta(&mut self, name: &str, v: &[u8])
        requires
            old(self).wf(),
        ensures
            follows(*old(self), *final(self)),
            final(self)@.db == with_meta(old(self)@.db, name@, v@),
    {
        self.jput_bytes(T_META, name.as_bytes(), v);
    }

    /// Removes a name of the meta table.
    fn del_meta(&mut self, name: &str)
        requires
            old(self).wf(),
        ensures
            follows(*old(self), *final(self)),
            final(self)@.db == without_meta(old(self)@.db, name@),
    {
        self.jdel(T_META, name.as_bytes());
    }

    /// The height stored under a name of the meta table.
    fn get_meta_height(&self, name: &str) -> (r: Option<u64>)
        requires
            self.wf(),
        ensures
            match r {
                Some(h) => meta_height(self@.db, name@) == Some(h as nat),
                None => meta_height(self@.db, name@) is None,
            },
    {
        match self.bytes(T_META, name.as_bytes()) {
            Some(b) => text::read_height(b.as_slice()),
            None => None,
        }
    }

    /// The number written in decimal under a name of the meta table.
    fn get_meta_number(&self, name: &str) -> (r: Option<u128>)
        requires
            self.wf(),
        ensures
            match r {
                Some(n) => meta_number(self@.db, name@, u128::MAX as nat) == Some(n as nat),
                None => meta_number(self@.db, name@, u128::MAX as nat) is None,
            },
    {
        match self.bytes(T_META, name.as_bytes()) {
            Some(b) => match text::from_utf8(b) {
                Some(s) => text::parse_u128(s.as_str()),
                None => None,
            },
            None => None,
        }
    }

    // ------------------------------------------------------------ accounts

    /// The account of an address; a blank one when nothing touched it.
    pub fn account(&self, address: &str) -> (r: Account)
        requires
            self.wf(),
        ensures
            r@ == account_of(self@.db, address@),
    {
        match self.ledger.get(T_ACCOUNTS, address.as_bytes()) {
            Some(Cell::Account(a)) => a.clone(),
            _ => Account::default(),
        }
    }

    /// Replaces an account, its Merkle leaf and its place among the stakers.
    pub fn set_account(&mut self, address: &str, acct: &Account)
        requires
            old(self).wf(),
        ensures
            follows(*old(self), *final(self)),
            final(self)@.db == with_account(old(self)@.db, address@, acct@),
    {
        self.jput(T_ACCOUNTS, address.as_bytes(), Cell::Account(acct.clone()));
        let leaf = Self::account_leaf(acct);
        self.smt_set("acct", address.as_bytes(), Some(leaf.as_slice()));
        if acct.staked > 0 || acct.unbonding.len() > 0 {
            let one = text::bytes_of("1");
            self.jput_bytes(T_STAKERS, address.as_bytes(), one.as_slice());
        } else {
            self.jdel(T_STAKERS, address.as_bytes());
        }
    }

    /// Merkle leaf value of an account.
    fn account_leaf(acct: &Account) -> (r: Vec<u8>)
        ensures
            r@ == text::utf8(account_leaf_of(acct@)),
    {
        let mut s = text::decimal(acct.balance);
        s.append("|");
        text::push_dec(&mut s, acct.nonce as u128);
        s.append("|");
        text::push_dec(&mut s, acct.staked);
        s.append("|");
        text::push_dec(&mut s, acct.unbonding_total());
        s.append("|");
        text::push_dec(&mut s, acct.rewards);
        assert(s@ =~= account_leaf_of(acct@));
        text::bytes_of(s.as_str())
    }

    /// Number of accounts.
    pub fn account_count(&self) -> (r: usize)
        requires
            self.wf(),
        ensures
            r == table::ordered(self@.db[0]).len(),
    {
        let t = self.ledger.tree(T_ACCOUNTS);
        proof {
            journal::lemma_walk(*t);
        }
        t.len()
    }
}


// ---------------------------------------------------------------- walks

/// Slash records among entries, in order.
pub open spec fn slash_cells(s: Seq<(Seq<u8>, CellV)>) -> Seq<SlashV>
    decreases s.len(),
{
    if s.len() == 0 {
        Seq::empty()
    } else {
        match s.last().1 {
            CellV::Slash(x) => slash_cells(s.drop_last()).push(x),
            _ => slash_cells(s.drop_last()),
        }
    }
}

/// Contracts among entries, in order.
pub open spec fn contract_cells(s: Seq<(Seq<u8>, CellV)>) -> Seq<ContractV>
    decreases s.len(),
{
    if s.len() == 0 {
        Seq::empty()
    } else {
        match s.last().1 {
            CellV::Contract(x) => contract_cells(s.drop_last()).push(x),
            _ => contract_cells(s.drop_last()),
        }
    }
}

/// Tokens among entries, in order.
pub open spec fn token_cells(s: Seq<(Seq<u8>, CellV)>) -> Seq<TokenV>
    decreases s.len(),
{
    if s.len() == 0 {
        Seq::empty()
    } else {
        match s.last().1 {
            CellV::Token(x) => token_cells(s.drop_last()).push(x),
            _ => token_cells(s.drop_last()),
        }
    }
}

/// The account an entry holds.
pub open spec fn cell_account(c: CellV) -> AccountV {
    match c {
        CellV::Account(a) => a,
        _ => types::blank_account(),
    }
}

/// Addresses of entries with their accounts, in order.
pub open spec fn staker_cells(db: Db, s: Seq<(Seq<u8>, CellV)>) -> Seq<(Seq<char>, AccountV)> {
    s.map_values(
        |e: (Seq<u8>, CellV)| (text::lossy(e.0), account_of(db, text::lossy(e.0))),
    )
}

/// Everything the accounts of entries own.
pub open spec fn worth_of(s: Seq<(Seq<u8>, CellV)>) -> nat
    decreases s.len(),
{
    if s.len() == 0 {
        0
    } else {
        worth_of(s.drop_last()) + cell_account(s.last().1).worth()
    }
}

/// Sum of the stakes of accounts.
pub open spec fn staked_of(s: Seq<(Seq<char>, AccountV)>) -> nat
    decreases s.len(),
{
    if s.len() == 0 {
        0
    } else {
        staked_of(s.drop_last()) + s.last().1.staked as nat
    }
}

impl Ranked for SlashRecord {
    open spec fn ahead(a: SlashV, b: SlashV) -> bool {
        a.applied_height > b.applied_height
    }

    fn is_ahead(&self, other: &Self) -> (r: bool) {
        self.applied_height > other.applied_height
    }
}

impl Ranked for Contract {
    open spec fn ahead(a: ContractV, b: ContractV) -> bool {
        a.created_height > b.created_height
    }

    fn is_ahead(&self, other: &Self) -> (r: bool) {
        self.created_height > other.created_height
    }
}

impl Ranked for Token {
    open spec fn ahead(a: TokenV, b: TokenV) -> bool {
        text::lex_lt(text::utf8(a.id), text::utf8(b.id))
    }

    fn is_ahead(&self, other: &Self) -> (r: bool) {
        text::before(self.id.as_str(), other.id.as_str())
    }
}

impl Ranked for (String, Account) {
    open spec fn ahead(a: (Seq<char>, AccountV), b: (Seq<char>, AccountV)) -> bool {
        text::lex_lt(text::utf8(a.0), text::utf8(b.0))
    }

    fn is_ahead(&self, other: &Self) -> (r: bool) {
        text::before(self.0.as_str(), other.0.as_str())
    }
}

impl Ranked for (String, u128) {
    open spec fn ahead(a: (Seq<char>, u128), b: (Seq<char>, u128)) -> bool {
        a.1 > b.1 || a.1 == b.1 && text::lex_lt(text::utf8(a.0), text::utf8(b.0))
    }

    fn is_ahead(&self, other: &Self) -> (r: bool) {
        self.1 > other.1 || (self.1 == other.1 && text::before(self.0.as_str(), other.0.as_str()))
    }
}

/// Every account with stake or a pending unbond, in address order.
pub open spec fn stakers_of(db: Db) -> Seq<(Seq<char>, AccountV)> {
    rank::ranked::<(String, Account)>(staker_cells(db, table::ordered(db[4])))
}

/// Everything all accounts own.
pub open spec fn supply_of(db: Db) -> nat {
    worth_of(table::ordered(db[0]))
}

impl Store {
    /// Every slash ever applied, most recent first.
    pub fn slashes(&self) -> (r: Vec<SlashRecord>)
        requires
            self.wf(),
        ensures
            rank::views(r@) == rank::ranked::<SlashRecord>(
                slash_cells(table::ordered(self@.db[11])),
            ),
    {
        let t = self.ledger.tree(T_SLASHES);
        proof {
            journal::lemma_walk(*t);
        }
        let ghost m = journal::modelled(t.entries());
        let mut out: Vec<SlashRecord> = Vec::new();
        let mut i: usize = 0;
        assert(rank::views(out@) =~= rank::ranked::<SlashRecord>(slash_cells(m.take(0))));
        while i < t.len()
            invariant
                i <= t.entries().len(),
                t.wf(),
                m == journal::modelled(t.entries()),
                rank::views(out@) == rank::ranked::<SlashRecord>(slash_cells(m.take(i as int))),
            decreases t.entries().len() - i,
        {
            proof {
                assert(m.take(i + 1).drop_last() =~= m.take(i as int));
                assert(m.take(i + 1).last() == m[i as int]);
            }
            match t.val_at(i) {
                Cell::Slash(x) => {
                    proof {
                        let s = slash_cells(m.take(i as int));
                        assert(s.push(x@).drop_last() =~= s);
                    }
                    rank::place(&mut out, x.clone());
                },
                _ => {},
            }
            i = i + 1;
        }
        assert(m.take(m.len() as int) =~= m);
        out
    }

    /// Every deployed contract, newest first.
    pub fn contracts(&self) -> (r: Vec<Contract>)
        requires
            self.wf(),
        ensures
            rank::views(r@) == rank::ranked::<Contract>(
                contract_cells(table::ordered(self@.db[7])),
            ),
    {
        let t = self.ledger.tree(T_CONTRACTS);
        proof {
            journal::lemma_walk(*t);
        }
        let ghost m = journal::modelled(t.entries());
        let mut out: Vec<Contract> = Vec::new();
        let mut i: usize = 0;
        assert(rank::views(out@) =~= rank::ranked::<Contract>(contract_cells(m.take(0))));
        while i < t.len()
            invariant
                i <= t.entries().len(),
                t.wf(),
                m == journal::modelled(t.entries()),
                rank::views(out@) == rank::ranked::<Contract>(contract_cells(m.take(i as int))),
            decreases t.entries().len() - i,
        {
            proof {
                assert(m.take(i + 1).drop_last() =~= m.take(i as int));
                assert(m.take(i + 1).last() == m[i as int]);
            }
            match t.val_at(i) {
                Cell::Contract(x) => {
                    proof {
                        let s = contract_cells(m.take(i as int));
                        assert(s.push(x@).drop_last() =~= s);
                    }
                    rank::place(&mut out, x.clone());
                },
                _ => {},
            }
            i = i + 1;
        }
        assert(m.take(m.len() as int) =~= m);
        out
    }

    /// Every token, in id order.
    pub fn tokens(&self) -> (r: Vec<Token>)
        requires
            self.wf(),
        ensures
            rank::views(r@) == rank::ranked::<Token>(token_cells(table::ordered(self@.db[5]))),
    {
        let t = self.ledger.tree(T_TOKENS);
        proof {
            journal::lemma_walk(*t);
        }
        let ghost m = journal::modelled(t.entries());
        let mut out: Vec<Token> = Vec::new();
        let mut i: usize = 0;
        assert(rank::views(out@) =~= rank::ranked::<Token>(token_cells(m.take(0))));
        while i < t.len()
            invariant
                i <= t.entries().len(),
                t.wf(),
                m == journal::modelled(t.entries()),
                rank::views(out@) == rank::ranked::<Token>(token_cells(m.take(i as int))),
            decreases t.entries().len() - i,
        {
            proof {
                assert(m.take(i + 1).drop_last() =~= m.take(i as int));
                assert(m.take(i + 1).last() == m[i as int]);
            }
            match t.val_at(i) {
                Cell::Token(x) => {
                    proof {
                        let s = token_cells(m.take(i as int));
                        assert(s.push(x@).drop_last() =~= s);
                    }
                    rank::place(&mut out, x.clone());
                },
                _ => {},
            }
            i = i + 1;
        }
        assert(m.take(m.len() as int) =~= m);
        out
    }

    /// Every account with stake or a pending unbond, in address order.
    pub fn stake_accounts(&self) -> (r: Vec<(String, Account)>)
        requires
            self.wf(),
        ensures
            rank::views(r@) == stakers_of(self@.db),
    {
        let t = self.ledger.tree(T_STAKERS);
        proof {
            journal::lemma_walk(*t);
        }
        let ghost m = journal::modelled(t.entries());
        let ghost db = self@.db;
        let mut out: Vec<(String, Account)> = Vec::new();
        let mut i: usize = 0;
        assert(rank::views(out@) =~= rank::ranked::<(String, Account)>(
            staker_cells(db, m.take(0)),
        ));
        while i < t.len()
            invariant
                i <= t.entries().len(),
                t.wf(),
                self.wf(),
                db == self@.db,
                m == journal::modelled(t.entries()),
                rank::views(out@) == rank::ranked::<(String, Account)>(
                    staker_cells(db, m.take(i as int)),
                ),
            decreases t.entries().len() - i,
        {
            let address = text::std_from_utf8_lossy(t.key_at(i).as_slice());
            let acct = self.account(address.as_str());
            proof {
                let s = staker_cells(db, m.take(i + 1));
                assert(s.drop_last() =~= staker_cells(db, m.take(i as int)));
                assert(m[i as int].0 == t.entries()[i as int].0);
                assert(s.last() == (address@, acct@));
            }
            rank::place(&mut out, (address, acct));
            i = i + 1;
        }
        assert(m.take(m.len() as int) =~= m);
        out
    }

    /// Everything all accounts own, capped at the largest amount.
    pub fn total_supply(&self) -> (r: u128)
        requires
            self.wf(),
        ensures
            r == types::cap128(supply_of(self@.db)),
    {
        let t = self.ledger.tree(T_ACCOUNTS);
        proof {
            journal::lemma_walk(*t);
        }
        let ghost m = journal::modelled(t.entries());
        let mut total: u128 = 0;
        let mut i: usize = 0;
        while i < t.len()
            invariant
                i <= t.entries().len(),
                t.wf(),
                m == journal::modelled(t.entries()),
                total == types::cap128(worth_of(m.take(i as int))),
            decreases t.entries().len() - i,
        {
            proof {
                assert(m.take(i + 1).drop_last() =~= m.take(i as int));
                assert(m.take(i + 1).last() == m[i as int]);
                assert(m[i as int].1 == t.entries()[i as int].1@);
            }
            match t.val_at(i) {
                Cell::Account(a) => {
                    total = total.saturating_add(a.balance).saturating_add(
                        a.staked,
                    ).saturating_add(a.unbonding_total());
                },
                _ => {},
            }
            i = i + 1;
        }
        assert(m.take(m.len() as int) =~= m);
        total
    }

    /// Sum of all stakes, capped at the largest amount.
    pub fn total_staked(&self) -> (r: u128)
        requires
            self.wf(),
        ensures
            r == types::cap128(staked_of(stakers_of(self@.db))),
    {
        let all = self.stake_accounts();
        let ghost v = rank::views(all@);
        let mut total: u128 = 0;
        let mut i: usize = 0;
        while i < all.len()
            invariant
                i <= all@.len(),
                v == rank::views(all@),
                total == types::cap128(staked_of(v.take(i as int))),
            decreases all@.len() - i,
        {
            proof {
                assert(v.take(i + 1).drop_last() =~= v.take(i as int));
                assert(v.take(i + 1).last() == all@[i as int]@);
            }
            total = total.saturating_add(all[i].1.staked);
            i = i + 1;
        }
        assert(v.take(v.len() as int) =~= v);
        total
    }
}


// ---------------------------------------------------------------- tokens

/// Outcome of crediting units of a token: what went wrong, if anything, and the
/// database afterwards.
pub open spec fn credited(
    db: Db,
    token: Seq<char>,
    address: Seq<char>,
    amount: nat,
) -> (Result<(), Seq<char>>, Db) {
    let before = token_balance_of(db, token, address);
    if before + amount > u128::MAX {
        (Err("token balance overflow"@), db)
    } else {
        match token_of(db, token) {
            Some(t) => if t.supply + amount > u128::MAX {
                (Err("token supply overflow"@), db)
            } else {
                let u = TokenV {
                    supply: (t.supply + amount) as u128,
                    holders: if before == 0 && amount > 0 && t.holders < u64::MAX {
                        (t.holders + 1) as u64
                    } else {
                        t.holders
                    },
                    ..t
                };
                (Ok(()), with_token_balance(with_token(db, u), token, address, before + amount))
            },
            None => (Ok(()), with_token_balance(db, token, address, before + amount)),
        }
    }
}

/// Outcome of removing units of a token.
pub open spec fn debited(
    db: Db,
    token: Seq<char>,
    address: Seq<char>,
    amount: nat,
) -> (Result<(), Seq<char>>, Db) {
    let before = token_balance_of(db, token, address);
    if before < amount {
        (Err("insufficient token balance"@), db)
    } else {
        let after = (before - amount) as nat;
        let d = with_token_balance(db, token, address, after);
        match token_of(d, token) {
            Some(t) => {
                let u = TokenV {
                    supply: if t.supply >= amount {
                        (t.supply - amount) as u128
                    } else {
                        0
                    },
                    holders: if after == 0 && t.holders > 0 {
                        (t.holders - 1) as u64
                    } else {
                        t.holders
                    },
                    ..t
                };
                (Ok(()), with_token(d, u))
            },
            None => (Ok(()), d),
        }
    }
}

/// A result agrees with its model.
pub open spec fn agrees(r: Result<(), String>, v: Result<(), Seq<char>>) -> bool {
    match r {
        Ok(_) => v is Ok,
        Err(e) => v == Err::<(), Seq<char>>(e@),
    }
}

/// The text between the first and the second colon.
pub open spec fn second_part(s: Seq<char>) -> Option<Seq<char>> {
    match text::split_once_spec(s, ':') {
        None => None,
        Some((_, rest)) => match text::split_once_spec(rest, ':') {
            None => Some(rest),
            Some((part, _)) => Some(part),
        },
    }
}

/// A key starts with a prefix.
pub open spec fn starts_with(k: Seq<u8>, p: Seq<u8>) -> bool {
    k.len() >= p.len() && k.take(p.len() as int) == p
}

/// The holder an entry of the token ledger stands for.
pub open spec fn holder_cell(e: (Seq<u8>, CellV), prefix: Seq<u8>) -> Option<(Seq<char>, u128)> {
    if !starts_with(e.0, prefix) {
        None
    } else {
        match (second_part(text::lossy(e.0)), e.1) {
            (Some(address), CellV::Bytes(b)) => match text::parsed_upto(
                text::lossy(b),
                u128::MAX as nat,
            ) {
                Some(n) => Some((address, n as u128)),
                None => None,
            },
            _ => None,
        }
    }
}

/// Holders among entries of the token ledger whose key starts with a prefix.
pub open spec fn holder_cells(
    s: Seq<(Seq<u8>, CellV)>,
    prefix: Seq<u8>,
) -> Seq<(Seq<char>, u128)>
    decreases s.len(),
{
    if s.len() == 0 {
        Seq::empty()
    } else {
        match holder_cell(s.last(), prefix) {
            Some(h) => holder_cells(s.drop_last(), prefix).push(h),
            None => holder_cells(s.drop_last(), prefix),
        }
    }
}

/// The first elements of a list.
pub open spec fn at_most<T>(s: Seq<T>, limit: nat) -> Seq<T> {
    if s.len() <= limit {
        s
    } else {
        s.take(limit as int)
    }
}

/// Balances an address holds among tokens.
pub open spec fn holdings_of(db: Db, tokens: Seq<TokenV>, address: Seq<char>) -> Seq<
    (TokenV, u128),
>
    decreases tokens.len(),
{
    if tokens.len() == 0 {
        Seq::empty()
    } else {
        let rest = holdings_of(db, tokens.drop_last(), address);
        let n = token_balance_of(db, tokens.last().id, address);
        if n > 0 {
            rest.push((tokens.last(), n as u128))
        } else {
            rest
        }
    }
}

/// Two texts joined with a colon.
fn join(a: &str, b: &str) -> (r: String)
    ensures
        r@ == joined(a@, b@),
{
    let mut s = text::copy(a);
    s.append(":");
    s.append(b);
    assert(s@ =~= joined(a@, b@));
    s
}

/// Whether a key starts with a prefix.
fn has_prefix(k: &[u8], p: &[u8]) -> (r: bool)
    ensures
        r == starts_with(k@, p@),
{
    if k.len() < p.len() {
        return false;
    }
    let head = vstd::slice::slice_subrange(k, 0, p.len());
    assert(head@ =~= k@.take(p@.len() as int));
    text::same_bytes(head, p)
}

/// The text between the first and the second colon.
fn second(s: &str) -> (r: Option<String>)
    ensures
        match r {
            Some(t) => second_part(s@) == Some(t@),
            None => second_part(s@) is None,
        },
{
    match text::split_once(s, ':') {
        None => None,
        Some((_, rest)) => match text::split_once(rest.as_str(), ':') {
            None => Some(rest),
            Some((part, _)) => Some(part),
        },
    }
}

impl Store {
    /// The token with an id.
    pub fn token(&self, id: &str) -> (r: Option<Token>)
        requires
            self.wf(),
        ensures
            match r {
                Some(t) => token_of(self@.db, id@) == Some(t@),
                None => token_of(self@.db, id@) is None,
            },
    {
        match self.ledger.get(T_TOKENS, id.as_bytes()) {
            Some(Cell::Token(t)) => Some(t.clone()),
            _ => None,
        }
    }

    /// Merkle leaf value of a token.
    fn token_leaf(t: &Token) -> (r: Vec<u8>)
        ensures
            r@ == text::utf8(token_leaf_of(t@)),
    {
        let mut s = text::copy(t.symbol.as_str());
        s.append("|");
        text::push_dec(&mut s, t.decimals as u128);
        s.append("|");
        text::push_dec(&mut s, t.supply);
        s.append("|");
        s.append(t.creator.as_str());
        s.append("|");
        if t.mintable {
            s.append("true");
        } else {
            s.append("false");
        }
        assert(s@ =~= token_leaf_of(t@));
        text::bytes_of(s.as_str())
    }

    /// Replaces a token and its Merkle leaf.
    pub fn set_token(&mut self, token: &Token)
        requires
            old(self).wf(),
        ensures
            follows(*old(self), *final(self)),
            final(self)@.db == with_token(old(self)@.db, token@),
    {
        self.jput(T_TOKENS, token.id.as_str().as_bytes(), Cell::Token(token.clone()));
        let leaf = Self::token_leaf(token);
        self.smt_set("token", token.id.as_str().as_bytes(), Some(leaf.as_slice()));
    }

    /// Number of tokens.
    pub fn token_count(&self) -> (r: usize)
        requires
            self.wf(),
        ensures
            r == table::ordered(self@.db[5]).len(),
    {
        let t = self.ledger.tree(T_TOKENS);
        proof {
            journal::lemma_walk(*t);
        }
        t.len()
    }

    /// Units of a token an address holds.
    pub fn token_balance(&self, token: &str, address: &str) -> (r: u128)
        requires
            self.wf(),
        ensures
            r == token_balance_of(self@.db, token@, address@),
    {
        let key = join(token, address);
        match self.bytes(T_TOKEN_BALANCES, key.as_str().as_bytes()) {
            Some(b) => {
                let s = text::std_from_utf8_lossy(b.as_slice());
                match text::parse_u128(s.as_str()) {
                    Some(n) => n,
                    None => 0,
                }
            },
            None => 0,
        }
    }

    /// Replaces a token balance and its Merkle leaf.
    fn set_token_balance(&mut self, token: &str, address: &str, amount: u128)
        requires
            old(self).wf(),
        ensures
            follows(*old(self), *final(self)),
            final(self)@.db == with_token_balance(
                old(self)@.db,
                token@,
                address@,
                amount as nat,
            ),
    {
        let key = join(token, address);
        if amount == 0 {
            self.jdel(T_TOKEN_BALANCES, key.as_str().as_bytes());
            self.smt_set("tokenbal", key.as_str().as_bytes(), None);
        } else {
            let v = text::decimal(amount);
            self.jput_bytes(T_TOKEN_BALANCES, key.as_str().as_bytes(), v.as_str().as_bytes());
            self.smt_set("tokenbal", key.as_str().as_bytes(), Some(v.as_str().as_bytes()));
        }
    }

    /// Mints units to an address and grows the recorded supply and holder count.
    /// Both additions are checked: a wrapped supply would be free units.
    pub fn credit_token(&mut self, token_id: &str, address: &str, amount: u128) -> (r: Result<
        (),
        String,
    >)
        requires
            old(self).wf(),
        ensures
            follows(*old(self), *final(self)),
            agrees(r, credited(old(self)@.db, token_id@, address@, amount as nat).0),
            final(self)@.db == credited(old(self)@.db, token_id@, address@, amount as nat).1,
    {
        let before = self.token_balance(token_id, address);
        let after = match before.checked_add(amount) {
            Some(n) => n,
            None => {
                return Err(text::copy("token balance overflow"));
            },
        };
        match self.token(token_id) {
            Some(mut t) => {
                let ghost was = t@;
                match t.supply.checked_add(amount) {
                    Some(n) => {
                        t.supply = n;
                    },
                    None => {
                        return Err(text::copy("token supply overflow"));
                    },
                }
                if before == 0 && amount > 0 {
                    t.holders = t.holders.saturating_add(1);
                }
                self.set_token(&t);
            },
            None => {},
        }
        self.set_token_balance(token_id, address, after);
        Ok(())
    }

    /// Removes units from an address, shrinking the supply.
    pub fn debit_token(&mut self, token_id: &str, address: &str, amount: u128) -> (r: Result<
        (),
        String,
    >)
        requires
            old(self).wf(),
        ensures
            follows(*old(self), *final(self)),
            agrees(r, debited(old(self)@.db, token_id@, address@, amount as nat).0),
            final(self)@.db == debited(old(self)@.db, token_id@, address@, amount as nat).1,
    {
        let before = self.token_balance(token_id, address);
        if before < amount {
            return Err(text::copy("insufficient token balance"));
        }
        let after: u128 = before - amount;
        self.set_token_balance(token_id, address, after);
        match self.token(token_id) {
            Some(mut t) => {
                t.supply = t.supply.saturating_sub(amount);
                if after == 0 {
                    t.holders = t.holders.saturating_sub(1);
                }
                self.set_token(&t);
            },
            None => {},
        }
        Ok(())
    }

    /// Every token balance an address holds, in token order.
    pub fn token_holdings(&self, address: &str) -> (r: Vec<(Token, u128)>)
        requires
            self.wf(),
        ensures
            rank::views(r@) == holdings_of(
                self@.db,
                rank::ranked::<Token>(token_cells(table::ordered(self@.db[5]))),
                address@,
            ),
    {
        let all = self.tokens();
        let ghost v = rank::views(all@);
        let ghost db = self@.db;
        let mut out: Vec<(Token, u128)> = Vec::new();
        let mut i: usize = 0;
        assert(rank::views(out@) =~= holdings_of(db, v.take(0), address@));
        while i < all.len()
            invariant
                i <= all@.len(),
                self.wf(),
                db == self@.db,
                v == rank::views(all@),
                rank::views(out@) == holdings_of(db, v.take(i as int), address@),
            decreases all@.len() - i,
        {
            let n = self.token_balance(all[i].id.as_str(), address);
            proof {
                assert(v.take(i + 1).drop_last() =~= v.take(i as int));
                assert(v.take(i + 1).last() == all@[i as int]@);
            }
            if n > 0 {
                let t = all[i].clone();
                let ghost was = rank::views(out@);
                out.push((t, n));
                assert(rank::views(out@) =~= was.push((all@[i as int]@, n)));
            }
            i = i + 1;
        }
        assert(v.take(v.len() as int) =~= v);
        out
    }

    /// Holders of one token, largest first.
    pub fn token_holders(&self, token_id: &str, limit: usize) -> (r: Vec<(String, u128)>)
        requires
            self.wf(),
        ensures
            rank::views(r@) == at_most(
                rank::ranked::<(String, u128)>(
                    holder_cells(
                        table::ordered(self@.db[6]),
                        text::utf8(joined(token_id@, ""@)),
                    ),
                ),
                limit as nat,
            ),
    {
        let prefix = join(token_id, "");
        let t = self.ledger.tree(T_TOKEN_BALANCES);
        proof {
            journal::lemma_walk(*t);
        }
        let ghost m = journal::modelled(t.entries());
        let ghost p = text::utf8(prefix@);
        let mut out: Vec<(String, u128)> = Vec::new();
        let mut i: usize = 0;
        assert(rank::views(out@) =~= rank::ranked::<(String, u128)>(holder_cells(m.take(0), p)));
        while i < t.len()
            invariant
                i <= t.entries().len(),
                t.wf(),
                p == text::utf8(prefix@),
                m == journal::modelled(t.entries()),
                rank::views(out@) == rank::ranked::<(String, u128)>(
                    holder_cells(m.take(i as int), p),
                ),
            decreases t.entries().len() - i,
        {
            proof {
                assert(m.take(i + 1).drop_last() =~= m.take(i as int));
                assert(m.take(i + 1).last() == m[i as int]);
                assert(m[i as int] == (t.entries()[i as int].0, t.entries()[i as int].1@));
            }
            match Self::holder(t.key_at(i), t.val_at(i), prefix.as_str().as_bytes()) {
                Some(h) => {
                    proof {
                        let s = holder_cells(m.take(i as int), p);
                        assert(s.push(h@).drop_last() =~= s);
                    }
                    rank::place(&mut out, h);
                },
                None => {},
            }
            i = i + 1;
        }
        assert(m.take(m.len() as int) =~= m);
        let ghost full = rank::views(out@);
        if out.len() > limit {
            out.truncate(limit);
            assert(rank::views(out@) =~= full.take(limit as int));
        }
        out
    }

    /// The holder an entry of the token ledger stands for.
    fn holder(key: &Vec<u8>, c: &Cell, prefix: &[u8]) -> (r: Option<(String, u128)>)
        ensures
            match r {
                Some(h) => holder_cell((key@, c@), prefix@) == Some(h@),
                None => holder_cell((key@, c@), prefix@) is None,
            },
    {
        if !has_prefix(key.as_slice(), prefix) {
            return None;
        }
        let name = text::std_from_utf8_lossy(key.as_slice());
        match (second(name.as_str()), c) {
            (Some(address), Cell::Bytes(b)) => {
                let n = text::std_from_utf8_lossy(b.as_slice());
                match text::parse_u128(n.as_str()) {
                    Some(v) => Some((address, v)),
                    None => None,
                }
            },
            _ => None,
        }
    }
}


// ---------------------------------------------------------------- contracts and slashes

/// Stored keys of one contract among entries: what follows the first colon.
pub open spec fn storage_cells(s: Seq<(Seq<u8>, CellV)>, prefix: Seq<u8>) -> Seq<
    (Seq<char>, Seq<u8>),
>
    decreases s.len(),
{
    if s.len() == 0 {
        Seq::empty()
    } else {
        let rest = storage_cells(s.drop_last(), prefix);
        let e = s.last();
        if !starts_with(e.0, prefix) {
            rest
        } else {
            match (text::split_once_spec(text::lossy(e.0), ':'), e.1) {
                (Some((_, short)), CellV::Bytes(b)) => rest.push((short, b)),
                _ => rest,
            }
        }
    }
}

/// Models of keys with their values.
pub open spec fn entry_views(v: Seq<(String, Vec<u8>)>) -> Seq<(Seq<char>, Seq<u8>)> {
    v.map_values(|e: (String, Vec<u8>)| (e.0@, e.1@))
}

impl Store {
    /// Records a slash under its evidence id.
    pub fn put_slash(&mut self, record: &SlashRecord)
        requires
            old(self).wf(),
        ensures
            follows(*old(self), *final(self)),
            final(self)@.db == with_slash(old(self)@.db, record@),
    {
        self.jput(T_SLASHES, record.id.as_str().as_bytes(), Cell::Slash(record.clone()));
    }

    /// The slash recorded under an evidence id.
    pub fn slash(&self, id: &str) -> (r: Option<SlashRecord>)
        requires
            self.wf(),
        ensures
            match r {
                Some(s) => slash_of(self@.db, id@) == Some(s@),
                None => slash_of(self@.db, id@) is None,
            },
    {
        match self.ledger.get(T_SLASHES, id.as_bytes()) {
            Some(Cell::Slash(s)) => Some(s.clone()),
            _ => None,
        }
    }

    /// The contract at an address.
    pub fn contract(&self, address: &str) -> (r: Option<Contract>)
        requires
            self.wf(),
        ensures
            match r {
                Some(c) => contract_of(self@.db, address@) == Some(c@),
                None => contract_of(self@.db, address@) is None,
            },
    {
        match self.ledger.get(T_CONTRACTS, address.as_bytes()) {
            Some(Cell::Contract(c)) => Some(c.clone()),
            _ => None,
        }
    }

    /// Merkle leaf value of a contract.
    fn contract_leaf(c: &Contract) -> (r: Vec<u8>)
        ensures
            r@ == text::utf8(contract_leaf_of(c@)),
    {
        let mut s = text::copy(c.code_hash.as_str());
        s.append("|");
        s.append(c.creator.as_str());
        s.append("|");
        text::push_dec(&mut s, c.created_height as u128);
        assert(s@ =~= contract_leaf_of(c@));
        text::bytes_of(s.as_str())
    }

    /// Replaces a contract and its Merkle leaf.
    pub fn set_contract(&mut self, c: &Contract)
        requires
            old(self).wf(),
        ensures
            follows(*old(self), *final(self)),
            final(self)@.db == with_contract(old(self)@.db, c@),
    {
        self.jput(T_CONTRACTS, c.address.as_str().as_bytes(), Cell::Contract(c.clone()));
        let leaf = Self::contract_leaf(c);
        self.smt_set("contract", c.address.as_str().as_bytes(), Some(leaf.as_slice()));
    }

    /// Number of deployed contracts.
    pub fn contract_count(&self) -> (r: usize)
        requires
            self.wf(),
        ensures
            r == table::ordered(self@.db[7]).len(),
    {
        let t = self.ledger.tree(T_CONTRACTS);
        proof {
            journal::lemma_walk(*t);
        }
        t.len()
    }

    /// Stores bytecode under its hash.
    pub fn put_code(&mut self, hash: &str, code: &[u8])
        requires
            old(self).wf(),
        ensures
            follows(*old(self), *final(self)),
            final(self)@.db == with_code(old(self)@.db, hash@, code@),
    {
        self.jput_bytes(T_CONTRACT_CODE, hash.as_bytes(), code);
    }

    /// Bytecode by code hash.
    pub fn code(&self, hash: &str) -> (r: Option<Vec<u8>>)
        requires
            self.wf(),
        ensures
            match r {
                Some(b) => code_of(self@.db, hash@) == Some(b@),
                None => code_of(self@.db, hash@) is None,
            },
    {
        match self.bytes(T_CONTRACT_CODE, hash.as_bytes()) {
            Some(b) => Some(text::copy_bytes(b.as_slice())),
            None => None,
        }
    }

    /// A value of a contract's storage.
    pub fn contract_storage(&self, address: &str, key: &str) -> (r: Option<Vec<u8>>)
        requires
            self.wf(),
        ensures
            match r {
                Some(b) => storage_of(self@.db, address@, key@) == Some(b@),
                None => storage_of(self@.db, address@, key@) is None,
            },
    {
        let k = join(address, key);
        match self.bytes(T_CONTRACT_STORAGE, k.as_str().as_bytes()) {
            Some(b) => Some(text::copy_bytes(b.as_slice())),
            None => None,
        }
    }

    /// Writes or removes a value of a contract's storage.
    pub fn set_contract_storage(&mut self, address: &str, key: &str, value: Option<&[u8]>)
        requires
            old(self).wf(),
        ensures
            follows(*old(self), *final(self)),
            final(self)@.db == with_storage(
                old(self)@.db,
                address@,
                key@,
                smt::bytes_view(value),
            ),
    {
        let k = join(address, key);
        match value {
            Some(v) => {
                self.jput_bytes(T_CONTRACT_STORAGE, k.as_str().as_bytes(), v);
                self.smt_set("cstorage", k.as_str().as_bytes(), Some(v));
            },
            None => {
                self.jdel(T_CONTRACT_STORAGE, k.as_str().as_bytes());
                self.smt_set("cstorage", k.as_str().as_bytes(), None);
            },
        }
    }

    /// Stored keys of one contract with their values, in key order.
    pub fn contract_entries(&self, address: &str, limit: usize) -> (r: Vec<(String, Vec<u8>)>)
        requires
            self.wf(),
        ensures
            entry_views(r@) == at_most(
                storage_cells(table::ordered(self@.db[9]), text::utf8(joined(address@, ""@))),
                limit as nat,
            ),
    {
        let prefix = join(address, "");
        let t = self.ledger.tree(T_CONTRACT_STORAGE);
        proof {
            journal::lemma_walk(*t);
        }
        let ghost m = journal::modelled(t.entries());
        let ghost p = text::utf8(prefix@);
        let mut out: Vec<(String, Vec<u8>)> = Vec::new();
        let mut i: usize = 0;
        assert(entry_views(out@) =~= storage_cells(m.take(0), p));
        while i < t.len()
            invariant
                i <= t.entries().len(),
                t.wf(),
                p == text::utf8(prefix@),
                m == journal::modelled(t.entries()),
                entry_views(out@) == storage_cells(m.take(i as int), p),
            decreases t.entries().len() - i,
        {
            proof {
                assert(m.take(i + 1).drop_last() =~= m.take(i as int));
                assert(m.take(i + 1).last() == m[i as int]);
                assert(m[i as int] == (t.entries()[i as int].0, t.entries()[i as int].1@));
            }
            let key = t.key_at(i);
            if has_prefix(key.as_slice(), prefix.as_str().as_bytes()) {
                let name = text::std_from_utf8_lossy(key.as_slice());
                match (text::split_once(name.as_str(), ':'), t.val_at(i)) {
                    (Some((_, short)), Cell::Bytes(b)) => {
                        let v = text::copy_bytes(b.as_slice());
                        let ghost was = entry_views(out@);
                        let ghost e = (short@, v@);
                        out.push((short, v));
                        assert(entry_views(out@) =~= was.push(e));
                    },
                    _ => {},
                }
            }
            i = i + 1;
        }
        assert(m.take(m.len() as int) =~= m);
        let ghost full = entry_views(out@);
        if out.len() > limit {
            out.truncate(limit);
            assert(entry_views(out@) =~= full.take(limit as int));
        }
        out
    }

    /// Stores the receipt of a contract call.
    pub fn put_receipt(&mut self, tx_hash: &str, r: &Receipt)
        requires
            old(self).wf(),
        ensures
            follows(*old(self), *final(self)),
            final(self)@.db == with_receipt(old(self)@.db, tx_hash@, r@),
    {
        self.jput(T_RECEIPTS, tx_hash.as_bytes(), Cell::Receipt(r.clone()));
    }

    /// The receipt of a contract call.
    pub fn receipt(&self, tx_hash: &str) -> (r: Option<Receipt>)
        requires
            self.wf(),
        ensures
            match r {
                Some(x) => receipt_of(self@.db, tx_hash@) == Some(x@),
                None => receipt_of(self@.db, tx_hash@) is None,
            },
    {
        match self.ledger.get(T_RECEIPTS, tx_hash.as_bytes()) {
            Some(Cell::Receipt(x)) => Some(x.clone()),
            _ => None,
        }
    }
}

// ---------------------------------------------------------------- blocks, tip and finality

/// The database with the finalized height raised; it never falls.
pub open spec fn with_finalized(db: Db, height: nat) -> Db {
    if height <= finalized_of(db) {
        db
    } else {
        with_meta(db, "finalized_height"@, text::be(height, 8))
    }
}

/// The recorded integrity checkpoint: a height and the root of the state at rest.
pub open spec fn checkpoint_of(db: Db) -> Option<(nat, Seq<char>)> {
    match meta(db, "state_checkpoint"@) {
        None => None,
        Some(b) => if !valid_utf8(b) {
            None
        } else {
            match text::split_once_spec(decode_utf8(b), ':') {
                None => None,
                Some((h, root)) => match text::parsed_upto(h, u64::MAX as nat) {
                    None => None,
                    Some(n) => Some((n, root)),
                },
            }
        },
    }
}

/// The database with an integrity checkpoint recorded.
pub open spec fn with_checkpoint(db: Db, height: nat, root: Seq<char>) -> Db {
    with_meta(db, "state_checkpoint"@, text::utf8(joined(text::dec(height), root)))
}

/// A database with a table emptied.
pub open spec fn emptied(db: Db, t: int) -> Db {
    db.update(t, Map::<Seq<u8>, CellV>::empty())
}

/// The database with the chain wiped: everything but bytecode, the finalized height
/// and the other names of the meta table.
pub open spec fn wiped(db: Db) -> Db {
    let a = emptied(emptied(emptied(emptied(emptied(emptied(db, 0), 1), 2), 4), 5), 6);
    let b = emptied(emptied(emptied(emptied(emptied(a, 7), 9), 10), 11), 12);
    let c = emptied(emptied(emptied(b, 13), 14), 15);
    let d = without_meta(
        without_meta(without_meta(c, "shielded_pool"@), "shielded_sealed"@),
        "shielded_vk"@,
    );
    without_meta(without_meta(without_meta(d, "tip_height"@), "tip_hash"@), "state_checkpoint"@)
}

/// The database without the index entries and receipts of transactions.
pub open spec fn without_txs(db: Db, txs: Seq<TxV>) -> Db
    decreases txs.len(),
{
    if txs.len() == 0 {
        db
    } else {
        let k = text::utf8(txs.last().hash_text());
        ledger::del(ledger::del(without_txs(db, txs.drop_last()), 2, k), 10, k)
    }
}

/// The database without what is stored of one height.
pub open spec fn without_height(db: Db, h: nat) -> Db {
    let k = text::be(h, 8);
    match block_of(db, h) {
        Some(b) => ledger::del(without_txs(db, b.transactions), 1, k),
        None => ledger::del(db, 1, k),
    }
}

/// The database without the heights from `from` up to but not `to`, and how many of
/// them were stored.
pub open spec fn pruned_range(db: Db, from: nat, to: nat) -> (Db, nat)
    decreases to,
{
    if to <= from {
        (db, 0)
    } else {
        let (d, n) = pruned_range(db, from, (to - 1) as nat);
        if d[1].contains_key(text::be((to - 1) as nat, 8)) {
            (without_height(d, (to - 1) as nat), n + 1)
        } else {
            (d, n)
        }
    }
}

/// Lowest height pruning looks at: genesis is never pruned.
pub open spec fn prune_from(db: Db) -> nat {
    if pruned_below_of(db) > 1 {
        pruned_below_of(db)
    } else {
        1
    }
}

/// Height below which pruning removes blocks: only finalized history is eligible.
pub open spec fn prune_to(db: Db, below: nat) -> nat {
    if below < finalized_of(db) {
        below
    } else {
        finalized_of(db)
    }
}

/// The database after pruning, and how many blocks were removed.
pub open spec fn pruned(db: Db, below: nat) -> (Db, nat) {
    let to = prune_to(db, below);
    let (d, n) = pruned_range(db, prune_from(db), to);
    if to <= 1 {
        (db, 0)
    } else if n > 0 {
        (with_meta(d, "pruned_below"@, text::be(to, 8)), n)
    } else {
        (db, 0)
    }
}

/// Nothing stored in a range means nothing changes.
proof fn lemma_pruned_nothing(db: Db, from: nat, to: nat)
    requires
        pruned_range(db, from, to).1 == 0,
    ensures
        pruned_range(db, from, to).0 == db,
    decreases to,
{
    if to > from {
        lemma_pruned_nothing(db, from, (to - 1) as nat);
    }
}

impl Store {
    /// Stores a block, indexes its transactions and moves the tip.
    pub fn put_block(&mut self, block: &Block)
        requires
            old(self).wf(),
        ensures
            follows(*old(self), *final(self)),
            final(self)@.db == with_block(old(self)@.db, block@),
    {
        let key = text::be8(block.height);
        self.jput(T_BLOCKS, key.as_slice(), Cell::Block(block.clone()));
        let ghost d = self@.db;
        let ghost txs = types::txs_view(block.transactions@);
        let mut i: usize = 0;
        assert(txs.take(0) =~= Seq::<TxV>::empty());
        while i < block.transactions.len()
            invariant
                i <= block.transactions@.len(),
                follows(*old(self), *self),
                key@ == text::be(block.height as nat, 8),
                txs == types::txs_view(block.transactions@),
                self@.db == with_indexed(d, txs.take(i as int), block.height as nat),
            decreases block.transactions@.len() - i,
        {
            proof {
                assert(txs.take(i + 1).drop_last() =~= txs.take(i as int));
                assert(txs.take(i + 1).last() == block.transactions@[i as int]@);
            }
            let h = block.transactions[i].hash();
            self.jput_bytes(T_TXS, h.as_str().as_bytes(), key.as_slice());
            i = i + 1;
        }
        assert(txs.take(txs.len() as int) =~= txs);
        self.put_meta("tip_height", key.as_slice());
        self.put_meta("tip_hash", block.hash.as_str().as_bytes());
    }

    /// The block at a height.
    pub fn block(&self, height: u64) -> (r: Option<Block>)
        requires
            self.wf(),
        ensures
            match r {
                Some(b) => block_of(self@.db, height as nat) == Some(b@),
                None => block_of(self@.db, height as nat) is None,
            },
    {
        let key = text::be8(height);
        match self.ledger.get(T_BLOCKS, key.as_slice()) {
            Some(Cell::Block(b)) => Some(b.clone()),
            _ => None,
        }
    }

    /// The height a transaction was included at.
    pub fn tx_height(&self, hash: &str) -> (r: Option<u64>)
        requires
            self.wf(),
        ensures
            match r {
                Some(h) => tx_height_of(self@.db, hash@) == Some(h as nat),
                None => tx_height_of(self@.db, hash@) is None,
            },
    {
        match self.bytes(T_TXS, hash.as_bytes()) {
            Some(b) => text::read_height(b.as_slice()),
            None => None,
        }
    }

    /// Number of indexed transactions.
    pub fn tx_count(&self) -> (r: usize)
        requires
            self.wf(),
        ensures
            r == table::ordered(self@.db[2]).len(),
    {
        let t = self.ledger.tree(T_TXS);
        proof {
            journal::lemma_walk(*t);
        }
        t.len()
    }

    /// Height of the tip.
    pub fn tip_height(&self) -> (r: Option<u64>)
        requires
            self.wf(),
        ensures
            match r {
                Some(h) => tip_height_of(self@.db) == Some(h as nat),
                None => tip_height_of(self@.db) is None,
            },
    {
        self.get_meta_height("tip_height")
    }

    /// Hash of the tip, or an empty text.
    pub fn tip_hash(&self) -> (r: String)
        requires
            self.wf(),
        ensures
            r@ == tip_hash_of(self@.db),
    {
        match self.bytes(T_META, "tip_hash".as_bytes()) {
            Some(b) => text::std_from_utf8_lossy(b.as_slice()),
            None => text::copy(""),
        }
    }

    /// Whether a chain has been started.
    pub fn is_initialized(&self) -> (r: bool)
        requires
            self.wf(),
        ensures
            r == (tip_height_of(self@.db) is Some),
    {
        self.tip_height().is_some()
    }

    /// Base fee in force.
    pub fn base_fee(&self) -> (r: u128)
        requires
            self.wf(),
        ensures
            r == base_fee_of(self@.db),
    {
        match self.bytes(T_META, "base_fee".as_bytes()) {
            Some(b) => {
                let s = text::std_from_utf8_lossy(b.as_slice());
                match text::parse_u128(s.as_str()) {
                    Some(n) => n,
                    None => types::MIN_FEE,
                }
            },
            None => types::MIN_FEE,
        }
    }

    /// Records the base fee.
    pub fn set_base_fee(&mut self, fee: u128)
        requires
            old(self).wf(),
        ensures
            follows(*old(self), *final(self)),
            final(self)@.db == with_meta(
                old(self)@.db,
                "base_fee"@,
                text::utf8(text::dec(fee as nat)),
            ),
    {
        let s = text::decimal(fee);
        self.put_meta("base_fee", s.as_str().as_bytes());
    }

    /// Highest height that carries more than two thirds of the stake in precommits.
    pub fn finalized_height(&self) -> (r: u64)
        requires
            self.wf(),
        ensures
            r == finalized_of(self@.db),
    {
        match self.get_meta_height("finalized_height") {
            Some(h) => h,
            None => 0,
        }
    }

    /// Raises the finalized height; a lower one is ignored.
    pub fn set_finalized_height(&mut self, height: u64)
        requires
            old(self).wf(),
        ensures
            follows(*old(self), *final(self)),
            final(self)@.db == with_finalized(old(self)@.db, height as nat),
    {
        if height <= self.finalized_height() {
            return;
        }
        let key = text::be8(height);
        self.put_meta("finalized_height", key.as_slice());
    }

    /// The integrity checkpoint written at the end of the last block.
    pub fn state_checkpoint(&self) -> (r: Option<(u64, String)>)
        requires
            self.wf(),
        ensures
            match r {
                Some(c) => checkpoint_of(self@.db) == Some((c.0 as nat, c.1@)),
                None => checkpoint_of(self@.db) is None,
            },
    {
        match self.bytes(T_META, "state_checkpoint".as_bytes()) {
            None => None,
            Some(b) => match text::from_utf8(b) {
                None => None,
                Some(s) => match text::split_once(s.as_str(), ':') {
                    None => None,
                    Some((h, root)) => match text::parse_u64(h.as_str()) {
                        None => None,
                        Some(n) => Some((n, root)),
                    },
                },
            },
        }
    }

    /// Records an integrity checkpoint of the state at rest.
    pub fn set_state_checkpoint(&mut self, height: u64, root: &str)
        requires
            old(self).wf(),
        ensures
            follows(*old(self), *final(self)),
            final(self)@.db == with_checkpoint(old(self)@.db, height as nat, root@),
    {
        let h = text::decimal(height as u128);
        let s = join(h.as_str(), root);
        self.put_meta("state_checkpoint", s.as_str().as_bytes());
    }

    /// Clears accounts, blocks and indexes so the chain can be replayed from genesis.
    /// The finalized height is kept as a safety floor.
    pub fn reset_chain(&mut self)
        requires
            old(self).wf(),
        ensures
            follows(*old(self), *final(self)),
            final(self)@.db == wiped(old(self)@.db),
    {
        self.jclear(T_ACCOUNTS);
        self.jclear(T_BLOCKS);
        self.jclear(T_TXS);
        self.jclear(T_STAKERS);
        self.jclear(T_TOKENS);
        self.jclear(T_TOKEN_BALANCES);
        self.jclear(T_CONTRACTS);
        self.jclear(T_CONTRACT_STORAGE);
        self.jclear(T_RECEIPTS);
        self.jclear(T_SLASHES);
        self.jclear(T_SMT);
        self.jclear(T_SHIELDED_LEAVES);
        self.jclear(T_SHIELDED_NULLS);
        self.jclear(T_SHIELDED_ROOTS);
        self.del_meta("shielded_pool");
        self.del_meta("shielded_sealed");
        self.del_meta("shielded_vk");
        self.del_meta("tip_height");
        self.del_meta("tip_hash");
        self.del_meta("state_checkpoint");
    }

    // ------------------------------------------------------------ operator surface

    /// Freezes this node: it stops sealing, voting, admitting and importing.
    pub fn set_halt(&mut self, reason: &str)
        requires
            old(self).wf(),
        ensures
            follows(*old(self), *final(self)),
            final(self)@.db == with_meta(old(self)@.db, "halt_reason"@, text::utf8(reason@)),
    {
        self.put_meta("halt_reason", reason.as_bytes());
    }

    /// Lifts a halt.
    pub fn clear_halt(&mut self)
        requires
            old(self).wf(),
        ensures
            follows(*old(self), *final(self)),
            final(self)@.db == without_meta(old(self)@.db, "halt_reason"@),
    {
        self.del_meta("halt_reason");
    }

    /// Why this node is halted, when it is.
    pub fn halt_reason(&self) -> (r: Option<String>)
        requires
            self.wf(),
        ensures
            match r {
                Some(s) => meta(self@.db, "halt_reason"@) matches Some(b) && s@ == text::lossy(b),
                None => meta(self@.db, "halt_reason"@) is None,
            },
    {
        match self.bytes(T_META, "halt_reason".as_bytes()) {
            Some(b) => Some(text::std_from_utf8_lossy(b.as_slice())),
            None => None,
        }
    }

    /// Lowest height whose block is still stored; zero means nothing was pruned.
    pub fn pruned_below(&self) -> (r: u64)
        requires
            self.wf(),
        ensures
            r == pruned_below_of(self@.db),
    {
        match self.get_meta_height("pruned_below") {
            Some(h) => h,
            None => 0,
        }
    }

    /// Records that history below a height is absent.
    pub fn mark_pruned_below(&mut self, height: u64)
        requires
            old(self).wf(),
        ensures
            follows(*old(self), *final(self)),
            final(self)@.db == with_meta(
                old(self)@.db,
                "pruned_below"@,
                text::be(height as nat, 8),
            ),
    {
        let key = text::be8(height);
        self.put_meta("pruned_below", key.as_slice());
    }

    /// Removes what is stored of one height, when something is.
    fn drop_height(&mut self, h: u64) -> (r: bool)
        requires
            old(self).wf(),
        ensures
            follows(*old(self), *final(self)),
            r == old(self)@.db[1].contains_key(text::be(h as nat, 8)),
            final(self)@.db == if r {
                without_height(old(self)@.db, h as nat)
            } else {
                old(self)@.db
            },
    {
        let key = text::be8(h);
        if self.ledger.get(T_BLOCKS, key.as_slice()).is_none() {
            return false;
        }
        match self.block(h) {
            Some(b) => {
                let ghost d = self@.db;
                let ghost txs = types::txs_view(b.transactions@);
                let mut i: usize = 0;
                assert(txs.take(0) =~= Seq::<TxV>::empty());
                while i < b.transactions.len()
                    invariant
                        i <= b.transactions@.len(),
                        follows(*old(self), *self),
                        txs == types::txs_view(b.transactions@),
                        self@.db == without_txs(d, txs.take(i as int)),
                    decreases b.transactions@.len() - i,
                {
                    proof {
                        assert(txs.take(i + 1).drop_last() =~= txs.take(i as int));
                        assert(txs.take(i + 1).last() == b.transactions@[i as int]@);
                    }
                    let hash = b.transactions[i].hash();
                    self.jdel(T_TXS, hash.as_str().as_bytes());
                    self.jdel(T_RECEIPTS, hash.as_str().as_bytes());
                    i = i + 1;
                }
                assert(txs.take(txs.len() as int) =~= txs);
            },
            None => {},
        }
        self.jdel(T_BLOCKS, key.as_slice());
        true
    }

    /// Drops blocks, their index entries and receipts below a height. Only finalized
    /// history is eligible, genesis is kept, and state itself is never touched.
    pub fn prune_blocks(&mut self, below: u64) -> (r: u64)
        requires
            old(self).wf(),
        ensures
            follows(*old(self), *final(self)),
            (final(self)@.db, r as nat) == pruned(old(self)@.db, below as nat),
    {
        let ceiling = self.finalized_height();
        let to: u64 = if below < ceiling {
            below
        } else {
            ceiling
        };
        if to <= 1 {
            return 0;
        }
        let floor = self.pruned_below();
        let from: u64 = if floor > 1 {
            floor
        } else {
            1
        };
        let ghost d = self@.db;
        let mut h: u64 = from;
        let mut removed: u64 = 0;
        while h < to
            invariant
                follows(*old(self), *self),
                h <= to || h == from,
                from <= h,
                removed <= h - from,
                (self@.db, removed as nat) == pruned_range(d, from as nat, h as nat),
            decreases to - h,
        {
            if self.drop_height(h) {
                removed = removed + 1;
            }
            h = h + 1;
        }
        proof {
            if h > to {
                assert(pruned_range(d, from as nat, to as nat) == pruned_range(
                    d,
                    from as nat,
                    h as nat,
                ));
            }
        }
        if removed > 0 {
            let key = text::be8(to);
            self.put_meta("pruned_below", key.as_slice());
        } else {
            proof {
                lemma_pruned_nothing(d, from as nat, to as nat);
            }
        }
        removed
    }
}


// ---------------------------------------------------------------- shielded pool

/// Note commitments among entries, as texts.
pub open spec fn note_texts(s: Seq<(Seq<u8>, CellV)>) -> Seq<Seq<char>>
    decreases s.len(),
{
    if s.len() == 0 {
        Seq::empty()
    } else {
        match s.last().1 {
            CellV::Bytes(b) => if valid_utf8(b) {
                note_texts(s.drop_last()).push(decode_utf8(b))
            } else {
                note_texts(s.drop_last())
            },
            _ => note_texts(s.drop_last()),
        }
    }
}

/// The field elements among texts.
pub open spec fn note_fields(s: Seq<Seq<char>>) -> Seq<nat>
    decreases s.len(),
{
    if s.len() == 0 {
        Seq::empty()
    } else {
        match poseidon::hex_element(s.last()) {
            Some(f) => note_fields(s.drop_last()).push(f),
            None => note_fields(s.drop_last()),
        }
    }
}

/// Root of the note commitment tree, as text.
pub open spec fn note_root_of(p: ParamsV, db: Db) -> Seq<char> {
    poseidon::element_hex(
        shielded::tree_root(p, note_fields(note_texts(table::ordered(db[13])))),
    )
}

/// INAZ held by the pool.
pub open spec fn pool_of(db: Db) -> nat {
    match meta_number(db, "shielded_pool"@, u128::MAX as nat) {
        Some(n) => n,
        None => 0,
    }
}

/// Rows of byte values as one text: key, `=`, value, `|`.
pub open spec fn byte_rows(s: Seq<(Seq<u8>, CellV)>) -> Seq<u8>
    decreases s.len(),
{
    if s.len() == 0 {
        Seq::empty()
    } else {
        match s.last().1 {
            CellV::Bytes(b) => byte_rows(s.drop_last()) + s.last().0 + seq![61u8] + b
                + seq![124u8],
            _ => byte_rows(s.drop_last()),
        }
    }
}

/// Digest of the spent nullifiers.
pub open spec fn nulls_digest_of(db: Db) -> Seq<char> {
    crypto::hash_text(byte_rows(table::ordered(db[14])))
}

/// The database with the pool folded into the Merkle tree.
pub open spec fn pool_merkled(db: Db, root: Seq<char>) -> Db {
    let a = merkled(db, "shielded"@, text::utf8("root"@), Some(text::utf8(root)));
    let b = merkled(
        a,
        "shielded"@,
        text::utf8("pool"@),
        Some(text::utf8(text::dec(pool_of(a)))),
    );
    merkled(b, "shielded"@, text::utf8("nulls"@), Some(text::utf8(nulls_digest_of(b))))
}

/// Appends rows of byte values.
fn push_byte_rows(buf: &mut Vec<u8>, t: &Tree)
    requires
        t.wf(),
    ensures
        final(buf)@ == old(buf)@ + byte_rows(table::ordered(journal::rows(*t))),
{
    proof {
        journal::lemma_walk(*t);
    }
    let ghost m = journal::modelled(t.entries());
    let ghost b0 = buf@;
    let mut i: usize = 0;
    assert(buf@ =~= b0 + byte_rows(m.take(0)));
    while i < t.len()
        invariant
            i <= t.entries().len(),
            t.wf(),
            m == journal::modelled(t.entries()),
            buf@ == b0 + byte_rows(m.take(i as int)),
        decreases t.entries().len() - i,
    {
        proof {
            assert(m.take(i + 1).drop_last() =~= m.take(i as int));
            assert(m.take(i + 1).last() == m[i as int]);
            assert(m[i as int] == (t.entries()[i as int].0, t.entries()[i as int].1@));
        }
        match t.val_at(i) {
            Cell::Bytes(v) => {
                text::push_bytes(buf, t.key_at(i).as_slice());
                buf.push(61);
                text::push_bytes(buf, v.as_slice());
                buf.push(124);
                assert(buf@ =~= b0 + byte_rows(m.take(i + 1)));
            },
            _ => {},
        }
        i = i + 1;
    }
    assert(m.take(m.len() as int) =~= m);
}

impl Store {
    /// Number of note commitments ever appended, the next one's position.
    pub fn shielded_leaf_count(&self) -> (r: u64)
        requires
            self.wf(),
        ensures
            r == table::ordered(self@.db[13]).len(),
    {
        let t = self.ledger.tree(T_SHIELDED_LEAVES);
        proof {
            journal::lemma_walk(*t);
        }
        t.len() as u64
    }

    /// Appends a note commitment and returns its position.
    pub fn shielded_append(&mut self, commitment_hex: &str) -> (r: u64)
        requires
            old(self).wf(),
        ensures
            follows(*old(self), *final(self)),
            r == table::ordered(old(self)@.db[13]).len(),
            final(self)@.db == ledger::put(
                old(self)@.db,
                13,
                text::be(r as nat, 8),
                CellV::Bytes(text::utf8(commitment_hex@)),
            ),
    {
        let pos = self.shielded_leaf_count();
        let key = text::be8(pos);
        self.jput_bytes(T_SHIELDED_LEAVES, key.as_slice(), commitment_hex.as_bytes());
        pos
    }

    /// All commitments in order.
    pub fn shielded_leaves(&self) -> (r: Vec<String>)
        requires
            self.wf(),
        ensures
            types::texts(r@) == note_texts(table::ordered(self@.db[13])),
    {
        let t = self.ledger.tree(T_SHIELDED_LEAVES);
        proof {
            journal::lemma_walk(*t);
        }
        let ghost m = journal::modelled(t.entries());
        let mut out: Vec<String> = Vec::new();
        let mut i: usize = 0;
        assert(types::texts(out@) =~= note_texts(m.take(0)));
        while i < t.len()
            invariant
                i <= t.entries().len(),
                t.wf(),
                m == journal::modelled(t.entries()),
                types::texts(out@) == note_texts(m.take(i as int)),
            decreases t.entries().len() - i,
        {
            proof {
                assert(m.take(i + 1).drop_last() =~= m.take(i as int));
                assert(m.take(i + 1).last() == m[i as int]);
                assert(m[i as int].1 == t.entries()[i as int].1@);
            }
            match t.val_at(i) {
                Cell::Bytes(b) => match text::from_utf8(b) {
                    Some(x) => {
                        let ghost was = types::texts(out@);
                        let ghost xv = x@;
                        out.push(x);
                        assert(types::texts(out@) =~= was.push(xv));
                    },
                    None => {},
                },
                _ => {},
            }
            i = i + 1;
        }
        assert(m.take(m.len() as int) =~= m);
        out
    }

    /// Root of the note commitment tree.
    pub fn shielded_root(&self) -> (r: String)
        requires
            self.wf(),
        ensures
            r@ == note_root_of(self.fixed().notes, self@.db),
    {
        let all = self.shielded_leaves();
        let ghost v = types::texts(all@);
        let mut fields: Vec<Fr> = Vec::new();
        let mut i: usize = 0;
        assert(poseidon::values(fields@) =~= note_fields(v.take(0)));
        while i < all.len()
            invariant
                i <= all@.len(),
                v == types::texts(all@),
                poseidon::values(fields@) == note_fields(v.take(i as int)),
            decreases all@.len() - i,
        {
            proof {
                assert(v.take(i + 1).drop_last() =~= v.take(i as int));
                assert(v.take(i + 1).last() == all@[i as int]@);
            }
            match poseidon::fr_from_hex(all[i].as_str()) {
                Some(f) => {
                    let ghost was = poseidon::values(fields@);
                    fields.push(f);
                    assert(poseidon::values(fields@) =~= was.push(f@));
                },
                None => {},
            }
            i = i + 1;
        }
        assert(v.take(v.len() as int) =~= v);
        let root = shielded::root_from_leaves(&self.notes, &fields);
        poseidon::fr_to_hex(&root)
    }

    /// Whether a nullifier was spent.
    pub fn shielded_nullifier_seen(&self, nullifier_hex: &str) -> (r: bool)
        requires
            self.wf(),
        ensures
            r == self@.db[14].contains_key(text::utf8(nullifier_hex@)),
    {
        self.ledger.get(T_SHIELDED_NULLS, nullifier_hex.as_bytes()).is_some()
    }

    /// Burns a nullifier at a height. False when it was already spent.
    pub fn shielded_burn_nullifier(&mut self, nullifier_hex: &str, height: u64) -> (r: bool)
        requires
            old(self).wf(),
        ensures
            follows(*old(self), *final(self)),
            r == !old(self)@.db[14].contains_key(text::utf8(nullifier_hex@)),
            final(self)@.db == burned(old(self)@.db, nullifier_hex@, height as nat),
    {
        if self.shielded_nullifier_seen(nullifier_hex) {
            return false;
        }
        let v = text::be8(height);
        self.jput_bytes(T_SHIELDED_NULLS, nullifier_hex.as_bytes(), v.as_slice());
        true
    }

    /// Seals a tree root so spends may anchor to it.
    pub fn shielded_seal_root(&mut self, root_hex: &str, height: u64)
        requires
            old(self).wf(),
        ensures
            follows(*old(self), *final(self)),
            final(self)@.db == ledger::put(
                old(self)@.db,
                15,
                text::utf8(root_hex@),
                CellV::Bytes(text::be(height as nat, 8)),
            ),
    {
        let v = text::be8(height);
        self.jput_bytes(T_SHIELDED_ROOTS, root_hex.as_bytes(), v.as_slice());
    }

    /// Whether a tree root was sealed.
    pub fn shielded_root_known(&self, root_hex: &str) -> (r: bool)
        requires
            self.wf(),
        ensures
            r == self@.db[15].contains_key(text::utf8(root_hex@)),
    {
        self.ledger.get(T_SHIELDED_ROOTS, root_hex.as_bytes()).is_some()
    }

    /// INAZ held by the pool.
    pub fn shielded_pool_balance(&self) -> (r: u128)
        requires
            self.wf(),
        ensures
            r == pool_of(self@.db),
    {
        match self.get_meta_number("shielded_pool") {
            Some(n) => n,
            None => 0,
        }
    }

    /// Records the INAZ held by the pool.
    pub fn shielded_set_pool_balance(&mut self, balance: u128)
        requires
            old(self).wf(),
        ensures
            follows(*old(self), *final(self)),
            final(self)@.db == with_meta(
                old(self)@.db,
                "shielded_pool"@,
                text::utf8(text::dec(balance as nat)),
            ),
    {
        let v = text::decimal(balance);
        self.put_meta("shielded_pool", v.as_str().as_bytes());
    }

    /// Verifying key of the spend circuit.
    pub fn shielded_verifying_key(&self) -> (r: Option<Vec<u8>>)
        requires
            self.wf(),
        ensures
            match r {
                Some(k) => verifying_key_of(self@.db) == Some(k@),
                None => verifying_key_of(self@.db) is None,
            },
    {
        match self.bytes(T_META, "shielded_vk".as_bytes()) {
            Some(b) => match text::from_utf8(b) {
                Some(s) => crypto::from_hex(s.as_str()),
                None => None,
            },
            None => None,
        }
    }

    /// Installs the verifying key of the spend circuit.
    pub fn shielded_set_verifying_key(&mut self, vk_bytes: &[u8])
        requires
            old(self).wf(),
        ensures
            follows(*old(self), *final(self)),
            final(self)@.db == with_meta(
                old(self)@.db,
                "shielded_vk"@,
                text::utf8(crypto::hex_text(vk_bytes@)),
            ),
    {
        let v = crypto::to_hex(vk_bytes);
        self.put_meta("shielded_vk", v.as_str().as_bytes());
    }

    /// Leaf count the last sealed root covers.
    pub fn shielded_last_sealed_count(&self) -> (r: u64)
        requires
            self.wf(),
        ensures
            r == (match meta_number(self@.db, "shielded_sealed"@, u64::MAX as nat) {
                Some(n) => n,
                None => 0,
            }),
    {
        match self.get_meta_number("shielded_sealed") {
            Some(n) => if n <= u64::MAX as u128 {
                n as u64
            } else {
                0
            },
            None => 0,
        }
    }

    /// Records the leaf count the last sealed root covers.
    pub fn shielded_set_last_sealed_count(&mut self, count: u64)
        requires
            old(self).wf(),
        ensures
            follows(*old(self), *final(self)),
            final(self)@.db == with_meta(
                old(self)@.db,
                "shielded_sealed"@,
                text::utf8(text::dec(count as nat)),
            ),
    {
        let v = text::decimal(count as u128);
        self.put_meta("shielded_sealed", v.as_str().as_bytes());
    }

    /// Digest of the spent nullifiers, part of the state root.
    pub fn shielded_nulls_digest(&self) -> (r: String)
        requires
            self.wf(),
        ensures
            r@ == nulls_digest_of(self@.db),
    {
        let mut buf: Vec<u8> = Vec::new();
        push_byte_rows(&mut buf, self.ledger.tree(T_SHIELDED_NULLS));
        assert(buf@ =~= byte_rows(table::ordered(self@.db[14])));
        crypto::hash_hex(buf.as_slice())
    }

    /// Folds the tree root, the pool balance and the nullifiers into the Merkle tree.
    pub fn shielded_seal_into_state(&mut self, root_hex: &str)
        requires
            old(self).wf(),
        ensures
            follows(*old(self), *final(self)),
            final(self)@.db == pool_merkled(old(self)@.db, root_hex@),
    {
        self.smt_set("shielded", "root".as_bytes(), Some(root_hex.as_bytes()));
        let pool = text::decimal(self.shielded_pool_balance());
        self.smt_set("shielded", "pool".as_bytes(), Some(pool.as_str().as_bytes()));
        let nulls = self.shielded_nulls_digest();
        self.smt_set("shielded", "nulls".as_bytes(), Some(nulls.as_str().as_bytes()));
    }
}

/// The installed verifying key.
pub open spec fn verifying_key_of(db: Db) -> Option<Seq<u8>> {
    match meta(db, "shielded_vk"@) {
        Some(b) => if valid_utf8(b) {
            crypto::unhex(decode_utf8(b))
        } else {
            None
        },
        None => None,
    }
}

/// The database with a nullifier burned, unless it already was.
pub open spec fn burned(db: Db, nullifier: Seq<char>, height: nat) -> Db {
    if db[14].contains_key(text::utf8(nullifier)) {
        db
    } else {
        ledger::put(db, 14, text::utf8(nullifier), CellV::Bytes(text::be(height, 8)))
    }
}

/// A nullifier is spent at most once: once burned it is seen, burning it again
/// changes nothing, and burning one spends no other.
pub proof fn law_nullifier_spent_once(db: Db, n: Seq<char>, other: Seq<char>, h: nat, g: nat)
    requires
        db.len() == 16,
    ensures
        burned(db, n, h)[14].contains_key(text::utf8(n)),
        burned(burned(db, n, h), n, g) == burned(db, n, h),
        other != n ==> burned(db, n, h)[14].contains_key(text::utf8(other))
            == db[14].contains_key(text::utf8(other)),
{
    if text::utf8(other) == text::utf8(n) {
        text::lemma_utf8_injective(other, n);
    }
}

// ---------------------------------------------------------------- state roots

/// Rows of accounts as one text: key, `|`, leaf value, `|`.
pub open spec fn account_rows(s: Seq<(Seq<u8>, CellV)>) -> Seq<u8>
    decreases s.len(),
{
    if s.len() == 0 {
        Seq::empty()
    } else {
        account_rows(s.drop_last()) + s.last().0 + seq![124u8] + text::utf8(
            account_leaf_of(cell_account(s.last().1)),
        ) + seq![124u8]
    }
}

/// Rows of tokens as one text.
pub open spec fn token_rows(s: Seq<(Seq<u8>, CellV)>) -> Seq<u8>
    decreases s.len(),
{
    if s.len() == 0 {
        Seq::empty()
    } else {
        match s.last().1 {
            CellV::Token(t) => token_rows(s.drop_last()) + s.last().0 + seq![124u8] + text::utf8(
                token_leaf_of(t),
            ) + seq![124u8],
            _ => token_rows(s.drop_last()),
        }
    }
}

/// Rows of contracts as one text.
pub open spec fn contract_rows(s: Seq<(Seq<u8>, CellV)>) -> Seq<u8>
    decreases s.len(),
{
    if s.len() == 0 {
        Seq::empty()
    } else {
        match s.last().1 {
            CellV::Contract(c) => contract_rows(s.drop_last()) + s.last().0 + seq![124u8]
                + text::utf8(contract_leaf_of(c)) + seq![124u8],
            _ => contract_rows(s.drop_last()),
        }
    }
}

/// What the full-state digest covers: accounts, tokens, token balances, contracts,
/// contract storage, and the pool's root, balance and nullifiers.
pub open spec fn state_text(p: ParamsV, db: Db) -> Seq<u8> {
    account_rows(table::ordered(db[0])) + token_rows(table::ordered(db[5])) + byte_rows(
        table::ordered(db[6]),
    ) + contract_rows(table::ordered(db[7])) + byte_rows(table::ordered(db[9])) + text::utf8(
        "shielded|"@,
    ) + text::utf8(note_root_of(p, db)) + seq![124u8] + text::utf8(text::dec(pool_of(db)))
        + seq![124u8] + text::utf8(nulls_digest_of(db)) + seq![124u8]
}

/// Full-state digest.
pub open spec fn state_root_of(p: ParamsV, db: Db) -> Seq<char> {
    crypto::hash_text(state_text(p, db))
}

/// Root of the Merkle tree, as text.
pub open spec fn merkle_root_of(db: Db) -> Seq<char> {
    crypto::hex_text(smt::root_of(db[12]))
}

/// Consensus state root at a height.
pub open spec fn root_at(p: ParamsV, db: Db, height: nat) -> Seq<char> {
    if height < STATE_ROOT_V2_ACTIVATION_HEIGHT {
        state_root_of(p, db)
    } else {
        merkle_root_of(db)
    }
}

/// The value behind a leaf of the Merkle tree.
pub open spec fn leaf_value_of(db: Db, domain: Seq<char>, key: Seq<u8>) -> Option<Seq<u8>> {
    if domain == "acct"@ {
        table_leaf_at(db, 0, key)
    } else if domain == "token"@ {
        table_leaf_at(db, 5, key)
    } else if domain == "tokenbal"@ {
        table_leaf_at(db, 6, key)
    } else if domain == "contract"@ {
        table_leaf_at(db, 7, key)
    } else if domain == "cstorage"@ {
        table_leaf_at(db, 9, key)
    } else {
        None
    }
}

/// The leaf value of a key of a table.
pub open spec fn table_leaf_at(db: Db, t: int, key: Seq<u8>) -> Option<Seq<u8>> {
    if db[t].contains_key(key) {
        table_leaf(t, db[t][key])
    } else {
        None
    }
}

/// Leaf value a row of a table contributes.
pub open spec fn table_leaf(t: int, c: CellV) -> Option<Seq<u8>> {
    match c {
        CellV::Account(a) => if t == 0 {
            Some(text::utf8(account_leaf_of(a)))
        } else {
            None
        },
        CellV::Token(x) => if t == 5 {
            Some(text::utf8(token_leaf_of(x)))
        } else {
            None
        },
        CellV::Contract(x) => if t == 7 {
            Some(text::utf8(contract_leaf_of(x)))
        } else {
            None
        },
        CellV::Bytes(b) => if t == 6 || t == 9 {
            Some(b)
        } else {
            None
        },
        _ => None,
    }
}

/// The database with the leaves of entries of a table written.
pub open spec fn all_merkled(db: Db, domain: Seq<char>, t: int, s: Seq<(Seq<u8>, CellV)>) -> Db
    decreases s.len(),
{
    if s.len() == 0 {
        db
    } else {
        let d = all_merkled(db, domain, t, s.drop_last());
        match table_leaf(t, s.last().1) {
            Some(v) => merkled(d, domain, s.last().0, Some(v)),
            None => d,
        }
    }
}

/// The database with the Merkle tree rebuilt from its tables.
pub open spec fn rebuilt(f: FixedV, db: Db, height: nat) -> Db {
    let a = all_merkled(emptied(db, 12), "acct"@, 0, table::ordered(db[0]));
    let b = all_merkled(a, "token"@, 5, table::ordered(db[5]));
    let c = all_merkled(b, "tokenbal"@, 6, table::ordered(db[6]));
    let d = all_merkled(c, "contract"@, 7, table::ordered(db[7]));
    let e = all_merkled(d, "cstorage"@, 9, table::ordered(db[9]));
    let g = if height >= f.shielded_from {
        pool_merkled(e, note_root_of(f.notes, e))
    } else {
        e
    };
    with_meta(g, "smt_version"@, text::utf8("1"@))
}

/// Writing Merkle leaves leaves every other table alone.
proof fn lemma_all_merkled_tables(db: Db, domain: Seq<char>, t: int, s: Seq<(Seq<u8>, CellV)>)
    requires
        db.len() == 16,
    ensures
        all_merkled(db, domain, t, s).len() == db.len(),
        forall|i: int| 0 <= i < db.len() && i != 12 ==> #[trigger] all_merkled(db, domain, t, s)[i]
            == db[i],
    decreases s.len(),
{
    if s.len() > 0 {
        lemma_all_merkled_tables(db, domain, t, s.drop_last());
    }
}

impl Store {
    /// Merkle leaf value of a row.
    fn row_leaf(t: usize, c: &Cell) -> (r: Option<Vec<u8>>)
        ensures
            match r {
                Some(v) => table_leaf(t as int, c@) == Some(v@),
                None => table_leaf(t as int, c@) is None,
            },
    {
        match c {
            Cell::Account(a) => if t == T_ACCOUNTS {
                Some(Self::account_leaf(a))
            } else {
                None
            },
            Cell::Token(x) => if t == T_TOKENS {
                Some(Self::token_leaf(x))
            } else {
                None
            },
            Cell::Contract(x) => if t == T_CONTRACTS {
                Some(Self::contract_leaf(x))
            } else {
                None
            },
            Cell::Bytes(b) => if t == T_TOKEN_BALANCES || t == T_CONTRACT_STORAGE {
                Some(text::copy_bytes(b.as_slice()))
            } else {
                None
            },
            _ => None,
        }
    }

    /// Writes the Merkle leaves of one table.
    fn merkle_table(&mut self, t: usize, domain: &str)
        requires
            old(self).wf(),
            t < 12,
        ensures
            follows(*old(self), *final(self)),
            final(self)@.db == all_merkled(
                old(self)@.db,
                domain@,
                t as int,
                table::ordered(old(self)@.db[t as int]),
            ),
            forall|i: int|
                0 <= i < 16 && i != 12 ==> #[trigger] final(self)@.db[i] == old(self)@.db[i],
    {
        let ghost d0 = self@.db;
        let ghost m = table::ordered(d0[t as int]);
        let n: usize = self.ledger.tree(t).len();
        proof {
            self.lemma_tables();
            journal::lemma_walk(self.ledger.tree_spec(t as int));
        }
        let mut i: usize = 0;
        assert(m.take(0) =~= Seq::<(Seq<u8>, CellV)>::empty());
        while i < n
            invariant
                i <= n,
                n == m.len(),
                t < 12,
                d0.len() == 16,
                m == table::ordered(d0[t as int]),
                follows(*old(self), *self),
                self@.db == all_merkled(d0, domain@, t as int, m.take(i as int)),
            decreases n - i,
        {
            proof {
                lemma_all_merkled_tables(d0, domain@, t as int, m.take(i as int));
                assert(self@.db[t as int] == d0[t as int]);
            }
            let tree = self.ledger.tree(t);
            proof {
                journal::lemma_walk(*tree);
                assert(journal::modelled(tree.entries()) == m);
                assert(m[i as int] == (tree.entries()[i as int].0, tree.entries()[i as int].1@));
                assert(m.take(i + 1).drop_last() =~= m.take(i as int));
                assert(m.take(i + 1).last() == m[i as int]);
            }
            let key = text::copy_bytes(tree.key_at(i).as_slice());
            let leaf = Self::row_leaf(t, tree.val_at(i));
            match leaf {
                Some(v) => {
                    self.smt_set(domain, key.as_slice(), Some(v.as_slice()));
                },
                None => {},
            }
            i = i + 1;
        }
        proof {
            assert(m.take(m.len() as int) =~= m);
            lemma_all_merkled_tables(d0, domain@, t as int, m);
        }
    }

    /// Root of the Merkle tree of all consensus state.
    pub fn merkle_root(&self) -> (r: String)
        requires
            self.wf(),
        ensures
            r@ == merkle_root_of(self@.db),
    {
        crypto::to_hex(&smt::root_in(&self.ledger, T_SMT))
    }

    /// Inclusion proof of one leaf: root, leaf key, siblings, and the map of the
    /// levels with a sibling.
    pub fn merkle_proof(&self, domain: &str, key: &str) -> (r: (
        String,
        String,
        Vec<String>,
        String,
    ))
        requires
            self.wf(),
        ensures
            r.0@ == merkle_root_of(self@.db),
            r.1@ == crypto::hex_text(smt::leaf_key_of(domain@, text::utf8(key@))),
            types::texts(r.2@) == smt::hex_list(
                smt::proof_siblings(
                    self@.db[12],
                    smt::path_bits(smt::leaf_key_of(domain@, text::utf8(key@))),
                    128,
                ),
            ),
            r.3@ == crypto::hex_text(
                smt::packed(
                    smt::proof_bits(
                        self@.db[12],
                        smt::path_bits(smt::leaf_key_of(domain@, text::utf8(key@))),
                    ),
                ),
            ),
    {
        let (leaf, siblings, bitmap) = smt::proof_in(&self.ledger, T_SMT, domain, key.as_bytes());
        (self.merkle_root(), leaf, siblings, bitmap)
    }

    /// Leaf value behind a proof; nothing means the leaf is empty.
    pub fn merkle_leaf_value(&self, domain: &str, key: &str) -> (r: Option<Vec<u8>>)
        requires
            self.wf(),
        ensures
            match r {
                Some(v) => leaf_value_of(self@.db, domain@, text::utf8(key@)) == Some(v@),
                None => leaf_value_of(self@.db, domain@, text::utf8(key@)) is None,
            },
    {
        let t: usize = if text::same(domain, "acct") {
            T_ACCOUNTS
        } else if text::same(domain, "token") {
            T_TOKENS
        } else if text::same(domain, "tokenbal") {
            T_TOKEN_BALANCES
        } else if text::same(domain, "contract") {
            T_CONTRACTS
        } else if text::same(domain, "cstorage") {
            T_CONTRACT_STORAGE
        } else {
            return None;
        };
        match self.ledger.get(t, key.as_bytes()) {
            Some(c) => Self::row_leaf(t, c),
            None => None,
        }
    }

    /// Rebuilds the Merkle tree from the tables.
    pub fn build_merkle_state(&mut self, height: u64)
        requires
            old(self).wf(),
        ensures
            follows(*old(self), *final(self)),
            final(self)@.db == rebuilt(old(self).fixed(), old(self)@.db, height as nat),
    {
        proof {
            self.lemma_tables();
        }
        self.jclear(T_SMT);
        self.merkle_table(T_ACCOUNTS, "acct");
        self.merkle_table(T_TOKENS, "token");
        self.merkle_table(T_TOKEN_BALANCES, "tokenbal");
        self.merkle_table(T_CONTRACTS, "contract");
        self.merkle_table(T_CONTRACT_STORAGE, "cstorage");
        if height >= self.shielded_from {
            let root = self.shielded_root();
            self.shielded_seal_into_state(root.as_str());
        }
        self.put_meta("smt_version", "1".as_bytes());
    }

    /// Whether the Merkle tree has been built.
    pub fn merkle_ready(&self) -> (r: bool)
        requires
            self.wf(),
        ensures
            r == self@.db[3].contains_key(text::utf8("smt_version"@)),
    {
        self.ledger.get(T_META, "smt_version".as_bytes()).is_some()
    }

    /// Appends the rows of accounts.
    fn push_account_rows(&self, buf: &mut Vec<u8>)
        requires
            self.wf(),
        ensures
            final(buf)@ == old(buf)@ + account_rows(table::ordered(self@.db[0])),
    {
        let t = self.ledger.tree(T_ACCOUNTS);
        proof {
            journal::lemma_walk(*t);
        }
        let ghost m = journal::modelled(t.entries());
        let ghost b0 = buf@;
        let mut i: usize = 0;
        assert(buf@ =~= b0 + account_rows(m.take(0)));
        while i < t.len()
            invariant
                i <= t.entries().len(),
                t.wf(),
                m == journal::modelled(t.entries()),
                buf@ == b0 + account_rows(m.take(i as int)),
            decreases t.entries().len() - i,
        {
            proof {
                assert(m.take(i + 1).drop_last() =~= m.take(i as int));
                assert(m.take(i + 1).last() == m[i as int]);
                assert(m[i as int] == (t.entries()[i as int].0, t.entries()[i as int].1@));
            }
            let leaf = match t.val_at(i) {
                Cell::Account(a) => Self::account_leaf(a),
                _ => Self::account_leaf(&Account::default()),
            };
            text::push_bytes(buf, t.key_at(i).as_slice());
            buf.push(124);
            text::push_bytes(buf, leaf.as_slice());
            buf.push(124);
            assert(buf@ =~= b0 + account_rows(m.take(i + 1)));
            i = i + 1;
        }
        assert(m.take(m.len() as int) =~= m);
    }

    /// Appends the rows of tokens.
    fn push_token_rows(&self, buf: &mut Vec<u8>)
        requires
            self.wf(),
        ensures
            final(buf)@ == old(buf)@ + token_rows(table::ordered(self@.db[5])),
    {
        let t = self.ledger.tree(T_TOKENS);
        proof {
            journal::lemma_walk(*t);
        }
        let ghost m = journal::modelled(t.entries());
        let ghost b0 = buf@;
        let mut i: usize = 0;
        assert(buf@ =~= b0 + token_rows(m.take(0)));
        while i < t.len()
            invariant
                i <= t.entries().len(),
                t.wf(),
                m == journal::modelled(t.entries()),
                buf@ == b0 + token_rows(m.take(i as int)),
            decreases t.entries().len() - i,
        {
            proof {
                assert(m.take(i + 1).drop_last() =~= m.take(i as int));
                assert(m.take(i + 1).last() == m[i as int]);
                assert(m[i as int] == (t.entries()[i as int].0, t.entries()[i as int].1@));
            }
            match t.val_at(i) {
                Cell::Token(x) => {
                    let leaf = Self::token_leaf(x);
                    text::push_bytes(buf, t.key_at(i).as_slice());
                    buf.push(124);
                    text::push_bytes(buf, leaf.as_slice());
                    buf.push(124);
                    assert(buf@ =~= b0 + token_rows(m.take(i + 1)));
                },
                _ => {},
            }
            i = i + 1;
        }
        assert(m.take(m.len() as int) =~= m);
    }

    /// Appends the rows of contracts.
    fn push_contract_rows(&self, buf: &mut Vec<u8>)
        requires
            self.wf(),
        ensures
            final(buf)@ == old(buf)@ + contract_rows(table::ordered(self@.db[7])),
    {
        let t = self.ledger.tree(T_CONTRACTS);
        proof {
            journal::lemma_walk(*t);
        }
        let ghost m = journal::modelled(t.entries());
        let ghost b0 = buf@;
        let mut i: usize = 0;
        assert(buf@ =~= b0 + contract_rows(m.take(0)));
        while i < t.len()
            invariant
                i <= t.entries().len(),
                t.wf(),
                m == journal::modelled(t.entries()),
                buf@ == b0 + contract_rows(m.take(i as int)),
            decreases t.entries().len() - i,
        {
            proof {
                assert(m.take(i + 1).drop_last() =~= m.take(i as int));
                assert(m.take(i + 1).last() == m[i as int]);
                assert(m[i as int] == (t.entries()[i as int].0, t.entries()[i as int].1@));
            }
            match t.val_at(i) {
                Cell::Contract(x) => {
                    let leaf = Self::contract_leaf(x);
                    text::push_bytes(buf, t.key_at(i).as_slice());
                    buf.push(124);
                    text::push_bytes(buf, leaf.as_slice());
                    buf.push(124);
                    assert(buf@ =~= b0 + contract_rows(m.take(i + 1)));
                },
                _ => {},
            }
            i = i + 1;
        }
        assert(m.take(m.len() as int) =~= m);
    }

    /// Full-state digest: every table of consensus state in key order.
    pub fn state_root(&self) -> (r: String)
        requires
            self.wf(),
        ensures
            r@ == state_root_of(self.fixed().notes, self@.db),
    {
        let mut buf: Vec<u8> = Vec::new();
        self.push_account_rows(&mut buf);
        self.push_token_rows(&mut buf);
        push_byte_rows(&mut buf, self.ledger.tree(T_TOKEN_BALANCES));
        self.push_contract_rows(&mut buf);
        push_byte_rows(&mut buf, self.ledger.tree(T_CONTRACT_STORAGE));
        text::push_text(&mut buf, "shielded|");
        let root = self.shielded_root();
        text::push_text(&mut buf, root.as_str());
        buf.push(124);
        let pool = text::decimal(self.shielded_pool_balance());
        text::push_text(&mut buf, pool.as_str());
        buf.push(124);
        let nulls = self.shielded_nulls_digest();
        text::push_text(&mut buf, nulls.as_str());
        buf.push(124);
        assert(buf@ =~= state_text(self.fixed().notes, self@.db));
        crypto::hash_hex(buf.as_slice())
    }

    /// Consensus state root at a height: the full-state digest for early history, the
    /// Merkle root from the activation height on.
    pub fn state_root_at(&self, height: u64) -> (r: String)
        requires
            self.wf(),
        ensures
            r@ == root_at(self.fixed().notes, self@.db, height as nat),
    {
        if height < STATE_ROOT_V2_ACTIVATION_HEIGHT {
            self.state_root()
        } else {
            self.merkle_root()
        }
    }
}


// ---------------------------------------------------------------- raw tables

/// Names of the tables a state snapshot carries. Blocks, the transaction index and
/// receipts are history, not state.
pub open spec fn snapshot_names() -> Seq<Seq<char>> {
    seq![
        "accounts"@,
        "stakers"@,
        "tokens"@,
        "token_balances"@,
        "contracts"@,
        "contract_code"@,
        "contract_storage"@,
        "slashes"@,
        "shielded_leaves"@,
        "shielded_nulls"@,
        "shielded_roots"@,
    ]
}

/// Names of the tables a state snapshot carries.
pub fn snapshot_tables() -> (r: Vec<&'static str>)
    ensures
        r@.len() == 11,
        forall|i: int| 0 <= i < 11 ==> (#[trigger] r@[i])@ == snapshot_names()[i],
{
    vec![
        "accounts",
        "stakers",
        "tokens",
        "token_balances",
        "contracts",
        "contract_code",
        "contract_storage",
        "slashes",
        "shielded_leaves",
        "shielded_nulls",
        "shielded_roots",
    ]
}

/// Number of a table that can be dumped and restored.
pub open spec fn table_number(name: Seq<char>) -> Option<int> {
    if name == "accounts"@ {
        Some(0)
    } else if name == "stakers"@ {
        Some(4)
    } else if name == "tokens"@ {
        Some(5)
    } else if name == "token_balances"@ {
        Some(6)
    } else if name == "contracts"@ {
        Some(7)
    } else if name == "contract_code"@ {
        Some(8)
    } else if name == "contract_storage"@ {
        Some(9)
    } else if name == "slashes"@ {
        Some(11)
    } else if name == "receipts"@ {
        Some(10)
    } else if name == "shielded_leaves"@ {
        Some(13)
    } else if name == "shielded_nulls"@ {
        Some(14)
    } else if name == "shielded_roots"@ {
        Some(15)
    } else {
        None
    }
}

/// The rows of a table in key order; none of an unknown one.
pub open spec fn dumped(db: Db, name: Seq<char>) -> Seq<(Seq<u8>, CellV)> {
    match table_number(name) {
        Some(t) => table::ordered(db[t]),
        None => Seq::empty(),
    }
}

/// The database with a table replaced by rows.
pub open spec fn restored_table(db: Db, name: Seq<char>, rows: Seq<(Seq<u8>, CellV)>) -> Result<
    Db,
    Seq<char>,
> {
    match table_number(name) {
        Some(t) => Ok(db.update(t, table::map_of(rows))),
        None => Err("unknown table "@ + name),
    }
}

/// Model of rows.
pub open spec fn rows_view(v: Seq<(Vec<u8>, Cell)>) -> Seq<(Seq<u8>, CellV)> {
    v.map_values(|e: (Vec<u8>, Cell)| (e.0@, e.1@))
}

/// Number of a table that can be dumped and restored.
fn table_index(name: &str) -> (r: Option<usize>)
    ensures
        match r {
            Some(t) => table_number(name@) == Some(t as int) && t < 16,
            None => table_number(name@) is None,
        },
{
    if text::same(name, "accounts") {
        Some(T_ACCOUNTS)
    } else if text::same(name, "stakers") {
        Some(T_STAKERS)
    } else if text::same(name, "tokens") {
        Some(T_TOKENS)
    } else if text::same(name, "token_balances") {
        Some(T_TOKEN_BALANCES)
    } else if text::same(name, "contracts") {
        Some(T_CONTRACTS)
    } else if text::same(name, "contract_code") {
        Some(T_CONTRACT_CODE)
    } else if text::same(name, "contract_storage") {
        Some(T_CONTRACT_STORAGE)
    } else if text::same(name, "slashes") {
        Some(T_SLASHES)
    } else if text::same(name, "receipts") {
        Some(T_RECEIPTS)
    } else if text::same(name, "shielded_leaves") {
        Some(T_SHIELDED_LEAVES)
    } else if text::same(name, "shielded_nulls") {
        Some(T_SHIELDED_NULLS)
    } else if text::same(name, "shielded_roots") {
        Some(T_SHIELDED_ROOTS)
    } else {
        None
    }
}

impl Store {
    /// Every row of a table, in key order.
    pub fn table_rows(&self, n: usize) -> (r: Vec<(Vec<u8>, Cell)>)
        requires
            self.wf(),
            n < 16,
        ensures
            rows_view(r@) == table::ordered(self@.db[n as int]),
    {
        let mut out: Vec<(Vec<u8>, Cell)> = Vec::new();
        let t = self.ledger.tree(n);
        proof {
            journal::lemma_walk(*t);
        }
        let ghost m = journal::modelled(t.entries());
        let mut i: usize = 0;
        while i < t.len()
            invariant
                i <= t.entries().len(),
                t.wf(),
                m == journal::modelled(t.entries()),
                rows_view(out@) =~= m.take(i as int),
            decreases t.entries().len() - i,
        {
            let ghost was = rows_view(out@);
            let k = text::copy_bytes(t.key_at(i).as_slice());
            let c = t.val_at(i).clone();
            let ghost e = (k@, c@);
            out.push((k, c));
            assert(rows_view(out@) =~= was.push(e));
            assert(m[i as int] == e);
            i = i + 1;
        }
        assert(m.take(m.len() as int) =~= m);
        out
    }

    /// Every row of a snapshot table, in key order.
    pub fn raw_dump(&self, name: &str) -> (r: Vec<(Vec<u8>, Cell)>)
        requires
            self.wf(),
        ensures
            rows_view(r@) == dumped(self@.db, name@),
    {
        match table_index(name) {
            Some(n) => self.table_rows(n),
            None => {
                let out: Vec<(Vec<u8>, Cell)> = Vec::new();
                assert(rows_view(out@) =~= Seq::<(Seq<u8>, CellV)>::empty());
                out
            },
        }
    }

    /// Replaces a table by rows.
    pub fn load_table(&mut self, n: usize, entries: &Vec<(Vec<u8>, Cell)>)
        requires
            old(self).wf(),
            n < 16,
        ensures
            follows(*old(self), *final(self)),
            final(self)@.db == old(self)@.db.update(
                n as int,
                table::map_of(rows_view(entries@)),
            ),
    {
        self.jclear(n);
        let ghost rows = rows_view(entries@);
        let ghost db0 = old(self)@.db;
        let mut i: usize = 0;
        proof {
            self.lemma_tables();
            assert(rows.take(0) =~= Seq::<(Seq<u8>, CellV)>::empty());
        }
        while i < entries.len()
            invariant
                i <= entries@.len(),
                n < 16,
                db0.len() == 16,
                rows == rows_view(entries@),
                follows(*old(self), *self),
                self@.db == db0.update(n as int, table::map_of(rows.take(i as int))),
            decreases entries@.len() - i,
        {
            proof {
                assert(rows.take(i + 1).drop_last() =~= rows.take(i as int));
                assert(rows.take(i + 1).last() == rows[i as int]);
            }
            self.jput(n, entries[i].0.as_slice(), entries[i].1.clone());
            assert(self@.db =~= db0.update(n as int, table::map_of(rows.take(i + 1))));
            i = i + 1;
        }
        assert(rows.take(rows.len() as int) =~= rows);
    }

    /// Replaces a snapshot table wholesale. Snapshot import only.
    pub fn raw_restore(&mut self, name: &str, entries: &Vec<(Vec<u8>, Cell)>) -> (r: Result<
        (),
        String,
    >)
        requires
            old(self).wf(),
        ensures
            follows(*old(self), *final(self)),
            match r {
                Ok(()) => restored_table(old(self)@.db, name@, rows_view(entries@)) == Ok::<
                    Db,
                    Seq<char>,
                >(final(self)@.db),
                Err(e) => restored_table(old(self)@.db, name@, rows_view(entries@)) == Err::<
                    Db,
                    Seq<char>,
                >(e@) && final(self)@.db == old(self)@.db,
            },
    {
        let n = match table_index(name) {
            Some(n) => n,
            None => {
                let mut m = text::copy("unknown table ");
                m.append(name);
                return Err(m);
            },
        };
        self.load_table(n, entries);
        Ok(())
    }
}

/// Rows that were read out of a table and loaded again give the same table: a store that
/// is written down row by row and opened again is the store it was.
pub proof fn law_reopened_table_is_the_same(m: Map<Seq<u8>, CellV>)
    requires
        table::tabular(m),
    ensures
        table::map_of(table::ordered(m)) == m,
{
    table::lemma_tabular(m);
}

} // verus!
