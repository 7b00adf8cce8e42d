//! Execution keeps the state tree in step with the tables: transactions, settling, blocks
//! and genesis write both or neither, so the root a block carries is the root of the state
//! it leads to.

use crate::apply;
use crate::chain;
use crate::chain::NodeV;
use crate::consensus;
use crate::consensus::TrackerV;
use crate::contracts;
use crate::contracts::ContractV;
use crate::contracts::OutcomeV;
use crate::journal::CellV;
use crate::journal::Db;
use crate::mempool;
use crate::mirror;
use crate::mirror::LeafV;
use crate::poseidon::ParamsV;
use crate::prune;
use crate::slashing;
use crate::slashing::EvidenceV;
use crate::smt;
use crate::staking;
use crate::staking::ValidatorV;
use crate::state;
use crate::state::FixedV;
use crate::supply;
use crate::text;
use crate::tokens;
use crate::tokens::TokenV;
use crate::types;
use crate::types::AccountV;
use crate::types::AllocV;
use crate::types::BlockV;
use crate::types::TxKind;
use crate::types::TxV;
use crate::types::Unbond;
use vstd::prelude::*;
use vstd::string::*;

verus! {

// ---------------------------------------------------------------- steps

/// Leaves of these domains are never removed.
spec fn lasting(x: LeafV) -> bool {
    x.domain == "acct"@ || x.domain == "token"@ || x.domain == "contract"@
}

/// No account, token or contract goes away.
spec fn grows(a: Db, b: Db) -> bool {
    forall|x: LeafV|
        lasting(x) && (#[trigger] mirror::value_at(None, a, x)) is Some ==> mirror::value_at(
            None,
            b,
            x,
        ) is Some
}

/// A set holds the accounts, tokens and contracts of a database.
spec fn covers(b: Db, s: Set<LeafV>) -> bool {
    forall|x: LeafV|
        lasting(x) && (#[trigger] mirror::value_at(None, b, x)) is Some ==> s.contains(x)
}

/// A step keeps tree and tables alike, as long as a set of leaves covers what it leaves
/// behind.
spec fn kept(pool: Option<ParamsV>, a: Db, b: Db, s: Set<LeafV>) -> bool {
    &&& a.len() == 16
    &&& b.len() == 16
    &&& grows(a, b)
    &&& mirror::mirrored_in(pool, a, s) && covers(b, s) ==> mirror::mirrored_in(pool, b, s)
}

proof fn lemma_stay(pool: Option<ParamsV>, a: Db, s: Set<LeafV>)
    requires
        a.len() == 16,
    ensures
        kept(pool, a, a, s),
{
}

/// Steps follow on each other.
proof fn lemma_then(pool: Option<ParamsV>, a: Db, b: Db, c: Db, s: Set<LeafV>)
    requires
        kept(pool, a, b, s),
        kept(pool, b, c, s),
    ensures
        kept(pool, a, c, s),
{
    assert forall|x: LeafV|
        lasting(x) && (#[trigger] mirror::value_at(None, a, x)) is Some implies mirror::value_at(
        None,
        c,
        x,
    ) is Some by {
        assert(mirror::value_at(None, b, x) is Some);
    }
    if covers(c, s) {
        assert forall|x: LeafV|
            lasting(x) && (#[trigger] mirror::value_at(None, b, x)) is Some implies s.contains(
            x,
        ) by {
            assert(mirror::value_at(None, c, x) is Some);
        }
    }
}

/// One leaf written is a step.
proof fn lemma_leaf_step(
    pool: Option<ParamsV>,
    a: Db,
    b: Db,
    x: LeafV,
    v: Option<Seq<u8>>,
    s: Set<LeafV>,
)
    requires
        a.len() == 16,
        mirror::apart(s),
        mirror::wrote_leaf(pool, a, b, x, v),
        mirror::wrote_leaf(None, a, b, x, v),
        if lasting(x) {
            v is Some
        } else {
            s.contains(x)
        },
    ensures
        kept(pool, a, b, s),
{
    assert forall|y: LeafV| #[trigger] mirror::value_at(None, b, y) == if y == x {
        v
    } else {
        mirror::value_at(None, a, y)
    } by {
        let m = mirror::leaves_of(None, a);
        let n = mirror::leaves_of(None, b);
        assert(mirror::value_at(None, a, y) == mirror::given(m, y));
        assert(mirror::value_at(None, b, y) == mirror::given(n, y));
    }
    assert forall|y: LeafV|
        lasting(y) && (#[trigger] mirror::value_at(None, a, y)) is Some implies mirror::value_at(
        None,
        b,
        y,
    ) is Some by {}
    if mirror::mirrored_in(pool, a, s) && covers(b, s) {
        assert(mirror::value_at(None, b, x) == v);
        mirror::lemma_written_in(pool, a, b, x, v, s);
    }
}

proof fn lemma_account_kept(
    pool: Option<ParamsV>,
    db: Db,
    a: Seq<char>,
    v: AccountV,
    s: Set<LeafV>,
)
    requires
        db.len() == 16,
        mirror::apart(s),
    ensures
        kept(pool, db, state::with_account(db, a, v), s),
{
    let d = state::with_account(db, a, v);
    let leaf = Some(text::utf8(state::account_leaf_of(v)));
    mirror::lemma_account_leaf(pool, db, a, v);
    mirror::lemma_account_leaf(None, db, a, v);
    lemma_leaf_step(pool, db, d, mirror::account_name(a), leaf, s);
}

proof fn lemma_token_kept(pool: Option<ParamsV>, db: Db, t: TokenV, s: Set<LeafV>)
    requires
        db.len() == 16,
        mirror::apart(s),
    ensures
        kept(pool, db, state::with_token(db, t), s),
{
    let d = state::with_token(db, t);
    let leaf = Some(text::utf8(state::token_leaf_of(t)));
    mirror::lemma_token_leaf(pool, db, t);
    mirror::lemma_token_leaf(None, db, t);
    lemma_leaf_step(pool, db, d, mirror::token_name(t.id), leaf, s);
}

proof fn lemma_contract_kept(pool: Option<ParamsV>, db: Db, c: ContractV, s: Set<LeafV>)
    requires
        db.len() == 16,
        mirror::apart(s),
    ensures
        kept(pool, db, state::with_contract(db, c), s),
{
    let d = state::with_contract(db, c);
    let leaf = Some(text::utf8(state::contract_leaf_of(c)));
    mirror::lemma_contract_leaf(pool, db, c);
    mirror::lemma_contract_leaf(None, db, c);
    lemma_leaf_step(pool, db, d, mirror::contract_name(c.address), leaf, s);
}

proof fn lemma_balance_kept(
    pool: Option<ParamsV>,
    db: Db,
    t: Seq<char>,
    a: Seq<char>,
    n: nat,
    s: Set<LeafV>,
)
    requires
        db.len() == 16,
        mirror::apart(s),
        s.contains(mirror::balance_name(t, a)),
    ensures
        kept(pool, db, state::with_token_balance(db, t, a, n), s),
{
    let d = state::with_token_balance(db, t, a, n);
    let leaf = if n == 0 {
        None
    } else {
        Some(text::utf8(text::dec(n)))
    };
    mirror::lemma_balance_leaf(pool, db, t, a, n);
    mirror::lemma_balance_leaf(None, db, t, a, n);
    mirror::lemma_domains();
    lemma_leaf_step(pool, db, d, mirror::balance_name(t, a), leaf, s);
}

proof fn lemma_storage_kept(
    pool: Option<ParamsV>,
    db: Db,
    a: Seq<char>,
    k: Seq<char>,
    v: Option<Seq<u8>>,
    s: Set<LeafV>,
)
    requires
        db.len() == 16,
        mirror::apart(s),
        s.contains(mirror::storage_name(a, k)),
    ensures
        kept(pool, db, state::with_storage(db, a, k, v), s),
{
    let d = state::with_storage(db, a, k, v);
    mirror::lemma_storage_leaf(pool, db, a, k, v);
    mirror::lemma_storage_leaf(None, db, a, k, v);
    mirror::lemma_domains();
    lemma_leaf_step(pool, db, d, mirror::storage_name(a, k), v, s);
}

/// Writes beside the state are steps.
proof fn lemma_aside_kept(pool: Option<ParamsV>, db: Db, d: Db, s: Set<LeafV>)
    requires
        db.len() == 16,
        d.len() == 16,
        d[0] == db[0],
        d[5] == db[5],
        d[6] == db[6],
        d[7] == db[7],
        d[9] == db[9],
        d[12] == db[12],
        d[13] == db[13],
        d[14] == db[14],
        state::meta(d, "shielded_pool"@) == state::meta(db, "shielded_pool"@),
    ensures
        kept(pool, db, d, s),
{
    mirror::lemma_aside(pool, db, d);
    assert forall|x: LeafV| #[trigger] mirror::value_at(None, db, x) == mirror::value_at(
        None,
        d,
        x,
    ) by {}
}

// ---------------------------------------------------------------- contracts

proof fn lemma_credit_kept(pool: Option<ParamsV>, db: Db, a: Seq<char>, n: nat, s: Set<LeafV>)
    requires
        db.len() == 16,
        mirror::apart(s),
        apply::credited(db, a, n) is Ok,
    ensures
        kept(pool, db, apply::credited(db, a, n)->Ok_0, s),
{
    let acct = state::account_of(db, a);
    lemma_account_kept(
        pool,
        db,
        a,
        AccountV { balance: (acct.balance + n) as u128, ..acct },
        s,
    );
}

proof fn lemma_attach_kept(pool: Option<ParamsV>, db: Db, a: Seq<char>, n: nat, s: Set<LeafV>)
    requires
        db.len() == 16,
        mirror::apart(s),
        apply::attached(db, a, n) is Ok,
    ensures
        kept(pool, db, apply::attached(db, a, n)->Ok_0, s),
{
    lemma_stay(pool, db, s);
    if n > 0 {
        lemma_credit_kept(pool, db, a, n, s);
    }
}

/// The storage rows a contract writes or removes.
pub open spec fn rows_written(
    contract: Seq<char>,
    ws: Seq<(Seq<char>, Option<Seq<u8>>)>,
) -> Set<LeafV>
    decreases ws.len(),
{
    if ws.len() == 0 {
        Set::empty()
    } else {
        rows_written(contract, ws.drop_last()).insert(
            mirror::storage_name(contract, ws.last().0),
        )
    }
}

proof fn lemma_stored_kept(
    pool: Option<ParamsV>,
    db: Db,
    c: Seq<char>,
    ws: Seq<(Seq<char>, Option<Seq<u8>>)>,
    s: Set<LeafV>,
)
    requires
        db.len() == 16,
        mirror::apart(s),
        rows_written(c, ws).subset_of(s),
    ensures
        kept(pool, db, apply::stored(db, c, ws), s),
    decreases ws.len(),
{
    if ws.len() > 0 {
        let t = ws.drop_last();
        let all = rows_written(c, ws);
        assert(all.contains(mirror::storage_name(c, ws.last().0)));
        assert forall|x: LeafV| rows_written(c, t).contains(x) implies s.contains(x) by {
            assert(all.contains(x));
        }
        lemma_stored_kept(pool, db, c, t, s);
        let d = apply::stored(db, c, t);
        lemma_storage_kept(pool, d, c, ws.last().0, ws.last().1, s);
        lemma_then(pool, db, d, apply::stored(db, c, ws), s);
    } else {
        lemma_stay(pool, db, s);
    }
}

proof fn lemma_moved_kept(
    pool: Option<ParamsV>,
    db: Db,
    c: Seq<char>,
    ms: Seq<(Seq<char>, u128)>,
    s: Set<LeafV>,
)
    requires
        db.len() == 16,
        mirror::apart(s),
        apply::moved(db, c, ms) is Ok,
    ensures
        kept(pool, db, apply::moved(db, c, ms)->Ok_0, s),
    decreases ms.len(),
{
    if ms.len() > 0 {
        lemma_moved_kept(pool, db, c, ms.drop_last(), s);
        let d = apply::moved(db, c, ms.drop_last())->Ok_0;
        let a = state::account_of(d, c);
        let n = ms.last().1;
        let v = AccountV { balance: (a.balance - n) as u128, ..a };
        lemma_account_kept(pool, d, c, v, s);
        let e = state::with_account(d, c, v);
        lemma_credit_kept(pool, e, ms.last().0, n as nat, s);
        lemma_then(pool, db, d, e, s);
        lemma_then(pool, db, e, apply::moved(db, c, ms)->Ok_0, s);
    } else {
        lemma_stay(pool, db, s);
    }
}

proof fn lemma_reverted_kept(
    pool: Option<ParamsV>,
    db: Db,
    tx: TxV,
    sender: Seq<char>,
    s: Set<LeafV>,
)
    requires
        db.len() == 16,
        mirror::apart(s),
        apply::reverted(db, tx, sender) is Ok,
    ensures
        kept(pool, db, apply::reverted(db, tx, sender)->Ok_0, s),
{
    lemma_stay(pool, db, s);
    if tx.amount > 0 {
        let a = state::account_of(db, tx.to);
        let left = if a.balance < tx.amount {
            0
        } else {
            (a.balance - tx.amount) as u128
        };
        let v = AccountV { balance: left, ..a };
        lemma_account_kept(pool, db, tx.to, v, s);
        let d = state::with_account(db, tx.to, v);
        lemma_credit_kept(pool, d, sender, tx.amount as nat, s);
        lemma_then(pool, db, d, apply::reverted(db, tx, sender)->Ok_0, s);
    }
}

proof fn lemma_finished_kept(
    pool: Option<ParamsV>,
    db: Db,
    tx: TxV,
    sender: Seq<char>,
    height: u64,
    c: ContractV,
    o: OutcomeV,
    s: Set<LeafV>,
)
    requires
        db.len() == 16,
        mirror::apart(s),
        rows_written(tx.to, o.writes).subset_of(s),
        apply::finished(db, tx, sender, height, c, o) is Ok,
    ensures
        kept(pool, db, apply::finished(db, tx, sender, height, c, o)->Ok_0, s),
{
    let d = state::with_receipt(
        db,
        tx.hash_text(),
        contracts::receipt_for(o, tx.to, sender, height),
    );
    lemma_aside_kept(pool, db, d, s);
    let e = if o.ok {
        let g = apply::stored(d, tx.to, o.writes);
        lemma_stored_kept(pool, d, tx.to, o.writes, s);
        lemma_moved_kept(pool, g, tx.to, o.transfers, s);
        lemma_then(pool, d, g, apply::moved(g, tx.to, o.transfers)->Ok_0, s);
        apply::moved(g, tx.to, o.transfers)->Ok_0
    } else {
        lemma_reverted_kept(pool, d, tx, sender, s);
        apply::reverted(d, tx, sender)->Ok_0
    };
    lemma_then(pool, db, d, e, s);
    lemma_contract_kept(pool, e, apply::called_once(c), s);
    lemma_then(pool, db, e, state::with_contract(e, apply::called_once(c)), s);
}

/// What a contract call comes to, once its value is attached.
pub open spec fn call_outcome(db: Db, tx: TxV, sender: Seq<char>, height: u64) -> OutcomeV {
    contracts::executed(
        apply::attached(db, tx.to, tx.amount as nat)->Ok_0,
        tx.to,
        sender,
        state::code_of(db, contracts::callable(db, tx.to)->Ok_0.code_hash)->Some_0,
        contracts::args_in(tx.payload)->Ok_0,
        tx.amount,
        height,
        contracts::fuel_of(tx.fee as nat) as u64,
    )
}

proof fn lemma_called_kept(
    pool: Option<ParamsV>,
    db: Db,
    tx: TxV,
    sender: Seq<char>,
    height: u64,
    s: Set<LeafV>,
)
    requires
        db.len() == 16,
        mirror::apart(s),
        rows_written(tx.to, call_outcome(db, tx, sender, height).writes).subset_of(s),
        apply::called(db, tx, sender, height) is Ok,
    ensures
        kept(pool, db, apply::called(db, tx, sender, height)->Ok_0, s),
{
    lemma_attach_kept(pool, db, tx.to, tx.amount as nat, s);
    let d = apply::attached(db, tx.to, tx.amount as nat)->Ok_0;
    let c = contracts::callable(db, tx.to)->Ok_0;
    let o = call_outcome(db, tx, sender, height);
    lemma_finished_kept(pool, d, tx, sender, height, c, o, s);
    lemma_then(pool, db, d, apply::called(db, tx, sender, height)->Ok_0, s);
}

proof fn lemma_deployed_kept(
    pool: Option<ParamsV>,
    db: Db,
    tx: TxV,
    sender: Seq<char>,
    height: u64,
    s: Set<LeafV>,
)
    requires
        db.len() == 16,
        mirror::apart(s),
        apply::deployed(db, tx, sender, height) is Ok,
    ensures
        kept(pool, db, apply::deployed(db, tx, sender, height)->Ok_0, s),
{
    let code = contracts::code_in(tx.payload)->Ok_0;
    let c = apply::fresh_contract(sender, tx.nonce as nat, code, height);
    let d = state::with_code(db, c.code_hash, code);
    let e = state::with_contract(d, c);
    lemma_aside_kept(pool, db, d, s);
    lemma_contract_kept(pool, d, c, s);
    lemma_then(pool, db, d, e, s);
    lemma_attach_kept(pool, e, c.address, tx.amount as nat, s);
    lemma_then(pool, db, e, apply::deployed(db, tx, sender, height)->Ok_0, s);
}

// ---------------------------------------------------------------- tokens

proof fn lemma_token_credit_kept(
    pool: Option<ParamsV>,
    db: Db,
    t: Seq<char>,
    a: Seq<char>,
    n: nat,
    s: Set<LeafV>,
)
    requires
        db.len() == 16,
        mirror::apart(s),
        s.contains(mirror::balance_name(t, a)),
    ensures
        kept(pool, db, state::credited(db, t, a, n).1, s),
{
    let before = state::token_balance_of(db, t, a);
    lemma_stay(pool, db, s);
    if before + n <= u128::MAX {
        match state::token_of(db, t) {
            Some(x) => {
                if x.supply + n <= u128::MAX {
                    let u = TokenV {
                        supply: (x.supply + n) as u128,
                        holders: if before == 0 && n > 0 && x.holders < u64::MAX {
                            (x.holders + 1) as u64
                        } else {
                            x.holders
                        },
                        ..x
                    };
                    lemma_token_kept(pool, db, u, s);
                    let d = state::with_token(db, u);
                    lemma_balance_kept(pool, d, t, a, before + n, s);
                    lemma_then(pool, db, d, state::credited(db, t, a, n).1, s);
                }
            },
            None => {
                lemma_balance_kept(pool, db, t, a, before + n, s);
            },
        }
    }
}

proof fn lemma_token_debit_kept(
    pool: Option<ParamsV>,
    db: Db,
    t: Seq<char>,
    a: Seq<char>,
    n: nat,
    s: Set<LeafV>,
)
    requires
        db.len() == 16,
        mirror::apart(s),
        s.contains(mirror::balance_name(t, a)),
    ensures
        kept(pool, db, state::debited(db, t, a, n).1, s),
{
    let before = state::token_balance_of(db, t, a);
    lemma_stay(pool, db, s);
    if before >= n {
        let after = (before - n) as nat;
        let d = state::with_token_balance(db, t, a, after);
        lemma_balance_kept(pool, db, t, a, after, s);
        match state::token_of(d, t) {
            Some(x) => {
                let u = TokenV {
                    supply: if x.supply >= n {
                        (x.supply - n) as u128
                    } else {
                        0
                    },
                    holders: if after == 0 && x.holders > 0 {
                        (x.holders - 1) as u64
                    } else {
                        x.holders
                    },
                    ..x
                };
                lemma_token_kept(pool, d, u, s);
                lemma_then(pool, db, d, state::debited(db, t, a, n).1, s);
            },
            None => {},
        }
    }
}

/// The token balances and storage rows that applying a transaction may write or remove.
/// Accounts, tokens and contracts it writes stay, so the state it leaves names them.
pub open spec fn touched(db: Db, tx: TxV, height: u64) -> Set<LeafV> {
    let sender = tx.sender()->Some_0;
    let p = tx.payload->Some_0;
    let t = state::token_of(db, p.token)->Some_0;
    match tx.kind {
        TxKind::CreateToken => set![
            mirror::balance_name(
                tokens::token_id_of(
                    sender,
                    tx.nonce as nat,
                    tokens::symbol_of(p.symbol)->Ok_0,
                ),
                sender,
            ),
        ],
        TxKind::MintToken => set![mirror::balance_name(t.id, tx.to)],
        TxKind::TokenTransfer => set![
            mirror::balance_name(t.id, sender),
            mirror::balance_name(t.id, tx.to),
        ],
        TxKind::BurnToken => set![mirror::balance_name(t.id, sender)],
        TxKind::CallContract => {
            let d = state::with_account(
                db,
                sender,
                apply::debited(state::account_of(db, sender), tx),
            );
            rows_written(tx.to, call_outcome(d, tx, sender, height).writes)
        },
        _ => Set::empty(),
    }
}

/// Token transactions, once their sender is debited.
proof fn lemma_token_effect_kept(
    pool: Option<ParamsV>,
    db: Db,
    tx: TxV,
    b: AccountV,
    height: u64,
    s: Set<LeafV>,
)
    requires
        db.len() == 16,
        mirror::apart(s),
        touched(db, tx, height).subset_of(s),
        tx.kind is CreateToken || tx.kind is MintToken || tx.kind is TokenTransfer
            || tx.kind is BurnToken,
        apply::effect(db, tx, tx.sender()->Some_0, b, height) is Ok,
    ensures
        kept(pool, db, apply::effect(db, tx, tx.sender()->Some_0, b, height)->Ok_0, s),
{
    let sender = tx.sender()->Some_0;
    let d0 = state::with_account(db, sender, b);
    let d = apply::effect(db, tx, sender, b, height)->Ok_0;
    let p = tx.payload->Some_0;
    let n = tx.amount as nat;
    lemma_account_kept(pool, db, sender, b, s);
    supply::lemma_account_frame(db, sender, b);
    assert(d0[5] == db[5]);
    let k = touched(db, tx, height);
    match tx.kind {
        TxKind::CreateToken => {
            let symbol = tokens::symbol_of(p.symbol)->Ok_0;
            let t = tokens::fresh_token(sender, tx.nonce as nat, symbol, height, p);
            assert(k.contains(mirror::balance_name(t.id, sender)));
            let e = state::with_token(d0, t);
            lemma_token_kept(pool, d0, t, s);
            lemma_token_credit_kept(pool, e, t.id, sender, n, s);
            lemma_then(pool, d0, e, state::credited(e, t.id, sender, n).1, s);
        },
        TxKind::MintToken => {
            let t = state::token_of(d0, p.token)->Some_0;
            assert(k.contains(mirror::balance_name(t.id, tx.to)));
            lemma_token_credit_kept(pool, d0, t.id, tx.to, n, s);
        },
        TxKind::TokenTransfer => {
            let t = state::token_of(d0, p.token)->Some_0;
            assert(k.contains(mirror::balance_name(t.id, sender)));
            assert(k.contains(mirror::balance_name(t.id, tx.to)));
            lemma_stay(pool, d0, s);
            if sender != tx.to {
                let e = state::debited(d0, t.id, sender, n).1;
                lemma_token_debit_kept(pool, d0, t.id, sender, n, s);
                lemma_token_credit_kept(pool, e, t.id, tx.to, n, s);
                lemma_then(pool, d0, e, state::credited(e, t.id, tx.to, n).1, s);
            }
        },
        TxKind::BurnToken => {
            let t = state::token_of(d0, p.token)->Some_0;
            assert(k.contains(mirror::balance_name(t.id, sender)));
            lemma_token_debit_kept(pool, d0, t.id, sender, n, s);
        },
        _ => {},
    }
    lemma_then(pool, db, d0, d, s);
}

// ---------------------------------------------------------------- transactions

proof fn lemma_reported_kept(
    pool: Option<ParamsV>,
    db: Db,
    height: u64,
    reporter: Seq<char>,
    e: EvidenceV,
    s: Set<LeafV>,
)
    requires
        db.len() == 16,
        mirror::apart(s),
        slashing::reported(db, height, reporter, e) is Ok,
    ensures
        kept(pool, db, slashing::reported(db, height, reporter, e)->Ok_0.1, s),
{
    let offender = e.verdict()->Ok_0;
    let p = slashing::punished(
        state::account_of(db, offender),
        slashing::pct_for(db, offender),
    );
    lemma_account_kept(pool, db, offender, p, s);
    let d = state::with_account(db, offender, p);
    let rec = slashing::record_of(db, height, reporter, e, offender);
    let r = state::account_of(d, reporter);
    let q = AccountV { balance: staking::capped_sum(r.balance, rec.bounty as nat), ..r };
    lemma_account_kept(pool, d, reporter, q, s);
    lemma_stay(pool, d, s);
    let g = if rec.bounty > 0 {
        state::with_account(d, reporter, q)
    } else {
        d
    };
    lemma_then(pool, db, d, g, s);
    let h = state::with_slash(g, rec);
    lemma_aside_kept(pool, g, h, s);
    lemma_then(pool, db, g, h, s);
}

proof fn lemma_applied_kept(pool: Option<ParamsV>, db: Db, tx: TxV, height: u64, s: Set<LeafV>)
    requires
        db.len() == 16,
        mirror::apart(s),
        touched(db, tx, height).subset_of(s),
        apply::applied(db, tx, height) is Ok,
    ensures
        kept(pool, db, apply::applied(db, tx, height)->Ok_0.1, s),
{
    let sender = tx.sender()->Some_0;
    let b = apply::debited(state::account_of(db, sender), tx);
    let d0 = state::with_account(db, sender, b);
    let d = apply::applied(db, tx, height)->Ok_0.1;
    lemma_account_kept(pool, db, sender, b, s);
    match tx.kind {
        TxKind::Transfer => {
            if tx.to == sender {
                let v = AccountV { balance: (b.balance + tx.amount) as u128, ..b };
                lemma_account_kept(pool, db, sender, v, s);
            } else {
                lemma_credit_kept(pool, d0, tx.to, tx.amount as nat, s);
                lemma_then(pool, db, d0, d, s);
            }
        },
        TxKind::Stake => {
            let v = AccountV { staked: (b.staked + tx.amount) as u128, ..b };
            lemma_account_kept(pool, db, sender, v, s);
        },
        TxKind::Unstake => {
            let u = Unbond { amount: tx.amount, release_height: apply::unlock_height(height) };
            let v = AccountV {
                staked: (b.staked - tx.amount) as u128,
                unbonding: b.unbonding.push(u),
                ..b
            };
            lemma_account_kept(pool, db, sender, v, s);
        },
        TxKind::ReportEquivocation => {
            let e = slashing::report_verdict(d0, height, tx.payload)->Ok_0;
            lemma_reported_kept(pool, d0, height, sender, e, s);
            lemma_then(pool, db, d0, d, s);
        },
        TxKind::Unjail => {
            let c = state::account_of(d0, sender);
            let v = AccountV {
                penalties: types::Penalties { jailed_until: 0, missed_streak: 0, ..c.penalties },
                ..c
            };
            lemma_account_kept(pool, d0, sender, v, s);
            lemma_then(pool, db, d0, d, s);
        },
        TxKind::CreateToken
        | TxKind::MintToken
        | TxKind::TokenTransfer
        | TxKind::BurnToken => {
            lemma_token_effect_kept(pool, db, tx, b, height, s);
        },
        TxKind::DeployContract => {
            lemma_deployed_kept(pool, d0, tx, sender, height, s);
            lemma_then(pool, db, d0, d, s);
        },
        TxKind::CallContract => {
            lemma_called_kept(pool, d0, tx, sender, height, s);
            lemma_then(pool, db, d0, d, s);
        },
        _ => {},
    }
}

/// From steps within a set of leaves that are apart to tree and tables alike.
proof fn lemma_kept_mirrored(
    pool: Option<ParamsV>,
    a: Db,
    b: Db,
    k: Set<LeafV>,
)
    requires
        mirror::mirrored(pool, a),
        mirror::apart(mirror::in_use(pool, a) + k + mirror::in_use(pool, b)),
        kept(pool, a, b, mirror::in_use(pool, a) + k + mirror::in_use(pool, b)),
    ensures
        mirror::mirrored(pool, b),
{
    let s = mirror::in_use(pool, a) + k + mirror::in_use(pool, b);
    mirror::lemma_reflects_widen(
        a[12],
        mirror::leaves_of(pool, a),
        mirror::in_use(pool, a),
        s,
    );
    mirror::lemma_domains();
    assert forall|x: LeafV|
        lasting(x) && (#[trigger] mirror::value_at(None, b, x)) is Some implies s.contains(x) by {
        assert(mirror::value_at(pool, b, x) == mirror::value_at(None, b, x));
        assert(mirror::in_use(pool, b).contains(x));
    }
    mirror::lemma_reflects_narrow(
        b[12],
        mirror::leaves_of(pool, b),
        mirror::in_use(pool, b),
        s,
    );
}

/// A transaction that is applied keeps tree and tables alike, as long as no two leaves in
/// use before, meanwhile or after share a place.
pub proof fn law_transaction_is_mirrored(pool: Option<ParamsV>, db: Db, tx: TxV, height: u64)
    requires
        mirror::mirrored(pool, db),
        apply::applied(db, tx, height) is Ok,
        mirror::apart(
            mirror::in_use(pool, db) + touched(db, tx, height) + mirror::in_use(
                pool,
                apply::applied(db, tx, height)->Ok_0.1,
            ),
        ),
    ensures
        mirror::mirrored(pool, apply::applied(db, tx, height)->Ok_0.1),
{
    let d = apply::applied(db, tx, height)->Ok_0.1;
    let k = touched(db, tx, height);
    let s = mirror::in_use(pool, db) + k + mirror::in_use(pool, d);
    assert(k.subset_of(s));
    lemma_applied_kept(pool, db, tx, height, s);
    lemma_kept_mirrored(pool, db, d, k);
}

/// The token balances and storage rows that a list of transactions may write or remove.
pub open spec fn touched_by_all(db: Db, txs: Seq<TxV>, height: u64) -> Set<LeafV>
    decreases txs.len(),
{
    if txs.len() == 0 {
        Set::empty()
    } else {
        touched_by_all(db, txs.drop_last(), height) + match chain::replayed(
            db,
            txs.drop_last(),
            height,
        ) {
            Ok((d, _)) => touched(d, txs.last(), height),
            Err(_) => Set::empty(),
        }
    }
}

proof fn lemma_replayed_kept(
    pool: Option<ParamsV>,
    db: Db,
    txs: Seq<TxV>,
    height: u64,
    s: Set<LeafV>,
)
    requires
        db.len() == 16,
        mirror::apart(s),
        touched_by_all(db, txs, height).subset_of(s),
        chain::replayed(db, txs, height) is Ok,
    ensures
        kept(pool, db, chain::replayed(db, txs, height)->Ok_0.0, s),
    decreases txs.len(),
{
    if txs.len() > 0 {
        let t = txs.drop_last();
        let all = touched_by_all(db, txs, height);
        let d = chain::replayed(db, t, height)->Ok_0.0;
        assert forall|x: LeafV| touched_by_all(db, t, height).contains(x) implies s.contains(x) by {
            assert(all.contains(x));
        }
        assert forall|x: LeafV| touched(d, txs.last(), height).contains(x) implies s.contains(
            x,
        ) by {
            assert(all.contains(x));
        }
        lemma_replayed_kept(pool, db, t, height, s);
        lemma_applied_kept(pool, d, txs.last(), height, s);
        lemma_then(pool, db, d, chain::replayed(db, txs, height)->Ok_0.0, s);
    } else {
        lemma_stay(pool, db, s);
    }
}

// ---------------------------------------------------------------- settling

proof fn lemma_released_kept(
    pool: Option<ParamsV>,
    db: Db,
    l: Seq<(Seq<char>, AccountV)>,
    height: u64,
    s: Set<LeafV>,
)
    requires
        db.len() == 16,
        mirror::apart(s),
    ensures
        kept(pool, db, staking::all_released(db, l, height), s),
    decreases l.len(),
{
    lemma_stay(pool, db, s);
    if l.len() > 0 {
        lemma_released_kept(pool, db, l.drop_last(), height, s);
        let d = staking::all_released(db, l.drop_last(), height);
        let v = staking::released(l.last().1, height);
        lemma_account_kept(pool, d, l.last().0, v, s);
        lemma_then(pool, db, d, state::with_account(d, l.last().0, v), s);
    }
}

proof fn lemma_charged_kept(
    pool: Option<ParamsV>,
    db: Db,
    address: Seq<char>,
    height: u64,
    s: Set<LeafV>,
)
    requires
        db.len() == 16,
        mirror::apart(s),
    ensures
        kept(pool, db, slashing::charged(db, address, height), s),
{
    let a = slashing::counted_miss(state::account_of(db, address));
    if slashing::jails(a, height) {
        let v = slashing::jailed_account(a, height);
        lemma_account_kept(pool, db, address, v, s);
        let d = state::with_account(db, address, v);
        let e = state::with_slash(d, slashing::jail_record(address, a, height));
        lemma_aside_kept(pool, d, e, s);
        lemma_then(pool, db, d, e, s);
    } else if slashing::leaks(a, height) {
        lemma_account_kept(pool, db, address, slashing::leaked_account(a), s);
    } else {
        lemma_account_kept(pool, db, address, a, s);
    }
}

proof fn lemma_all_charged_kept(
    pool: Option<ParamsV>,
    db: Db,
    names: Seq<Seq<char>>,
    height: u64,
    s: Set<LeafV>,
)
    requires
        db.len() == 16,
        mirror::apart(s),
    ensures
        kept(pool, db, slashing::all_charged(db, names, height), s),
    decreases names.len(),
{
    lemma_stay(pool, db, s);
    if names.len() > 0 {
        lemma_all_charged_kept(pool, db, names.drop_last(), height, s);
        let d = slashing::all_charged(db, names.drop_last(), height);
        lemma_charged_kept(pool, d, names.last(), height, s);
        lemma_then(pool, db, d, slashing::all_charged(db, names, height), s);
    }
}

proof fn lemma_lived_kept(
    pool: Option<ParamsV>,
    f: FixedV,
    db: Db,
    height: u64,
    parent: Seq<char>,
    producer: Seq<char>,
    s: Set<LeafV>,
)
    requires
        db.len() == 16,
        mirror::apart(s),
    ensures
        kept(pool, db, slashing::lived(f, db, height, parent, producer), s),
{
    lemma_stay(pool, db, s);
    let set = staking::set_at(db, height);
    if !(height < f.params.slashing_activation || set.len() < 2) {
        match slashing::used_attempt(set, height as nat, parent, producer, 0) {
            None => {},
            Some(n) => {
                let names = slashing::silent(set, height as nat, parent, producer, n);
                lemma_all_charged_kept(pool, db, names, height, s);
                let d = slashing::all_charged(db, names, height);
                let a = state::account_of(d, producer);
                let v = AccountV {
                    penalties: types::Penalties { missed_streak: 0, ..a.penalties },
                    ..a
                };
                lemma_account_kept(pool, d, producer, v, s);
                lemma_then(pool, db, d, state::with_account(d, producer, v), s);
            },
        }
    }
}

proof fn lemma_shared_kept(
    pool: Option<ParamsV>,
    db: Db,
    l: Seq<ValidatorV>,
    total: nat,
    s: Set<LeafV>,
)
    requires
        db.len() == 16,
        mirror::apart(s),
    ensures
        kept(pool, db, staking::shared_out(db, l, total), s),
    decreases l.len(),
{
    lemma_stay(pool, db, s);
    if l.len() > 0 {
        lemma_shared_kept(pool, db, l.drop_last(), total, s);
        let d = staking::shared_out(db, l.drop_last(), total);
        let a = l.last().address;
        let v = staking::rewarded(state::account_of(d, a), staking::cut_of(l.last(), total));
        lemma_account_kept(pool, d, a, v, s);
        lemma_then(pool, db, d, state::with_account(d, a, v), s);
    }
}

proof fn lemma_paid_kept(
    pool: Option<ParamsV>,
    db: Db,
    leader: Seq<char>,
    fees: nat,
    s: Set<LeafV>,
)
    requires
        db.len() == 16,
        mirror::apart(s),
    ensures
        kept(pool, db, staking::paid(db, leader, fees), s),
{
    let set = staking::set_at(db, staking::next_height(db));
    let total = types::cap128(staking::stake_sum(set)) as nat;
    if set.len() == 0 || total == 0 {
        lemma_account_kept(
            pool,
            db,
            leader,
            staking::led(
                state::account_of(db, leader),
                fees + staking::BLOCK_REWARD as nat,
                staking::BLOCK_REWARD as nat,
            ),
            s,
        );
    } else {
        lemma_shared_kept(pool, db, set, total, s);
        let d = staking::shared_out(db, set, total);
        let r = staking::leader_reward(set, total);
        let v = staking::led(state::account_of(d, leader), fees + r, r);
        lemma_account_kept(pool, d, leader, v, s);
        lemma_then(pool, db, d, state::with_account(d, leader, v), s);
    }
}

proof fn lemma_settled_kept(
    pool: Option<ParamsV>,
    f: FixedV,
    db: Db,
    height: u64,
    parent: Seq<char>,
    producer: Seq<char>,
    fees: nat,
    s: Set<LeafV>,
)
    requires
        db.len() == 16,
        mirror::apart(s),
    ensures
        kept(pool, db, chain::settled(f, db, height, parent, producer, fees), s),
{
    let l = state::stakers_of(db);
    lemma_released_kept(pool, db, l, height, s);
    let d = staking::all_released(db, l, height);
    lemma_lived_kept(pool, f, d, height, parent, producer, s);
    let e = slashing::lived(f, d, height, parent, producer);
    lemma_then(pool, db, d, e, s);
    lemma_paid_kept(pool, e, producer, fees, s);
    lemma_then(pool, db, e, staking::paid(e, producer, fees), s);
}

/// Settling a block keeps tree and tables alike.
pub proof fn law_settling_is_mirrored(
    pool: Option<ParamsV>,
    f: FixedV,
    db: Db,
    height: u64,
    parent: Seq<char>,
    producer: Seq<char>,
    fees: nat,
)
    requires
        mirror::mirrored(pool, db),
        mirror::apart(
            mirror::in_use(pool, db) + mirror::in_use(
                pool,
                chain::settled(f, db, height, parent, producer, fees),
            ),
        ),
    ensures
        mirror::mirrored(pool, chain::settled(f, db, height, parent, producer, fees)),
{
    let g = chain::settled(f, db, height, parent, producer, fees);
    let none = Set::<LeafV>::empty();
    let s = mirror::in_use(pool, db) + mirror::in_use(pool, g);
    assert(mirror::in_use(pool, db) + none + mirror::in_use(pool, g) =~= s);
    lemma_settled_kept(pool, f, db, height, parent, producer, fees, s);
    lemma_kept_mirrored(pool, db, g, none);
}

/// The state a block leads to: its transactions applied, then settled.
pub open spec fn state_after(f: FixedV, db: Db, b: BlockV) -> Db {
    let (d, fees) = chain::replayed(db, b.transactions, b.height)->Ok_0;
    chain::settled(f, d, b.height, b.parent_hash, b.producer, fees as nat)
}

/// The leaves a block has to do with: in use before it, touched by it, or in use after it.
pub open spec fn leaves_met(pool: Option<ParamsV>, f: FixedV, db: Db, b: BlockV) -> Set<LeafV> {
    mirror::in_use(pool, db) + touched_by_all(db, b.transactions, b.height) + mirror::in_use(
        pool,
        state_after(f, db, b),
    )
}

/// A block keeps tree and tables alike, as long as no two leaves in use before, meanwhile
/// or after share a place.
pub proof fn law_block_is_mirrored(pool: Option<ParamsV>, f: FixedV, db: Db, b: BlockV)
    requires
        mirror::mirrored(pool, db),
        chain::replayed(db, b.transactions, b.height) is Ok,
        mirror::apart(leaves_met(pool, f, db, b)),
    ensures
        mirror::mirrored(pool, state_after(f, db, b)),
{
    let k = touched_by_all(db, b.transactions, b.height);
    let g = state_after(f, db, b);
    let s = leaves_met(pool, f, db, b);
    let (d, fees) = chain::replayed(db, b.transactions, b.height)->Ok_0;
    assert(k.subset_of(s));
    lemma_replayed_kept(pool, db, b.transactions, b.height, s);
    lemma_settled_kept(
        pool,
        f,
        d,
        b.height,
        b.parent_hash,
        b.producer,
        fees as nat,
        s,
    );
    lemma_then(pool, db, d, g, s);
    lemma_kept_mirrored(pool, db, g, k);
}

// ---------------------------------------------------------------- chains

/// What leaves the state leaves tree and tables alike.
proof fn lemma_same_state_mirrored(pool: Option<ParamsV>, a: Db, b: Db)
    requires
        mirror::mirrored(pool, a),
        supply::same_state(a, b),
    ensures
        mirror::mirrored(pool, b),
        mirror::leaves_of(pool, b) == mirror::leaves_of(pool, a),
{
    assert(a[0] == b[0] && a[5] == b[5] && a[6] == b[6] && a[7] == b[7] && a[9] == b[9] && a[12]
        == b[12] && a[13] == b[13] && a[14] == b[14]);
    mirror::lemma_aside(pool, a, b);
}

proof fn lemma_funded_kept(pool: Option<ParamsV>, db: Db, l: Seq<AllocV>, s: Set<LeafV>)
    requires
        db.len() == 16,
        mirror::apart(s),
        chain::funded(db, l) is Ok,
    ensures
        kept(pool, db, chain::funded(db, l)->Ok_0, s),
    decreases l.len(),
{
    lemma_stay(pool, db, s);
    if l.len() > 0 {
        lemma_funded_kept(pool, db, l.drop_last(), s);
        let d = chain::funded(db, l.drop_last())->Ok_0;
        let a = l.last();
        let acct = state::account_of(d, a.address);
        let b = text::fixed_value(a.balance, 9)->Ok_0;
        let funded = AccountV { balance: (acct.balance + b) as u128, ..acct };
        let v = match a.stake {
            None => funded,
            Some(t) => AccountV {
                staked: (acct.staked + text::fixed_value(t, 9)->Ok_0) as u128,
                ..funded
            },
        };
        lemma_account_kept(pool, d, a.address, v, s);
        lemma_then(pool, db, d, state::with_account(d, a.address, v), s);
    }
}

/// A chain starts with tree and tables alike, over an empty database or a wiped one.
pub proof fn law_genesis_is_mirrored(n: NodeV)
    requires
        n.db.len() == 16,
        n.db[0] == Map::<Seq<u8>, CellV>::empty(),
        n.db[5] == Map::<Seq<u8>, CellV>::empty(),
        n.db[6] == Map::<Seq<u8>, CellV>::empty(),
        n.db[7] == Map::<Seq<u8>, CellV>::empty(),
        n.db[9] == Map::<Seq<u8>, CellV>::empty(),
        n.db[12] == Map::<Seq<u8>, CellV>::empty(),
        chain::started(n) is Ok,
        mirror::apart(mirror::in_use(None, chain::started(n)->Ok_0.1)),
    ensures
        mirror::mirrored(None, chain::started(n)->Ok_0.1),
{
    let (b, e) = chain::started(n)->Ok_0;
    let d = chain::funded(n.db, n.alloc)->Ok_0;
    let none = Set::<LeafV>::empty();
    let s = mirror::in_use(None, d);
    mirror::law_empty_store_is_mirrored(n.db);
    assert(mirror::in_use(None, n.db) + none + s =~= s);
    // The first block is stored beside the state.
    assert(d.len() == 16) by {
        lemma_funded_kept(None, n.db, n.alloc, none);
    }
    supply::lemma_block_stored(d, b);
    assert(d[0] == e[0] && d[5] == e[5] && d[6] == e[6] && d[7] == e[7] && d[9] == e[9] && d[12]
        == e[12] && d[13] == e[13] && d[14] == e[14]);
    mirror::lemma_aside(None, d, e);
    lemma_funded_kept(None, n.db, n.alloc, s);
    lemma_kept_mirrored(None, n.db, d, none);
}

/// Adopting a settled block leaves the state.
proof fn lemma_advanced_same(n: NodeV, g: Db, b: BlockV, now: u128)
    requires
        g.len() == 16,
    ensures
        supply::same_state(g, chain::advanced(n, g, b, now).db),
{
    supply::lemma_meta_names();
    chain::lemma_adopted(n.fixed, g, b);
    let a = chain::adopted(n.fixed, g, b);
    supply::lemma_votes_frame(
        TrackerV {
            pending: consensus::votes_kept(
                n.votes.pending,
                b.height as nat,
                state::finalized_of(a),
            ),
            ..n.votes
        },
        a,
        consensus::votes_at(n.votes.pending, b.height as nat),
    );
    let m = chain::advanced(n, g, b, now);
    assert forall|i: int| 0 <= i < 16 && i != 1 && i != 2 && i != 3 implies #[trigger] g[i]
        == m.db[i] by {
        assert(g[i] == a[i]);
        assert(a[i] == m.db[i]);
    }
}

/// Sealing a block keeps tree and tables alike, and so the root the block carries from the
/// height at which blocks carry Merkle roots is the root of what the tables hold.
pub proof fn law_sealing_is_mirrored(pool: Option<ParamsV>, n: NodeV, b: BlockV, now: u128)
    requires
        mirror::mirrored(pool, n.db),
        chain::produced(n, now).0 == Ok::<Option<BlockV>, Seq<char>>(Some(b)),
        mirror::apart(leaves_met(pool, n.fixed, n.db, b)),
    ensures
        mirror::mirrored(pool, chain::produced(n, now).1.db),
        b.height >= state::STATE_ROOT_V2_ACTIVATION_HEIGHT ==> b.state_root
            == state::merkle_root_of(chain::produced(n, now).1.db),
{
    let h = b.height;
    let txs = mempool::txs_of(mempool::batch_of(n.pool, chain::MAX_TXS_PER_BLOCK as nat).0);
    chain::law_included_transactions_replay(n.db, txs, h);
    let g = state_after(n.fixed, n.db, b);
    assert(g == chain::next_state(n, h));
    law_block_is_mirrored(pool, n.fixed, n.db, b);
    lemma_advanced_same(n, g, b, now);
    let m = chain::produced(n, now).1;
    assert(m.db == chain::advanced(n, g, b, now).db);
    lemma_same_state_mirrored(pool, g, m.db);
    assert(g[12] == m.db[12]);
}

/// The same of an imported block.
pub proof fn law_importing_is_mirrored(pool: Option<ParamsV>, n: NodeV, b: BlockV, now: u128)
    requires
        mirror::mirrored(pool, n.db),
        chain::imported(n, b, now).0 == Ok::<bool, Seq<char>>(true),
        mirror::apart(leaves_met(pool, n.fixed, n.db, b)),
    ensures
        mirror::mirrored(pool, chain::imported(n, b, now).1.db),
        b.height >= state::STATE_ROOT_V2_ACTIVATION_HEIGHT ==> b.state_root
            == state::merkle_root_of(chain::imported(n, b, now).1.db),
{
    let g = chain::executed(n.fixed, n.db, b)->Ok_0;
    assert(g == state_after(n.fixed, n.db, b));
    law_block_is_mirrored(pool, n.fixed, n.db, b);
    lemma_advanced_same(n, g, b, now);
    let m = chain::imported(n, b, now).1;
    assert(m.db == chain::advanced(n, g, b, now).db);
    lemma_same_state_mirrored(pool, g, m.db);
    assert(g[12] == m.db[12]);
}

/// Whoever disagrees about one leaf is refused: a block whose root is that of a state which
/// differs in any account, token, token balance, contract or storage row from the one this
/// node computes does not pass, unless hashes collide.
pub proof fn law_disagreement_is_refused(
    pool: Option<ParamsV>,
    n: NodeV,
    b: BlockV,
    now: u128,
    theirs: Db,
    x: LeafV,
)
    requires
        mirror::mirrored(pool, n.db),
        mirror::mirrored(pool, theirs),
        b.height >= state::STATE_ROOT_V2_ACTIVATION_HEIGHT,
        b.state_root == state::merkle_root_of(theirs),
        mirror::apart(leaves_met(pool, n.fixed, n.db, b) + mirror::in_use(pool, theirs)),
        ({
            let ours = state_after(n.fixed, n.db, b);
            let v = mirror::value_at(pool, ours, x);
            let w = mirror::value_at(pool, theirs, x);
            &&& v != w
            &&& smt::collision_free(mirror::hashed_to(ours[12], theirs[12], x, v, w))
        }),
    ensures
        chain::executed(n.fixed, n.db, b) is Err,
        chain::imported(n, b, now).0 != Ok::<bool, Seq<char>>(true),
{
    if chain::executed(n.fixed, n.db, b) is Ok {
        let ours = state_after(n.fixed, n.db, b);
        let all = leaves_met(pool, n.fixed, n.db, b) + mirror::in_use(pool, theirs);
        lemma_apart_within(leaves_met(pool, n.fixed, n.db, b), all);
        lemma_apart_within(mirror::in_use(pool, ours) + mirror::in_use(pool, theirs), all);
        law_block_is_mirrored(pool, n.fixed, n.db, b);
        mirror::law_root_fixes_state(pool, ours, pool, theirs, x);
    }
}

/// Leaves that are apart stay so in a part of them.
proof fn lemma_apart_within(s: Set<LeafV>, t: Set<LeafV>)
    requires
        mirror::apart(t),
        s.subset_of(t),
    ensures
        mirror::apart(s),
{
}

/// Pruning keeps tree and tables alike.
pub proof fn law_pruning_is_mirrored(pool: Option<ParamsV>, db: Db, below: nat)
    requires
        mirror::mirrored(pool, db),
    ensures
        mirror::mirrored(pool, state::pruned(db, below).0),
{
    let d = state::pruned(db, below).0;
    assert("shielded_pool"@ != "pruned_below"@) by {
        reveal_strlit("shielded_pool");
        reveal_strlit("pruned_below");
        assert("shielded_pool"@.len() == 13);
        assert("pruned_below"@.len() == 12);
    }
    prune::law_pruning_keeps_state(db, below, "shielded_pool"@);
    assert(d[0] == db[0] && d[5] == db[5] && d[6] == db[6] && d[7] == db[7] && d[9] == db[9]
        && d[12] == db[12] && d[13] == db[13] && d[14] == db[14]);
    mirror::lemma_aside(pool, db, d);
}

} // verus!
