//! What transactions and blocks conserve: nobody's coins appear from nothing, and
//! execution leaves history and the chain's own bookkeeping alone.

use crate::apply;
use crate::chain;
use crate::chain::NodeV;
use crate::contracts;
use crate::contracts::ContractV;
use crate::contracts::OutcomeV;
use crate::journal::CellV;
use crate::journal::Db;
use crate::rank;
use crate::slashing;
use crate::staking;
use crate::staking::ValidatorV;
use crate::state;
use crate::state::FixedV;
use crate::supply;
use crate::table;
use crate::text;
use crate::tokens;
use crate::types;
use crate::types::AccountV;
use crate::types::AllocV;
use crate::types::TxKind;
use crate::types::TxV;
use crate::types::Unbond;
use vstd::prelude::*;
use vstd::string::*;
use vstd::utf8::*;

verus! {

/// A database whose accounts and stakers can be walked, every staker under a text.
pub open spec fn steady(db: Db) -> bool {
    &&& supply::sound(db)
    &&& table::tabular(db[4])
    &&& forall|k: Seq<u8>| #[trigger] db[4].contains_key(k) ==> valid_utf8(k)
}

/// Execution happened within the state: blocks, index, meta table and the shielded
/// tables are as they were.
pub open spec fn within(db: Db, d: Db) -> bool {
    &&& d.len() == 16
    &&& d[1] == db[1]
    &&& d[2] == db[2]
    &&& d[3] == db[3]
    &&& d[13] == db[13]
    &&& d[14] == db[14]
    &&& d[15] == db[15]
}

/// Writing an account keeps the database steady and changes the supply by what the
/// account gains or loses.
pub proof fn lemma_account_step(db: Db, a: Seq<char>, v: AccountV)
    requires
        steady(db),
    ensures
        steady(state::with_account(db, a, v)),
        within(db, state::with_account(db, a, v)),
        state::supply_of(state::with_account(db, a, v)) + state::account_of(db, a).worth()
            == state::supply_of(db) + v.worth(),
{
    supply::lemma_supply_after(db, a, v);
    supply::lemma_account_frame(db, a, v);
    let d = state::with_account(db, a, v);
    let k = text::utf8(a);
    text::lemma_utf8_round_trip(a);
    let m = db[4];
    let c = CellV::Bytes(text::utf8("1"@));
    if v.staked > 0 || v.unbonding.len() > 0 {
        assert(d[4] == m.insert(k, c));
        if m.contains_key(k) {
            let i = table::lemma_walk_put(m, k, c);
        } else {
            let i = table::lemma_walk_put_fresh(m, k, c);
        }
    } else {
        assert(d[4] == m.remove(k));
        if m.contains_key(k) {
            let i = table::lemma_walk_del(m, k);
        } else {
            assert(m.remove(k) =~= m);
        }
    }
}

/// Other writes of execution leave accounts and stakers.
pub proof fn lemma_other_step(db: Db, d: Db)
    requires
        steady(db),
        within(db, d),
        d[0] == db[0],
        d[4] == db[4],
    ensures
        steady(d),
        state::supply_of(d) == state::supply_of(db),
        forall|a: Seq<char>| #[trigger] state::account_of(d, a) == state::account_of(db, a),
{
    supply::lemma_supply_frame(db, d);
}

/// Crediting an account adds exactly that to the supply.
proof fn lemma_credit(db: Db, a: Seq<char>, n: nat)
    requires
        steady(db),
        apply::credited(db, a, n) is Ok,
    ensures
        ({
            let d = apply::credited(db, a, n)->Ok_0;
            &&& steady(d)
            &&& within(db, d)
            &&& state::supply_of(d) == state::supply_of(db) + n
            &&& state::account_of(d, a).balance == state::account_of(db, a).balance + n
        }),
{
    let acct = state::account_of(db, a);
    let v = AccountV { balance: (acct.balance + n) as u128, ..acct };
    lemma_account_step(db, a, v);
    supply::lemma_account_after(db, a, v, a);
}

proof fn lemma_attach(db: Db, a: Seq<char>, n: nat)
    requires
        steady(db),
        apply::attached(db, a, n) is Ok,
    ensures
        ({
            let d = apply::attached(db, a, n)->Ok_0;
            &&& steady(d)
            &&& within(db, d)
            &&& state::supply_of(d) == state::supply_of(db) + n
            &&& state::account_of(d, a).balance >= n
        }),
{
    if n > 0 {
        lemma_credit(db, a, n);
    }
}

proof fn lemma_stored(db: Db, c: Seq<char>, ws: Seq<(Seq<char>, Option<Seq<u8>>)>)
    requires
        steady(db),
    ensures
        steady(apply::stored(db, c, ws)),
        within(db, apply::stored(db, c, ws)),
        state::supply_of(apply::stored(db, c, ws)) == state::supply_of(db),
    decreases ws.len(),
{
    if ws.len() > 0 {
        lemma_stored(db, c, ws.drop_last());
        lemma_other_step(apply::stored(db, c, ws.drop_last()), apply::stored(db, c, ws));
    }
}

proof fn lemma_moved(db: Db, c: Seq<char>, ms: Seq<(Seq<char>, u128)>)
    requires
        steady(db),
        apply::moved(db, c, ms) is Ok,
    ensures
        steady(apply::moved(db, c, ms)->Ok_0),
        within(db, apply::moved(db, c, ms)->Ok_0),
        state::supply_of(apply::moved(db, c, ms)->Ok_0) == state::supply_of(db),
    decreases ms.len(),
{
    if ms.len() > 0 {
        lemma_moved(db, c, ms.drop_last());
        let d = apply::moved(db, c, ms.drop_last())->Ok_0;
        let a = state::account_of(d, c);
        let n = ms.last().1;
        let v = AccountV { balance: (a.balance - n) as u128, ..a };
        lemma_account_step(d, c, v);
        lemma_credit(state::with_account(d, c, v), ms.last().0, n as nat);
    }
}

proof fn lemma_reverted(db: Db, tx: TxV, sender: Seq<char>)
    requires
        steady(db),
        state::account_of(db, tx.to).balance >= tx.amount,
        apply::reverted(db, tx, sender) is Ok,
    ensures
        steady(apply::reverted(db, tx, sender)->Ok_0),
        within(db, apply::reverted(db, tx, sender)->Ok_0),
        state::supply_of(apply::reverted(db, tx, sender)->Ok_0) == state::supply_of(db),
{
    if tx.amount > 0 {
        let a = state::account_of(db, tx.to);
        let v = AccountV { balance: (a.balance - tx.amount) as u128, ..a };
        lemma_account_step(db, tx.to, v);
        lemma_credit(state::with_account(db, tx.to, v), sender, tx.amount as nat);
    }
}

proof fn lemma_finished(
    db: Db,
    tx: TxV,
    sender: Seq<char>,
    height: u64,
    c: ContractV,
    o: OutcomeV,
)
    requires
        steady(db),
        state::account_of(db, tx.to).balance >= tx.amount,
        apply::finished(db, tx, sender, height, c, o) is Ok,
    ensures
        steady(apply::finished(db, tx, sender, height, c, o)->Ok_0),
        within(db, apply::finished(db, tx, sender, height, c, o)->Ok_0),
        state::supply_of(apply::finished(db, tx, sender, height, c, o)->Ok_0)
            == state::supply_of(db),
{
    let d = state::with_receipt(
        db,
        tx.hash_text(),
        contracts::receipt_for(o, tx.to, sender, height),
    );
    lemma_other_step(db, d);
    let e = if o.ok {
        lemma_stored(d, tx.to, o.writes);
        lemma_moved(apply::stored(d, tx.to, o.writes), tx.to, o.transfers);
        apply::moved(apply::stored(d, tx.to, o.writes), tx.to, o.transfers)->Ok_0
    } else {
        lemma_reverted(d, tx, sender);
        apply::reverted(d, tx, sender)->Ok_0
    };
    lemma_other_step(e, state::with_contract(e, apply::called_once(c)));
}

proof fn lemma_called(db: Db, tx: TxV, sender: Seq<char>, height: u64)
    requires
        steady(db),
        apply::called(db, tx, sender, height) is Ok,
    ensures
        steady(apply::called(db, tx, sender, height)->Ok_0),
        within(db, apply::called(db, tx, sender, height)->Ok_0),
        state::supply_of(apply::called(db, tx, sender, height)->Ok_0) == state::supply_of(db)
            + tx.amount,
{
    lemma_attach(db, tx.to, tx.amount as nat);
    let d = apply::attached(db, tx.to, tx.amount as nat)->Ok_0;
    let c = contracts::callable(db, tx.to)->Ok_0;
    let o = contracts::executed(
        d,
        tx.to,
        sender,
        state::code_of(db, c.code_hash)->Some_0,
        contracts::args_in(tx.payload)->Ok_0,
        tx.amount,
        height,
        contracts::fuel_of(tx.fee as nat) as u64,
    );
    lemma_finished(d, tx, sender, height, c, o);
}

proof fn lemma_deployed(db: Db, tx: TxV, sender: Seq<char>, height: u64)
    requires
        steady(db),
        apply::deployed(db, tx, sender, height) is Ok,
    ensures
        steady(apply::deployed(db, tx, sender, height)->Ok_0),
        within(db, apply::deployed(db, tx, sender, height)->Ok_0),
        state::supply_of(apply::deployed(db, tx, sender, height)->Ok_0) == state::supply_of(db)
            + tx.amount,
{
    let code = contracts::code_in(tx.payload)->Ok_0;
    let c = apply::fresh_contract(sender, tx.nonce as nat, code, height);
    let d = state::with_contract(state::with_code(db, c.code_hash, code), c);
    lemma_other_step(db, d);
    lemma_attach(d, c.address, tx.amount as nat);
}

proof fn lemma_token_credit(db: Db, t: Seq<char>, a: Seq<char>, n: nat)
    requires
        steady(db),
    ensures
        within(db, state::credited(db, t, a, n).1),
        state::credited(db, t, a, n).1[0] == db[0],
        state::credited(db, t, a, n).1[4] == db[4],
{
}

proof fn lemma_token_debit(db: Db, t: Seq<char>, a: Seq<char>, n: nat)
    requires
        steady(db),
    ensures
        within(db, state::debited(db, t, a, n).1),
        state::debited(db, t, a, n).1[0] == db[0],
        state::debited(db, t, a, n).1[4] == db[4],
{
}

/// What a transaction does to tokens leaves accounts.
proof fn lemma_token_effect(db: Db, tx: TxV, sender: Seq<char>, height: u64, d: Db)
    requires
        steady(db),
        match tx.kind {
            TxKind::CreateToken => tokens::created(
                db,
                sender,
                tx.nonce as nat,
                tx.amount as nat,
                height,
                tx.payload,
            ) matches Ok(p) && p.1 == d,
            TxKind::MintToken => tokens::minted(db, sender, tx.to, tx.amount as nat, tx.payload)
                == Ok::<Db, Seq<char>>(d),
            TxKind::TokenTransfer => tokens::transferred(
                db,
                sender,
                tx.to,
                tx.amount as nat,
                tx.payload,
            ) == Ok::<Db, Seq<char>>(d),
            TxKind::BurnToken => tokens::burnt(db, sender, tx.amount as nat, tx.payload) == Ok::<
                Db,
                Seq<char>,
            >(d),
            _ => false,
        },
    ensures
        steady(d),
        within(db, d),
        state::supply_of(d) == state::supply_of(db),
{
    let p = tx.payload->Some_0;
    let n = tx.amount as nat;
    match tx.kind {
        TxKind::CreateToken => {
            let symbol = tokens::symbol_of(p.symbol)->Ok_0;
            let t = tokens::fresh_token(sender, tx.nonce as nat, symbol, height, p);
            let e = state::with_token(db, t);
            lemma_other_step(db, e);
            lemma_token_credit(e, t.id, sender, n);
        },
        TxKind::MintToken => {
            let t = state::token_of(db, p.token)->Some_0;
            lemma_token_credit(db, t.id, tx.to, n);
        },
        TxKind::TokenTransfer => {
            let t = state::token_of(db, p.token)->Some_0;
            lemma_token_debit(db, t.id, sender, n);
            let e = state::debited(db, t.id, sender, n).1;
            lemma_other_step(db, e);
            lemma_token_credit(e, t.id, tx.to, n);
        },
        TxKind::BurnToken => {
            let t = state::token_of(db, p.token)->Some_0;
            lemma_token_debit(db, t.id, sender, n);
        },
        _ => {},
    }
    lemma_other_step(db, d);
}

proof fn lemma_reported(db: Db, height: u64, reporter: Seq<char>, e: slashing::EvidenceV)
    requires
        steady(db),
        state::supply_of(db) <= u128::MAX,
        slashing::reported(db, height, reporter, e) is Ok,
    ensures
        ({
            let (rec, d) = slashing::reported(db, height, reporter, e)->Ok_0;
            &&& steady(d)
            &&& within(db, d)
            &&& state::supply_of(d) + rec.burned == state::supply_of(db)
        }),
{
    slashing::law_slash_conserves(db, height, reporter, e, height);
    let offender = e.verdict()->Ok_0;
    let p = slashing::punished(
        state::account_of(db, offender),
        slashing::pct_for(db, offender),
    );
    lemma_account_step(db, offender, p);
    let d = state::with_account(db, offender, p);
    let rec = slashing::record_of(db, height, reporter, e, offender);
    let r = state::account_of(d, reporter);
    let q = AccountV { balance: staking::capped_sum(r.balance, rec.bounty as nat), ..r };
    lemma_account_step(d, reporter, q);
    let g = if rec.bounty > 0 {
        state::with_account(d, reporter, q)
    } else {
        d
    };
    lemma_other_step(g, state::with_slash(g, rec));
}

/// Sum of locked amounts with one more.
proof fn lemma_unbond_push(s: Seq<Unbond>, u: Unbond)
    ensures
        types::unbond_sum(s.push(u)) == types::unbond_sum(s) + u.amount,
{
    assert(s.push(u).drop_last() =~= s);
}

/// What an applied transaction burns: for a report what the slash takes and does not pay
/// out as bounty.
pub open spec fn burned_by(db: Db, tx: TxV, height: u64) -> nat {
    if tx.kind is ReportEquivocation {
        let sender = tx.sender()->Some_0;
        let d = state::with_account(
            db,
            sender,
            apply::debited(state::account_of(db, sender), tx),
        );
        let e = slashing::report_verdict(d, height, tx.payload)->Ok_0;
        slashing::reported(d, height, sender, e)->Ok_0.0.burned as nat
    } else {
        0
    }
}

/// A transaction that is applied keeps the coins: what the supply loses is the fee it
/// pays into the block's pool and, for a report, what the slash burns. It leaves blocks,
/// index and meta table alone.
pub proof fn law_transaction_conserves_supply(db: Db, tx: TxV, height: u64)
    requires
        steady(db),
        state::supply_of(db) <= u128::MAX,
        apply::applied(db, tx, height) is Ok,
    ensures
        ({
            let (fee, d) = apply::applied(db, tx, height)->Ok_0;
            &&& steady(d)
            &&& within(db, d)
            &&& state::supply_of(d) + fee + burned_by(db, tx, height) == state::supply_of(db)
        }),
{
    let sender = tx.sender()->Some_0;
    let a = state::account_of(db, sender);
    let b = apply::debited(a, tx);
    let d0 = state::with_account(db, sender, b);
    let d = apply::applied(db, tx, height)->Ok_0.1;
    supply::lemma_account_within_supply(db, sender);
    lemma_account_step(db, sender, b);
    assert(b.worth() + apply::debit_of(tx) == a.worth());
    match tx.kind {
        TxKind::Transfer => {
            if tx.to == sender {
                let v = AccountV { balance: (b.balance + tx.amount) as u128, ..b };
                lemma_account_step(db, sender, v);
            } else {
                lemma_credit(d0, tx.to, tx.amount as nat);
            }
        },
        TxKind::Stake => {
            let v = AccountV { staked: (b.staked + tx.amount) as u128, ..b };
            lemma_account_step(db, sender, v);
        },
        TxKind::Unstake => {
            let u = Unbond { amount: tx.amount, release_height: apply::unlock_height(height) };
            let v = AccountV {
                staked: (b.staked - tx.amount) as u128,
                unbonding: b.unbonding.push(u),
                ..b
            };
            lemma_unbond_push(b.unbonding, u);
            lemma_account_step(db, sender, v);
        },
        TxKind::ReportEquivocation => {
            let e = slashing::report_verdict(d0, height, tx.payload)->Ok_0;
            lemma_reported(d0, height, sender, e);
        },
        TxKind::Unjail => {
            let c = state::account_of(d0, sender);
            let v = AccountV {
                penalties: types::Penalties { jailed_until: 0, missed_streak: 0, ..c.penalties },
                ..c
            };
            lemma_account_step(d0, sender, v);
        },
        TxKind::CreateToken
        | TxKind::MintToken
        | TxKind::TokenTransfer
        | TxKind::BurnToken => {
            lemma_token_effect(d0, tx, sender, height, d);
        },
        TxKind::DeployContract => {
            lemma_deployed(d0, tx, sender, height);
        },
        TxKind::CallContract => {
            lemma_called(d0, tx, sender, height);
        },
        _ => {},
    }
}


// ---------------------------------------------------------------- blocks

/// None of a list of transactions reports an offence.
pub open spec fn no_reports(txs: Seq<TxV>) -> bool {
    forall|i: int| 0 <= i < txs.len() ==> (#[trigger] txs[i]).kind != TxKind::ReportEquivocation
}

/// What a list of transactions burns.
pub open spec fn burned_by_all(db: Db, txs: Seq<TxV>, height: u64) -> nat
    decreases txs.len(),
{
    if txs.len() == 0 {
        0
    } else {
        burned_by_all(db, txs.drop_last(), height) + match chain::replayed(
            db,
            txs.drop_last(),
            height,
        ) {
            Ok((d, _)) => burned_by(d, txs.last(), height),
            Err(_) => 0,
        }
    }
}

/// A block's transactions keep the coins: what the supply loses is the fees they pay
/// and what reports burn.
pub proof fn law_transactions_conserve_supply(db: Db, txs: Seq<TxV>, height: u64)
    requires
        steady(db),
        state::supply_of(db) <= u128::MAX,
        chain::replayed(db, txs, height) is Ok,
    ensures
        ({
            let (d, fees) = chain::replayed(db, txs, height)->Ok_0;
            &&& steady(d)
            &&& within(db, d)
            &&& state::supply_of(d) + fees + burned_by_all(db, txs, height)
                == state::supply_of(db)
            &&& no_reports(txs) ==> burned_by_all(db, txs, height) == 0
        }),
    decreases txs.len(),
{
    if txs.len() > 0 {
        let t = txs.drop_last();
        law_transactions_conserve_supply(db, t, height);
        let (d, fees) = chain::replayed(db, t, height)->Ok_0;
        law_transaction_conserves_supply(d, txs.last(), height);
        if no_reports(txs) {
            assert(no_reports(t)) by {
                assert forall|i: int| 0 <= i < t.len() implies (#[trigger] t[i]).kind
                    != TxKind::ReportEquivocation by {
                    assert(t[i] == txs[i]);
                }
            }
            assert(txs[txs.len() - 1].kind != TxKind::ReportEquivocation);
        }
    }
}

/// Every staker of a steady database is listed once, with its account.
pub proof fn lemma_stakers_mirror(db: Db)
    requires
        steady(db),
    ensures
        staking::mirrors(db, state::stakers_of(db)),
{
    let rows = table::ordered(db[4]);
    table::lemma_tabular(db[4]);
    let cells = state::staker_cells(db, rows);
    let s = state::stakers_of(db);
    rank::law_ranking_keeps_values::<(String, types::Account)>(cells);
    assert forall|i: int, j: int| 0 <= i < cells.len() && 0 <= j < cells.len() && i != j implies cells[i].0
        != cells[j].0 by {
        table::lemma_map_of_at(rows, i);
        table::lemma_map_of_at(rows, j);
        assert(valid_utf8(rows[i].0) && valid_utf8(rows[j].0));
        decode_utf8_encode_utf8(rows[i].0);
        decode_utf8_encode_utf8(rows[j].0);
        if cells[i].0 == cells[j].0 {
            table::lemma_increasing_unique(rows, i, j);
        }
    }
    assert(cells.no_duplicates());
    cells.lemma_multiset_has_no_duplicates();
    assert forall|i: int| 0 <= i < s.len() implies (#[trigger] s[i]).1 == state::account_of(
        db,
        s[i].0,
    ) by {
        lemma_ranked_member(cells, s, i);
    }
    s.lemma_multiset_has_no_duplicates_conv();
    assert forall|i: int, j: int| 0 <= i < j < s.len() implies (#[trigger] s[i]).0 != (
    #[trigger] s[j]).0 by {
        assert(s[i] != s[j]);
        assert(s[i].1 == state::account_of(db, s[i].0));
        assert(s[j].1 == state::account_of(db, s[j].0));
    }
}

/// What a list with the same values holds, the other one holds.
proof fn lemma_ranked_member(
    cells: Seq<(Seq<char>, AccountV)>,
    s: Seq<(Seq<char>, AccountV)>,
    i: int,
)
    requires
        s.to_multiset() == cells.to_multiset(),
        0 <= i < s.len(),
    ensures
        exists|k: int| 0 <= k < cells.len() && #[trigger] cells[k] == s[i],
{
    broadcast use vstd::seq_lib::group_to_multiset_ensures;

    assert(s.contains(s[i]));
    assert(s.to_multiset().count(s[i]) > 0);
    assert(cells.contains(s[i]));
}

proof fn lemma_released(db: Db, s: Seq<(Seq<char>, AccountV)>, height: u64)
    requires
        steady(db),
    ensures
        steady(staking::all_released(db, s, height)),
        within(db, staking::all_released(db, s, height)),
    decreases s.len(),
{
    if s.len() > 0 {
        lemma_released(db, s.drop_last(), height);
        lemma_account_step(
            staking::all_released(db, s.drop_last(), height),
            s.last().0,
            staking::released(s.last().1, height),
        );
    }
}

proof fn lemma_bps_within(n: nat, bps: nat)
    requires
        bps <= 10_000,
    ensures
        slashing::bps_of(n, bps) <= n,
{
    assert(n * bps <= n * 10_000) by (nonlinear_arith)
        requires
            bps <= 10_000,
    ;
    vstd::arithmetic::div_mod::lemma_div_is_ordered((n * bps) as int, (n * 10_000) as int, 10_000);
    vstd::arithmetic::div_mod::lemma_div_by_multiple(n as int, 10_000);
}

/// What a missed slot costs a validator: the burn of a repeated downtime jail, or the
/// leak.
pub open spec fn miss_cost(db: Db, address: Seq<char>, height: u64) -> nat {
    let a = slashing::counted_miss(state::account_of(db, address));
    if slashing::jails(a, height) {
        slashing::jail_burn(a)
    } else if slashing::leaks(a, height) {
        slashing::bps_of(a.staked as nat, types::INACTIVITY_LEAK_BPS as nat)
    } else {
        0
    }
}

/// What one missed slot costs each validator of a list.
pub open spec fn miss_costs(db: Db, names: Seq<Seq<char>>, height: u64) -> nat
    decreases names.len(),
{
    if names.len() == 0 {
        0
    } else {
        miss_costs(db, names.drop_last(), height) + miss_cost(
            slashing::all_charged(db, names.drop_last(), height),
            names.last(),
            height,
        )
    }
}

/// What the slots missed before a block cost.
pub open spec fn silence_cost(
    f: FixedV,
    db: Db,
    height: u64,
    parent: Seq<char>,
    producer: Seq<char>,
) -> nat {
    let s = staking::set_at(db, height);
    if height < f.params.slashing_activation || s.len() < 2 {
        0
    } else {
        match slashing::used_attempt(s, height as nat, parent, producer, 0) {
            None => 0,
            Some(n) => miss_costs(
                db,
                slashing::silent(s, height as nat, parent, producer, n),
                height,
            ),
        }
    }
}

proof fn lemma_charged(db: Db, address: Seq<char>, height: u64)
    requires
        steady(db),
    ensures
        steady(slashing::charged(db, address, height)),
        within(db, slashing::charged(db, address, height)),
        state::supply_of(slashing::charged(db, address, height)) + miss_cost(db, address, height)
            == state::supply_of(db),
{
    let a = slashing::counted_miss(state::account_of(db, address));
    lemma_bps_within(a.staked as nat, types::DOWNTIME_REPEAT_BURN_BPS as nat);
    lemma_bps_within(a.staked as nat, types::INACTIVITY_LEAK_BPS as nat);
    if slashing::jails(a, height) {
        let v = slashing::jailed_account(a, height);
        lemma_account_step(db, address, v);
        let d = state::with_account(db, address, v);
        lemma_other_step(d, state::with_slash(d, slashing::jail_record(address, a, height)));
    } else if slashing::leaks(a, height) {
        lemma_account_step(db, address, slashing::leaked_account(a));
    } else {
        lemma_account_step(db, address, a);
    }
}

proof fn lemma_all_charged(db: Db, names: Seq<Seq<char>>, height: u64)
    requires
        steady(db),
    ensures
        steady(slashing::all_charged(db, names, height)),
        within(db, slashing::all_charged(db, names, height)),
        state::supply_of(slashing::all_charged(db, names, height)) + miss_costs(db, names, height)
            == state::supply_of(db),
    decreases names.len(),
{
    if names.len() > 0 {
        lemma_all_charged(db, names.drop_last(), height);
        lemma_charged(
            slashing::all_charged(db, names.drop_last(), height),
            names.last(),
            height,
        );
    }
}

/// Charging missed slots never adds coins: it takes exactly what they cost.
pub proof fn law_liveness_never_mints(
    f: FixedV,
    db: Db,
    height: u64,
    parent: Seq<char>,
    producer: Seq<char>,
)
    requires
        steady(db),
    ensures
        steady(slashing::lived(f, db, height, parent, producer)),
        within(db, slashing::lived(f, db, height, parent, producer)),
        state::supply_of(slashing::lived(f, db, height, parent, producer)) + silence_cost(
            f,
            db,
            height,
            parent,
            producer,
        ) == state::supply_of(db),
{
    let s = staking::set_at(db, height);
    if !(height < f.params.slashing_activation || s.len() < 2) {
        match slashing::used_attempt(s, height as nat, parent, producer, 0) {
            None => {},
            Some(n) => {
                let names = slashing::silent(s, height as nat, parent, producer, n);
                lemma_all_charged(db, names, height);
                let d = slashing::all_charged(db, names, height);
                let a = state::account_of(d, producer);
                lemma_account_step(
                    d,
                    producer,
                    AccountV {
                        penalties: types::Penalties { missed_streak: 0, ..a.penalties },
                        ..a
                    },
                );
            },
        }
    }
}

/// The stakes of different accounts are part of the supply.
proof fn lemma_staked_within(db: Db, s: Seq<(Seq<char>, AccountV)>)
    requires
        steady(db),
        staking::mirrors(db, s),
    ensures
        state::staked_of(s) <= state::supply_of(db),
    decreases s.len(),
{
    if s.len() > 0 {
        let t = s.drop_last();
        let l = s.len() - 1;
        let a = s.last().0;
        let acct = s.last().1;
        assert(s[l].1 == state::account_of(db, s[l].0));
        let v = AccountV { staked: 0, ..acct };
        lemma_account_step(db, a, v);
        let d = state::with_account(db, a, v);
        assert(staking::mirrors(d, t)) by {
            assert forall|i: int| 0 <= i < t.len() implies (#[trigger] t[i]).1
                == state::account_of(d, t[i].0) by {
                assert(t[i] == s[i]);
                assert(s[i].0 != s[l].0);
                supply::lemma_account_after(db, a, v, t[i].0);
            }
            assert forall|i: int, j: int| 0 <= i < j < t.len() implies (#[trigger] t[i]).0 != (
            #[trigger] t[j]).0 by {
                assert(t[i] == s[i] && t[j] == s[j]);
            }
        }
        lemma_staked_within(d, t);
    }
}

proof fn lemma_active_sum(s: Seq<(Seq<char>, AccountV)>, height: u64)
    ensures
        staking::stake_sum(staking::active_among(s, height)) <= state::staked_of(s),
    decreases s.len(),
{
    if s.len() > 0 {
        lemma_active_sum(s.drop_last(), height);
        let rest = staking::active_among(s.drop_last(), height);
        let v = staking::validator_of(s.last().0, s.last().1);
        assert(rest.push(v).drop_last() =~= rest);
    }
}

proof fn lemma_seated_sum(s: Seq<ValidatorV>, x: ValidatorV)
    ensures
        staking::stake_sum(staking::seated(s, x)) == staking::stake_sum(s) + x.stake,
    decreases s.len(),
{
    if s.len() == 0 || !staking::heavier(x, s.last()) {
        assert(s.push(x).drop_last() =~= s);
    } else {
        lemma_seated_sum(s.drop_last(), x);
        let q = staking::seated(s.drop_last(), x);
        assert(q.push(s.last()).drop_last() =~= q);
    }
}

proof fn lemma_by_stake_sum(s: Seq<ValidatorV>)
    ensures
        staking::stake_sum(staking::by_stake(s)) == staking::stake_sum(s),
        staking::by_stake(s).len() == s.len(),
    decreases s.len(),
{
    if s.len() > 0 {
        lemma_by_stake_sum(s.drop_last());
        lemma_seated_sum(staking::by_stake(s.drop_last()), s.last());
        lemma_seated_len(staking::by_stake(s.drop_last()), s.last());
    }
}

proof fn lemma_seated_len(s: Seq<ValidatorV>, x: ValidatorV)
    ensures
        staking::seated(s, x).len() == s.len() + 1,
    decreases s.len(),
{
    if !(s.len() == 0 || !staking::heavier(x, s.last())) {
        lemma_seated_len(s.drop_last(), x);
    }
}

proof fn lemma_take_sum(s: Seq<ValidatorV>, k: int)
    requires
        0 <= k <= s.len(),
    ensures
        staking::stake_sum(s.take(k)) <= staking::stake_sum(s),
    decreases s.len(),
{
    if k == s.len() {
        assert(s.take(k) =~= s);
    } else {
        lemma_take_sum(s.drop_last(), k);
        assert(s.drop_last().take(k) =~= s.take(k));
    }
}

proof fn lemma_placed_sum(s: Seq<ValidatorV>, x: ValidatorV)
    ensures
        staking::stake_sum(rank::placed::<staking::Validator>(s, x)) == staking::stake_sum(s)
            + x.stake,
    decreases s.len(),
{
    if s.len() == 0 || !<staking::Validator as rank::Ranked>::ahead(x, s.last()) {
        assert(s.push(x).drop_last() =~= s);
    } else {
        lemma_placed_sum(s.drop_last(), x);
        let q = rank::placed::<staking::Validator>(s.drop_last(), x);
        assert(q.push(s.last()).drop_last() =~= q);
    }
}

proof fn lemma_ranked_sum(s: Seq<ValidatorV>)
    ensures
        staking::stake_sum(rank::ranked::<staking::Validator>(s)) == staking::stake_sum(s),
    decreases s.len(),
{
    if s.len() > 0 {
        lemma_ranked_sum(s.drop_last());
        lemma_placed_sum(rank::ranked::<staking::Validator>(s.drop_last()), s.last());
    }
}

/// The stake of a validator set is part of the supply.
pub proof fn law_stake_is_within_supply(db: Db, height: u64)
    requires
        steady(db),
    ensures
        staking::stake_sum(staking::set_at(db, height)) <= state::supply_of(db),
{
    lemma_stakers_mirror(db);
    let s = state::stakers_of(db);
    lemma_staked_within(db, s);
    lemma_active_sum(s, height);
    let a = staking::active_among(s, height);
    lemma_by_stake_sum(a);
    if height >= staking::VALIDATOR_CAP_ACTIVATION_HEIGHT && a.len() > staking::MAX_VALIDATORS {
        lemma_take_sum(staking::by_stake(a), staking::MAX_VALIDATORS as int);
        lemma_ranked_sum(staking::by_stake(a).take(staking::MAX_VALIDATORS as int));
    }
}

proof fn lemma_shared_out(db: Db, s: Seq<ValidatorV>, total: nat)
    requires
        steady(db),
    ensures
        steady(staking::shared_out(db, s, total)),
        within(db, staking::shared_out(db, s, total)),
    decreases s.len(),
{
    if s.len() > 0 {
        lemma_shared_out(db, s.drop_last(), total);
        let d = staking::shared_out(db, s.drop_last(), total);
        let a = s.last().address;
        lemma_account_step(
            d,
            a,
            staking::rewarded(state::account_of(d, a), staking::cut_of(s.last(), total)),
        );
    }
}

proof fn lemma_paid(db: Db, leader: Seq<char>, fees: nat)
    requires
        steady(db),
    ensures
        steady(staking::paid(db, leader, fees)),
        within(db, staking::paid(db, leader, fees)),
{
    let s = staking::set_at(db, staking::next_height(db));
    let total = types::cap128(staking::stake_sum(s)) as nat;
    if s.len() == 0 || total == 0 {
        lemma_account_step(
            db,
            leader,
            staking::led(
                state::account_of(db, leader),
                fees + staking::BLOCK_REWARD as nat,
                staking::BLOCK_REWARD as nat,
            ),
        );
    } else {
        lemma_shared_out(db, s, total);
        let d = staking::shared_out(db, s, total);
        let r = staking::leader_reward(s, total);
        lemma_account_step(
            d,
            leader,
            staking::led(state::account_of(d, leader), fees + r, r),
        );
    }
}

/// What settling a block burns.
pub open spec fn settling_cost(
    f: FixedV,
    db: Db,
    height: u64,
    parent: Seq<char>,
    producer: Seq<char>,
) -> nat {
    silence_cost(
        f,
        staking::all_released(db, state::stakers_of(db), height),
        height,
        parent,
        producer,
    )
}

/// Settling a block releases what matured, charges what was missed and pays out fees
/// and reward: the supply grows by exactly fees and reward less what missed slots cost.
pub proof fn law_settling_conserves_supply(
    f: FixedV,
    db: Db,
    height: u64,
    parent: Seq<char>,
    producer: Seq<char>,
    fees: nat,
)
    requires
        steady(db),
        state::supply_of(db) + fees + staking::BLOCK_REWARD <= u128::MAX,
    ensures
        ({
            let g = chain::settled(f, db, height, parent, producer, fees);
            &&& steady(g)
            &&& within(db, g)
            &&& state::supply_of(g) + settling_cost(f, db, height, parent, producer)
                == state::supply_of(db) + fees + staking::BLOCK_REWARD
            &&& height < f.params.slashing_activation ==> settling_cost(
                f,
                db,
                height,
                parent,
                producer,
            ) == 0
        }),
{
    let s = state::stakers_of(db);
    lemma_stakers_mirror(db);
    lemma_released(db, s, height);
    staking::law_release_conserves_supply(db, s, height);
    let d = staking::all_released(db, s, height);
    law_liveness_never_mints(f, d, height, parent, producer);
    let e = slashing::lived(f, d, height, parent, producer);
    if height < f.params.slashing_activation {
        slashing::law_liveness_is_gated(f, d, height, parent, producer);
    }
    law_stake_is_within_supply(e, staking::next_height(e));
    staking::law_rewards_are_conserved(e, producer, fees);
    lemma_paid(e, producer, fees);
}

/// What a block burns: by reports and by missed slots.
pub open spec fn block_burn(
    f: FixedV,
    db: Db,
    txs: Seq<TxV>,
    height: u64,
    parent: Seq<char>,
    producer: Seq<char>,
) -> nat {
    burned_by_all(db, txs, height) + match chain::replayed(db, txs, height) {
        Ok((d, _)) => settling_cost(f, d, height, parent, producer),
        Err(_) => 0,
    }
}

/// A block adds exactly the block reward to the supply, less what it burns; and it burns
/// nothing when it carries no report and missed slots cost nothing yet.
pub proof fn law_block_adds_the_reward(
    f: FixedV,
    db: Db,
    txs: Seq<TxV>,
    height: u64,
    parent: Seq<char>,
    producer: Seq<char>,
)
    requires
        steady(db),
        state::supply_of(db) + staking::BLOCK_REWARD <= u128::MAX,
        chain::replayed(db, txs, height) is Ok,
    ensures
        ({
            let (d, fees) = chain::replayed(db, txs, height)->Ok_0;
            let g = chain::settled(f, d, height, parent, producer, fees as nat);
            &&& steady(g)
            &&& within(db, g)
            &&& state::supply_of(g) + block_burn(f, db, txs, height, parent, producer)
                == state::supply_of(db) + staking::BLOCK_REWARD
            &&& height < f.params.slashing_activation && no_reports(txs) ==> block_burn(
                f,
                db,
                txs,
                height,
                parent,
                producer,
            ) == 0
        }),
{
    law_transactions_conserve_supply(db, txs, height);
    let (d, fees) = chain::replayed(db, txs, height)->Ok_0;
    law_settling_conserves_supply(f, d, height, parent, producer, fees as nat);
}

// ---------------------------------------------------------------- where chains start

/// An empty map can be walked.
pub proof fn lemma_empty_tabular()
    ensures
        table::tabular(Map::<Seq<u8>, CellV>::empty()),
{
    let s = Seq::<(Seq<u8>, CellV)>::empty();
    assert(table::increasing(s) && table::map_of(s) == Map::<Seq<u8>, CellV>::empty());
}

/// A database without accounts and stakers is steady and holds no coins.
pub proof fn lemma_bare_is_steady(db: Db)
    requires
        db.len() == 16,
        db[0] == Map::<Seq<u8>, CellV>::empty(),
        db[4] == Map::<Seq<u8>, CellV>::empty(),
    ensures
        steady(db),
        state::supply_of(db) == 0,
{
    lemma_empty_tabular();
    table::lemma_tabular(db[0]);
    let s = table::ordered(db[0]);
    if s.len() > 0 {
        table::lemma_map_of_dom(s, s[0].0);
    }
}

/// What genesis funds an account with, spendable and bonded.
pub open spec fn grant_of(a: AllocV) -> nat {
    text::fixed_value(a.balance, 9)->Ok_0 as nat + match a.stake {
        Some(t) => text::fixed_value(t, 9)->Ok_0 as nat,
        None => 0,
    }
}

/// What genesis funds all accounts with.
pub open spec fn grants_of(s: Seq<AllocV>) -> nat
    decreases s.len(),
{
    if s.len() == 0 {
        0
    } else {
        grants_of(s.drop_last()) + grant_of(s.last())
    }
}

proof fn lemma_funded(db: Db, s: Seq<AllocV>)
    requires
        steady(db),
        chain::funded(db, s) is Ok,
    ensures
        steady(chain::funded(db, s)->Ok_0),
        state::supply_of(chain::funded(db, s)->Ok_0) == state::supply_of(db) + grants_of(s),
    decreases s.len(),
{
    if s.len() > 0 {
        lemma_funded(db, s.drop_last());
        let d = chain::funded(db, s.drop_last())->Ok_0;
        let a = s.last();
        let acct = state::account_of(d, a.address);
        let b = text::fixed_value(a.balance, 9)->Ok_0;
        let funded = AccountV { balance: (acct.balance + b) as u128, ..acct };
        let v = match a.stake {
            None => funded,
            Some(t) => AccountV {
                staked: (acct.staked + text::fixed_value(t, 9)->Ok_0) as u128,
                ..funded
            },
        };
        lemma_account_step(d, a.address, v);
    }
}

/// A chain starts steady, over an empty database or a wiped one, and its supply is what
/// genesis grants.
pub proof fn law_genesis_is_steady(n: NodeV)
    requires
        n.db.len() == 16,
        n.db[0] == Map::<Seq<u8>, CellV>::empty(),
        n.db[4] == Map::<Seq<u8>, CellV>::empty(),
        chain::started(n) is Ok,
    ensures
        steady(chain::started(n)->Ok_0.1),
        state::supply_of(chain::started(n)->Ok_0.1) == grants_of(n.alloc),
{
    lemma_bare_is_steady(n.db);
    lemma_funded(n.db, n.alloc);
    let d = chain::funded(n.db, n.alloc)->Ok_0;
    let (b, e) = chain::started(n)->Ok_0;
    supply::lemma_block_stored(d, b);
    supply::lemma_supply_frame(d, e);
}

// ---------------------------------------------------------------- joining

/// Whether an address has a seat in a set.
pub open spec fn seated(set: Seq<ValidatorV>, a: Seq<char>) -> bool {
    exists|i: int| 0 <= i < set.len() && (#[trigger] set[i]).address == a
}

/// Whoever is active among accounts is listed.
proof fn lemma_active_is_listed(s: Seq<(Seq<char>, AccountV)>, k: int, height: u64)
    requires
        0 <= k < s.len(),
        s[k].1.active(height),
    ensures
        seated(staking::active_among(s, height), s[k].0),
    decreases s.len(),
{
    let all = staking::active_among(s, height);
    if k == s.len() - 1 {
        assert(all[all.len() - 1].address == s[k].0);
    } else {
        let d = s.drop_last();
        lemma_active_is_listed(d, k, height);
        let rest = staking::active_among(d, height);
        let i = choose|i: int| 0 <= i < rest.len() && (#[trigger] rest[i]).address == d[k].0;
        assert(all[i] == rest[i]);
    }
}

/// An account that is written with a stake and active is listed.
proof fn lemma_bonded_is_listed(db: Db, a: Seq<char>, v: AccountV, height: u64)
    requires
        steady(db),
        v.staked > 0,
        v.active(height),
    ensures
        ({
            let all = staking::active_among(
                state::stakers_of(state::with_account(db, a, v)),
                height,
            );
            seated(all, a)
        }),
{
    let d = state::with_account(db, a, v);
    supply::lemma_account_after(db, a, v, a);
    lemma_account_step(db, a, v);
    let rows = table::ordered(d[4]);
    table::lemma_tabular(d[4]);
    let k = text::utf8(a);
    assert(d[4].contains_key(k));
    table::lemma_map_of_dom(rows, k);
    let r = choose|r: int| 0 <= r < rows.len() && (#[trigger] rows[r]).0 == k;
    text::lemma_lossy_round_trip(a);
    let cells = state::staker_cells(d, rows);
    assert(cells[r] == (a, v));
    let s = state::stakers_of(d);
    rank::law_ranking_keeps_values::<(String, types::Account)>(cells);
    lemma_ranked_member(s, cells, r);
    let j = choose|j: int| 0 <= j < s.len() && #[trigger] s[j] == cells[r];
    lemma_active_is_listed(s, j, height);
}

/// What staking writes: the sender's account, with more staked and less to spend.
proof fn lemma_staked(db: Db, tx: TxV, height: u64) -> (v: AccountV)
    requires
        tx.kind is Stake,
        apply::applied(db, tx, height) is Ok,
    ensures
        apply::applied(db, tx, height)->Ok_0.1 == state::with_account(
            db,
            tx.sender()->Some_0,
            v,
        ),
{
    let sender = tx.sender()->Some_0;
    let a = apply::debited(state::account_of(db, sender), tx);
    AccountV { staked: (a.staked + tx.amount) as u128, ..a }
}

/// A set that is not full seats every active validator.
proof fn lemma_open_seats(db: Db, height: u64)
    requires
        height < staking::VALIDATOR_CAP_ACTIVATION_HEIGHT || staking::active_among(
            state::stakers_of(db),
            height,
        ).len() <= staking::MAX_VALIDATORS,
    ensures
        staking::set_at(db, height) == staking::active_among(state::stakers_of(db), height),
{
}

/// Whoever stakes enough is in the validator set of the next block, unless jailed then or
/// outweighed by a full set.
pub proof fn law_stake_enters_the_set(db: Db, tx: TxV, height: u64, fee: nat, d: Db)
    requires
        steady(db),
        tx.kind is Stake,
        height < u64::MAX,
        apply::applied(db, tx, height) == Ok::<(nat, Db), Seq<char>>((fee, d)),
        state::account_of(d, tx.sender()->Some_0).active((height + 1) as u64),
        height + 1 < staking::VALIDATOR_CAP_ACTIVATION_HEIGHT || staking::active_among(
            state::stakers_of(d),
            (height + 1) as u64,
        ).len() <= staking::MAX_VALIDATORS,
    ensures
        seated(staking::set_at(d, (height + 1) as u64), tx.sender()->Some_0),
{
    let sender = tx.sender()->Some_0;
    let v = lemma_staked(db, tx, height);
    supply::lemma_account_after(db, sender, v, sender);
    lemma_bonded_is_listed(db, sender, v, (height + 1) as u64);
    lemma_open_seats(d, (height + 1) as u64);
}

} // verus!
