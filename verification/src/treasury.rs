//! What holds of native tokens across every transaction: what is in circulation is what
//! is held, and nobody but the creator of a mintable token can add to it.

use crate::apply;
use crate::chain;
use crate::contracts;
use crate::journal::CellV;
use crate::journal::Db;
use crate::slashing;
use crate::slashing::EvidenceV;
use crate::staking;
use crate::state;
use crate::supply;
use crate::table;
use crate::text;
use crate::tokens;
use crate::tokens::TokenV;
use crate::types::AccountV;
use crate::types::TxKind;
use crate::types::TxV;
use vstd::prelude::*;
use vstd::string::*;

verus! {

/// A text without a colon, as every token id is.
pub open spec fn colon_free(s: Seq<char>) -> bool {
    forall|i: int| 0 <= i < s.len() ==> #[trigger] s[i] != ':'
}

/// Whether a key of the balance table belongs to a token: it reads as the token's id, a
/// colon and an address.
pub open spec fn belongs(k: Seq<u8>, id: Seq<char>) -> bool {
    let t = text::lossy(k);
    t.len() > id.len() && t.take(id.len() as int) == id && t[id.len() as int] == ':'
}

/// Units of a token that an entry of the balance table stands for.
pub open spec fn units_at(e: (Seq<u8>, CellV), id: Seq<char>) -> nat {
    if belongs(e.0, id) {
        match e.1 {
            CellV::Bytes(b) => match text::parsed_upto(text::lossy(b), u128::MAX as nat) {
                Some(n) => n,
                None => 0,
            },
            _ => 0,
        }
    } else {
        0
    }
}

/// Units of a token that entries of the balance table stand for.
pub open spec fn units_in(s: Seq<(Seq<u8>, CellV)>, id: Seq<char>) -> nat
    decreases s.len(),
{
    if s.len() == 0 {
        0
    } else {
        units_in(s.drop_last(), id) + units_at(s.last(), id)
    }
}

/// Units of a token that all holders hold together.
pub open spec fn held(db: Db, id: Seq<char>) -> nat {
    units_in(table::ordered(db[6]), id)
}

/// Units of a token in circulation; none of a token that does not exist.
pub open spec fn circulating(db: Db, id: Seq<char>) -> nat {
    match state::token_of(db, id) {
        Some(t) => t.supply as nat,
        None => 0,
    }
}

/// Every token is registered under its own id, and what is in circulation of it is what
/// its holders hold.
pub open spec fn backed(db: Db) -> bool {
    &&& db.len() == 16
    &&& table::tabular(db[6])
    &&& forall|id: Seq<char>| (#[trigger] state::token_of(db, id)) matches Some(t) ==> t.id == id
        && colon_free(id)
    &&& forall|id: Seq<char>| colon_free(id) ==> #[trigger] circulating(db, id) == held(db, id)
}

// ---------------------------------------------------------------- sums

proof fn lemma_units_insert(s: Seq<(Seq<u8>, CellV)>, i: int, e: (Seq<u8>, CellV), id: Seq<char>)
    requires
        0 <= i <= s.len(),
    ensures
        units_in(s.insert(i, e), id) == units_in(s, id) + units_at(e, id),
    decreases s.len(),
{
    let t = s.insert(i, e);
    if i == s.len() {
        assert(t.drop_last() =~= s);
    } else {
        lemma_units_insert(s.drop_last(), i, e, id);
        assert(t.drop_last() =~= s.drop_last().insert(i, e));
        assert(t.last() == s.last());
    }
}

proof fn lemma_units_remove(s: Seq<(Seq<u8>, CellV)>, i: int, id: Seq<char>)
    requires
        0 <= i < s.len(),
    ensures
        units_in(s.remove(i), id) + units_at(s[i], id) == units_in(s, id),
{
    lemma_units_insert(s.remove(i), i, s[i], id);
    assert(s.remove(i).insert(i, s[i]) =~= s);
}

proof fn lemma_units_update(s: Seq<(Seq<u8>, CellV)>, i: int, e: (Seq<u8>, CellV), id: Seq<char>)
    requires
        0 <= i < s.len(),
    ensures
        units_in(s.update(i, e), id) + units_at(s[i], id) == units_in(s, id) + units_at(e, id),
{
    lemma_units_remove(s, i, id);
    lemma_units_remove(s.update(i, e), i, id);
    assert(s.update(i, e).remove(i) =~= s.remove(i));
}

/// The key of a balance belongs to its token and to no other.
proof fn lemma_belongs(t: Seq<char>, a: Seq<char>, id: Seq<char>)
    requires
        colon_free(t),
        colon_free(id),
    ensures
        belongs(text::utf8(state::joined(t, a)), id) == (t == id),
{
    reveal_strlit(":");
    let k = state::joined(t, a);
    text::lemma_lossy_round_trip(k);
    assert(k[t.len() as int] == ':');
    assert(k.take(t.len() as int) =~= t);
    if belongs(text::utf8(k), id) {
        if id.len() < t.len() {
            assert(k[id.len() as int] == t[id.len() as int]);
        } else if id.len() > t.len() {
            assert(k.take(id.len() as int)[t.len() as int] == k[t.len() as int]);
            assert(id[t.len() as int] == ':');
        }
        assert(t =~= id);
    }
}

/// Writing a balance changes what is held of that token by what the holder gains or
/// loses, and of no other token.
proof fn lemma_balance_step(db: Db, t: Seq<char>, a: Seq<char>, n: nat, id: Seq<char>)
    requires
        db.len() == 16,
        table::tabular(db[6]),
        colon_free(t),
        colon_free(id),
        n <= u128::MAX,
    ensures
        ({
            let d = state::with_token_balance(db, t, a, n);
            &&& d.len() == 16
            &&& d[5] == db[5]
            &&& table::tabular(d[6])
            &&& t == id ==> held(d, id) + state::token_balance_of(db, t, a) == held(db, id) + n
            &&& t != id ==> held(d, id) == held(db, id)
        }),
{
    let k = text::utf8(state::joined(t, a));
    let m = db[6];
    lemma_belongs(t, a, id);
    if n == 0 {
        if m.contains_key(k) {
            let i = table::lemma_walk_del(m, k);
            lemma_units_remove(table::ordered(m), i, id);
        } else {
            assert(m.remove(k) =~= m);
        }
    } else {
        let v = text::utf8(text::dec(n));
        let c = CellV::Bytes(v);
        text::lemma_lossy_round_trip(text::dec(n));
        text::lemma_parsed_dec(n);
        if m.contains_key(k) {
            let i = table::lemma_walk_put(m, k, c);
            lemma_units_update(table::ordered(m), i, (k, c), id);
        } else {
            let i = table::lemma_walk_put_fresh(m, k, c);
            lemma_units_insert(table::ordered(m), i, (k, c), id);
        }
    }
}

proof fn lemma_units_member(s: Seq<(Seq<u8>, CellV)>, i: int, id: Seq<char>)
    requires
        0 <= i < s.len(),
    ensures
        units_at(s[i], id) <= units_in(s, id),
{
    lemma_units_remove(s, i, id);
}

/// Nobody holds more of a token than there is.
pub proof fn law_nobody_holds_more_than_the_supply(db: Db, id: Seq<char>, a: Seq<char>)
    requires
        backed(db),
        colon_free(id),
    ensures
        state::token_balance_of(db, id, a) <= circulating(db, id),
{
    let k = text::utf8(state::joined(id, a));
    lemma_belongs(id, a, id);
    assert(circulating(db, id) == held(db, id));
    if db[6].contains_key(k) {
        let i = table::lemma_walk_put(db[6], k, db[6][k]);
        lemma_units_member(table::ordered(db[6]), i, id);
    }
}

/// A database without tokens is backed.
pub proof fn law_backing_starts_with_none(db: Db)
    requires
        db.len() == 16,
        db[5] == Map::<Seq<u8>, CellV>::empty(),
        db[6] == Map::<Seq<u8>, CellV>::empty(),
    ensures
        backed(db),
{
    let none = Seq::<(Seq<u8>, CellV)>::empty();
    assert(table::increasing(none) && table::map_of(none) == db[6]);
    table::lemma_tabular(db[6]);
    let s = table::ordered(db[6]);
    if s.len() > 0 {
        table::lemma_map_of_dom(s, s[0].0);
        assert(table::map_of(s).contains_key(s[0].0));
    }
    assert forall|id: Seq<char>| colon_free(id) implies #[trigger] circulating(db, id) == held(
        db,
        id,
    ) by {
        assert(state::token_of(db, id) is None);
    }
}

// ---------------------------------------------------------------- steps

/// Token ids have no colon.
proof fn lemma_id_is_colon_free(creator: Seq<char>, nonce: nat, symbol: Seq<char>)
    ensures
        colon_free(tokens::token_id_of(creator, nonce, symbol)),
{
    reveal_strlit("tk");
    let id = tokens::token_id_of(creator, nonce, symbol);
    assert forall|i: int| 0 <= i < id.len() implies #[trigger] id[i] != ':' by {}
}

/// Registering a token changes that token and no other.
proof fn lemma_token_step(db: Db, t: TokenV, id: Seq<char>)
    requires
        db.len() == 16,
    ensures
        ({
            let d = state::with_token(db, t);
            &&& d.len() == 16
            &&& d[6] == db[6]
            &&& state::token_of(d, id) == if id == t.id {
                Some(t)
            } else {
                state::token_of(db, id)
            }
        }),
{
    if text::utf8(id) == text::utf8(t.id) {
        text::lemma_utf8_injective(id, t.id);
    }
}

/// What of a token never changes.
pub open spec fn same_terms(t: TokenV, u: TokenV) -> bool {
    &&& u.id == t.id
    &&& u.symbol == t.symbol
    &&& u.name == t.name
    &&& u.decimals == t.decimals
    &&& u.creator == t.creator
    &&& u.mintable == t.mintable
    &&& u.created_height == t.created_height
}

/// One token changed, in its supply and its count of holders only.
pub open spec fn only_changes(db: Db, d: Db, id: Seq<char>) -> bool {
    &&& forall|o: Seq<char>| o != id ==> #[trigger] state::token_of(d, o) == state::token_of(db, o)
    &&& match (state::token_of(db, id), state::token_of(d, id)) {
        (Some(t), Some(u)) => same_terms(t, u),
        _ => false,
    }
}

proof fn lemma_credit(db: Db, id: Seq<char>, a: Seq<char>, n: nat)
    requires
        backed(db),
        state::token_of(db, id) is Some,
        state::credited(db, id, a, n).0 is Ok,
    ensures
        backed(state::credited(db, id, a, n).1),
        only_changes(db, state::credited(db, id, a, n).1, id),
        circulating(state::credited(db, id, a, n).1, id) == circulating(db, id) + n,
{
    let before = state::token_balance_of(db, id, a);
    let t = state::token_of(db, id)->Some_0;
    let d = state::credited(db, id, a, n).1;
    let u = TokenV {
        supply: (t.supply + n) as u128,
        holders: if before == 0 && n > 0 && t.holders < u64::MAX {
            (t.holders + 1) as u64
        } else {
            t.holders
        },
        ..t
    };
    let e = state::with_token(db, u);
    lemma_token_step(db, u, id);
    assert(e[6] == db[6]);
    assert(state::token_balance_of(e, id, a) == before);
    assert(d == state::with_token_balance(e, id, a, before + n));
    lemma_balance_step(e, id, a, before + n, id);
    assert(d[5] == e[5]);
    assert forall|o: Seq<char>| #[trigger] state::token_of(d, o) == state::token_of(e, o) by {}
    assert forall|o: Seq<char>| o != id implies #[trigger] state::token_of(d, o)
        == state::token_of(db, o) by {
        lemma_token_step(db, u, o);
        assert(state::token_of(d, o) == state::token_of(e, o));
    }
    assert forall|o: Seq<char>| colon_free(o) implies #[trigger] circulating(d, o) == held(d, o) by {
        assert(circulating(db, o) == held(db, o));
        lemma_balance_step(e, id, a, before + n, o);
        assert(held(e, o) == held(db, o));
        lemma_token_step(db, u, o);
        assert(state::token_of(d, o) == state::token_of(e, o));
    }
    assert forall|o: Seq<char>| (#[trigger] state::token_of(d, o)) is Some implies (
    state::token_of(d, o)->Some_0.id == o && colon_free(o)) by {
        lemma_token_step(db, u, o);
        assert(state::token_of(d, o) == state::token_of(e, o));
        if o != id {
            assert(state::token_of(db, o) is Some);
        }
    }
}

proof fn lemma_debit(db: Db, id: Seq<char>, a: Seq<char>, n: nat)
    requires
        backed(db),
        state::token_of(db, id) is Some,
        state::debited(db, id, a, n).0 is Ok,
    ensures
        backed(state::debited(db, id, a, n).1),
        only_changes(db, state::debited(db, id, a, n).1, id),
        circulating(state::debited(db, id, a, n).1, id) + n == circulating(db, id),
{
    let before = state::token_balance_of(db, id, a);
    let after = (before - n) as nat;
    let t = state::token_of(db, id)->Some_0;
    let d = state::debited(db, id, a, n).1;
    law_nobody_holds_more_than_the_supply(db, id, a);
    assert(before <= t.supply);
    let e = state::with_token_balance(db, id, a, after);
    lemma_balance_step(db, id, a, after, id);
    assert(e[5] == db[5]);
    assert(state::token_of(e, id) == Some(t));
    let u = TokenV {
        supply: (t.supply - n) as u128,
        holders: if after == 0 && t.holders > 0 {
            (t.holders - 1) as u64
        } else {
            t.holders
        },
        ..t
    };
    assert(d == state::with_token(e, u));
    lemma_token_step(e, u, id);
    assert forall|o: Seq<char>| #[trigger] state::token_of(e, o) == state::token_of(db, o) by {}
    assert forall|o: Seq<char>| o != id implies #[trigger] state::token_of(d, o)
        == state::token_of(db, o) by {
        lemma_token_step(e, u, o);
        assert(state::token_of(e, o) == state::token_of(db, o));
    }
    assert forall|o: Seq<char>| colon_free(o) implies #[trigger] circulating(d, o) == held(d, o) by {
        assert(circulating(db, o) == held(db, o));
        lemma_balance_step(db, id, a, after, o);
        assert(d[6] == e[6]);
        lemma_token_step(e, u, o);
        assert(state::token_of(e, o) == state::token_of(db, o));
    }
    assert forall|o: Seq<char>| (#[trigger] state::token_of(d, o)) is Some implies (
    state::token_of(d, o)->Some_0.id == o && colon_free(o)) by {
        lemma_token_step(e, u, o);
        assert(state::token_of(e, o) == state::token_of(db, o));
    }
}

/// Registering a token that did not exist keeps the backing: nothing of it is held.
proof fn lemma_create(db: Db, t: TokenV)
    requires
        backed(db),
        state::token_of(db, t.id) is None,
        colon_free(t.id),
        t.supply == 0,
    ensures
        backed(state::with_token(db, t)),
        state::token_of(state::with_token(db, t), t.id) == Some(t),
        forall|o: Seq<char>|
            o != t.id ==> #[trigger] state::token_of(state::with_token(db, t), o)
                == state::token_of(db, o),
{
    let d = state::with_token(db, t);
    lemma_token_step(db, t, t.id);
    assert forall|o: Seq<char>| o != t.id implies #[trigger] state::token_of(d, o)
        == state::token_of(db, o) by {
        lemma_token_step(db, t, o);
    }
    assert forall|o: Seq<char>| colon_free(o) implies #[trigger] circulating(d, o) == held(d, o) by {
        assert(circulating(db, o) == held(db, o));
        lemma_token_step(db, t, o);
    }
    assert forall|o: Seq<char>| (#[trigger] state::token_of(d, o)) is Some implies (
    state::token_of(d, o)->Some_0.id == o && colon_free(o)) by {
        lemma_token_step(db, t, o);
    }
}

// ---------------------------------------------------------------- other transactions

/// Tokens and their balances are as they were.
pub open spec fn tokens_kept(db: Db, d: Db) -> bool {
    d.len() == 16 && d[5] == db[5] && d[6] == db[6]
}

proof fn lemma_stored(db: Db, c: Seq<char>, ws: Seq<(Seq<char>, Option<Seq<u8>>)>)
    requires
        db.len() == 16,
    ensures
        tokens_kept(db, apply::stored(db, c, ws)),
    decreases ws.len(),
{
    if ws.len() > 0 {
        lemma_stored(db, c, ws.drop_last());
    }
}

proof fn lemma_moved(db: Db, c: Seq<char>, ms: Seq<(Seq<char>, u128)>)
    requires
        db.len() == 16,
        apply::moved(db, c, ms) is Ok,
    ensures
        tokens_kept(db, apply::moved(db, c, ms)->Ok_0),
    decreases ms.len(),
{
    if ms.len() > 0 {
        lemma_moved(db, c, ms.drop_last());
    }
}

proof fn lemma_called(db: Db, tx: TxV, sender: Seq<char>, height: u64)
    requires
        db.len() == 16,
        apply::called(db, tx, sender, height) is Ok,
    ensures
        tokens_kept(db, apply::called(db, tx, sender, height)->Ok_0),
{
    let d = apply::attached(db, tx.to, tx.amount as nat)->Ok_0;
    assert(tokens_kept(db, d));
    let c = contracts::callable(db, tx.to)->Ok_0;
    let o = contracts::executed(
        d,
        tx.to,
        sender,
        state::code_of(db, c.code_hash)->Some_0,
        contracts::args_in(tx.payload)->Ok_0,
        tx.amount,
        height,
        contracts::fuel_of(tx.fee as nat) as u64,
    );
    let e = state::with_receipt(
        d,
        tx.hash_text(),
        contracts::receipt_for(o, tx.to, sender, height),
    );
    assert(tokens_kept(db, e));
    if o.ok {
        lemma_stored(e, tx.to, o.writes);
        lemma_moved(apply::stored(e, tx.to, o.writes), tx.to, o.transfers);
    }
}

proof fn lemma_deployed(db: Db, tx: TxV, sender: Seq<char>, height: u64)
    requires
        db.len() == 16,
        apply::deployed(db, tx, sender, height) is Ok,
    ensures
        tokens_kept(db, apply::deployed(db, tx, sender, height)->Ok_0),
{
    let code = contracts::code_in(tx.payload)->Ok_0;
    let c = apply::fresh_contract(sender, tx.nonce as nat, code, height);
    let d = state::with_contract(state::with_code(db, c.code_hash, code), c);
    assert(tokens_kept(db, d));
    let acct = state::account_of(d, c.address);
    supply::lemma_account_frame(
        d,
        c.address,
        AccountV { balance: (acct.balance + tx.amount) as u128, ..acct },
    );
}

proof fn lemma_reported(db: Db, height: u64, reporter: Seq<char>, e: EvidenceV)
    requires
        db.len() == 16,
        slashing::reported(db, height, reporter, e) is Ok,
    ensures
        tokens_kept(db, slashing::reported(db, height, reporter, e)->Ok_0.1),
{
    let offender = e.verdict()->Ok_0;
    let p = slashing::punished(
        state::account_of(db, offender),
        slashing::pct_for(db, offender),
    );
    supply::lemma_account_frame(db, offender, p);
    let d = state::with_account(db, offender, p);
    let rec = slashing::record_of(db, height, reporter, e, offender);
    let r = state::account_of(d, reporter);
    let q = AccountV { balance: staking::capped_sum(r.balance, rec.bounty as nat), ..r };
    supply::lemma_account_frame(d, reporter, q);
}

/// What is not about tokens leaves tokens alone.
proof fn lemma_others_keep_tokens(db: Db, tx: TxV, height: u64)
    requires
        db.len() == 16,
        apply::applied(db, tx, height) is Ok,
        !(tx.kind is CreateToken) && !(tx.kind is MintToken) && !(tx.kind is TokenTransfer) && !(
        tx.kind is BurnToken),
    ensures
        tokens_kept(db, apply::applied(db, tx, height)->Ok_0.1),
{
    let sender = tx.sender()->Some_0;
    let b = apply::debited(state::account_of(db, sender), tx);
    let d = state::with_account(db, sender, b);
    supply::lemma_account_frame(db, sender, b);
    assert(tokens_kept(db, d));
    match tx.kind {
        TxKind::CallContract => {
            lemma_called(d, tx, sender, height);
        },
        TxKind::DeployContract => {
            lemma_deployed(d, tx, sender, height);
        },
        TxKind::ReportEquivocation => {
            let e = slashing::report_verdict(d, height, tx.payload)->Ok_0;
            lemma_reported(d, height, sender, e);
        },
        _ => {},
    }
}

/// A database with the same tokens and balances is as well backed.
proof fn lemma_kept_is_backed(db: Db, d: Db)
    requires
        backed(db),
        tokens_kept(db, d),
    ensures
        backed(d),
        forall|o: Seq<char>| #[trigger] state::token_of(d, o) == state::token_of(db, o),
{
    assert forall|o: Seq<char>| #[trigger] state::token_of(d, o) == state::token_of(db, o) by {}
    assert forall|o: Seq<char>| colon_free(o) implies #[trigger] circulating(d, o) == held(d, o) by {
        assert(circulating(db, o) == held(db, o));
    }
}

// ---------------------------------------------------------------- laws

/// What the four token transactions do, on a database whose sender has been debited.
proof fn lemma_token_effect(db: Db, tx: TxV, sender: Seq<char>, height: u64, d: Db, id: Seq<char>)
    requires
        backed(db),
        match tx.kind {
            TxKind::CreateToken => tokens::created(
                db,
                sender,
                tx.nonce as nat,
                tx.amount as nat,
                height,
                tx.payload,
            ) matches Ok(p) && p.1 == d,
            TxKind::MintToken => tokens::minted(db, sender, tx.to, tx.amount as nat, tx.payload)
                == Ok::<Db, Seq<char>>(d),
            TxKind::TokenTransfer => tokens::transferred(
                db,
                sender,
                tx.to,
                tx.amount as nat,
                tx.payload,
            ) == Ok::<Db, Seq<char>>(d),
            TxKind::BurnToken => tokens::burnt(db, sender, tx.amount as nat, tx.payload) == Ok::<
                Db,
                Seq<char>,
            >(d),
            _ => false,
        },
    ensures
        backed(d),
        state::token_of(db, id) matches Some(t) ==> {
            &&& state::token_of(d, id) matches Some(u)
            &&& same_terms(t, u)
            &&& u.supply > t.supply ==> tx.kind is MintToken && t.mintable && t.creator == sender
        },
{
    let p = tx.payload->Some_0;
    let n = tx.amount as nat;
    match tx.kind {
        TxKind::CreateToken => {
            let symbol = tokens::symbol_of(p.symbol)->Ok_0;
            let t = tokens::fresh_token(sender, tx.nonce as nat, symbol, height, p);
            lemma_id_is_colon_free(sender, tx.nonce as nat, symbol);
            lemma_create(db, t);
            if n > 0 {
                lemma_credit(state::with_token(db, t), t.id, sender, n);
            }
            if state::token_of(db, id) is Some {
                assert(id != t.id);
                assert(state::token_of(state::with_token(db, t), id) == state::token_of(db, id));
                assert(state::token_of(d, id) == state::token_of(db, id));
            }
        },
        TxKind::MintToken => {
            let t = state::token_of(db, p.token)->Some_0;
            lemma_credit(db, t.id, tx.to, n);
            if id != t.id {
                assert(state::token_of(d, id) == state::token_of(db, id));
            }
        },
        TxKind::TokenTransfer => {
            let t = state::token_of(db, p.token)->Some_0;
            if sender != tx.to {
                lemma_debit(db, t.id, sender, n);
                let e = state::debited(db, t.id, sender, n).1;
                assert(state::token_of(e, t.id) is Some);
                lemma_credit(e, t.id, tx.to, n);
                if id != t.id {
                    assert(state::token_of(e, id) == state::token_of(db, id));
                    assert(state::token_of(d, id) == state::token_of(e, id));
                }
            }
        },
        TxKind::BurnToken => {
            let t = state::token_of(db, p.token)->Some_0;
            lemma_debit(db, t.id, sender, n);
            if id != t.id {
                assert(state::token_of(d, id) == state::token_of(db, id));
            }
        },
        _ => {},
    }
}

/// Nobody but the creator of a mintable token adds to what is in circulation of it, and
/// a token's terms never change. What is in circulation stays what is held.
pub proof fn law_only_the_creator_mints(db: Db, tx: TxV, height: u64, id: Seq<char>)
    requires
        backed(db),
        apply::applied(db, tx, height) is Ok,
    ensures
        backed(apply::applied(db, tx, height)->Ok_0.1),
        state::token_of(db, id) matches Some(t) ==> {
            &&& state::token_of(apply::applied(db, tx, height)->Ok_0.1, id) matches Some(u)
            &&& same_terms(t, u)
            &&& u.supply > t.supply ==> tx.kind is MintToken && t.mintable && tx.sender() == Some(
                t.creator,
            )
        },
{
    let d = apply::applied(db, tx, height)->Ok_0.1;
    match tx.kind {
        TxKind::CreateToken
        | TxKind::MintToken
        | TxKind::TokenTransfer
        | TxKind::BurnToken => {
            let sender = tx.sender()->Some_0;
            let b = apply::debited(state::account_of(db, sender), tx);
            let e = state::with_account(db, sender, b);
            supply::lemma_account_frame(db, sender, b);
            assert(tokens_kept(db, e));
            lemma_kept_is_backed(db, e);
            assert(state::token_of(e, id) == state::token_of(db, id));
            lemma_token_effect(e, tx, sender, height, d, id);
        },
        _ => {
            lemma_others_keep_tokens(db, tx, height);
            lemma_kept_is_backed(db, d);
            assert(state::token_of(d, id) == state::token_of(db, id));
        },
    }
}

/// A token with a fixed supply is never inflated: no list of transactions adds to what is
/// in circulation of it or makes it mintable.
pub proof fn law_fixed_supply_is_never_inflated(db: Db, txs: Seq<TxV>, height: u64, id: Seq<char>)
    requires
        backed(db),
        chain::replayed(db, txs, height) is Ok,
        state::token_of(db, id) matches Some(t) && !t.mintable,
    ensures
        ({
            let d = chain::replayed(db, txs, height)->Ok_0.0;
            &&& backed(d)
            &&& state::token_of(d, id) matches Some(u)
            &&& !u.mintable
            &&& u.supply <= state::token_of(db, id)->Some_0.supply
        }),
    decreases txs.len(),
{
    if txs.len() > 0 {
        law_fixed_supply_is_never_inflated(db, txs.drop_last(), height, id);
        let d = chain::replayed(db, txs.drop_last(), height)->Ok_0.0;
        law_only_the_creator_mints(d, txs.last(), height, id);
    }
}

} // verus!
