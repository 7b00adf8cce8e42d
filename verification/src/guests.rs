//! What contracts are for: code goes on chain under its own address, calls run it with
//! metered fuel, and a call that succeeds leaves exactly the writes and the moves its guest
//! asked for.

use crate::apply;
use crate::contracts;
use crate::contracts::ContractV;
use crate::contracts::EndingV;
use crate::contracts::Features;
use crate::contracts::HostV;
use crate::contracts::RunV;
use crate::crypto;
use crate::deeds;
use crate::journal::Db;
use crate::state;
use crate::supply;
use crate::text;
use crate::types::AccountV;
use crate::types::TxV;
use vstd::prelude::*;
use vstd::string::*;

verus! {

// ---------------------------------------------------------------- moves

/// Everything a list of moves sends.
pub open spec fn outgoing(ms: Seq<(Seq<char>, u128)>) -> nat
    decreases ms.len(),
{
    if ms.len() == 0 {
        0
    } else {
        ms[0].1 as nat + outgoing(ms.skip(1))
    }
}

/// What a list of moves sends to one address.
pub open spec fn sent_to(ms: Seq<(Seq<char>, u128)>, who: Seq<char>) -> nat
    decreases ms.len(),
{
    if ms.len() == 0 {
        0
    } else {
        (if ms[0].0 == who {
            ms[0].1 as nat
        } else {
            0
        }) + sent_to(ms.skip(1), who)
    }
}

proof fn lemma_outgoing_push(ms: Seq<(Seq<char>, u128)>, m: (Seq<char>, u128), who: Seq<char>)
    ensures
        outgoing(ms.push(m)) == outgoing(ms) + m.1,
        sent_to(ms.push(m), who) == sent_to(ms, who) + if m.0 == who {
            m.1 as nat
        } else {
            0
        },
    decreases ms.len(),
{
    if ms.len() > 0 {
        lemma_outgoing_push(ms.skip(1), m, who);
        assert(ms.push(m).skip(1) =~= ms.skip(1).push(m));
    } else {
        assert(ms.push(m).skip(1) =~= Seq::<(Seq<char>, u128)>::empty());
        assert(outgoing(ms.push(m).skip(1)) == 0);
        assert(sent_to(ms.push(m).skip(1), who) == 0);
    }
}

/// What crediting coins does to accounts.
proof fn lemma_credited(db: Db, a: Seq<char>, n: nat, who: Seq<char>)
    requires
        db.len() == 16,
        apply::credited(db, a, n) is Ok,
    ensures
        ({
            let d = apply::credited(db, a, n)->Ok_0;
            &&& deeds::same_but_accounts(db, d)
            &&& who == a ==> deeds::gained(
                state::account_of(db, who),
                state::account_of(d, who),
                n,
            )
            &&& who != a ==> state::account_of(d, who) == state::account_of(db, who)
        }),
{
    let x = state::account_of(db, a);
    let y = AccountV { balance: (x.balance + n) as u128, ..x };
    supply::lemma_account_after(db, a, y, who);
    supply::lemma_account_frame(db, a, y);
}

proof fn lemma_attached(db: Db, a: Seq<char>, n: nat, who: Seq<char>)
    requires
        db.len() == 16,
        apply::attached(db, a, n) is Ok,
    ensures
        ({
            let d = apply::attached(db, a, n)->Ok_0;
            &&& deeds::same_but_accounts(db, d)
            &&& who == a ==> deeds::gained(
                state::account_of(db, who),
                state::account_of(d, who),
                n,
            )
            &&& who != a ==> state::account_of(d, who) == state::account_of(db, who)
        }),
{
    if n > 0 {
        lemma_credited(db, a, n, who);
    }
}

/// Moves that were made: the contract has less by all of it and whoever was sent something
/// has more by what was sent to them. Nothing but balances changes.
pub proof fn law_moves_are_made(
    db: Db,
    contract: Seq<char>,
    ms: Seq<(Seq<char>, u128)>,
    who: Seq<char>,
)
    requires
        db.len() == 16,
        apply::moved(db, contract, ms) is Ok,
    ensures
        ({
            let d = apply::moved(db, contract, ms)->Ok_0;
            let a = state::account_of(db, who);
            let b = state::account_of(d, who);
            &&& deeds::same_but_accounts(db, d)
            &&& who != contract ==> deeds::gained(a, b, sent_to(ms, who))
            &&& who == contract ==> b.balance + outgoing(ms) == a.balance + sent_to(ms, who)
            &&& who == contract ==> deeds::gained(a, AccountV { balance: a.balance, ..b }, 0)
        }),
    decreases ms.len(),
{
    if ms.len() > 0 {
        let rest = ms.drop_last();
        let m = ms.last();
        assert(rest.push(m) =~= ms);
        lemma_outgoing_push(rest, m, who);
        law_moves_are_made(db, contract, rest, who);
        let d = apply::moved(db, contract, rest)->Ok_0;
        let x = state::account_of(d, contract);
        let y = AccountV { balance: (x.balance - m.1) as u128, ..x };
        supply::lemma_account_after(d, contract, y, who);
        supply::lemma_account_frame(d, contract, y);
        lemma_credited(state::with_account(d, contract, y), m.0, m.1 as nat, who);
    }
}

// ---------------------------------------------------------------- what a guest asks for

/// A guest sends coins with success exactly when the amount is not negative, the address is
/// one, fewer than thirty-two moves were made and the contract still has the amount. Then the
/// move is the last of the list, and what may still be sent is less by the amount. An
/// address that is none is answered minus one, more than there is minus two, and nothing
/// else changes.
pub proof fn law_guest_moves_are_noted(
    h: HostV,
    mem: Seq<u8>,
    aptr: i32,
    alen: i32,
    amount: i64,
)
    requires
        0 <= aptr,
        0 <= alen <= 64,
        aptr + alen <= mem.len(),
    ensures
        ({
            let to = text::lossy(mem.subrange(aptr as int, aptr + alen));
            let (r, g) = contracts::sent_out(h, true, mem, aptr, alen, amount);
            &&& r == Ok::<i32, Seq<char>>(0) <==> amount >= 0 && crypto::valid_address(to)
                && h.transfers.len() < 32 && amount <= h.spendable
            &&& r == Ok::<i32, Seq<char>>(0) ==> {
                &&& g.transfers == h.transfers.push((to, amount as u128))
                &&& g.spendable + amount == h.spendable
            }
            &&& r != Ok::<i32, Seq<char>>(0) ==> g == h
            &&& amount >= 0 && !crypto::valid_address(to) ==> r == Ok::<i32, Seq<char>>(-1i32)
            &&& amount >= 0 && crypto::valid_address(to) && h.transfers.len() < 32 && amount
                > h.spendable ==> r == Ok::<i32, Seq<char>>(-2i32)
            &&& amount < 0 || crypto::valid_address(to) && h.transfers.len() >= 32 ==> r is Err
            &&& g == (HostV { transfers: g.transfers, spendable: g.spendable, ..h })
        }),
{
}

/// A guest reads back what it wrote, and what the chain stored where it wrote nothing.
pub proof fn law_guest_reads_its_writes(
    h: HostV,
    mem: Seq<u8>,
    kptr: i32,
    klen: i32,
    vptr: i32,
    vlen: i32,
    other: Seq<char>,
)
    requires
        0 <= kptr,
        0 <= klen <= 128,
        kptr + klen <= mem.len(),
        0 <= vptr,
        0 <= vlen <= 8_192,
        vptr + vlen <= mem.len(),
        text::lossy(mem.subrange(kptr as int, kptr + klen)).len() > 0,
        h.order.len() < 512,
        other != text::lossy(mem.subrange(kptr as int, kptr + klen)),
    ensures
        ({
            let key = text::lossy(mem.subrange(kptr as int, kptr + klen));
            let value = mem.subrange(vptr as int, vptr + vlen);
            let (r, g) = contracts::noted(h, true, mem, kptr, klen, vptr, vlen);
            &&& r == Ok::<i32, Seq<char>>(0)
            &&& vlen > 0 ==> contracts::read_key_of(g, key) == Some(value)
            &&& vlen == 0 ==> contracts::read_key_of(g, key) is None
            &&& contracts::read_key_of(g, other) == contracts::read_key_of(h, other)
            &&& g.overlay.contains_key(text::utf8(key))
            &&& h.overlay.contains_key(text::utf8(key)) || g.order == h.order.push(key)
            &&& !h.overlay.contains_key(text::utf8(other)) ==> contracts::read_key_of(h, other)
                == state::storage_of(h.db, h.contract, other)
        }),
{
    let key = text::lossy(mem.subrange(kptr as int, kptr + klen));
    if text::utf8(key) == text::utf8(other) {
        text::lemma_utf8_injective(key, other);
    }
}

/// A guest is told the value attached, the height, the balance, the input, who calls and
/// who it is, as they are.
pub proof fn law_guest_is_told_the_truth(h: HostV)
    ensures
        h.value <= i64::MAX ==> contracts::number_of(contracts::Number::Value, h) == h.value,
        h.height <= i64::MAX ==> contracts::number_of(contracts::Number::Height, h) == h.height,
        state::account_of(h.db, h.contract).balance <= i64::MAX ==> contracts::number_of(
            contracts::Number::Balance,
            h,
        ) == state::account_of(h.db, h.contract).balance,
        contracts::bytes_asked(contracts::Bytes::Input, h) == h.input,
        contracts::bytes_asked(contracts::Bytes::Caller, h) == text::utf8(h.caller),
        contracts::bytes_asked(contracts::Bytes::This, h) == text::utf8(h.contract),
{
}

/// Bytes handed to a guest that fit stand in its memory where it asked for them, and the
/// rest of its memory is as it was; bytes that do not fit leave it alone, and either way the
/// answer is how many there are.
pub proof fn law_guest_memory_is_written(mem: Seq<u8>, ptr: i32, cap: i32, data: Seq<u8>)
    requires
        0 <= ptr,
        0 <= cap,
        data.len() <= i32::MAX,
        ptr + data.len() <= mem.len(),
    ensures
        ({
            let (r, out) = contracts::handed(true, mem, ptr, cap, data);
            &&& r == Ok::<i32, Seq<char>>(data.len() as i32)
            &&& out.len() == mem.len()
            &&& data.len() <= cap ==> out.subrange(ptr as int, ptr + data.len()) == data
            &&& data.len() > cap ==> out == mem
            &&& forall|i: int|
                0 <= i < mem.len() && (i < ptr || i >= ptr + data.len()) ==> #[trigger] out[i]
                    == mem[i]
        }),
{
    let (r, out) = contracts::handed(true, mem, ptr, cap, data);
    if data.len() <= cap {
        assert(out.subrange(ptr as int, ptr + data.len()) =~= data);
    }
}

// ---------------------------------------------------------------- what a run comes to

/// A run succeeds exactly when the guest returns zero. Then it hands on every move its
/// guest made, in order, and what its guest returned and logged; otherwise it hands on no
/// move and no write.
pub proof fn law_run_hands_on_what_was_asked(r: RunV)
    ensures
        contracts::concluded(r).ok <==> r.ending == EndingV::Returned(0),
        r.ending == EndingV::Returned(0) ==> {
            &&& contracts::concluded(r).transfers == r.host.transfers
            &&& contracts::concluded(r).ret == r.host.ret
            &&& contracts::concluded(r).logs == r.host.logs
            &&& contracts::concluded(r).fuel_used == r.used
            &&& contracts::concluded(r).error is None
        },
        r.ending != EndingV::Returned(0) ==> {
            &&& contracts::concluded(r).transfers.len() == 0
            &&& contracts::concluded(r).writes.len() == 0
            &&& contracts::concluded(r).error is Some
        },
        r.ending is Returned || r.ending is Trapped ==> contracts::concluded(r).logs
            == r.host.logs && contracts::concluded(r).fuel_used == r.used,
{
}

/// The value the writes of a list leave under a key, if they write it.
pub open spec fn last_write(ws: Seq<(Seq<char>, Option<Seq<u8>>)>, key: Seq<char>) -> Option<
    Option<Seq<u8>>,
>
    decreases ws.len(),
{
    if ws.len() == 0 {
        None
    } else if ws.last().0 == key {
        Some(ws.last().1)
    } else {
        last_write(ws.drop_last(), key)
    }
}

proof fn lemma_pending(h: HostV, order: Seq<Seq<char>>, key: Seq<char>)
    ensures
        ({
            let ws = contracts::pending_writes(order, h.overlay);
            let k = text::utf8(key);
            last_write(ws, key) == if order.contains(key) && h.overlay.contains_key(k) {
                Some(h.overlay[k])
            } else {
                None
            }
        }),
    decreases order.len(),
{
    let ws = contracts::pending_writes(order, h.overlay);
    if order.len() > 0 {
        lemma_pending(h, order.drop_last(), key);
        let rest = order.drop_last();
        let w = contracts::pending_writes(rest, h.overlay);
        let l = order.last();
        assert(order.contains(key) <==> rest.contains(key) || l == key) by {
            if rest.contains(key) {
                let i = choose|i: int| 0 <= i < rest.len() && rest[i] == key;
                assert(order[i] == key);
            }
            if l == key {
                assert(order[order.len() - 1] == key);
            }
            if order.contains(key) {
                let i = choose|i: int| 0 <= i < order.len() && order[i] == key;
                if i < rest.len() {
                    assert(rest[i] == key);
                }
            }
        }
        if h.overlay.contains_key(text::utf8(l)) {
            assert(ws.drop_last() =~= w);
        }
    }
}

/// A run that succeeds hands on the last value its guest wrote under each key.
pub proof fn law_run_hands_on_the_writes(r: RunV, key: Seq<char>)
    requires
        r.ending == EndingV::Returned(0),
        r.host.overlay.contains_key(text::utf8(key)) <==> r.host.order.contains(key),
    ensures
        last_write(contracts::concluded(r).writes, key)
            == if r.host.overlay.contains_key(text::utf8(key)) {
            Some(r.host.overlay[text::utf8(key)])
        } else {
            None
        },
{
    lemma_pending(r.host, r.host.order, key);
}

proof fn lemma_storage_key(a: Seq<char>, k: Seq<char>, b: Seq<char>, l: Seq<char>)
    requires
        text::utf8(state::joined(a, k)) == text::utf8(state::joined(b, l)),
    ensures
        a == b ==> k == l,
{
    reveal_strlit(":");
    text::lemma_utf8_injective(state::joined(a, k), state::joined(b, l));
    if a == b {
        assert(state::joined(a, k).skip(a.len() as int + 1) =~= k);
        assert(state::joined(b, l).skip(b.len() as int + 1) =~= l);
    }
}

/// Stored writes are read back: the last value under each key of the contract that was
/// written, what was there under the others; accounts and tokens are as they were.
pub proof fn law_writes_are_stored(
    db: Db,
    contract: Seq<char>,
    ws: Seq<(Seq<char>, Option<Seq<u8>>)>,
    key: Seq<char>,
)
    requires
        db.len() == 16,
    ensures
        ({
            let d = apply::stored(db, contract, ws);
            &&& d.len() == 16
            &&& forall|i: int| 0 <= i < 16 && i != 9 && i != 12 ==> #[trigger] d[i] == db[i]
            &&& state::storage_of(d, contract, key) == match last_write(ws, key) {
                Some(v) => v,
                None => state::storage_of(db, contract, key),
            }
        }),
    decreases ws.len(),
{
    if ws.len() > 0 {
        law_writes_are_stored(db, contract, ws.drop_last(), key);
        let l = ws.last().0;
        if text::utf8(state::joined(contract, l)) == text::utf8(state::joined(contract, key)) {
            lemma_storage_key(contract, l, contract, key);
        }
    }
}

// ---------------------------------------------------------------- calls

/// Fuel is four hundred a rai of fee, at least a million and at most two thousand million.
pub proof fn law_fuel_is_bought_with_the_fee(fee: nat)
    ensures
        2_500 <= fee <= 5_000_000 ==> contracts::fuel_of(fee) == 400 * fee,
        fee < 2_500 ==> contracts::fuel_of(fee) == 1_000_000,
        fee > 5_000_000 ==> contracts::fuel_of(fee) == 2_000_000_000,
{
}

/// A call runs the contract's code, metered and without floating point, with the fuel the
/// fee buys. The guest sees the sender as caller, the value attached and already on the
/// contract's account, the height and the input, and may send what the account holds then.
/// Returning zero, it leaves a receipt of success, its writes in its storage and its moves
/// made: the contract has the value more and everything sent less, and every other account
/// but the sender's has exactly what was sent to it more. Returning anything else, or
/// trapping, it leaves a receipt of failure, and the value back with the sender. Either way
/// the sender paid the fee, and the call is counted.
pub proof fn law_call_does_what_its_guest_asked(
    db: Db,
    tx: TxV,
    height: u64,
    who: Seq<char>,
    key: Seq<char>,
) -> (r: (HostV, RunV))
    requires
        db.len() == 16,
        tx.kind is CallContract,
        apply::applied(db, tx, height) is Ok,
        tx.sender() != Some(tx.to),
        state::contract_of(db, tx.to)->Some_0.address == tx.to,
        contracts::module_error(
            contracts::chain_features(),
            state::code_of(db, state::contract_of(db, tx.to)->Some_0.code_hash)->Some_0,
        ) is None,
        state::contract_of(db, tx.to)->Some_0.calls < u64::MAX,
    ensures
        tx.sender() is Some,
        state::contract_of(db, tx.to) is Some,
        ({
            let (fee, d) = apply::applied(db, tx, height)->Ok_0;
            let s = tx.sender()->Some_0;
            let c = state::contract_of(db, tx.to)->Some_0;
            let code = state::code_of(db, c.code_hash)->Some_0;
            let (h, run) = r;
            let ok = run.ending == EndingV::Returned(0);
            let a = state::account_of(db, who);
            let b = state::account_of(d, who);
            &&& fee == tx.fee
            &&& state::code_of(db, c.code_hash) is Some
            // what the guest saw
            &&& h.contract == tx.to && h.caller == s && h.value == tx.amount && h.height == height
            &&& contracts::args_in(tx.payload) == Ok::<Seq<u8>, Seq<char>>(h.input)
            &&& h.overlay == Map::<Seq<u8>, Option<Seq<u8>>>::empty()
            &&& h.order.len() == 0 && h.logs.len() == 0 && h.ret.len() == 0 && h.transfers.len()
                == 0
            &&& h.spendable == state::account_of(db, tx.to).balance + tx.amount
            &&& state::account_of(h.db, tx.to).balance == h.spendable
            &&& state::storage_of(h.db, tx.to, key) == state::storage_of(db, tx.to, key)
            // what ran
            &&& run == contracts::run_of(
                Features {
                    fuel: true,
                    bulk_memory: true,
                    multi_value: false,
                    mutable_global: true,
                    sign_extension: true,
                    saturating_float_to_int: true,
                    floats: false,
                },
                code,
                contracts::host_imports(),
                h,
                contracts::fuel_of(tx.fee as nat) as u64,
            )
            // what it left
            &&& state::receipt_of(d, tx.hash_text()) matches Some(x) && x.ok == ok && x.contract
                == tx.to && x.caller == s && x.height == height
            &&& ok ==> (state::receipt_of(d, tx.hash_text())->Some_0.fuel_used == run.used
                && state::receipt_of(d, tx.hash_text())->Some_0.logs == run.host.logs)
            &&& state::contract_of(d, tx.to) == Some(ContractV { calls: (c.calls + 1) as u64, ..c })
            &&& ok && who == tx.to ==> b.balance + outgoing(run.host.transfers) == a.balance
                + tx.amount + sent_to(run.host.transfers, who)
            &&& ok && who == s ==> b.balance + tx.amount + tx.fee == a.balance + sent_to(
                run.host.transfers,
                who,
            )
            &&& ok && who != s && who != tx.to ==> deeds::gained(
                a,
                b,
                sent_to(run.host.transfers, who),
            )
            &&& !ok && who == s ==> deeds::charged(a, b, tx.fee as nat)
            &&& !ok && who != s ==> b == a
            &&& b.nonce == a.nonce + if who == s {
                1int
            } else {
                0
            }
            &&& b.staked == a.staked && b.unbonding == a.unbonding && b.rewards == a.rewards
            &&& ok ==> state::storage_of(d, tx.to, key) == match last_write(
                contracts::concluded(run).writes,
                key,
            ) {
                Some(v) => v,
                None => state::storage_of(db, tx.to, key),
            }
            &&& !ok ==> state::storage_of(d, tx.to, key) == state::storage_of(db, tx.to, key)
            &&& d[5] == db[5] && d[6] == db[6] && d[8] == db[8] && d[11] == db[11]
        }),
{
    let s = tx.sender()->Some_0;
    let c = state::contract_of(db, tx.to)->Some_0;
    let code = state::code_of(db, c.code_hash)->Some_0;
    let b0 = apply::debited(state::account_of(db, s), tx);
    let e = state::with_account(db, s, b0);
    supply::lemma_account_after(db, s, b0, who);
    supply::lemma_account_after(db, s, b0, tx.to);
    supply::lemma_account_after(db, s, b0, s);
    supply::lemma_account_frame(db, s, b0);
    assert(e[7] == db[7] && e[8] == db[8] && e[9] == db[9]);
    assert(state::contract_of(e, tx.to) == Some(c));
    assert(state::code_of(e, c.code_hash) == Some(code));
    let input = contracts::args_in(tx.payload)->Ok_0;
    let g = apply::attached(e, tx.to, tx.amount as nat)->Ok_0;
    lemma_attached(e, tx.to, tx.amount as nat, who);
    lemma_attached(e, tx.to, tx.amount as nat, tx.to);
    lemma_attached(e, tx.to, tx.amount as nat, s);
    let fuel = contracts::fuel_of(tx.fee as nat) as u64;
    let h = contracts::host_of(g, tx.to, s, input, tx.amount, height);
    let run = contracts::run_of(
        contracts::chain_features(),
        code,
        contracts::host_imports(),
        h,
        fuel,
    );
    let o = contracts::executed(g, tx.to, s, code, input, tx.amount, height, fuel);
    assert(o == contracts::concluded(run));
    law_run_hands_on_what_was_asked(run);
    let f = state::with_receipt(
        g,
        tx.hash_text(),
        contracts::receipt_for(o, tx.to, s, height),
    );
    assert(f[0] == g[0] && f[9] == g[9]);
    assert(g[9] == e[9]);
    assert(state::storage_of(g, tx.to, key) == state::storage_of(db, tx.to, key));
    assert(state::account_of(f, who) == state::account_of(g, who));
    let d = apply::applied(db, tx, height)->Ok_0.1;
    if o.ok {
        let w = apply::stored(f, tx.to, o.writes);
        law_writes_are_stored(f, tx.to, o.writes, key);
        assert(w[0] == f[0]);
        assert(state::account_of(w, who) == state::account_of(f, who));
        let m = apply::moved(w, tx.to, o.transfers)->Ok_0;
        law_moves_are_made(w, tx.to, o.transfers, who);
        assert(m[9] == w[9] && m[10] == w[10] && m[7] == w[7]);
        assert(d == state::with_contract(m, apply::called_once(c)));
        assert(d[10] == f[10]);
        assert(d[9] == w[9]);
        assert(d[0] == m[0]);
        assert(state::account_of(d, who) == state::account_of(m, who));
        assert(d[5] == db[5] && d[6] == db[6] && d[8] == db[8] && d[11] == db[11]);
    } else {
        let q = apply::reverted(f, tx, s)->Ok_0;
        if tx.amount > 0 {
            let x = state::account_of(f, tx.to);
            assert(x == state::account_of(g, tx.to));
            let y = AccountV { balance: (x.balance - tx.amount) as u128, ..x };
            supply::lemma_account_after(f, tx.to, y, who);
            supply::lemma_account_after(f, tx.to, y, s);
            supply::lemma_account_frame(f, tx.to, y);
            lemma_credited(state::with_account(f, tx.to, y), s, tx.amount as nat, who);
        }
        assert(d == state::with_contract(q, apply::called_once(c)));
        assert(q[9] == f[9] && q[10] == f[10] && q[7] == f[7]);
        assert(d[10] == f[10]);
        assert(d[9] == f[9]);
        assert(d[0] == q[0]);
        assert(state::account_of(d, who) == state::account_of(q, who));
        assert(d[5] == db[5] && d[6] == db[6] && d[8] == db[8] && d[11] == db[11]);
    }
    (h, run)
}

/// Deploying puts the code under its hash and a contract under an address of its own, with
/// the coins sent along on its account. It costs the fee, five INAZ and what was sent along.
pub proof fn law_deploy_puts_code_on_chain(db: Db, tx: TxV, height: u64, other: Seq<char>) -> (r: Seq<
    char,
>)
    requires
        db.len() == 16,
        tx.kind is DeployContract,
        apply::applied(db, tx, height) is Ok,
        Some(other) != tx.sender(),
    ensures
        tx.sender() is Some,
        contracts::code_in(tx.payload) is Ok,
        ({
            let (fee, d) = apply::applied(db, tx, height)->Ok_0;
            let s = tx.sender()->Some_0;
            let code = contracts::code_in(tx.payload)->Ok_0;
            let hash = crypto::hash_text(code);
            &&& fee == tx.fee + 5_000_000_000
            &&& state::contract_of(db, r) is None
            &&& state::contract_of(d, r) matches Some(c) && c.address == r && c.code_hash == hash
                && c.creator == s && c.created_height == height && c.calls == 0 && c.code_size
                == code.len() as usize
            &&& r == contracts::contract_address_of(s, tx.nonce as nat, hash)
            &&& state::code_of(d, hash) == Some(code)
            &&& r != s ==> deeds::charged(
                state::account_of(db, s),
                state::account_of(d, s),
                (tx.fee + tx.amount + 5_000_000_000) as nat,
            )
            &&& r != s ==> deeds::gained(
                state::account_of(db, r),
                state::account_of(d, r),
                tx.amount as nat,
            )
            &&& other != r ==> state::account_of(d, other) == state::account_of(db, other)
            &&& d[5] == db[5] && d[6] == db[6] && d[9] == db[9]
        }),
{
    let s = tx.sender()->Some_0;
    let code = contracts::code_in(tx.payload)->Ok_0;
    let b = apply::debited(state::account_of(db, s), tx);
    let e = state::with_account(db, s, b);
    let c = apply::fresh_contract(s, tx.nonce as nat, code, height);
    supply::lemma_account_after(db, s, b, s);
    supply::lemma_account_after(db, s, b, other);
    supply::lemma_account_after(db, s, b, c.address);
    supply::lemma_account_frame(db, s, b);
    assert(e[7] == db[7]);
    let f = state::with_contract(state::with_code(e, c.code_hash, code), c);
    assert(f[0] == e[0]);
    assert(state::account_of(f, s) == state::account_of(e, s));
    assert(state::account_of(f, other) == state::account_of(e, other));
    assert(state::account_of(f, c.address) == state::account_of(e, c.address));
    lemma_attached(f, c.address, tx.amount as nat, s);
    lemma_attached(f, c.address, tx.amount as nat, other);
    lemma_attached(f, c.address, tx.amount as nat, c.address);
    let d = apply::applied(db, tx, height)->Ok_0.1;
    assert(d[7] == f[7] && d[8] == f[8]);
    assert(d[5] == db[5] && d[6] == db[6] && d[9] == db[9]);
    c.address
}

} // verus!
