//! What a transaction does to the state.
//!
//! A transaction is applied as a whole or not at all: its rules are checked against
//! the live state first, and whatever it wrote before it failed is undone.

use crate::contracts;
use crate::contracts::ContractV;
use crate::contracts::OutcomeV;
use crate::crypto;
use crate::journal::Db;
use crate::slashing;
use crate::state;
use crate::state::Store;
use crate::text;
use crate::tokens;
use crate::types;
use crate::types::Account;
use crate::types::AccountV;
use crate::types::Transaction;
use crate::types::TxKind;
use crate::types::TxV;
use crate::types::Unbond;
use vstd::prelude::*;
use vstd::string::*;

verus! {

// ---------------------------------------------------------------- what it costs

/// INAZ the sender's balance must cover. Unstaking moves coins out of the bond, so
/// only the fee comes from the balance; token transactions move token units, never
/// INAZ, except the one-off creation fee.
pub open spec fn debit_of(tx: TxV) -> nat {
    match tx.kind {
        TxKind::Unstake | TxKind::ReportEquivocation | TxKind::Unjail => tx.fee as nat,
        TxKind::CreateToken => tx.fee as nat + tokens::TOKEN_CREATION_FEE as nat,
        TxKind::MintToken | TxKind::TokenTransfer | TxKind::BurnToken => tx.fee as nat,
        TxKind::DeployContract => tx.fee as nat + contracts::DEPLOY_FEE as nat + tx.amount as nat,
        _ => tx.amount as nat + tx.fee as nat,
    }
}

/// INAZ that joins the block's fee pool: the fee, and what creating a token or
/// deploying a contract costs.
pub open spec fn collected_of(tx: TxV) -> nat {
    match tx.kind {
        TxKind::CreateToken => tx.fee as nat + tokens::TOKEN_CREATION_FEE as nat,
        TxKind::DeployContract => tx.fee as nat + contracts::DEPLOY_FEE as nat,
        _ => tx.fee as nat,
    }
}

/// INAZ the sender's balance must cover, when that fits.
pub fn debit(tx: &Transaction) -> (r: Option<u128>)
    ensures
        match r {
            Some(n) => n == debit_of(tx@),
            None => debit_of(tx@) > u128::MAX,
        },
{
    match tx.kind {
        TxKind::Unstake | TxKind::ReportEquivocation | TxKind::Unjail => Some(tx.fee),
        TxKind::CreateToken => tx.fee.checked_add(tokens::TOKEN_CREATION_FEE),
        TxKind::MintToken | TxKind::TokenTransfer | TxKind::BurnToken => Some(tx.fee),
        TxKind::DeployContract => match tx.fee.checked_add(contracts::DEPLOY_FEE) {
            Some(n) => n.checked_add(tx.amount),
            None => None,
        },
        _ => tx.amount.checked_add(tx.fee),
    }
}

// ---------------------------------------------------------------- rules

/// The rules of a transaction's kind that are checked before anything is written.
pub open spec fn rules_of(db: Db, tx: TxV, sender: Seq<char>) -> Result<(), Seq<char>> {
    match tx.kind {
        TxKind::CreateToken => tokens::may_create(db, sender, tx.nonce as nat, tx.payload),
        TxKind::MintToken => tokens::may_mint(db, sender, tx.to, tx.amount as nat, tx.payload),
        TxKind::TokenTransfer => tokens::may_transfer(
            db,
            sender,
            tx.to,
            tx.amount as nat,
            tx.payload,
        ),
        TxKind::BurnToken => tokens::may_burn(db, sender, tx.amount as nat, tx.payload),
        TxKind::DeployContract => match contracts::code_in(tx.payload) {
            Err(e) => Err(e),
            Ok(code) => contracts::deployable(code),
        },
        TxKind::CallContract => match contracts::callable(db, tx.to) {
            Err(e) => Err(e),
            Ok(_) => match contracts::args_in(tx.payload) {
                Err(e) => Err(e),
                Ok(_) => Ok(()),
            },
        },
        _ => if tx.kind.of_pool() {
            Err("shielded transactions are not active on this chain"@)
        } else {
            Ok(())
        },
    }
}

/// Checks the rules of a transaction's kind.
pub fn check_rules(store: &Store, tx: &Transaction, sender: &str) -> (r: Result<(), String>)
    requires
        store.wf(),
    ensures
        state::agrees(r, rules_of(store@.db, tx@, sender@)),
{
    match tx.kind {
        TxKind::CreateToken => tokens::check_create(store, sender, tx.nonce, &tx.payload),
        TxKind::MintToken => tokens::check_mint(
            store,
            sender,
            tx.to.as_str(),
            tx.amount,
            &tx.payload,
        ),
        TxKind::TokenTransfer => tokens::check_token_transfer(
            store,
            sender,
            tx.to.as_str(),
            tx.amount,
            &tx.payload,
        ),
        TxKind::BurnToken => tokens::check_burn(store, sender, tx.amount, &tx.payload),
        TxKind::DeployContract => match contracts::decode_code(&tx.payload) {
            Err(e) => Err(e),
            Ok(code) => contracts::check_deploy(code.as_slice()),
        },
        TxKind::CallContract => match contracts::check_call(store, tx.to.as_str()) {
            Err(e) => Err(e),
            Ok(_) => match contracts::decode_args(&tx.payload) {
                Err(e) => Err(e),
                Ok(_) => Ok(()),
            },
        },
        _ => if tx.kind.is_shielded() {
            Err(text::copy("shielded transactions are not active on this chain"))
        } else {
            Ok(())
        },
    }
}

// ---------------------------------------------------------------- effects

/// The database with INAZ credited to an account.
pub open spec fn credited(db: Db, address: Seq<char>, amount: nat) -> Result<Db, Seq<char>> {
    let a = state::account_of(db, address);
    if a.balance + amount > u128::MAX {
        Err("balance overflow"@)
    } else {
        Ok(
            state::with_account(
                db,
                address,
                AccountV { balance: (a.balance + amount) as u128, ..a },
            ),
        )
    }
}

/// Credits INAZ to an account.
fn credit(store: &mut Store, address: &str, amount: u128) -> (r: Result<(), String>)
    requires
        old(store).wf(),
    ensures
        state::follows(*old(store), *final(store)),
        tokens::wrote(r, credited(old(store)@.db, address@, amount as nat), final(store)@.db),
{
    let mut a = store.account(address);
    match a.balance.checked_add(amount) {
        None => Err(text::copy("balance overflow")),
        Some(b) => {
            let ghost was = a@;
            a.balance = b;
            assert(a@ =~= AccountV { balance: b, ..was });
            store.set_account(address, &a);
            Ok(())
        },
    }
}

/// The database with INAZ attached to a transaction credited; nothing attached changes
/// nothing.
pub open spec fn attached(db: Db, address: Seq<char>, amount: nat) -> Result<Db, Seq<char>> {
    if amount == 0 {
        Ok(db)
    } else {
        credited(db, address, amount)
    }
}

/// Credits INAZ attached to a transaction.
fn attach(store: &mut Store, address: &str, amount: u128) -> (r: Result<(), String>)
    requires
        old(store).wf(),
    ensures
        state::follows(*old(store), *final(store)),
        tokens::wrote(r, attached(old(store)@.db, address@, amount as nat), final(store)@.db),
{
    if amount == 0 {
        Ok(())
    } else {
        credit(store, address, amount)
    }
}

/// The contract a deployment registers.
pub open spec fn fresh_contract(sender: Seq<char>, nonce: nat, code: Seq<u8>, height: u64) -> ContractV {
    let hash = crypto::hash_text(code);
    ContractV {
        address: contracts::contract_address_of(sender, nonce, hash),
        code_hash: hash,
        code_size: code.len() as usize,
        creator: sender,
        created_height: height,
        calls: 0,
    }
}

/// Outcome of deploying a contract: any INAZ sent along funds the contract account.
pub open spec fn deployed(db: Db, tx: TxV, sender: Seq<char>, height: u64) -> Result<
    Db,
    Seq<char>,
> {
    match contracts::code_in(tx.payload) {
        Err(e) => Err(e),
        Ok(code) => {
            let c = fresh_contract(sender, tx.nonce as nat, code, height);
            if state::contract_of(db, c.address) is Some {
                Err("contract already exists"@)
            } else {
                attached(
                    state::with_contract(state::with_code(db, c.code_hash, code), c),
                    c.address,
                    tx.amount as nat,
                )
            }
        },
    }
}

/// Deploys a contract.
fn deploy(store: &mut Store, tx: &Transaction, sender: &str, height: u64) -> (r: Result<
    (),
    String,
>)
    requires
        old(store).wf(),
    ensures
        state::follows(*old(store), *final(store)),
        tokens::wrote(r, deployed(old(store)@.db, tx@, sender@, height), final(store)@.db),
{
    let code = match contracts::decode_code(&tx.payload) {
        Ok(c) => c,
        Err(e) => {
            return Err(e);
        },
    };
    let hash = contracts::code_hash(code.as_slice());
    let address = contracts::contract_address(sender, tx.nonce, hash.as_str());
    if store.contract(address.as_str()).is_some() {
        return Err(text::copy("contract already exists"));
    }
    store.put_code(hash.as_str(), code.as_slice());
    let c = contracts::Contract {
        address: address.clone(),
        code_hash: hash,
        code_size: code.len(),
        creator: text::copy(sender),
        created_height: height,
        calls: 0,
    };
    assert(c@ =~= fresh_contract(sender@, tx.nonce as nat, code@, height));
    store.set_contract(&c);
    attach(store, address.as_str(), tx.amount)
}

/// The database with a contract's pending writes stored, in order.
pub open spec fn stored(db: Db, contract: Seq<char>, ws: Seq<(Seq<char>, Option<Seq<u8>>)>) -> Db
    decreases ws.len(),
{
    if ws.len() == 0 {
        db
    } else {
        state::with_storage(
            stored(db, contract, ws.drop_last()),
            contract,
            ws.last().0,
            ws.last().1,
        )
    }
}

/// The database with a contract's outgoing moves made, in order.
pub open spec fn moved(db: Db, contract: Seq<char>, ms: Seq<(Seq<char>, u128)>) -> Result<
    Db,
    Seq<char>,
>
    decreases ms.len(),
{
    if ms.len() == 0 {
        Ok(db)
    } else {
        match moved(db, contract, ms.drop_last()) {
            Err(e) => Err(e),
            Ok(d) => {
                let a = state::account_of(d, contract);
                let n = ms.last().1;
                if a.balance < n {
                    Err("contract overspent"@)
                } else {
                    credited(
                        state::with_account(
                            d,
                            contract,
                            AccountV { balance: (a.balance - n) as u128, ..a },
                        ),
                        ms.last().0,
                        n as nat,
                    )
                }
            },
        }
    }
}

/// A contract record with one more call counted.
pub open spec fn called_once(c: ContractV) -> ContractV {
    ContractV { calls: slashing::bumped(c.calls), ..c }
}

/// The database after a reverted call: the attached value goes back, the fee stays.
pub open spec fn reverted(db: Db, tx: TxV, sender: Seq<char>) -> Result<Db, Seq<char>> {
    if tx.amount == 0 {
        Ok(db)
    } else {
        let a = state::account_of(db, tx.to);
        let left = if a.balance < tx.amount {
            0
        } else {
            (a.balance - tx.amount) as u128
        };
        credited(
            state::with_account(db, tx.to, AccountV { balance: left, ..a }),
            sender,
            tx.amount as nat,
        )
    }
}

/// The database after a call came to an outcome: the receipt is kept either way; writes
/// and moves only when the call succeeded.
pub open spec fn finished(
    db: Db,
    tx: TxV,
    sender: Seq<char>,
    height: u64,
    c: ContractV,
    o: OutcomeV,
) -> Result<Db, Seq<char>> {
    let d = state::with_receipt(
        db,
        tx.hash_text(),
        contracts::receipt_for(o, tx.to, sender, height),
    );
    let r = if o.ok {
        moved(stored(d, tx.to, o.writes), tx.to, o.transfers)
    } else {
        reverted(d, tx, sender)
    };
    match r {
        Err(e) => Err(e),
        Ok(e) => Ok(state::with_contract(e, called_once(c))),
    }
}

/// Outcome of calling a contract. The attached value lands on the contract before it
/// runs, so the contract can spend or refund it during the call.
pub open spec fn called(db: Db, tx: TxV, sender: Seq<char>, height: u64) -> Result<Db, Seq<char>> {
    match contracts::callable(db, tx.to) {
        Err(e) => Err(e),
        Ok(c) => match state::code_of(db, c.code_hash) {
            None => Err("contract code missing"@),
            Some(code) => match contracts::args_in(tx.payload) {
                Err(e) => Err(e),
                Ok(input) => match attached(db, tx.to, tx.amount as nat) {
                    Err(e) => Err(e),
                    Ok(d) => finished(
                        d,
                        tx,
                        sender,
                        height,
                        c,
                        contracts::executed(
                            d,
                            tx.to,
                            sender,
                            code,
                            input,
                            tx.amount,
                            height,
                            contracts::fuel_of(tx.fee as nat) as u64,
                        ),
                    ),
                },
            },
        },
    }
}

/// Stores a contract's pending writes.
fn store_writes(store: &mut Store, contract: &str, ws: &Vec<(String, Option<Vec<u8>>)>)
    requires
        old(store).wf(),
    ensures
        state::follows(*old(store), *final(store)),
        final(store)@.db == stored(old(store)@.db, contract@, contracts::writes_view(ws@)),
{
    let ghost all = contracts::writes_view(ws@);
    let ghost db0 = store@.db;
    let mut i: usize = 0;
    assert(all.take(0) =~= Seq::<(Seq<char>, Option<Seq<u8>>)>::empty());
    while i < ws.len()
        invariant
            i <= ws@.len(),
            all == contracts::writes_view(ws@),
            state::follows(*old(store), *store),
            store@.db == stored(db0, contract@, all.take(i as int)),
        decreases ws@.len() - i,
    {
        proof {
            assert(all.take(i + 1).drop_last() =~= all.take(i as int));
            assert(all.take(i + 1).last() == all[i as int]);
        }
        match &ws[i].1 {
            Some(v) => store.set_contract_storage(contract, ws[i].0.as_str(), Some(v.as_slice())),
            None => store.set_contract_storage(contract, ws[i].0.as_str(), None),
        }
        i = i + 1;
    }
    assert(all.take(all.len() as int) =~= all);
}

/// A failed list of moves fails whatever follows.
proof fn lemma_moved_fails(db: Db, contract: Seq<char>, ms: Seq<(Seq<char>, u128)>, k: int)
    requires
        0 <= k <= ms.len(),
        moved(db, contract, ms.take(k)) is Err,
    ensures
        moved(db, contract, ms) == moved(db, contract, ms.take(k)),
    decreases ms.len(),
{
    if k == ms.len() {
        assert(ms.take(k) =~= ms);
    } else {
        assert(ms.drop_last().take(k) =~= ms.take(k));
        lemma_moved_fails(db, contract, ms.drop_last(), k);
    }
}

/// Makes a contract's outgoing moves.
fn make_moves(store: &mut Store, contract: &str, ms: &Vec<(String, u128)>) -> (r: Result<
    (),
    String,
>)
    requires
        old(store).wf(),
    ensures
        state::follows(*old(store), *final(store)),
        tokens::wrote(
            r,
            moved(old(store)@.db, contract@, contracts::moves_view(ms@)),
            final(store)@.db,
        ),
{
    let ghost all = contracts::moves_view(ms@);
    let ghost db0 = store@.db;
    let mut i: usize = 0;
    assert(all.take(0) =~= Seq::<(Seq<char>, u128)>::empty());
    while i < ms.len()
        invariant
            i <= ms@.len(),
            all == contracts::moves_view(ms@),
            db0 == old(store)@.db,
            state::follows(*old(store), *store),
            moved(db0, contract@, all.take(i as int)) == Ok::<Db, Seq<char>>(store@.db),
        decreases ms@.len() - i,
    {
        proof {
            assert(all.take(i + 1).drop_last() =~= all.take(i as int));
            assert(all.take(i + 1).last() == all[i as int]);
        }
        let mut a = store.account(contract);
        let n: u128 = ms[i].1;
        if a.balance < n {
            proof {
                lemma_moved_fails(db0, contract@, all, i + 1);
            }
            return Err(text::copy("contract overspent"));
        }
        let ghost was = a@;
        a.balance = a.balance - n;
        assert(a@ =~= AccountV { balance: (was.balance - n) as u128, ..was });
        store.set_account(contract, &a);
        match credit(store, ms[i].0.as_str(), n) {
            Ok(()) => {},
            Err(e) => {
                proof {
                    lemma_moved_fails(db0, contract@, all, i + 1);
                }
                return Err(e);
            },
        }
        i = i + 1;
    }
    assert(all.take(all.len() as int) =~= all);
    Ok(())
}

/// Hands the attached value of a reverted call back.
fn revert(store: &mut Store, tx: &Transaction, sender: &str) -> (r: Result<(), String>)
    requires
        old(store).wf(),
    ensures
        state::follows(*old(store), *final(store)),
        tokens::wrote(r, reverted(old(store)@.db, tx@, sender@), final(store)@.db),
{
    if tx.amount == 0 {
        return Ok(());
    }
    let mut a = store.account(tx.to.as_str());
    let ghost was = a@;
    a.balance = a.balance.saturating_sub(tx.amount);
    assert(a@ =~= AccountV { balance: a.balance, ..was });
    store.set_account(tx.to.as_str(), &a);
    credit(store, sender, tx.amount)
}

/// Writes what a call came to.
fn finish(
    store: &mut Store,
    tx: &Transaction,
    sender: &str,
    height: u64,
    c: contracts::Contract,
    o: &contracts::Outcome,
) -> (r: Result<(), String>)
    requires
        old(store).wf(),
    ensures
        state::follows(*old(store), *final(store)),
        tokens::wrote(
            r,
            finished(old(store)@.db, tx@, sender@, height, c@, o@),
            final(store)@.db,
        ),
{
    let receipt = o.receipt(tx.to.as_str(), sender, height);
    let hash = tx.hash();
    store.put_receipt(hash.as_str(), &receipt);
    if o.ok {
        store_writes(store, tx.to.as_str(), &o.writes);
        match make_moves(store, tx.to.as_str(), &o.transfers) {
            Ok(()) => {},
            Err(e) => {
                return Err(e);
            },
        }
    } else {
        match revert(store, tx, sender) {
            Ok(()) => {},
            Err(e) => {
                return Err(e);
            },
        }
    }
    let ghost was = c@;
    let mut updated = c;
    updated.calls = updated.calls.saturating_add(1);
    assert(updated@ =~= called_once(was));
    store.set_contract(&updated);
    Ok(())
}

/// Calls a contract.
fn call(store: &mut Store, tx: &Transaction, sender: &str, height: u64) -> (r: Result<(), String>)
    requires
        old(store).wf(),
    ensures
        state::follows(*old(store), *final(store)),
        tokens::wrote(r, called(old(store)@.db, tx@, sender@, height), final(store)@.db),
{
    let c = match contracts::check_call(store, tx.to.as_str()) {
        Ok(c) => c,
        Err(e) => {
            return Err(e);
        },
    };
    let code = match store.code(c.code_hash.as_str()) {
        Some(b) => b,
        None => {
            return Err(text::copy("contract code missing"));
        },
    };
    let input = match contracts::decode_args(&tx.payload) {
        Ok(b) => b,
        Err(e) => {
            return Err(e);
        },
    };
    match attach(store, tx.to.as_str(), tx.amount) {
        Ok(()) => {},
        Err(e) => {
            return Err(e);
        },
    }
    let fuel = contracts::fuel_for_fee(tx.fee);
    let outcome = contracts::execute(
        store,
        tx.to.as_str(),
        sender,
        code.as_slice(),
        input,
        tx.amount,
        height,
        fuel,
    );
    finish(store, tx, sender, height, c, &outcome)
}

/// The sender's account after the debit, one nonce further.
pub open spec fn debited(a: AccountV, tx: TxV) -> AccountV {
    AccountV {
        balance: (a.balance - debit_of(tx)) as u128,
        nonce: (a.nonce + 1) as u64,
        ..a
    }
}

/// Height at which something unstaked at a height unlocks.
pub open spec fn unlock_height(height: u64) -> u64 {
    if height + types::UNBONDING_BLOCKS > u64::MAX {
        u64::MAX
    } else {
        (height + types::UNBONDING_BLOCKS) as u64
    }
}

/// What a transaction does once its sender's account `a` has been debited.
pub open spec fn effect(db: Db, tx: TxV, sender: Seq<char>, a: AccountV, height: u64) -> Result<
    Db,
    Seq<char>,
> {
    let d = state::with_account(db, sender, a);
    match tx.kind {
        TxKind::Transfer => if tx.to == sender {
            Ok(
                state::with_account(
                    db,
                    sender,
                    AccountV { balance: (a.balance + tx.amount) as u128, ..a },
                ),
            )
        } else {
            credited(d, tx.to, tx.amount as nat)
        },
        TxKind::Stake => if a.staked + tx.amount > u128::MAX {
            Err("stake overflow"@)
        } else {
            Ok(
                state::with_account(
                    db,
                    sender,
                    AccountV { staked: (a.staked + tx.amount) as u128, ..a },
                ),
            )
        },
        TxKind::Unstake => if a.staked < tx.amount {
            Err("not enough staked"@)
        } else {
            Ok(
                state::with_account(
                    db,
                    sender,
                    AccountV {
                        staked: (a.staked - tx.amount) as u128,
                        unbonding: a.unbonding.push(
                            Unbond { amount: tx.amount, release_height: unlock_height(height) },
                        ),
                        ..a
                    },
                ),
            )
        },
        TxKind::ReportEquivocation => match slashing::report_verdict(d, height, tx.payload) {
            Err(e) => Err(e),
            Ok(ev) => match slashing::reported(d, height, sender, ev) {
                Err(e) => Err(e),
                Ok((_, g)) => Ok(g),
            },
        },
        TxKind::Unjail => slashing::unjailed(d, height, sender),
        TxKind::CreateToken => match tokens::created(
            d,
            sender,
            tx.nonce as nat,
            tx.amount as nat,
            height,
            tx.payload,
        ) {
            Err(e) => Err(e),
            Ok((_, g)) => Ok(g),
        },
        TxKind::MintToken => tokens::minted(d, sender, tx.to, tx.amount as nat, tx.payload),
        TxKind::TokenTransfer => tokens::transferred(
            d,
            sender,
            tx.to,
            tx.amount as nat,
            tx.payload,
        ),
        TxKind::BurnToken => tokens::burnt(d, sender, tx.amount as nat, tx.payload),
        TxKind::DeployContract => deployed(d, tx, sender, height),
        TxKind::CallContract => called(d, tx, sender, height),
        _ => Err("shielded transactions are not active on this chain"@),
    }
}

/// What applying a transaction at a height comes to: the fee it pays and the database
/// afterwards, or why it is refused.
pub open spec fn applied(db: Db, tx: TxV, height: u64) -> Result<(nat, Db), Seq<char>> {
    match tx.sender() {
        None => Err("bad sender"@),
        Some(sender) => match rules_of(db, tx, sender) {
            Err(e) => Err(e),
            Ok(_) => {
                let a = state::account_of(db, sender);
                if tx.nonce != a.nonce {
                    Err("stale nonce"@)
                } else if a.balance < debit_of(tx) {
                    Err("insufficient balance"@)
                } else if a.nonce == u64::MAX {
                    Err("nonce exhausted"@)
                } else {
                    match effect(db, tx, sender, debited(a, tx), height) {
                        Err(e) => Err(e),
                        Ok(d) => Ok((collected_of(tx), d)),
                    }
                }
            },
        },
    }
}

/// Writes what a transaction does once its sender has been debited.
fn write_effect(store: &mut Store, tx: &Transaction, sender: &str, from: Account, height: u64) -> (r:
    Result<(), String>)
    requires
        old(store).wf(),
        tx.kind == TxKind::Transfer ==> from.balance + tx.amount <= u128::MAX,
    ensures
        state::follows(*old(store), *final(store)),
        tokens::wrote(
            r,
            effect(old(store)@.db, tx@, sender@, from@, height),
            final(store)@.db,
        ),
{
    let mut from = from;
    let ghost a = from@;
    match tx.kind {
        TxKind::Transfer => {
            if text::same(tx.to.as_str(), sender) {
                from.balance = from.balance + tx.amount;
                assert(from@ =~= AccountV { balance: (a.balance + tx.amount) as u128, ..a });
                store.set_account(sender, &from);
                Ok(())
            } else {
                store.set_account(sender, &from);
                credit(store, tx.to.as_str(), tx.amount)
            }
        },
        TxKind::Stake => match from.staked.checked_add(tx.amount) {
            None => Err(text::copy("stake overflow")),
            Some(n) => {
                from.staked = n;
                assert(from@ =~= AccountV { staked: n, ..a });
                store.set_account(sender, &from);
                Ok(())
            },
        },
        TxKind::Unstake => {
            if from.staked < tx.amount {
                return Err(text::copy("not enough staked"));
            }
            from.staked = from.staked - tx.amount;
            let release_height = height.saturating_add(types::UNBONDING_BLOCKS);
            let u = Unbond { amount: tx.amount, release_height };
            from.unbonding.push(u);
            assert(from@ =~= AccountV {
                staked: (a.staked - tx.amount) as u128,
                unbonding: a.unbonding.push(u),
                ..a
            });
            store.set_account(sender, &from);
            Ok(())
        },
        TxKind::ReportEquivocation => {
            store.set_account(sender, &from);
            match slashing::check_report(store, height, &tx.payload) {
                Err(e) => Err(e),
                Ok(ev) => match slashing::apply_report(store, height, sender, &ev) {
                    Err(e) => Err(e),
                    Ok(_) => Ok(()),
                },
            }
        },
        TxKind::Unjail => {
            store.set_account(sender, &from);
            slashing::apply_unjail(store, height, sender)
        },
        TxKind::CreateToken => {
            store.set_account(sender, &from);
            match tokens::apply_create(store, sender, tx.nonce, tx.amount, height, &tx.payload) {
                Err(e) => Err(e),
                Ok(_) => Ok(()),
            }
        },
        TxKind::MintToken => {
            store.set_account(sender, &from);
            tokens::apply_mint(store, sender, tx.to.as_str(), tx.amount, &tx.payload)
        },
        TxKind::TokenTransfer => {
            store.set_account(sender, &from);
            tokens::apply_token_transfer(store, sender, tx.to.as_str(), tx.amount, &tx.payload)
        },
        TxKind::BurnToken => {
            store.set_account(sender, &from);
            tokens::apply_burn(store, sender, tx.amount, &tx.payload)
        },
        TxKind::DeployContract => {
            store.set_account(sender, &from);
            deploy(store, tx, sender, height)
        },
        TxKind::CallContract => {
            store.set_account(sender, &from);
            call(store, tx, sender, height)
        },
        _ => Err(text::copy("shielded transactions are not active on this chain")),
    }
}

/// Applies a transaction without undoing what it wrote when it fails.
fn try_tx(store: &mut Store, tx: &Transaction, height: u64) -> (r: Result<u128, String>)
    requires
        old(store).wf(),
    ensures
        state::follows(*old(store), *final(store)),
        match r {
            Ok(fee) => applied(old(store)@.db, tx@, height) == Ok::<(nat, Db), Seq<char>>(
                (fee as nat, final(store)@.db),
            ),
            Err(e) => applied(old(store)@.db, tx@, height) == Err::<(nat, Db), Seq<char>>(e@),
        },
{
    let sender = match tx.sender() {
        Some(s) => s,
        None => {
            return Err(text::copy("bad sender"));
        },
    };
    match check_rules(store, tx, sender.as_str()) {
        Ok(()) => {},
        Err(e) => {
            return Err(e);
        },
    }
    let mut from = store.account(sender.as_str());
    if tx.nonce != from.nonce {
        return Err(text::copy("stale nonce"));
    }
    let cost = match debit(tx) {
        Some(n) => n,
        None => {
            return Err(text::copy("insufficient balance"));
        },
    };
    if from.balance < cost {
        return Err(text::copy("insufficient balance"));
    }
    if from.nonce == u64::MAX {
        return Err(text::copy("nonce exhausted"));
    }
    let ghost a = from@;
    from.balance = from.balance - cost;
    from.nonce = from.nonce + 1;
    assert(from@ =~= debited(a, tx@));
    match write_effect(store, tx, sender.as_str(), from, height) {
        Err(e) => Err(e),
        Ok(()) => {
            let collected: u128 = match tx.kind {
                TxKind::CreateToken => tx.fee + tokens::TOKEN_CREATION_FEE,
                TxKind::DeployContract => tx.fee + contracts::DEPLOY_FEE,
                _ => tx.fee,
            };
            Ok(collected)
        },
    }
}

/// Applies a transaction at a height: returns the fee it pays, or refuses it and leaves
/// nothing behind.
pub fn apply_tx(store: &mut Store, tx: &Transaction, height: u64) -> (r: Result<u128, String>)
    requires
        old(store).wf(),
    ensures
        state::follows(*old(store), *final(store)),
        match r {
            Ok(fee) => applied(old(store)@.db, tx@, height) == Ok::<(nat, Db), Seq<char>>(
                (fee as nat, final(store)@.db),
            ),
            Err(e) => applied(old(store)@.db, tx@, height) == Err::<(nat, Db), Seq<char>>(e@)
                && final(store)@.db == old(store)@.db,
        },
{
    store.begin_tx();
    let ghost mid = store@;
    match try_tx(store, tx, height) {
        Ok(fee) => {
            store.commit_tx();
            assert(store@.saved =~= old(store)@.saved);
            Ok(fee)
        },
        Err(e) => {
            store.abort_tx();
            assert(store@.saved =~= old(store)@.saved);
            Err(e)
        },
    }
}

} // verus!
