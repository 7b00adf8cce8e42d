//! Transaction preflight: would this succeed?
//!
//! Preflight runs the checks of admission and execution, reports every problem at once
//! and the exact cost, and writes nothing.

use crate::apply;
use crate::chain;
use crate::chain::Node;
use crate::chain::NodeV;
use crate::conserve;
use crate::contracts;
use crate::fees;
use crate::journal::Db;
use crate::mempool;
use crate::slashing;
use crate::staking;
use crate::state;
use crate::state::Store;
use crate::supply;
use crate::text;
use crate::types;
use crate::types::AccountV;
use crate::types::Transaction;
use crate::types::TxKind;
use crate::types::TxV;
use vstd::prelude::*;

verus! {

/// Total INAZ the sender's balance must cover for a transaction, as far as it fits.
pub fn debit_for(tx: &Transaction) -> (r: u128)
    ensures
        r == types::cap128(apply::debit_of(tx@)),
{
    match apply::debit(tx) {
        Some(n) => n,
        None => u128::MAX,
    }
}

/// Verdict on a transaction.
pub struct Preflight {
    pub ok: bool,
    pub hash: String,
    pub kind: TxKind,
    pub from: Option<String>,
    pub to: String,
    pub signature_valid: bool,
    pub chain_id: u64,
    /// Height of the block the transaction would be in.
    pub height: u64,
    pub expected_nonce: Option<u64>,
    pub base_fee: u128,
    pub fee_floor: u128,
    pub fee: u128,
    pub total_debit: u128,
    pub balance: u128,
    pub balance_after: Option<u128>,
    pub errors: Vec<String>,
    pub warnings: Vec<String>,
}

/// Model of a verdict.
#[verifier::ext_equal]
pub struct PreflightV {
    pub ok: bool,
    pub hash: Seq<char>,
    pub kind: TxKind,
    pub from: Option<Seq<char>>,
    pub to: Seq<char>,
    pub signature_valid: bool,
    pub chain_id: u64,
    pub height: u64,
    pub expected_nonce: Option<u64>,
    pub base_fee: u128,
    pub fee_floor: u128,
    pub fee: u128,
    pub total_debit: u128,
    pub balance: u128,
    pub balance_after: Option<u128>,
    pub errors: Seq<Seq<char>>,
    pub warnings: Seq<Seq<char>>,
}

impl View for Preflight {
    type V = PreflightV;

    open spec fn view(&self) -> PreflightV {
        PreflightV {
            ok: self.ok,
            hash: self.hash@,
            kind: self.kind,
            from: contracts::text_view(self.from),
            to: self.to@,
            signature_valid: self.signature_valid,
            chain_id: self.chain_id,
            height: self.height,
            expected_nonce: self.expected_nonce,
            base_fee: self.base_fee,
            fee_floor: self.fee_floor,
            fee: self.fee,
            total_debit: self.total_debit,
            balance: self.balance,
            balance_after: self.balance_after,
            errors: types::texts(self.errors@),
            warnings: types::texts(self.warnings@),
        }
    }
}

/// A problem on its own, or none.
pub open spec fn problem(fails: bool, message: Seq<char>) -> Seq<Seq<char>> {
    if fails {
        seq![message]
    } else {
        Seq::empty()
    }
}

/// What is wrong with a transaction whatever the state: chain, fee, signature, key.
pub open spec fn plain_problems(tx: TxV, chain_id: u64, floor: nat) -> Seq<Seq<char>> {
    problem(
        tx.chain_id != chain_id,
        "wrong chain id: transaction says "@ + text::dec(tx.chain_id as nat) + ", this chain is "@
            + text::dec(chain_id as nat),
    ) + problem(
        tx.fee < types::MIN_FEE,
        "fee below protocol minimum ("@ + text::dec(types::MIN_FEE as nat) + " rai)"@,
    ) + problem(
        types::MIN_FEE <= tx.fee && tx.fee < floor,
        "fee below current base fee ("@ + text::dec(floor) + " rai)"@,
    ) + problem(!tx.signed(), "invalid signature"@) + problem(
        tx.sender() is None,
        "invalid sender public key"@,
    )
}

/// The message of an error, or none.
pub open spec fn error_of<T>(r: Result<T, Seq<char>>) -> Seq<Seq<char>> {
    match r {
        Err(e) => seq![e],
        Ok(_) => Seq::empty(),
    }
}

/// What the rules of a transaction's kind object to. A contract call is checked for its
/// target and for its arguments.
pub open spec fn kind_problems(db: Db, tx: TxV, sender: Seq<char>) -> Seq<Seq<char>> {
    if tx.kind is CallContract {
        error_of(contracts::callable(db, tx.to)) + error_of(contracts::args_in(tx.payload))
    } else {
        error_of(chain::queueable(db, tx, sender))
    }
}

/// The nonce the next transaction of a sender has to carry.
pub open spec fn nonce_due(n: NodeV, sender: Seq<char>) -> u64 {
    let k = state::account_of(n.db, sender).nonce + mempool::of_sender(n.pool, sender);
    if k <= u64::MAX {
        k as u64
    } else {
        u64::MAX
    }
}

/// What the sender's account objects to.
pub open spec fn sender_problems(n: NodeV, tx: TxV, sender: Seq<char>) -> Seq<Seq<char>> {
    let due = nonce_due(n, sender);
    let balance = state::account_of(n.db, sender).balance;
    problem(
        tx.nonce != due,
        "bad nonce: expected "@ + text::dec(due as nat) + ", got "@ + text::dec(tx.nonce as nat),
    ) + kind_problems(n.db, tx, sender) + problem(
        balance < apply::debit_of(tx),
        "insufficient balance: need "@ + text::fixed_text(
            types::cap128(apply::debit_of(tx)) as nat,
            9,
        ) + " INAZ, have "@ + text::fixed_text(balance as nat, 9),
    ) + problem(
        state::tx_height_of(n.db, tx.hash_text()) is Some,
        "this transaction is already on chain"@,
    )
}

/// Everything that is wrong with a transaction.
pub open spec fn problems(n: NodeV, tx: TxV) -> Seq<Seq<char>> {
    plain_problems(tx, n.chain_id, n.floor()) + match tx.sender() {
        Some(s) => sender_problems(n, tx, s),
        None => Seq::empty(),
    }
}

/// The advice given with a transaction that would be admitted: the floor moves with demand.
pub open spec fn advice(n: NodeV, tx: TxV) -> Seq<Seq<char>> {
    problem(
        problems(n, tx).len() == 0 && tx.fee < 2 * n.floor() && tx.fee < u128::MAX,
        "fee is close to the current base fee; it may be crowded out if demand rises"@,
    )
}

/// The verdict on a transaction.
pub open spec fn verdict(n: NodeV, tx: TxV) -> PreflightV {
    let debit = apply::debit_of(tx);
    let balance = match tx.sender() {
        Some(s) => state::account_of(n.db, s).balance,
        None => 0,
    };
    PreflightV {
        ok: problems(n, tx).len() == 0,
        hash: tx.hash_text(),
        kind: tx.kind,
        from: tx.sender(),
        to: tx.to,
        signature_valid: tx.signed(),
        chain_id: n.chain_id,
        height: staking::next_height(n.db),
        expected_nonce: match tx.sender() {
            Some(s) => Some(nonce_due(n, s)),
            None => None,
        },
        base_fee: state::base_fee_of(n.db) as u128,
        fee_floor: n.floor() as u128,
        fee: tx.fee,
        total_debit: types::cap128(debit),
        balance,
        balance_after: if tx.sender() is Some && balance >= debit {
            Some((balance - debit) as u128)
        } else {
            None
        },
        errors: problems(n, tx),
        warnings: advice(n, tx),
    }
}

/// Notes a problem when there is one.
fn note(list: &mut Vec<String>, fails: bool, message: String)
    ensures
        types::texts(final(list)@) == types::texts(old(list)@) + problem(fails, message@),
{
    if fails {
        list.push(message);
    }
    assert(types::texts(list@) =~= types::texts(old(list)@) + problem(fails, message@));
}

/// Notes the message of an error.
fn note_error(list: &mut Vec<String>, r: Result<(), String>)
    ensures
        types::texts(final(list)@) == types::texts(old(list)@) + match r {
            Err(e) => seq![e@],
            Ok(_) => Seq::<Seq<char>>::empty(),
        },
{
    match r {
        Err(e) => {
            let ghost m = e@;
            list.push(e);
            assert(types::texts(list@) =~= types::texts(old(list)@) + seq![m]);
        },
        Ok(()) => {
            assert(types::texts(list@) =~= types::texts(old(list)@) + Seq::<Seq<char>>::empty());
        },
    }
}

/// `a`, a number, `b`, a number.
fn said(a: &str, x: u64, b: &str, y: u64) -> (r: String)
    ensures
        r@ == a@ + text::dec(x as nat) + b@ + text::dec(y as nat),
{
    let mut m = text::copy(a);
    text::push_dec(&mut m, x as u128);
    m.append(b);
    text::push_dec(&mut m, y as u128);
    m
}

/// A message about an amount of rai.
fn about_fee(a: &str, n: u128) -> (r: String)
    ensures
        r@ == a@ + text::dec(n as nat) + " rai)"@,
{
    let mut m = text::copy(a);
    text::push_dec(&mut m, n);
    m.append(" rai)");
    m
}

/// Checks a transaction whatever the state.
fn check_plain(tx: &Transaction, chain_id: u64, floor: u128, signed: bool, known: bool) -> (r: Vec<
    String,
>)
    requires
        signed == tx@.signed(),
        known == (tx@.sender() is Some),
    ensures
        types::texts(r@) == plain_problems(tx@, chain_id, floor as nat),
{
    let mut list: Vec<String> = Vec::new();
    assert(types::texts(list@) =~= Seq::<Seq<char>>::empty());
    note(
        &mut list,
        tx.chain_id != chain_id,
        said("wrong chain id: transaction says ", tx.chain_id, ", this chain is ", chain_id),
    );
    assert(types::texts(list@) =~= problem(
        tx@.chain_id != chain_id,
        "wrong chain id: transaction says "@ + text::dec(tx@.chain_id as nat)
            + ", this chain is "@ + text::dec(chain_id as nat),
    ));
    note(
        &mut list,
        tx.fee < types::MIN_FEE,
        about_fee("fee below protocol minimum (", types::MIN_FEE),
    );
    note(
        &mut list,
        types::MIN_FEE <= tx.fee && tx.fee < floor,
        about_fee("fee below current base fee (", floor),
    );
    note(&mut list, !signed, text::copy("invalid signature"));
    note(&mut list, !known, text::copy("invalid sender public key"));
    list
}

/// Checks the rules of a transaction's kind.
fn check_kind(store: &Store, tx: &Transaction, sender: &str, list: &mut Vec<String>)
    requires
        store.wf(),
    ensures
        types::texts(final(list)@) == types::texts(old(list)@) + kind_problems(
            store@.db,
            tx@,
            sender@,
        ),
{
    let ghost before = types::texts(list@);
    match tx.kind {
        TxKind::CallContract => {
            match contracts::check_call(store, tx.to.as_str()) {
                Err(e) => note_error(list, Err(e)),
                Ok(_) => note_error(list, Ok(())),
            }
            match contracts::decode_args(&tx.payload) {
                Err(e) => note_error(list, Err(e)),
                Ok(_) => note_error(list, Ok(())),
            }
            assert(types::texts(list@) =~= before + kind_problems(store@.db, tx@, sender@));
        },
        _ => {
            note_error(list, chain::check_queueable(store, tx, sender));
        },
    }
}

/// Checks a transaction against its sender's account; the nonce due, the balance and
/// what is left of it.
fn check_sender(
    node: &Node,
    tx: &Transaction,
    sender: &str,
    hash: &str,
    errors: &mut Vec<String>,
) -> (r: (u64, u128, Option<u128>))
    requires
        node.wf(),
        hash@ == tx@.hash_text(),
    ensures
        types::texts(final(errors)@) == types::texts(old(errors)@) + sender_problems(
            node@,
            tx@,
            sender@,
        ),
        r.0 == nonce_due(node@, sender@),
        r.1 == state::account_of(node@.db, sender@).balance,
        r.2 == if r.1 >= apply::debit_of(tx@) {
            Some((r.1 - apply::debit_of(tx@)) as u128)
        } else {
            None
        },
{
    let ghost before = types::texts(errors@);
    let balance: u128 = node.store.account(sender).balance;
    let due: u64 = node.pending_nonce(sender);
    note(errors, tx.nonce != due, said("bad nonce: expected ", due, ", got ", tx.nonce));
    check_kind(&node.store, tx, sender, errors);
    let after: Option<u128> = match apply::debit(tx) {
        Some(n) => if balance >= n {
            Some(balance - n)
        } else {
            None
        },
        None => None,
    };
    let mut short = text::copy("insufficient balance: need ");
    short.append(types::format_inaz(debit_for(tx)).as_str());
    short.append(" INAZ, have ");
    short.append(types::format_inaz(balance).as_str());
    note(errors, after.is_none(), short);
    note(
        errors,
        node.store.tx_height(hash).is_some(),
        text::copy("this transaction is already on chain"),
    );
    assert(types::texts(errors@) =~= before + sender_problems(node@, tx@, sender@));
    (due, balance, after)
}

/// Runs every check against a node's live state and reports the verdict.
pub fn preflight(node: &Node, tx: &Transaction) -> (r: Preflight)
    requires
        node.wf(),
    ensures
        r@ == verdict(node@, tx@),
{
    let height = staking::upcoming(&node.store);
    let base_fee = node.store.base_fee();
    let floor = fees::required_fee(height, base_fee);
    let signature_valid = tx.verify_signature();
    let from = tx.sender();
    let hash = tx.hash();
    let mut errors = check_plain(
        tx,
        node.genesis.chain_id,
        floor,
        signature_valid,
        from.is_some(),
    );
    let ghost plain = types::texts(errors@);
    let mut expected_nonce: Option<u64> = None;
    let mut balance: u128 = 0;
    let mut balance_after: Option<u128> = None;
    let total_debit = debit_for(tx);
    match &from {
        Some(sender) => {
            let (due, held, left) = check_sender(
                node,
                tx,
                sender.as_str(),
                hash.as_str(),
                &mut errors,
            );
            expected_nonce = Some(due);
            balance = held;
            balance_after = left;
        },
        None => {
            assert(types::texts(errors@) =~= plain + Seq::<Seq<char>>::empty());
        },
    }
    let ok = errors.len() == 0;
    let mut warnings: Vec<String> = Vec::new();
    let doubled: u128 = floor.saturating_add(floor);
    assert(types::texts(warnings@) =~= Seq::<Seq<char>>::empty());
    note(
        &mut warnings,
        ok && tx.fee < doubled,
        text::copy(
            "fee is close to the current base fee; it may be crowded out if demand rises",
        ),
    );
    let p = Preflight {
        ok,
        hash,
        kind: tx.kind,
        from,
        to: tx.to.clone(),
        signature_valid,
        chain_id: node.genesis.chain_id,
        height,
        expected_nonce,
        base_fee,
        fee_floor: floor,
        fee: tx.fee,
        total_debit,
        balance,
        balance_after,
        errors,
        warnings,
    };
    assert(p@ =~= verdict(node@, tx@));
    p
}

/// A clean verdict and admission agree: a transaction without problems is accepted by a
/// node that is not halted, whose pool has room and holds neither this transaction nor
/// the sender's full share; and what a node accepts has no problems.
pub proof fn law_preflight_predicts_admission(n: NodeV, tx: TxV)
    requires
        tx.sender() matches Some(s) ==> state::account_of(n.db, s).nonce + mempool::of_sender(
            n.pool,
            s,
        ) <= u64::MAX,
    ensures
        chain::submitted(n, tx, n.floor()).0 is Ok <==> {
            &&& verdict(n, tx).ok
            &&& !n.halted()
            &&& mempool::of_sender(n.pool, tx.sender()->Some_0) < mempool::MAX_PENDING_PER_SENDER
            &&& !chain::queued(n.pool, tx.hash_text())
            &&& chain::made_room(n.pool, n.bound, tx.fee as nat) is Some
        },
{
    let plain = plain_problems(tx, n.chain_id, n.floor());
    match tx.sender() {
        Some(s) => {
            let all = plain + sender_problems(n, tx, s);
            assert(all.len() == 0 <==> plain.len() == 0 && sender_problems(n, tx, s).len() == 0);
        },
        None => {
            assert(plain.len() > 0);
        },
    }
}

/// What may still stop a transaction that was found to have no problems: an amount that
/// no longer fits, an address that a contract already has, or a contract that asks for
/// what it does not hold.
pub open spec fn late(kind: TxKind, e: Seq<char>) -> bool {
    match kind {
        TxKind::Transfer => e == "balance overflow"@,
        TxKind::Stake => e == "stake overflow"@,
        TxKind::CreateToken | TxKind::MintToken | TxKind::TokenTransfer => {
            e == "token balance overflow"@ || e == "token supply overflow"@
        },
        TxKind::DeployContract => e == "contract already exists"@ || e == "balance overflow"@,
        TxKind::CallContract => {
            ||| e == "contract code missing"@
            ||| e == "balance overflow"@
            ||| e == "contract overspent"@
        },
        _ => false,
    }
}

proof fn lemma_moves_fail_late(db: Db, c: Seq<char>, ms: Seq<(Seq<char>, u128)>)
    ensures
        apply::moved(db, c, ms) matches Err(e) ==> late(TxKind::CallContract, e),
    decreases ms.len(),
{
    if ms.len() > 0 {
        lemma_moves_fail_late(db, c, ms.drop_last());
    }
}

/// What a call comes to, whatever its contract does, fails for late reasons only.
proof fn lemma_calls_fail_late(db: Db, tx: TxV, sender: Seq<char>, height: u64)
    requires
        contracts::callable(db, tx.to) is Ok,
        contracts::args_in(tx.payload) is Ok,
    ensures
        apply::called(db, tx, sender, height) matches Err(e) ==> late(TxKind::CallContract, e),
{
    let c = contracts::callable(db, tx.to)->Ok_0;
    let input = contracts::args_in(tx.payload)->Ok_0;
    if state::code_of(db, c.code_hash) is Some && apply::attached(db, tx.to, tx.amount as nat) is Ok {
        let d = apply::attached(db, tx.to, tx.amount as nat)->Ok_0;
        let o = contracts::executed(
            d,
            tx.to,
            sender,
            state::code_of(db, c.code_hash)->Some_0,
            input,
            tx.amount,
            height,
            contracts::fuel_of(tx.fee as nat) as u64,
        );
        let r = state::with_receipt(
            d,
            tx.hash_text(),
            contracts::receipt_for(o, tx.to, sender, height),
        );
        lemma_moves_fail_late(apply::stored(r, tx.to, o.writes), tx.to, o.transfers);
    }
}

/// What a clean verdict says.
proof fn lemma_clean(n: NodeV, tx: TxV)
    requires
        verdict(n, tx).ok,
    ensures
        tx.sender() is Some,
        tx.nonce == nonce_due(n, tx.sender()->Some_0),
        state::account_of(n.db, tx.sender()->Some_0).balance >= apply::debit_of(tx),
        apply::rules_of(n.db, tx, tx.sender()->Some_0) is Ok,
        tx.kind is CallContract || chain::queueable(n.db, tx, tx.sender()->Some_0) is Ok,
{
    let plain = plain_problems(tx, n.chain_id, n.floor());
    if tx.sender() is None {
        assert(plain.len() > 0);
    }
    let s = tx.sender()->Some_0;
    let all = sender_problems(n, tx, s);
    assert(problems(n, tx) == plain + all);
    assert(all.len() == 0);
    let k = kind_problems(n.db, tx, s);
    assert(k.len() == 0);
    if tx.kind is CallContract {
        assert(error_of(contracts::callable(n.db, tx.to)).len() == 0);
        assert(error_of(contracts::args_in(tx.payload)).len() == 0);
    } else {
        assert(chain::queueable(n.db, tx, s) is Ok);
    }
}

/// Moving token units fails late only.
proof fn lemma_tokens_fail_late(db: Db, tx: TxV, sender: Seq<char>, b: AccountV, height: u64)
    requires
        db.len() == 16,
        tx.kind is CreateToken || tx.kind is MintToken || tx.kind is TokenTransfer
            || tx.kind is BurnToken,
        apply::rules_of(db, tx, sender) is Ok,
    ensures
        apply::effect(db, tx, sender, b, height) matches Err(e) ==> late(tx.kind, e),
{
    let d = state::with_account(db, sender, b);
    supply::lemma_account_frame(db, sender, b);
    assert(d[5] == db[5]);
    assert(d[6] == db[6]);
}

/// Everything but tokens and contracts: only what does not fit stops it.
proof fn lemma_coins_fail_late(db: Db, tx: TxV, sender: Seq<char>, b: AccountV)
    requires
        db.len() == 16,
        tx.kind is Transfer || tx.kind is Stake || tx.kind is Unstake || tx.kind is Unjail
            || tx.kind is ReportEquivocation,
        chain::queueable(db, tx, sender) is Ok,
        ({
            let a = state::account_of(db, sender);
            &&& b.staked == a.staked
            &&& b.unbonding == a.unbonding
            &&& b.penalties == a.penalties
        }),
    ensures
        apply::effect(db, tx, sender, b, staking::next_height(db)) matches Err(e) ==> late(
            tx.kind,
            e,
        ),
{
    let height = staking::next_height(db);
    let d = state::with_account(db, sender, b);
    supply::lemma_account_frame(db, sender, b);
    supply::lemma_account_after(db, sender, b, sender);
    if tx.kind is ReportEquivocation {
        let e = slashing::report_verdict(db, height, tx.payload)->Ok_0;
        let offender = e.verdict()->Ok_0;
        supply::lemma_account_after(db, sender, b, offender);
        assert(d[11] == db[11]);
        assert(slashing::reportable(d, height, e) is Ok);
    }
}

/// As long as the whole supply fits, nothing stops moving coins.
proof fn lemma_coins_fit(db: Db, tx: TxV, sender: Seq<char>)
    requires
        conserve::steady(db),
        state::supply_of(db) <= u128::MAX,
        tx.kind is Transfer || tx.kind is Stake,
        state::account_of(db, sender).balance >= apply::debit_of(tx),
        state::account_of(db, sender).nonce < u64::MAX,
    ensures
        apply::effect(
            db,
            tx,
            sender,
            apply::debited(state::account_of(db, sender), tx),
            staking::next_height(db),
        ) is Ok,
{
    let a = state::account_of(db, sender);
    let b = apply::debited(a, tx);
    let d = state::with_account(db, sender, b);
    supply::lemma_account_within_supply(db, sender);
    conserve::lemma_account_step(db, sender, b);
    supply::lemma_account_within_supply(d, tx.to);
    assert(b.worth() + apply::debit_of(tx) == a.worth());
}

/// A clean verdict and execution agree: a transaction without problems that is the next of
/// its sender is executed in the next block, unless an amount no longer fits or a contract
/// fails it for want of room, code or funds. As long as the whole supply fits, nothing
/// stops a plain move of coins, a stake, an unstake, a report or an unjailing.
pub proof fn law_preflight_predicts_execution(n: NodeV, tx: TxV)
    requires
        n.db.len() == 16,
        verdict(n, tx).ok,
        mempool::of_sender(n.pool, tx.sender()->Some_0) == 0,
        state::account_of(n.db, tx.sender()->Some_0).nonce < u64::MAX,
    ensures
        ({
            let r = apply::applied(n.db, tx, staking::next_height(n.db));
            &&& match r {
                Ok(p) => p.0 == apply::collected_of(tx),
                Err(e) => late(tx.kind, e),
            }
            &&& conserve::steady(n.db) && state::supply_of(n.db) <= u128::MAX && (match tx.kind {
                TxKind::Transfer
                | TxKind::Stake
                | TxKind::Unstake
                | TxKind::ReportEquivocation
                | TxKind::Unjail => true,
                _ => false,
            }) ==> r is Ok
        }),
{
    let s = tx.sender()->Some_0;
    let a = state::account_of(n.db, s);
    let b = apply::debited(a, tx);
    let height = staking::next_height(n.db);
    lemma_clean(n, tx);
    match tx.kind {
        TxKind::CreateToken | TxKind::MintToken | TxKind::TokenTransfer | TxKind::BurnToken => {
            lemma_tokens_fail_late(n.db, tx, s, b, height);
        },
        TxKind::CallContract => {
            let d = state::with_account(n.db, s, b);
            supply::lemma_account_frame(n.db, s, b);
            assert(d[7] == n.db[7]);
            lemma_calls_fail_late(d, tx, s, height);
        },
        TxKind::DeployContract => {},
        TxKind::Transfer | TxKind::Stake => {
            lemma_coins_fail_late(n.db, tx, s, b);
            if conserve::steady(n.db) && state::supply_of(n.db) <= u128::MAX {
                lemma_coins_fit(n.db, tx, s);
            }
        },
        TxKind::Unstake | TxKind::ReportEquivocation | TxKind::Unjail => {
            lemma_coins_fail_late(n.db, tx, s, b);
        },
        _ => {},
    }
}

} // verus!
