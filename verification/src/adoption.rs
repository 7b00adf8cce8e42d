//! What it takes for a block to join the chain, what it leaves there, and what it takes for
//! a transaction to wait for one.

use crate::apply;
use crate::chain;
use crate::chain::NodeV;
use crate::conserve;
use crate::consensus;
use crate::consensus::TrackerV;
use crate::contracts;
use crate::crypto;
use crate::fees;
use crate::journal::CellV;
use crate::journal::Db;
use crate::ledger;
use crate::mempool;
use crate::mempool::PoolV;
use crate::slashing;
use crate::staking;
use crate::staking::ValidatorV;
use crate::state;
use crate::state::FixedV;
use crate::supply;
use crate::text;
use crate::types;
use crate::types::AccountV;
use crate::types::AllocV;
use crate::types::BlockV;
use crate::types::TxKind;
use crate::types::TxV;
use vstd::prelude::*;
use vstd::string::*;

verus! {

// ---------------------------------------------------------------- what a block must be

/// The producer of a block was elected for its height on some attempt: one of those its
/// timestamp, and the local clock, leave time for since its parent, two more for jitter, and
/// never more than four thousand and ninety-six.
pub open spec fn led_by_the_elected(
    set: Seq<ValidatorV>,
    b: BlockV,
    parent_ms: nat,
    now: nat,
    slot: nat,
) -> bool {
    exists|a: nat| #![trigger staking::leader_of(set, b.height as nat, b.parent_hash, a)]
        {
            let until = if b.timestamp_ms < now {
                b.timestamp_ms as int
            } else {
                now as int
            };
            let width = if slot == 0 {
                1
            } else {
                slot as int
            };
            let slots = if until < parent_ms {
                0
            } else {
                (until - parent_ms) / width
            };
            &&& a <= 4_096
            &&& a <= slots + 2
            &&& staking::leader_of(set, b.height as nat, b.parent_hash, a) == Some(b.producer)
        }
}

/// A transaction a block of a chain may carry at a height, under a base fee.
pub open spec fn may_be_carried(tx: TxV, chain_id: u64, height: u64, base_fee: nat) -> bool {
    &&& tx.chain_id == chain_id
    &&& tx.fee >= 1_000
    &&& height >= 200_000 ==> tx.fee >= base_fee
    &&& tx.signed()
}

/// A block a node may execute at a time: the next on its tip, sealed by its producer, timely,
/// led by whoever was elected when anybody is bonded, and made of transactions it may carry.
pub open spec fn fit_for_import(n: NodeV, b: BlockV, now: nat) -> bool {
    let set = staking::set_at(n.db, staking::next_height(n.db));
    &&& state::tip_height_of(n.db) matches Some(tip) && b.height == tip + 1
    &&& state::meta(n.db, "halt_reason"@) is None
    &&& b.parent_hash == state::tip_hash_of(n.db)
    &&& b.produced()
    &&& b.timestamp_ms > n.tip_time()
    &&& b.timestamp_ms <= now + 12_000
    &&& b.transactions.len() <= 5_000
    &&& types::txs_root_of(b.transactions) == b.txs_root
    &&& set.len() > 0 ==> led_by_the_elected(set, b, n.tip_time() as nat, now, n.slot as nat)
    &&& forall|i: int|
        0 <= i < b.transactions.len() ==> may_be_carried(
            #[trigger] b.transactions[i],
            n.chain_id,
            b.height,
            state::base_fee_of(n.db),
        )
}

proof fn lemma_window(parent: nat, ts: nat, now: nat, slot: nat, a: nat)
    ensures
        a <= chain::attempt_window(parent, ts, now, slot) <==> ({
            let until = if ts < now {
                ts as int
            } else {
                now as int
            };
            let width = if slot == 0 {
                1
            } else {
                slot as int
            };
            let slots = if until < parent {
                0
            } else {
                (until - parent) / width
            };
            a <= 4_096 && a <= slots + 2
        }),
{
    let until = if ts < now {
        ts as int
    } else {
        now as int
    };
    let width = if slot == 0 {
        1
    } else {
        slot as int
    };
    if until >= parent {
        vstd::arithmetic::div_mod::lemma_div_pos_is_pos(until - parent, width);
    }
}

proof fn lemma_led(n: NodeV, set: Seq<ValidatorV>, b: BlockV, now: nat)
    ensures
        chain::electable(
            set,
            b.height as nat,
            b.parent_hash,
            chain::attempt_window(
                n.tip_time() as nat,
                b.timestamp_ms as nat,
                now,
                n.slot as nat,
            ),
            b.producer,
        ) <==> led_by_the_elected(set, b, n.tip_time() as nat, now, n.slot as nat),
{
    let (p, ts, w) = (n.tip_time() as nat, b.timestamp_ms as nat, n.slot as nat);
    let bound = chain::attempt_window(p, ts, now, w);
    let (h, parent) = (b.height as nat, b.parent_hash);
    if chain::electable(set, h, parent, bound, b.producer) {
        let a = choose|a: nat|
            a <= bound && #[trigger] staking::leader_of(set, h, parent, a) == Some(b.producer);
        lemma_window(p, ts, now, w, a);
        assert(staking::leader_of(set, h, parent, a) == Some(b.producer));
    }
    if led_by_the_elected(set, b, p, now, w) {
        let a = choose|a: nat|
            #![trigger staking::leader_of(set, h, parent, a)]
            ({
                let until = if b.timestamp_ms < now {
                    b.timestamp_ms as int
                } else {
                    now as int
                };
                let width = if w == 0 {
                    1
                } else {
                    w as int
                };
                let slots = if until < p {
                    0
                } else {
                    (until - p) / width
                };
                a <= 4_096 && a <= slots + 2 && staking::leader_of(set, h, parent, a) == Some(
                    b.producer,
                )
            });
        lemma_window(p, ts, now, w, a);
        assert(a <= bound && staking::leader_of(set, h, parent, a) == Some(b.producer));
    }
}

proof fn lemma_carriable(txs: Seq<TxV>, chain_id: u64, height: u64, base_fee: nat)
    ensures
        (chain::all_carriable(txs, chain_id, height, fees::floor_at(height as nat, base_fee)) is Ok
            && chain::all_signed(txs)) <==> forall|i: int|
            0 <= i < txs.len() ==> may_be_carried(#[trigger] txs[i], chain_id, height, base_fee),
    decreases txs.len(),
{
    let floor = fees::floor_at(height as nat, base_fee);
    if txs.len() > 0 {
        let t = txs.drop_last();
        let l = txs.len() - 1;
        lemma_carriable(t, chain_id, height, base_fee);
        if chain::all_carriable(txs, chain_id, height, floor) is Ok && chain::all_signed(txs) {
            assert forall|i: int| 0 <= i < t.len() implies (#[trigger] t[i]).signed() by {
                assert(t[i] == txs[i]);
            }
            assert forall|i: int| 0 <= i < txs.len() implies may_be_carried(
                #[trigger] txs[i],
                chain_id,
                height,
                base_fee,
            ) by {
                assert(txs[i].signed());
                if i < l {
                    assert(t[i] == txs[i]);
                    assert(may_be_carried(t[i], chain_id, height, base_fee));
                }
            }
        }
        if forall|i: int|
            0 <= i < txs.len() ==> may_be_carried(#[trigger] txs[i], chain_id, height, base_fee) {
            assert forall|i: int| 0 <= i < t.len() implies may_be_carried(
                #[trigger] t[i],
                chain_id,
                height,
                base_fee,
            ) by {
                assert(t[i] == txs[i]);
            }
            assert(may_be_carried(txs[l], chain_id, height, base_fee));
        }
    }
}

/// A block is adopted exactly when it is fit for it, all its transactions apply in order, and
/// the state they lead to has the root the block says.
pub proof fn law_import_takes_exactly_the_fit(n: NodeV, b: BlockV, now: u128)
    ensures
        chain::imported(n, b, now).0 == Ok::<bool, Seq<char>>(true) <==> {
            &&& fit_for_import(n, b, now as nat)
            &&& chain::replayed(n.db, b.transactions, b.height) matches Ok((d, paid))
                && state::root_at(
                n.fixed.notes,
                chain::settled(n.fixed, d, b.height, b.parent_hash, b.producer, paid as nat),
                b.height as nat,
            ) == b.state_root
        },
{
    let set = staking::set_at(n.db, staking::next_height(n.db));
    lemma_led(n, set, b, now as nat);
    lemma_carriable(b.transactions, n.chain_id, b.height, state::base_fee_of(n.db));
}

/// The producer of an adopted block is in the validator set, when anybody is, with stake of
/// its own: nobody without stake gets a block into a chain that has validators.
pub proof fn law_adopted_block_was_led_by_a_validator(n: NodeV, b: BlockV, now: u128)
    requires
        chain::imported(n, b, now).0 == Ok::<bool, Seq<char>>(true),
        staking::set_at(n.db, staking::next_height(n.db)).len() > 0,
    ensures
        ({
            let set = staking::set_at(n.db, staking::next_height(n.db));
            &&& led_by_the_elected(set, b, n.tip_time() as nat, now as nat, n.slot as nat)
            &&& exists|i: int|
                0 <= i < set.len() && (#[trigger] set[i]).address == b.producer && set[i].stake > 0
        }),
{
    law_import_takes_exactly_the_fit(n, b, now);
    let set = staking::set_at(n.db, staking::next_height(n.db));
    lemma_led(n, set, b, now as nat);
    let bound = chain::attempt_window(
        n.tip_time() as nat,
        b.timestamp_ms as nat,
        now as nat,
        n.slot as nat,
    );
    let a = choose|a: nat|
        a <= bound && #[trigger] staking::leader_of(set, b.height as nat, b.parent_hash, a) == Some(
            b.producer,
        );
    staking::law_leader_is_in_the_set(set, b.height as nat, b.parent_hash, a);
}

/// A header that counts as sealed: signed by the key its producer's address is made of, over
/// all of its fields, and hashed with that signature.
pub proof fn law_sealed_means_signed(b: BlockV)
    ensures
        b.produced() <==> {
            let header = "inazuma-block|7777|"@ + text::dec(b.height as nat) + "|"@
                + b.parent_hash + "|"@ + text::dec(b.timestamp_ms as nat) + "|"@ + b.state_root
                + "|"@ + b.txs_root + "|"@ + b.producer + "|"@ + b.producer_pubkey;
            &&& crypto::unhex(b.producer_pubkey) matches Some(key) && key.len() == 32
                && b.producer == crypto::base58_of(key) && (crypto::unhex(b.signature) matches Some(
                sig,
            ) && sig.len() == 64 && crypto::ed25519_accepts(key, text::utf8(header), sig))
            &&& b.hash == crypto::hex_text(
                crypto::sha256_of(text::utf8(header) + text::utf8(b.signature)),
            )
        },
{
    let header = "inazuma-block|7777|"@ + text::dec(b.height as nat) + "|"@ + b.parent_hash + "|"@
        + text::dec(b.timestamp_ms as nat) + "|"@ + b.state_root + "|"@ + b.txs_root + "|"@
        + b.producer + "|"@ + b.producer_pubkey;
    reveal_strlit("inazuma-block|7777|");
    reveal_strlit("inazuma-block|");
    reveal_strlit("|");
    lemma_chain_id_text();
    assert(header =~= b.header_text());
}

proof fn lemma_chain_id_text()
    ensures
        text::dec(types::CHAIN_ID as nat) == seq!['7', '7', '7', '7'],
{
    reveal_with_fuel(text::dec, 5);
    assert(text::dec(7777) =~= seq!['7', '7', '7', '7']);
}

// ---------------------------------------------------------------- what a block leaves

/// Transactions of a block apply one after the other, each to what those before it left, and
/// their fees add up.
pub proof fn law_block_applies_in_order(db: Db, txs: Seq<TxV>, tx: TxV, height: u64)
    ensures
        chain::replayed(db, Seq::empty(), height) == Ok::<(Db, u128), Seq<char>>((db, 0)),
        chain::replayed(db, txs.push(tx), height) is Ok <==> (chain::replayed(
            db,
            txs,
            height,
        ) matches Ok((d, _)) && apply::applied(d, tx, height) is Ok),
        chain::replayed(db, txs.push(tx), height) matches Ok((g, total)) ==> {
            let (d, before) = chain::replayed(db, txs, height)->Ok_0;
            let (fee, e) = apply::applied(d, tx, height)->Ok_0;
            g == e && (before + fee <= u128::MAX ==> total == before + fee)
        },
{
    assert(txs.push(tx).drop_last() =~= txs);
}

/// A producer puts into its block every transaction of its batch that applies, in order, and
/// drops those that do not.
pub proof fn law_batch_keeps_what_applies(db: Db, txs: Seq<TxV>, tx: TxV, height: u64)
    ensures
        ({
            let b = chain::drained(db, txs, height);
            let c = chain::drained(db, txs.push(tx), height);
            &&& apply::applied(b.db, tx, height) is Ok ==> c.included == b.included.push(tx)
                && c.db == apply::applied(b.db, tx, height)->Ok_0.1
            &&& apply::applied(b.db, tx, height) is Err ==> c == b
            &&& chain::drained(db, Seq::empty(), height).db == db
        }),
{
    assert(txs.push(tx).drop_last() =~= txs);
}

proof fn lemma_indexed(db: Db, txs: Seq<TxV>, height: u64, k: int)
    requires
        db.len() == 16,
        0 <= k < txs.len(),
    ensures
        state::tx_height_of(
            state::with_indexed(db, txs, height as nat),
            txs[k].hash_text(),
        ) == Some(height as nat),
    decreases txs.len(),
{
    let key = text::utf8(txs[k].hash_text());
    let v = text::be(height as nat, 8);
    text::lemma_pow256_values();
    text::lemma_be(height as nat, 8);
    supply::lemma_indexed_frame(db, txs.drop_last(), height as nat);
    if k < txs.len() - 1 {
        lemma_indexed(db, txs.drop_last(), height, k);
        assert(txs.drop_last()[k] == txs[k]);
    }
}

/// The database after adoption: only blocks, the index and the meta table differ, and each
/// transaction is found at the height of its block.
proof fn lemma_adopted_index(f: FixedV, db: Db, b: BlockV, k: int)
    requires
        db.len() == 16,
        0 <= k < b.transactions.len(),
    ensures
        state::tx_height_of(chain::adopted(f, db, b), b.transactions[k].hash_text()) == Some(
            b.height as nat,
        ),
{
    let h = text::be(b.height as nat, 8);
    let d0 = ledger::put(db, 1, h, CellV::Block(b));
    lemma_indexed(d0, b.transactions, b.height, k);
    supply::lemma_indexed_frame(d0, b.transactions, b.height as nat);
    let d1 = state::with_indexed(d0, b.transactions, b.height as nat);
    assert(chain::adopted(f, db, b)[2] == d1[2]);
}

/// What an adopted block leaves: it is the tip and stored, every transaction of it is found
/// at its height, none of them waits in the pool any more, and accounts, tokens, contracts,
/// storage, receipts and slashes are what its transactions and its settling made of them.
pub proof fn law_adopted_block_is_the_tip(n: NodeV, b: BlockV, now: u128, k: int, who: Seq<char>)
    requires
        conserve::steady(n.db),
        state::supply_of(n.db) + 10_000_000 <= u128::MAX,
        chain::imported(n, b, now).0 == Ok::<bool, Seq<char>>(true),
        0 <= k < b.transactions.len(),
    ensures
        ({
            let m = chain::imported(n, b, now).1;
            let (d, paid) = chain::replayed(n.db, b.transactions, b.height)->Ok_0;
            let g = chain::settled(n.fixed, d, b.height, b.parent_hash, b.producer, paid as nat);
            &&& state::tip_height_of(m.db) == Some(b.height as nat)
            &&& state::tip_hash_of(m.db) == b.hash
            &&& state::block_of(m.db, b.height as nat) == Some(b)
            &&& state::tx_height_of(m.db, b.transactions[k].hash_text()) == Some(b.height as nat)
            &&& m.pool == mempool::unconfirmed(n.pool, chain::hashes_of(b.transactions))
            &&& state::account_of(m.db, who) == state::account_of(g, who)
            &&& m.db[5] == g[5] && m.db[6] == g[6] && m.db[7] == g[7] && m.db[8] == g[8]
            &&& m.db[9] == g[9] && m.db[10] == g[10] && m.db[11] == g[11]
            &&& state::base_fee_of(m.db) == fees::fee_after(
                state::base_fee_of(n.db),
                b.transactions.len(),
            )
            &&& m.chain_id == n.chain_id && m.alloc == n.alloc && m.seed == n.seed
        }),
{
    law_import_takes_exactly_the_fit(n, b, now);
    let (d, paid) = chain::replayed(n.db, b.transactions, b.height)->Ok_0;
    let g = chain::settled(n.fixed, d, b.height, b.parent_hash, b.producer, paid as nat);
    conserve::law_block_adds_the_reward(
        n.fixed,
        n.db,
        b.transactions,
        b.height,
        b.parent_hash,
        b.producer,
    );
    chain::lemma_adopted(n.fixed, g, b);
    lemma_adopted_index(n.fixed, g, b, k);
    lemma_adopted_fee(n.fixed, g, b);
    let a = chain::adopted(n.fixed, g, b);
    supply::lemma_meta_names();
    supply::lemma_votes_frame(
        TrackerV {
            pending: consensus::votes_kept(
                n.votes.pending,
                b.height as nat,
                state::finalized_of(a),
            ),
            ..n.votes
        },
        a,
        consensus::votes_at(n.votes.pending, b.height as nat),
    );
    let e = consensus::replayed(n.votes, a, b.height as nat).2;
    let m = chain::imported(n, b, now).1;
    assert(m.db == e);
    assert(state::meta(e, "tip_height"@) == state::meta(a, "tip_height"@));
    assert(state::meta(e, "tip_hash"@) == state::meta(a, "tip_hash"@));
    assert(state::meta(e, "base_fee"@) == state::meta(a, "base_fee"@));
    assert(g[0] == a[0] && a[0] == e[0]);
    assert(g[5] == a[5] && a[5] == e[5]);
    assert(g[6] == a[6] && a[6] == e[6]);
    assert(g[7] == a[7] && a[7] == e[7]);
    assert(g[8] == a[8] && a[8] == e[8]);
    assert(g[9] == a[9] && a[9] == e[9]);
    assert(g[10] == a[10] && a[10] == e[10]);
    assert(g[11] == a[11] && a[11] == e[11]);
}

proof fn lemma_adopted_fee(f: FixedV, g: Db, b: BlockV)
    requires
        g.len() == 16,
    ensures
        state::base_fee_of(chain::adopted(f, g, b)) == fees::fee_after(
            state::base_fee_of(g),
            b.transactions.len(),
        ),
{
    supply::lemma_meta_names();
    let h = text::be(b.height as nat, 8);
    let d0 = ledger::put(g, 1, h, CellV::Block(b));
    supply::lemma_indexed_frame(d0, b.transactions, b.height as nat);
    let d1 = state::with_indexed(d0, b.transactions, b.height as nat);
    assert(d1[3] == g[3]);
    let name = "base_fee"@;
    supply::lemma_meta_after(d1, "tip_height"@, h, name);
    let d2 = state::with_meta(d1, "tip_height"@, h);
    supply::lemma_meta_after(d2, "tip_hash"@, text::utf8(b.hash), name);
    let d3 = state::with_block(g, b);
    assert(state::meta(d3, name) == state::meta(g, name));
    let fee = fees::fee_after(state::base_fee_of(d3), b.transactions.len());
    fees::law_base_fee_is_bounded(state::base_fee_of(d3), b.transactions.len());
    let v = text::utf8(text::dec(fee));
    supply::lemma_meta_after(d3, name, v, name);
    let d4 = state::with_meta(d3, name, v);
    let c = text::utf8(
        state::joined(text::dec(b.height as nat), state::state_root_of(f.notes, g)),
    );
    supply::lemma_meta_after(d4, "state_checkpoint"@, c, name);
    text::lemma_lossy_round_trip(text::dec(fee));
    text::lemma_parsed_dec(fee);
}

// ---------------------------------------------------------------- what a transaction must be

/// What a transaction takes of its sender's balance: the fee always; the amount of a
/// transfer, a stake, a call or a deployment; ten INAZ to create a token and five to deploy.
pub open spec fn inaz_needed(tx: TxV) -> nat {
    match tx.kind {
        TxKind::Transfer | TxKind::Stake | TxKind::CallContract | TxKind::Shield
        | TxKind::PrivateTransfer | TxKind::Unshield => (tx.fee + tx.amount) as nat,
        TxKind::DeployContract => (tx.fee + tx.amount + 5_000_000_000) as nat,
        TxKind::CreateToken => (tx.fee + 10_000_000_000) as nat,
        _ => tx.fee as nat,
    }
}

/// No transaction is applied that its sender cannot pay or whose nonce is not the sender's
/// next, and every one that is applied moves that nonce one on: none is applied twice.
pub proof fn law_nobody_spends_twice(db: Db, tx: TxV, height: u64)
    requires
        db.len() == 16,
        apply::applied(db, tx, height) is Ok,
    ensures
        tx.sender() is Some,
        tx.nonce == state::account_of(db, tx.sender()->Some_0).nonce,
        inaz_needed(tx) <= state::account_of(db, tx.sender()->Some_0).balance,
        !(tx.kind is Shield || tx.kind is PrivateTransfer || tx.kind is Unshield),
        ({
            let (fee, d) = apply::applied(db, tx, height)->Ok_0;
            &&& fee == tx.fee + match tx.kind {
                TxKind::CreateToken => 10_000_000_000,
                TxKind::DeployContract => 5_000_000_000,
                _ => 0int,
            }
            &&& state::account_of(d, tx.sender()->Some_0).nonce == tx.nonce + 1
            &&& apply::applied(d, tx, height) is Err
        }),
{
    let s = tx.sender()->Some_0;
    let a = apply::debited(state::account_of(db, s), tx);
    let e = state::with_account(db, s, a);
    supply::lemma_account_after(db, s, a, s);
    supply::lemma_account_frame(db, s, a);
    lemma_effect_keeps_nonces(db, tx, s, a, height);
}

/// Nonces are as they were.
spec fn same_nonce(db: Db, d: Db, s: Seq<char>) -> bool {
    &&& d.len() == 16
    &&& state::account_of(d, s).nonce == state::account_of(db, s).nonce
}

proof fn lemma_credited_nonce(db: Db, a: Seq<char>, n: nat, s: Seq<char>)
    requires
        db.len() == 16,
        apply::credited(db, a, n) is Ok,
    ensures
        same_nonce(db, apply::credited(db, a, n)->Ok_0, s),
{
    let x = state::account_of(db, a);
    let v = AccountV { balance: (x.balance + n) as u128, ..x };
    supply::lemma_account_after(db, a, v, s);
    supply::lemma_account_frame(db, a, v);
}

proof fn lemma_moved_nonce(db: Db, c: Seq<char>, ms: Seq<(Seq<char>, u128)>, s: Seq<char>)
    requires
        db.len() == 16,
        apply::moved(db, c, ms) is Ok,
    ensures
        same_nonce(db, apply::moved(db, c, ms)->Ok_0, s),
    decreases ms.len(),
{
    if ms.len() > 0 {
        lemma_moved_nonce(db, c, ms.drop_last(), s);
        let d = apply::moved(db, c, ms.drop_last())->Ok_0;
        let x = state::account_of(d, c);
        let v = AccountV { balance: (x.balance - ms.last().1) as u128, ..x };
        supply::lemma_account_after(d, c, v, s);
        supply::lemma_account_frame(d, c, v);
        lemma_credited_nonce(state::with_account(d, c, v), ms.last().0, ms.last().1 as nat, s);
    }
}

proof fn lemma_stored_nonce(
    db: Db,
    c: Seq<char>,
    ws: Seq<(Seq<char>, Option<Seq<u8>>)>,
    s: Seq<char>,
)
    requires
        db.len() == 16,
    ensures
        same_nonce(db, apply::stored(db, c, ws), s),
        apply::stored(db, c, ws)[0] == db[0],
    decreases ws.len(),
{
    if ws.len() > 0 {
        lemma_stored_nonce(db, c, ws.drop_last(), s);
    }
}

proof fn lemma_called_nonce(db: Db, tx: TxV, s: Seq<char>, height: u64)
    requires
        db.len() == 16,
        apply::called(db, tx, s, height) is Ok,
    ensures
        same_nonce(db, apply::called(db, tx, s, height)->Ok_0, s),
{
    let c = contracts::callable(db, tx.to)->Ok_0;
    let code = state::code_of(db, c.code_hash)->Some_0;
    let input = contracts::args_in(tx.payload)->Ok_0;
    let g = apply::attached(db, tx.to, tx.amount as nat)->Ok_0;
    if tx.amount > 0 {
        lemma_credited_nonce(db, tx.to, tx.amount as nat, s);
    }
    let o = contracts::executed(
        g,
        tx.to,
        s,
        code,
        input,
        tx.amount,
        height,
        contracts::fuel_of(tx.fee as nat) as u64,
    );
    let f = state::with_receipt(
        g,
        tx.hash_text(),
        contracts::receipt_for(o, tx.to, s, height),
    );
    assert(f[0] == g[0]);
    if o.ok {
        lemma_stored_nonce(f, tx.to, o.writes, s);
        lemma_moved_nonce(apply::stored(f, tx.to, o.writes), tx.to, o.transfers, s);
    } else if tx.amount > 0 {
        let x = state::account_of(f, tx.to);
        let left = if x.balance < tx.amount {
            0
        } else {
            (x.balance - tx.amount) as u128
        };
        let v = AccountV { balance: left, ..x };
        supply::lemma_account_after(f, tx.to, v, s);
        supply::lemma_account_frame(f, tx.to, v);
        lemma_credited_nonce(state::with_account(f, tx.to, v), s, tx.amount as nat, s);
    }
    let r = if o.ok {
        apply::moved(apply::stored(f, tx.to, o.writes), tx.to, o.transfers)
    } else {
        apply::reverted(f, tx, s)
    };
    let q = r->Ok_0;
    assert(state::with_contract(q, apply::called_once(c))[0] == q[0]);
}

proof fn lemma_report_keeps_nonce(e: Db, tx: TxV, s: Seq<char>, height: u64)
    requires
        e.len() == 16,
        slashing::report_verdict(e, height, tx.payload) is Ok,
        slashing::reported(
            e,
            height,
            s,
            slashing::report_verdict(e, height, tx.payload)->Ok_0,
        ) is Ok,
    ensures
        same_nonce(
            e,
            slashing::reported(
                e,
                height,
                s,
                slashing::report_verdict(e, height, tx.payload)->Ok_0,
            )->Ok_0.1,
            s,
        ),
{
    let ev = slashing::report_verdict(e, height, tx.payload)->Ok_0;
    let o = ev.verdict()->Ok_0;
    let rec = slashing::record_of(e, height, s, ev, o);
    let p = slashing::punished(state::account_of(e, o), slashing::pct_for(e, o));
    supply::lemma_account_after(e, o, p, s);
    supply::lemma_account_frame(e, o, p);
    let d = state::with_account(e, o, p);
    let r = state::account_of(d, s);
    let v = AccountV { balance: staking::capped_sum(r.balance, rec.bounty as nat), ..r };
    supply::lemma_account_after(d, s, v, s);
    supply::lemma_account_frame(d, s, v);
    let g = if rec.bounty > 0 {
        state::with_account(d, s, v)
    } else {
        d
    };
    assert(state::with_slash(g, rec)[0] == g[0]);
}

proof fn lemma_token_keeps_accounts(db: Db, tx: TxV, s: Seq<char>, a: AccountV, height: u64)
    requires
        db.len() == 16,
        !(tx.kind is Transfer || tx.kind is Stake || tx.kind is Unstake
            || tx.kind is ReportEquivocation || tx.kind is Unjail || tx.kind is DeployContract
            || tx.kind is CallContract),
        apply::effect(db, tx, s, a, height) is Ok,
    ensures
        apply::effect(db, tx, s, a, height)->Ok_0.len() == 16,
        apply::effect(db, tx, s, a, height)->Ok_0[0] == state::with_account(db, s, a)[0],
{
}

#[verifier::rlimit(40)]
proof fn lemma_effect_keeps_nonces(db: Db, tx: TxV, s: Seq<char>, a: AccountV, height: u64)
    requires
        db.len() == 16,
        apply::effect(db, tx, s, a, height) is Ok,
    ensures
        apply::effect(db, tx, s, a, height)->Ok_0.len() == 16,
        state::account_of(apply::effect(db, tx, s, a, height)->Ok_0, s).nonce == a.nonce,
{
    let e = state::with_account(db, s, a);
    supply::lemma_account_after(db, s, a, s);
    supply::lemma_account_frame(db, s, a);
    match tx.kind {
        TxKind::Transfer => {
            if tx.to == s {
                let v = AccountV { balance: (a.balance + tx.amount) as u128, ..a };
                supply::lemma_account_after(db, s, v, s);
                supply::lemma_account_frame(db, s, v);
            } else {
                lemma_credited_nonce(e, tx.to, tx.amount as nat, s);
            }
        },
        TxKind::Stake => {
            let v = AccountV { staked: (a.staked + tx.amount) as u128, ..a };
            supply::lemma_account_after(db, s, v, s);
            supply::lemma_account_frame(db, s, v);
        },
        TxKind::Unstake => {
            let v = AccountV {
                staked: (a.staked - tx.amount) as u128,
                unbonding: a.unbonding.push(
                    types::Unbond {
                        amount: tx.amount,
                        release_height: apply::unlock_height(height),
                    },
                ),
                ..a
            };
            supply::lemma_account_after(db, s, v, s);
            supply::lemma_account_frame(db, s, v);
        },
        TxKind::ReportEquivocation => {
            lemma_report_keeps_nonce(e, tx, s, height);
        },
        TxKind::Unjail => {
            let x = state::account_of(e, s);
            let v = AccountV {
                penalties: types::Penalties {
                    jailed_until: 0,
                    missed_streak: 0,
                    ..x.penalties
                },
                ..x
            };
            supply::lemma_account_after(e, s, v, s);
            supply::lemma_account_frame(e, s, v);
        },
        TxKind::DeployContract => {
            let code = contracts::code_in(tx.payload)->Ok_0;
            let c = apply::fresh_contract(s, tx.nonce as nat, code, height);
            let f = state::with_contract(state::with_code(e, c.code_hash, code), c);
            assert(f[0] == e[0]);
            if tx.amount > 0 {
                lemma_credited_nonce(f, c.address, tx.amount as nat, s);
            }
        },
        TxKind::CallContract => {
            lemma_called_nonce(e, tx, s, height);
        },
        _ => {
            lemma_token_keeps_accounts(db, tx, s, a, height);
        },
    }
}

/// A transaction is queued exactly when it may be: the node is not halted, it is of this
/// chain, signed, pays a thousand rai and the floor, follows the nonces its sender has on
/// chain and in the queue, is covered by the balance, obeys the rules of its kind, was not
/// seen before, its sender has fewer than sixty-four waiting, and there is room or somebody
/// cheaper makes it. It waits at the end, and whatever was refused changes nothing.
pub proof fn law_queueing_is_exact(n: NodeV, tx: TxV, floor: nat)
    ensures
        ({
            let (r, m) = chain::submitted(n, tx, floor);
            &&& r is Ok <==> {
                &&& state::meta(n.db, "halt_reason"@) is None
                &&& tx.chain_id == n.chain_id
                &&& tx.fee >= 1_000
                &&& tx.fee >= floor
                &&& tx.signed()
                &&& tx.sender() matches Some(s) && {
                    let a = state::account_of(n.db, s);
                    let waiting = mempool::of_sender(n.pool, s);
                    &&& tx.nonce == a.nonce + waiting
                    &&& waiting < 64
                    &&& inaz_needed(tx) <= a.balance
                    &&& chain::queueable(n.db, tx, s) is Ok
                    &&& state::tx_height_of(n.db, tx.hash_text()) is None
                    &&& forall|i: int|
                        0 <= i < n.pool.len() ==> (#[trigger] n.pool[i]).hash != tx.hash_text()
                    &&& n.bound < u64::MAX
                    &&& n.pool.len() < 20_000 || n.pool[mempool::victim_of(n.pool)].tx.fee < tx.fee
                }
            }
            &&& r is Err ==> m == n
            &&& r matches Ok(hash) ==> {
                let e = PoolV {
                    tx,
                    hash: tx.hash_text(),
                    sender: tx.sender()->Some_0,
                    seq: n.bound,
                };
                &&& hash == tx.hash_text()
                &&& m.bound == n.bound + 1
                &&& n.pool.len() < 20_000 ==> m.pool == n.pool.push(e)
                &&& n.pool.len() >= 20_000 ==> m.pool.len() == n.pool.len() && m.pool.last() == e
                &&& m.db == n.db
            }
        }),
{
    if n.pool.len() >= 20_000 && mempool::evicted(n.pool, tx.fee as nat).0 is Some {
        mempool::law_eviction_takes_a_tail(n.pool, tx.fee as nat);
    }
}

/// What the rules of a kind ask before a transaction may wait: a transfer goes to an
/// address, a stake and an unstake are of something, an unstake of no more than is bonded,
/// and whoever asks out of jail was in one that is over and is not removed for good.
pub proof fn law_queueing_rules(db: Db, tx: TxV, s: Seq<char>)
    ensures
        ({
            let a = state::account_of(db, s);
            let ok = chain::queueable(db, tx, s) is Ok;
            &&& tx.kind is Transfer ==> (ok <==> crypto::valid_address(tx.to))
            &&& tx.kind is Stake ==> (ok <==> tx.amount > 0)
            &&& tx.kind is Unstake ==> (ok <==> 0 < tx.amount <= a.staked)
            &&& tx.kind is Unjail ==> (ok <==> !a.penalties.tombstoned && 0
                < a.penalties.jailed_until <= staking::next_height(db))
            &&& tx.kind is Shield || tx.kind is PrivateTransfer || tx.kind is Unshield ==> !ok
        }),
{
}

/// What left the pool with a block left it, and the rest waits on in its order.
pub proof fn law_confirmed_leave_the_pool(s: Seq<PoolV>, hashes: Seq<Seq<char>>)
    ensures
        mempool::unconfirmed(s, hashes) == s.filter(|e: PoolV| !hashes.contains(e.hash)),
    decreases s.len(),
{
    reveal(Seq::filter);
    if s.len() > 0 {
        law_confirmed_leave_the_pool(s.drop_last(), hashes);
    }
}

/// How many of a sender wait is how many of the pool are the sender's.
pub proof fn law_waiting_is_counted(s: Seq<PoolV>, sender: Seq<char>)
    ensures
        mempool::of_sender(s, sender) == s.filter(|e: PoolV| e.sender == sender).len(),
    decreases s.len(),
{
    reveal(Seq::filter);
    if s.len() > 0 {
        law_waiting_is_counted(s.drop_last(), sender);
    }
}

// ---------------------------------------------------------------- production

/// A node seals a block exactly when it may: it produces at all, is not halted, is at most
/// two blocks behind the best peer it knows, and either seals alone or validators are bonded
/// and the one elected now is itself. The block is the next on its tip, names it as
/// producer, is dated now or just after its parent, and carries what of its queue applies.
pub proof fn law_sealing_is_exact(n: NodeV, now: u128)
    requires
        state::tip_height_of(n.db) is Some,
        state::tip_height_of(n.db)->Some_0 < u64::MAX,
        n.tip_time() < u128::MAX,
    ensures
        ({
            let tip = state::tip_height_of(n.db)->Some_0;
            let set = staking::set_at(n.db, staking::next_height(n.db));
            let leader = n.leader(now as nat);
            &&& chain::produced(n, now).0 is Ok
            &&& chain::produced(n, now).0->Ok_0 is Some <==> {
                &&& !n.serving_only
                &&& state::meta(n.db, "halt_reason"@) is None
                &&& n.best_peer <= tip + 2
                &&& n.solo || set.len() > 0 && (leader is None || leader == Some(n.address()))
            }
            &&& chain::produced(n, now).0->Ok_0 is None ==> chain::produced(n, now).1 == n
            &&& chain::produced(n, now).0->Ok_0 matches Some(b) ==> {
                let batch = mempool::batch_of(n.pool, 5_000);
                &&& b.height == tip + 1
                &&& b.parent_hash == state::tip_hash_of(n.db)
                &&& b.producer == n.address()
                &&& b.timestamp_ms == if now > n.tip_time() {
                    now as int
                } else {
                    n.tip_time() + 1
                }
                &&& b.txs_root == types::txs_root_of(b.transactions)
                &&& b.transactions == chain::drained(
                    n.db,
                    mempool::txs_of(batch.0),
                    b.height,
                ).included
                &&& chain::produced(n, now).1.pool == batch.1
            }
        }),
{
}

// ---------------------------------------------------------------- genesis

/// What an allocation grants an address, read in INAZ.
pub open spec fn granted(alloc: Seq<AllocV>, who: Seq<char>) -> nat
    decreases alloc.len(),
{
    if alloc.len() == 0 {
        0
    } else {
        granted(alloc.drop_last(), who) + if alloc.last().address == who {
            text::fixed_value(alloc.last().balance, 9)->Ok_0
        } else {
            0
        }
    }
}

/// What an allocation bonds for an address, read in INAZ.
pub open spec fn bonded(alloc: Seq<AllocV>, who: Seq<char>) -> nat
    decreases alloc.len(),
{
    if alloc.len() == 0 {
        0
    } else {
        bonded(alloc.drop_last(), who) + if alloc.last().address == who
            && alloc.last().stake is Some {
            text::fixed_value(alloc.last().stake->Some_0, 9)->Ok_0
        } else {
            0
        }
    }
}

proof fn lemma_funded(db: Db, alloc: Seq<AllocV>, who: Seq<char>)
    requires
        db.len() == 16,
        chain::funded(db, alloc) is Ok,
    ensures
        ({
            let d = chain::funded(db, alloc)->Ok_0;
            let a = state::account_of(db, who);
            let b = state::account_of(d, who);
            &&& d.len() == 16
            &&& b.balance == a.balance + granted(alloc, who)
            &&& b.staked == a.staked + bonded(alloc, who)
            &&& b == (AccountV { balance: b.balance, staked: b.staked, ..a })
        }),
    decreases alloc.len(),
{
    if alloc.len() > 0 {
        lemma_funded(db, alloc.drop_last(), who);
        let d = chain::funded(db, alloc.drop_last())->Ok_0;
        let l = alloc.last();
        let x = state::account_of(d, l.address);
        let n = text::fixed_value(l.balance, 9)->Ok_0;
        let f = AccountV { balance: (x.balance + n) as u128, ..x };
        let v = match l.stake {
            None => f,
            Some(t) => AccountV {
                staked: (x.staked + text::fixed_value(t, 9)->Ok_0) as u128,
                ..f
            },
        };
        supply::lemma_account_after(d, l.address, v, who);
        supply::lemma_account_frame(d, l.address, v);
    }
}

/// A chain starts with exactly what genesis grants and bonds: every address has the sum of
/// its entries, nobody else has anything, and the first block is the tip at height zero.
pub proof fn law_genesis_grants_what_it_says(n: NodeV, who: Seq<char>)
    requires
        n.db.len() == 16,
        n.db[0] == Map::<Seq<u8>, CellV>::empty(),
        chain::started(n) is Ok,
    ensures
        ({
            let (b, d) = chain::started(n)->Ok_0;
            let a = state::account_of(d, who);
            &&& a.balance == granted(n.alloc, who)
            &&& a.staked == bonded(n.alloc, who)
            &&& a.nonce == 0 && a.rewards == 0 && a.unbonding.len() == 0
            &&& b.height == 0
            &&& b.timestamp_ms == 0
            &&& b.transactions.len() == 0
            &&& state::tip_height_of(d) == Some(0nat)
            &&& state::tip_hash_of(d) == b.hash
            &&& state::block_of(d, 0) == Some(b)
        }),
{
    lemma_funded(n.db, n.alloc, who);
    let e = chain::funded(n.db, n.alloc)->Ok_0;
    let (b, d) = chain::started(n)->Ok_0;
    supply::lemma_block_stored(e, b);
    assert(e[0] == d[0]);
}

// ---------------------------------------------------------------- going back

/// A node goes back to genesis for a peer exactly when the peer has every finalized block
/// and is at most five thousand blocks shorter; otherwise it stays as it is.
pub proof fn law_reorg_is_bounded(n: NodeV, peer_height: u64, now: u128)
    requires
        state::tip_height_of(n.db) is Some,
        chain::started(NodeV { db: state::wiped(n.db), pool: Seq::empty(), ..n }) is Ok,
    ensures
        chain::restarted(n, peer_height, now).0 is Ok <==> peer_height >= state::finalized_of(n.db)
            && state::tip_height_of(n.db)->Some_0 <= peer_height + 5_000,
        chain::restarted(n, peer_height, now).0 is Err ==> chain::restarted(
            n,
            peer_height,
            now,
        ).1 == n,
{
}

} // verus!
