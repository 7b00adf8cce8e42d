//! What one node seals, every other node accepts and ends up in the same state.

use crate::chain;
use crate::chain::NodeV;
use crate::conserve;
use crate::consensus;
use crate::consensus::TrackerV;
use crate::fees;
use crate::journal::Db;
use crate::mempool;
use crate::mempool::PoolV;
use crate::staking;
use crate::state;
use crate::state::FixedV;
use crate::supply;
use crate::text;
use crate::types;
use crate::types::BlockV;
use crate::types::TxV;
use vstd::prelude::*;
use vstd::string::*;

verus! {

/// A transaction a block of a node's chain may carry at the next height.
pub open spec fn fitting(n: NodeV, tx: TxV) -> bool {
    &&& tx.signed()
    &&& tx.chain_id == n.chain_id
    &&& tx.fee >= types::MIN_FEE
    &&& tx.fee >= n.floor()
}

/// Everything queued may go into the next block.
pub open spec fn all_fitting(n: NodeV, pool: Seq<PoolV>) -> bool {
    forall|i: int| 0 <= i < pool.len() ==> fitting(n, (#[trigger] pool[i]).tx)
}

/// Whether an entry may not go into the next block.
spec fn unfit(n: NodeV) -> spec_fn(PoolV) -> bool {
    |e: PoolV| !fitting(n, e.tx)
}

proof fn lemma_fitting_tally(n: NodeV, s: Seq<PoolV>)
    ensures
        mempool::tally(s, unfit(n)) == 0 <==> all_fitting(n, s),
    decreases s.len(),
{
    if s.len() > 0 {
        let d = s.drop_last();
        lemma_fitting_tally(n, d);
        if all_fitting(n, s) {
            assert forall|i: int| 0 <= i < d.len() implies fitting(n, (#[trigger] d[i]).tx) by {
                assert(d[i] == s[i]);
            }
            assert(fitting(n, s[s.len() - 1].tx));
        }
        if mempool::tally(s, unfit(n)) == 0 {
            assert forall|i: int| 0 <= i < s.len() implies fitting(n, (#[trigger] s[i]).tx) by {
                if i < d.len() {
                    assert(d[i] == s[i]);
                }
            }
        }
    }
}

/// Transactions that may all go into the next block.
spec fn good(n: NodeV, txs: Seq<TxV>) -> bool {
    forall|i: int| 0 <= i < txs.len() ==> fitting(n, #[trigger] txs[i])
}

proof fn lemma_included_good(n: NodeV, db: Db, txs: Seq<TxV>, height: u64)
    requires
        good(n, txs),
    ensures
        good(n, chain::drained(db, txs, height).included),
    decreases txs.len(),
{
    if txs.len() > 0 {
        let t = txs.drop_last();
        assert forall|i: int| 0 <= i < t.len() implies fitting(n, #[trigger] t[i]) by {
            assert(t[i] == txs[i]);
        }
        lemma_included_good(n, db, t, height);
        let b = chain::drained(db, t, height);
        let c = chain::drained(db, txs, height);
        assert forall|i: int| 0 <= i < c.included.len() implies fitting(
            n,
            #[trigger] c.included[i],
        ) by {
            if i < b.included.len() {
                assert(c.included[i] == b.included[i]);
            } else {
                assert(fitting(n, txs[txs.len() - 1]));
            }
        }
    }
}

proof fn lemma_good_carriable(n: NodeV, txs: Seq<TxV>, height: u64)
    requires
        good(n, txs),
    ensures
        chain::all_carriable(txs, n.chain_id, height, n.floor()) is Ok,
        chain::all_signed(txs),
    decreases txs.len(),
{
    if txs.len() > 0 {
        let t = txs.drop_last();
        assert forall|i: int| 0 <= i < t.len() implies fitting(n, #[trigger] t[i]) by {
            assert(t[i] == txs[i]);
        }
        lemma_good_carriable(n, t, height);
        assert(fitting(n, txs[txs.len() - 1]));
        assert forall|i: int| 0 <= i < txs.len() implies (#[trigger] txs[i]).signed() by {
            assert(fitting(n, txs[i]));
        }
    }
}

proof fn lemma_slots_monotone(from: nat, a: nat, b: nat, slot: nat)
    requires
        a <= b,
    ensures
        chain::slots_between(from, a, slot) <= chain::slots_between(from, b, slot),
{
    let w = if slot == 0 {
        1int
    } else {
        slot as int
    };
    if from <= a {
        vstd::arithmetic::div_mod::lemma_div_is_ordered(a - from, b - from, w);
    }
    if from <= b {
        vstd::arithmetic::div_mod::lemma_div_pos_is_pos(b - from, w);
    }
}

proof fn lemma_slots_from_start(from: nat, to: nat, slot: nat)
    ensures
        chain::slots_between(from, to, slot) <= chain::slots_between(0, to, slot),
{
    let w = if slot == 0 {
        1int
    } else {
        slot as int
    };
    if from <= to {
        vstd::arithmetic::div_mod::lemma_div_is_ordered(to - from, to as int, w);
    } else {
        vstd::arithmetic::div_mod::lemma_div_pos_is_pos(to as int, w);
    }
}

/// What a sealed block is made of.
proof fn lemma_sealed_fields(n: NodeV, b: BlockV, now: u128)
    requires
        chain::produced(n, now).0 == Ok::<Option<BlockV>, Seq<char>>(Some(b)),
    ensures
        !n.halted(),
        state::tip_height_of(n.db) matches Some(tip) && b.height == tip + 1,
        b.height == staking::next_height(n.db),
        b == chain::next_block(n, b.height, now as nat),
        b.parent_hash == state::tip_hash_of(n.db),
        b.producer == n.address(),
        b.timestamp_ms == chain::stamped(now as nat, n.tip_time() as nat),
        b.transactions == chain::next_batch(n, b.height).included,
        b.txs_root == types::txs_root_of(b.transactions),
        b.state_root == state::root_at(
            n.fixed.notes,
            chain::next_state(n, b.height),
            b.height as nat,
        ),
{
}

/// What a node puts into its next block may go there, and is not too much.
proof fn lemma_batch_good(n: NodeV, height: u64)
    requires
        all_fitting(n, n.pool),
    ensures
        good(n, chain::next_batch(n, height).included),
        chain::next_batch(n, height).included.len() <= chain::MAX_TXS_PER_BLOCK,
        chain::replayed(n.db, chain::next_batch(n, height).included, height) == Ok::<
            (Db, u128),
            Seq<char>,
        >((chain::next_batch(n, height).db, chain::next_batch(n, height).fees)),
{
    let max = chain::MAX_TXS_PER_BLOCK as nat;
    let chosen = mempool::batch_of(n.pool, max).0;
    let txs = mempool::txs_of(chosen);
    lemma_fitting_tally(n, n.pool);
    mempool::lemma_chosen_tally(n.pool, max, unfit(n));
    lemma_fitting_tally(n, chosen);
    mempool::law_batch_is_capped(n.pool, max);
    assert forall|i: int| 0 <= i < txs.len() implies fitting(n, #[trigger] txs[i]) by {
        assert(txs[i] == chosen[i].tx);
    }
    lemma_included_good(n, n.db, txs, height);
    chain::law_included_transactions_replay(n.db, txs, height);
}

/// The attempt a leader was elected on lies within the window of its block.
proof fn lemma_attempt_in_window(n: NodeV, now: u128, later: u128, ts: nat)
    requires
        n.attempt(now as nat) <= chain::MAX_LEADER_ATTEMPTS,
        now <= later,
        now <= ts,
    ensures
        n.attempt(now as nat) <= chain::attempt_window(
            n.tip_time() as nat,
            ts,
            later as nat,
            n.slot as nat,
        ),
{
    let to = if ts < later {
        ts
    } else {
        later as nat
    };
    lemma_slots_monotone(n.tip_time() as nat, now as nat, to, n.slot as nat);
    lemma_slots_from_start(n.tip_seen as nat, now as nat, n.slot as nat);
}

/// The checks of an import, one by one.
proof fn lemma_checks_pass(m: NodeV, b: BlockV, later: u128)
    requires
        !m.halted(),
        state::tip_height_of(m.db) matches Some(tip) && b.height == tip + 1,
        b.height == staking::next_height(m.db),
        b.parent_hash == state::tip_hash_of(m.db),
        b.produced(),
        chain::timestamp_verdict(m.tip_time() as nat, b.timestamp_ms as nat, later as nat) is Ok,
        b.transactions.len() <= chain::MAX_TXS_PER_BLOCK,
        types::txs_root_of(b.transactions) == b.txs_root,
        chain::electable(
            staking::set_at(m.db, b.height),
            b.height as nat,
            b.parent_hash,
            chain::attempt_window(
                m.tip_time() as nat,
                b.timestamp_ms as nat,
                later as nat,
                m.slot as nat,
            ),
            b.producer,
        ),
        chain::all_carriable(b.transactions, m.chain_id, b.height, m.floor()) is Ok,
        chain::all_signed(b.transactions),
    ensures
        chain::importable(m, b, later as nat) == Ok::<bool, Seq<char>>(true),
{
}

/// A block sealed by the elected leader is accepted by every node at the same state: its
/// checks pass, replaying it gives exactly the state the producer settled, and so the
/// root agrees. `b.produced()` is what production ensures of every block it seals.
pub proof fn law_sealed_block_is_accepted(n: NodeV, m: NodeV, b: BlockV, now: u128, later: u128)
    requires
        m.db == n.db,
        m.fixed == n.fixed,
        m.chain_id == n.chain_id,
        m.slot == n.slot,
        chain::produced(n, now).0 == Ok::<Option<BlockV>, Seq<char>>(Some(b)),
        b.produced(),
        all_fitting(n, n.pool),
        n.leader(now as nat) == Some(n.address()),
        n.attempt(now as nat) <= chain::MAX_LEADER_ATTEMPTS,
        n.tip_time() < u128::MAX,
        now <= later,
        n.tip_time() <= later,
    ensures
        chain::importable(m, b, later as nat) == Ok::<bool, Seq<char>>(true),
        chain::executed(m.fixed, m.db, b) == Ok::<Db, Seq<char>>(chain::next_state(n, b.height)),
        chain::imported(m, b, later).0 == Ok::<bool, Seq<char>>(true),
{
    lemma_sealed_fields(n, b, now);
    lemma_batch_good(n, b.height);
    lemma_good_carriable(n, b.transactions, b.height);
    let ts = b.timestamp_ms as nat;
    assert(ts >= now && ts > n.tip_time() && ts <= later + 1);
    lemma_attempt_in_window(n, now, later, ts);
    let set = staking::set_at(n.db, b.height);
    let bound = chain::attempt_window(n.tip_time() as nat, ts, later as nat, n.slot as nat);
    let a = n.attempt(now as nat);
    assert(staking::leader_of(set, b.height as nat, b.parent_hash, a as nat) == Some(b.producer));
    assert(chain::electable(set, b.height as nat, b.parent_hash, bound, b.producer));
    assert(m.tip_time() == n.tip_time());
    assert(m.floor() == n.floor());
    lemma_checks_pass(m, b, later);
}

/// What a node's next block burns: by reports and by missed slots.
pub open spec fn burned_in(n: NodeV, b: BlockV) -> nat {
    conserve::block_burn(n.fixed, n.db, b.transactions, b.height, b.parent_hash, b.producer)
}

/// The supply of a chain grows by exactly the reward per sealed block, less what the block
/// burns; and a block burns nothing when it carries no report and missed slots cost
/// nothing yet.
pub proof fn law_sealing_adds_the_reward(n: NodeV, b: BlockV, now: u128)
    requires
        conserve::steady(n.db),
        state::supply_of(n.db) + staking::BLOCK_REWARD <= u128::MAX,
        chain::produced(n, now).0 == Ok::<Option<BlockV>, Seq<char>>(Some(b)),
    ensures
        ({
            let m = chain::produced(n, now).1;
            &&& conserve::steady(m.db)
            &&& state::supply_of(m.db) + burned_in(n, b) == state::supply_of(n.db)
                + staking::BLOCK_REWARD
            &&& b.height < n.fixed.params.slashing_activation && conserve::no_reports(
                b.transactions,
            ) ==> burned_in(n, b) == 0
            &&& state::finalized_of(m.db) >= state::finalized_of(n.db)
        }),
{
    let h = b.height;
    let txs = mempool::txs_of(mempool::batch_of(n.pool, chain::MAX_TXS_PER_BLOCK as nat).0);
    chain::law_included_transactions_replay(n.db, txs, h);
    conserve::law_block_adds_the_reward(
        n.fixed,
        n.db,
        b.transactions,
        h,
        b.parent_hash,
        b.producer,
    );
    lemma_advanced_supply(n, n.db, chain::next_state(n, h), b, now);
}

/// The same of an imported block.
pub proof fn law_importing_adds_the_reward(n: NodeV, b: BlockV, now: u128)
    requires
        conserve::steady(n.db),
        state::supply_of(n.db) + staking::BLOCK_REWARD <= u128::MAX,
        chain::imported(n, b, now).0 == Ok::<bool, Seq<char>>(true),
    ensures
        ({
            let m = chain::imported(n, b, now).1;
            &&& conserve::steady(m.db)
            &&& state::supply_of(m.db) + burned_in(n, b) == state::supply_of(n.db)
                + staking::BLOCK_REWARD
            &&& b.height < n.fixed.params.slashing_activation && conserve::no_reports(
                b.transactions,
            ) ==> burned_in(n, b) == 0
            &&& state::finalized_of(m.db) >= state::finalized_of(n.db)
        }),
{
    conserve::law_block_adds_the_reward(
        n.fixed,
        n.db,
        b.transactions,
        b.height,
        b.parent_hash,
        b.producer,
    );
    let g = chain::executed(n.fixed, n.db, b)->Ok_0;
    lemma_advanced_supply(n, n.db, g, b, now);
}

/// Adopting a settled block keeps accounts and the finalized height.
proof fn lemma_advanced_supply(n: NodeV, db: Db, g: Db, b: BlockV, now: u128)
    requires
        conserve::steady(g),
        conserve::within(db, g),
    ensures
        conserve::steady(chain::advanced(n, g, b, now).db),
        state::supply_of(chain::advanced(n, g, b, now).db) == state::supply_of(g),
        state::finalized_of(chain::advanced(n, g, b, now).db) >= state::finalized_of(db),
{
    supply::lemma_meta_names();
    chain::lemma_adopted(n.fixed, g, b);
    let a = chain::adopted(n.fixed, g, b);
    supply::lemma_votes_frame(
        TrackerV {
            pending: consensus::votes_kept(
                n.votes.pending,
                b.height as nat,
                state::finalized_of(a),
            ),
            ..n.votes
        },
        a,
        consensus::votes_at(n.votes.pending, b.height as nat),
    );
    let m = chain::advanced(n, g, b, now);
    assert(g[0] == a[0] && g[4] == a[4]);
    assert(a[0] == m.db[0] && a[4] == m.db[4]);
    supply::lemma_supply_frame(g, m.db);
    lemma_adopted_finality(n.fixed, g, b);
    assert(state::meta(g, "finalized_height"@) == state::meta(db, "finalized_height"@));
}

/// Adopting a block leaves the finalized height.
proof fn lemma_adopted_finality(f: FixedV, db: Db, b: BlockV)
    requires
        db.len() == 16,
    ensures
        state::meta(chain::adopted(f, db, b), "finalized_height"@) == state::meta(
            db,
            "finalized_height"@,
        ),
{
    supply::lemma_meta_names();
    let name = "finalized_height"@;
    let h = text::be(b.height as nat, 8);
    let d0 = crate::ledger::put(db, 1, h, crate::journal::CellV::Block(b));
    supply::lemma_indexed_frame(d0, b.transactions, b.height as nat);
    let d1 = state::with_indexed(d0, b.transactions, b.height as nat);
    assert(d1[3] == db[3]);
    supply::lemma_meta_after(d1, "tip_height"@, h, name);
    let d2 = state::with_meta(d1, "tip_height"@, h);
    supply::lemma_meta_after(d2, "tip_hash"@, text::utf8(b.hash), name);
    let d3 = state::with_block(db, b);
    let fee = text::utf8(
        text::dec(fees::fee_after(state::base_fee_of(d3), b.transactions.len())),
    );
    supply::lemma_meta_after(d3, "base_fee"@, fee, name);
    let d4 = state::with_meta(d3, "base_fee"@, fee);
    let v = text::utf8(
        state::joined(text::dec(b.height as nat), state::state_root_of(f.notes, db)),
    );
    supply::lemma_meta_after(d4, "state_checkpoint"@, v, name);
}

} // verus!
