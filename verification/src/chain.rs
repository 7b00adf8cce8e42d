//! Consensus and execution: admission, block production and block import.

use crate::apply;
use crate::consensus;
use crate::consensus::TrackerV;
use crate::consensus::VoteTracker;
use crate::contracts;
use crate::crypto;
use crate::crypto::Keypair;
use crate::events;
use crate::events::BusV;
use crate::events::Event;
use crate::events::EventBus;
use crate::events::EventV;
use crate::events::Notice;
use crate::events::NoticeV;
use crate::events::Topic;
use crate::fees;
use crate::journal::Db;
use crate::mempool;
use crate::mempool::Mempool;
use crate::mempool::PoolV;
use crate::rank;
use crate::slashing;
use crate::slashing::Evidence;
use crate::slashing::EvidenceV;
use crate::staking;
use crate::staking::Validator;
use crate::staking::ValidatorV;
use crate::state;
use crate::state::FixedV;
use crate::state::Store;
use crate::supply;
use crate::text;
use crate::tokens;
use crate::types;
use crate::types::AccountV;
use crate::types::AllocV;
use crate::types::Block;
use crate::types::BlockV;
use crate::types::Genesis;
use crate::types::GenesisAlloc;
use crate::types::SyncView;
use crate::types::Transaction;
use crate::types::TxKind;
use crate::types::TxV;
use vstd::prelude::*;
use vstd::string::*;

verus! {

/// Most transactions one block may carry.
pub const MAX_TXS_PER_BLOCK: usize = 5_000;

/// Absolute ceiling on rotation attempts accepted for one height. Large enough that a
/// long outage still heals, small enough to bound validation work.
pub const MAX_LEADER_ATTEMPTS: u64 = 4096;

/// Extra attempts tolerated on import to absorb clock and network jitter.
pub const LEADER_ATTEMPT_SLACK: u64 = 2;

/// How far ahead of the local clock a block may be dated.
pub const MAX_TIMESTAMP_DRIFT_MS: u128 = 12_000;

/// How many blocks shorter a peer's chain may be for this node to adopt it.
pub const MAX_REORG_DEPTH: u64 = 5_000;

/// `std::time::SystemTime::now` since the Unix epoch, in milliseconds. Nothing is
/// claimed of the clock.
#[verifier::external_body]
pub fn now_ms() -> (r: u128) {
    std::time::SystemTime::now().duration_since(std::time::UNIX_EPOCH).map_or(0, |d| d.as_millis())
}

// ---------------------------------------------------------------- timestamps

/// A block's timestamp is after its parent's and not too far in the future.
pub open spec fn timely(parent: nat, ts: nat, now: nat) -> bool {
    ts > parent && ts <= now + MAX_TIMESTAMP_DRIFT_MS
}

/// Verdict on a block's timestamp.
pub open spec fn timestamp_verdict(parent: nat, ts: nat, now: nat) -> Result<(), Seq<char>> {
    if ts <= parent {
        Err("block timestamp is not after its parent"@)
    } else if ts > now + MAX_TIMESTAMP_DRIFT_MS {
        Err("block timestamp is too far in the future"@)
    } else {
        Ok(())
    }
}

/// Checks a block's timestamp against its parent's and the local clock.
pub fn check_timestamp(parent_ms: u128, timestamp_ms: u128, now: u128) -> (r: Result<(), String>)
    ensures
        state::agrees(
            r,
            timestamp_verdict(parent_ms as nat, timestamp_ms as nat, now as nat),
        ),
        r is Ok <==> timely(parent_ms as nat, timestamp_ms as nat, now as nat),
{
    if timestamp_ms <= parent_ms {
        return Err(text::copy("block timestamp is not after its parent"));
    }
    if timestamp_ms > MAX_TIMESTAMP_DRIFT_MS && timestamp_ms - MAX_TIMESTAMP_DRIFT_MS > now {
        return Err(text::copy("block timestamp is too far in the future"));
    }
    Ok(())
}

/// A number of slots between two times, as far as it fits. A slot lasts at least a
/// millisecond.
pub open spec fn slots_between(from: nat, to: nat, slot: nat) -> u64 {
    let width = if slot == 0 {
        1
    } else {
        slot
    };
    let n = if to < from {
        0
    } else {
        ((to - from) / (width as int)) as nat
    };
    if n <= u64::MAX {
        n as u64
    } else {
        u64::MAX
    }
}

/// Counts the slots between two times.
fn count_slots(from: u128, to: u128, slot: u64) -> (r: u64)
    ensures
        r == slots_between(from as nat, to as nat, slot as nat),
{
    if to < from {
        return 0;
    }
    let width: u128 = if slot == 0 {
        1
    } else {
        slot as u128
    };
    let n: u128 = (to - from) / width;
    if n <= u64::MAX as u128 {
        n as u64
    } else {
        u64::MAX
    }
}

/// Highest attempt a block may have been elected on: one for every slot its own
/// timestamp lies after its parent's, and no more than the local clock allows, so
/// dating a block into the future buys nothing.
pub open spec fn attempt_window(parent: nat, ts: nat, now: nat, slot: nat) -> u64 {
    let to = if ts < now {
        ts
    } else {
        now
    };
    let n = slots_between(parent, to, slot);
    if n + LEADER_ATTEMPT_SLACK < MAX_LEADER_ATTEMPTS {
        (n + LEADER_ATTEMPT_SLACK) as u64
    } else {
        MAX_LEADER_ATTEMPTS
    }
}

/// Highest attempt a block may have been elected on.
pub fn leader_attempt_window(parent_ms: u128, timestamp_ms: u128, now: u128, slot_ms: u64) -> (r:
    u64)
    ensures
        r == attempt_window(parent_ms as nat, timestamp_ms as nat, now as nat, slot_ms as nat),
{
    let to: u128 = if timestamp_ms < now {
        timestamp_ms
    } else {
        now
    };
    let n = count_slots(parent_ms, to, slot_ms);
    if n < MAX_LEADER_ATTEMPTS - LEADER_ATTEMPT_SLACK {
        n + LEADER_ATTEMPT_SLACK
    } else {
        MAX_LEADER_ATTEMPTS
    }
}

/// A block dated into the future gets no more attempts than one dated now.
pub proof fn law_future_dates_buy_no_attempts(parent: nat, ts: nat, now: nat, slot: nat)
    requires
        ts >= now,
    ensures
        attempt_window(parent, ts, now, slot) == attempt_window(parent, now, now, slot),
{
}

/// Verdict on adopting a peer's chain in place of the local one.
pub open spec fn reorg_verdict(local: nat, peer: nat) -> Result<(), Seq<char>> {
    if local > peer + MAX_REORG_DEPTH {
        Err("refusing reorg: peer chain is too far behind"@)
    } else {
        Ok(())
    }
}

/// Checks that adopting a peer's chain discards no more than the allowed depth.
pub fn check_reorg_depth(local_height: u64, peer_height: u64) -> (r: Result<(), String>)
    ensures
        state::agrees(r, reorg_verdict(local_height as nat, peer_height as nat)),
        r is Ok <==> local_height <= peer_height + MAX_REORG_DEPTH,
{
    if local_height > peer_height && local_height - peer_height > MAX_REORG_DEPTH {
        return Err(text::copy("refusing reorg: peer chain is too far behind"));
    }
    Ok(())
}

// ---------------------------------------------------------------- signatures

/// Every transaction of a list carries an accepted signature.
pub open spec fn all_signed(txs: Seq<TxV>) -> bool {
    forall|i: int| 0 <= i < txs.len() ==> (#[trigger] txs[i]).signed()
}

/// Checks the signature of every transaction of a list.
pub fn verify_signatures(txs: &[Transaction]) -> (r: bool)
    ensures
        r == all_signed(types::txs_view(txs@)),
{
    let ghost v = types::txs_view(txs@);
    let mut i: usize = 0;
    while i < txs.len()
        invariant
            i <= txs@.len(),
            v == types::txs_view(txs@),
            forall|j: int| 0 <= j < i ==> (#[trigger] v[j]).signed(),
        decreases txs@.len() - i,
    {
        assert(v[i as int] == txs@[i as int]@);
        if !txs[i].verify_signature() {
            return false;
        }
        i = i + 1;
    }
    true
}

// ---------------------------------------------------------------- executing a block

/// What a batch of transactions comes to when refused ones are dropped.
#[verifier::ext_equal]
pub struct BatchV {
    pub db: Db,
    pub included: Seq<TxV>,
    pub fees: u128,
}

/// A batch applied in order, refused transactions dropped.
pub open spec fn drained(db: Db, txs: Seq<TxV>, height: u64) -> BatchV
    decreases txs.len(),
{
    if txs.len() == 0 {
        BatchV { db, included: Seq::empty(), fees: 0 }
    } else {
        let b = drained(db, txs.drop_last(), height);
        match apply::applied(b.db, txs.last(), height) {
            Ok((fee, d)) => BatchV {
                db: d,
                included: b.included.push(txs.last()),
                fees: staking::capped_sum(b.fees, fee),
            },
            Err(_) => b,
        }
    }
}

/// Why a block is refused for one of its transactions.
pub open spec fn tx_fault(tx: TxV, e: Seq<char>) -> Seq<char> {
    "tx "@ + tx.hash_text().take(8) + " invalid: "@ + e
}

/// A block's transactions applied in order: the database and the fees, or why one of
/// them is refused.
pub open spec fn replayed(db: Db, txs: Seq<TxV>, height: u64) -> Result<(Db, u128), Seq<char>>
    decreases txs.len(),
{
    if txs.len() == 0 {
        Ok((db, 0))
    } else {
        match replayed(db, txs.drop_last(), height) {
            Err(e) => Err(e),
            Ok((d, fees)) => match apply::applied(d, txs.last(), height) {
                Err(e) => Err(tx_fault(txs.last(), e)),
                Ok((fee, g)) => Ok((g, staking::capped_sum(fees, fee))),
            },
        }
    }
}

/// What a producer includes, every importer accepts: replaying the included
/// transactions gives the same database and the same fees.
pub proof fn law_included_transactions_replay(db: Db, txs: Seq<TxV>, height: u64)
    ensures
        replayed(db, drained(db, txs, height).included, height) == Ok::<(Db, u128), Seq<char>>(
            (drained(db, txs, height).db, drained(db, txs, height).fees),
        ),
        drained(db, txs, height).included.len() <= txs.len(),
    decreases txs.len(),
{
    if txs.len() > 0 {
        let b = drained(db, txs.drop_last(), height);
        law_included_transactions_replay(db, txs.drop_last(), height);
        assert(b.included.push(txs.last()).drop_last() =~= b.included);
    }
}

/// Applies a batch, dropping refused transactions.
fn drain_batch(store: &mut Store, batch: Vec<Transaction>, height: u64) -> (r: (
    Vec<Transaction>,
    u128,
))
    requires
        old(store).wf(),
    ensures
        state::follows(*old(store), *final(store)),
        ({
            let b = drained(old(store)@.db, types::txs_view(batch@), height);
            &&& final(store)@.db == b.db
            &&& types::txs_view(r.0@) == b.included
            &&& r.1 == b.fees
        }),
{
    let ghost all = types::txs_view(batch@);
    let ghost db0 = store@.db;
    let mut included: Vec<Transaction> = Vec::new();
    let mut fees: u128 = 0;
    let mut i: usize = 0;
    proof {
        assert(all.take(0) =~= Seq::<TxV>::empty());
        assert(types::txs_view(included@) =~= Seq::<TxV>::empty());
    }
    while i < batch.len()
        invariant
            i <= batch@.len(),
            all == types::txs_view(batch@),
            state::follows(*old(store), *store),
            ({
                let b = drained(db0, all.take(i as int), height);
                &&& store@.db == b.db
                &&& types::txs_view(included@) == b.included
                &&& fees == b.fees
            }),
        decreases batch@.len() - i,
    {
        proof {
            assert(all.take(i + 1).drop_last() =~= all.take(i as int));
            assert(all.take(i + 1).last() == batch@[i as int]@);
        }
        match apply::apply_tx(store, &batch[i], height) {
            Ok(fee) => {
                fees = fees.saturating_add(fee);
                let ghost was = types::txs_view(included@);
                let tx = batch[i].clone();
                let ghost tv = tx@;
                included.push(tx);
                assert(types::txs_view(included@) =~= was.push(tv));
            },
            Err(_) => {},
        }
        i = i + 1;
    }
    assert(all.take(all.len() as int) =~= all);
    (included, fees)
}

proof fn lemma_replayed_fails(db: Db, txs: Seq<TxV>, height: u64, k: int)
    requires
        0 <= k <= txs.len(),
        replayed(db, txs.take(k), height) is Err,
    ensures
        replayed(db, txs, height) == replayed(db, txs.take(k), height),
    decreases txs.len(),
{
    if k == txs.len() {
        assert(txs.take(k) =~= txs);
    } else {
        assert(txs.drop_last().take(k) =~= txs.take(k));
        lemma_replayed_fails(db, txs.drop_last(), height, k);
    }
}

/// Why a block is refused for one of its transactions.
fn fault_text(tx: &Transaction, e: &str) -> (r: String)
    ensures
        r@ == tx_fault(tx@, e@),
{
    let hash = tx.hash();
    let short = text::prefix(hash.as_str(), 8);
    let mut m = text::copy("tx ");
    m.append(short.as_str());
    m.append(" invalid: ");
    m.append(e);
    proof {
        crypto::lemma_hash_text_len(
            text::utf8(tx@.signing_text()) + text::utf8(tx@.signature),
        );
        assert(m@ =~= tx_fault(tx@, e@));
    }
    m
}

/// Applies a block's transactions; the first refused one refuses the block.
#[verifier::rlimit(40)]
fn replay_txs(store: &mut Store, txs: &Vec<Transaction>, height: u64) -> (r: Result<u128, String>)
    requires
        old(store).wf(),
    ensures
        state::follows(*old(store), *final(store)),
        match r {
            Ok(fees) => replayed(old(store)@.db, types::txs_view(txs@), height) == Ok::<
                (Db, u128),
                Seq<char>,
            >((final(store)@.db, fees)),
            Err(e) => replayed(old(store)@.db, types::txs_view(txs@), height) == Err::<
                (Db, u128),
                Seq<char>,
            >(e@),
        },
{
    let ghost all = types::txs_view(txs@);
    let ghost db0 = store@.db;
    let mut fees: u128 = 0;
    let mut i: usize = 0;
    assert(all.take(0) =~= Seq::<TxV>::empty());
    while i < txs.len()
        invariant
            i <= txs@.len(),
            all == types::txs_view(txs@),
            db0 == old(store)@.db,
            state::follows(*old(store), *store),
            replayed(db0, all.take(i as int), height) == Ok::<(Db, u128), Seq<char>>(
                (store@.db, fees),
            ),
        decreases txs@.len() - i,
    {
        proof {
            assert(all.take(i + 1).drop_last() =~= all.take(i as int));
            assert(all.take(i + 1).last() == txs@[i as int]@);
        }
        match apply::apply_tx(store, &txs[i], height) {
            Ok(fee) => {
                fees = fees.saturating_add(fee);
            },
            Err(e) => {
                proof {
                    lemma_replayed_fails(db0, all, height, i + 1);
                }
                return Err(fault_text(&txs[i], e.as_str()));
            },
        }
        i = i + 1;
    }
    assert(all.take(all.len() as int) =~= all);
    Ok(fees)
}

/// The database once a block's transactions ran: matured unbonds are released, missed
/// slots charged, then fees and reward paid, so a validator jailed at this height is
/// already out of the set that is paid.
pub open spec fn settled(
    f: FixedV,
    db: Db,
    height: u64,
    parent: Seq<char>,
    producer: Seq<char>,
    fees: nat,
) -> Db {
    staking::paid(
        slashing::lived(
            f,
            staking::all_released(db, state::stakers_of(db), height),
            height,
            parent,
            producer,
        ),
        producer,
        fees,
    )
}

/// Settles a block.
fn settle(store: &mut Store, height: u64, parent: &str, producer: &str, fees: u128)
    requires
        old(store).wf(),
    ensures
        state::follows(*old(store), *final(store)),
        final(store)@.db == settled(
            old(store).fixed(),
            old(store)@.db,
            height,
            parent@,
            producer@,
            fees as nat,
        ),
{
    let _ = staking::release_unbonded(store, height);
    slashing::record_liveness(store, height, parent, producer);
    staking::pay_rewards(store, producer, fees);
}

/// The database with a block adopted: stored, the base fee moved with its load, and the
/// digest of the state it left recorded.
pub open spec fn adopted(f: FixedV, db: Db, b: BlockV) -> Db {
    let d = state::with_block(db, b);
    state::with_checkpoint(
        state::with_meta(
            d,
            "base_fee"@,
            text::utf8(text::dec(fees::fee_after(state::base_fee_of(d), b.transactions.len()))),
        ),
        b.height as nat,
        state::state_root_of(f.notes, db),
    )
}

/// Adopts a block.
fn adopt(store: &mut Store, block: &Block)
    requires
        old(store).wf(),
    ensures
        state::follows(*old(store), *final(store)),
        final(store)@.db == adopted(old(store).fixed(), old(store)@.db, block@),
{
    assert(block@.transactions.len() == block.transactions@.len());
    let digest = store.state_root();
    store.put_block(block);
    let fee = fees::next_base_fee(store.base_fee(), block.transactions.len());
    store.set_base_fee(fee);
    store.set_state_checkpoint(block.height, digest.as_str());
}


// ---------------------------------------------------------------- the node

/// A node: its state, its pool, its key and what it knows of the network.
pub struct Node {
    pub store: Store,
    pub genesis: Genesis,
    pub producer: Keypair,
    pub mempool: Mempool,
    /// Finality precommits seen from the validator set.
    pub votes: VoteTracker,
    /// Live push subscriptions.
    pub events: EventBus,
    /// What peers reported of their progress.
    pub sync: SyncView,
    /// Single-node mode: seal every slot even when another validator is elected.
    pub solo: bool,
    /// Serving-only replica: syncs and answers queries, never seals a block.
    pub serving_only: bool,
    /// Wall-clock milliseconds when the current tip was adopted.
    pub tip_seen_ms: u128,
    /// Finalized height already announced, so finality fires once per height.
    pub announced_final: u64,
}

/// Model of a node.
#[verifier::ext_equal]
pub struct NodeV {
    pub db: Db,
    pub fixed: FixedV,
    pub chain_id: u64,
    pub slot: u64,
    pub alloc: Seq<AllocV>,
    pub chain_name: Seq<char>,
    pub symbol: Seq<char>,
    pub decimals: u8,
    pub punishes_from: Option<u64>,
    pub seed: Seq<u8>,
    pub pool: Seq<PoolV>,
    pub bound: u64,
    pub votes: TrackerV,
    pub bus: BusV,
    pub best_peer: u64,
    pub solo: bool,
    pub serving_only: bool,
    pub tip_seen: u128,
    pub announced: u64,
}

impl View for Node {
    type V = NodeV;

    open spec fn view(&self) -> NodeV {
        NodeV {
            db: self.store@.db,
            fixed: self.store.fixed(),
            chain_id: self.genesis.chain_id,
            slot: self.genesis.block_time_ms,
            alloc: types::allocs(self.genesis.alloc@),
            chain_name: self.genesis.chain_name@,
            symbol: self.genesis.symbol@,
            decimals: self.genesis.decimals,
            punishes_from: self.genesis.slashing_activation_height,
            seed: self.producer.seed@,
            pool: self.mempool@,
            bound: self.mempool.bound(),
            votes: self.votes@,
            bus: self.events@,
            best_peer: self.sync.best_peer_height,
            solo: self.solo,
            serving_only: self.serving_only,
            tip_seen: self.tip_seen_ms,
            announced: self.announced_final,
        }
    }
}

impl NodeV {
    /// Public key of the node.
    pub open spec fn public(self) -> Seq<u8> {
        crypto::ed25519_public(self.seed)
    }

    /// Address of the node.
    pub open spec fn address(self) -> Seq<char> {
        crypto::base58_of(self.public())
    }

    /// Whether the node is halted.
    pub open spec fn halted(self) -> bool {
        state::meta(self.db, "halt_reason"@) is Some
    }

    /// Fee floor of the next block.
    pub open spec fn floor(self) -> nat {
        fees::floor_at(staking::next_height(self.db) as nat, state::base_fee_of(self.db))
    }

    /// Timestamp of the tip, zero when there is none.
    pub open spec fn tip_time(self) -> u128 {
        match state::tip_height_of(self.db) {
            None => 0,
            Some(h) => match state::block_of(self.db, h) {
                None => 0,
                Some(b) => b.timestamp_ms,
            },
        }
    }

    /// Slot attempt for the next height at a time. It comes from the parent block's own
    /// timestamp, so every node reaches the same answer: one slot for the primary
    /// leader, one grace slot, then rotate for ever.
    pub open spec fn attempt(self, now: nat) -> u64 {
        if self.tip_time() == 0 {
            let n = slots_between(self.tip_seen as nat, now, self.slot as nat);
            if n < MAX_LEADER_ATTEMPTS {
                n
            } else {
                MAX_LEADER_ATTEMPTS
            }
        } else {
            let n = slots_between(self.tip_time() as nat, now, self.slot as nat);
            if n == 0 {
                0
            } else {
                (n - 1) as u64
            }
        }
    }

    /// Whether the tip has not moved for several slots at a time.
    pub open spec fn stale(self, now: nat) -> bool {
        let slot = if self.slot == 0 {
            1
        } else {
            self.slot as nat
        };
        now > self.tip_seen + 6 * slot
    }

    /// The validator scheduled to seal the next block at a time.
    pub open spec fn leader(self, now: nat) -> Option<Seq<char>> {
        let h = staking::next_height(self.db);
        staking::leader_of(
            staking::set_at(self.db, h),
            h as nat,
            state::tip_hash_of(self.db),
            self.attempt(now) as nat,
        )
    }
}

// ---------------------------------------------------------------- genesis

/// One funded account of genesis credited.
pub open spec fn funded_one(db: Db, a: AllocV) -> Result<Db, Seq<char>> {
    if !crypto::valid_address(a.address) {
        Err("invalid genesis address "@ + a.address)
    } else {
        match text::fixed_value(a.balance, 9) {
            Err(e) => Err(e),
            Ok(b) => {
                let acct = state::account_of(db, a.address);
                if acct.balance + b > u128::MAX {
                    Err("balance overflow"@)
                } else {
                    let funded = AccountV { balance: (acct.balance + b) as u128, ..acct };
                    match a.stake {
                        None => Ok(state::with_account(db, a.address, funded)),
                        Some(t) => match text::fixed_value(t, 9) {
                            Err(e) => Err(e),
                            Ok(s) => if acct.staked + s > u128::MAX {
                                Err("stake overflow"@)
                            } else {
                                Ok(
                                    state::with_account(
                                        db,
                                        a.address,
                                        AccountV { staked: (acct.staked + s) as u128, ..funded },
                                    ),
                                )
                            },
                        },
                    }
                }
            },
        }
    }
}

/// The funded accounts of genesis credited in order.
pub open spec fn funded(db: Db, alloc: Seq<AllocV>) -> Result<Db, Seq<char>>
    decreases alloc.len(),
{
    if alloc.len() == 0 {
        Ok(db)
    } else {
        match funded(db, alloc.drop_last()) {
            Err(e) => Err(e),
            Ok(d) => funded_one(d, alloc.last()),
        }
    }
}

/// The parent hash of the first block.
pub open spec fn no_parent() -> Seq<char> {
    Seq::new(64, |i: int| '0')
}

/// The first block over a state root. It carries no producer, timestamp or signature of
/// a node, so it is the same on every node.
pub open spec fn genesis_block(root: Seq<char>) -> BlockV {
    let b = BlockV {
        height: 0,
        parent_hash: no_parent(),
        timestamp_ms: 0,
        state_root: root,
        txs_root: types::txs_root_of(Seq::<TxV>::empty()),
        producer: "genesis"@,
        producer_pubkey: ""@,
        transactions: Seq::empty(),
        signature: ""@,
        hash: ""@,
    };
    BlockV { hash: b.hash_text(), ..b }
}

/// Outcome of starting a chain.
pub open spec fn started(n: NodeV) -> Result<(BlockV, Db), Seq<char>> {
    if state::tip_height_of(n.db) is Some {
        Err("chain already initialized"@)
    } else {
        match funded(n.db, n.alloc) {
            Err(e) => Err(e),
            Ok(d) => {
                let b = genesis_block(state::state_root_of(n.fixed.notes, d));
                Ok((b, state::with_block(d, b)))
            },
        }
    }
}

/// Genesis is a function of the funded accounts: two nodes that start empty with the
/// same genesis seal the same first block.
pub proof fn law_genesis_is_identical_across_nodes(a: NodeV, b: NodeV)
    requires
        a.db == b.db,
        a.alloc == b.alloc,
        a.fixed.notes == b.fixed.notes,
    ensures
        started(a) == started(b),
{
}

/// Credits one funded account of genesis.
fn fund_one(store: &mut Store, a: &GenesisAlloc) -> (r: Result<(), String>)
    requires
        old(store).wf(),
    ensures
        state::follows(*old(store), *final(store)),
        tokens::wrote(r, funded_one(old(store)@.db, a@), final(store)@.db),
{
    if !crypto::is_valid_address(a.address.as_str()) {
        let mut m = text::copy("invalid genesis address ");
        m.append(a.address.as_str());
        return Err(m);
    }
    let b = match types::parse_inaz(a.balance.as_str()) {
        Ok(b) => b,
        Err(e) => {
            return Err(e);
        },
    };
    let mut acct = store.account(a.address.as_str());
    let ghost was = acct@;
    match acct.balance.checked_add(b) {
        None => {
            return Err(text::copy("balance overflow"));
        },
        Some(n) => {
            acct.balance = n;
        },
    }
    match &a.stake {
        None => {},
        Some(t) => {
            let s = match types::parse_inaz(t.as_str()) {
                Ok(s) => s,
                Err(e) => {
                    return Err(e);
                },
            };
            match acct.staked.checked_add(s) {
                None => {
                    return Err(text::copy("stake overflow"));
                },
                Some(n) => {
                    acct.staked = n;
                },
            }
        },
    }
    assert(acct@ =~= AccountV { balance: acct.balance, staked: acct.staked, ..was });
    store.set_account(a.address.as_str(), &acct);
    Ok(())
}

proof fn lemma_funded_fails(db: Db, alloc: Seq<AllocV>, k: int)
    requires
        0 <= k <= alloc.len(),
        funded(db, alloc.take(k)) is Err,
    ensures
        funded(db, alloc) == funded(db, alloc.take(k)),
    decreases alloc.len(),
{
    if k == alloc.len() {
        assert(alloc.take(k) =~= alloc);
    } else {
        assert(alloc.drop_last().take(k) =~= alloc.take(k));
        lemma_funded_fails(db, alloc.drop_last(), k);
    }
}

/// Credits the funded accounts of genesis.
fn fund(store: &mut Store, alloc: &Vec<GenesisAlloc>) -> (r: Result<(), String>)
    requires
        old(store).wf(),
    ensures
        state::follows(*old(store), *final(store)),
        tokens::wrote(r, funded(old(store)@.db, types::allocs(alloc@)), final(store)@.db),
{
    let ghost all = types::allocs(alloc@);
    let ghost db0 = store@.db;
    let mut i: usize = 0;
    assert(all.take(0) =~= Seq::<AllocV>::empty());
    while i < alloc.len()
        invariant
            i <= alloc@.len(),
            all == types::allocs(alloc@),
            db0 == old(store)@.db,
            state::follows(*old(store), *store),
            funded(db0, all.take(i as int)) == Ok::<Db, Seq<char>>(store@.db),
        decreases alloc@.len() - i,
    {
        proof {
            assert(all.take(i + 1).drop_last() =~= all.take(i as int));
            assert(all.take(i + 1).last() == alloc@[i as int]@);
        }
        match fund_one(store, &alloc[i]) {
            Ok(()) => {},
            Err(e) => {
                proof {
                    lemma_funded_fails(db0, all, i + 1);
                }
                return Err(e);
            },
        }
        i = i + 1;
    }
    assert(all.take(all.len() as int) =~= all);
    Ok(())
}

/// The text of a hash of zeroes.
fn zero_hash() -> (r: String)
    ensures
        r@ == no_parent(),
{
    let mut s = String::new();
    let mut i: usize = 0;
    while i < 64
        invariant
            i <= 64,
            s@ =~= Seq::new(i as nat, |j: int| '0'),
        decreases 64 - i,
    {
        s.push('0');
        i = i + 1;
    }
    s
}

/// Seals the first block over a state root.
fn seal_genesis(root: String) -> (r: Block)
    ensures
        r@ == genesis_block(root@),
{
    let txs: Vec<Transaction> = Vec::new();
    assert(types::txs_view(txs@) =~= Seq::<TxV>::empty());
    let mut b = Block {
        height: 0,
        parent_hash: zero_hash(),
        timestamp_ms: 0,
        state_root: root,
        txs_root: types::txs_root(&txs),
        producer: text::copy("genesis"),
        producer_pubkey: text::copy(""),
        transactions: txs,
        signature: text::copy(""),
        hash: text::copy(""),
    };
    let ghost was = b@;
    b.hash = b.compute_hash();
    assert(b@ =~= BlockV { hash: was.hash_text(), ..was });
    b
}

impl Node {
    /// Every part is well formed.
    pub open spec fn wf(self) -> bool {
        &&& self.store.wf()
        &&& self.mempool.wf()
        &&& self.votes.wf()
    }

    /// A node over a store, not started yet.
    pub fn new(store: Store, genesis: Genesis, producer: Keypair) -> (r: Node)
        requires
            store.wf(),
        ensures
            r.wf(),
            r.store == store,
            r.genesis == genesis,
            r.producer == producer,
            r@.pool == Seq::<PoolV>::empty(),
            r@.bound == 0,
            r@.votes == consensus::fresh_tracker(),
            r@.bus.subs.len() == 0,
            r@.best_peer == 0,
            r@.solo,
            !r@.serving_only,
            r@.announced == 0,
    {
        Node {
            store,
            genesis,
            producer,
            mempool: Mempool::new(),
            votes: VoteTracker::new(),
            events: EventBus::new(),
            sync: SyncView { best_peer_height: 0 },
            solo: true,
            serving_only: false,
            tip_seen_ms: now_ms(),
            announced_final: 0,
        }
    }

    /// Makes the node a serving-only replica, or ends that.
    pub fn set_serving_only(&mut self, on: bool)
        requires
            old(self).wf(),
        ensures
            final(self).wf(),
            state::follows(old(self).store, final(self).store),
            final(self)@ == (NodeV { serving_only: on, ..old(self)@ }),
    {
        self.serving_only = on;
        assert(self@ =~= NodeV { serving_only: on, ..old(self)@ });
    }

    /// Whether the node is a serving-only replica.
    pub fn serving_only(&self) -> (r: bool)
        ensures
            r == self@.serving_only,
    {
        self.serving_only
    }

    /// Turns single-node mode on or off.
    pub fn set_solo(&mut self, solo: bool)
        requires
            old(self).wf(),
        ensures
            final(self).wf(),
            state::follows(old(self).store, final(self).store),
            final(self)@ == (NodeV { solo, ..old(self)@ }),
    {
        self.solo = solo;
        assert(self@ =~= NodeV { solo, ..old(self)@ });
    }

    /// Whether the node is in single-node mode.
    pub fn solo(&self) -> (r: bool)
        ensures
            r == self@.solo,
    {
        self.solo
    }

    /// Whether the tip has not moved for several slots at a time.
    pub fn behind_tip_at(&self, now: u128) -> (r: bool)
        ensures
            r == self@.stale(now as nat),
    {
        let slot: u128 = if self.genesis.block_time_ms == 0 {
            1
        } else {
            self.genesis.block_time_ms as u128
        };
        now > self.tip_seen_ms && now - self.tip_seen_ms > slot * 6
    }

    /// Whether the tip has not moved for several slots, so reads served here are
    /// probably stale.
    pub fn behind_tip(&self) -> (r: bool)
        ensures
            exists|now: u128| r == #[trigger] self@.stale(now as nat),
    {
        let now = now_ms();
        let r = self.behind_tip_at(now);
        assert(r == self@.stale(now as nat));
        r
    }

    /// Whether this node's own key has enough stake to validate and vote.
    pub fn is_bonded_validator(&self) -> (r: bool)
        requires
            self.wf(),
        ensures
            r == state::account_of(self@.db, self@.address()).validating(),
    {
        let a = self.producer.address();
        self.store.account(a.as_str()).staked >= types::MIN_STAKE
    }

    /// Timestamp of the tip.
    fn tip_time(&self) -> (r: u128)
        requires
            self.wf(),
        ensures
            r == self@.tip_time(),
    {
        match self.store.tip_height() {
            None => 0,
            Some(h) => match self.store.block(h) {
                None => 0,
                Some(b) => b.timestamp_ms,
            },
        }
    }

    /// Slot attempt for the next height at a time.
    fn current_attempt(&self, now: u128) -> (r: u64)
        requires
            self.wf(),
        ensures
            r == self@.attempt(now as nat),
    {
        let parent_ts = self.tip_time();
        if parent_ts == 0 {
            let n = count_slots(self.tip_seen_ms, now, self.genesis.block_time_ms);
            if n < MAX_LEADER_ATTEMPTS {
                n
            } else {
                MAX_LEADER_ATTEMPTS
            }
        } else {
            let n = count_slots(parent_ts, now, self.genesis.block_time_ms);
            if n == 0 {
                0
            } else {
                n - 1
            }
        }
    }

    /// Writes the genesis allocations and seals the first block. Nothing is written
    /// when a funded account is invalid.
    pub fn init_genesis(&mut self) -> (r: Result<Block, String>)
        requires
            old(self).wf(),
        ensures
            final(self).wf(),
            state::follows(old(self).store, final(self).store),
            match r {
                Ok(b) => started(old(self)@) == Ok::<(BlockV, Db), Seq<char>>((b@, final(self)@.db))
                    && final(self)@ == (NodeV { db: final(self)@.db, ..old(self)@ }),
                Err(e) => started(old(self)@) == Err::<(BlockV, Db), Seq<char>>(e@) && final(self)@
                    == old(self)@,
            },
    {
        if self.store.is_initialized() {
            return Err(text::copy("chain already initialized"));
        }
        self.store.begin_block();
        match fund(&mut self.store, &self.genesis.alloc) {
            Ok(()) => {},
            Err(e) => {
                self.store.abort_block();
                assert(self.store@.saved =~= old(self).store@.saved);
                assert(self@ =~= old(self)@);
                return Err(e);
            },
        }
        self.store.commit_block();
        assert(self.store@.saved =~= old(self).store@.saved);
        let root = self.store.state_root();
        let block = seal_genesis(root);
        self.store.put_block(&block);
        assert(self@ =~= NodeV { db: self@.db, ..old(self)@ });
        Ok(block)
    }
}


// ---------------------------------------------------------------- admission

/// Stateless verdict on a transaction: its hash and sender, or why it is refused. Cheap
/// rejects come first, the signature last.
pub open spec fn prechecked(tx: TxV, chain_id: u64) -> Result<(Seq<char>, Seq<char>), Seq<char>> {
    if tx.chain_id != chain_id {
        Err("wrong chain id"@)
    } else if tx.fee < types::MIN_FEE {
        Err("fee below minimum ("@ + text::dec(types::MIN_FEE as nat) + " rai)"@)
    } else if !tx.signed() {
        Err("invalid signature"@)
    } else {
        match tx.sender() {
            None => Err("invalid sender public key"@),
            Some(s) => Ok((tx.hash_text(), s)),
        }
    }
}

/// Stateless part of admission.
fn precheck_tx(tx: &Transaction, chain_id: u64) -> (r: Result<(String, String), String>)
    ensures
        match r {
            Ok(p) => prechecked(tx@, chain_id) == Ok::<(Seq<char>, Seq<char>), Seq<char>>(
                (p.0@, p.1@),
            ),
            Err(e) => prechecked(tx@, chain_id) == Err::<(Seq<char>, Seq<char>), Seq<char>>(e@),
        },
{
    if tx.chain_id != chain_id {
        return Err(text::copy("wrong chain id"));
    }
    if tx.fee < types::MIN_FEE {
        let mut m = text::copy("fee below minimum (");
        text::push_dec(&mut m, types::MIN_FEE);
        m.append(" rai)");
        return Err(m);
    }
    if !tx.verify_signature() {
        return Err(text::copy("invalid signature"));
    }
    match tx.sender() {
        None => Err(text::copy("invalid sender public key")),
        Some(s) => Ok((tx.hash(), s)),
    }
}

/// What a transaction's kind asks of the state before it may queue.
pub open spec fn queueable(db: Db, tx: TxV, sender: Seq<char>) -> Result<(), Seq<char>> {
    let height = staking::next_height(db);
    let a = state::account_of(db, sender);
    match tx.kind {
        TxKind::Transfer => if crypto::valid_address(tx.to) {
            Ok(())
        } else {
            Err("invalid recipient address"@)
        },
        TxKind::Stake => if tx.amount == 0 {
            Err("stake amount must be positive"@)
        } else {
            Ok(())
        },
        TxKind::Unstake => if tx.amount == 0 {
            Err("unstake amount must be positive"@)
        } else if a.staked < tx.amount {
            Err("not enough staked"@)
        } else {
            Ok(())
        },
        TxKind::ReportEquivocation => match slashing::report_verdict(db, height, tx.payload) {
            Err(e) => Err(e),
            Ok(_) => Ok(()),
        },
        TxKind::Unjail => if a.penalties.tombstoned {
            Err("tombstoned validators can never rejoin"@)
        } else if a.penalties.jailed_until == 0 {
            Err("validator is not jailed"@)
        } else if a.penalties.jailed_until > height {
            Err("jail period has not expired yet"@)
        } else {
            Ok(())
        },
        _ => apply::rules_of(db, tx, sender),
    }
}

/// Checks what a transaction's kind asks of the state.
pub fn check_queueable(store: &Store, tx: &Transaction, sender: &str) -> (r: Result<(), String>)
    requires
        store.wf(),
    ensures
        state::agrees(r, queueable(store@.db, tx@, sender@)),
{
    match tx.kind {
        TxKind::Transfer => {
            if crypto::is_valid_address(tx.to.as_str()) {
                Ok(())
            } else {
                Err(text::copy("invalid recipient address"))
            }
        },
        TxKind::Stake => {
            if tx.amount == 0 {
                Err(text::copy("stake amount must be positive"))
            } else {
                Ok(())
            }
        },
        TxKind::Unstake => {
            if tx.amount == 0 {
                Err(text::copy("unstake amount must be positive"))
            } else if store.account(sender).staked < tx.amount {
                Err(text::copy("not enough staked"))
            } else {
                Ok(())
            }
        },
        TxKind::ReportEquivocation => {
            let height = staking::upcoming(store);
            match slashing::check_report(store, height, &tx.payload) {
                Err(e) => Err(e),
                Ok(_) => Ok(()),
            }
        },
        TxKind::Unjail => {
            let a = store.account(sender);
            let height = staking::upcoming(store);
            if a.penalties.tombstoned {
                Err(text::copy("tombstoned validators can never rejoin"))
            } else if a.penalties.jailed_until == 0 {
                Err(text::copy("validator is not jailed"))
            } else if a.penalties.jailed_until > height {
                Err(text::copy("jail period has not expired yet"))
            } else {
                Ok(())
            }
        },
        _ => apply::check_rules(store, tx, sender),
    }
}

/// A transaction with this hash is queued.
pub open spec fn queued(pool: Seq<PoolV>, hash: Seq<char>) -> bool {
    exists|i: int| 0 <= i < pool.len() && (#[trigger] pool[i]).hash == hash
}

/// Why a transaction may not queue, as far as state and pool decide; `None` when it may.
pub open spec fn refusal(
    db: Db,
    pool: Seq<PoolV>,
    tx: TxV,
    hash: Seq<char>,
    sender: Seq<char>,
    floor: nat,
) -> Option<Seq<char>> {
    let a = state::account_of(db, sender);
    let pending = mempool::of_sender(pool, sender);
    if tx.fee < floor {
        Some("fee below current base fee ("@ + text::dec(floor) + " rai)"@)
    } else {
        match queueable(db, tx, sender) {
            Err(e) => Some(e),
            Ok(_) => if tx.nonce != a.nonce + pending {
                Some("bad nonce: expected "@ + text::dec(a.nonce as nat + pending))
            } else if a.balance < apply::debit_of(tx) {
                Some("insufficient balance"@)
            } else if pending >= mempool::MAX_PENDING_PER_SENDER {
                Some(
                    "too many queued transactions for this account (max "@ + text::dec(
                        mempool::MAX_PENDING_PER_SENDER as nat,
                    ) + ")"@,
                )
            } else if state::tx_height_of(db, hash) is Some || queued(pool, hash) {
                Some("duplicate transaction"@)
            } else {
                None
            },
        }
    }
}

/// The pool with room for a newcomer: a full pool is a market, not a wall, and the
/// cheapest entry makes way for one that pays more.
pub open spec fn made_room(pool: Seq<PoolV>, bound: u64, fee: nat) -> Option<Seq<PoolV>> {
    if bound == u64::MAX {
        None
    } else if pool.len() < mempool::MAX_POOL_TXS {
        Some(pool)
    } else if mempool::evicted(pool, fee).0 is None {
        None
    } else {
        Some(mempool::evicted(pool, fee).1)
    }
}

/// What a queued transaction is announced as.
pub open spec fn pooled_event(tx: TxV, hash: Seq<char>, sender: Seq<char>, size: nat) -> EventV {
    EventV {
        channel: Topic::Mempool,
        key: None,
        payload: NoticeV::Pooled {
            hash,
            from: sender,
            kind: tx.kind,
            fee: tx.fee,
            pool_size: size,
        },
    }
}

/// Outcome of state-dependent admission.
pub open spec fn admitted(
    n: NodeV,
    tx: TxV,
    hash: Seq<char>,
    sender: Seq<char>,
    floor: nat,
) -> (Result<Seq<char>, Seq<char>>, NodeV) {
    match refusal(n.db, n.pool, tx, hash, sender, floor) {
        Some(e) => (Err(e), n),
        None => match made_room(n.pool, n.bound, tx.fee as nat) {
            None => (Err("mempool full: raise the fee to take priority"@), n),
            Some(p) => {
                let pool = p.push(PoolV { tx, hash, sender, seq: n.bound });
                (
                    Ok(hash),
                    NodeV {
                        pool,
                        bound: (n.bound + 1) as u64,
                        bus: events::published(
                            n.bus,
                            pooled_event(tx, hash, sender, pool.len()),
                        ),
                        ..n
                    },
                )
            },
        },
    }
}

/// Outcome of submitting a transaction, with a given fee floor.
pub open spec fn submitted(n: NodeV, tx: TxV, floor: nat) -> (Result<Seq<char>, Seq<char>>, NodeV) {
    if n.halted() {
        (Err("node is halted"@), n)
    } else {
        match prechecked(tx, n.chain_id) {
            Err(e) => (Err(e), n),
            Ok((hash, sender)) => admitted(n, tx, hash, sender, floor),
        }
    }
}

/// Outcomes of submitting transactions in order, with one fee floor for all.
pub open spec fn submitted_all(n: NodeV, txs: Seq<TxV>, floor: nat) -> (
    Seq<Result<Seq<char>, Seq<char>>>,
    NodeV,
)
    decreases txs.len(),
{
    if txs.len() == 0 {
        (Seq::empty(), n)
    } else {
        let (rs, m) = submitted_all(n, txs.drop_last(), floor);
        let (r, k) = submitted(m, txs.last(), floor);
        (rs.push(r), k)
    }
}

/// A refused transaction changes nothing, and an accepted one is at the end of the
/// queue with the next nonce of its sender.
pub proof fn law_admission_keeps_nonce_order(n: NodeV, tx: TxV, floor: nat)
    ensures
        ({
            let (r, m) = submitted(n, tx, floor);
            &&& r is Err ==> m == n
            &&& r is Ok ==> {
                &&& tx.signed()
                &&& tx.chain_id == n.chain_id
                &&& tx.fee >= types::MIN_FEE
                &&& tx.fee >= floor
                &&& m.pool.len() > 0
                &&& m.pool.last().tx == tx
                &&& tx.nonce == state::account_of(n.db, m.pool.last().sender).nonce
                    + mempool::of_sender(n.pool, m.pool.last().sender)
                &&& mempool::of_sender(n.pool, m.pool.last().sender)
                    < mempool::MAX_PENDING_PER_SENDER
                &&& !queued(n.pool, tx.hash_text())
                &&& state::tx_height_of(n.db, tx.hash_text()) is None
            }
        }),
{
}

/// Model of an answer.
pub open spec fn answer_view(r: Result<String, String>) -> Result<Seq<char>, Seq<char>> {
    match r {
        Ok(h) => Ok(h@),
        Err(e) => Err(e@),
    }
}

/// Models of a list of answers.
pub open spec fn answers_view(v: Seq<Result<String, String>>) -> Seq<Result<Seq<char>, Seq<char>>> {
    v.map_values(|r: Result<String, String>| answer_view(r))
}

impl Node {
    /// State-dependent admission of one transaction.
    fn enqueue(&mut self, tx: Transaction, hash: String, sender: String, floor: u128) -> (r: Result<
        String,
        String,
    >)
        requires
            old(self).wf(),
        ensures
            final(self).wf(),
            state::follows(old(self).store, final(self).store),
            tokens::agrees_text(r, admitted(old(self)@, tx@, hash@, sender@, floor as nat).0),
            final(self)@ == admitted(old(self)@, tx@, hash@, sender@, floor as nat).1,
    {
        let ghost n = self@;
        if tx.fee < floor {
            let mut m = text::copy("fee below current base fee (");
            text::push_dec(&mut m, floor);
            m.append(" rai)");
            return Err(m);
        }
        match check_queueable(&self.store, &tx, sender.as_str()) {
            Ok(()) => {},
            Err(e) => {
                return Err(e);
            },
        }
        let acct = self.store.account(sender.as_str());
        let pending = self.mempool.pending_for(sender.as_str());
        let expected: u128 = acct.nonce as u128 + pending as u128;
        if tx.nonce as u128 != expected {
            let mut m = text::copy("bad nonce: expected ");
            text::push_dec(&mut m, expected);
            return Err(m);
        }
        match apply::debit(&tx) {
            Some(cost) => {
                if acct.balance < cost {
                    return Err(text::copy("insufficient balance"));
                }
            },
            None => {
                return Err(text::copy("insufficient balance"));
            },
        }
        if pending >= mempool::MAX_PENDING_PER_SENDER {
            let mut m = text::copy("too many queued transactions for this account (max ");
            text::push_dec(&mut m, mempool::MAX_PENDING_PER_SENDER as u128);
            m.append(")");
            return Err(m);
        }
        if self.store.tx_height(hash.as_str()).is_some() || self.mempool.contains(hash.as_str()) {
            return Err(text::copy("duplicate transaction"));
        }
        assert(refusal(n.db, n.pool, tx@, hash@, sender@, floor as nat) is None);
        if !self.mempool.is_open() {
            return Err(text::copy("mempool full: raise the fee to take priority"));
        }
        if self.mempool.is_full() {
            match self.mempool.evict_cheapest_below(tx.fee) {
                None => {
                    assert(self@ =~= n);
                    return Err(text::copy("mempool full: raise the fee to take priority"));
                },
                Some(_) => {},
            }
        }
        let ghost p = self.mempool@;
        proof {
            assert(made_room(n.pool, n.bound, tx.fee as nat) == Some(p));
        }
        let fee = tx.fee;
        let kind = tx.kind;
        let ghost tv = tx@;
        self.mempool.insert(tx, hash.clone(), sender.clone());
        let notice = Notice::Pooled {
            hash: hash.clone(),
            from: sender,
            kind,
            fee,
            pool_size: self.mempool.len(),
        };
        let ev = Event::new(Topic::Mempool, None, notice);
        assert(ev@ =~= pooled_event(tv, hash@, sender@, self.mempool@.len()));
        self.events.publish(ev);
        assert(self@ =~= admitted(n, tv, hash@, sender@, floor as nat).1);
        Ok(hash)
    }

    /// Admits many transactions. The fee floor is worked out once, and the answers come
    /// in the order of the transactions.
    pub fn accept_batch(&mut self, txs: Vec<Transaction>) -> (r: Vec<Result<String, String>>)
        requires
            old(self).wf(),
        ensures
            final(self).wf(),
            state::follows(old(self).store, final(self).store),
            answers_view(r@) == submitted_all(
                old(self)@,
                types::txs_view(txs@),
                old(self)@.floor(),
            ).0,
            final(self)@ == submitted_all(
                old(self)@,
                types::txs_view(txs@),
                old(self)@.floor(),
            ).1,
    {
        let floor = self.fee_floor();
        let ghost n = self@;
        let ghost all = types::txs_view(txs@);
        let mut out: Vec<Result<String, String>> = Vec::new();
        let mut i: usize = 0;
        proof {
            assert(all.take(0) =~= Seq::<TxV>::empty());
            assert(answers_view(out@) =~= Seq::<Result<Seq<char>, Seq<char>>>::empty());
        }
        while i < txs.len()
            invariant
                i <= txs@.len(),
                all == types::txs_view(txs@),
                self.wf(),
                state::follows(old(self).store, self.store),
                floor == n.floor(),
                answers_view(out@) == submitted_all(n, all.take(i as int), n.floor()).0,
                self@ == submitted_all(n, all.take(i as int), n.floor()).1,
            decreases txs@.len() - i,
        {
            proof {
                assert(all.take(i + 1).drop_last() =~= all.take(i as int));
                assert(all.take(i + 1).last() == txs@[i as int]@);
            }
            let ghost m = self@;
            let tx = txs[i].clone();
            let ghost tv = tx@;
            let r = if self.halted() {
                Err(text::copy("node is halted"))
            } else {
                match precheck_tx(&tx, self.genesis.chain_id) {
                    Err(e) => Err(e),
                    Ok((hash, sender)) => self.enqueue(tx, hash, sender, floor),
                }
            };
            let ghost rv = answer_view(r);
            assert(rv == submitted(m, tv, n.floor()).0);
            let ghost was = answers_view(out@);
            out.push(r);
            assert(answers_view(out@) =~= was.push(rv));
            i = i + 1;
        }
        assert(all.take(all.len() as int) =~= all);
        out
    }

    /// Checks a transaction and queues it; returns its hash.
    pub fn accept_tx(&mut self, tx: Transaction) -> (r: Result<String, String>)
        requires
            old(self).wf(),
        ensures
            final(self).wf(),
            state::follows(old(self).store, final(self).store),
            tokens::agrees_text(r, submitted(old(self)@, tx@, old(self)@.floor()).0),
            final(self)@ == submitted(old(self)@, tx@, old(self)@.floor()).1,
    {
        if self.halted() {
            return Err(text::copy("node is halted"));
        }
        let floor = self.fee_floor();
        match precheck_tx(&tx, self.genesis.chain_id) {
            Err(e) => Err(e),
            Ok((hash, sender)) => self.enqueue(tx, hash, sender, floor),
        }
    }

    /// Nonce a new transaction should use, counting what is queued.
    pub fn pending_nonce(&self, address: &str) -> (r: u64)
        requires
            self.wf(),
        ensures
            ({
                let n = state::account_of(self@.db, address@).nonce + mempool::of_sender(
                    self@.pool,
                    address@,
                );
                r == if n <= u64::MAX {
                    n
                } else {
                    u64::MAX as int
                }
            }),
    {
        let a = self.store.account(address);
        a.nonce.saturating_add(self.mempool.pending_for(address))
    }

    /// Number of queued transactions.
    pub fn mempool_size(&self) -> (r: usize)
        ensures
            r == self@.pool.len(),
    {
        self.mempool.len()
    }

    /// Current base fee.
    pub fn base_fee(&self) -> (r: u128)
        requires
            self.wf(),
        ensures
            r == state::base_fee_of(self@.db),
    {
        self.store.base_fee()
    }

    /// The floor a transaction must pay right now.
    pub fn fee_floor(&self) -> (r: u128)
        requires
            self.wf(),
        ensures
            r == self@.floor(),
    {
        fees::required_fee(staking::upcoming(&self.store), self.store.base_fee())
    }

    /// Active validator set: accounts staking at least the minimum.
    pub fn validators(&self) -> (r: Vec<Validator>)
        requires
            self.wf(),
        ensures
            rank::views(r@) == staking::set_at(self@.db, staking::next_height(self@.db)),
    {
        staking::validator_set(&self.store)
    }

    /// Who is scheduled to seal the next block at a time.
    pub fn next_leader_at(&self, now: u128) -> (r: Option<String>)
        requires
            self.wf(),
        ensures
            contracts::text_view(r) == self@.leader(now as nat),
    {
        let height = staking::upcoming(&self.store);
        let tip = self.store.tip_hash();
        staking::elect_leader_attempt(
            &self.validators(),
            height,
            tip.as_str(),
            self.current_attempt(now),
        )
    }

    /// Who is scheduled to seal the next block.
    pub fn next_leader(&self) -> (r: Option<String>)
        requires
            self.wf(),
        ensures
            exists|now: u128| contracts::text_view(r) == #[trigger] self@.leader(now as nat),
    {
        let now = now_ms();
        let r = self.next_leader_at(now);
        assert(contracts::text_view(r) == self@.leader(now as nat));
        r
    }
}


// ---------------------------------------------------------------- announcements

/// Sender of a transaction, or an empty text.
pub open spec fn sender_or_none(tx: TxV) -> Seq<char> {
    match tx.sender() {
        Some(s) => s,
        None => ""@,
    }
}

/// The contract an event about a transaction is routed by.
pub open spec fn contract_key(db: Db, tx: TxV) -> Seq<char> {
    if tx.kind == TxKind::CallContract {
        tx.to
    } else {
        match state::receipt_of(db, tx.hash_text()) {
            Some(r) => r.contract,
            None => ""@,
        }
    }
}

/// What is announced of one included transaction.
pub open spec fn tx_events(db: Db, height: u64, tx: TxV) -> Seq<EventV> {
    let hash = tx.hash_text();
    let confirmed = EventV {
        channel: Topic::Signature,
        key: Some(hash),
        payload: NoticeV::Confirmed {
            hash,
            height,
            finalized: height <= state::finalized_of(db),
            kind: tx.kind,
            from: sender_or_none(tx),
            to: tx.to,
            fee: tx.fee,
        },
    };
    if tx.kind.of_contract() {
        let contract = contract_key(db, tx);
        seq![
            confirmed,
            EventV {
                channel: Topic::Logs,
                key: Some(contract),
                payload: NoticeV::Activity {
                    contract,
                    tx: hash,
                    height,
                    caller: sender_or_none(tx),
                    receipt: state::receipt_of(db, hash),
                },
            },
        ]
    } else {
        seq![confirmed]
    }
}

/// What is announced of the included transactions, in order.
pub open spec fn all_tx_events(db: Db, height: u64, txs: Seq<TxV>) -> Seq<EventV>
    decreases txs.len(),
{
    if txs.len() == 0 {
        Seq::empty()
    } else {
        all_tx_events(db, height, txs.drop_last()) + tx_events(db, height, txs.last())
    }
}

/// A list with a text added, unless it is empty or already there.
pub open spec fn noted(s: Seq<Seq<char>>, a: Seq<char>) -> Seq<Seq<char>> {
    if a.len() == 0 || s.contains(a) {
        s
    } else {
        s.push(a)
    }
}

/// The addresses transactions touch, each once, in order.
pub open spec fn touched(txs: Seq<TxV>) -> Seq<Seq<char>>
    decreases txs.len(),
{
    if txs.len() == 0 {
        Seq::empty()
    } else {
        let s = touched(txs.drop_last());
        noted(noted(s, sender_or_none(txs.last())), txs.last().to)
    }
}

/// What is announced of a touched account.
pub open spec fn account_event(db: Db, height: u64, address: Seq<char>) -> EventV {
    let a = state::account_of(db, address);
    EventV {
        channel: Topic::Account,
        key: Some(address),
        payload: NoticeV::Touched {
            address,
            height,
            balance: a.balance,
            staked: a.staked,
            nonce: a.nonce,
        },
    }
}

/// What is announced of a block's header.
pub open spec fn head_event(db: Db, b: BlockV) -> EventV {
    EventV {
        channel: Topic::Heads,
        key: None,
        payload: NoticeV::Head {
            height: b.height,
            hash: b.hash,
            parent_hash: b.parent_hash,
            timestamp_ms: b.timestamp_ms,
            state_root: b.state_root,
            txs_root: b.txs_root,
            producer: b.producer,
            tx_count: b.transactions.len(),
            finalized_height: state::finalized_of(db),
            base_fee: state::base_fee_of(db),
        },
    }
}

/// Everything announced of a block: its header, each transaction, each touched account,
/// and finality when it advanced.
pub open spec fn block_events(db: Db, b: BlockV, announced: u64) -> Seq<EventV> {
    let finalized = state::finalized_of(db);
    let body = seq![head_event(db, b)] + all_tx_events(db, b.height, b.transactions)
        + touched(b.transactions).map_values(|a: Seq<char>| account_event(db, b.height, a));
    if finalized > announced {
        body.push(
            EventV {
                channel: Topic::Finality,
                key: None,
                payload: NoticeV::Finalized { finalized_height: finalized, height: b.height },
            },
        )
    } else {
        body
    }
}

/// A node after a block was announced. Finality is announced once per height.
pub open spec fn announced(n: NodeV, b: BlockV) -> NodeV {
    if n.bus.subs.len() == 0 {
        n
    } else {
        NodeV {
            bus: events::published_all(n.bus, block_events(n.db, b, n.announced)),
            announced: if state::finalized_of(n.db) > n.announced {
                state::finalized_of(n.db) as u64
            } else {
                n.announced
            },
            ..n
        }
    }
}

/// Sender of a transaction, or an empty text.
fn sender_text(tx: &Transaction) -> (r: String)
    ensures
        r@ == sender_or_none(tx@),
{
    match tx.sender() {
        Some(s) => s,
        None => text::copy(""),
    }
}

/// Appends what is announced of one included transaction.
fn push_tx_events(store: &Store, height: u64, tx: &Transaction, out: &mut Vec<Event>)
    requires
        store.wf(),
    ensures
        events::events_view(final(out)@) == events::events_view(old(out)@) + tx_events(
            store@.db,
            height,
            tx@,
        ),
{
    let ghost was = events::events_view(out@);
    let hash = tx.hash();
    let from = sender_text(tx);
    let ev = Event::new(
        Topic::Signature,
        Some(hash.clone()),
        Notice::Confirmed {
            hash: hash.clone(),
            height,
            finalized: height <= store.finalized_height(),
            kind: tx.kind,
            from: from.clone(),
            to: tx.to.clone(),
            fee: tx.fee,
        },
    );
    let ghost one = ev@;
    out.push(ev);
    assert(events::events_view(out@) =~= was.push(one));
    if tx.kind.is_contract() {
        let contract = if tx.kind == TxKind::CallContract {
            tx.to.clone()
        } else {
            match store.receipt(hash.as_str()) {
                Some(r) => r.contract,
                None => text::copy(""),
            }
        };
        let receipt = store.receipt(hash.as_str());
        let ev = Event::new(
            Topic::Logs,
            Some(contract.clone()),
            Notice::Activity { contract, tx: hash, height, caller: from, receipt },
        );
        let ghost two = ev@;
        out.push(ev);
        proof {
            assert(events::events_view(out@) =~= was.push(one).push(two));
            assert(tx_events(store@.db, height, tx@) =~= seq![one, two]);
        }
    } else {
        assert(tx_events(store@.db, height, tx@) =~= seq![one]);
    }
}

/// Adds an address to a list, unless it is empty or already there.
fn note_address(list: &mut Vec<String>, a: String)
    ensures
        types::texts(final(list)@) == noted(types::texts(old(list)@), a@),
{
    if a.as_str().is_empty() {
        return;
    }
    let ghost v = types::texts(list@);
    let mut i: usize = 0;
    while i < list.len()
        invariant
            i <= list@.len(),
            v == types::texts(list@),
            list == old(list),
            forall|j: int| 0 <= j < i ==> (#[trigger] v[j]) != a@,
        decreases list@.len() - i,
    {
        assert(v[i as int] == list@[i as int]@);
        if text::same(list[i].as_str(), a.as_str()) {
            assert(v.contains(a@));
            return;
        }
        i = i + 1;
    }
    assert(!v.contains(a@));
    let ghost av = a@;
    list.push(a);
    assert(types::texts(list@) =~= v.push(av));
}

/// Everything announced of a block.
fn collect_events(store: &Store, block: &Block, last: u64) -> (r: Vec<Event>)
    requires
        store.wf(),
    ensures
        events::events_view(r@) == block_events(store@.db, block@, last),
{
    let ghost db = store@.db;
    let ghost b = block@;
    let finalized = store.finalized_height();
    let mut out: Vec<Event> = Vec::new();
    out.push(
        Event::new(
            Topic::Heads,
            None,
            Notice::Head {
                height: block.height,
                hash: block.hash.clone(),
                parent_hash: block.parent_hash.clone(),
                timestamp_ms: block.timestamp_ms,
                state_root: block.state_root.clone(),
                txs_root: block.txs_root.clone(),
                producer: block.producer.clone(),
                tx_count: block.transactions.len(),
                finalized_height: finalized,
                base_fee: store.base_fee(),
            },
        ),
    );
    let ghost head = seq![head_event(db, b)];
    let ghost txs = types::txs_view(block.transactions@);
    let mut list: Vec<String> = Vec::new();
    let mut i: usize = 0;
    proof {
        assert(b.transactions.len() == block.transactions@.len());
        assert(txs.take(0) =~= Seq::<TxV>::empty());
        assert(types::texts(list@) =~= Seq::<Seq<char>>::empty());
        assert(events::events_view(out@) =~= head + all_tx_events(db, b.height, txs.take(0)));
    }
    while i < block.transactions.len()
        invariant
            i <= block.transactions@.len(),
            store.wf(),
            db == store@.db,
            b == block@,
            txs == types::txs_view(block.transactions@),
            events::events_view(out@) == head + all_tx_events(db, b.height, txs.take(i as int)),
            types::texts(list@) == touched(txs.take(i as int)),
        decreases block.transactions@.len() - i,
    {
        proof {
            assert(txs.take(i + 1).drop_last() =~= txs.take(i as int));
            assert(txs.take(i + 1).last() == block.transactions@[i as int]@);
        }
        push_tx_events(store, block.height, &block.transactions[i], &mut out);
        proof {
            assert(events::events_view(out@) =~= head + all_tx_events(
                db,
                b.height,
                txs.take(i + 1),
            ));
        }
        let from = sender_text(&block.transactions[i]);
        note_address(&mut list, from);
        note_address(&mut list, block.transactions[i].to.clone());
        i = i + 1;
    }
    assert(txs.take(txs.len() as int) =~= txs);
    let ghost body = events::events_view(out@);
    let ghost names = types::texts(list@);
    let mut k: usize = 0;
    proof {
        assert(names == touched(txs));
        assert(body =~= body + names.take(0).map_values(
            |a: Seq<char>| account_event(db, b.height, a),
        ));
    }
    while k < list.len()
        invariant
            k <= list@.len(),
            store.wf(),
            db == store@.db,
            b == block@,
            names == types::texts(list@),
            events::events_view(out@) == body + names.take(k as int).map_values(
                |a: Seq<char>| account_event(db, b.height, a),
            ),
        decreases list@.len() - k,
    {
        let acct = store.account(list[k].as_str());
        let ev = Event::new(
            Topic::Account,
            Some(list[k].clone()),
            Notice::Touched {
                address: list[k].clone(),
                height: block.height,
                balance: acct.balance,
                staked: acct.staked,
                nonce: acct.nonce,
            },
        );
        let ghost one = ev@;
        let ghost was = events::events_view(out@);
        out.push(ev);
        proof {
            assert(one =~= account_event(db, b.height, names[k as int]));
            assert(events::events_view(out@) =~= was.push(one));
            assert(names.take(k + 1).map_values(|a: Seq<char>| account_event(db, b.height, a))
                =~= names.take(k as int).map_values(
                |a: Seq<char>| account_event(db, b.height, a),
            ).push(one));
        }
        k = k + 1;
    }
    assert(names.take(names.len() as int) =~= names);
    if finalized > last {
        let ghost was = events::events_view(out@);
        let ev = Event::new(
            Topic::Finality,
            None,
            Notice::Finalized { finalized_height: finalized, height: block.height },
        );
        let ghost one = ev@;
        out.push(ev);
        assert(events::events_view(out@) =~= was.push(one));
    }
    out
}

impl Node {
    /// Pushes an adopted block to every live subscription.
    fn publish_block(&mut self, block: &Block)
        requires
            old(self).wf(),
        ensures
            final(self).wf(),
            final(self).store == old(self).store,
            final(self)@ == announced(old(self)@, block@),
    {
        if self.events.is_empty() {
            return;
        }
        let finalized = self.store.finalized_height();
        let evs = collect_events(&self.store, block, self.announced_final);
        self.events.publish_all(evs);
        if finalized > self.announced_final {
            self.announced_final = finalized;
        }
        assert(self@ =~= announced(old(self)@, block@));
    }
}

// ---------------------------------------------------------------- production

/// A timestamp for the next block: the time, but always after the parent's.
pub open spec fn stamped(now: nat, parent: nat) -> u128 {
    types::cap128(
        if now > parent {
            now
        } else {
            parent + 1
        },
    )
}

/// A header signed and hashed with a key.
pub open spec fn sealed_with(seed: Seq<u8>, b: BlockV) -> BlockV {
    let s = BlockV {
        signature: crypto::hex_text(
            crypto::ed25519_signature(seed, text::utf8(b.header_text())),
        ),
        ..b
    };
    BlockV { hash: s.hash_text(), ..s }
}

/// The transactions a node puts into its next block, applied.
pub open spec fn next_batch(n: NodeV, height: u64) -> BatchV {
    drained(
        n.db,
        mempool::txs_of(mempool::batch_of(n.pool, MAX_TXS_PER_BLOCK as nat).0),
        height,
    )
}

/// The database of the next block, settled but not adopted.
pub open spec fn next_state(n: NodeV, height: u64) -> Db {
    let b = next_batch(n, height);
    settled(n.fixed, b.db, height, state::tip_hash_of(n.db), n.address(), b.fees as nat)
}

/// The next block of a node at a time.
pub open spec fn next_block(n: NodeV, height: u64, now: nat) -> BlockV {
    let b = next_batch(n, height);
    sealed_with(
        n.seed,
        BlockV {
            height,
            parent_hash: state::tip_hash_of(n.db),
            timestamp_ms: stamped(now, n.tip_time() as nat),
            state_root: state::root_at(n.fixed.notes, next_state(n, height), height as nat),
            txs_root: types::txs_root_of(b.included),
            producer: n.address(),
            producer_pubkey: crypto::hex_text(n.public()),
            transactions: b.included,
            signature: ""@,
            hash: ""@,
        },
    )
}

/// Whether it is this node's turn: it is the elected leader, or seals alone. With no
/// stake bonded a networked node waits rather than forks.
pub open spec fn on_turn(n: NodeV, now: nat) -> bool {
    let set = staking::set_at(n.db, staking::next_height(n.db));
    n.solo || (set.len() > 0 && (n.leader(now) is None || n.leader(now) == Some(n.address())))
}

/// The node lags behind its peers: sealing on a stale tip would fork.
pub open spec fn lagging(n: NodeV) -> bool {
    match state::tip_height_of(n.db) {
        Some(t) => n.best_peer > t + types::PRODUCE_LAG_TOLERANCE,
        None => false,
    }
}

/// A node after it adopted a block over a settled database.
pub open spec fn advanced(n: NodeV, db: Db, b: BlockV, now: u128) -> NodeV {
    let (f, votes, d) = consensus::replayed(n.votes, adopted(n.fixed, db, b), b.height as nat);
    NodeV { db: d, votes, tip_seen: now, ..n }
}

/// A node rests on a block: it is the tip, it is stored, its root is the root of the
/// state, and the check at startup passes.
pub open spec fn at_rest(n: NodeV, b: BlockV) -> bool {
    &&& state::tip_height_of(n.db) == Some(b.height as nat)
    &&& state::tip_hash_of(n.db) == b.hash
    &&& state::block_of(n.db, b.height as nat) == Some(b)
    &&& state::root_at(n.fixed.notes, n.db, b.height as nat) == b.state_root
    &&& startup_verdict(n.fixed, n.db) is Ok
}

/// Adopting a block makes it the tip, records its root and leaves the state.
pub proof fn lemma_adopted(f: FixedV, db: Db, b: BlockV)
    requires
        db.len() == 16,
    ensures
        supply::same_state(db, adopted(f, db, b)),
        state::tip_height_of(adopted(f, db, b)) == Some(b.height as nat),
        state::tip_hash_of(adopted(f, db, b)) == b.hash,
        state::block_of(adopted(f, db, b), b.height as nat) == Some(b),
        state::checkpoint_of(adopted(f, db, b)) == Some(
            (b.height as nat, state::state_root_of(f.notes, db)),
        ),
{
    let digest = state::state_root_of(f.notes, db);
    supply::lemma_meta_names();
    supply::lemma_block_stored(db, b);
    let d = state::with_block(db, b);
    let fee = text::utf8(
        text::dec(fees::fee_after(state::base_fee_of(d), b.transactions.len())),
    );
    let e = state::with_meta(d, "base_fee"@, fee);
    supply::lemma_meta_keeps_state(d, "base_fee"@, fee);
    supply::lemma_meta_after(d, "base_fee"@, fee, "tip_height"@);
    supply::lemma_meta_after(d, "base_fee"@, fee, "tip_hash"@);
    supply::lemma_checkpoint_recorded(e, b.height, digest);
    let v = text::utf8(state::joined(text::dec(b.height as nat), digest));
    supply::lemma_meta_after(e, "state_checkpoint"@, v, "tip_height"@);
    supply::lemma_meta_after(e, "state_checkpoint"@, v, "tip_hash"@);
    let g = adopted(f, db, b);
    assert(g[1] == d[1]);
    assert forall|i: int| 0 <= i < 16 && i != 1 && i != 2 && i != 3 implies #[trigger] db[i]
        == g[i] by {
        assert(db[i] == d[i]);
        assert(d[i] == e[i]);
        assert(e[i] == g[i]);
    }
}

/// A node that adopted a block with the right root rests on it.
pub proof fn lemma_advanced_rests(n: NodeV, db: Db, b: BlockV, now: u128)
    requires
        db.len() == 16,
        state::root_at(n.fixed.notes, db, b.height as nat) == b.state_root,
    ensures
        at_rest(advanced(n, db, b, now), b),
{
    supply::lemma_meta_names();
    lemma_adopted(n.fixed, db, b);
    let g = adopted(n.fixed, db, b);
    supply::lemma_votes_frame(
        TrackerV {
            pending: consensus::votes_kept(
                n.votes.pending,
                b.height as nat,
                state::finalized_of(g),
            ),
            ..n.votes
        },
        g,
        consensus::votes_at(n.votes.pending, b.height as nat),
    );
    let m = advanced(n, db, b, now);
    supply::lemma_same_root(n.fixed.notes, db, g, b.height as nat);
    supply::lemma_same_root(n.fixed.notes, g, m.db, b.height as nat);
    supply::lemma_same_root(n.fixed.notes, db, g, 0);
    supply::lemma_same_root(n.fixed.notes, g, m.db, 0);
    assert(state::meta(m.db, "tip_height"@) == state::meta(g, "tip_height"@));
    assert(state::meta(m.db, "tip_hash"@) == state::meta(g, "tip_hash"@));
    assert(state::meta(m.db, "state_checkpoint"@) == state::meta(g, "state_checkpoint"@));
}

/// Outcome of a production slot: `Ok(None)` when the slot is not this node's.
pub open spec fn produced(n: NodeV, now: u128) -> (Result<Option<BlockV>, Seq<char>>, NodeV) {
    if n.serving_only || n.halted() {
        (Ok(None), n)
    } else {
        match state::tip_height_of(n.db) {
            None => (Err("chain not initialized"@), n),
            Some(tip) => if tip >= u64::MAX {
                (Err("height exhausted"@), n)
            } else if lagging(n) || !on_turn(n, now as nat) {
                (Ok(None), n)
            } else {
                let h = (tip + 1) as u64;
                let b = next_block(n, h, now as nat);
                let m = NodeV {
                    pool: mempool::batch_of(n.pool, MAX_TXS_PER_BLOCK as nat).1,
                    ..advanced(n, next_state(n, h), b, now)
                };
                (Ok(Some(b)), announced(m, b))
            },
        }
    }
}

/// Model of an optional block.
pub open spec fn block_view(b: Option<Block>) -> Option<BlockV> {
    match b {
        Some(b) => Some(b@),
        None => None,
    }
}

/// A production slot came to what its model says.
pub open spec fn produces(
    r: Result<Option<Block>, String>,
    v: Result<Option<BlockV>, Seq<char>>,
) -> bool {
    match r {
        Ok(b) => v == Ok::<Option<BlockV>, Seq<char>>(block_view(b)),
        Err(e) => v == Err::<Option<BlockV>, Seq<char>>(e@),
    }
}

impl Node {
    /// Whether this node is on turn at a time.
    fn is_on_turn(&self, now: u128) -> (r: bool)
        requires
            self.wf(),
        ensures
            r == on_turn(self@, now as nat),
    {
        if self.solo {
            return true;
        }
        let set = self.validators();
        assert(rank::views(set@).len() == set@.len());
        if set.len() == 0 {
            return false;
        }
        match self.next_leader_at(now) {
            None => true,
            Some(l) => {
                let a = self.producer.address();
                text::same(l.as_str(), a.as_str())
            },
        }
    }

    /// Adopts a block over the settled store, counts the precommits that waited for it
    /// and remembers when.
    fn advance(&mut self, block: &Block, now: u128)
        requires
            old(self).wf(),
        ensures
            final(self).wf(),
            state::follows(old(self).store, final(self).store),
            final(self).mempool == old(self).mempool,
            final(self)@ == advanced(old(self)@, old(self)@.db, block@, now),
    {
        adopt(&mut self.store, block);
        let _ = self.votes.replay_pending(&mut self.store, block.height);
        self.tip_seen_ms = now;
        assert(self@ =~= advanced(old(self)@, old(self)@.db, block@, now));
    }

    /// Seals the next block if it is this node's turn at a time: takes a batch from the
    /// pool, executes it, releases matured unbonds, pays the validator set and stores
    /// the block. `Ok(None)` means the slot is not this node's.
    pub fn produce_block_at(&mut self, now: u128) -> (r: Result<Option<Block>, String>)
        requires
            old(self).wf(),
        ensures
            final(self).wf(),
            state::follows(old(self).store, final(self).store),
            produces(r, produced(old(self)@, now).0),
            final(self)@ == produced(old(self)@, now).1,
            match r {
                Ok(Some(b)) => b@.produced() && at_rest(final(self)@, b@),
                _ => true,
            },
    {
        let ghost n = self@;
        if self.serving_only || self.halted() {
            return Ok(None);
        }
        let tip = match self.store.tip_height() {
            Some(t) => t,
            None => {
                return Err(text::copy("chain not initialized"));
            },
        };
        if tip == u64::MAX {
            return Err(text::copy("height exhausted"));
        }
        let best = types::best_peer_height(&self.sync);
        if best > tip && best - tip > types::PRODUCE_LAG_TOLERANCE {
            return Ok(None);
        }
        if !self.is_on_turn(now) {
            return Ok(None);
        }
        let height: u64 = tip + 1;
        let parent_hash = self.store.tip_hash();
        let parent_ms = self.tip_time();
        let producer = self.producer.address();
        let batch = self.mempool.take_batch(MAX_TXS_PER_BLOCK);
        let (included, fees) = drain_batch(&mut self.store, batch, height);
        settle(&mut self.store, height, parent_hash.as_str(), producer.as_str(), fees);
        assert(self@.db == next_state(n, height));
        let timestamp_ms: u128 = if now > parent_ms {
            now
        } else {
            parent_ms.saturating_add(1)
        };
        let mut block = Block {
            height,
            parent_hash,
            timestamp_ms,
            state_root: self.store.state_root_at(height),
            txs_root: types::txs_root(&included),
            producer,
            producer_pubkey: self.producer.pubkey_hex(),
            transactions: included,
            signature: text::copy(""),
            hash: text::copy(""),
        };
        let ghost b0 = block@;
        let header = block.header_bytes();
        block.signature = self.producer.sign_hex(header.as_slice());
        let ghost b1 = block@;
        block.hash = block.compute_hash();
        proof {
            let sig = crypto::hex_text(
                crypto::ed25519_signature(n.seed, text::utf8(b0.header_text())),
            );
            assert(b1 =~= BlockV { signature: sig, ..b0 });
            assert(block@ =~= BlockV { hash: b1.hash_text(), ..b1 });
            assert(block@ == next_block(n, height, now as nat));
        }
        proof {
            self.store.lemma_tables();
            crypto::lemma_unhex_hex(n.public());
            assert(block@.header_text() =~= b0.header_text());
            assert(block@.hash_text() == b1.hash_text());
            assert(block@.produced());
            lemma_advanced_rests(n, next_state(n, height), block@, now);
        }
        self.advance(&block, now);
        let ghost m = NodeV {
            pool: mempool::batch_of(n.pool, MAX_TXS_PER_BLOCK as nat).1,
            ..advanced(n, next_state(n, height), block@, now)
        };
        assert(self@ =~= m);
        self.publish_block(&block);
        Ok(Some(block))
    }

    /// Seals the next block if it is this node's turn now.
    pub fn produce_block(&mut self) -> (r: Result<Option<Block>, String>)
        requires
            old(self).wf(),
        ensures
            final(self).wf(),
            state::follows(old(self).store, final(self).store),
            exists|now: u128|
                produces(r, (#[trigger] produced(old(self)@, now)).0) && final(self)@ == produced(
                    old(self)@,
                    now,
                ).1,
            match r {
                Ok(Some(b)) => b@.produced() && at_rest(final(self)@, b@),
                _ => true,
            },
    {
        let now = now_ms();
        let r = self.produce_block_at(now);
        assert(produces(r, produced(old(self)@, now).0));
        r
    }

    /// Stops producing until resumed. The reason is kept in the store, so a halt
    /// survives a restart.
    pub fn halt(&mut self, reason: &str)
        requires
            old(self).wf(),
        ensures
            final(self).wf(),
            state::follows(old(self).store, final(self).store),
            final(self)@ == (NodeV {
                db: state::with_meta(old(self)@.db, "halt_reason"@, text::utf8(reason@)),
                ..old(self)@
            }),
            final(self)@.halted(),
    {
        self.store.set_halt(reason);
        proof {
            self.store.lemma_tables();
            old(self).store.lemma_tables();
            assert(self@ =~= NodeV { db: self@.db, ..old(self)@ });
        }
    }

    /// Lifts a halt.
    pub fn resume(&mut self)
        requires
            old(self).wf(),
        ensures
            final(self).wf(),
            state::follows(old(self).store, final(self).store),
            final(self)@ == (NodeV {
                db: state::without_meta(old(self)@.db, "halt_reason"@),
                ..old(self)@
            }),
            !final(self)@.halted(),
    {
        self.store.clear_halt();
        proof {
            self.store.lemma_tables();
            old(self).store.lemma_tables();
            assert(self@ =~= NodeV { db: self@.db, ..old(self)@ });
        }
    }

    /// Whether the node is halted.
    pub fn halted(&self) -> (r: bool)
        requires
            self.wf(),
        ensures
            r == self@.halted(),
    {
        self.store.halt_reason().is_some()
    }
}


// ---------------------------------------------------------------- import

/// A producer could have been elected at a height on an attempt up to a bound.
pub open spec fn electable(
    set: Seq<ValidatorV>,
    height: nat,
    parent: Seq<char>,
    bound: u64,
    producer: Seq<char>,
) -> bool {
    exists|a: nat|
        a <= bound && #[trigger] staking::leader_of(set, height, parent, a) == Some(producer)
}

/// Verdict on chain and fee of one transaction of a block.
pub open spec fn carriable(tx: TxV, chain_id: u64, height: u64, floor: nat) -> Result<(), Seq<char>> {
    if tx.chain_id != chain_id {
        Err("transaction from another chain"@)
    } else if tx.fee < types::MIN_FEE {
        Err("transaction fee below minimum"@)
    } else if height >= fees::FEE_MARKET_ACTIVATION_HEIGHT && tx.fee < floor {
        Err("transaction fee below block base fee"@)
    } else {
        Ok(())
    }
}

/// Verdict on chain and fee of a block's transactions: that of the first refused one.
pub open spec fn all_carriable(txs: Seq<TxV>, chain_id: u64, height: u64, floor: nat) -> Result<
    (),
    Seq<char>,
>
    decreases txs.len(),
{
    if txs.len() == 0 {
        Ok(())
    } else {
        match all_carriable(txs.drop_last(), chain_id, height, floor) {
            Err(e) => Err(e),
            Ok(_) => carriable(txs.last(), chain_id, height, floor),
        }
    }
}

/// Verdict on a block before it is executed. `Ok(false)` means the node already has a
/// block at that height.
pub open spec fn importable(n: NodeV, b: BlockV, now: nat) -> Result<bool, Seq<char>> {
    match state::tip_height_of(n.db) {
        None => Err("chain not initialized"@),
        Some(tip) => if b.height <= tip {
            Ok(false)
        } else if n.halted() {
            Err("node is halted"@)
        } else if b.height != tip + 1 {
            Err("out of order: have "@ + text::dec(tip) + ", got "@ + text::dec(b.height as nat))
        } else if b.parent_hash != state::tip_hash_of(n.db) {
            Err("parent hash mismatch"@)
        } else if !b.produced() {
            Err("bad producer signature"@)
        } else if timestamp_verdict(n.tip_time() as nat, b.timestamp_ms as nat, now) is Err {
            Err(timestamp_verdict(n.tip_time() as nat, b.timestamp_ms as nat, now)->Err_0)
        } else if b.transactions.len() > MAX_TXS_PER_BLOCK {
            Err("too many transactions"@)
        } else if types::txs_root_of(b.transactions) != b.txs_root {
            Err("txs root mismatch"@)
        } else {
            let set = staking::set_at(n.db, staking::next_height(n.db));
            let bound = attempt_window(
                n.tip_time() as nat,
                b.timestamp_ms as nat,
                now,
                n.slot as nat,
            );
            let floor = fees::floor_at(b.height as nat, state::base_fee_of(n.db));
            if set.len() > 0 && !electable(
                set,
                b.height as nat,
                b.parent_hash,
                bound,
                b.producer,
            ) {
                Err("producer is not an elected leader for this height"@)
            } else {
                match all_carriable(b.transactions, n.chain_id, b.height, floor) {
                    Err(e) => Err(e),
                    Ok(_) => if all_signed(b.transactions) {
                        Ok(true)
                    } else {
                        Err("invalid transaction signature"@)
                    },
                }
            }
        },
    }
}

/// The database a block leaves, settled but not adopted, or why it is refused.
pub open spec fn executed(f: FixedV, db: Db, b: BlockV) -> Result<Db, Seq<char>> {
    match replayed(db, b.transactions, b.height) {
        Err(e) => Err(e),
        Ok((d, fees)) => {
            let g = settled(f, d, b.height, b.parent_hash, b.producer, fees as nat);
            let root = state::root_at(f.notes, g, b.height as nat);
            if root != b.state_root {
                Err(
                    "state root mismatch at #"@ + text::dec(b.height as nat) + ": local "@ + root
                        + " peer "@ + b.state_root,
                )
            } else {
                Ok(g)
            }
        },
    }
}

/// Hashes of transactions.
pub open spec fn hashes_of(txs: Seq<TxV>) -> Seq<Seq<char>> {
    txs.map_values(|t: TxV| t.hash_text())
}

/// Outcome of executing a block that may be imported. A refused block leaves the node as
/// it was.
pub open spec fn taken_in(n: NodeV, b: BlockV, now: u128) -> (Result<bool, Seq<char>>, NodeV) {
    match executed(n.fixed, n.db, b) {
        Err(e) => (Err(e), n),
        Ok(g) => {
            let m = NodeV {
                pool: mempool::unconfirmed(n.pool, hashes_of(b.transactions)),
                ..advanced(n, g, b, now)
            };
            (Ok(true), announced(m, b))
        },
    }
}

/// Outcome of importing a block: `Ok(false)` for one the node already has. A refused
/// block leaves the node as it was.
pub open spec fn imported(n: NodeV, b: BlockV, now: u128) -> (Result<bool, Seq<char>>, NodeV) {
    match importable(n, b, now as nat) {
        Err(e) => (Err(e), n),
        Ok(fresh) => if !fresh {
            (Ok(false), n)
        } else {
            taken_in(n, b, now)
        },
    }
}

/// An import came to what its model says.
pub open spec fn imports(r: Result<bool, String>, v: Result<bool, Seq<char>>) -> bool {
    match r {
        Ok(b) => v == Ok::<bool, Seq<char>>(b),
        Err(e) => v == Err::<bool, Seq<char>>(e@),
    }
}

/// Whether a producer could have been elected on an attempt up to a bound.
fn is_electable(
    set: &Vec<Validator>,
    height: u64,
    parent: &str,
    bound: u64,
    producer: &str,
) -> (r: bool)
    requires
        bound < u64::MAX,
    ensures
        r == electable(rank::views(set@), height as nat, parent@, bound, producer@),
{
    let ghost v = rank::views(set@);
    let mut a: u64 = 0;
    while a <= bound
        invariant
            v == rank::views(set@),
            bound < u64::MAX,
            a <= bound + 1,
            forall|k: nat|
                k < a ==> #[trigger] staking::leader_of(v, height as nat, parent@, k) != Some(
                    producer@,
                ),
        decreases bound + 1 - a,
    {
        match staking::elect_leader_attempt(set, height, parent, a) {
            Some(l) => {
                if text::same(l.as_str(), producer) {
                    assert(staking::leader_of(v, height as nat, parent@, a as nat) == Some(
                        producer@,
                    ));
                    return true;
                }
            },
            None => {},
        }
        assert(staking::leader_of(v, height as nat, parent@, a as nat) != Some(producer@));
        a = a + 1;
    }
    false
}

/// Checks chain and fee of a block's transactions.
fn check_carriable(txs: &Vec<Transaction>, chain_id: u64, height: u64, floor: u128) -> (r: Result<
    (),
    String,
>)
    ensures
        state::agrees(
            r,
            all_carriable(types::txs_view(txs@), chain_id, height, floor as nat),
        ),
{
    let ghost all = types::txs_view(txs@);
    let mut i: usize = 0;
    assert(all.take(0) =~= Seq::<TxV>::empty());
    while i < txs.len()
        invariant
            i <= txs@.len(),
            all == types::txs_view(txs@),
            all_carriable(all.take(i as int), chain_id, height, floor as nat) is Ok,
        decreases txs@.len() - i,
    {
        proof {
            assert(all.take(i + 1).drop_last() =~= all.take(i as int));
            assert(all.take(i + 1).last() == txs@[i as int]@);
        }
        let fault: &str = if txs[i].chain_id != chain_id {
            "transaction from another chain"
        } else if txs[i].fee < types::MIN_FEE {
            "transaction fee below minimum"
        } else if height >= fees::FEE_MARKET_ACTIVATION_HEIGHT && txs[i].fee < floor {
            "transaction fee below block base fee"
        } else {
            i = i + 1;
            continue ;
        };
        proof {
            lemma_carriable_fails(all, chain_id, height, floor as nat, i + 1);
        }
        return Err(text::copy(fault));
    }
    assert(all.take(all.len() as int) =~= all);
    Ok(())
}

proof fn lemma_carriable_fails(txs: Seq<TxV>, chain_id: u64, height: u64, floor: nat, k: int)
    requires
        0 <= k <= txs.len(),
        all_carriable(txs.take(k), chain_id, height, floor) is Err,
    ensures
        all_carriable(txs, chain_id, height, floor) == all_carriable(
            txs.take(k),
            chain_id,
            height,
            floor,
        ),
    decreases txs.len(),
{
    if k == txs.len() {
        assert(txs.take(k) =~= txs);
    } else {
        assert(txs.drop_last().take(k) =~= txs.take(k));
        lemma_carriable_fails(txs.drop_last(), chain_id, height, floor, k);
    }
}

/// Hashes of transactions.
fn tx_hashes(txs: &Vec<Transaction>) -> (r: Vec<String>)
    ensures
        types::texts(r@) == hashes_of(types::txs_view(txs@)),
{
    let ghost all = types::txs_view(txs@);
    let mut out: Vec<String> = Vec::new();
    let mut i: usize = 0;
    while i < txs.len()
        invariant
            i <= txs@.len(),
            all == types::txs_view(txs@),
            types::texts(out@) =~= hashes_of(all.take(i as int)),
        decreases txs@.len() - i,
    {
        let ghost was = types::texts(out@);
        let h = txs[i].hash();
        let ghost hv = h@;
        out.push(h);
        assert(types::texts(out@) =~= was.push(hv));
        assert(hashes_of(all.take(i + 1)) =~= hashes_of(all.take(i as int)).push(hv));
        i = i + 1;
    }
    assert(all.take(all.len() as int) =~= all);
    out
}

impl Node {
    /// Verdict on a block before it is executed.
    fn check_import(&self, block: &Block, now: u128) -> (r: Result<bool, String>)
        requires
            self.wf(),
        ensures
            imports(r, importable(self@, block@, now as nat)),
    {
        assert(block@.transactions.len() == block.transactions@.len());
        let tip = match self.store.tip_height() {
            Some(t) => t,
            None => {
                return Err(text::copy("chain not initialized"));
            },
        };
        if block.height <= tip {
            return Ok(false);
        }
        if self.halted() {
            return Err(text::copy("node is halted"));
        }
        if block.height - tip != 1 {
            let mut m = text::copy("out of order: have ");
            text::push_dec(&mut m, tip as u128);
            m.append(", got ");
            text::push_dec(&mut m, block.height as u128);
            return Err(m);
        }
        let tip_hash = self.store.tip_hash();
        if !text::same(block.parent_hash.as_str(), tip_hash.as_str()) {
            return Err(text::copy("parent hash mismatch"));
        }
        if !block.verify_producer() {
            return Err(text::copy("bad producer signature"));
        }
        let parent_ms = self.tip_time();
        match check_timestamp(parent_ms, block.timestamp_ms, now) {
            Ok(()) => {},
            Err(e) => {
                return Err(e);
            },
        }
        if block.transactions.len() > MAX_TXS_PER_BLOCK {
            return Err(text::copy("too many transactions"));
        }
        let root = types::txs_root(&block.transactions);
        if !text::same(root.as_str(), block.txs_root.as_str()) {
            return Err(text::copy("txs root mismatch"));
        }
        let set = self.validators();
        assert(rank::views(set@).len() == set@.len());
        if set.len() > 0 {
            let bound = leader_attempt_window(
                parent_ms,
                block.timestamp_ms,
                now,
                self.genesis.block_time_ms,
            );
            if !is_electable(
                &set,
                block.height,
                block.parent_hash.as_str(),
                bound,
                block.producer.as_str(),
            ) {
                return Err(text::copy("producer is not an elected leader for this height"));
            }
        }
        let floor = fees::required_fee(block.height, self.store.base_fee());
        match check_carriable(&block.transactions, self.genesis.chain_id, block.height, floor) {
            Ok(()) => {},
            Err(e) => {
                return Err(e);
            },
        }
        if !verify_signatures(block.transactions.as_slice()) {
            return Err(text::copy("invalid transaction signature"));
        }
        Ok(true)
    }

    /// Executes a block; on refusal the store may hold part of it.
    fn execute_block(&mut self, block: &Block) -> (r: Result<(), String>)
        requires
            old(self).wf(),
        ensures
            final(self).wf(),
            state::follows(old(self).store, final(self).store),
            final(self)@ == (NodeV { db: final(self)@.db, ..old(self)@ }),
            final(self).mempool == old(self).mempool,
            tokens::wrote(
                r,
                executed(old(self)@.fixed, old(self)@.db, block@),
                final(self)@.db,
            ),
    {
        let fees = match replay_txs(&mut self.store, &block.transactions, block.height) {
            Ok(f) => f,
            Err(e) => {
                assert(self@ =~= NodeV { db: self@.db, ..old(self)@ });
                return Err(e);
            },
        };
        settle(
            &mut self.store,
            block.height,
            block.parent_hash.as_str(),
            block.producer.as_str(),
            fees,
        );
        assert(self@ =~= NodeV { db: self@.db, ..old(self)@ });
        let root = self.store.state_root_at(block.height);
        if !text::same(root.as_str(), block.state_root.as_str()) {
            let mut m = text::copy("state root mismatch at #");
            text::push_dec(&mut m, block.height as u128);
            m.append(": local ");
            m.append(root.as_str());
            m.append(" peer ");
            m.append(block.state_root.as_str());
            return Err(m);
        }
        Ok(())
    }

    /// Executes a block that may be imported and moves on to it.
    fn take_in(&mut self, block: &Block, now: u128) -> (r: Result<bool, String>)
        requires
            old(self).wf(),
        ensures
            final(self).wf(),
            state::follows(old(self).store, final(self).store),
            imports(r, taken_in(old(self)@, block@, now).0),
            final(self)@ == taken_in(old(self)@, block@, now).1,
            r == Ok::<bool, String>(true) ==> at_rest(final(self)@, block@),
    {
        let ghost n = self@;
        self.store.begin_block();
        match self.execute_block(block) {
            Ok(()) => {
                self.store.commit_block();
            },
            Err(e) => {
                self.store.abort_block();
                assert(self.store@.saved =~= old(self).store@.saved);
                assert(self@ =~= n);
                return Err(e);
            },
        }
        assert(self.store@.saved =~= old(self).store@.saved);
        let ghost g = self@.db;
        assert(self@ =~= NodeV { db: g, ..n });
        proof {
            self.store.lemma_tables();
            lemma_advanced_rests(n, g, block@, now);
        }
        self.advance(block, now);
        let gone = tx_hashes(&block.transactions);
        self.mempool.remove_hashes(&gone);
        assert(self@ =~= NodeV {
            pool: mempool::unconfirmed(n.pool, hashes_of(block@.transactions)),
            ..advanced(n, g, block@, now)
        });
        self.publish_block(block);
        Ok(true)
    }

    /// Validates and applies a block received from a peer, against the clock at a time.
    /// `Ok(false)` means the block is one the node already has.
    pub fn import_block_at(&mut self, block: &Block, now: u128) -> (r: Result<bool, String>)
        requires
            old(self).wf(),
        ensures
            final(self).wf(),
            state::follows(old(self).store, final(self).store),
            imports(r, imported(old(self)@, block@, now).0),
            final(self)@ == imported(old(self)@, block@, now).1,
            r == Ok::<bool, String>(true) ==> at_rest(final(self)@, block@),
    {
        match self.check_import(block, now) {
            Err(e) => Err(e),
            Ok(fresh) => {
                if fresh {
                    self.take_in(block, now)
                } else {
                    Ok(false)
                }
            },
        }
    }

    /// Validates and applies a block received from a peer.
    pub fn import_block(&mut self, block: &Block) -> (r: Result<bool, String>)
        requires
            old(self).wf(),
        ensures
            final(self).wf(),
            state::follows(old(self).store, final(self).store),
            exists|now: u128|
                imports(r, (#[trigger] imported(old(self)@, block@, now)).0) && final(self)@
                    == imported(old(self)@, block@, now).1,
            r == Ok::<bool, String>(true) ==> at_rest(final(self)@, block@),
    {
        let now = now_ms();
        let r = self.import_block_at(block, now);
        assert(imports(r, imported(old(self)@, block@, now).0));
        r
    }
}

/// A block that the node already has is no error, halted or not.
pub proof fn law_known_block_is_no_error(n: NodeV, b: BlockV, now: u128)
    requires
        state::tip_height_of(n.db) is Some,
    ensures
        imported(n, b, now).0 == Ok::<bool, Seq<char>>(false) <==> b.height
            <= state::tip_height_of(n.db)->Some_0,
{
}

/// A refused or already known block leaves the node exactly as it was.
pub proof fn law_refused_block_changes_nothing(n: NodeV, b: BlockV, now: u128)
    requires
        imported(n, b, now).0 != Ok::<bool, Seq<char>>(true),
    ensures
        imported(n, b, now).1 == n,
{
}

// ---------------------------------------------------------------- reorganisation

/// Outcome of going back to genesis to replay a peer's chain.
pub open spec fn restarted(n: NodeV, peer_height: u64, now: u128) -> (Result<(), Seq<char>>, NodeV) {
    let finalized = state::finalized_of(n.db);
    let tip = match state::tip_height_of(n.db) {
        Some(t) => t,
        None => 0,
    };
    if peer_height < finalized {
        (
            Err(
                "refusing reorg below finalized height "@ + text::dec(finalized) + " (peer at "@
                    + text::dec(peer_height as nat) + ")"@,
            ),
            n,
        )
    } else {
        match reorg_verdict(tip, peer_height as nat) {
            Err(e) => (Err(e), n),
            Ok(_) => {
                let w = NodeV { db: state::wiped(n.db), pool: Seq::empty(), ..n };
                match started(w) {
                    Err(e) => (Err(e), w),
                    Ok((_, d)) => (Ok(()), NodeV { db: d, tip_seen: now, ..w }),
                }
            },
        }
    }
}

/// A finalized height is never given up: going back to genesis for a peer that has not
/// reached it is refused and changes nothing.
pub proof fn law_finalized_history_is_kept(n: NodeV, peer_height: u64, now: u128)
    requires
        peer_height < state::finalized_of(n.db),
    ensures
        restarted(n, peer_height, now).0 is Err,
        restarted(n, peer_height, now).1 == n,
{
}

impl Node {
    /// Wipes local state back to genesis so the node can replay a peer's chain, at a
    /// time. Refused when it would discard a finalized height or too much history.
    pub fn reset_to_genesis_at(&mut self, peer_height: u64, now: u128) -> (r: Result<(), String>)
        requires
            old(self).wf(),
        ensures
            final(self).wf(),
            state::follows(old(self).store, final(self).store),
            state::agrees(r, restarted(old(self)@, peer_height, now).0),
            final(self)@ == restarted(old(self)@, peer_height, now).1,
    {
        let ghost n = self@;
        let finalized = self.store.finalized_height();
        if peer_height < finalized {
            let mut m = text::copy("refusing reorg below finalized height ");
            text::push_dec(&mut m, finalized as u128);
            m.append(" (peer at ");
            text::push_dec(&mut m, peer_height as u128);
            m.append(")");
            return Err(m);
        }
        let tip: u64 = match self.store.tip_height() {
            Some(t) => t,
            None => 0,
        };
        match check_reorg_depth(tip, peer_height) {
            Ok(()) => {},
            Err(e) => {
                return Err(e);
            },
        }
        self.store.reset_chain();
        self.mempool.clear();
        assert(self@ =~= NodeV { db: state::wiped(n.db), pool: Seq::empty(), ..n });
        match self.init_genesis() {
            Ok(_) => {
                self.tip_seen_ms = now;
                assert(self@ =~= restarted(n, peer_height, now).1);
                Ok(())
            },
            Err(e) => Err(e),
        }
    }

    /// Wipes local state back to genesis so the node can replay a peer's chain.
    pub fn reset_to_genesis(&mut self, peer_height: u64) -> (r: Result<(), String>)
        requires
            old(self).wf(),
        ensures
            final(self).wf(),
            state::follows(old(self).store, final(self).store),
            exists|now: u128|
                state::agrees(r, (#[trigger] restarted(old(self)@, peer_height, now)).0)
                    && final(self)@ == restarted(old(self)@, peer_height, now).1,
    {
        let now = now_ms();
        let r = self.reset_to_genesis_at(peer_height, now);
        assert(state::agrees(r, restarted(old(self)@, peer_height, now).0));
        r
    }

    /// Checks that the state at rest still is what the last block recorded.
    pub fn startup_state_root_check(&self) -> (r: Result<(), String>)
        requires
            self.wf(),
        ensures
            state::agrees(r, startup_verdict(self@.fixed, self@.db)),
    {
        match self.store.state_checkpoint() {
            None => Ok(()),
            Some((height, root)) => {
                let here = self.store.state_root();
                if text::same(here.as_str(), root.as_str()) {
                    return Ok(());
                }
                let mut m = text::copy("state root mismatch at checkpoint #");
                text::push_dec(&mut m, height as u128);
                m.append(": recorded ");
                m.append(root.as_str());
                m.append(", found ");
                m.append(here.as_str());
                Err(m)
            },
        }
    }
}

/// Verdict on the state at rest.
pub open spec fn startup_verdict(f: FixedV, db: Db) -> Result<(), Seq<char>> {
    match state::checkpoint_of(db) {
        None => Ok(()),
        Some((height, root)) => {
            let here = state::state_root_of(f.notes, db);
            if here == root {
                Ok(())
            } else {
                Err(
                    "state root mismatch at checkpoint #"@ + text::dec(height) + ": recorded "@
                        + root + ", found "@ + here,
                )
            }
        },
    }
}

// ---------------------------------------------------------------- equivocation

/// The unsigned report transaction of a node.
pub open spec fn report_body(n: NodeV, e: EvidenceV, nonce: u64) -> TxV {
    TxV {
        kind: TxKind::ReportEquivocation,
        from_pubkey: crypto::hex_text(n.public()),
        to: n.address(),
        amount: 0,
        fee: types::MIN_FEE,
        nonce,
        chain_id: n.chain_id,
        payload: Some(slashing::evidence_payload(e)),
        shielded: None,
        signature: ""@,
    }
}

/// The nonce a node's next transaction uses.
pub open spec fn own_nonce(n: NodeV) -> u64 {
    let k = state::account_of(n.db, n.address()).nonce + mempool::of_sender(n.pool, n.address());
    if k <= u64::MAX {
        k as u64
    } else {
        u64::MAX
    }
}

/// The signed report of evidence, or why it would not be accepted.
pub open spec fn report_of(n: NodeV, e: EvidenceV) -> Result<TxV, Seq<char>> {
    match slashing::report_verdict(
        n.db,
        staking::next_height(n.db),
        Some(slashing::evidence_payload(e)),
    ) {
        Err(m) => Err(m),
        Ok(_) => {
            let t = report_body(n, e, own_nonce(n));
            Ok(
                TxV {
                    signature: crypto::hex_text(
                        crypto::ed25519_signature(n.seed, text::utf8(t.signing_text())),
                    ),
                    ..t
                },
            )
        },
    }
}

/// Proof that a producer sealed two blocks at one height, when a peer's block and the
/// stored one show it.
pub open spec fn double_sign(db: Db, incoming: BlockV) -> Option<EvidenceV> {
    match state::block_of(db, incoming.height as nat) {
        None => None,
        Some(ours) => if ours.hash == incoming.hash || ours.producer != incoming.producer
            || !incoming.produced() || !ours.produced() {
            None
        } else {
            let e = EvidenceV::Block {
                a: BlockV { transactions: Seq::empty(), ..ours },
                b: BlockV { transactions: Seq::empty(), ..incoming },
            };
            match e.verdict() {
                Ok(_) => Some(e),
                Err(_) => None,
            }
        },
    }
}

/// Whoever signs two blocks of one height is caught by every node that has one of them:
/// the second gives a proof that names its signer.
pub proof fn law_double_sign_is_caught(db: Db, ours: BlockV, incoming: BlockV)
    requires
        state::block_of(db, incoming.height as nat) == Some(ours),
        ours.height == incoming.height,
        incoming.height > 0,
        ours.produced(),
        incoming.produced(),
        ours.producer_pubkey == incoming.producer_pubkey,
        ours.hash != incoming.hash,
    ensures
        double_sign(db, incoming) is Some,
        double_sign(db, incoming)->Some_0.verdict() == Ok::<Seq<char>, Seq<char>>(
            incoming.producer,
        ),
{
}

/// Model of optional evidence.
pub open spec fn evidence_view(e: Option<Evidence>) -> Option<EvidenceV> {
    match e {
        Some(e) => Some(e@),
        None => None,
    }
}

impl Node {
    /// A signed report of evidence from this node's own key.
    pub fn report_tx(&self, evidence: &Evidence) -> (r: Result<Transaction, String>)
        requires
            self.wf(),
        ensures
            match r {
                Ok(t) => report_of(self@, evidence@) == Ok::<TxV, Seq<char>>(t@),
                Err(e) => report_of(self@, evidence@) == Err::<TxV, Seq<char>>(e@),
            },
            r matches Ok(t) ==> slashing::decoded(t@.payload) == Ok::<EvidenceV, Seq<char>>(
                evidence@,
            ),
            r is Ok <==> slashing::reportable(
                self@.db,
                staking::next_height(self@.db),
                evidence@,
            ) is Ok && text::utf8(slashing::evidence_json(evidence@)).len()
                <= slashing::MAX_EVIDENCE_BYTES,
    {
        let height = staking::upcoming(&self.store);
        let payload = Some(slashing::encode(evidence));
        match slashing::check_report(&self.store, height, &payload) {
            Ok(_) => {},
            Err(e) => {
                return Err(e);
            },
        }
        let address = self.producer.address();
        let nonce = self.pending_nonce(address.as_str());
        let mut tx = Transaction {
            kind: TxKind::ReportEquivocation,
            from_pubkey: self.producer.pubkey_hex(),
            to: address,
            amount: 0,
            fee: types::MIN_FEE,
            nonce,
            chain_id: self.genesis.chain_id,
            payload,
            shielded: None,
            signature: text::copy(""),
        };
        let ghost t = tx@;
        assert(t =~= report_body(self@, evidence@, own_nonce(self@)));
        let bytes = tx.signing_bytes();
        tx.signature = self.producer.sign_hex(bytes.as_slice());
        assert(tx@ =~= TxV { signature: tx.signature@, ..t });
        Ok(tx)
    }

    /// Signs and submits a report of evidence from this node's own key. Anyone can do
    /// this; honest validators do it by themselves and collect the bounty.
    pub fn submit_report(&mut self, evidence: &Evidence) -> (r: Result<String, String>)
        requires
            old(self).wf(),
        ensures
            final(self).wf(),
            state::follows(old(self).store, final(self).store),
            match report_of(old(self)@, evidence@) {
                Err(m) => tokens::agrees_text(r, Err(m)) && final(self)@ == old(self)@,
                Ok(t) => tokens::agrees_text(r, submitted(old(self)@, t, old(self)@.floor()).0)
                    && final(self)@ == submitted(old(self)@, t, old(self)@.floor()).1,
            },
    {
        match self.report_tx(evidence) {
            Err(e) => Err(e),
            Ok(tx) => self.accept_tx(tx),
        }
    }

    /// A peer sent a block for a height this node sealed with a different hash. If both
    /// headers carry the same producer's signature, that is proof of a double-sign.
    pub fn detect_double_sign(&self, incoming: &Block) -> (r: Option<Evidence>)
        requires
            self.wf(),
        ensures
            evidence_view(r) == double_sign(self@.db, incoming@),
    {
        let ours = match self.store.block(incoming.height) {
            Some(b) => b,
            None => {
                return None;
            },
        };
        if text::same(ours.hash.as_str(), incoming.hash.as_str()) || !text::same(
            ours.producer.as_str(),
            incoming.producer.as_str(),
        ) {
            return None;
        }
        if !incoming.verify_producer() || !ours.verify_producer() {
            return None;
        }
        let evidence = Evidence::Block {
            a: slashing::HeaderProof::from_block(&ours),
            b: slashing::HeaderProof::from_block(incoming),
        };
        match evidence.verify() {
            Ok(_) => Some(evidence),
            Err(_) => None,
        }
    }
}

} // verus!
