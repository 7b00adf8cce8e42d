//! What a node reports is what its chain and its queue hold: transactions are found where
//! they are, the newest blocks come first, and figures are those of the state.

use crate::adoption;
use crate::chain;
use crate::chain::NodeV;
use crate::conserve;
use crate::contracts;
use crate::contracts::OutcomeV;
use crate::journal::Db;
use crate::mempool;
use crate::mempool::PoolV;
use crate::rank;
use crate::rpc;
use crate::rpc::TxStatus;
use crate::staking;
use crate::state;
use crate::types::BlockV;
use crate::types::TxV;
use vstd::prelude::*;
use vstd::string::*;

verus! {

// ---------------------------------------------------------------- transactions

/// Where a transaction is: on chain when it is indexed, with one confirmation for its own
/// block and one for each on top, final up to the finalized height; pending when it waits in
/// the pool; unknown otherwise.
pub proof fn law_status_is_where_it_is(n: NodeV, hash: Seq<char>)
    requires
        state::tx_height_of(n.db, hash) matches Some(h) ==> h <= rpc::tip_of(n.db) < u64::MAX,
    ensures
        ({
            let waits = exists|i: int| 0 <= i < n.pool.len() && (#[trigger] n.pool[i]).hash == hash;
            match state::tx_height_of(n.db, hash) {
                Some(h) => if h <= state::finalized_of(n.db) {
                    rpc::status_of(n, hash) == TxStatus::Finalized(
                        h as u64,
                        (rpc::tip_of(n.db) - h + 1) as u64,
                    )
                } else {
                    rpc::status_of(n, hash) == TxStatus::Confirmed(
                        h as u64,
                        (rpc::tip_of(n.db) - h + 1) as u64,
                    )
                },
                None => rpc::status_of(n, hash) == if waits {
                    TxStatus::Pending
                } else {
                    TxStatus::Unknown
                },
            }
        }),
{
}

/// A transaction that was accepted is pending right away.
pub proof fn law_accepted_is_pending(n: NodeV, tx: TxV, floor: nat)
    requires
        chain::submitted(n, tx, floor).0 is Ok,
    ensures
        rpc::status_of(chain::submitted(n, tx, floor).1, tx.hash_text()) == TxStatus::Pending,
{
    let m = chain::submitted(n, tx, floor).1;
    assert(m.pool[m.pool.len() - 1].hash == tx.hash_text());
    assert(chain::queued(m.pool, tx.hash_text()));
}

/// The first transaction of a hash in a list has that hash and is there; there is none
/// exactly when no transaction of the list has it.
pub proof fn law_hash_finds_its_transaction(txs: Seq<TxV>, hash: Seq<char>)
    ensures
        match rpc::with_hash(txs, hash) {
            Some(t) => t.hash_text() == hash && exists|i: int|
                0 <= i < txs.len() && #[trigger] txs[i] == t,
            None => forall|i: int|
                0 <= i < txs.len() ==> (#[trigger] txs[i]).hash_text() != hash,
        },
    decreases txs.len(),
{
    if txs.len() > 0 {
        let d = txs.drop_last();
        law_hash_finds_its_transaction(d, hash);
        match rpc::with_hash(d, hash) {
            Some(t) => {
                let i = choose|i: int| 0 <= i < d.len() && #[trigger] d[i] == t;
                assert(txs[i] == t);
            },
            None => {
                assert forall|i: int| 0 <= i < txs.len() - 1 implies (
                #[trigger] txs[i]).hash_text() != hash by {
                    assert(d[i] == txs[i]);
                }
                if txs.last().hash_text() == hash {
                    assert(txs[txs.len() - 1] == txs.last());
                }
            },
        }
    }
}

/// A transaction of an adopted block is on chain at that block with one confirmation, and
/// reading it gives it back.
pub proof fn law_included_is_confirmed(n: NodeV, b: BlockV, now: u128, k: int)
    requires
        conserve::steady(n.db),
        state::supply_of(n.db) + 10_000_000 <= u128::MAX,
        chain::imported(n, b, now).0 == Ok::<bool, Seq<char>>(true),
        0 <= k < b.transactions.len(),
    ensures
        ({
            let m = chain::imported(n, b, now).1;
            let hash = b.transactions[k].hash_text();
            &&& rpc::status_of(m, hash) == TxStatus::Confirmed(b.height, 1) || rpc::status_of(
                m,
                hash,
            ) == TxStatus::Finalized(b.height, 1)
            &&& state::block_of(m.db, b.height as nat) == Some(b)
            &&& rpc::with_hash(b.transactions, hash) matches Some(t) && t.hash_text() == hash
        }),
{
    let m = chain::imported(n, b, now).1;
    let hash = b.transactions[k].hash_text();
    adoption::law_adopted_block_is_the_tip(n, b, now, k, hash);
    law_hash_finds_its_transaction(b.transactions, hash);
    assert(b.transactions[k].hash_text() == hash);
}

// ---------------------------------------------------------------- blocks

/// A node that stores every block reports the newest first, one height after the other, as
/// many as were asked for and there are.
pub proof fn law_newest_blocks_come_first(db: Db, tip: nat, room: nat, i: int)
    requires
        forall|h: nat| h <= tip ==> #[trigger] state::block_of(db, h) is Some,
    ensures
        ({
            let out = rpc::downward(db, tip, room);
            &&& out.len() == if tip + 1 < room {
                tip + 1
            } else {
                room
            }
            &&& 0 <= i < out.len() ==> state::block_of(db, (tip - i) as nat) == Some(out[i])
        }),
    decreases tip,
{
    if room > 0 {
        assert(state::block_of(db, tip) is Some);
        if tip > 0 {
            law_newest_blocks_come_first(db, (tip - 1) as nat, (room - 1) as nat, i - 1);
        }
    }
}

// ---------------------------------------------------------------- figures

/// What is reported of an account is the account: its balance, bond and nonce, and the nonce
/// after everything it has waiting.
pub proof fn law_account_is_reported(
    n: NodeV,
    raw: Seq<u8>,
    r: Result<rpc::AccountInfo, String>,
    a: Seq<char>,
)
    requires
        rpc::get_account_told(n, raw, r),
        rpc::needed(raw, "/params/address"@, "missing address"@) == Ok::<Seq<char>, Seq<char>>(a),
        crate::crypto::valid_address(a),
        state::account_of(n.db, a).nonce + mempool::of_sender(n.pool, a) <= u64::MAX,
    ensures
        r is Ok,
        ({
            let i = r->Ok_0;
            let acct = state::account_of(n.db, a);
            &&& i.address@ == a
            &&& i.account.balance == acct.balance
            &&& i.account.staked == acct.staked
            &&& i.account.nonce == acct.nonce
            &&& i.account.rewards == acct.rewards
            &&& i.account.unbonding@ == acct.unbonding
            &&& i.validator == (acct.staked >= 1_000_000_000_000)
            &&& i.pending_nonce == acct.nonce + mempool::of_sender(n.pool, a)
        }),
{
}

/// What is reported of a token balance is the balance.
pub proof fn law_token_balance_is_reported(
    n: NodeV,
    raw: Seq<u8>,
    r: Result<rpc::TokenBalance, String>,
    id: Seq<char>,
    a: Seq<char>,
)
    requires
        rpc::token_balance_told(n, raw, r),
        rpc::needed(raw, "/params/token"@, "missing token"@) == Ok::<Seq<char>, Seq<char>>(id),
        rpc::needed(raw, "/params/address"@, "missing address"@) == Ok::<Seq<char>, Seq<char>>(a),
    ensures
        r is Ok <==> state::token_of(n.db, id) is Some,
        r matches Ok(i) ==> i.balance == state::token_balance_of(n.db, id, a) && i.address@ == a
            && Some(i.token@) == state::token_of(n.db, id),
{
}

/// The figures of a chain are those of its state.
pub proof fn law_chain_figures_are_reported(n: NodeV, now: u128, r: rpc::ChainInfo)
    requires
        rpc::chain_info_told(n, now, r),
        state::supply_of(n.db) <= u128::MAX,
        state::staked_of(state::stakers_of(n.db)) <= u128::MAX,
    ensures
        r.height == rpc::tip_of(n.db),
        r.tip_hash@ == state::tip_hash_of(n.db),
        r.finalized == state::finalized_of(n.db),
        r.mempool == n.pool.len(),
        r.supply == state::supply_of(n.db),
        r.staked == state::staked_of(state::stakers_of(n.db)),
        r.base_fee == state::base_fee_of(n.db),
        r.producer@ == n.address(),
        r.validators == staking::set_at(n.db, staking::next_height(n.db)).len(),
{
}

proof fn lemma_fees_are_orderly()
    ensures
        rank::orderly::<u128>(),
{
}

/// The fees of a pool in order are its fees, the lowest first.
pub proof fn law_fees_are_sorted(pool: Seq<PoolV>, i: int, j: int)
    requires
        0 <= i < j < pool.len(),
    ensures
        rpc::sorted_fees(pool).len() == pool.len(),
        rpc::sorted_fees(pool)[i] <= rpc::sorted_fees(pool)[j],
        rpc::sorted_fees(pool).to_multiset() == pool.map_values(
            |e: PoolV| e.tx.fee,
        ).to_multiset(),
{
    broadcast use vstd::seq_lib::group_to_multiset_ensures;

    let fees = pool.map_values(|e: PoolV| e.tx.fee);
    lemma_fees_are_orderly();
    rank::law_ranking_keeps_values::<u128>(fees);
    rank::law_ranking_orders::<u128>(fees);
    let s = rpc::sorted_fees(pool);
    assert(s.to_multiset().len() == fees.to_multiset().len());
    assert(!<u128 as rank::Ranked>::ahead(s[j], s[i]));
}

/// A guidance fee is never below the floor; above it, it is the fee that stands at that
/// percent of the way through the sorted pool.
pub proof fn law_guidance_is_a_queued_fee(sorted: Seq<u128>, p: int, floor: u128)
    requires
        0 <= p <= 100,
    ensures
        rpc::percentile(sorted, p, floor) >= floor,
        sorted.len() == 0 ==> rpc::percentile(sorted, p, floor) == floor,
        sorted.len() > 0 && rpc::percentile(sorted, p, floor) > floor ==> rpc::percentile(
            sorted,
            p,
            floor,
        ) == sorted[(sorted.len() - 1) * p / 100],
        sorted.len() > 0 ==> rpc::percentile(sorted, p, floor) >= sorted[(sorted.len() - 1) * p
            / 100],
{
}

/// A query runs the contract's code on the state as it is, with nothing attached and fifty
/// million fuel, and comes to what a call by that caller with that input comes to.
pub proof fn law_query_runs_the_code(db: Db, raw: Seq<u8>, a: Seq<char>, input: Seq<u8>)
    requires
        rpc::needed(raw, "/params/address"@, "missing address"@) == Ok::<Seq<char>, Seq<char>>(a),
        contracts::callable(db, a) is Ok,
        state::code_of(db, contracts::callable(db, a)->Ok_0.code_hash) is Some,
        contracts::args_in(Some(rpc::query_payload(raw))) == Ok::<Seq<u8>, Seq<char>>(input),
    ensures
        ({
            let code = state::code_of(db, contracts::callable(db, a)->Ok_0.code_hash)->Some_0;
            rpc::query_of(db, raw) == Ok::<(Seq<char>, OutcomeV), Seq<char>>(
                (
                    a,
                    contracts::executed(
                        db,
                        a,
                        rpc::text_or(raw, "/params/caller"@, a),
                        code,
                        input,
                        0,
                        rpc::tip_of(db),
                        50_000_000,
                    ),
                ),
            )
        }),
{
}

} // verus!
