//! Pruning down to the blocks to keep, and what it leaves as it was.

use crate::journal::Db;
use crate::state;
use crate::state::Store;
use crate::text;
use crate::types::TxV;
use vstd::prelude::*;
use vstd::string::*;

verus! {

/// Everything but block bodies, the transaction index and receipts is as it was.
pub open spec fn same_state(a: Db, b: Db) -> bool {
    &&& b.len() == a.len()
    &&& forall|t: int| 0 <= t < 16 && t != 1 && t != 2 && t != 10 ==> #[trigger] b[t] == a[t]
}

proof fn lemma_without_txs(db: Db, txs: Seq<TxV>)
    requires
        db.len() == 16,
    ensures
        same_state(db, state::without_txs(db, txs)),
        state::without_txs(db, txs)[1] == db[1],
    decreases txs.len(),
{
    if txs.len() > 0 {
        lemma_without_txs(db, txs.drop_last());
    }
}

proof fn lemma_without_height(db: Db, i: nat, h: nat)
    requires
        db.len() == 16,
        i != h,
        i < text::pow256(8),
        h < text::pow256(8),
    ensures
        same_state(db, state::without_height(db, i)),
        state::block_of(state::without_height(db, i), h) == state::block_of(db, h),
{
    text::lemma_be(i, 8);
    text::lemma_be(h, 8);
    match state::block_of(db, i) {
        Some(b) => {
            lemma_without_txs(db, b.transactions);
        },
        None => {},
    }
}

proof fn lemma_pruned_range(db: Db, from: nat, to: nat, h: nat)
    requires
        db.len() == 16,
        h < from || h >= to,
        h < text::pow256(8),
        to <= text::pow256(8),
    ensures
        same_state(db, state::pruned_range(db, from, to).0),
        state::block_of(state::pruned_range(db, from, to).0, h) == state::block_of(db, h),
    decreases to,
{
    if to > from {
        lemma_pruned_range(db, from, (to - 1) as nat, h);
        let d = state::pruned_range(db, from, (to - 1) as nat).0;
        lemma_without_height(d, (to - 1) as nat, h);
    }
}

/// Pruning keeps genesis, every block that is not finalized and every block from the
/// height it was asked to prune below.
pub proof fn law_pruning_keeps_recent_blocks(db: Db, below: nat, h: u64)
    requires
        db.len() == 16,
        h == 0 || h >= state::finalized_of(db) || h >= below,
    ensures
        state::block_of(state::pruned(db, below).0, h as nat) == state::block_of(db, h as nat),
{
    text::lemma_pow256_values();
    lemma_finalized_fits(db);
    lemma_pruned_range(db, state::prune_from(db), state::prune_to(db, below), h as nat);
}

/// Height below which history goes when some blocks behind the finalized one are kept.
pub open spec fn target_of(finalized: nat, keep: nat) -> nat {
    if finalized > keep {
        (finalized - keep) as nat
    } else {
        0
    }
}

/// The height below which history goes.
pub fn target(finalized: u64, keep: u64) -> (r: u64)
    ensures
        r == target_of(finalized as nat, keep as nat),
{
    finalized.saturating_sub(keep)
}

/// Removes finalized history but for the last blocks of it, and tells how many blocks
/// went.
pub fn prune_keeping(store: &mut Store, keep: u64) -> (r: u64)
    requires
        old(store).wf(),
    ensures
        state::follows(*old(store), *final(store)),
        ({
            let below = target_of(state::finalized_of(old(store)@.db), keep as nat);
            (final(store)@.db, r as nat) == state::pruned(old(store)@.db, below)
        }),
{
    let below = target(store.finalized_height(), keep);
    store.prune_blocks(below)
}

/// The blocks that were to be kept are kept: pruning down to some blocks behind the
/// finalized one touches none of those, nor anything above it.
pub proof fn law_kept_blocks_stay(db: Db, keep: nat, h: u64)
    requires
        db.len() == 16,
        h + keep >= state::finalized_of(db),
    ensures
        state::block_of(
            state::pruned(db, target_of(state::finalized_of(db), keep)).0,
            h as nat,
        ) == state::block_of(db, h as nat),
{
    law_pruning_keeps_recent_blocks(db, target_of(state::finalized_of(db), keep), h);
}

proof fn lemma_finalized_fits(db: Db)
    ensures
        state::finalized_of(db) < text::pow256(8),
{
    text::lemma_pow256_values();
    match state::meta(db, "finalized_height"@) {
        Some(b) => {
            text::lemma_from_be(b);
        },
        None => {},
    }
}

/// Pruning never touches state: every table but those of blocks, transaction heights,
/// receipts and meta values is as it was, meta values but the pruning mark too, and so
/// is the Merkle root.
pub proof fn law_pruning_keeps_state(db: Db, below: nat, name: Seq<char>)
    requires
        db.len() == 16,
        name != "pruned_below"@,
    ensures
        state::pruned(db, below).0.len() == 16,
        forall|t: int|
            0 <= t < 16 && t != 1 && t != 2 && t != 3 && t != 10 ==> #[trigger] state::pruned(
                db,
                below,
            ).0[t] == db[t],
        state::meta(state::pruned(db, below).0, name) == state::meta(db, name),
        state::merkle_root_of(state::pruned(db, below).0) == state::merkle_root_of(db),
{
    text::lemma_pow256_values();
    lemma_finalized_fits(db);
    let to = state::prune_to(db, below);
    let d = state::pruned_range(db, state::prune_from(db), to).0;
    lemma_pruned_range(db, state::prune_from(db), to, 0);
    if text::utf8(name) == text::utf8("pruned_below"@) {
        text::lemma_utf8_injective(name, "pruned_below"@);
    }
}

} // verus!
