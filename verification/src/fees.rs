//! Fee market: a base fee that rises when blocks run above target and decays when
//! they run below, derived from block history alone.

use crate::chain::MAX_TXS_PER_BLOCK;
use crate::types::MIN_FEE;
use vstd::prelude::*;

verus! {

/// Height at which the base fee becomes a consensus rule.
pub const FEE_MARKET_ACTIVATION_HEIGHT: u64 = 200_000;

/// Blocks aim for half-full, leaving headroom for bursts.
pub const TARGET_TXS_PER_BLOCK: usize = MAX_TXS_PER_BLOCK / 2;

/// Maximum move per block, in percent.
pub const MAX_CHANGE_PCT: u128 = 12;

/// Hard ceiling so a runaway controller can never price the chain out: 1 INAZ.
pub const MAX_BASE_FEE: u128 = 1_000_000_000;

/// `n` kept within the bounds of the base fee.
pub open spec fn bounded_fee(n: nat) -> nat {
    if n < MIN_FEE {
        MIN_FEE as nat
    } else if n > MAX_BASE_FEE {
        MAX_BASE_FEE as nat
    } else {
        n
    }
}

/// `n`, but at least the minimum fee.
pub open spec fn at_least_min(n: nat) -> nat {
    if n < MIN_FEE {
        MIN_FEE as nat
    } else {
        n
    }
}

/// The largest move the base fee may make in one block.
pub open spec fn fee_step(prev: nat) -> nat {
    if prev * 12 / 100 < 1 {
        1
    } else {
        prev * 12 / 100
    }
}

/// Base fee for the block after one that carried `txs` transactions.
pub open spec fn fee_after(prev: nat, txs: nat) -> nat {
    let p = at_least_min(prev);
    let target = TARGET_TXS_PER_BLOCK as nat;
    bounded_fee(
        if txs > target {
            p + fee_step(p) * ((txs - target) as nat) / target
        } else if txs < target {
            let down = fee_step(p) * ((target - txs) as nat) / target;
            if down > p {
                0
            } else {
                (p - down) as nat
            }
        } else {
            p
        },
    )
}

/// The move of a block is at most one step for each target's worth of transactions.
proof fn lemma_move(step: nat, n: nat, target: nat)
    requires
        n <= target,
        target > 0,
    ensures
        step * n / target <= step,
{
    assert(step * n <= step * target) by (nonlinear_arith)
        requires
            n <= target,
    ;
    vstd::arithmetic::div_mod::lemma_div_is_ordered(
        (step * n) as int,
        (step * target) as int,
        target as int,
    );
    vstd::arithmetic::div_mod::lemma_div_by_multiple(step as int, target as int);
}

/// Base fee for the block after one that carried `txs` transactions.
pub fn next_base_fee(prev: u128, txs: usize) -> (r: u128)
    ensures
        r == fee_after(prev as nat, txs as nat),
{
    let p: u128 = if prev < MIN_FEE {
        MIN_FEE
    } else {
        prev
    };
    let target: u128 = TARGET_TXS_PER_BLOCK as u128;
    let used: u128 = txs as u128;
    if p > 2_000_000_000 {
        proof {
            if used < target {
                lemma_move(fee_step(p as nat), (target - used) as nat, target as nat);
            }
        }
        return MAX_BASE_FEE;
    }
    let raw: u128 = p * MAX_CHANGE_PCT / 100;
    let step: u128 = if raw < 1 {
        1
    } else {
        raw
    };
    let next: u128 = if used > target {
        let over: u128 = used - target;
        assert(step * over <= 240_000_000 * 0x1_0000_0000_0000_0000) by (nonlinear_arith)
            requires
                step <= 240_000_000,
                over <= 0x1_0000_0000_0000_0000,
        ;
        p + step * over / target
    } else if used < target {
        let under: u128 = target - used;
        assert(step * under <= 240_000_000 * 2_500) by (nonlinear_arith)
            requires
                step <= 240_000_000,
                under <= 2_500,
        ;
        p.saturating_sub(step * under / target)
    } else {
        p
    };
    if next < MIN_FEE {
        MIN_FEE
    } else if next > MAX_BASE_FEE {
        MAX_BASE_FEE
    } else {
        next
    }
}

/// Fee floor in force at a height.
pub open spec fn floor_at(height: nat, base_fee: nat) -> nat {
    if height < FEE_MARKET_ACTIVATION_HEIGHT {
        MIN_FEE as nat
    } else {
        at_least_min(base_fee)
    }
}

/// Fee floor a transaction must pay to be admitted at `height`.
pub fn required_fee(height: u64, base_fee: u128) -> (r: u128)
    ensures
        r == floor_at(height as nat, base_fee as nat),
{
    if height < FEE_MARKET_ACTIVATION_HEIGHT {
        MIN_FEE
    } else if base_fee < MIN_FEE {
        MIN_FEE
    } else {
        base_fee
    }
}

/// The base fee never leaves its bounds, whatever it was and however full the block.
pub proof fn law_base_fee_is_bounded(prev: nat, txs: nat)
    ensures
        MIN_FEE <= fee_after(prev, txs) <= MAX_BASE_FEE,
{
}

/// At target the base fee stays where it is.
pub proof fn law_base_fee_is_steady_at_target(prev: nat)
    requires
        MIN_FEE <= prev <= MAX_BASE_FEE,
    ensures
        fee_after(prev, TARGET_TXS_PER_BLOCK as nat) == prev,
{
}

/// Above target the base fee never falls, below target it never rises, and a block
/// moves it by at most one step.
pub proof fn law_base_fee_follows_load(prev: nat, txs: nat)
    requires
        MIN_FEE <= prev <= MAX_BASE_FEE,
        txs <= MAX_TXS_PER_BLOCK,
    ensures
        txs >= TARGET_TXS_PER_BLOCK ==> prev <= fee_after(prev, txs) <= prev + fee_step(prev),
        txs <= TARGET_TXS_PER_BLOCK ==> prev - fee_step(prev) <= fee_after(prev, txs) <= prev,
{
    let target = TARGET_TXS_PER_BLOCK as nat;
    if txs > target {
        lemma_move(fee_step(prev), (txs - target) as nat, target);
    } else if txs < target {
        lemma_move(fee_step(prev), (target - txs) as nat, target);
    }
}

/// A full block raises the base fee by a whole step, until the ceiling.
pub proof fn law_full_block_raises_base_fee(prev: nat)
    requires
        MIN_FEE <= prev <= MAX_BASE_FEE,
    ensures
        fee_after(prev, MAX_TXS_PER_BLOCK as nat) == bounded_fee(prev + fee_step(prev)),
        prev < MAX_BASE_FEE ==> fee_after(prev, MAX_TXS_PER_BLOCK as nat) > prev,
{
    let target = TARGET_TXS_PER_BLOCK as nat;
    vstd::arithmetic::div_mod::lemma_div_by_multiple(fee_step(prev) as int, target as int);
}

/// Once the market is active, the floor is never below the minimum and follows the
/// base fee; before that it is the minimum.
pub proof fn law_floor_is_height_gated(height: nat, base_fee: nat)
    ensures
        floor_at(height, base_fee) >= MIN_FEE,
        height < FEE_MARKET_ACTIVATION_HEIGHT ==> floor_at(height, base_fee) == MIN_FEE,
        height >= FEE_MARKET_ACTIVATION_HEIGHT && base_fee >= MIN_FEE ==> floor_at(height, base_fee)
            == base_fee,
{
}

} // verus!
