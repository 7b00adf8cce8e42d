//! Exact behaviour at the boundaries that decide whether a network splits: finality,
//! slashing, fees, state roots, contracts, snapshots and pruning.

use inazuma::chain::{
    check_timestamp, leader_attempt_window, MAX_TIMESTAMP_DRIFT_MS, MAX_TXS_PER_BLOCK,
};
use inazuma::consensus::{Vote, VoteTracker};
use inazuma::crypto::{to_hex, Keypair};
use inazuma::fees::{next_base_fee, required_fee, FEE_MARKET_ACTIVATION_HEIGHT, MAX_BASE_FEE};
use inazuma::journal::Cell;
use inazuma::slashing;
use inazuma::slashing::equivocation_burn_pct;
use inazuma::smt::{empty_at, leaf_hash, leaf_key, Smt, DEPTH};
use inazuma::snapshot;
use inazuma::staking::{elect_leader_attempt, total_stake, validator_set_at, Validator};
use inazuma::staking::{MAX_VALIDATORS, VALIDATOR_CAP_ACTIVATION_HEIGHT};
use inazuma::state::Store;
use inazuma::types::{
    txs_root, Account, Block, ChainParams, DOWNTIME_JAIL_BLOCKS, DOWNTIME_JAIL_STREAK,
    DOWNTIME_REPEAT_BURN_BPS, MIN_FEE, MIN_STAKE, RAI_PER_INAZ, SLASHING_ACTIVATION_HEIGHT,
};
use std::collections::BTreeMap;

fn key() -> Keypair {
    Keypair::generate().unwrap()
}

fn store() -> Store {
    Store::new(
        ChainParams {
            slashing_activation: SLASHING_ACTIVATION_HEIGHT,
        },
        u64::MAX,
    )
}

fn bond(store: &mut Store, kp: &Keypair, stake: u128) {
    let mut a = store.account(&kp.address());
    a.balance = 10 * RAI_PER_INAZ;
    a.staked = stake;
    store.set_account(&kp.address(), &a);
}

fn sealed(kp: &Keypair, height: u64, parent: &str, state_root: &str) -> Block {
    let mut b = Block {
        height,
        parent_hash: parent.to_string(),
        timestamp_ms: 1_000 + height as u128,
        state_root: state_root.to_string(),
        txs_root: txs_root(&Vec::new()),
        producer: kp.address(),
        producer_pubkey: kp.pubkey_hex(),
        transactions: Vec::new(),
        signature: String::new(),
        hash: String::new(),
    };
    b.signature = kp.sign_hex(&b.header_bytes());
    b.hash = b.compute_hash();
    b
}

fn vote(kp: &Keypair, height: u64, hash: &str) -> Vote {
    let mut v = Vote {
        height,
        hash: hash.to_string(),
        voter_pubkey: kp.pubkey_hex(),
        signature: String::new(),
    };
    v.signature = kp.sign_hex(&v.signing_bytes());
    v
}

fn vset(stakes: &[(String, u128)]) -> Vec<Validator> {
    let mut set: Vec<Validator> = stakes
        .iter()
        .map(|(address, stake)| Validator {
            address: address.clone(),
            stake: *stake,
            rewards: 0,
            blocks_produced: 0,
            jailed_until: 0,
            tombstoned: false,
            missed_slots: 0,
            slashed: 0,
        })
        .collect();
    set.sort_by(|a, b| a.address.cmp(&b.address));
    set
}

#[test]
fn leader_schedule_is_deterministic_and_stake_weighted() {
    let keys: Vec<Keypair> = (0..20).map(|_| key()).collect();
    let stakes: Vec<(String, u128)> = keys
        .iter()
        .enumerate()
        .map(|(i, k)| (k.address(), (i as u128 + 1) * MIN_STAKE))
        .collect();
    let set = vset(&stakes);
    let total = total_stake(&set);

    let mut counts: BTreeMap<String, u64> = BTreeMap::new();
    let rounds = 20_000u64;
    for h in 1..=rounds {
        let parent = format!("{:064x}", h);
        let a = elect_leader_attempt(&set, h, &parent, 0).unwrap();
        let b = elect_leader_attempt(&set, h, &parent, 0).unwrap();
        assert_eq!(a, b, "election must be a pure function");
        *counts.entry(a).or_default() += 1;
    }
    assert_eq!(counts.values().sum::<u64>(), rounds);
    assert_eq!(counts.len(), 20, "every validator must get slots");

    for v in &set {
        let got = *counts.get(&v.address).unwrap() as f64 / rounds as f64;
        let want = v.stake as f64 / total as f64;
        assert!(
            (got - want).abs() < 0.01,
            "{} got {:.4} of slots for {:.4} of stake",
            v.address,
            got,
            want
        );
    }
}

#[test]
fn attempt_escalation_rotates_the_leader() {
    let keys: Vec<Keypair> = (0..5).map(|_| key()).collect();
    let set = vset(
        &keys
            .iter()
            .map(|k| (k.address(), MIN_STAKE))
            .collect::<Vec<_>>(),
    );
    for h in 1..500u64 {
        let parent = format!("{:064x}", h);
        let primary = elect_leader_attempt(&set, h, &parent, 0).unwrap();
        let rotated = (1..8)
            .filter_map(|a| elect_leader_attempt(&set, h, &parent, a))
            .any(|l| l != primary);
        assert!(rotated, "no rotation away from the primary at height {}", h);
    }
}

#[test]
fn finality_threshold_is_exactly_two_thirds() {
    let mut st = store();
    let a = key();
    let b = key();
    let c = key();
    bond(&mut st, &a, 666 * MIN_STAKE);
    bond(&mut st, &b, MIN_STAKE);
    bond(&mut st, &c, 333 * MIN_STAKE);

    let block = sealed(&a, 1, &"0".repeat(64), "root");
    st.put_block(&block);
    let mut tracker = VoteTracker::new();

    let out = tracker.add(&mut st, vote(&a, 1, &block.hash)).unwrap();
    assert!(out.fresh);
    assert_eq!(out.finalized, None, "66.6% must not finalize");
    assert_eq!(st.finalized_height(), 0);

    let out = tracker.add(&mut st, vote(&b, 1, &block.hash)).unwrap();
    assert_eq!(out.finalized, Some(1), "66.7% must finalize");
    assert_eq!(st.finalized_height(), 1);

    let (_voted, total) = tracker.tally(&st, 1);
    assert_eq!(total, 1000 * MIN_STAKE);
}

#[test]
fn half_stake_halts_instead_of_forking() {
    let mut st = store();
    let a = key();
    let b = key();
    bond(&mut st, &a, 500 * MIN_STAKE);
    bond(&mut st, &b, 500 * MIN_STAKE);

    let block = sealed(&a, 1, &"0".repeat(64), "root");
    st.put_block(&block);
    let mut tracker = VoteTracker::new();
    assert_eq!(
        tracker
            .add(&mut st, vote(&a, 1, &block.hash))
            .unwrap()
            .finalized,
        None
    );
    assert_eq!(st.finalized_height(), 0, "50% must not finalize");

    let conflicting = tracker.add(&mut st, vote(&b, 1, &"f".repeat(64)));
    assert!(
        conflicting.is_err(),
        "vote for an unknown hash must be rejected"
    );
    assert_eq!(st.finalized_height(), 0);
}

#[test]
fn vote_signatures_are_domain_separated() {
    let mut st = store();
    let a = key();
    let b = key();
    let c = key();
    bond(&mut st, &a, MIN_STAKE);
    bond(&mut st, &b, MIN_STAKE);
    bond(&mut st, &c, MIN_STAKE);
    let h1 = sealed(&a, 1, &"0".repeat(64), "r1");
    let h2 = sealed(&a, 2, &h1.hash, "r2");
    st.put_block(&h1);
    st.put_block(&h2);
    let mut tracker = VoteTracker::new();

    let good = vote(&a, 1, &h1.hash);
    assert!(good.verify_signature());

    let mut moved = good.clone();
    moved.height = 2;
    assert!(!moved.verify_signature());
    assert!(tracker.add(&mut st, moved).is_err());

    let mut rehashed = good.clone();
    rehashed.hash = h2.hash.clone();
    assert!(!rehashed.verify_signature());
    assert!(tracker.add(&mut st, rehashed).is_err());

    let mut impersonated = good.clone();
    impersonated.voter_pubkey = b.pubkey_hex();
    assert!(!impersonated.verify_signature());
    assert!(tracker.add(&mut st, impersonated).is_err());

    let mut foreign = Vote {
        height: 1,
        hash: h1.hash.clone(),
        voter_pubkey: a.pubkey_hex(),
        signature: String::new(),
    };
    foreign.signature =
        a.sign_hex(format!("inazuma-vote|1|{}|{}", foreign.height, foreign.hash).as_bytes());
    assert!(
        !foreign.verify_signature(),
        "chain id must be inside the preimage"
    );
    assert!(tracker.add(&mut st, foreign).is_err());

    let mut injected = Vote {
        height: 1,
        hash: format!("{}|9", h1.hash),
        voter_pubkey: a.pubkey_hex(),
        signature: String::new(),
    };
    injected.signature = a.sign_hex(&injected.signing_bytes());
    assert!(
        !injected.verify_signature(),
        "| must be refused in signed fields"
    );
}

#[test]
fn equivocating_vote_produces_evidence() {
    let mut st = store();
    let a = key();
    let b = key();
    bond(&mut st, &a, MIN_STAKE);
    bond(&mut st, &b, MIN_STAKE);
    let blk = sealed(&a, 1, &"0".repeat(64), "r1");
    let other = sealed(&b, 1, &"0".repeat(64), "r2");
    st.put_block(&blk);
    let mut tracker = VoteTracker::new();

    tracker.add(&mut st, vote(&a, 1, &blk.hash)).unwrap();
    let err = tracker
        .add(&mut st, vote(&a, 1, &other.hash))
        .err()
        .expect("must be rejected");
    assert!(err.contains("equivocating"), "got: {}", err);

    let evidence = tracker.take_evidence();
    assert_eq!(evidence.len(), 1);
    assert_eq!(evidence[0].verify().unwrap(), a.address());
    assert!(
        tracker.take_evidence().is_empty(),
        "evidence must drain once"
    );
}

#[test]
fn pending_vote_buffer_rejects_unbonded_spam() {
    let mut st = store();
    let a = key();
    bond(&mut st, &a, MIN_STAKE);
    let mut tracker = VoteTracker::new();

    for _ in 0..64 {
        let stranger = key();
        let err = tracker
            .add(&mut st, vote(&stranger, 9_000, &"a".repeat(64)))
            .err()
            .expect("unbonded voter must be rejected");
        assert!(err.contains("not a bonded validator"), "got: {}", err);
    }
    assert!(
        tracker
            .add(&mut st, vote(&a, 9_000, &"a".repeat(64)))
            .unwrap()
            .fresh
    );
    assert!(
        !tracker
            .add(&mut st, vote(&a, 9_000, &"a".repeat(64)))
            .unwrap()
            .fresh
    );
}

#[test]
fn buffered_votes_finalize_on_arrival() {
    let mut st = store();
    let a = key();
    let b = key();
    bond(&mut st, &a, MIN_STAKE);
    bond(&mut st, &b, MIN_STAKE);
    let blk = sealed(&a, 1, &"0".repeat(64), "r1");
    let mut tracker = VoteTracker::new();

    tracker.add(&mut st, vote(&a, 1, &blk.hash)).unwrap();
    tracker.add(&mut st, vote(&b, 1, &blk.hash)).unwrap();
    assert_eq!(st.finalized_height(), 0);

    st.put_block(&blk);
    assert_eq!(tracker.replay_pending(&mut st, 1), Some(1));
    assert_eq!(st.finalized_height(), 1);
}

#[test]
fn clock_skew_tolerance_is_enforced() {
    let now = 1_000_000u128;
    let parent = now - 400;

    assert!(check_timestamp(parent, now, now).is_ok());
    assert!(
        check_timestamp(parent, now + MAX_TIMESTAMP_DRIFT_MS, now).is_ok(),
        "edge of tolerance"
    );
    for ahead in [15_000u128, 30_000, 60_000] {
        assert!(
            check_timestamp(parent, now + ahead, now).is_err(),
            "+{}ms accepted",
            ahead
        );
    }
    for behind in [15_000u128, 30_000, 60_000] {
        assert!(
            check_timestamp(parent, parent + 1, now + behind).is_ok(),
            "-{}ms rejected",
            behind
        );
    }
    assert!(check_timestamp(parent, parent, now).is_err());
    assert!(check_timestamp(parent, parent - 1, now).is_err());

    let honest = leader_attempt_window(parent, parent + 400, now, 400);
    let inflated = leader_attempt_window(parent, parent + 600_000, now, 400);
    assert!(
        inflated <= honest + 1,
        "future timestamp inflated the window: {} vs {}",
        inflated,
        honest
    );
}

#[test]
fn finalized_history_cannot_be_reorged() {
    let mut st = store();
    let a = key();
    let b = key();
    bond(&mut st, &a, 2 * MIN_STAKE);
    bond(&mut st, &b, MIN_STAKE);
    let blk = sealed(&a, 1, &"0".repeat(64), "r1");
    st.put_block(&blk);
    let mut tracker = VoteTracker::new();
    tracker.add(&mut st, vote(&a, 1, &blk.hash)).unwrap();
    tracker.add(&mut st, vote(&b, 1, &blk.hash)).unwrap();
    assert_eq!(st.finalized_height(), 1);

    let attacker = key();
    let alt = sealed(&attacker, 1, &"0".repeat(64), "evil");
    assert_ne!(alt.hash, blk.hash);
    let stale = tracker.add(&mut st, vote(&attacker, 1, &alt.hash));
    assert!(stale
        .as_ref()
        .map(|o| o.finalized.is_none() && !o.fresh)
        .unwrap_or(true));
    let stale = tracker.add(&mut st, vote(&a, 1, &alt.hash));
    assert!(stale
        .as_ref()
        .map(|o| o.finalized.is_none() && !o.fresh)
        .unwrap_or(true));
    assert_eq!(st.block(1).unwrap().hash, blk.hash);
    assert_eq!(st.finalized_height(), 1);
}

#[test]
fn equivocation_burn_formula_is_exact() {
    assert_eq!(equivocation_burn_pct(0, 100), 5);
    assert_eq!(equivocation_burn_pct(1, 100_000), 5, "dust validator pays the floor");
    assert_eq!(equivocation_burn_pct(1_000, 100_000), 5, "1% share -> 3% < floor -> 5%");
    assert_eq!(equivocation_burn_pct(2_000, 100_000), 6, "2% share -> 6%");
    assert_eq!(equivocation_burn_pct(10_000, 100_000), 30);
    assert_eq!(equivocation_burn_pct(33_000, 100_000), 99);
    assert_eq!(equivocation_burn_pct(34_000, 100_000), 100, "cap");
    assert_eq!(equivocation_burn_pct(100_000, 100_000), 100);
    assert_eq!(equivocation_burn_pct(1, 0), 5, "no stake on chain -> floor");
}

#[test]
fn double_sign_burns_exactly_and_tombstones_forever() {
    let mut st = store();
    let offender = key();
    let reporter = key();
    let other = key();
    bond(&mut st, &offender, 100 * MIN_STAKE);
    bond(&mut st, &other, 900 * MIN_STAKE);
    let before_reporter = st.account(&reporter.address()).balance;

    let a = slashing::HeaderProof::from_block(&sealed(&offender, 500, &"0".repeat(64), "aa"));
    let b = slashing::HeaderProof::from_block(&sealed(&offender, 500, &"0".repeat(64), "bb"));
    let ev = slashing::Evidence::Block { a, b };

    let staked = 100 * MIN_STAKE;
    let expected_burn = staked * 30 / 100;
    let expected_bounty = expected_burn * 10 / 100;

    let rec = slashing::apply_report(&mut st, 600, &reporter.address(), &ev).unwrap();
    assert_eq!(rec.bounty, expected_bounty, "reporter cut must be exact");
    assert_eq!(
        rec.burned,
        expected_burn - expected_bounty,
        "burn is net of bounty"
    );
    assert_eq!(
        st.account(&reporter.address()).balance,
        before_reporter + expected_bounty
    );
    let acct = st.account(&offender.address());
    assert_eq!(
        acct.staked,
        staked - expected_burn,
        "remaining stake must be exact"
    );
    assert!(acct.penalties.tombstoned);

    assert!(!acct.is_active_validator(u64::MAX));
    assert!(validator_set_at(&st, u64::MAX)
        .iter()
        .all(|v| v.address != offender.address()));
    assert!(slashing::apply_unjail(&mut st, u64::MAX, &offender.address()).is_err());

    assert!(slashing::apply_report(&mut st, 601, &reporter.address(), &ev).is_err());
    assert_eq!(
        st.account(&offender.address()).staked,
        staked - expected_burn
    );
}

#[test]
fn self_report_pays_no_bounty() {
    let mut st = store();
    let offender = key();
    bond(&mut st, &offender, 100 * MIN_STAKE);
    let a = slashing::HeaderProof::from_block(&sealed(&offender, 5, &"0".repeat(64), "aa"));
    let b = slashing::HeaderProof::from_block(&sealed(&offender, 5, &"0".repeat(64), "bb"));
    let ev = slashing::Evidence::Block { a, b };
    let rec = slashing::apply_report(&mut st, 6, &offender.address(), &ev).unwrap();
    assert_eq!(rec.bounty, 0);
}

#[test]
fn false_reports_never_touch_the_accused() {
    let mut st = store();
    let innocent = key();
    let liar = key();
    bond(&mut st, &innocent, 100 * MIN_STAKE);
    let staked_before = st.account(&innocent.address()).staked;

    let mut a = slashing::HeaderProof::from_block(&sealed(&innocent, 5, &"0".repeat(64), "aa"));
    let b = slashing::HeaderProof::from_block(&sealed(&innocent, 5, &"0".repeat(64), "bb"));
    a.state_root = "cc".into();
    let forged = slashing::Evidence::Block { a, b };
    assert!(forged.verify().is_err());
    assert!(slashing::apply_report(&mut st, 6, &liar.address(), &forged).is_err());

    let same = slashing::HeaderProof::from_block(&sealed(&innocent, 5, &"0".repeat(64), "aa"));
    let dup = slashing::Evidence::Block {
        a: same.clone(),
        b: same,
    };
    assert!(slashing::apply_report(&mut st, 6, &liar.address(), &dup).is_err());

    let mut stolen = slashing::HeaderProof::from_block(&sealed(&liar, 5, &"0".repeat(64), "aa"));
    let other = slashing::HeaderProof::from_block(&sealed(&liar, 5, &"0".repeat(64), "bb"));
    stolen.producer = innocent.address();
    let framed = slashing::Evidence::Block {
        a: stolen,
        b: other,
    };
    let verdict = framed.verify();
    assert!(verdict.is_err() || verdict.as_deref() == Ok(liar.address().as_str()));

    assert_eq!(st.account(&innocent.address()).staked, staked_before);
    assert!(!st.account(&innocent.address()).penalties.tombstoned);
    assert_eq!(
        st.account(&liar.address()).balance,
        0,
        "no bounty for a bad report"
    );
}

#[test]
fn downtime_jail_boundary_is_exact() {
    let mut st = store();
    let a = key();
    let b = key();
    bond(&mut st, &a, MIN_STAKE);
    bond(&mut st, &b, MIN_STAKE);
    let height = SLASHING_ACTIVATION_HEIGHT + 10;

    let set = validator_set_at(&st, height);
    let (parent, skipped) = (0u64..10_000)
        .find_map(|n| {
            let p = format!("{:064x}", n);
            let first = elect_leader_attempt(&set, height, &p, 0)?;
            let second = elect_leader_attempt(&set, height, &p, 1)?;
            if first != second {
                Some((p, first))
            } else {
                None
            }
        })
        .expect("no rotating slot found");
    let producer = if skipped == a.address() {
        b.address()
    } else {
        a.address()
    };
    let victim = skipped;

    let mut acct = st.account(&victim);
    acct.penalties.missed_streak = DOWNTIME_JAIL_STREAK - 2;
    st.set_account(&victim, &acct);
    slashing::record_liveness(&mut st, height, &parent, &producer);
    let acct = st.account(&victim);
    assert_eq!(acct.penalties.missed_streak, DOWNTIME_JAIL_STREAK - 1);
    assert_eq!(acct.penalties.jailed_until, 0, "jailed one slot too early");

    slashing::record_liveness(&mut st, height, &parent, &producer);
    let acct = st.account(&victim);
    assert_eq!(acct.penalties.jailed_until, height + DOWNTIME_JAIL_BLOCKS);
    assert_eq!(acct.penalties.missed_streak, 0, "streak resets on jail");
    assert_eq!(acct.penalties.downtime_jails, 1);
    assert_eq!(acct.penalties.slashed, 0, "first jail must not burn");
    assert!(
        !acct.is_active_validator(height + 1),
        "jailed validator stays electable"
    );
    assert!(acct.is_active_validator(height + DOWNTIME_JAIL_BLOCKS));

    assert!(slashing::apply_unjail(&mut st, height + DOWNTIME_JAIL_BLOCKS - 1, &victim).is_err());
    slashing::apply_unjail(&mut st, height + DOWNTIME_JAIL_BLOCKS, &victim).unwrap();
    assert_eq!(st.account(&victim).penalties.jailed_until, 0);
    assert!(slashing::apply_unjail(&mut st, height + DOWNTIME_JAIL_BLOCKS, &victim).is_err());

    let mut acct = st.account(&victim);
    let staked = acct.staked;
    acct.penalties.missed_streak = DOWNTIME_JAIL_STREAK - 1;
    st.set_account(&victim, &acct);
    slashing::record_liveness(&mut st, height, &parent, &producer);
    let acct = st.account(&victim);
    let expected = staked * DOWNTIME_REPEAT_BURN_BPS / 10_000;
    assert_eq!(acct.penalties.downtime_jails, 2);
    assert_eq!(
        acct.penalties.slashed, expected,
        "repeat burn must be exactly 0.1%"
    );
    assert_eq!(acct.staked, staked - expected);
}

#[test]
fn slashing_is_inert_before_activation_height() {
    let mut st = store();
    let a = key();
    let b = key();
    bond(&mut st, &a, MIN_STAKE);
    bond(&mut st, &b, MIN_STAKE);
    let parent = "0".repeat(64);
    for h in [1u64, 1_000, SLASHING_ACTIVATION_HEIGHT - 1] {
        slashing::record_liveness(&mut st, h, &parent, &b.address());
        slashing::record_liveness(&mut st, h, &parent, &a.address());
    }
    for kp in [&a, &b] {
        let p = st.account(&kp.address()).penalties;
        assert_eq!(p.missed_slots, 0);
        assert_eq!(p.missed_streak, 0);
        assert_eq!(p.jailed_until, 0);
    }
    assert!(st.slashes().is_empty());
}

#[test]
fn solo_validator_is_never_jailed() {
    let mut st = store();
    let a = key();
    bond(&mut st, &a, MIN_STAKE);
    for h in 0..200u64 {
        slashing::record_liveness(
            &mut st,
            SLASHING_ACTIVATION_HEIGHT + h,
            &format!("{:064x}", h),
            &a.address(),
        );
    }
    assert_eq!(st.account(&a.address()).penalties.jailed_until, 0);
    assert_eq!(st.account(&a.address()).penalties.missed_slots, 0);
}

#[test]
fn intermittent_liveness_never_accumulates_into_a_jail() {
    let mut st = store();
    let a = key();
    let b = key();
    bond(&mut st, &a, MIN_STAKE);
    bond(&mut st, &b, MIN_STAKE);
    let set = validator_set_at(&st, SLASHING_ACTIVATION_HEIGHT);
    for round in 0..400u64 {
        let h = SLASHING_ACTIVATION_HEIGHT + round;
        let parent = format!("{:064x}", round);
        if let Some(leader) = elect_leader_attempt(&set, h, &parent, 0) {
            slashing::record_liveness(&mut st, h, &parent, &leader);
        }
    }
    for kp in [&a, &b] {
        assert_eq!(st.account(&kp.address()).penalties.jailed_until, 0);
        assert_eq!(st.account(&kp.address()).penalties.missed_slots, 0);
    }
}

#[test]
fn base_fee_trajectory_is_exact() {
    let target = MAX_TXS_PER_BLOCK / 2;

    let mut fee = 1_000_000u128;
    for _ in 0..100 {
        fee = next_base_fee(fee, target);
    }
    assert_eq!(fee, 1_000_000);

    assert_eq!(next_base_fee(1_000_000, MAX_TXS_PER_BLOCK), 1_120_000);
    assert_eq!(next_base_fee(1_000_000, 0), 880_000);
    assert_eq!(next_base_fee(1_000_000, target + target / 2), 1_060_000);

    let mut fee = 1_000_000u128;
    for _ in 0..50 {
        fee = next_base_fee(fee, MAX_TXS_PER_BLOCK);
        fee = next_base_fee(fee, 0);
    }
    assert!(
        fee < 1_000_000,
        "alternating load ratcheted the fee up to {}",
        fee
    );

    let mut fee = MIN_FEE;
    for _ in 0..1_000 {
        fee = next_base_fee(fee, MAX_TXS_PER_BLOCK);
    }
    assert_eq!(fee, MAX_BASE_FEE, "ceiling not enforced");
    assert_eq!(next_base_fee(MAX_BASE_FEE, MAX_TXS_PER_BLOCK), MAX_BASE_FEE);

    let mut fee = MAX_BASE_FEE;
    for _ in 0..10_000 {
        fee = next_base_fee(fee, 0);
    }
    assert_eq!(fee, MIN_FEE, "floor not enforced");
}

#[test]
fn fee_market_activation_is_height_gated() {
    let hot = 500_000_000u128;
    assert_eq!(required_fee(0, hot), MIN_FEE);
    assert_eq!(required_fee(FEE_MARKET_ACTIVATION_HEIGHT - 1, hot), MIN_FEE);
    assert_eq!(required_fee(FEE_MARKET_ACTIVATION_HEIGHT, hot), hot);
    assert_eq!(
        required_fee(FEE_MARKET_ACTIVATION_HEIGHT + 1, 1),
        MIN_FEE,
        "never below floor"
    );
}

fn bit(k: &[u8; 32], i: usize) -> u8 {
    (k[i / 8] >> (7 - (i % 8))) & 1
}

type Leaf = ([u8; 32], Vec<u8>);

fn parent(l: &[u8; 32], r: &[u8; 32]) -> [u8; 32] {
    let mut buf = [0u8; 64];
    buf[..32].copy_from_slice(l);
    buf[32..].copy_from_slice(r);
    inazuma::crypto::sha256(&buf)
}

/// A tree built from its leaves alone. Roots of subtrees that hold one leaf only are kept,
/// so that a leaf that stays as it is costs nothing the next time.
struct Model {
    empty: Vec<[u8; 32]>,
    kept: BTreeMap<Leaf, Vec<[u8; 32]>>,
}

impl Model {
    fn alone(&mut self, leaf: &Leaf, depth: usize) -> [u8; 32] {
        if let Some(roots) = self.kept.get(leaf) {
            return roots[depth];
        }
        let mut roots = vec![[0u8; 32]; DEPTH + 1];
        roots[DEPTH] = leaf_hash(&leaf.0, Some(leaf.1.as_slice()));
        for d in (0..DEPTH).rev() {
            roots[d] = if bit(&leaf.0, d) == 0 {
                parent(&roots[d + 1], &self.empty[d + 1])
            } else {
                parent(&self.empty[d + 1], &roots[d + 1])
            };
        }
        let root = roots[depth];
        self.kept.insert(leaf.clone(), roots);
        root
    }

    fn node(&mut self, leaves: &[Leaf], depth: usize) -> [u8; 32] {
        if leaves.is_empty() {
            return self.empty[depth];
        }
        if leaves.len() == 1 {
            return self.alone(&leaves[0], depth);
        }
        let left: Vec<Leaf> = leaves
            .iter()
            .filter(|(k, _)| bit(k, depth) == 0)
            .cloned()
            .collect();
        let right: Vec<Leaf> = leaves
            .iter()
            .filter(|(k, _)| bit(k, depth) == 1)
            .cloned()
            .collect();
        let l = self.node(&left, depth + 1);
        let r = self.node(&right, depth + 1);
        parent(&l, &r)
    }

    fn root(&mut self, leaves: &BTreeMap<[u8; 32], Vec<u8>>) -> [u8; 32] {
        let v: Vec<Leaf> = leaves.iter().map(|(k, v)| (*k, v.clone())).collect();
        self.node(&v, 0)
    }
}

#[test]
fn state_root_matches_an_independent_implementation() {
    let mut smt = Smt::new();
    let mut model: BTreeMap<[u8; 32], Vec<u8>> = BTreeMap::new();
    let mut tree = Model {
        empty: (0..=DEPTH).map(empty_at).collect(),
        kept: BTreeMap::new(),
    };

    let mut seed = 0x9E3779B97F4A7C15u64;
    let mut rand = move || {
        seed ^= seed << 13;
        seed ^= seed >> 7;
        seed ^= seed << 17;
        seed
    };

    for step in 0..2_000u64 {
        let r = rand();
        let key = format!("k{}", r % 250);
        let domain = if r % 3 == 0 { "acct" } else { "tokbal" };
        let lk = leaf_key(domain, key.as_bytes());
        if r % 7 == 0 {
            smt.set(domain, key.as_bytes(), None);
            model.remove(&lk);
        } else {
            let value = format!("{}|{}", r, step).into_bytes();
            smt.set(domain, key.as_bytes(), Some(value.as_slice()));
            model.insert(lk, value);
        }
        if step % 25 == 0 || step > 1_990 {
            assert_eq!(
                to_hex(&smt.root()),
                to_hex(&tree.root(&model)),
                "root diverged at step {}",
                step
            );
        }
    }
    let keys: Vec<[u8; 32]> = model.keys().cloned().collect();
    for r in 0..250u64 {
        for domain in ["acct", "tokbal"] {
            smt.set(domain, format!("k{}", r).as_bytes(), None);
        }
    }
    assert!(!keys.is_empty());
    assert_eq!(to_hex(&smt.root()), to_hex(&empty_at(0)));
}

#[test]
fn state_root_is_write_order_independent() {
    let mut a = Smt::new();
    let mut b = Smt::new();
    let entries: Vec<(String, Vec<u8>)> = (0..200)
        .map(|i| (format!("acc{}", i), format!("bal{}", i * 7).into_bytes()))
        .collect();
    for (k, v) in entries.iter() {
        a.set("acct", k.as_bytes(), Some(v.as_slice()));
    }
    for (k, v) in entries.iter().rev() {
        b.set("acct", k.as_bytes(), Some(v.as_slice()));
    }
    assert_eq!(a.root_hex(), b.root_hex());
}

/// The store that the rows of another give.
fn reopen(st: &Store) -> Store {
    let mut again = store();
    for t in 0..16 {
        again.load_table(t, &st.table_rows(t));
    }
    again
}

#[test]
fn store_state_root_is_stable_across_reopen() {
    let mut st = store();
    for i in 0..100 {
        let mut a = Account::default();
        a.balance = i as u128 * 1_000;
        a.nonce = i as u64;
        st.set_account(&format!("addr{}", i), &a);
    }
    let root = st.state_root();
    let st = reopen(&st);
    assert_eq!(st.state_root(), root, "state root changed across reopen");
    assert_eq!(st.account("addr7").balance, 7_000);
}

/// A contract that counts its calls: `get` answers the count, anything else raises it.
const COUNTER: &str = r#"(module
  (import "env" "inz_input" (func $input (param i32 i32) (result i32)))
  (import "env" "inz_return" (func $ret (param i32 i32)))
  (import "env" "inz_read" (func $read (param i32 i32 i32 i32) (result i32)))
  (import "env" "inz_write" (func $write (param i32 i32 i32 i32) (result i32)))
  (memory (export "memory") 1)
  (data (i32.const 0) "count")
  (func (export "invoke") (result i32)
    (drop (call $input (i32.const 16) (i32.const 8)))
    (drop (call $read (i32.const 0) (i32.const 5) (i32.const 64) (i32.const 8)))
    (if (i32.ne (i32.load8_u (i32.const 16)) (i32.const 103))
      (then
        (i64.store (i32.const 64) (i64.add (i64.load (i32.const 64)) (i64.const 1)))
        (drop (call $write (i32.const 0) (i32.const 5) (i32.const 64) (i32.const 8)))))
    (call $ret (i32.const 64) (i32.const 8))
    (i32.const 0)))"#;

fn counter_code() -> Vec<u8> {
    wat::parse_str(COUNTER).unwrap()
}

#[test]
fn wasm_execution_is_deterministic() {
    let mut st = store();
    let code = counter_code();
    let contract = "inazcontract1";
    let mut runs = Vec::new();
    for _ in 0..25 {
        let out = inazuma::contracts::execute(
            &st,
            contract,
            "caller1",
            &code,
            b"get".to_vec(),
            0,
            1,
            10_000_000,
        );
        runs.push((
            out.ok,
            out.fuel_used,
            out.ret.clone(),
            out.logs.clone(),
            out.writes.clone(),
        ));
    }
    let first = runs[0].clone();
    for (i, r) in runs.iter().enumerate() {
        assert_eq!(*r, first, "run {} diverged from run 0", i);
    }
    let mut st2 = store();
    let out = inazuma::contracts::execute(
        &st2,
        contract,
        "caller1",
        &code,
        b"get".to_vec(),
        0,
        1,
        10_000_000,
    );
    assert_eq!(
        (out.ok, out.fuel_used, out.ret, out.logs),
        (first.0, first.1, first.2, first.3)
    );
}

#[test]
fn infinite_loop_is_metered_out_not_crashed() {
    let mut st = store();
    let code = wat::parse_str(
        r#"(module (func (export "invoke") (result i32) (loop $l (br $l)) (i32.const 0)))"#,
    )
    .unwrap();
    let mut used = Vec::new();
    for fuel in [100_000u64, 1_000_000, 5_000_000] {
        let out = inazuma::contracts::execute(&st, "c1", "caller1", &code, Vec::new(), 0, 1, fuel);
        assert!(!out.ok);
        assert!(
            out.error.as_deref().unwrap_or("").contains("fuel"),
            "expected fuel exhaustion, got {:?}",
            out.error
        );
        assert!(out.fuel_used <= fuel, "burned more fuel than granted");
        used.push(out.fuel_used);
    }
    assert!(
        used[0] < used[1] && used[1] < used[2],
        "metering is not proportional: {:?}",
        used
    );
    let a = inazuma::contracts::execute(&st, "c1", "caller1", &code, Vec::new(), 0, 1, 777_777);
    let b = inazuma::contracts::execute(&st, "c1", "caller1", &code, Vec::new(), 0, 1, 777_777);
    assert_eq!(
        a.fuel_used, b.fuel_used,
        "fuel halt point is nondeterministic"
    );
}

#[test]
fn malicious_wasm_fails_closed() {
    let mut st = store();
    let out = inazuma::contracts::execute(
        &st,
        "c",
        "x",
        b"not wasm at all",
        Vec::new(),
        0,
        1,
        1_000_000,
    );
    assert!(!out.ok && out.error.is_some());
    assert!(out.writes.is_empty() && out.transfers.is_empty());

    let noexport =
        wat::parse_str(r#"(module (func (export "other") (result i32) (i32.const 0)))"#).unwrap();
    let out = inazuma::contracts::execute(&st, "c", "x", &noexport, Vec::new(), 0, 1, 1_000_000);
    assert!(!out.ok);

    let recursive = wat::parse_str(
        r#"(module (func $f (result i32) (call $f)) (func (export "invoke") (result i32) (call $f)))"#,
    )
    .unwrap();
    let out = inazuma::contracts::execute(&st, "c", "x", &recursive, Vec::new(), 0, 1, 2_000_000_000);
    assert!(!out.ok, "runaway recursion must not succeed");

    let hungry = wat::parse_str(
        r#"(module (memory 1) (func (export "invoke") (result i32)
             (loop $l (drop (memory.grow (i32.const 100))) (br $l)) (i32.const 0)))"#,
    )
    .unwrap();
    let out = inazuma::contracts::execute(&st, "c", "x", &hungry, Vec::new(), 0, 1, 5_000_000);
    assert!(!out.ok, "unbounded memory growth must be stopped");

    let trapping =
        wat::parse_str(r#"(module (func (export "invoke") (result i32) (unreachable)))"#).unwrap();
    let out = inazuma::contracts::execute(&st, "c", "x", &trapping, Vec::new(), 0, 1, 1_000_000);
    assert!(!out.ok && out.writes.is_empty());

    let reverting =
        wat::parse_str(r#"(module (func (export "invoke") (result i32) (i32.const 7)))"#).unwrap();
    let out = inazuma::contracts::execute(&st, "c", "x", &reverting, Vec::new(), 0, 1, 1_000_000);
    assert!(!out.ok);
    assert!(out.writes.is_empty() && out.transfers.is_empty());

    assert_eq!(st.contract_count(), 0);
    assert!(st.contract_entries("c", 10).is_empty());
}

#[test]
fn oversized_code_is_refused_before_execution() {
    let big = vec![0u8; inazuma::contracts::MAX_CODE_BYTES + 1];
    assert!(inazuma::contracts::check_deploy(&big).is_err());
    assert!(inazuma::contracts::check_deploy(&[]).is_err());
}

#[test]
fn failed_tx_leaves_no_partial_state() {
    let mut st = store();
    let mut a = Account::default();
    a.balance = 1_000;
    st.set_account("alice", &a);
    let root_before = st.state_root();

    st.begin_block();

    st.begin_tx();
    let mut alice = st.account("alice");
    alice.balance -= 100;
    st.set_account("alice", &alice);
    let mut bob = st.account("bob");
    bob.balance += 100;
    st.set_account("bob", &bob);
    st.commit_tx();

    st.begin_tx();
    let mut alice = st.account("alice");
    alice.balance -= 900;
    st.set_account("alice", &alice);
    st.abort_tx();

    st.commit_block();
    assert_eq!(st.account("alice").balance, 900);
    assert_eq!(st.account("bob").balance, 100);

    st.begin_block();
    st.begin_tx();
    let mut alice = st.account("alice");
    alice.balance = 0;
    st.set_account("alice", &alice);
    st.commit_tx();
    st.abort_block();
    assert_eq!(st.account("alice").balance, 900);
    assert_eq!(st.account("bob").balance, 100);

    let mut a = Account::default();
    a.balance = 1_000;
    st.set_account("alice", &a);
    assert_ne!(root_before, String::new());
    assert_eq!(st.account("alice").balance, 1_000);
    assert_eq!(st.account("alice").nonce, 0);
}

#[test]
fn state_checkpoint_detects_out_of_band_state_edits() {
    let mut st = store();
    st.set_account(
        "alice",
        &Account {
            balance: 1_000,
            ..Account::default()
        },
    );
    let root = st.state_root();
    st.set_state_checkpoint(10, &root);
    assert_eq!(st.state_checkpoint(), Some((10, root.clone())));
    assert_eq!(st.state_root(), root, "untouched state still matches");

    st.set_account(
        "alice",
        &Account {
            balance: 999_999,
            ..Account::default()
        },
    );
    assert_ne!(
        st.state_root(),
        st.state_checkpoint().unwrap().1,
        "out-of-band state edit must break the checkpoint"
    );
}

fn state_at(store: &mut Store, kp: &Keypair, height: u64) -> Block {
    bond(store, kp, MIN_STAKE);
    let holder = Account {
        balance: 42 * RAI_PER_INAZ,
        nonce: 7,
        ..Account::default()
    };
    store.set_account("snapshot-holder", &holder);
    store.build_merkle_state(height);
    let root = store.state_root_at(height);
    let block = sealed(kp, height, "parent-hash", &root);
    store.put_block(&block);
    store.set_finalized_height(height);
    block
}

#[test]
fn snapshot_round_trips_state_and_verifies_its_root() {
    let mut src = store();
    let kp = key();
    let height = 250_000;
    let block = state_at(&mut src, &kp, height);
    src.set_base_fee(MIN_FEE * 3);

    let snap = snapshot::export(&src, 7777).unwrap();
    assert_eq!(snap.height, height);
    assert_eq!(snap.state_root, block.state_root);
    assert!(snap.entry_count() >= 2);

    let mut dst = store();
    let at = snapshot::import(&mut dst, &snap, 7777).unwrap();
    assert_eq!(at, height);
    assert_eq!(dst.state_root_at(height), block.state_root);
    assert_eq!(dst.account("snapshot-holder").balance, 42 * RAI_PER_INAZ);
    assert_eq!(dst.account("snapshot-holder").nonce, 7);
    assert_eq!(dst.account(&kp.address()).staked, MIN_STAKE);
    assert_eq!(dst.tip_height(), Some(height));
    assert_eq!(dst.finalized_height(), height);
    assert_eq!(dst.base_fee(), MIN_FEE * 3);
    assert_eq!(dst.pruned_below(), height);
    assert!(dst.block(height - 1).is_none());
}

#[test]
fn tampered_snapshot_is_rejected_and_leaves_no_state() {
    let mut src = store();
    let kp = key();
    let height = 250_000;
    state_at(&mut src, &kp, height);
    let good = snapshot::export(&src, 7777).unwrap();

    let mut evil = good.clone();
    let accounts = evil
        .tables
        .iter_mut()
        .find(|t| t.name == "accounts")
        .unwrap();
    let acct = Account {
        balance: 1_000_000 * RAI_PER_INAZ,
        ..Account::default()
    };
    accounts.entries.push((
        to_hex(b"attacker"),
        Cell::Account(acct),
    ));
    let mut dst = store();
    let err = snapshot::import(&mut dst, &evil, 7777).unwrap_err();
    assert!(err.contains("state root mismatch"), "{}", err);
    assert_eq!(dst.account("attacker").balance, 0);
    assert_eq!(dst.tip_height(), None);

    let mut forged = evil.clone();
    forged.block.state_root = "deadbeef".into();
    forged.state_root = "deadbeef".into();
    let mut dst2 = store();
    assert!(snapshot::import(&mut dst2, &forged, 7777)
        .unwrap_err()
        .contains("block hash"));

    let mut dst3 = store();
    assert!(snapshot::import(&mut dst3, &good, 9999)
        .unwrap_err()
        .contains("chain"));
    assert_eq!(dst3.tip_height(), None);
}

#[test]
fn pruning_drops_history_but_never_state_finality_or_genesis() {
    let mut st = store();
    let kp = key();
    let mut parent = "genesis".to_string();
    for h in 0..=40u64 {
        let b = sealed(&kp, h, &parent, "root");
        parent = b.hash.clone();
        st.put_block(&b);
    }
    let keeper = Account {
        balance: 5 * RAI_PER_INAZ,
        ..Account::default()
    };
    st.set_account("keeper", &keeper);
    st.set_finalized_height(30);

    let removed = st.prune_blocks(40);
    assert!(removed > 0);
    assert!(st.pruned_below() <= 30);
    assert!(st.block(31).is_some());
    assert!(st.block(40).is_some());
    assert_eq!(st.tip_height(), Some(40));
    assert_eq!(st.finalized_height(), 30);
    assert!(st.block(0).is_some());
    assert!(st.block(5).is_none());
    assert_eq!(st.account("keeper").balance, 5 * RAI_PER_INAZ);
    assert_eq!(st.prune_blocks(30), 0);
}

#[test]
fn halt_persists_across_restart_until_explicitly_cleared() {
    let mut st = store();
    assert!(st.halt_reason().is_none());
    st.set_halt("consensus bug #1");
    assert_eq!(st.halt_reason().as_deref(), Some("consensus bug #1"));
    st.clear_halt();
    assert!(st.halt_reason().is_none());
}

#[test]
fn validator_cap_is_deterministic_and_activates_at_a_height() {
    let mut st = store();
    let mut addresses = Vec::new();
    for i in 0..(MAX_VALIDATORS + 25) {
        let address = format!("val-{:04}", i);
        let a = Account {
            staked: MIN_STAKE + i as u128 * RAI_PER_INAZ,
            ..Account::default()
        };
        st.set_account(&address, &a);
        addresses.push(address);
    }

    let before = validator_set_at(&st, VALIDATOR_CAP_ACTIVATION_HEIGHT - 1);
    assert_eq!(before.len(), MAX_VALIDATORS + 25);

    let after = validator_set_at(&st, VALIDATOR_CAP_ACTIVATION_HEIGHT);
    assert_eq!(after.len(), MAX_VALIDATORS);
    let kept: Vec<String> = after.iter().map(|v| v.address.clone()).collect();
    let mut sorted = kept.clone();
    sorted.sort();
    assert_eq!(kept, sorted);
    assert!(!kept.contains(&addresses[0]));
    assert!(kept.contains(addresses.last().unwrap()));

    let again: Vec<String> = validator_set_at(&st, VALIDATOR_CAP_ACTIVATION_HEIGHT)
        .iter()
        .map(|v| v.address.clone())
        .collect();
    assert_eq!(kept, again);
    let leader = elect_leader_attempt(&after, VALIDATOR_CAP_ACTIVATION_HEIGHT, "p", 0).unwrap();
    assert!(kept.contains(&leader));
    assert_eq!(
        total_stake(&after),
        after.iter().map(|v| v.stake).sum::<u128>()
    );
}
