//! The launch checklist of a client: consensus, execution, networking, the pool, state,
//! contracts, calls, load, security and upgrades.

use inazuma::chain::{check_reorg_depth, check_timestamp, Node, MAX_TXS_PER_BLOCK};
use inazuma::crypto::{to_hex, Keypair};
use inazuma::events::Channel;
use inazuma::fees::{next_base_fee, FEE_MARKET_ACTIVATION_HEIGHT};
use inazuma::limits::{secret_eq, ConnGuard, IpConnCounter, PeerBook, RateLimiter};
use inazuma::mempool::{Mempool, MAX_PENDING_PER_SENDER};
use inazuma::p2p::P2p;
use inazuma::rpc;
use inazuma::rpc::{NetInfo, Route};
use inazuma::rpcauth::{RpcConfig, Tier};
use inazuma::snapshot;
use inazuma::staking::{
    elect_leader, elect_leader_attempt, validator_set, BLOCK_REWARD,
    VALIDATOR_CAP_ACTIVATION_HEIGHT,
};
use inazuma::state::{Store, STATE_ROOT_V2_ACTIVATION_HEIGHT};
use inazuma::tokens;
use inazuma::types::{
    ChainParams, Genesis, GenesisAlloc, Payload, Transaction, TxKind, MIN_FEE, MIN_STAKE,
    RAI_PER_INAZ, SLASHING_ACTIVATION_HEIGHT,
};
use std::collections::HashSet;

fn key() -> Keypair {
    Keypair::generate().unwrap()
}

fn store() -> Store {
    Store::new(
        ChainParams {
            slashing_activation: SLASHING_ACTIVATION_HEIGHT,
        },
        u64::MAX,
    )
}

fn genesis(kp: &Keypair) -> Genesis {
    Genesis {
        chain_id: 7777,
        chain_name: "Inazuma".into(),
        symbol: "INAZ".into(),
        decimals: 9,
        block_time_ms: 400,
        alloc: vec![GenesisAlloc {
            address: kp.address(),
            balance: "1000000".into(),
            stake: Some("10000".into()),
        }],
        slashing_activation_height: None,
    }
}

/// A solo node whose producer is funded and bonded at genesis.
fn net() -> (Node, Keypair) {
    let kp = key();
    let user = Keypair::from_secret_hex(&kp.secret_hex()).unwrap();
    let g = genesis(&kp);
    let mut node = Node::new(store(), g, kp);
    node.set_solo(true);
    node.init_genesis().unwrap();
    (node, user)
}

fn signed(
    kind: TxKind,
    kp: &Keypair,
    to: &str,
    amount: u128,
    fee: u128,
    nonce: u64,
    payload: Option<Payload>,
) -> Transaction {
    let mut tx = Transaction {
        kind,
        from_pubkey: kp.pubkey_hex(),
        to: to.to_string(),
        amount,
        fee,
        nonce,
        chain_id: 7777,
        payload,
        shielded: None,
        signature: String::new(),
    };
    tx.signature = kp.sign_hex(&tx.canonical_signing_bytes());
    tx
}

fn transfer(kp: &Keypair, to: &str, amount: u128, nonce: u64) -> Transaction {
    signed(TxKind::Transfer, kp, to, amount, MIN_FEE, nonce, None)
}

fn seal(node: &mut Node) -> u64 {
    node.produce_block().unwrap().map(|b| b.height).unwrap_or(0)
}

/// A contract that counts its calls: `get` answers the count, anything else raises it.
const COUNTER: &str = r#"(module
  (import "env" "inz_input" (func $input (param i32 i32) (result i32)))
  (import "env" "inz_return" (func $ret (param i32 i32)))
  (import "env" "inz_read" (func $read (param i32 i32 i32 i32) (result i32)))
  (import "env" "inz_write" (func $write (param i32 i32 i32 i32) (result i32)))
  (memory (export "memory") 1)
  (data (i32.const 0) "count")
  (func (export "invoke") (result i32)
    (drop (call $input (i32.const 16) (i32.const 8)))
    (drop (call $read (i32.const 0) (i32.const 5) (i32.const 64) (i32.const 8)))
    (if (i32.ne (i32.load8_u (i32.const 16)) (i32.const 103))
      (then
        (i64.store (i32.const 64) (i64.add (i64.load (i32.const 64)) (i64.const 1)))
        (drop (call $write (i32.const 0) (i32.const 5) (i32.const 64) (i32.const 8)))))
    (call $ret (i32.const 64) (i32.const 8))
    (i32.const 0)))"#;

fn counter_code() -> Vec<u8> {
    wat::parse_str(COUNTER).unwrap()
}

#[test]
fn c1_block_production_under_normal_conditions() {
    let (mut node, kp) = net();
    let bob = key().address();
    for i in 0..10u64 {
        node.accept_tx(transfer(&kp, &bob, RAI_PER_INAZ, i)).unwrap();
        let h = seal(&mut node);
        assert_eq!(h, i + 1, "height must advance one per block");
    }
    assert_eq!(node.store.account(&bob).balance, 10 * RAI_PER_INAZ);
}

#[test]
fn c1_parent_hash_chains_every_block() {
    let (mut node, _) = net();
    for _ in 0..8 {
        seal(&mut node);
    }
    let tip = node.store.tip_height().unwrap();
    for h in 1..=tip {
        let b = node.store.block(h).unwrap();
        let p = node.store.block(h - 1).unwrap();
        assert_eq!(b.parent_hash, p.hash, "height {} not chained", h);
        assert_eq!(b.hash, b.compute_hash(), "height {} hash mismatch", h);
    }
}

#[test]
fn c1_leader_election_is_deterministic() {
    let (mut node, _) = net();
    let set = validator_set(&node.store);
    let a = elect_leader(&set, 42, "deadbeef");
    for _ in 0..100 {
        assert_eq!(elect_leader(&set, 42, "deadbeef"), a);
    }
}

#[test]
fn c1_leader_rotates_with_attempt() {
    let (mut node, _) = net();
    let set = validator_set(&node.store);
    let mut seen = 0;
    for attempt in 0..8 {
        if elect_leader_attempt(&set, 9, "abc", attempt).is_some() {
            seen += 1;
        }
    }
    assert_eq!(seen, 8, "rotation must always yield a leader");
}

#[test]
fn c1_reorg_depth_limit_is_total() {
    assert!(check_reorg_depth(10_000, 10_001).is_ok());
    assert!(check_reorg_depth(10_000, 4_000).is_err());
    assert!(check_reorg_depth(0, 0).is_ok());
}

#[test]
fn c1_timestamp_monotonic_and_drift_bounded() {
    assert!(check_timestamp(1_000, 1_001, 1_001).is_ok());
    assert!(check_timestamp(1_000, 999, 5_000).is_err(), "backwards ts");
    assert!(check_timestamp(1_000, 1_000, 5_000).is_err(), "equal ts");
    assert!(
        check_timestamp(1_000, 100_000, 1_000).is_err(),
        "far-future ts"
    );
}

#[test]
fn c1_produced_block_state_root_matches_disk() {
    let (mut node, kp) = net();
    let bob = key().address();
    node.accept_tx(transfer(&kp, &bob, 5 * RAI_PER_INAZ, 0))
        .unwrap();
    let h = seal(&mut node);
    let b = node.store.block(h).unwrap();
    assert_eq!(b.state_root, node.store.state_root_at(h));
}

#[test]
fn c1_block_signature_verifies_and_tamper_fails() {
    let (mut node, _) = net();
    let h = seal(&mut node);
    let b = node.store.block(h).unwrap();
    assert!(inazuma::crypto::verify(
        &b.producer_pubkey,
        &b.header_bytes(),
        &b.signature
    ));
    let mut bad = b.clone();
    bad.state_root = "0".repeat(64);
    assert!(!inazuma::crypto::verify(
        &bad.producer_pubkey,
        &bad.header_bytes(),
        &bad.signature
    ));
}

#[test]
fn c1_halt_stops_production_resume_restores_it() {
    let (mut node, _) = net();
    let before = seal(&mut node);
    node.halt("conformance");
    assert!(node.halted());
    assert!(node.produce_block().unwrap().is_none());
    assert_eq!(node.store.tip_height().unwrap(), before);
    node.resume();
    let after = seal(&mut node);
    assert_eq!(after, before + 1);
}

#[test]
fn c1_serving_only_replica_never_produces() {
    let (mut node, _) = net();
    node.set_serving_only(true);
    assert!(node.produce_block().unwrap().is_none());
    node.set_serving_only(false);
    assert!(node.produce_block().unwrap().is_some());
}

#[test]
fn c1_block_reward_paid_exactly_once_per_block() {
    let (mut node, kp) = net();
    let before = node.store.account(&kp.address()).rewards;
    for _ in 0..5 {
        seal(&mut node);
    }
    let after = node.store.account(&kp.address()).rewards;
    assert_eq!(after - before, 5 * BLOCK_REWARD);
}

#[test]
fn c1_total_supply_only_grows_by_block_reward() {
    let (mut node, kp) = net();
    let bob = key().address();
    let start = node.store.total_supply();
    for i in 0..6u64 {
        node.accept_tx(transfer(&kp, &bob, RAI_PER_INAZ, i)).unwrap();
        seal(&mut node);
    }
    let end = node.store.total_supply();
    assert_eq!(end - start, 6 * BLOCK_REWARD, "supply inflation drifted");
}

#[test]
fn c2_transfer_debits_credits_and_bumps_nonce() {
    let (mut node, kp) = net();
    let bob = key().address();
    let pre = node.store.account(&kp.address()).balance;
    node.accept_tx(transfer(&kp, &bob, 3 * RAI_PER_INAZ, 0))
        .unwrap();
    seal(&mut node);
    let a = node.store.account(&kp.address());
    assert_eq!(node.store.account(&bob).balance, 3 * RAI_PER_INAZ);
    assert_eq!(a.nonce, 1);
    assert!(pre - a.balance <= 3 * RAI_PER_INAZ, "sender over-debited");
    assert!(pre - a.balance > 2 * RAI_PER_INAZ, "sender under-debited");
}

#[test]
fn c2_insufficient_balance_is_rejected() {
    let (mut node, _) = net();
    let poor = key();
    let bob = key().address();
    let r = node.accept_tx(transfer(&poor, &bob, RAI_PER_INAZ, 0));
    assert!(r.is_err(), "spending from an empty account must fail");
}

#[test]
fn c2_wrong_chain_id_is_rejected() {
    let (mut node, kp) = net();
    let mut tx = transfer(&kp, &key().address(), RAI_PER_INAZ, 0);
    tx.chain_id = 1;
    tx.signature = kp.sign_hex(&tx.canonical_signing_bytes());
    assert!(node.accept_tx(tx).is_err(), "cross-chain replay accepted");
}

#[test]
fn c2_bad_signature_is_rejected() {
    let (mut node, kp) = net();
    let mut tx = transfer(&kp, &key().address(), RAI_PER_INAZ, 0);
    tx.amount += 1;
    assert!(node.accept_tx(tx).is_err());
}

#[test]
fn c2_foreign_signature_is_rejected() {
    let (mut node, kp) = net();
    let mallory = key();
    let mut tx = transfer(&kp, &key().address(), RAI_PER_INAZ, 0);
    tx.signature = mallory.sign_hex(&tx.canonical_signing_bytes());
    assert!(node.accept_tx(tx).is_err());
}

#[test]
fn c2_fee_below_floor_is_rejected() {
    let (mut node, kp) = net();
    let tx = signed(
        TxKind::Transfer,
        &kp,
        &key().address(),
        RAI_PER_INAZ,
        0,
        0,
        None,
    );
    assert!(node.accept_tx(tx).is_err(), "zero-fee tx accepted");
}

#[test]
fn c2_replay_of_same_tx_is_rejected() {
    let (mut node, kp) = net();
    let bob = key().address();
    let tx = transfer(&kp, &bob, RAI_PER_INAZ, 0);
    node.accept_tx(tx.clone()).unwrap();
    seal(&mut node);
    assert!(node.accept_tx(tx).is_err(), "replayed tx accepted");
    assert_eq!(node.store.account(&bob).balance, RAI_PER_INAZ);
}

#[test]
fn c2_stale_nonce_is_rejected() {
    let (mut node, kp) = net();
    let bob = key().address();
    node.accept_tx(transfer(&kp, &bob, RAI_PER_INAZ, 0)).unwrap();
    seal(&mut node);
    assert!(node.accept_tx(transfer(&kp, &bob, RAI_PER_INAZ, 0)).is_err());
}

#[test]
fn c2_invalid_recipient_address_is_rejected() {
    let (mut node, kp) = net();
    let tx = transfer(&kp, "not-an-address", RAI_PER_INAZ, 0);
    assert!(node.accept_tx(tx).is_err());
}

#[test]
fn c2_stake_and_unstake_move_bonded_balance() {
    let (mut node, kp) = net();
    let before = node.store.account(&kp.address()).staked;
    node.accept_tx(signed(
        TxKind::Stake,
        &kp,
        &kp.address(),
        MIN_STAKE,
        MIN_FEE,
        0,
        None,
    ))
    .unwrap();
    seal(&mut node);
    assert_eq!(node.store.account(&kp.address()).staked, before + MIN_STAKE);
    node.accept_tx(signed(
        TxKind::Unstake,
        &kp,
        &kp.address(),
        MIN_STAKE,
        MIN_FEE,
        1,
        None,
    ))
    .unwrap();
    seal(&mut node);
    let a = node.store.account(&kp.address());
    assert_eq!(a.staked, before);
    assert_eq!(a.unbonding_total(), MIN_STAKE, "unbonding lock missing");
}

#[test]
fn c2_unstake_more_than_bonded_is_rejected() {
    let (mut node, kp) = net();
    let too_much = node.store.account(&kp.address()).staked + RAI_PER_INAZ;
    let tx = signed(
        TxKind::Unstake,
        &kp,
        &kp.address(),
        too_much,
        MIN_FEE,
        0,
        None,
    );
    let admitted = node.accept_tx(tx).is_ok();
    seal(&mut node);
    let a = node.store.account(&kp.address());
    assert!(
        a.unbonding_total() == 0,
        "over-unstake changed state (admitted={})",
        admitted
    );
}

#[test]
fn c2_failed_tx_leaves_state_root_unchanged() {
    let (mut node, _) = net();
    let root = node.store.state_root();
    let poor = key();
    let _ = node.accept_tx(transfer(&poor, &key().address(), 1, 0));
    assert_eq!(node.store.state_root(), root);
}

#[test]
fn c3_reorg_guard_rejects_long_range_peer() {
    assert!(check_reorg_depth(1_000_000, 1).is_err());
}

#[test]
fn c3_peer_ban_after_repeated_abuse() {
    let mut book = PeerBook::new(60);
    let ip = "10.0.0.9";
    assert!(!book.is_banned(ip, 0));
    for _ in 0..200 {
        book.penalize(ip, 10, 0);
    }
    assert!(book.is_banned(ip, 0), "spamming peer never banned");
    assert!(book.banned_count(0) >= 1);
    // The ban runs out after a minute and clears the score.
    assert!(book.is_banned(ip, 59_999));
    assert!(!book.is_banned(ip, 60_001));
}

#[test]
fn c3_conn_guard_caps_total_connections() {
    let mut g = ConnGuard::new(3);
    let a = g.try_acquire();
    let b = g.try_acquire();
    let c = g.try_acquire();
    assert!(a && b && c);
    assert!(!g.try_acquire(), "connection cap not enforced");
    g.release();
    assert!(g.try_acquire(), "slot not released");
}

#[test]
fn c3_per_ip_connection_cap() {
    let mut c = IpConnCounter::new(2);
    let ip = "1.2.3.4";
    let t1 = c.try_acquire(ip);
    let t2 = c.try_acquire(ip);
    assert!(t1 && t2);
    assert!(!c.try_acquire(ip));
    assert!(c.try_acquire("5.6.7.8"));
}

#[test]
fn c3_encrypted_transport_frame_limit_is_bounded() {
    assert!(inazuma::transport::MAX_FRAME <= 8 * 1024 * 1024);
    assert_eq!(&inazuma::transport::MAGIC, b"INSC1");
}

#[test]
fn c3_identity_pinning_detects_key_swap() {
    let mut book = PeerBook::new(60);
    let ip = "9.9.9.9";
    assert!(book.note_identity(ip, "peer-a"));
    assert!(!book.note_identity(ip, "peer-a"), "same identity re-logged");
    assert!(
        book.note_identity(ip, "peer-b"),
        "identity swap on a pinned IP went unnoticed"
    );
}

#[test]
fn c4_nonce_ordering_within_a_block() {
    let (mut node, kp) = net();
    let bob = key().address();
    for n in [2u64, 0, 1] {
        let _ = node.accept_tx(transfer(&kp, &bob, RAI_PER_INAZ, n));
    }
    seal(&mut node);
    seal(&mut node);
    let a = node.store.account(&kp.address());
    assert!(a.nonce >= 1, "no tx applied");
    assert_eq!(
        node.store.account(&bob).balance,
        a.nonce as u128 * RAI_PER_INAZ
    );
}

#[test]
fn c4_pending_nonce_tracks_mempool() {
    let (mut node, kp) = net();
    let bob = key().address();
    assert_eq!(node.pending_nonce(&kp.address()), 0);
    node.accept_tx(transfer(&kp, &bob, RAI_PER_INAZ, 0)).unwrap();
    assert_eq!(node.pending_nonce(&kp.address()), 1);
}

#[test]
fn c4_per_sender_pending_cap() {
    let (mut node, kp) = net();
    let bob = key().address();
    let mut ok = 0u64;
    for n in 0..(MAX_PENDING_PER_SENDER + 20) {
        if node.accept_tx(transfer(&kp, &bob, 1_000, n)).is_ok() {
            ok += 1;
        }
    }
    assert!(
        ok <= MAX_PENDING_PER_SENDER,
        "per-sender cap breached: {}",
        ok
    );
}

#[test]
fn c4_duplicate_hash_not_pooled_twice() {
    let (mut node, kp) = net();
    let tx = transfer(&kp, &key().address(), RAI_PER_INAZ, 0);
    node.accept_tx(tx.clone()).unwrap();
    let before = node.mempool_size();
    let _ = node.accept_tx(tx);
    assert_eq!(node.mempool_size(), before, "duplicate entered the pool");
}

#[test]
fn c4_block_drains_the_pool() {
    let (mut node, kp) = net();
    let bob = key().address();
    for n in 0..10 {
        node.accept_tx(transfer(&kp, &bob, 1_000, n)).unwrap();
    }
    assert_eq!(node.mempool_size(), 10);
    seal(&mut node);
    assert_eq!(node.mempool_size(), 0, "pool not drained");
}

#[test]
fn c4_fee_market_rises_under_load_and_decays() {
    let full = MAX_TXS_PER_BLOCK;
    let mut fee = MIN_FEE;
    for _ in 0..20 {
        fee = next_base_fee(fee, full);
    }
    assert!(fee > MIN_FEE, "base fee never rose under full blocks");
    let mut down = fee;
    for _ in 0..200 {
        down = next_base_fee(down, 0);
    }
    assert!(down < fee, "base fee never decayed on empty blocks");
    assert!(down >= MIN_FEE, "base fee fell below the floor");
}

#[test]
fn c4_mempool_eviction_prefers_higher_fee() {
    let mut pool = Mempool::new();
    for n in 0..5u128 {
        let kp = key();
        let mut tx = transfer(&kp, &key().address(), 1, 0);
        tx.fee = MIN_FEE + n;
        let h = tx.hash();
        pool.insert(tx, h, kp.address());
    }
    let evicted = pool.evict_cheapest_below(MIN_FEE + 10);
    assert_eq!(evicted, Some(MIN_FEE), "cheapest tx was not the victim");
}

#[test]
fn c5_state_root_survives_reopen() {
    let mut st = store();
    let kp = key();
    let mut a = st.account(&kp.address());
    a.balance = 42 * RAI_PER_INAZ;
    st.set_account(&kp.address(), &a);
    let root = st.state_root();
    let mut again = store();
    for t in 0..16 {
        again.load_table(t, &st.table_rows(t));
    }
    assert_eq!(again.state_root(), root);
    assert_eq!(again.merkle_root(), st.merkle_root());
}

#[test]
fn c5_merkle_proof_verifies_and_rejects_forgery() {
    let (mut node, kp) = net();
    seal(&mut node);
    let addr = kp.address();
    let (root, key, siblings, bitmap) = node.store.merkle_proof("acct", &addr);
    assert!(!root.is_empty() && !key.is_empty());
    let value = node.store.merkle_leaf_value("acct", &addr);
    let ok = inazuma::smt::verify_proof(
        &root,
        "acct",
        addr.as_bytes(),
        value.as_deref(),
        &siblings,
        &bitmap,
    );
    assert!(ok, "honest proof rejected");
    let bad = inazuma::smt::verify_proof(
        &"0".repeat(64),
        "acct",
        addr.as_bytes(),
        value.as_deref(),
        &siblings,
        &bitmap,
    );
    assert!(!bad, "proof verified against a wrong root");
}

#[test]
fn c5_abort_block_leaves_no_write() {
    let mut st = store();
    let addr = key().address();
    let root = st.state_root();
    st.begin_block();
    let mut a = st.account(&addr);
    a.balance = 999;
    st.set_account(&addr, &a);
    st.abort_block();
    assert_eq!(st.account(&addr).balance, 0);
    assert_eq!(st.state_root(), root);
}

#[test]
fn c5_abort_tx_is_nested_safe() {
    let mut st = store();
    let keep = key().address();
    let drop_addr = key().address();
    st.begin_block();
    st.begin_tx();
    let mut a = st.account(&keep);
    a.balance = 5;
    st.set_account(&keep, &a);
    st.commit_tx();
    st.begin_tx();
    let mut b = st.account(&drop_addr);
    b.balance = 7;
    st.set_account(&drop_addr, &b);
    st.abort_tx();
    st.commit_block();
    assert_eq!(st.account(&keep).balance, 5);
    assert_eq!(st.account(&drop_addr).balance, 0);
}

#[test]
fn c5_snapshot_roundtrip_restores_identical_state() {
    let (mut node, kp) = net();
    let bob = key().address();
    for n in 0..5 {
        node.accept_tx(transfer(&kp, &bob, RAI_PER_INAZ, n)).unwrap();
        seal(&mut node);
    }
    let snap = snapshot::export(&node.store, 7777).unwrap();
    let mut fresh = store();
    let h = snapshot::import(&mut fresh, &snap, 7777).unwrap();
    assert_eq!(h, node.store.tip_height().unwrap());
    assert_eq!(fresh.tip_hash(), node.store.tip_hash());
    assert_eq!(fresh.account(&bob).balance, 5 * RAI_PER_INAZ);
}

#[test]
fn c5_snapshot_rejects_wrong_chain_id() {
    let (mut node, _) = net();
    seal(&mut node);
    let snap = snapshot::export(&node.store, 7777).unwrap();
    let mut fresh = store();
    assert!(
        snapshot::import(&mut fresh, &snap, 1234).is_err(),
        "snapshot imported into the wrong chain"
    );
}

#[test]
fn c5_startup_state_root_check_passes_on_clean_db() {
    let (mut node, kp) = net();
    node.accept_tx(transfer(&kp, &key().address(), 1_000, 0))
        .unwrap();
    seal(&mut node);
    assert!(node.startup_state_root_check().is_ok());
}

#[test]
fn c5_tx_index_resolves_every_included_tx() {
    let (mut node, kp) = net();
    let bob = key().address();
    let mut hashes = Vec::new();
    for n in 0..6 {
        let tx = transfer(&kp, &bob, 1_000, n);
        hashes.push(tx.hash());
        node.accept_tx(tx).unwrap();
        seal(&mut node);
    }
    for h in hashes {
        assert!(node.store.tx_height(&h).is_some(), "tx {} not indexed", h);
    }
}

#[test]
fn c6_deploy_and_call_counter_contract() {
    let (mut node, kp) = net();
    let code = to_hex(&counter_code());
    let deploy = signed(
        TxKind::DeployContract,
        &kp,
        "",
        0,
        10 * RAI_PER_INAZ,
        0,
        Some(Payload {
            code,
            ..Default::default()
        }),
    );
    node.accept_tx(deploy).unwrap();
    seal(&mut node);
    assert_eq!(node.store.contract_count(), 1, "contract not deployed");
    let addr = node.store.contracts()[0].address.clone();
    let call = signed(
        TxKind::CallContract,
        &kp,
        &addr,
        0,
        10 * RAI_PER_INAZ,
        1,
        Some(Payload {
            args: to_hex(b"inc"),
            ..Default::default()
        }),
    );
    node.accept_tx(call).unwrap();
    seal(&mut node);
}

#[test]
fn c6_wasm_is_deterministic_across_runs() {
    let mut st = store();
    let code = counter_code();
    let base = inazuma::contracts::execute(&st, "c", "x", &code, b"get".to_vec(), 0, 1, 10_000_000);
    for _ in 0..30 {
        let o = inazuma::contracts::execute(&st, "c", "x", &code, b"get".to_vec(), 0, 1, 10_000_000);
        assert_eq!((o.ok, o.fuel_used, o.ret), (base.ok, base.fuel_used, base.ret.clone()));
    }
}

#[test]
fn c6_non_wasm_bytes_fail_closed() {
    let mut st = store();
    let o = inazuma::contracts::execute(&st, "c", "x", b"\x00garbage", Vec::new(), 0, 1, 1_000_000);
    assert!(!o.ok && o.error.is_some());
}

#[test]
fn c6_oversized_code_is_rejected() {
    let big = vec![0u8; inazuma::contracts::MAX_CODE_BYTES + 1];
    assert!(inazuma::contracts::check_deploy(&big).is_err());
}

#[test]
fn c6_infinite_loop_is_metered_not_hung() {
    let mut st = store();
    let code = wat::parse_str(
        r#"(module (func (export "invoke") (result i32) (loop $l (br $l)) (i32.const 0)))"#,
    )
    .unwrap();
    let o = inazuma::contracts::execute(&st, "c", "x", &code, Vec::new(), 0, 1, 1_000_000);
    assert!(!o.ok, "infinite loop returned success");
    assert!(o.fuel_used <= 1_000_000, "fuel accounting overshot");
}

#[test]
fn c6_trap_reverts_writes() {
    let mut st = store();
    let code =
        wat::parse_str(r#"(module (func (export "invoke") (result i32) (unreachable)))"#).unwrap();
    let o = inazuma::contracts::execute(&st, "c", "x", &code, Vec::new(), 0, 1, 1_000_000);
    assert!(!o.ok);
    assert!(o.writes.is_empty(), "trapping call left writes behind");
}

#[test]
fn c6_fuel_is_bought_with_fee_and_capped() {
    assert!(inazuma::contracts::fuel_for_fee(MIN_FEE) > 0);
    assert!(inazuma::contracts::fuel_for_fee(u128::MAX) <= inazuma::contracts::MAX_FUEL);
}

#[test]
fn c6_token_lifecycle_create_mint_transfer_burn() {
    let (mut node, kp) = net();
    let p = Payload {
        symbol: "TEST".into(),
        name: "Test Token".into(),
        decimals: 6,
        mintable: true,
        ..Default::default()
    };
    assert!(tokens::check_create(&node.store, &kp.address(), 0, &Some(p.clone())).is_ok());
    let id = tokens::apply_create(&mut node.store, &kp.address(), 0, 1_000, 1, &Some(p)).unwrap();
    assert_eq!(node.store.token_balance(&id, &kp.address()), 1_000);
    let bob = key().address();
    let tp = Payload {
        token: id.clone(),
        ..Default::default()
    };
    tokens::apply_mint(&mut node.store, &kp.address(), &kp.address(), 500, &Some(tp.clone())).unwrap();
    assert_eq!(node.store.token_balance(&id, &kp.address()), 1_500);
    assert!(tokens::check_token_transfer(&node.store, &kp.address(), &bob, 400, &Some(tp.clone()))
        .is_ok());
    tokens::apply_token_transfer(&mut node.store, &kp.address(), &bob, 400, &Some(tp.clone())).unwrap();
    assert_eq!(node.store.token_balance(&id, &bob), 400);
    assert!(
        tokens::check_token_transfer(&node.store, &bob, &kp.address(), 10_000, &Some(tp)).is_err(),
        "overdraft transfer allowed"
    );
}

#[test]
fn c6_only_creator_can_mint() {
    let (mut node, kp) = net();
    let p = Payload {
        symbol: "OWN".into(),
        name: "Owned".into(),
        decimals: 0,
        mintable: true,
        ..Default::default()
    };
    let id = tokens::apply_create(&mut node.store, &kp.address(), 0, 10, 1, &Some(p)).unwrap();
    let mallory = key().address();
    let tp = Payload {
        token: id,
        ..Default::default()
    };
    assert!(tokens::check_mint(&node.store, &mallory, &mallory, 1_000, &Some(tp)).is_err());
}

#[test]
fn c6_non_mintable_token_cannot_inflate() {
    let (mut node, kp) = net();
    let p = Payload {
        symbol: "FIX".into(),
        name: "Fixed".into(),
        decimals: 0,
        mintable: false,
        ..Default::default()
    };
    let id = tokens::apply_create(&mut node.store, &kp.address(), 0, 100, 1, &Some(p)).unwrap();
    let tp = Payload {
        token: id,
        ..Default::default()
    };
    assert!(tokens::check_mint(&node.store, &kp.address(), &kp.address(), 1, &Some(tp)).is_err());
}

#[test]
fn c6_unit_parsing_roundtrips() {
    for (s, d) in [("1", 9u8), ("0.5", 9), ("123.456789", 6), ("0", 0)] {
        let raw = tokens::parse_units(s, d).unwrap();
        let back = tokens::format_units(raw, d);
        assert_eq!(
            tokens::parse_units(&back, d).unwrap(),
            raw,
            "roundtrip drift for {}",
            s
        );
    }
    assert!(tokens::parse_units("1.2345678901", 9).is_err(), "over-precision accepted");
    assert!(tokens::parse_units("-1", 9).is_err(), "negative accepted");
}

fn cfg_public() -> RpcConfig {
    RpcConfig::new(Vec::new(), Vec::new(), false, false)
}

/// The body of a call.
fn body(method: &str, params: &str) -> Vec<u8> {
    format!("{{\"id\":1,\"method\":\"{}\",\"params\":{}}}", method, params).into_bytes()
}

/// Runs a read method the way a server does.
fn read(
    node: &Node,
    cfg: &mut RpcConfig,
    method: &str,
    params: &str,
    tier: Tier,
) -> Result<(), String> {
    let raw = body(method, params);
    match rpc::dispatch_metered(cfg, tier, &raw, 0)? {
        Route::ChainInfo => {
            rpc::chain_info(node, 0);
            Ok(())
        }
        Route::BlockNumber => Ok(()),
        Route::Account => rpc::get_account(node, &raw).map(|_| ()),
        Route::BlockByNumber => rpc::block_by_number(node, &raw).map(|_| ()),
        Route::Validators => {
            rpc::validators_info(node, 0);
            Ok(())
        }
        Route::NodeStatus => {
            rpc::node_status(node, 0, 0);
            Ok(())
        }
        Route::FeeMarket => {
            rpc::fee_market(node);
            Ok(())
        }
        Route::RpcLimits => {
            rpc::rpc_limits(node, cfg, tier, &raw, 0);
            Ok(())
        }
        other => Err(format!("{:?} is not read here", other)),
    }
}

#[test]
fn c7_core_read_methods_answer() {
    let (mut node, kp) = net();
    seal(&mut node);
    let mut cfg = cfg_public();
    for (m, p) in [
        ("inaz_chainInfo", "{}".to_string()),
        ("inaz_blockNumber", "{}".to_string()),
        ("inaz_getBalance", format!("{{\"address\":\"{}\"}}", kp.address())),
        ("inaz_getBlockByNumber", "{\"height\":1}".to_string()),
        ("inaz_validators", "{}".to_string()),
        ("inaz_nodeStatus", "{}".to_string()),
        ("inaz_feeMarket", "{}".to_string()),
    ] {
        let r = read(&node, &mut cfg, m, &p, Tier::Anonymous);
        assert!(r.is_ok(), "{} failed: {:?}", m, r.err());
    }
}

#[test]
fn c7_unknown_method_errors_cleanly() {
    let mut cfg = cfg_public();
    let raw = body("eth_iDoNotExist", "{}");
    let r = rpc::dispatch_metered(&mut cfg, Tier::Anonymous, &raw, 0);
    assert_eq!(r, Err("unknown method eth_iDoNotExist".to_string()));
}

#[test]
fn c7_netinfo_is_redacted_for_anonymous() {
    let mut cfg = cfg_public();
    let raw = body("inaz_netInfo", "{}");
    let r = rpc::dispatch_metered(&mut cfg, Tier::Anonymous, &raw, 0);
    assert_eq!(r, Ok(Route::NetInfo));
    assert!(
        matches!(rpc::net_info(None, Tier::Anonymous, 0), NetInfo::Redacted(0)),
        "peer list leaked to anon caller"
    );
    let net = P2p::new("0.0.0.0:9944".into(), vec!["10.0.0.1:9944".into()], key());
    assert!(matches!(
        rpc::net_info(Some(&net), Tier::Anonymous, 0),
        NetInfo::Redacted(1)
    ));
    match rpc::net_info(Some(&net), Tier::Admin, 0) {
        NetInfo::Full(d) => {
            assert_eq!(d.peers, vec!["10.0.0.1:9944".to_string()]);
            assert_eq!(d.node_key, net.id.pubkey_hex());
        }
        _ => panic!("an operator sees the network"),
    }
}

#[test]
fn c7_admin_only_method_refuses_anonymous() {
    let (mut node, _) = net();
    let mut cfg = cfg_public();
    let r = read(&mut node, &mut cfg, "inaz_rpcLimits", "{}", Tier::Anonymous);
    assert!(r.is_err(), "privileged method served to anon caller");
    let ok = read(&mut node, &mut cfg, "inaz_rpcLimits", "{}", Tier::Admin);
    assert!(ok.is_ok(), "admin tier refused");
}

#[test]
fn c7_send_transaction_over_rpc_lands_in_pool() {
    let (mut node, kp) = net();
    let mut cfg = cfg_public();
    let tx = transfer(&kp, &key().address(), RAI_PER_INAZ, 0);
    let params = format!("{{\"tx\":{{\"from_pubkey\":\"{}\"}}}}", tx.from_pubkey);
    let raw = body("inaz_sendTransaction", &params);
    assert_eq!(
        rpc::dispatch_metered(&mut cfg, Tier::Anonymous, &raw, 0),
        Ok(Route::SendTransaction)
    );
    let hash = tx.hash();
    let r = rpc::send_transaction(&mut node, tx);
    assert_eq!(r, Ok((hash, None)), "valid tx refused over rpc");
    assert_eq!(node.mempool_size(), 1);
}

#[test]
fn c7_rpc_rejects_malformed_params() {
    let (node, _) = net();
    let mut cfg = cfg_public();
    let r = read(
        &node,
        &mut cfg,
        "inaz_getBalance",
        "{\"address\":12345}",
        Tier::Anonymous,
    );
    assert_eq!(r, Err("missing address".to_string()), "non-string address accepted");
}

#[test]
fn c7_anonymous_rate_limiter_eventually_throttles() {
    let mut rl = RateLimiter::new(5, 5);
    let ip = "7.7.7.7";
    let mut allowed = 0;
    for _ in 0..500 {
        if rl.allow(ip, 0) {
            allowed += 1;
        }
    }
    assert!(allowed < 500, "rate limiter never throttled");
    assert_eq!(allowed, 5);
}

#[test]
fn c7_ws_subscription_channels_parse_and_reject() {
    assert!(Channel::parse("heads", None, None, None).is_ok());
    assert!(Channel::parse("mempool", None, None, None).is_ok());
    assert!(Channel::parse("finality", None, None, None).is_ok());
    assert!(Channel::parse("signature", None, None, None).is_err());
    assert!(Channel::parse("account", None, Some("nope"), None).is_err());
    assert!(Channel::parse("not-a-channel", None, None, None).is_err());
}

#[test]
fn c8_five_hundred_transfers_settle_exactly() {
    let (mut node, kp) = net();
    let bob = key().address();
    let n = 500u64;
    let mut sent = 0u64;
    let mut nonce = 0u64;
    while sent < n {
        let mut batch = Vec::new();
        for _ in 0..MAX_PENDING_PER_SENDER.min(n - sent) {
            batch.push(transfer(&kp, &bob, RAI_PER_INAZ, nonce));
            nonce += 1;
        }
        let admitted = node.accept_batch(batch);
        sent += admitted.iter().filter(|r| r.is_ok()).count() as u64;
        seal(&mut node);
    }
    assert_eq!(
        node.store.account(&bob).balance,
        n as u128 * RAI_PER_INAZ,
        "value lost or duplicated under load"
    );
    assert_eq!(node.store.account(&kp.address()).nonce, n);
}

#[test]
fn c8_many_accounts_state_root_is_stable() {
    let (mut node, kp) = net();
    let mut addrs = Vec::new();
    let mut nonce = 0u64;
    for _ in 0..8 {
        let mut batch = Vec::new();
        for _ in 0..40 {
            let a = key().address();
            batch.push(transfer(&kp, &a, RAI_PER_INAZ, nonce));
            addrs.push(a);
            nonce += 1;
        }
        node.accept_batch(batch);
        seal(&mut node);
    }
    let h = node.store.tip_height().unwrap();
    let root = node.store.block(h).unwrap().state_root;
    assert_eq!(root, node.store.state_root_at(h));
    assert!(addrs
        .iter()
        .all(|a| node.store.account(a).balance == RAI_PER_INAZ));
}

#[test]
fn c8_long_run_stability_two_hundred_blocks() {
    let (mut node, kp) = net();
    let bob = key().address();
    for i in 0..200u64 {
        if i % 3 == 0 {
            let _ = node.accept_tx(transfer(&kp, &bob, 1_000, i / 3));
        }
        seal(&mut node);
    }
    assert_eq!(node.store.tip_height().unwrap(), 200);
    assert!(node.startup_state_root_check().is_ok());
}

#[test]
fn c8_block_size_is_capped() {
    assert!(MAX_TXS_PER_BLOCK <= 5_000, "block tx cap raised unsafely");
}

#[test]
fn c9_canonical_encoding_is_injective_over_random_fields() {
    let kp = key();
    let mut seen = HashSet::new();
    for n in 0..2_000u64 {
        let tx = Transaction {
            kind: TxKind::Transfer,
            from_pubkey: kp.pubkey_hex(),
            to: format!("inaz|{}", n),
            amount: n as u128,
            fee: MIN_FEE,
            nonce: n,
            chain_id: 7777,
            payload: None,
            shielded: None,
            signature: String::new(),
        };
        assert!(
            seen.insert(tx.canonical_signing_bytes()),
            "preimage collision at {}",
            n
        );
    }
}

#[test]
fn c9_delimiter_injection_cannot_reuse_a_signature() {
    let kp = key();
    let mut tx = transfer(&kp, &key().address(), RAI_PER_INAZ, 0);
    tx.to = format!("{}|extra", tx.to);
    assert!(!tx.fields_unambiguous() || !tx.verify_signature());
}

#[test]
fn c9_signature_never_valid_after_mutation() {
    let kp = key();
    let base = transfer(&kp, &key().address(), RAI_PER_INAZ, 0);
    assert!(base.verify_signature());
    for i in 0..5 {
        let mut m = base.clone();
        match i {
            0 => m.amount += 1,
            1 => m.fee += 1,
            2 => m.nonce += 1,
            3 => m.chain_id += 1,
            _ => m.to = key().address(),
        }
        assert!(!m.verify_signature(), "mutation {} still verified", i);
    }
}

#[test]
fn c9_hostile_wasm_memory_growth_fails_closed() {
    let mut st = store();
    let code = wat::parse_str(
        r#"(module (memory 1) (func (export "invoke") (result i32)
             (loop $l (drop (memory.grow (i32.const 1))) (br $l)) (i32.const 0)))"#,
    )
    .unwrap();
    let o = inazuma::contracts::execute(&st, "c", "x", &code, Vec::new(), 0, 1, 5_000_000);
    assert!(!o.ok, "unbounded memory growth succeeded");
}

#[test]
fn c9_deep_recursion_fails_closed() {
    let mut st = store();
    let code = wat::parse_str(
        r#"(module (func $f (call $f)) (func (export "invoke") (result i32) (call $f) (i32.const 0)))"#,
    )
    .unwrap();
    let o = inazuma::contracts::execute(&st, "c", "x", &code, Vec::new(), 0, 1, 2_000_000_000);
    assert!(!o.ok, "stack exhaustion was not contained");
}

#[test]
fn c9_secret_comparison_is_constant_time_api() {
    assert!(secret_eq("abcdefghijklmnop", "abcdefghijklmnop"));
    assert!(!secret_eq("abcdefghijklmnop", "abcdefghijklmnoq"));
    assert!(!secret_eq("short", "abcdefghijklmnop"));
}

#[test]
fn c9_zero_and_overflow_amounts_are_safe() {
    let (mut node, kp) = net();
    let bob = key().address();
    let _ = node.accept_tx(transfer(&kp, &bob, 0, 0));
    let huge = signed(TxKind::Transfer, &kp, &bob, u128::MAX, MIN_FEE, 1, None);
    assert!(node.accept_tx(huge).is_err(), "u128::MAX transfer accepted");
    seal(&mut node);
    assert!(node.store.account(&bob).balance < RAI_PER_INAZ);
}

#[test]
fn c9_fuzz_random_transactions_never_panic() {
    let (mut node, _) = net();
    let mut seed = 0x1234_5678_9abc_def0u64;
    let mut rnd = || {
        seed = seed
            .wrapping_mul(6364136223846793005)
            .wrapping_add(1442695040888963407);
        seed >> 11
    };
    for _ in 0..1_000 {
        let kp = key();
        let mut tx = transfer(&kp, &key().address(), rnd() as u128, rnd() % 5);
        if rnd() % 3 == 0 {
            tx.signature = to_hex(&[0u8; 64]);
        }
        if rnd() % 4 == 0 {
            tx.to = String::from_utf8_lossy(&rnd().to_be_bytes()).to_string();
        }
        let _ = node.accept_tx(tx);
    }
    assert!(node.produce_block().is_ok(), "node broke after fuzzing");
}

#[test]
fn c9_evidence_id_is_stable_and_unforgeable() {
    let mut cfg = cfg_public();
    let raw = body("inaz_report", "{}");
    let r = rpc::dispatch_metered(&mut cfg, Tier::Anonymous, &raw, 0);
    assert!(r.is_err(), "empty evidence accepted");
}

#[test]
fn c10_activation_heights_are_pinned() {
    assert_eq!(SLASHING_ACTIVATION_HEIGHT, 130_000);
    assert_eq!(FEE_MARKET_ACTIVATION_HEIGHT, 200_000);
    assert_eq!(STATE_ROOT_V2_ACTIVATION_HEIGHT, 200_000);
    assert_eq!(VALIDATOR_CAP_ACTIVATION_HEIGHT, 2_000_000);
}

#[test]
fn c10_legacy_and_v2_signatures_both_verify() {
    let kp = key();
    let mut legacy = transfer(&kp, &key().address(), RAI_PER_INAZ, 0);
    legacy.signature = kp.sign_hex(&legacy.signing_bytes());
    assert!(legacy.verify_signature(), "legacy signer broken (fork risk)");
    let mut modern = legacy.clone();
    modern.signature = kp.sign_hex(&modern.canonical_signing_bytes());
    assert!(modern.verify_signature(), "v2 signer broken");
}

#[test]
fn c10_genesis_is_byte_identical_across_nodes() {
    let kp = key();
    let mut a = Node::new(store(), genesis(&kp), key());
    let mut b = Node::new(store(), genesis(&kp), key());
    let a = a.init_genesis().unwrap();
    let b = b.init_genesis().unwrap();
    assert_eq!(a.hash, b.hash, "genesis diverged between nodes");
    assert_eq!(a.state_root, b.state_root);
}

#[test]
fn c10_snapshot_format_is_versioned() {
    assert_eq!(snapshot::SNAPSHOT_FORMAT, 2);
}

#[test]
fn c10_replay_from_genesis_reproduces_the_same_head() {
    let (mut node, kp) = net();
    let bob = key().address();
    for n in 0..12 {
        node.accept_tx(transfer(&kp, &bob, RAI_PER_INAZ, n)).unwrap();
        seal(&mut node);
    }
    let tip = node.store.tip_height().unwrap();
    let mut replica = Node::new(store(), node.genesis.clone(), key());
    replica.set_solo(true);
    replica.init_genesis().unwrap();
    for h in 1..=tip {
        let b = node.store.block(h).unwrap();
        replica
            .import_block(&b)
            .unwrap_or_else(|e| panic!("import of block {} failed: {}", h, e));
    }
    assert_eq!(replica.store.tip_hash(), node.store.tip_hash());
    assert_eq!(
        replica.store.state_root_at(tip),
        node.store.state_root_at(tip),
        "replica state root diverged"
    );
    assert_eq!(replica.store.account(&bob).balance, 12 * RAI_PER_INAZ);
}

#[test]
fn c10_replica_rejects_a_tampered_block() {
    let (mut node, kp) = net();
    node.accept_tx(transfer(&kp, &key().address(), RAI_PER_INAZ, 0))
        .unwrap();
    seal(&mut node);
    let mut b = node.store.block(1).unwrap();
    b.transactions.clear();
    let mut replica = Node::new(store(), node.genesis.clone(), key());
    replica.init_genesis().unwrap();
    assert!(replica.import_block(&b).is_err(), "tampered block imported");
}
