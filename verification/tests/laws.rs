//! The laws of the library on concrete values, the exact formulas, and the errors.

use inazuma::apply;
use inazuma::chain::Node;
use inazuma::cli;
use inazuma::consensus::{vote_bytes, Vote, VoteTracker};
use inazuma::contracts::{contract_address, fuel_for_fee, MAX_FUEL};
use inazuma::crypto::{
    address_from_pubkey, from_hex, hash_hex, is_valid_address, pubkey_from_address, to_hex,
    verify, Keypair,
};
use inazuma::events::MAX_SUBS_PER_CONN;
use inazuma::fees::{next_base_fee, required_fee};
use inazuma::http::{find_header_end, pass_call, read_head, Gate};
use inazuma::limits::{KeyedLimiter, PeerBook, TOKEN};
use inazuma::log;
use inazuma::mempool::Mempool;
use inazuma::metrics;
use inazuma::p2p;
use inazuma::p2p::{Msg, P2p, Pull, Reply};
use inazuma::poseidon::{fr_u64, Fr};
use inazuma::qos::StakeQos;
use inazuma::rpc;
use inazuma::rpc::TxStatus;
use inazuma::rpcauth::{RpcConfig, Tier};
use inazuma::shielded::{
    merkle_path, note_commitment, nullifier, owner_tag, root_from_leaves, NoteTree,
};
use inazuma::shielded_circuit::{public_inputs, OutputNote, SpendCircuit, SpendNote};
use inazuma::signguard::{guard_path, seal_guarded, SignGuard};
use inazuma::simulate::preflight;
use inazuma::slashing;
use inazuma::slashing::{Evidence, HeaderProof};
use inazuma::smt::{verify_proof, Smt};
use inazuma::staking;
use inazuma::state::Store;
use inazuma::tokens;
use inazuma::transport;
use inazuma::types::{
    format_inaz, parse_inaz, txs_root, Account, Block, ChainParams, Genesis, GenesisAlloc,
    Payload, Transaction, TxKind, Unbond, CHAIN_ID, MIN_FEE, MIN_STAKE,
    NO_DOWNTIME_JAIL_HEIGHT, RAI_PER_INAZ,
    SLASHING_ACTIVATION_HEIGHT,
};
use inazuma::ui;
use inazuma::ws;
use inazuma::ws::{Assembly, Step};

fn key() -> Keypair {
    Keypair::generate().unwrap()
}

fn copy(kp: &Keypair) -> Keypair {
    Keypair::from_secret_hex(&kp.secret_hex()).unwrap()
}

fn store() -> Store {
    Store::new(
        ChainParams {
            slashing_activation: SLASHING_ACTIVATION_HEIGHT,
        },
        u64::MAX,
    )
}

fn bond(store: &mut Store, address: &str, stake: u128) {
    let mut a = store.account(address);
    a.balance = 10 * RAI_PER_INAZ;
    a.staked = stake;
    store.set_account(address, &a);
}

fn net() -> (Node, Keypair) {
    let kp = key();
    let user = copy(&kp);
    let genesis = Genesis {
        chain_id: CHAIN_ID,
        chain_name: "Inazuma".into(),
        symbol: "INAZ".into(),
        decimals: 9,
        block_time_ms: 400,
        alloc: vec![GenesisAlloc {
            address: kp.address(),
            balance: "1000000".into(),
            stake: Some("10000".into()),
        }],
        slashing_activation_height: None,
    };
    let mut node = Node::new(store(), genesis, kp);
    node.set_solo(true);
    node.init_genesis().unwrap();
    (node, user)
}

fn signed(kind: TxKind, kp: &Keypair, to: &str, amount: u128, fee: u128, nonce: u64) -> Transaction {
    let mut tx = Transaction {
        kind,
        from_pubkey: kp.pubkey_hex(),
        to: to.to_string(),
        amount,
        fee,
        nonce,
        chain_id: CHAIN_ID,
        payload: None,
        shielded: None,
        signature: String::new(),
    };
    tx.signature = kp.sign_hex(&tx.canonical_signing_bytes());
    tx
}

fn transfer(kp: &Keypair, to: &str, amount: u128, nonce: u64) -> Transaction {
    signed(TxKind::Transfer, kp, to, amount, MIN_FEE, nonce)
}

fn call(params: &str) -> Vec<u8> {
    format!("{{\"id\":1,\"params\":{}}}", params).into_bytes()
}

// ---------------------------------------------------------------- crypto

#[test]
fn signatures_follow_the_published_vector() {
    let kp = Keypair::from_secret_hex(
        "9d61b19deffd5a60ba844af492ec2cc44449c5697b326919703bac031cae7f60",
    )
    .unwrap();
    assert_eq!(
        kp.pubkey_hex(),
        "d75a980182b10ab7d54bfed3c964073a0ee172f3daa62325af021a68f707511a"
    );
    let sig = kp.sign_hex(b"");
    assert_eq!(
        sig,
        "e5564300c360ac729086e2cc806e828a84877f1eb8e5d974d873e065224901555fb8821590a33bacc61e39701cf9b46bd25bf5f0595bbe24655141438e7a100b"
    );
    assert!(verify(&kp.pubkey_hex(), b"", &sig));
    assert!(!verify(&kp.pubkey_hex(), b"x", &sig));
    assert!(!verify("zz", b"", &sig));
}

#[test]
fn digests_and_texts_are_exact() {
    assert_eq!(
        hash_hex(b"abc"),
        "ba7816bf8f01cfea414140de5dae2223b00361a396177a9cb410ff61f20015ad"
    );
    assert_eq!(to_hex(&[0, 255, 16]), "00ff10");
    assert_eq!(from_hex("00FF10"), Some(vec![0, 255, 16]));
    assert_eq!(from_hex("0"), None);
    assert_eq!(from_hex("zz"), None);
    assert_eq!(address_from_pubkey(&[0u8; 32]), "1".repeat(32));
    assert_eq!(pubkey_from_address(&"1".repeat(32)), Some([0u8; 32]));
    assert!(!is_valid_address("not-an-address"));
}

#[test]
fn secrets_are_read_back() {
    let kp = key();
    assert_eq!(copy(&kp).address(), kp.address());
    assert_eq!(
        Keypair::from_secret_hex("xyz").err(),
        Some("Odd number of digits".to_string())
    );
    assert_eq!(
        Keypair::from_secret_hex(" 0x0g ").err(),
        Some("Invalid character 'g' at position 1".to_string())
    );
    assert_eq!(
        Keypair::from_secret_hex("00ff").err(),
        Some("secret key must be 32 bytes".to_string())
    );
}

// ---------------------------------------------------------------- amounts and fees

#[test]
fn amounts_are_read_back() {
    for rai in [0u128, 1, 999_999_999, RAI_PER_INAZ, 123_456_789_012] {
        assert_eq!(parse_inaz(&format_inaz(rai)), Ok(rai));
    }
    assert_eq!(parse_inaz("1.5"), Ok(1_500_000_000));
    assert!(parse_inaz("1.2345678901").is_err());
    assert!(parse_inaz("x").is_err());
    assert_eq!(tokens::parse_units(&tokens::format_units(12_345, 3), 3), Ok(12_345));
}

#[test]
fn fuel_grows_with_the_fee_up_to_its_cap() {
    assert_eq!(fuel_for_fee(0), 1_000_000);
    assert_eq!(fuel_for_fee(10_000), 4_000_000);
    assert_eq!(fuel_for_fee(u128::MAX), MAX_FUEL);
    assert!(fuel_for_fee(20_000) > fuel_for_fee(10_000));
}

#[test]
fn the_base_fee_follows_load_within_its_bounds() {
    assert_eq!(next_base_fee(MIN_FEE, 0), MIN_FEE);
    assert!(next_base_fee(1_000_000, 5_000) > 1_000_000);
    assert_eq!(required_fee(199_999, 5_000_000), MIN_FEE);
    assert_eq!(required_fee(200_000, 5_000_000), 5_000_000);
}

// ---------------------------------------------------------------- accounts and stake

#[test]
fn a_tombstone_is_for_good() {
    let mut a = Account {
        staked: MIN_STAKE,
        ..Account::default()
    };
    assert!(a.is_active_validator(1) && !a.is_jailed(1));
    a.penalties.jailed_until = 50;
    assert!(!a.is_active_validator(49) && a.is_jailed(49));
    assert!(a.is_active_validator(50) && !a.is_jailed(50));
    a.penalties.tombstoned = true;
    assert!(!a.is_active_validator(u64::MAX) && a.is_jailed(u64::MAX));
}

#[test]
fn a_fault_jail_is_served() {
    let mut a = Account {
        staked: MIN_STAKE,
        ..Account::default()
    };
    a.penalties.jailed_until = NO_DOWNTIME_JAIL_HEIGHT + 10;
    // Downtime no longer keeps a validator out, a provable fault does.
    assert!(a.is_active_validator(NO_DOWNTIME_JAIL_HEIGHT));
    assert!(!a.is_jailed(NO_DOWNTIME_JAIL_HEIGHT));
    assert!(a.is_jailed(NO_DOWNTIME_JAIL_HEIGHT - 1));
    a.penalties.jail_fault = true;
    assert!(!a.is_active_validator(NO_DOWNTIME_JAIL_HEIGHT));
    assert!(a.is_jailed(NO_DOWNTIME_JAIL_HEIGHT + 9));
    assert!(a.is_active_validator(NO_DOWNTIME_JAIL_HEIGHT + 10));
}

#[test]
fn matured_unbonding_is_paid_out_once() {
    let mut st = store();
    let mut a = Account::default();
    a.balance = 5;
    a.unbonding.push(Unbond {
        amount: 7,
        release_height: 10,
    });
    a.unbonding.push(Unbond {
        amount: 100,
        release_height: 11,
    });
    st.set_account("alice", &a);
    let before = st.total_supply();
    assert!(staking::release_unbonded(&mut st, 9).is_empty());
    staking::release_unbonded(&mut st, 10);
    assert_eq!(st.account("alice").balance, 12);
    assert_eq!(st.account("alice").unbonding_total(), 100);
    assert_eq!(st.total_supply(), before);
}

#[test]
fn rewards_are_shared_without_loss() {
    let mut st = store();
    bond(&mut st, "a", MIN_STAKE);
    bond(&mut st, "b", 3 * MIN_STAKE);
    let before = st.total_supply();
    staking::pay_rewards(&mut st, "a", 1_001);
    assert_eq!(st.total_supply(), before + staking::BLOCK_REWARD + 1_001);
}

#[test]
fn liveness_never_mints() {
    let mut st = store();
    bond(&mut st, "a", MIN_STAKE);
    bond(&mut st, "b", MIN_STAKE);
    let before = st.total_supply();
    for h in 0..100u64 {
        let parent = format!("{:064x}", h);
        slashing::record_liveness(&mut st, SLASHING_ACTIVATION_HEIGHT + h, &parent, "b");
    }
    assert!(st.total_supply() <= before);
}

#[test]
fn the_elected_leader_is_a_validator() {
    let mut st = store();
    bond(&mut st, "a", MIN_STAKE);
    bond(&mut st, "b", 9 * MIN_STAKE);
    let set = staking::validator_set(&st);
    let mut hits = 0;
    for h in 0..400u64 {
        let l = staking::elect_leader(&set, h, "parent").unwrap();
        assert!(set.iter().any(|v| v.address == l));
        if l == "b" {
            hits += 1;
        }
    }
    assert!(hits > 300, "nine tenths of the stake led {} of 400 slots", hits);
    assert_eq!(staking::elect_leader(&Vec::new(), 1, "parent"), None);
}

#[test]
fn an_election_draws_from_its_seed() {
    let mut st = store();
    bond(&mut st, "a", 3 * MIN_STAKE);
    bond(&mut st, "b", 5 * MIN_STAKE);
    let set = staking::validator_set(&st);
    let total = staking::total_stake(&set);
    let drawn = |text: String| {
        let seed = from_hex(&hash_hex(text.as_bytes())).unwrap();
        let mut point = seed[..16].iter().fold(0u128, |n, b| n << 8 | *b as u128) % total;
        for v in &set {
            if point < v.stake {
                return Some(v.address.clone());
            }
            point -= v.stake;
        }
        None
    };
    for h in 0..100u64 {
        assert_eq!(
            staking::elect_leader(&set, h, "parent"),
            drawn(format!("inazuma-leader|{}|parent", h))
        );
        assert_eq!(
            staking::elect_leader_attempt(&set, h, "parent", 2),
            drawn(format!("inazuma-leader|{}|parent|2", h))
        );
    }
}

fn block(kp: &Keypair, root: &str) -> Block {
    let p = header(kp, 1, root);
    Block {
        height: 1,
        parent_hash: p.parent_hash,
        timestamp_ms: p.timestamp_ms,
        state_root: p.state_root,
        txs_root: p.txs_root,
        producer: p.producer,
        producer_pubkey: p.producer_pubkey,
        transactions: Vec::new(),
        signature: p.signature,
        hash: p.hash,
    }
}

fn precommit(kp: &Keypair, hash: &str) -> Vote {
    Vote {
        height: 1,
        hash: hash.into(),
        voter_pubkey: kp.pubkey_hex(),
        signature: kp.sign_hex(&vote_bytes(1, hash)),
    }
}

#[test]
fn finality_is_agreement_on_one_block() {
    let mut st = store();
    let keys = [key(), key(), key()];
    for k in &keys {
        bond(&mut st, &k.address(), MIN_STAKE);
    }
    let (one, two) = (block(&keys[0], "r1"), block(&keys[0], "r2"));
    let mut seen = VoteTracker::new();
    st.put_block(&one);
    seen.add(&mut st, precommit(&keys[0], &one.hash)).unwrap();
    // Another chain is followed: what was said of the old block is not said of the new.
    st.put_block(&two);
    for k in &keys[1..] {
        let o = seen.add(&mut st, precommit(k, &two.hash)).unwrap();
        assert_eq!(o.finalized, None);
    }
    assert_eq!(seen.tally(&st, 1), (3 * MIN_STAKE, 3 * MIN_STAKE));
    assert_eq!(st.finalized_height(), 0);
}

#[test]
fn a_double_vote_is_proved_once() {
    let mut st = store();
    let (a, b) = (key(), key());
    bond(&mut st, &a.address(), MIN_STAKE);
    bond(&mut st, &b.address(), MIN_STAKE);
    let block = block(&a, "r1");
    st.put_block(&block);
    let mut seen = VoteTracker::new();
    assert!(seen.add(&mut st, precommit(&a, &block.hash)).unwrap().fresh);
    for other in ["one", "two", "one"] {
        assert_eq!(
            seen.add(&mut st, precommit(&a, other)).err(),
            Some("equivocating vote: evidence recorded".to_string())
        );
    }
    let proofs = seen.take_evidence();
    assert_eq!(proofs.len(), 2);
    assert_ne!(proofs[0].id(), proofs[1].id());
    for p in &proofs {
        assert_eq!(p.verify(), Ok(a.address()));
    }
    assert!(seen.take_evidence().is_empty());
}

// ---------------------------------------------------------------- evidence

fn header(kp: &Keypair, height: u64, root: &str) -> HeaderProof {
    let mut b = Block {
        height,
        parent_hash: "p".into(),
        timestamp_ms: 1,
        state_root: root.into(),
        txs_root: txs_root(&Vec::new()),
        producer: kp.address(),
        producer_pubkey: kp.pubkey_hex(),
        transactions: Vec::new(),
        signature: String::new(),
        hash: String::new(),
    };
    b.signature = kp.sign_hex(&b.header_bytes());
    b.hash = b.compute_hash();
    HeaderProof::from_block(&b)
}

#[test]
fn evidence_reads_the_same_both_ways_round() {
    let kp = key();
    let (a, b) = (header(&kp, 5, "aa"), header(&kp, 5, "bb"));
    let one = Evidence::Block {
        a: a.clone(),
        b: b.clone(),
    };
    let two = Evidence::Block { a: b, b: a };
    assert_eq!(one.id(), two.id());
    assert_eq!(one.verify(), Ok(kp.address()));
    assert_eq!(two.verify(), Ok(kp.address()));
    // Evidence survives the payload it travels in.
    let back = slashing::decode(&Some(slashing::encode(&one))).unwrap();
    assert_eq!(back.id(), one.id());
    assert!(slashing::decode(&None).is_err());
    let text = slashing::write_evidence(&one);
    assert!(text.starts_with("{\"kind\":\"block\",\"a\":{\"height\":5,\"parent_hash\":\"p\",\"timestamp_ms\":\"1\","));
    // A timestamp written as a number is read as well.
    let plain = text.replace("\"timestamp_ms\":\"1\"", "\"timestamp_ms\":1");
    assert_eq!(
        slashing::read_evidence(&plain.into_bytes()).unwrap().id(),
        one.id()
    );
}

#[test]
fn a_slash_moves_or_burns_every_unit() {
    let mut st = store();
    let (offender, reporter) = (key(), key());
    bond(&mut st, &offender.address(), 100 * MIN_STAKE);
    let before = st.total_supply();
    let ev = Evidence::Block {
        a: header(&offender, 5, "aa"),
        b: header(&offender, 5, "bb"),
    };
    let rec = slashing::apply_report(&mut st, 6, &reporter.address(), &ev).unwrap();
    assert_eq!(st.total_supply() + rec.burned, before);
}

// ---------------------------------------------------------------- pool

#[test]
fn a_batch_takes_the_best_and_leaves_the_rest() {
    let mut pool = Mempool::new();
    let (a, b) = (key(), key());
    for n in 0..3u64 {
        let t = signed(TxKind::Transfer, &a, &b.address(), 1, 1_000, n);
        let h = t.hash();
        pool.insert(t, h, a.address());
    }
    let t = signed(TxKind::Transfer, &b, &a.address(), 1, 9_000, 0);
    let h = t.hash();
    pool.insert(t, h, b.address());
    let batch = pool.take_batch(2);
    assert_eq!(batch.len(), 2);
    assert_eq!(batch[0].fee, 9_000);
    assert_eq!((batch[1].fee, batch[1].nonce), (1_000, 0));
    assert_eq!(pool.len(), 2);
    assert_eq!(pool.fees(), vec![1_000, 1_000]);
}

#[test]
fn a_batch_leaves_the_rest_in_place() {
    let mut pool = Mempool::new();
    for fee in [20u128, 30, 10] {
        let kp = key();
        let t = signed(TxKind::Transfer, &kp, "x", 1, fee, 0);
        let h = t.hash();
        pool.insert(t, h, kp.address());
    }
    assert_eq!(pool.fees(), vec![20, 30, 10]);
    let batch = pool.take_batch(1);
    assert_eq!(batch.len(), 1);
    assert_eq!(batch[0].fee, 30);
    assert_eq!(pool.fees(), vec![20, 10]);
    assert!(pool.take_batch(0).is_empty());
    assert_eq!(pool.fees(), vec![20, 10]);
}

#[test]
fn a_batch_waits_for_earlier_nonces() {
    let mut pool = Mempool::new();
    let mut put = |from: &str, nonce: u64, fee: u128, hash: &str| {
        let t = Transaction {
            kind: TxKind::Transfer,
            from_pubkey: from.into(),
            to: "x".into(),
            amount: 1,
            fee,
            nonce,
            chain_id: 7777,
            payload: None,
            shielded: None,
            signature: String::new(),
        };
        pool.insert(t, hash.into(), from.into());
    };
    put("a", 2, 20, "h1");
    put("b", 0, 25, "h2");
    put("a", 1, 10, "h3");
    put("a", 0, 30, "h4");
    let got: Vec<(String, u64)> = pool
        .take_batch(10)
        .iter()
        .map(|t| (t.from_pubkey.clone(), t.nonce))
        .collect();
    let want = [("a", 0), ("b", 0), ("a", 1), ("a", 2)];
    assert_eq!(got.len(), want.len());
    for (g, w) in got.iter().zip(want.iter()) {
        assert_eq!((g.0.as_str(), g.1), *w);
    }
    assert_eq!(pool.len(), 0);
}

#[test]
fn a_preflight_predicts_admission() {
    let (mut node, kp) = net();
    let bob = key().address();
    let good = transfer(&kp, &bob, RAI_PER_INAZ, 0);
    let p = preflight(&node, &good);
    assert!(p.ok && p.errors.is_empty());
    assert_eq!(p.expected_nonce, Some(0));
    assert!(node.accept_tx(good).is_ok());
    let bad = transfer(&kp, &bob, RAI_PER_INAZ, 7);
    let p = preflight(&node, &bad);
    assert!(!p.ok && !p.errors.is_empty());
    assert!(node.accept_tx(bad).is_err());
}

// ---------------------------------------------------------------- blocks

#[test]
fn a_refused_block_changes_nothing() {
    let (mut node, kp) = net();
    node.accept_tx(transfer(&kp, &key().address(), RAI_PER_INAZ, 0))
        .unwrap();
    let b = node.produce_block().unwrap().unwrap();
    let mut replica = Node::new(store(), node.genesis.clone(), key());
    replica.init_genesis().unwrap();
    let root = replica.store.state_root();
    let mut bad = b.clone();
    bad.state_root = "0".repeat(64);
    assert!(replica.import_block(&bad).is_err());
    assert_eq!(replica.store.state_root(), root);
    assert_eq!(replica.store.tip_height(), Some(0));
    // The honest block is accepted and adds the reward alone.
    let supply = replica.store.total_supply();
    assert_eq!(replica.import_block(&b), Ok(true));
    assert_eq!(
        replica.store.total_supply(),
        supply + staking::BLOCK_REWARD
    );
}

#[test]
fn a_failed_transaction_pays_nothing() {
    let (mut node, kp) = net();
    let tx = transfer(&kp, &key().address(), u128::MAX, 0);
    let root = node.store.state_root();
    assert!(apply::apply_tx(&mut node.store, &tx, 1).is_err());
    assert_eq!(node.store.state_root(), root);
}

#[test]
fn a_height_is_signed_once() {
    let (mut node, kp) = net();
    let address = kp.address();
    assert_eq!(guard_path("./data/"), "./data.signguard");
    let mut guard = SignGuard::open(None, &address);
    assert_eq!(guard.highest_signed(), 0);
    let now = inazuma::chain::now_ms();
    let (block, body) = seal_guarded(&mut node, &mut guard, now).unwrap().unwrap();
    assert_eq!(block.height, 1);
    assert_eq!(body, format!("{} 1\n", address));
    // After a restart the guard still knows.
    let again = SignGuard::open(Some(&body), &address);
    assert_eq!(again.highest_signed(), 1);
    assert!(!again.may_sign(1));
    assert!(again.may_sign(2));
    // The file of another key says nothing.
    assert_eq!(SignGuard::open(Some(&body), "other").highest_signed(), 0);
    let mut stuck = SignGuard::open(Some(&format!("{} 99\n", address)), &address);
    assert!(matches!(
        seal_guarded(&mut node, &mut stuck, now + 1_000),
        Ok(None) | Err(_)
    ));
}

// ---------------------------------------------------------------- tokens and notes

#[test]
fn a_token_transfer_conserves_the_token() {
    let mut st = store();
    let (a, b) = (key().address(), key().address());
    let p = Payload {
        symbol: "TST".into(),
        name: "Test".into(),
        decimals: 2,
        mintable: false,
        ..Payload::default()
    };
    let id = tokens::apply_create(&mut st, &a, 0, 1_000, 1, &Some(p)).unwrap();
    let t = Some(Payload {
        token: id.clone(),
        ..Payload::default()
    });
    tokens::apply_token_transfer(&mut st, &a, &b, 400, &t).unwrap();
    assert_eq!(st.token_balance(&id, &a) + st.token_balance(&id, &b), 1_000);
    assert_eq!(st.token_holders(&id, 1), vec![(a.clone(), 600)]);
    assert_eq!(st.token(&id).unwrap().holders, 2);
    tokens::apply_burn(&mut st, &b, 400, &t).unwrap();
    assert_eq!(st.token(&id).unwrap().supply, 600);
    assert!(tokens::apply_burn(&mut st, &b, 1, &t).is_err());
}

#[test]
fn a_nullifier_is_spent_once() {
    let mut st = store();
    assert!(!st.shielded_nullifier_seen("aa"));
    assert!(st.shielded_burn_nullifier("aa", 5));
    assert!(st.shielded_nullifier_seen("aa"));
    assert!(!st.shielded_burn_nullifier("aa", 6));
}

fn spend(tree: &NoteTree, leaving: u128, out: u128) -> SpendCircuit {
    let p = tree.params();
    let sk = fr_u64(5);
    let cm = note_commitment(p, owner_tag(p, sk), 100, fr_u64(1));
    let leaves: Vec<Fr> = vec![cm];
    let path = merkle_path(tree, &leaves, 0).unwrap();
    let kept = OutputNote {
        owner: fr_u64(2),
        value: out,
        rho: fr_u64(3),
    };
    let none = OutputNote {
        owner: fr_u64(2),
        value: 0,
        rho: fr_u64(4),
    };
    SpendCircuit {
        anchor: root_from_leaves(tree, &leaves),
        nullifiers: [nullifier(p, sk, 0), nullifier(p, fr_u64(77), 9)],
        out_commitments: [
            note_commitment(p, kept.owner, kept.value, kept.rho),
            note_commitment(p, none.owner, none.value, none.rho),
        ],
        public_unshield: leaving,
        inputs: [
            SpendNote {
                spend_key: sk,
                value: 100,
                rho: fr_u64(1),
                position: 0,
                path: merkle_path(tree, &leaves, 0).unwrap(),
            },
            SpendNote {
                spend_key: fr_u64(77),
                value: 0,
                rho: fr_u64(0),
                position: 9,
                path,
            },
        ],
        outputs: [kept, none],
    }
}

#[test]
fn a_spend_conserves_value_and_marks_its_note() {
    let tree = NoteTree::new();
    let p = tree.params();
    let a = spend(&tree, 30, 70);
    let b = spend(&tree, 0, 100);
    assert!(a.is_satisfied(p) && b.is_satisfied(p));
    assert!(a.nullifiers[0].same(b.nullifiers[0]));
    assert!(!spend(&tree, 31, 70).is_satisfied(p));
    assert!(!spend(&tree, 0, 101).is_satisfied(p));
    // A value that only fits by wrapping around the field is out of range.
    assert!(!spend(&tree, u128::MAX, 0).is_satisfied(p));
    let inputs = public_inputs(&a);
    assert_eq!(inputs.len(), 6);
    assert!(inputs[0].same(a.anchor));
    assert!(inputs[5].same(fr_u64(30)));
}

// ---------------------------------------------------------------- limits and tiers

#[test]
fn a_bucket_refills_at_its_rate() {
    let mut l = KeyedLimiter::new(5, 10);
    for _ in 0..10 {
        assert!(l.allow_cost("k", TOKEN, 0));
    }
    assert!(!l.allow_cost("k", TOKEN, 0));
    assert!(l.allow_cost("other", TOKEN, 0));
    assert!(!l.allow_cost("k", TOKEN, 100));
    assert!(l.allow_cost("k", TOKEN, 400));
    assert_eq!(l.tracked_count(), 2);
}

#[test]
fn weight_follows_stake_up_to_its_cap() {
    let mut st = store();
    let (small, whale) = (key().address(), key().address());
    bond(&mut st, &small, 10 * MIN_STAKE);
    bond(&mut st, &whale, 90 * MIN_STAKE);
    let mut q = StakeQos::new(vec![
        format!("small-key-0123456789:{}", small),
        format!("whale-key-0123456789:{}", whale),
    ]);
    assert_eq!(q.len(), 2);
    assert_eq!(q.multiplier(&st, Some("small-key-0123456789"), 0), 3_000);
    assert_eq!(q.multiplier(&st, Some("whale-key-0123456789"), 0), 8_000);
    assert_eq!(q.multiplier(&st, Some("unbound"), 0), 1_000);
    assert_eq!(q.multiplier(&st, None, 0), 1_000);
    assert_eq!(q.share_pct(&st, Some("small-key-0123456789"), 0), 1_000);
}

#[test]
fn operator_calls_fail_closed() {
    let st = store();
    let mut open = RpcConfig::public();
    assert_eq!(
        pass_call(&mut open, &st, None, "1.1.1.1", "inaz_netInfo", None, 0),
        Gate::NeedsAdmin
    );
    assert_eq!(
        pass_call(&mut open, &st, None, "1.1.1.1", "inaz_chainInfo", None, 0),
        Gate::Call
    );
    let admin = "admin-key-0123456789abcdef";
    let mut cfg = RpcConfig::new(Vec::new(), vec![admin.into()], true, false);
    assert_eq!(
        pass_call(&mut cfg, &st, None, "1.1.1.1", "inaz_chainInfo", None, 0),
        Gate::NeedsKey
    );
    assert_eq!(
        pass_call(&mut cfg, &st, Some(admin), "1.1.1.1", "inaz_netInfo", None, 0),
        Gate::Call
    );
    assert_eq!(cfg.tier_for(Some("admin-key-0123456789abcdee")), Tier::Anonymous);
}

#[test]
fn heads_are_read() {
    let raw = "POST /rpc HTTP/1.1\r\nContent-Length: 12\r\nx-api-key: secret\r\n\r\n";
    let end = find_header_end(raw.as_bytes());
    assert!(end.is_some());
    let h = read_head(raw, false);
    assert_eq!(h.method, "POST");
    assert_eq!(h.path, "/rpc");
    assert_eq!(h.content_length, 12);
    assert_eq!(h.credential.as_deref(), Some("secret"));
    assert_eq!(find_header_end(b"GET / HTTP/1.1"), None);
}

// ---------------------------------------------------------------- transport

#[test]
fn a_handshake_agrees_on_both_ends() {
    let (alice, bob) = (key(), key());
    let (sa, sb) = ([7u8; 32], [9u8; 32]);
    let hello = transport::hello(&sa);
    assert_eq!(&hello[..5], b"INSC1");
    let mut ei = [0u8; 32];
    ei.copy_from_slice(&hello[5..]);
    let answer = transport::reply(&bob, &sb, &ei);
    let (fin, mut a) = transport::initiate(&alice, &sa, &answer).unwrap();
    let mut b = transport::respond(&bob, &sb, &ei, &fin).unwrap();
    assert_eq!(a.peer_id, bob.pubkey_hex());
    assert_eq!(b.peer_id, alice.pubkey_hex());

    let frame = a.pack(b"hello").unwrap();
    let again = a.pack(b"hello").unwrap();
    assert_ne!(frame, again, "nonces differ from frame to frame");
    let mut head = [0u8; 4];
    head.copy_from_slice(&frame[..4]);
    assert_eq!(transport::frame_len(&head), Ok(frame.len() - 4));
    assert_eq!(b.unpack(&frame[4..]), Ok(b"hello".to_vec()));
    assert_eq!(b.unpack(&again[4..]), Ok(b"hello".to_vec()));
    let back = b.pack(b"there").unwrap();
    assert_eq!(a.unpack(&back[4..]), Ok(b"there".to_vec()));

    // A replayed or altered frame does not open.
    assert!(b.unpack(&frame[4..]).is_err());
    // An answer signed by nobody is refused.
    let mut forged = answer.clone();
    forged[100] ^= 1;
    assert!(transport::initiate(&alice, &sa, &forged).is_err());
    let mut bad = fin.clone();
    bad[40] ^= 1;
    assert!(transport::respond(&bob, &sb, &ei, &bad).is_err());
}

#[test]
fn lines_are_bounded() {
    assert_eq!(transport::decode_line("  \n"), Ok(None));
    assert_eq!(transport::decode_line(" x \n"), Ok(Some(" x \n".to_string())));
    assert!(transport::frame_len(&[0xff, 0xff, 0xff, 0xff]).is_err());
}

// ---------------------------------------------------------------- network

#[test]
fn an_allowlist_is_strict() {
    let open = P2p::new("l".into(), Vec::new(), key());
    assert!(open.id_allowed(None));
    let strict = open.with_allowlist(vec!["ab".repeat(32)]);
    assert!(strict.id_allowed(Some(&"ab".repeat(32))));
    assert!(!strict.id_allowed(Some(&"cd".repeat(32))));
    assert!(!strict.id_allowed(None));
}

#[test]
fn pulls_are_planned_and_served_in_bounds() {
    assert!(matches!(p2p::plan_pull(10, 9, 0), Pull::Nothing));
    assert!(matches!(p2p::plan_pull(10, 10, 0), Pull::From(11)));
    assert!(matches!(p2p::plan_pull(10, 20, 0), Pull::From(11)));
    assert!(matches!(p2p::plan_pull(10, 20, 15), Pull::Pruned));
    let (mut node, _) = net();
    for _ in 0..5 {
        node.produce_block().unwrap();
    }
    let blocks = p2p::serve_blocks(&node.store, 1, 3);
    assert_eq!(
        blocks.iter().map(|b| b.height).collect::<Vec<_>>(),
        vec![1, 2, 3]
    );
    let r = p2p::handle_msg(&mut node, Msg::Status, 0);
    assert!(matches!(
        r.reply,
        Some(Reply::Status {
            height: 5,
            finalized: 0,
            ..
        })
    ));
}

#[test]
fn only_an_active_validator_votes() {
    let (mut node, _) = net();
    let b = node.produce_block().unwrap().unwrap();
    let (vote, finalized) = p2p::vote_on(&mut node, &b);
    assert!(vote.unwrap().verify_signature());
    assert_eq!(finalized, Some(1));
    let mut replica = Node::new(store(), node.genesis.clone(), key());
    replica.init_genesis().unwrap();
    replica.import_block(&b).unwrap();
    assert!(p2p::vote_on(&mut replica, &b).0.is_none());
}

// ---------------------------------------------------------------- calls

#[test]
fn statuses_and_fees_are_reported() {
    let (mut node, kp) = net();
    let bob = key().address();
    let t0 = transfer(&kp, &bob, 1_000, 0);
    let h0 = t0.hash();
    node.accept_tx(t0).unwrap();
    node.produce_block().unwrap();
    let t1 = signed(TxKind::Transfer, &kp, &bob, 1_000, 5_000, 1);
    let h1 = t1.hash();
    node.accept_tx(t1).unwrap();
    let params = format!("{{\"hashes\":[\"{}\",\"{}\",\"nope\",3]}}", h0.to_uppercase(), h1);
    let got = rpc::signature_statuses(&node, &call(&params)).unwrap();
    assert_eq!(got[0], (h0.clone(), TxStatus::Confirmed(1, 1)));
    assert_eq!(got[1].1, TxStatus::Pending);
    assert_eq!(got[2].1, TxStatus::Unknown);
    assert_eq!(got[3], (String::new(), TxStatus::Unknown));
    assert_eq!(
        rpc::signature_statuses(&node, &call("{}")).err(),
        Some("missing hashes array".to_string())
    );
    let f = rpc::priority_fee(&node);
    assert_eq!((f.queued, f.normal, f.fast, f.urgent), (1, 5_000, 5_000, 10_000));
    let found = rpc::get_transaction(&node, &call(&format!("{{\"hash\":\"{}\"}}", h0)));
    assert_eq!(found.unwrap().unwrap().height, 1);
    assert!(rpc::get_transaction(&node, &call("{\"hash\":\"ff\"}"))
        .unwrap()
        .is_none());
    assert_eq!(
        rpc::get_transaction(&node, &call("{}")).err(),
        Some("missing hash".to_string())
    );
    let latest = rpc::latest_blocks(&node, &call("{\"limit\":1}"));
    assert_eq!(latest.len(), 1);
    assert_eq!(latest[0].height, 1);
}

#[test]
fn a_proof_that_was_given_is_accepted() {
    let (mut node, kp) = net();
    node.produce_block().unwrap();
    let p = rpc::get_proof(&node, &call(&format!("{{\"address\":\"{}\"}}", kp.address()))).unwrap();
    let list: Vec<String> = p.siblings.iter().map(|s| format!("\"{}\"", s)).collect();
    let body = |value: &str| {
        call(&format!(
            "{{\"key\":\"{}\",\"root\":\"{}\",\"value\":\"{}\",\"siblings\":[{}],\"siblingBitmap\":\"{}\"}}",
            p.key,
            p.root,
            value,
            list.join(","),
            p.bitmap
        ))
    };
    let value = to_hex(p.value.as_deref().unwrap());
    assert_eq!(rpc::verify_proof(&body(&value)), Ok(true));
    assert_eq!(rpc::verify_proof(&body("00")), Ok(false));
    assert_eq!(rpc::verify_proof(&body("zz")), Err("bad value hex".to_string()));
    assert_eq!(rpc::verify_proof(&call("{}")), Err("key required".to_string()));
    assert_eq!(
        rpc::verify_proof(&call("{\"key\":\"a\"}")),
        Err("root required".to_string())
    );
    assert_eq!(
        rpc::get_proof(&node, &call("{}")).err(),
        Some("key required".to_string())
    );
}

#[test]
fn a_proof_cannot_be_bent() {
    let mut t = Smt::new();
    t.set("acct", b"alice", Some(b"100"));
    t.set("acct", b"bob", Some(b"7"));
    let (_, sibs, map) = t.prove("acct", b"alice");
    let root = t.root_hex();
    let ok = |root: &str, value: Option<&[u8]>, sibs: &Vec<String>| {
        verify_proof(root, "acct", b"alice", value, sibs, &map)
    };
    assert!(ok(&root, Some(b"100"), &sibs));
    assert!(!ok(&root, Some(b"101"), &sibs));
    assert!(!ok(&root, None, &sibs));
    assert!(!ok(&"0".repeat(64), Some(b"100"), &sibs));
    assert!(!sibs.is_empty());
    let mut more = sibs.clone();
    more.push("0".repeat(64));
    assert!(!ok(&root, Some(b"100"), &more));
    let fewer = sibs[..sibs.len() - 1].to_vec();
    assert!(!ok(&root, Some(b"100"), &fewer));
    t.set("acct", b"alice", None);
    let (_, sibs, map) = t.prove("acct", b"alice");
    assert!(verify_proof(&t.root_hex(), "acct", b"alice", None, &sibs, &map));
    assert!(!verify_proof(&t.root_hex(), "acct", b"alice", Some(b"100"), &sibs, &map));
}

#[test]
fn scores_move_both_ways() {
    let mut book = PeerBook::new(60);
    assert!(!book.penalize("h", -40, 0));
    assert!(!book.penalize("h", 139, 0));
    assert!(book.penalize("h", 1, 0));
    assert!(book.is_banned("h", 59_999));
    assert!(!book.is_banned("h", 60_000));
}

#[test]
fn bulk_submissions_report_by_place() {
    let (mut node, kp) = net();
    let bob = key().address();
    let txs = vec![
        transfer(&kp, &bob, 1_000, 0),
        transfer(&kp, "nowhere", 1_000, 1),
        transfer(&kp, &bob, 1_000, 1),
    ];
    let b = rpc::send_transactions(
        &mut node,
        txs,
        &vec![0, 2, 3],
        vec![(1, "bad transaction".to_string())],
        4,
    )
    .unwrap();
    assert_eq!((b.accepted, b.rejected), (2, 2));
    assert_eq!(b.errors[0], (1, "bad transaction".to_string()));
    assert_eq!(b.errors[1].0, 2);
    assert_eq!(b.passed, vec![0, 2]);
    assert_eq!(
        rpc::send_transactions(&mut node, Vec::new(), &Vec::new(), Vec::new(), 5_001).err(),
        Some("batch too large (max 5000)".to_string())
    );
}

#[test]
fn floods_are_charged_to_their_sender() {
    let mut cfg = RpcConfig::public();
    let senders = vec!["aa".to_string(); 201];
    assert_eq!(
        rpc::charge_senders(&mut cfg, &senders, 0),
        Err("account aa is submitting too fast".to_string())
    );
    assert_eq!(rpc::charge_senders(&mut cfg, &vec!["bb".to_string()], 0), Ok(()));
}

#[test]
fn subscriptions_are_capped_and_owned() {
    let (mut node, _) = net();
    let id = rpc::subscribe(&mut node, &call("{}"), 1).unwrap();
    for _ in 1..MAX_SUBS_PER_CONN {
        rpc::subscribe(&mut node, &call("{\"channel\":\"mempool\"}"), 1).unwrap();
    }
    assert!(rpc::subscribe(&mut node, &call("{}"), 1).is_err());
    assert!(rpc::subscribe(&mut node, &call("{\"channel\":\"nope\"}"), 2).is_err());
    let one = call(&format!("{{\"subscription\":{}}}", id));
    assert_eq!(rpc::unsubscribe(&mut node, &one, 2), Ok(false));
    assert_eq!(rpc::unsubscribe(&mut node, &one, 1), Ok(true));
    assert_eq!(
        rpc::unsubscribe(&mut node, &call("{}"), 1),
        Err("subscription id required".to_string())
    );
}

#[test]
fn reads_report_what_is_missing() {
    let (node, kp) = net();
    assert_eq!(
        rpc::get_account(&node, &call("{}")).err(),
        Some("missing address".to_string())
    );
    assert_eq!(
        rpc::get_account(&node, &call("{\"address\":\"x\"}")).err(),
        Some("invalid address".to_string())
    );
    let a = rpc::get_account(&node, &call(&format!("{{\"address\":\"{}\"}}", kp.address())));
    assert!(a.unwrap().validator);
    assert_eq!(
        rpc::get_token(&node, &call("{}")).err(),
        Some("missing token".to_string())
    );
    assert_eq!(
        rpc::token_balance(&node, &call("{\"token\":\"x\",\"address\":\"y\"}")).err(),
        Some("unknown token".to_string())
    );
    assert_eq!(
        rpc::contract_storage(&node, &call("{\"address\":\"x\"}")).err(),
        Some("missing key".to_string())
    );
    assert!(rpc::query(&node, &call("{\"address\":\"x\"}")).is_err());
    assert!(rpc::get_receipt(&node, &call("{\"hash\":\"x\"}"))
        .unwrap()
        .is_none());
    let f = rpc::finality(&node, &call("{\"height\":0}"));
    assert!(f.is_final);
    assert_eq!((f.voted, f.voted_bp), (f.total, 10_000));
}

#[test]
fn metrics_name_the_tip() {
    let (mut node, _) = net();
    node.produce_block().unwrap();
    let page = metrics::render(&node, 3);
    assert!(page.starts_with("# HELP inazuma_block_height Height of the local chain tip.\n"));
    assert!(page.contains("\ninazuma_block_height 1\n"));
    assert!(page.contains("\ninazuma_peer_count 3\n"));
    assert!(page.contains("\ninazuma_solo_mode 1\n"));
    assert!(page.contains(&format!("tip_hash=\"{}\"", node.store.tip_hash())));
}

#[test]
fn a_contract_address_binds_its_creator_and_nonce() {
    let a = contract_address("alice", 0, "c0de");
    assert_eq!(a, contract_address("alice", 0, "c0de"));
    assert_ne!(a, contract_address("alice", 1, "c0de"));
    assert_ne!(a, contract_address("bob", 0, "c0de"));
}

// ---------------------------------------------------------------- sockets

#[test]
fn masks_undo_themselves_and_frames_say_their_length() {
    let mask = [1, 2, 3, 4];
    let masked = ws::unmask(b"hello", &mask);
    assert_ne!(masked, b"hello".to_vec());
    assert_eq!(ws::unmask(&masked, &mask), b"hello".to_vec());
    for n in [0usize, 125, 126, 65_535, 65_536] {
        let f = ws::frame(2, &vec![7u8; n]);
        let mut h = ws::frame_head(f[0], f[1]);
        assert!(h.fin && !h.masked);
        assert_eq!(
            ws::frame_size(h, &f[2..2 + ws::length_bytes(h)]),
            Err("client frames must be masked".to_string())
        );
        h.masked = true;
        let ext = ws::length_bytes(h);
        assert_eq!(ws::frame_size(h, &f[2..2 + ext]), Ok(n));
        assert_eq!(f.len(), 2 + ext + n);
    }
}

#[test]
fn fragments_are_put_together() {
    let mut a = Assembly::new();
    assert!(matches!(a.on_frame(1, b"he".to_vec(), false), Step::Wait));
    match a.on_frame(0, b"llo".to_vec(), true) {
        Step::Message(m) => assert_eq!(m, b"hello".to_vec()),
        _ => panic!("a message was due"),
    }
    assert!(matches!(a.on_frame(9, b"x".to_vec(), true), Step::Pong(_)));
    assert!(matches!(a.on_frame(8, Vec::new(), true), Step::Close));
}

// ---------------------------------------------------------------- terminal

#[test]
fn log_lines_are_exact() {
    assert_eq!(log::num(0), "0");
    assert_eq!(log::num(999), "999");
    assert_eq!(log::num(1_402_331), "1,402,331");
    assert_eq!(log::short("0123456789"), "0123456789");
    assert_eq!(log::short("0123456789a"), "01234567..789a");
    assert_eq!(log::stamp(0, 0), "01-01|00:00:00.000");
    assert_eq!(log::stamp(951_782_400, 7), "02-29|00:00:00.007");
    assert_eq!(log::stamp(1_735_689_599, 999), "12-31|23:59:59.999");
    assert_eq!(
        log::line(
            log::Level::Info,
            "08-19|01:23:45.123",
            "Sealed new block",
            &[("number", "7".to_string()), ("txs", "3".to_string())],
            true
        ),
        "INFO  [08-19|01:23:45.123] Sealed new block                       number=7 txs=3"
    );
    assert_eq!(
        log::line(log::Level::Warn, "s", "m", &[], true),
        "WARN  [s] m"
    );
}

#[test]
fn the_heartbeat_names_the_phase() {
    let mut b = ui::Beat {
        height: 50,
        target: 100,
        peers: 1,
        finalized: 0,
        staked: 0,
        validating: false,
        jailed: false,
    };
    assert_eq!(ui::phase(&b), "syncing");
    assert_eq!(ui::bar(&b), format!("{}{}", "█".repeat(9), "·".repeat(9)));
    assert!(ui::is_behind(&b));
    b.height = 100;
    assert!(ui::phase(&b).starts_with("synced"));
    b.staked = 1;
    assert_eq!(ui::phase(&b), "staked, joining active set");
    b.validating = true;
    assert!(ui::phase(&b).starts_with("VALIDATING"));
    b.peers = 0;
    assert_eq!(ui::phase(&b), "waiting for peers");
    b.jailed = true;
    assert!(ui::phase(&b).starts_with("JAILED"));
    assert_eq!(ui::human_eta(0), "done");
    assert_eq!(ui::human_eta(59), "59s");
    assert_eq!(ui::human_eta(125), "2m05s");
    assert_eq!(ui::human_eta(7_260), "2h01m");
    assert_eq!(ui::human_eta(90_000), "1d01h");
    let (node, kp) = net();
    let beat = ui::beat(&node, &kp.address(), 2, 0);
    assert!(beat.validating && !beat.jailed);
    assert_eq!(ui::role(&beat), "validator");
}

// ---------------------------------------------------------------- command line

fn args(list: &[&str]) -> cli::Args {
    cli::parse_args(&list.iter().map(|s| s.to_string()).collect())
}

#[test]
fn a_switch_swallows_no_flag() {
    let a = args(&["run", "--replica", "--data", "d", "stray", "--data", "e"]);
    assert_eq!(a.cmd, "run");
    assert_eq!(a.get("replica").as_deref(), Some(""));
    assert_eq!(a.get("data").as_deref(), Some("e"));
    assert_eq!(a.get("stray"), None);
    assert_eq!(args(&[]).cmd, "help");
    assert_eq!(args(&["x", "--keep", "7"]).number_or("keep", 1), 7);
    assert_eq!(args(&["x", "--keep", "z"]).number_or("keep", 1), 1);
    let ids = format!(" {} ,short,", "AB".repeat(32));
    assert_eq!(cli::parse_peer_ids(&ids), vec!["ab".repeat(32)]);
    assert_eq!(cli::endpoint("host:1"), "http://host:1");
    assert_eq!(cli::endpoint("https://host"), "https://host");
}

#[test]
fn wallets_are_read_with_tolerance() {
    let k = "0123456789abcdef".repeat(4);
    for line in [
        format!("export INAZ_KEY='{}'", k),
        format!("INAZ_KEY={}", k),
        format!("secret key: {}\r", k.to_uppercase()),
        format!("  \"{}\"  ", k),
    ] {
        let body = format!("# comment\n{}\n", line);
        assert_eq!(cli::wallet_secret(&body), Some(k.clone()), "{}", line);
    }
    assert_eq!(cli::wallet_secret("nothing here"), None);
    let kp = key();
    assert_eq!(cli::wallet_secret(&cli::wallet_body(&kp)), Some(kp.secret_hex()));
}

#[test]
fn drafts_become_signed_transactions() {
    let kp = key();
    let own = kp.address();
    let a = args(&["send", "--to", "bob", "--amount", "1.5", "--fee", "0.1"]);
    let d = cli::draft_move(&a, &own).unwrap();
    assert_eq!((d.amount, d.fee), (1_500_000_000, 100_000_000));
    let tx = cli::sign_draft(&kp, d, 3, CHAIN_ID);
    assert!(tx.verify_signature());
    assert_eq!((tx.nonce, tx.to.as_str()), (3, "bob"));
    assert_eq!(
        cli::draft_move(&args(&["send", "--amount", "1"]), &own).err(),
        Some("--to required".to_string())
    );
    assert_eq!(
        cli::draft_move(&args(&["stake"]), &own).err(),
        Some("--amount required".to_string())
    );
    assert_eq!(
        cli::draft_exit(0, &own).err(),
        Some("nothing staked on this account".to_string())
    );
    let c = args(&["token-create", "--symbol", "abc", "--supply", "2", "--decimals", "3"]);
    let d = cli::draft_token_create(&c, &own).unwrap();
    assert_eq!(d.amount, 2_000);
    assert_eq!(d.payload.unwrap().symbol, "ABC");
    let m = args(&["token-burn", "--token", "t", "--amount", "1"]);
    let d = cli::draft_token_move(&m, &own, 2).unwrap();
    assert_eq!((d.kind, d.amount, d.to), (TxKind::BurnToken, 100, own.clone()));
    let d = cli::draft_contract(&args(&["deploy"]), &own, Some(vec![1, 2])).unwrap();
    assert_eq!(d.payload.unwrap().code, "0102");
    assert_eq!(
        cli::draft_contract(&args(&["call"]), &own, None).err(),
        Some("--contract ADDR required".to_string())
    );
    assert_eq!(cli::account_nonce(b"{\"result\":{\"nonce\":4}}"), 4);
    assert_eq!(
        cli::account_nonce(b"{\"result\":{\"nonce\":4,\"pendingNonce\":6}}"),
        6
    );
    assert_eq!(cli::account_stake(b"{\"result\":{\"staked\":\"12\"}}"), 12);
}

#[test]
fn a_jail_that_is_over_is_left() {
    let (mut node, kp) = net();
    assert!(cli::self_unjail(&node).is_none());
    let mut a = node.store.account(&kp.address());
    a.penalties.jailed_until = 1;
    node.store.set_account(&kp.address(), &a);
    let tx = cli::self_unjail(&node).unwrap();
    assert!(tx.verify_signature());
    assert_eq!(tx.kind, TxKind::Unjail);
    assert!(node.accept_tx(tx).is_ok());
}

// ---------------------------------------------------------------- tokens and joining

#[test]
fn a_fixed_supply_is_what_is_held() {
    let mut st = store();
    let (a, b) = (key().address(), key().address());
    let p = Payload {
        symbol: "FIX".into(),
        name: "Fixed".into(),
        decimals: 0,
        mintable: false,
        ..Payload::default()
    };
    let id = tokens::apply_create(&mut st, &a, 0, 1_000, 1, &Some(p)).unwrap();
    let t = Some(Payload {
        token: id.clone(),
        ..Payload::default()
    });
    let circulates = |st: &Store| {
        let held: u128 = st.token_holders(&id, 10).iter().map(|h| h.1).sum();
        let token = st.token(&id).unwrap();
        assert_eq!(held, token.supply);
        assert_eq!(token.holders as usize, st.token_holders(&id, 10).len());
        token.supply
    };
    assert_eq!(circulates(&st), 1_000);
    assert_eq!(
        tokens::check_mint(&st, &a, &b, 1, &t),
        Err("token supply is fixed".to_string())
    );
    assert_eq!(
        tokens::apply_mint(&mut st, &a, &b, 1, &t),
        Err("not allowed to mint this token".to_string())
    );
    tokens::apply_token_transfer(&mut st, &a, &b, 400, &t).unwrap();
    assert_eq!(circulates(&st), 1_000);
    tokens::apply_burn(&mut st, &b, 400, &t).unwrap();
    assert_eq!(circulates(&st), 600);
    assert!(tokens::apply_burn(&mut st, &b, 1, &t).is_err());
    assert_eq!(circulates(&st), 600);
}

#[test]
fn a_stake_enters_the_set() {
    let (mut node, kp) = net();
    let other = key();
    node.accept_tx(transfer(&kp, &other.address(), 2_000 * RAI_PER_INAZ, 0))
        .unwrap();
    node.produce_block().unwrap();
    assert_eq!(node.validators().len(), 1);
    let own = other.address();
    let short = signed(TxKind::Stake, &other, &own, MIN_STAKE - 1, MIN_FEE, 0);
    let now = inazuma::chain::now_ms();
    node.accept_tx(short).unwrap();
    node.produce_block_at(now + 1_000).unwrap();
    assert_eq!(node.validators().len(), 1);
    let rest = signed(TxKind::Stake, &other, &own, 1, MIN_FEE, 1);
    node.accept_tx(rest).unwrap();
    node.produce_block_at(now + 2_000).unwrap();
    assert!(node.validators().iter().any(|v| v.address == own));
}
