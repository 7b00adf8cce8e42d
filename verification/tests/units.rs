//! Each module on its own.

use inazuma::consensus::Vote;
use inazuma::crypto::Keypair;
use inazuma::events::{
    Channel, Delivery, Event, EventBus, Notice, Topic, MAX_LAG_STRIKES, QUEUE_DEPTH,
};
use inazuma::journal::{tree_get, tree_put, Cell, Journal, Tree};
use inazuma::limits::TOKEN;
use inazuma::metrics;
use inazuma::poseidon::{
    fr_from_hex, fr_to_hex, fr_u64, generate_params, hash2, params, Fr, PoseidonParams,
};
use inazuma::qos::StakeQos;
use inazuma::rpcauth::{method_cost, RpcConfig, Tier, ACCOUNT_TX_BURST, ANON_BURST};
use inazuma::shielded::{
    merkle_path, note_commitment, nullifier, root_from_leaves, verify_path, zero_subtree_root,
    NoteTree, TREE_DEPTH,
};
use inazuma::slashing::{equivocation_burn_pct, Evidence, HeaderProof};
use inazuma::smt::{verify_proof, Smt};
use inazuma::types::{txs_root, Block, Payload, Transaction, TxKind, CHAIN_ID, MIN_FEE};
use inazuma::ws::{accept_key, b64, sha1};

fn key() -> Keypair {
    Keypair::generate().unwrap()
}

// ---------------------------------------------------------------- events

fn head(height: u64) -> Event {
    Event::new(
        Topic::Heads,
        None,
        Notice::Finalized {
            finalized_height: 0,
            height,
        },
    )
}

fn signature(hash: String) -> Event {
    Event::new(
        Topic::Signature,
        Some(hash),
        Notice::Finalized {
            finalized_height: 0,
            height: 0,
        },
    )
}

#[test]
fn routes_only_matching_events() {
    let mut bus = EventBus::new();
    let id = bus.subscribe(1, Channel::Heads).unwrap();
    bus.publish(head(7));
    bus.publish(Event::new(
        Topic::Mempool,
        None,
        Notice::Finalized {
            finalized_height: 0,
            height: 8,
        },
    ));
    let got = bus.drain();
    assert_eq!(got.len(), 1, "unrelated channel leaked through");
    assert_eq!(got[0].0, id);
    assert!(matches!(got[0].1.payload, Notice::Finalized { height: 7, .. }));
    assert!(bus.unsubscribe(1, id));
    assert!(!bus.unsubscribe(1, id));
}

#[test]
fn filters_are_enforced_and_scoped_per_connection() {
    assert!(Channel::parse("account", None, None, None).is_err());
    assert!(Channel::parse("signature", Some("zz"), None, None).is_err());
    assert!(Channel::parse("nope", None, None, None).is_err());

    let mut bus = EventBus::new();
    let id = bus
        .subscribe(1, Channel::Signature("ab".repeat(32)))
        .unwrap();
    assert!(!bus.unsubscribe(2, id));
    bus.publish(signature("cd".repeat(32)));
    assert!(bus.drain().is_empty());
    bus.publish(signature("ab".repeat(32)));
    assert_eq!(bus.drain().len(), 1);
    bus.drop_conn(1);
    assert!(bus.is_empty());
}

#[test]
fn slow_consumer_is_dropped_not_tolerated_forever() {
    let mut bus = EventBus::new();
    bus.subscribe(1, Channel::Heads).unwrap();
    let mut queued = 0usize;
    for i in 0..(QUEUE_DEPTH + MAX_LAG_STRIKES as usize + 8) {
        bus.publish(head(i as u64));
        for (id, _) in bus.drain() {
            if queued < QUEUE_DEPTH {
                queued += 1;
                bus.settle(id, Delivery::Sent);
            } else {
                bus.settle(id, Delivery::Full);
            }
        }
    }
    assert!(
        bus.is_empty(),
        "a consumer that never reads must be evicted"
    );
}

// ---------------------------------------------------------------- journal

fn put(t: &mut Tree, key: &[u8], value: &[u8]) {
    tree_put(t, key, Cell::Bytes(value.to_vec()));
}

fn get(t: &Tree, key: &[u8]) -> Option<Vec<u8>> {
    match tree_get(t, key) {
        Some(Cell::Bytes(b)) => Some(b.clone()),
        Some(_) => panic!("not bytes"),
        None => None,
    }
}

#[test]
fn inner_rollback_keeps_outer_writes() {
    let mut t = vec![Tree::new()];
    let mut j = Journal::new();

    j.begin();
    j.record(0, &t[0], b"a");
    put(&mut t[0], b"a", b"1");

    j.begin();
    j.record(0, &t[0], b"b");
    put(&mut t[0], b"b", b"2");
    j.rollback(&mut t);

    assert_eq!(get(&t[0], b"a").as_deref(), Some(&b"1"[..]));
    assert_eq!(
        get(&t[0], b"b"),
        None,
        "failed tx must leave nothing behind"
    );

    j.commit();
    assert_eq!(get(&t[0], b"a").as_deref(), Some(&b"1"[..]));
}

#[test]
fn outer_rollback_undoes_committed_inner_writes() {
    let mut t = vec![Tree::new()];
    put(&mut t[0], b"a", b"old");
    let mut j = Journal::new();

    j.begin();
    j.begin();
    j.record(0, &t[0], b"a");
    put(&mut t[0], b"a", b"new");
    j.commit();
    j.rollback(&mut t);

    assert_eq!(get(&t[0], b"a").as_deref(), Some(&b"old"[..]));
}

#[test]
fn writes_outside_any_frame_pass_through() {
    let mut t = vec![Tree::new()];
    let mut j = Journal::new();
    assert!(!j.active());
    j.record(0, &t[0], b"a");
    put(&mut t[0], b"a", b"1");
    j.rollback(&mut t);
    assert_eq!(get(&t[0], b"a").as_deref(), Some(&b"1"[..]));
}

// ---------------------------------------------------------------- metrics

#[test]
fn help_and_type_precede_every_sample() {
    let mut s = String::new();
    metrics::line(&mut s, "x_total", "help text", "counter", "3".into());
    assert_eq!(
        s,
        "# HELP x_total help text\n# TYPE x_total counter\nx_total 3\n"
    );
}

// ---------------------------------------------------------------- poseidon

fn hexes(p: &PoseidonParams) -> (Vec<String>, Vec<Vec<String>>) {
    (
        p.ark.iter().map(fr_to_hex).collect(),
        p.mds
            .iter()
            .map(|row| row.iter().map(fr_to_hex).collect())
            .collect(),
    )
}

#[test]
fn params_are_deterministic() {
    let a = hexes(&params());
    let b = hexes(&generate_params());
    assert_eq!(a.0, b.0);
    assert_eq!(a.1, b.1);
    assert_eq!(a.0.len(), 195);
}

#[test]
fn hash2_is_deterministic_and_avalanches() {
    let p = params();
    let h1 = hash2(&p, fr_u64(1), fr_u64(2));
    let h2 = hash2(&p, fr_u64(1), fr_u64(2));
    let h3 = hash2(&p, fr_u64(1), fr_u64(3));
    assert!(h1.same(h2));
    assert!(!h1.same(h3));
    assert!(!h1.same(fr_u64(0)));
}

#[test]
fn hex_roundtrip() {
    let f = hash2(&params(), fr_u64(42), fr_u64(7));
    let s = fr_to_hex(&f);
    assert!(fr_from_hex(&s).unwrap().same(f));
}

#[test]
fn zero_root_is_stable() {
    let z = hash2(&params(), fr_u64(0), fr_u64(0));
    assert_eq!(fr_to_hex(&z).len(), 64);
}

#[test]
fn field_arithmetic_is_that_of_the_curve() {
    let seven = fr_u64(7);
    assert!(seven.plus(fr_u64(5)).same(fr_u64(12)));
    assert!(seven.times(fr_u64(6)).same(fr_u64(42)));
    assert!(fr_u64(3).pow5().same(fr_u64(243)));
    assert!(seven.times(seven.inverse_or_zero()).same(fr_u64(1)));
    assert!(fr_u64(0).inverse_or_zero().same(fr_u64(0)));
    // The modulus reads as zero, and one more as one.
    let r = "30644e72e131a029b85045b68181585d2833e84879b9709143e1f593f0000001";
    let one = "30644e72e131a029b85045b68181585d2833e84879b9709143e1f593f0000002";
    assert!(fr_from_hex(r).map_or(true, |f| f.same(fr_u64(0))));
    assert!(fr_from_hex(one).map_or(true, |f| f.same(fr_u64(1))));
}

// ---------------------------------------------------------------- service tiers

#[test]
fn only_well_formed_bindings_are_accepted() {
    let qos = StakeQos::new(vec![
        "short:abc".into(),
        "key-0123456789abcdef:not-an-address".into(),
        "no-separator".into(),
    ]);
    assert!(
        qos.is_empty(),
        "a malformed binding must never grant priority"
    );
}

#[test]
fn unbound_keys_get_the_base_budget() {
    let qos = StakeQos::new(Vec::new());
    assert_eq!(qos.len(), 0);
    assert!(qos.address_for("anything").is_none());
}

#[test]
fn tiers_and_auth_gate() {
    let cfg = RpcConfig::new(
        vec!["user-key-0123456789abcdef".into()],
        vec!["admin-key-0123456789abcdef".into()],
        true,
        false,
    );
    assert!(cfg.require_auth);
    assert_eq!(cfg.tier_for(None), Tier::Anonymous);
    assert_eq!(cfg.tier_for(Some("nope")), Tier::Anonymous);
    assert_eq!(cfg.tier_for(Some("user-key-0123456789abcdef")), Tier::Key);
    assert_eq!(
        cfg.tier_for(Some("admin-key-0123456789abcdef")),
        Tier::Admin
    );

    assert!(!RpcConfig::new(vec![], vec![], true, false).require_auth);
}

#[test]
fn anon_burst_is_bounded_and_batches_cost_more() {
    let mut cfg = RpcConfig::public();
    let ip = "203.0.113.7";
    let mut allowed = 0;
    for _ in 0..(ANON_BURST as usize + 50) {
        if cfg.charge(ip, Tier::Anonymous, None, TOKEN, 0) {
            allowed += 1;
        }
    }
    assert!(
        allowed <= ANON_BURST as usize + 2,
        "anon flood not bounded: {}",
        allowed
    );

    assert!(method_cost("inaz_sendTransactions", Some(5_000)) >= 100 * TOKEN);
    assert_eq!(method_cost("inaz_blockNumber", None), TOKEN);
}

#[test]
fn account_throttle_stops_mempool_flood() {
    let mut cfg = RpcConfig::public();
    assert!(cfg.charge_account("abc", ACCOUNT_TX_BURST as usize, 0));
    assert!(!cfg.charge_account("abc", ACCOUNT_TX_BURST as usize, 0));
    assert!(cfg.charge_account("def", 1, 0));
}

// ---------------------------------------------------------------- notes

#[test]
fn tree_path_roundtrip() {
    let tree = NoteTree::new();
    let p = tree.params();
    let leaves: Vec<Fr> = (1..=5u64).map(fr_u64).collect();
    let root = root_from_leaves(&tree, &leaves);
    for pos in 0..leaves.len() {
        let path = merkle_path(&tree, &leaves, pos).unwrap();
        assert_eq!(path.len(), TREE_DEPTH);
        assert!(verify_path(p, leaves[pos], pos as u64, &path, root));
    }
    let path = merkle_path(&tree, &leaves, 0).unwrap();
    assert!(!verify_path(p, leaves[0], 1, &path, root));
}

#[test]
fn zero_roots_are_stable() {
    let p = params();
    let r0 = zero_subtree_root(&p, 0);
    let r1 = zero_subtree_root(&p, 1);
    let r32 = zero_subtree_root(&p, 32);
    assert!(r0.same(fr_u64(0)));
    assert!(!r1.same(r0));
    assert!(!r32.same(r1));
    assert!(r32.same(zero_subtree_root(&p, 32)));
}

#[test]
fn commitments_hide_values() {
    let p = params();
    let owner = fr_u64(7);
    let rho = fr_u64(9);
    let a = note_commitment(&p, owner, 100, rho);
    let b = note_commitment(&p, owner, 101, rho);
    assert!(!a.same(b));
}

#[test]
fn nullifiers_bind_position() {
    let p = params();
    let sk = fr_u64(5);
    assert!(!nullifier(&p, sk, 0).same(nullifier(&p, sk, 1)));
}

// ---------------------------------------------------------------- slashing

fn signed_header(kp: &Keypair, height: u64, state_root: &str) -> HeaderProof {
    let mut b = Block {
        height,
        parent_hash: "a".repeat(64),
        timestamp_ms: 1,
        state_root: state_root.to_string(),
        txs_root: txs_root(&Vec::new()),
        producer: kp.address(),
        producer_pubkey: kp.pubkey_hex(),
        transactions: Vec::new(),
        signature: String::new(),
        hash: String::new(),
    };
    b.signature = kp.sign_hex(&b.header_bytes());
    b.hash = b.compute_hash();
    HeaderProof::from_block(&b)
}

#[test]
fn double_sign_is_provable() {
    let kp = key();
    let a = signed_header(&kp, 10, "aa");
    let b = signed_header(&kp, 10, "bb");
    let evidence = Evidence::Block { a, b };
    assert_eq!(evidence.verify().unwrap(), kp.address());
}

#[test]
fn same_block_twice_is_not_evidence() {
    let kp = key();
    let a = signed_header(&kp, 10, "aa");
    let evidence = Evidence::Block { a: a.clone(), b: a };
    assert!(evidence.verify().is_err());
}

#[test]
fn forged_header_is_rejected() {
    let kp = key();
    let mut a = signed_header(&kp, 10, "aa");
    let b = signed_header(&kp, 10, "bb");
    a.state_root = "cc".into();
    let evidence = Evidence::Block { a, b };
    assert!(evidence.verify().is_err());
}

#[test]
fn double_vote_is_provable() {
    let kp = key();
    let mut a = Vote {
        height: 7,
        hash: "one".into(),
        voter_pubkey: kp.pubkey_hex(),
        signature: String::new(),
    };
    a.signature = kp.sign_hex(&a.signing_bytes());
    let mut b = Vote {
        height: 7,
        hash: "two".into(),
        voter_pubkey: kp.pubkey_hex(),
        signature: String::new(),
    };
    b.signature = kp.sign_hex(&b.signing_bytes());
    let evidence = Evidence::Vote { a, b };
    assert_eq!(evidence.verify().unwrap(), kp.address());
}

#[test]
fn burn_is_correlated_with_stake_share() {
    assert_eq!(equivocation_burn_pct(1_000, 100_000), 5);
    assert_eq!(equivocation_burn_pct(40_000, 100_000), 100);
    assert_eq!(equivocation_burn_pct(10_000, 100_000), 30);
}

// ---------------------------------------------------------------- Merkle tree

#[test]
fn proof_roundtrip() {
    let mut smt = Smt::new();
    smt.set("acct", b"alice", Some(b"100|0|0|0|0"));
    smt.set("acct", b"bob", Some(b"7|1|0|0|0"));
    let root = smt.root_hex();

    let (_lk, sibs, bm) = smt.prove("acct", b"alice");
    assert!(verify_proof(&root, "acct", b"alice", Some(b"100|0|0|0|0"), &sibs, &bm));
    assert!(!verify_proof(&root, "acct", b"alice", Some(b"999|0|0|0|0"), &sibs, &bm));

    let (_lk, sibs, bm) = smt.prove("acct", b"carol");
    assert!(verify_proof(&root, "acct", b"carol", None, &sibs, &bm));
}

// ---------------------------------------------------------------- signing

fn tx(to: &str, payload: Option<Payload>) -> Transaction {
    Transaction {
        kind: TxKind::Transfer,
        from_pubkey: "ab".repeat(32),
        to: to.to_string(),
        amount: 1,
        fee: MIN_FEE,
        nonce: 0,
        chain_id: CHAIN_ID,
        payload,
        signature: String::new(),
        shielded: None,
    }
}

#[test]
fn delimiter_injection_is_refused() {
    let a = tx("alice|1|2", None);
    let b = tx("alice", None);
    assert!(!a.fields_unambiguous());
    assert!(b.fields_unambiguous());
    assert!(!a.verify_signature());
}

#[test]
fn payload_fields_are_checked_too() {
    let mut p = Payload::default();
    p.symbol = "IN|AZ".into();
    assert!(!tx("alice", Some(p)).fields_unambiguous());
}

#[test]
fn distinct_txs_never_share_signing_bytes() {
    let a = tx("alice", None);
    let mut b = tx("alice", None);
    b.nonce = 1;
    assert_ne!(a.signing_bytes(), b.signing_bytes());
}

// ---------------------------------------------------------------- sockets

#[test]
fn handshake_accept_matches_the_spec_example() {
    let accept = b64(&sha1(
        format!(
            "{}{}",
            "dGhlIHNhbXBsZSBub25jZQ==", "258EAFA5-E914-47DA-95CA-C5AB0DC85B11"
        )
        .as_bytes(),
    ));
    assert_eq!(accept, "s3pPLMBiTxaQ9kYGzzhZRbK+xOo=");
    assert_eq!(accept_key("dGhlIHNhbXBsZSBub25jZQ=="), accept);
}

#[test]
fn base64_pads_correctly() {
    assert_eq!(b64(b"f"), "Zg==");
    assert_eq!(b64(b"fo"), "Zm8=");
    assert_eq!(b64(b"foo"), "Zm9v");
}

#[test]
fn a_drawn_seed_is_the_key() {
    let kp = Keypair::drawn(Some([7u8; 32])).unwrap();
    assert_eq!(kp.secret_hex(), "07".repeat(32));
    assert!(Keypair::drawn(None).is_none());
    let fresh = Keypair::generate().unwrap();
    assert_ne!(fresh.address(), Keypair::generate().unwrap().address());
}
