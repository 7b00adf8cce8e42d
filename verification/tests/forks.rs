//! Two nodes under one key: what is caught, which chain is followed, and how it is replayed.

use inazuma::chain::{now_ms, Node};
use inazuma::consensus::{vote_bytes, Vote};
use inazuma::crypto::Keypair;
use inazuma::p2p::{
    can_replay, claim_height, handle_msg, peer_block, plan_pull, serve_blocks, should_adopt,
    should_replay, take_blocks, verify_peer_claim, Gossip, Msg, Pull, Replay, ReplayStep,
    COST_BAD_BLOCK, RESET_COOLDOWN_SECS,
};
use inazuma::slashing;
use inazuma::slashing::Evidence;
use inazuma::state::Store;
use inazuma::types::{
    Block, ChainParams, Genesis, GenesisAlloc, CHAIN_ID, SLASHING_ACTIVATION_HEIGHT,
};
use inazuma::ws::{timed_out, IDLE_TIMEOUT_MS};

fn node(secret: &str) -> Node {
    let kp = Keypair::from_secret_hex(secret).unwrap();
    let genesis = Genesis {
        chain_id: CHAIN_ID,
        chain_name: "Inazuma".into(),
        symbol: "INAZ".into(),
        decimals: 9,
        block_time_ms: 400,
        alloc: vec![GenesisAlloc {
            address: kp.address(),
            balance: "1000000".into(),
            stake: Some("10000".into()),
        }],
        slashing_activation_height: None,
    };
    let params = ChainParams {
        slashing_activation: SLASHING_ACTIVATION_HEIGHT,
    };
    let mut n = Node::new(Store::new(params, u64::MAX), genesis, kp);
    n.set_solo(true);
    n.init_genesis().unwrap();
    n
}

/// Two nodes with one key and one genesis.
fn twins() -> (Node, Node) {
    let secret = Keypair::generate().unwrap().secret_hex();
    (node(&secret), node(&secret))
}

fn seal(n: &mut Node, now: u128) -> Block {
    n.produce_block_at(now).unwrap().unwrap()
}

#[test]
fn a_double_sign_is_caught() {
    let (mut a, mut b) = twins();
    let now = now_ms();
    let ours = seal(&mut a, now);
    let other = seal(&mut b, now + 1);
    assert_eq!(ours.height, other.height);
    assert_ne!(ours.hash, other.hash);
    let e = a.detect_double_sign(&other).unwrap();
    assert_eq!(e.verify(), Ok(a.producer.address()));
    assert!(a.detect_double_sign(&ours).is_none());

    // The proof goes out to every peer, and the block itself changes nothing.
    let root = a.store.state_root();
    let r = handle_msg(&mut a, Msg::Block(other), now + 2);
    assert!(matches!(r.gossip.first(), Some(Gossip::Evidence(_))));
    assert_eq!(a.store.state_root(), root);
    assert_eq!(a.store.tip_hash(), ours.hash);
}

#[test]
fn a_halted_node_blames_nobody() {
    let (mut a, mut b) = twins();
    let now = now_ms();
    let first = seal(&mut a, now);
    assert_eq!(b.import_block_at(&first, now), Ok(true));
    let second = seal(&mut a, now + 1);
    b.halt("maintenance");
    assert_eq!(b.import_block_at(&first, now + 1), Ok(false));
    assert_eq!(
        b.import_block_at(&second, now + 1),
        Err("node is halted".to_string())
    );
    for block in [first, second.clone()] {
        assert_eq!(handle_msg(&mut b, Msg::Block(block), now + 2).penalty, 0);
    }
    // Running again, the node takes the block, and holds a bad one against its sender.
    b.resume();
    let mut bad = second.clone();
    bad.state_root = "00".into();
    assert_eq!(
        handle_msg(&mut b, Msg::Block(bad), now + 2).penalty,
        COST_BAD_BLOCK
    );
    assert_eq!(b.import_block_at(&second, now + 2), Ok(true));
}

#[test]
fn a_report_carries_its_evidence() {
    let (mut a, mut b) = twins();
    let now = now_ms();
    seal(&mut a, now);
    let other = seal(&mut b, now + 1);
    let e = a.detect_double_sign(&other).unwrap();
    let payload = Some(slashing::encode(&e));
    let back = slashing::decode(&payload).unwrap();
    assert_eq!(back.id(), e.id());
    assert_eq!(back.height(), e.height());
    assert_eq!(back.verify(), e.verify());
    // Whatever the texts hold, they are read back.
    let odd = Evidence::Vote {
        a: Vote {
            height: u64::MAX,
            hash: "a\"b\\c/d~e\u{1}".into(),
            voter_pubkey: "\n{}[]:,".into(),
            signature: String::new(),
        },
        b: Vote {
            height: 0,
            hash: "é\u{10FFFF}".into(),
            voter_pubkey: "x".into(),
            signature: "y".into(),
        },
    };
    let raw = slashing::write_evidence(&odd).into_bytes();
    match slashing::read_evidence(&raw).unwrap() {
        Evidence::Vote { a: x, b: y } => {
            assert_eq!((x.height, y.height), (u64::MAX, 0));
            assert_eq!(x.hash, "a\"b\\c/d~e\u{1}");
            assert_eq!(x.voter_pubkey, "\n{}[]:,");
            assert_eq!(y.hash, "é\u{10FFFF}");
            assert_eq!((y.voter_pubkey.as_str(), y.signature.as_str()), ("x", "y"));
        }
        Evidence::Block { .. } => panic!("wrong kind"),
    }
    let tx = a.report_tx(&e).unwrap();
    assert!(tx.verify_signature());
    assert_eq!(slashing::decode(&tx.payload).unwrap().id(), e.id());
    assert_eq!(a.report_tx(&odd).err(), odd.verify().err());
}

#[test]
fn votes_do_not_pass_for_blocks() {
    let (a, _) = twins();
    let bytes = vote_bytes(7, "ab");
    let v = Vote {
        height: 7,
        hash: "ab".into(),
        voter_pubkey: a.producer.pubkey_hex(),
        signature: a.producer.sign_hex(&bytes),
    };
    assert!(v.verify_signature());
    assert_eq!(v.voter(), Some(a.producer.address()));
    let moved = Vote {
        height: 8,
        hash: "ab".into(),
        voter_pubkey: a.producer.pubkey_hex(),
        signature: a.producer.sign_hex(&bytes),
    };
    assert!(!moved.verify_signature());
}

#[test]
fn fork_choice_is_decisive() {
    let (mut a, mut b) = twins();
    let now = now_ms();
    let x = seal(&mut a, now);
    let y = seal(&mut b, now + 1);
    // At equal length both sides pick the same branch.
    assert_eq!(should_adopt(&a, &y, 1), y.hash < x.hash);
    assert_eq!(should_adopt(&b, &x, 1), x.hash < y.hash);
    assert_ne!(should_adopt(&a, &y, 1), should_adopt(&b, &x, 1));
    // The longer chain wins, the shorter one never does.
    assert!(should_adopt(&a, &y, 2));
    assert!(!should_adopt(&a, &y, 0));

    let e = "parent hash mismatch";
    let long_ago = RESET_COOLDOWN_SECS + 1;
    assert!(should_replay(&a, e, &y, 2, 0, long_ago));
    assert!(!should_replay(&a, e, &y, 2, 0, RESET_COOLDOWN_SECS));
    assert!(!should_replay(&a, "bad state root", &y, 2, 0, long_ago));
    assert!(!should_replay(&a, e, &y, 0, 0, long_ago));
}

#[test]
fn claims_need_a_signed_tip_and_our_history() {
    let (mut a, mut b) = twins();
    let now = now_ms();
    seal(&mut a, now);
    let y1 = seal(&mut b, now + 1);
    let y2 = seal(&mut b, now + 1_000);

    let unserved: Vec<Block> = Vec::new();
    assert!(peer_block(&unserved, 2).is_none());
    assert_eq!(
        verify_peer_claim(&a.store, 2, None, None),
        Err("peer cannot serve its own claimed tip".to_string())
    );
    assert_eq!(
        verify_peer_claim(&a.store, 3, Some(&y2), None),
        Err("peer served the wrong height".to_string())
    );
    // Nothing is final here yet, so a signed tip is enough.
    assert_eq!(claim_height(&a.store), 0);
    assert_eq!(verify_peer_claim(&a.store, 2, Some(&y2), None), Ok(()));
    // Finality outranks length.
    a.store.set_finalized_height(1);
    assert_eq!(claim_height(&a.store), 1);
    assert_eq!(
        verify_peer_claim(&a.store, 2, Some(&y2), None),
        Err("peer cannot serve our finalized height".to_string())
    );
    let e = verify_peer_claim(&a.store, 2, Some(&y2), Some(&y1)).unwrap_err();
    assert!(e.starts_with("peer chain diverges below finalized height 1 (ours "));
    // A tip with another signature or hash is no tip.
    let mut forged = b.store.block(2).unwrap();
    forged.hash = y1.hash.clone();
    assert_eq!(
        verify_peer_claim(&a.store, 2, Some(&forged), None),
        Err("peer tip hash does not match its header".to_string())
    );
    let mut unsigned = b.store.block(2).unwrap();
    unsigned.signature = y1.signature.clone();
    unsigned.hash = unsigned.compute_hash();
    assert_eq!(
        verify_peer_claim(&a.store, 2, Some(&unsigned), None),
        Err("peer tip carries no valid producer signature".to_string())
    );
}

#[test]
fn a_replay_ends_at_the_peers_tip() {
    let (mut a, mut b) = twins();
    let now = now_ms();
    seal(&mut a, now);
    for i in 1..4u128 {
        seal(&mut b, now + i * 1_000);
    }
    assert!(can_replay(0) && can_replay(1) && !can_replay(2));
    a.reset_to_genesis_at(2, now + 4_000).unwrap();
    let mut replay = Replay::new(2);
    assert!(matches!(replay.wants(), ReplayStep::Fetch(1)));
    let first = serve_blocks(&b.store, 1, 2);
    assert_eq!(first.len(), 2);
    assert!(matches!(
        replay.on_blocks(&mut a, &first, now + 4_000),
        ReplayStep::Finished
    ));
    assert_eq!(a.store.tip_height(), Some(2));
    // The peer went on meanwhile.
    assert!(matches!(replay.on_height(Some(3)), ReplayStep::Fetch(3)));
    let rest = serve_blocks(&b.store, 3, 200);
    assert!(matches!(
        replay.on_blocks(&mut a, &rest, now + 4_000),
        ReplayStep::Finished
    ));
    assert_eq!(a.store.tip_hash(), b.store.tip_hash());
    assert_eq!(a.store.state_root(), b.store.state_root());
    assert!(matches!(replay.on_height(None), ReplayStep::Finished));
    let none: Vec<Block> = Vec::new();
    assert!(matches!(
        replay.on_blocks(&mut a, &none, now + 4_000),
        ReplayStep::AskHeight
    ));
}

#[test]
fn a_batch_stops_at_the_first_block_that_does_not_fit() {
    let (mut a, mut b) = twins();
    let now = now_ms();
    for i in 0..3u128 {
        seal(&mut b, now + i * 1_000);
    }
    assert_eq!(plan_pull(0, 3, 0), Pull::From(1));
    let mut blocks = serve_blocks(&b.store, 1, 200);
    blocks[1].state_root = "00".into();
    let (_, stop) = take_blocks(&mut a, &blocks, now + 4_000);
    let (at, _) = stop.unwrap();
    assert_eq!(at, 1);
    assert_eq!(a.store.tip_height(), Some(1));

    // A bad block at a height that can be judged costs its sender.
    let bad = blocks.remove(1);
    let r = handle_msg(&mut a, Msg::Block(bad), now + 4_000);
    assert_eq!(r.penalty, COST_BAD_BLOCK);
    assert!(!r.sync);
    // A block from further on only shows a gap.
    let far = blocks.pop().unwrap();
    let r = handle_msg(&mut a, Msg::Block(far), now + 4_000);
    assert_eq!(r.penalty, 0);
    assert!(r.sync);
}

#[test]
fn idle_sockets_time_out() {
    assert!(!timed_out(1_000, 1_000 + IDLE_TIMEOUT_MS));
    assert!(timed_out(1_000, 1_001 + IDLE_TIMEOUT_MS));
    assert!(!timed_out(2_000, 1_000));
}
