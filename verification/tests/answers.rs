//! Answers to calls, replies and files read by the operator's commands, pruning, and the
//! adversarial harness.

use inazuma::answers::{answer, Answer, Batch, Body, Caller};
use inazuma::apply;
use inazuma::byzantine;
use inazuma::byzantine::Mode;
use inazuma::chain::Node;
use inazuma::cli;
use inazuma::crypto::Keypair;
use inazuma::p2p;
use inazuma::p2p::{Kind, P2p, MAX_SYNC_BATCH};
use inazuma::prune;
use inazuma::rpc;
use inazuma::rpc::{NetInfo, Route};
use inazuma::rpcauth::{RpcConfig, Tier};
use inazuma::simulate::preflight;
use inazuma::slashing::{Evidence, HeaderProof};
use inazuma::staking;
use inazuma::state::Store;
use inazuma::tokens;
use inazuma::types::{
    txs_root, Block, ChainParams, Genesis, GenesisAlloc, Transaction, TxKind, CHAIN_ID, MIN_FEE,
    MIN_STAKE, RAI_PER_INAZ, SLASHING_ACTIVATION_HEIGHT,
};
use inazuma::ui;

fn key() -> Keypair {
    Keypair::generate().unwrap()
}

fn copy(kp: &Keypair) -> Keypair {
    Keypair::from_secret_hex(&kp.secret_hex()).unwrap()
}

fn node_with(activation: u64) -> (Node, Keypair) {
    let kp = key();
    let user = copy(&kp);
    let genesis = Genesis {
        chain_id: CHAIN_ID,
        chain_name: "Inazuma".into(),
        symbol: "INAZ".into(),
        decimals: 9,
        block_time_ms: 400,
        alloc: vec![GenesisAlloc {
            address: kp.address(),
            balance: "1000000".into(),
            stake: Some("10000".into()),
        }],
        slashing_activation_height: Some(activation),
    };
    let store = Store::new(ChainParams { slashing_activation: activation }, u64::MAX);
    let mut node = Node::new(store, genesis, kp);
    node.set_solo(true);
    node.init_genesis().unwrap();
    (node, user)
}

fn started() -> (Node, Keypair) {
    node_with(SLASHING_ACTIVATION_HEIGHT)
}

fn transfer(kp: &Keypair, to: &str, amount: u128, nonce: u64) -> Transaction {
    let mut tx = Transaction {
        kind: TxKind::Transfer,
        from_pubkey: kp.pubkey_hex(),
        to: to.to_string(),
        amount,
        fee: MIN_FEE,
        nonce,
        chain_id: CHAIN_ID,
        payload: None,
        shielded: None,
        signature: String::new(),
    };
    tx.signature = kp.sign_hex(&tx.canonical_signing_bytes());
    tx
}

fn grow(node: &mut Node, kp: &Keypair, from: u64, blocks: u64) {
    let bob = key().address();
    for i in from..from + blocks {
        node.accept_tx(transfer(kp, &bob, 1_000, i)).unwrap();
        node.produce_block().unwrap().unwrap();
    }
}

fn header(kp: &Keypair, height: u64, root: &str) -> HeaderProof {
    let mut b = Block {
        height,
        parent_hash: "11".repeat(32),
        timestamp_ms: 1,
        state_root: root.to_string(),
        txs_root: "22".repeat(32),
        producer: kp.address(),
        producer_pubkey: kp.pubkey_hex(),
        transactions: Vec::new(),
        signature: String::new(),
        hash: String::new(),
    };
    b.signature = kp.sign_hex(&b.header_bytes());
    b.hash = b.compute_hash();
    HeaderProof {
        height: b.height,
        parent_hash: b.parent_hash,
        timestamp_ms: b.timestamp_ms,
        state_root: b.state_root,
        txs_root: b.txs_root,
        producer: b.producer,
        producer_pubkey: b.producer_pubkey,
        signature: b.signature,
        hash: b.hash,
    }
}

fn ask(node: &mut Node, route: Route, raw: &str, body: Body) -> Result<Answer, String> {
    let mut cfg = RpcConfig::public();
    let net = P2p::new("127.0.0.1:1".into(), vec!["127.0.0.1:2".into()], key());
    let who = Caller { tier: Tier::Anonymous, now: 1_000, peers: 3 };
    answer(node, &mut cfg, Some(&net), &who, raw.as_bytes(), route, body)
}

fn read(node: &mut Node, route: Route, raw: &str) -> Answer {
    match ask(node, route, raw, Body::plain()) {
        Ok(a) => a,
        Err(e) => panic!("{}", e),
    }
}

// ---------------------------------------------------------------- answers

#[test]
fn every_read_has_its_answer() {
    let (mut node, kp) = started();
    grow(&mut node, &kp, 0, 2);
    let root = node.store.state_root();
    let own = format!("{{\"params\":{{\"address\":\"{}\"}}}}", kp.address());
    let n = &mut node;
    assert!(matches!(read(n, Route::ChainInfo, "{}"), Answer::ChainInfo(i) if i.height == 2));
    assert!(matches!(read(n, Route::BlockNumber, "{}"), Answer::BlockNumber(2)));
    assert!(matches!(
        read(n, Route::FinalizedBlockNumber, "{}"),
        Answer::FinalizedBlockNumber(h) if h <= 2
    ));
    assert!(matches!(read(n, Route::Tokens, "{}"), Answer::Tokens(v) if v.is_empty()));
    assert!(matches!(read(n, Route::Contracts, "{}"), Answer::Contracts(v) if v.is_empty()));
    assert!(matches!(read(n, Route::NetInfo, "{}"), Answer::Net(NetInfo::Redacted(1))));
    assert!(matches!(read(n, Route::RpcLimits, "{}"), Answer::Limits(l) if !l.auth_enabled));
    assert!(matches!(read(n, Route::FeeMarket, "{}"), Answer::FeeMarket(f) if f.mempool == 0));
    assert!(matches!(read(n, Route::StateRoot, "{}"), Answer::StateRoots(s) if s.height == 2));
    assert!(matches!(
        read(n, Route::Finality, "{\"params\":{\"height\":1}}"),
        Answer::Finality(f) if f.height == 1
    ));
    assert!(matches!(
        read(n, Route::Account, &own),
        Answer::Account(a) if a.validator && a.pending_nonce == 2
    ));
    assert!(matches!(read(n, Route::Validators, "{}"), Answer::Validators(v) if v.set.len() == 1));
    assert!(matches!(
        read(n, Route::BlockByNumber, "{\"params\":{\"height\":1}}"),
        Answer::Block(Some(b)) if b.height == 1
    ));
    assert!(matches!(
        read(n, Route::LatestBlocks, "{\"params\":{\"limit\":2}}"),
        Answer::Blocks(v) if v.len() == 2 && v[0].height == 2
    ));
    assert!(matches!(
        read(n, Route::Transaction, "{\"params\":{\"hash\":\"00\"}}"),
        Answer::Transaction(None)
    ));
    assert!(matches!(
        read(n, Route::GetToken, "{\"params\":{\"token\":\"none\"}}"),
        Answer::Token(None)
    ));
    assert!(matches!(read(n, Route::Contract, &own), Answer::Contract(None)));
    assert!(matches!(
        read(n, Route::Receipt, "{\"params\":{\"hash\":\"00\"}}"),
        Answer::Receipt(None)
    ));
    assert!(matches!(
        read(n, Route::TokenHoldings, &own),
        Answer::TokenHoldings((a, v)) if a == kp.address() && v.is_empty()
    ));
    assert!(matches!(
        read(n, Route::SignatureStatuses, "{\"params\":{\"hashes\":[\"00\"]}}"),
        Answer::Statuses(v, _) if v.len() == 1
    ));
    assert!(matches!(read(n, Route::PriorityFee, "{}"), Answer::PriorityFee(f) if f.queued == 0));
    assert!(matches!(read(n, Route::NodeStatus, "{}"), Answer::NodeStatus(s) if !s.replica));
    assert!(matches!(read(n, Route::GetProof, &own), Answer::Proof(p) if p.height == 2));
    assert_eq!(
        ask(n, Route::TokenBalance, "{}", Body::plain()).err(),
        Some("missing token".to_string())
    );
    assert_eq!(
        ask(n, Route::VerifyProof, "{}", Body::plain()).err(),
        Some("key required".to_string())
    );
    assert_eq!(
        ask(n, Route::ContractStorage, &own, Body::plain()).err(),
        Some("missing key".to_string())
    );
    assert!(ask(n, Route::Query, &own, Body::plain()).is_err());
    // None of them changed anything.
    assert_eq!(node.store.state_root(), root);
    assert_eq!(node.store.tip_height(), Some(2));
}

#[test]
fn submissions_are_answered() {
    let (mut node, kp) = started();
    let bob = key().address();
    let tx = transfer(&kp, &bob, 1_000, 0);
    let hash = tx.hash();
    let mut body = Body::plain();
    body.tx = Ok(tx.clone());
    assert!(matches!(
        ask(&mut node, Route::SimulateTransaction, "{}", body),
        Ok(Answer::Preflight(p)) if p.ok && p.hash == hash
    ));
    assert_eq!(node.mempool_size(), 0);
    let mut body = Body::plain();
    body.tx = Ok(tx);
    assert!(matches!(
        ask(&mut node, Route::SendTransaction, "{}", body),
        Ok(Answer::Sent((h, None))) if h == hash
    ));
    assert_eq!(node.mempool_size(), 1);
    let mut body = Body::plain();
    body.tx = Err("bad tx: no".to_string());
    assert_eq!(
        ask(&mut node, Route::SendTransaction, "{}", body).err(),
        Some("bad tx: no".to_string())
    );
}

#[test]
fn bulk_calls_need_their_list() {
    let (mut node, kp) = started();
    let bob = key().address();
    assert_eq!(
        ask(&mut node, Route::SendTransactions, "{\"params\":{}}", Body::plain()).err(),
        Some("missing txs array".to_string())
    );
    let mut body = Body::plain();
    body.batch = Batch {
        txs: vec![transfer(&kp, &bob, 1_000, 0)],
        places: vec![1],
        unread: vec![(0, "bad tx: x".to_string())],
    };
    let raw = "{\"params\":{\"txs\":[{},{}]}}";
    match ask(&mut node, Route::SendTransactions, raw, body) {
        Ok(Answer::Bulk(b, queued)) => {
            assert_eq!((b.accepted, b.rejected, queued), (1, 1, 1));
            assert_eq!(b.errors, vec![(0, "bad tx: x".to_string())]);
        }
        _ => panic!("no bulk answer"),
    }
    let long = format!("{{\"params\":{{\"txs\":[{}0]}}}}", "0,".repeat(5_000));
    assert_eq!(
        ask(&mut node, Route::SendTransactions, &long, Body::plain()).err(),
        Some("batch too large (max 5000)".to_string())
    );
}

#[test]
fn evidence_is_previewed_and_reported() {
    let (mut node, kp) = started();
    grow(&mut node, &kp, 0, 3);
    let offender = key();
    let mut a = node.store.account(&offender.address());
    a.staked = 100 * MIN_STAKE;
    node.store.set_account(&offender.address(), &a);
    let ev = || Evidence::Block { a: header(&offender, 2, "aa"), b: header(&offender, 2, "bb") };
    assert_eq!(
        ask(&mut node, Route::PreviewSlash, "{\"params\":{}}", Body::plain()).err(),
        Some("missing evidence".to_string())
    );
    let raw = "{\"params\":{\"evidence\":{}}}";
    let mut body = Body::plain();
    body.evidence = Err("bad evidence: x".to_string());
    assert_eq!(
        ask(&mut node, Route::ReportEquivocation, raw, body).err(),
        Some("bad evidence: x".to_string())
    );
    let mut body = Body::plain();
    body.evidence = Ok(ev());
    let burn = match ask(&mut node, Route::PreviewSlash, raw, body) {
        Ok(Answer::Preview(p)) => {
            assert_eq!(p.offender, offender.address());
            p.burn
        }
        _ => panic!("no preview"),
    };
    let mut body = Body::plain();
    body.evidence = Ok(ev());
    assert!(matches!(
        ask(&mut node, Route::ReportEquivocation, raw, body),
        Ok(Answer::Report(r)) if r.offender == offender.address()
    ));
    // Sealed into a block, the report burns; all else of the supply is accounted for.
    let before = node.store.total_supply();
    node.produce_block().unwrap().unwrap();
    let burned: u128 = node.store.slashes().iter().map(|r| r.burned).sum();
    assert!(burned > 0 && burned <= burn);
    assert_eq!(node.store.total_supply() + burned, before + staking::BLOCK_REWARD);
}

#[test]
fn a_chain_starts_with_what_genesis_grants() {
    let (node, _) = started();
    assert_eq!(node.store.total_supply(), 1_010_000 * RAI_PER_INAZ);
}

#[test]
fn punishments_start_with_the_chain_s_own_height() {
    let (node, _) = started();
    let s = rpc::slashing_info(&node, b"{}");
    assert_eq!((s.height, s.activation, s.active), (1, SLASHING_ACTIVATION_HEIGHT, false));
    let (node, _) = node_with(1);
    let s = rpc::slashing_info(&node, b"{}");
    assert_eq!((s.activation, s.active), (1, true));
}

#[test]
fn only_documents_are_requests() {
    assert!(rpc::is_json(b"{}"));
    assert!(rpc::is_json(b"null"));
    assert!(!rpc::is_json(b"{"));
    assert!(!rpc::is_json(b""));
}

// ---------------------------------------------------------------- pruning

#[test]
fn pruning_keeps_what_was_asked_for() {
    assert_eq!(prune::target(10, 3), 7);
    assert_eq!(prune::target(3, 10), 0);
    let (mut node, kp) = started();
    grow(&mut node, &kp, 0, 6);
    node.store.set_finalized_height(5);
    assert_eq!(prune::prune_keeping(&mut node.store, 10), 0);
    assert_eq!(prune::prune_keeping(&mut node.store, 2), 2);
    assert!(node.store.block(0).is_some());
    assert!(node.store.block(1).is_none());
    assert!(node.store.block(2).is_none());
    assert!((3..=6).all(|h| node.store.block(h).is_some()));
    assert_eq!(node.store.pruned_below(), 3);
}

// ---------------------------------------------------------------- adversaries

#[test]
fn settings_name_misbehaviour() {
    assert_eq!(byzantine::mode(None), None);
    assert_eq!(byzantine::mode(Some("double-sign")), Some(Mode::DoubleSign));
    assert_eq!(byzantine::mode(Some(" doublesign\n")), Some(Mode::DoubleSign));
    assert_eq!(byzantine::mode(Some("equivocate")), Some(Mode::Equivocate));
    assert_eq!(byzantine::mode(Some("invalid")), Some(Mode::Invalid));
    assert_eq!(byzantine::mode(Some("propose-invalid")), Some(Mode::Invalid));
    assert_eq!(byzantine::mode(Some("withhold")), Some(Mode::Withhold));
    assert_eq!(byzantine::mode(Some("withhold-vote")), Some(Mode::Withhold));
    assert_eq!(byzantine::mode(Some("Invalid")), None);
    assert!(!byzantine::should_vote(Some(Mode::Withhold)));
    assert!(byzantine::should_vote(Some(Mode::Invalid)));
    assert!(byzantine::should_vote(None));
}

#[test]
fn forgeries_are_caught() {
    let (mut node, kp) = started();
    node.accept_tx(transfer(&kp, &key().address(), 1_000, 0)).unwrap();
    let honest = node.produce_block().unwrap().unwrap();
    assert!(byzantine::after_seal(None, &kp, &honest).is_none());
    assert!(byzantine::after_seal(Some(Mode::Withhold), &kp, &honest).is_none());
    for mode in [Mode::DoubleSign, Mode::Equivocate, Mode::Invalid] {
        let evil = byzantine::after_seal(Some(mode), &kp, &honest).unwrap();
        assert_eq!(evil.timestamp_ms, honest.timestamp_ms + 1);
        assert!(evil.verify_producer());
        assert_ne!(evil.hash, honest.hash);
        let proof = node.detect_double_sign(&evil).unwrap();
        assert_eq!(proof.verify(), Ok(kp.address()));
        match mode {
            Mode::Equivocate => {
                assert!(evil.transactions.is_empty());
                assert_eq!(evil.txs_root, txs_root(&Vec::new()));
                assert_eq!(evil.state_root, honest.state_root);
            }
            Mode::Invalid => assert_eq!(evil.state_root, "de".repeat(32)),
            _ => assert_eq!(evil.txs_root, honest.txs_root),
        }
    }
}

// ---------------------------------------------------------------- the operator's commands

#[test]
fn contract_files_become_bytecode() {
    let wasm = b"\0asm\x01\0\0\0".to_vec();
    assert_eq!(cli::bytecode("a.wasm", wasm.clone()), Ok(wasm.clone()));
    assert_eq!(cli::bytecode("a.wasm", b"(module)".to_vec()), Ok(b"(module)".to_vec()));
    assert_eq!(cli::bytecode("a.wat", b"(module)".to_vec()), Ok(wasm.clone()));
    assert_eq!(cli::bytecode("a.wat", wasm.clone()), Ok(wasm));
    assert!(cli::bytecode("a.wat", b"(modul".to_vec()).unwrap_err().starts_with("bad wat: "));
    assert_eq!(cli::assembly(Err("x".to_string())), Err("bad wat: x".to_string()));
    assert_eq!(cli::assembly(Ok(vec![1])), Ok(vec![1]));
}

#[test]
fn links_are_drawn_for_phones() {
    let drawn = ui::qr("https://inazuma.network", false).unwrap();
    assert!(drawn.lines().count() > 10);
    assert!(!drawn.contains("inazuma"));
    assert_eq!(ui::qr("https://inazuma.network", true), None);
    assert_eq!(ui::qr(&"x".repeat(10_000), false), None);
}

#[test]
fn replies_are_read() {
    let bad = b"{\"error\":{\"code\":1,\"message\":\"no\"}}";
    assert_eq!(cli::reply_error(bad), Some("no".to_string()));
    assert_eq!(cli::reply_error(b"{\"error\":null}"), Some("rpc error".to_string()));
    assert_eq!(cli::reply_error(b"{\"result\":1}"), None);
    assert_eq!(cli::check_reply("u", bad), Err("no".to_string()));
    assert_eq!(cli::check_reply("u", b"{\"result\":1}"), Ok(()));
    assert!(cli::check_reply("u", b"{").unwrap_err().starts_with("bad JSON response from u: "));
    assert_eq!(cli::reply_decimals(b"{\"result\":{\"decimals\":6}}"), 6);
    assert_eq!(cli::reply_decimals(b"{\"result\":{\"decimals\":262}}"), 6);
    assert_eq!(cli::reply_decimals(b"{\"result\":null}"), 9);
    assert_eq!(cli::check_evidence_file(b"{}"), Ok(()));
    assert!(cli::check_evidence_file(b"{").unwrap_err().starts_with("bad evidence file: "));
}

#[test]
fn amounts_with_many_decimals_are_read() {
    assert_eq!(tokens::parse_units("0", 200), Ok(0));
    assert_eq!(tokens::parse_units("1", 38), Ok(10u128.pow(38)));
    assert_eq!(tokens::parse_units("1", 39), Err("bad amount".to_string()));
    let small = format!("0.{}1", "0".repeat(49));
    assert_eq!(tokens::parse_units(&small, 50), Ok(1));
    assert_eq!(tokens::parse_units("0.11", 1), Err("max 1 decimals".to_string()));
}

#[test]
fn keys_are_chosen_in_order() {
    let some = |s: &str| Some(s.to_string());
    assert_eq!(cli::choose_key(some("f"), some("w"), some("v")), some("f"));
    assert_eq!(cli::choose_key(some(""), some("w"), some("v")), some("w"));
    assert_eq!(cli::choose_key(None, None, some(" v ")), some(" v "));
    assert_eq!(cli::choose_key(None, None, some("  ")), None);
    assert_eq!(cli::choose_key(None, None, None), None);
    let hex = "ab".repeat(32);
    assert_eq!(cli::variable_secret(&format!(" {}\n", hex)), Some(hex));
    assert_eq!(cli::variable_secret("ab"), None);
    assert_eq!(cli::nodekey_path("./data//"), "./data.nodekey");
    assert_eq!(cli::wallet_path(some("/w"), some("/h")), "/w");
    assert_eq!(cli::wallet_path(None, some("/h")), "/h/.inazuma/validator.env");
    assert_eq!(cli::wallet_path(None, None), "./.inazuma/validator.env");
}

#[test]
fn comparing_is_opt_in() {
    let args = |list: &[&str]| cli::parse_args(&list.iter().map(|s| s.to_string()).collect());
    assert_eq!(cli::compare_with(&args(&["status"]), None), None);
    assert_eq!(cli::compare_with(&args(&["status"]), Some("0")), None);
    let public = Some(cli::PUBLIC_RPC.to_string());
    assert_eq!(cli::compare_with(&args(&["status"]), Some("1")), public);
    assert_eq!(cli::compare_with(&args(&["status", "--compare"]), None), public);
    assert_eq!(
        cli::compare_with(&args(&["status", "--compare", "http://x"]), None),
        Some("http://x".to_string())
    );
    assert_eq!(cli::network_lag("http://127.0.0.1", cli::PUBLIC_RPC, 10, 4), Some(6));
    assert_eq!(cli::network_lag("http://127.0.0.1", cli::PUBLIC_RPC, 4, 10), Some(0));
    assert_eq!(cli::network_lag("http://127.0.0.1", cli::PUBLIC_RPC, 0, 0), None);
    assert_eq!(cli::network_lag("http://rpc.inazuma.network:1", cli::PUBLIC_RPC, 9, 1), None);
}

#[test]
fn measurements_end() {
    assert_eq!(cli::measure(10, 15, 6, 0, false), None);
    assert_eq!(cli::measure(10, 16, 6, 1, false), None);
    assert_eq!(cli::measure(10, 16, 6, 0, false), Some(6));
    assert_eq!(cli::measure(10, 12, 6, 3, true), Some(2));
    assert_eq!(cli::measure(10, 3, 0, 0, false), Some(0));
}

#[test]
fn messages_are_told_apart() {
    assert_eq!(p2p::read_kind(b"{\"t\":\"status\"}"), Kind::Status);
    assert_eq!(p2p::read_kind(b"{\"t\":\"getblocks\",\"from\":3}"), Kind::GetBlocks(3, MAX_SYNC_BATCH));
    assert_eq!(p2p::read_kind(b"{\"t\":\"getblocks\",\"limit\":2}"), Kind::GetBlocks(0, 2));
    assert_eq!(p2p::read_kind(b"{\"t\":\"tx\"}"), Kind::Tx);
    assert_eq!(p2p::read_kind(b"{\"t\":\"vote\"}"), Kind::Vote);
    assert_eq!(p2p::read_kind(b"{\"t\":\"evidence\"}"), Kind::Evidence);
    assert_eq!(p2p::read_kind(b"{\"t\":\"block\"}"), Kind::Block);
    assert_eq!(p2p::read_kind(b"{\"t\":1}"), Kind::Other);
    assert_eq!(p2p::read_kind(b"[]"), Kind::Other);
    assert_eq!(p2p::read_status(b"{\"height\":9,\"earliest\":4}"), (9, 4));
    assert_eq!(p2p::read_status(b"{}"), (0, 0));
}

// ---------------------------------------------------------------- preflight

#[test]
fn a_clean_preflight_is_executed() {
    let (mut node, kp) = started();
    let bob = key().address();
    for kind in [TxKind::Transfer, TxKind::Stake, TxKind::Unstake] {
        let mut tx = transfer(&kp, &bob, MIN_STAKE, node.store.account(&kp.address()).nonce);
        tx.kind = kind;
        tx.signature = kp.sign_hex(&tx.canonical_signing_bytes());
        let p = preflight(&node, &tx);
        assert!(p.ok, "{:?}", p.errors);
        assert_eq!(apply::apply_tx(&mut node.store, &tx, p.height), Ok(MIN_FEE));
        if kind == TxKind::Transfer {
            assert_eq!(Some(node.store.account(&kp.address()).balance), p.balance_after);
        }
    }
    // What preflight objects to, execution refuses.
    let tx = transfer(&kp, &bob, u128::MAX / 2, node.store.account(&kp.address()).nonce);
    assert!(!preflight(&node, &tx).ok);
    assert!(apply::apply_tx(&mut node.store, &tx, 1).is_err());
}
