//! The state tree against the tables, the order of a batch, and what a block pays.

use inazuma::chain::Node;
use inazuma::crypto::Keypair;
use inazuma::mempool::Mempool;
use inazuma::smt::verify_proof;
use inazuma::staking;
use inazuma::state::Store;
use inazuma::types::{
    ChainParams, Genesis, GenesisAlloc, Payload, Transaction, TxKind, CHAIN_ID, MIN_FEE, MIN_STAKE,
    RAI_PER_INAZ, SLASHING_ACTIVATION_HEIGHT,
};

fn store() -> Store {
    Store::new(
        ChainParams {
            slashing_activation: SLASHING_ACTIVATION_HEIGHT,
        },
        u64::MAX,
    )
}

fn net() -> (Node, Keypair) {
    let kp = Keypair::generate().unwrap();
    let user = Keypair::from_secret_hex(&kp.secret_hex()).unwrap();
    let genesis = Genesis {
        chain_id: CHAIN_ID,
        chain_name: "Inazuma".into(),
        symbol: "INAZ".into(),
        decimals: 9,
        block_time_ms: 400,
        alloc: vec![GenesisAlloc {
            address: kp.address(),
            balance: "1000000".into(),
            stake: Some("10000".into()),
        }],
        slashing_activation_height: Some(77),
    };
    let mut node = Node::new(store(), genesis, kp);
    node.set_solo(true);
    node.init_genesis().unwrap();
    (node, user)
}

fn signed(
    kind: TxKind,
    kp: &Keypair,
    to: &str,
    amount: u128,
    nonce: u64,
    payload: Option<Payload>,
) -> Transaction {
    let mut tx = Transaction {
        kind,
        from_pubkey: kp.pubkey_hex(),
        to: to.to_string(),
        amount,
        fee: MIN_FEE,
        nonce,
        chain_id: CHAIN_ID,
        payload,
        shielded: None,
        signature: String::new(),
    };
    tx.signature = kp.sign_hex(&tx.canonical_signing_bytes());
    tx
}

/// The proof a store serves of a key checks against its own root with the value it reads.
fn served(st: &Store, domain: &str, key: &str) -> bool {
    let value = st.merkle_leaf_value(domain, key);
    let (root, _, siblings, map) = st.merkle_proof(domain, key);
    let ok = verify_proof(&root, domain, key.as_bytes(), value.as_deref(), &siblings, &map);
    let forged = verify_proof(&root, domain, key.as_bytes(), Some(b"forged"), &siblings, &map);
    ok && !forged && root == st.merkle_root()
}

/// The root the tree would have if it were built from the tables anew.
fn rebuilt(st: &mut Store) -> String {
    st.build_merkle_state(1);
    st.merkle_root()
}

// ---------------------------------------------------------------- tree and tables

#[test]
fn the_tree_follows_the_tables_through_blocks() {
    let (mut node, kp) = net();
    let bob = Keypair::generate().unwrap().address();
    let at_genesis = node.store.merkle_root();
    assert_eq!(rebuilt(&mut node.store), at_genesis);
    node.accept_tx(signed(TxKind::Transfer, &kp, &bob, 5 * RAI_PER_INAZ, 0, None))
        .unwrap();
    let b = node.produce_block().unwrap().unwrap();
    assert_eq!(b.transactions.len(), 1);
    let root = node.store.merkle_root();
    assert_ne!(root, at_genesis);
    assert_eq!(rebuilt(&mut node.store), root);
    assert!(served(&node.store, "acct", &kp.address()));
    assert!(served(&node.store, "acct", &bob));
    assert!(node.store.merkle_leaf_value("acct", &bob).is_some());
}

#[test]
fn an_absent_key_is_proved_absent() {
    let (node, _) = net();
    assert_eq!(node.store.merkle_leaf_value("acct", "nobody"), None);
    assert!(served(&node.store, "acct", "nobody"));
    assert!(served(&node.store, "token", "none"));
    assert!(served(&store(), "tokenbal", "none:nobody"));
}

#[test]
fn tokens_stand_in_the_tree() {
    let mut st = store();
    let p = Payload {
        symbol: "TST".into(),
        name: "Test".into(),
        decimals: 2,
        mintable: false,
        ..Payload::default()
    };
    let id = inazuma::tokens::apply_create(&mut st, "alice", 0, 1_000, 1, &Some(p)).unwrap();
    let first = st.merkle_root();
    assert_eq!(rebuilt(&mut st), first);
    st.credit_token(&id, "bob", 1).unwrap();
    let second = st.merkle_root();
    assert_ne!(second, first, "a unit more is another state");
    assert_eq!(rebuilt(&mut st), second);
    for who in ["alice", "bob"] {
        assert!(served(&st, "tokenbal", &format!("{}:{}", id, who)));
    }
    assert!(served(&st, "token", &id));
    st.debit_token(&id, "bob", 1).unwrap();
    assert_eq!(st.merkle_leaf_value("tokenbal", &format!("{}:bob", id)), None);
    assert!(served(&st, "tokenbal", &format!("{}:bob", id)));
    let third = st.merkle_root();
    assert_ne!(third, second);
    assert_eq!(rebuilt(&mut st), third);
}

#[test]
fn storage_stands_in_the_tree() {
    let mut st = store();
    let empty = st.merkle_root();
    st.set_contract_storage("c", "k", Some(b"v"));
    let full = st.merkle_root();
    assert_ne!(full, empty);
    assert_eq!(rebuilt(&mut st), full);
    st.set_contract_storage("c", "k", Some(b"w"));
    assert_ne!(st.merkle_root(), full);
    st.set_contract_storage("c", "k", None);
    assert_eq!(st.merkle_root(), empty);
}

#[test]
fn equal_states_have_equal_roots() {
    let (mut a, mut b) = (store(), store());
    let mut acct = a.account("x");
    acct.balance = 5;
    a.set_account("x", &acct);
    a.set_account("y", &acct);
    b.set_account("y", &acct);
    acct.balance = 9;
    b.set_account("x", &acct);
    assert_ne!(a.merkle_root(), b.merkle_root());
    acct.balance = 5;
    b.set_account("x", &acct);
    assert_eq!(a.merkle_root(), b.merkle_root());
}

#[test]
fn genesis_stays_what_it_was() {
    let (mut node, _) = net();
    node.produce_block().unwrap().unwrap();
    assert_eq!(node.genesis.chain_name, "Inazuma");
    assert_eq!(node.genesis.symbol, "INAZ");
    assert_eq!(node.genesis.decimals, 9);
    assert_eq!(node.genesis.slashing_activation_height, Some(77));
}

// ---------------------------------------------------------------- pool

fn queue(pool: &mut Mempool, from: &str, nonce: u64, fee: u128) {
    let t = Transaction {
        kind: TxKind::Transfer,
        from_pubkey: from.into(),
        to: "x".into(),
        amount: 1,
        fee,
        nonce,
        chain_id: CHAIN_ID,
        payload: None,
        shielded: None,
        signature: String::new(),
    };
    pool.insert(t, format!("{}-{}", from, nonce), from.into());
}

fn taken(pool: &mut Mempool, max: usize) -> Vec<String> {
    let batch = pool.take_batch(max);
    batch.iter().map(|t| format!("{}-{}", t.from_pubkey, t.nonce)).collect()
}

#[test]
fn equal_fees_go_by_arrival() {
    let mut pool = Mempool::new();
    queue(&mut pool, "a", 5, 100);
    queue(&mut pool, "b", 0, 100);
    assert_eq!(taken(&mut pool, 10), vec!["a-5", "b-0"]);
    queue(&mut pool, "a", 5, 100);
    queue(&mut pool, "b", 0, 100);
    assert_eq!(taken(&mut pool, 1), vec!["a-5"]);
}

#[test]
fn earlier_nonces_are_taken_first() {
    let mut pool = Mempool::new();
    queue(&mut pool, "a", 2, 900);
    queue(&mut pool, "a", 1, 800);
    queue(&mut pool, "b", 0, 500);
    queue(&mut pool, "a", 0, 100);
    assert_eq!(taken(&mut pool, 3), vec!["b-0", "a-0", "a-1"]);
    assert_eq!(taken(&mut pool, 3), vec!["a-2"]);
}

// ---------------------------------------------------------------- rewards

#[test]
fn earnings_grow_by_the_reward() {
    let mut st = store();
    for (who, stake) in [("a", MIN_STAKE), ("b", 2 * MIN_STAKE + 1), ("c", 3 * MIN_STAKE + 7)] {
        let mut acct = st.account(who);
        acct.staked = stake;
        st.set_account(who, &acct);
    }
    staking::pay_rewards(&mut st, "leader", 123_457);
    let earned = |who: &str| st.account(who).rewards;
    let all = earned("a") + earned("b") + earned("c") + earned("leader");
    assert_eq!(all, staking::BLOCK_REWARD);
    assert!(earned("a") > 0 && earned("b") > earned("a") && earned("c") > earned("b"));
    assert_eq!(st.account("leader").balance, earned("leader") + 123_457);
}
