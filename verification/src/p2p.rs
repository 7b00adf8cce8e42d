//! The peer-to-peer layer: what a node does with the messages of its peers, how it
//! catches up, and when it follows another chain. Sockets are the caller's business.

use crate::chain;
use crate::chain::Node;
use crate::chain::NodeV;
use crate::consensus;
use crate::consensus::Vote;
use crate::consensus::VoteV;
use crate::crypto;
use crate::crypto::Keypair;
use crate::journal::Db;
use crate::json;
use crate::limits::BookV;
use crate::limits;
use crate::limits::ConnGuard;
use crate::limits::IpConnCounter;
use crate::limits::PeerBook;
use crate::qos;
use crate::rank;
use crate::slashing::Evidence;
use crate::slashing::EvidenceV;
use crate::state;
use crate::state::Store;
use crate::text;
use crate::transport;
use crate::types;
use crate::types::Block;
use crate::types::BlockV;
use crate::types::Transaction;
use crate::types::TxV;
use vstd::prelude::*;
use vstd::string::*;

verus! {

/// Blocks served in one answer.
pub const MAX_SYNC_BATCH: u64 = 200;

/// Seconds within which no second replay from genesis starts.
pub const RESET_COOLDOWN_SECS: u64 = 900;

/// Messages per second of a host.
pub const P2P_MSGS_PER_SEC: u64 = 400;

/// Slack of a host, in messages.
pub const P2P_BURST: u64 = 2_000;

/// Live connections of the gossip port.
pub const P2P_MAX_LIVE_CONNS: usize = 128;

/// Seconds of a ban.
pub const P2P_BAN_SECS: u64 = 600;

/// Cost of a message that cannot come from an honest peer.
pub const COST_BAD_MESSAGE: i32 = 12;

/// Cost of a block that is invalid at a height the node can judge.
pub const COST_BAD_BLOCK: i32 = 20;

/// Cost of not encrypting.
pub const COST_PLAINTEXT: i32 = 4;

/// Live connections of one host.
pub const P2P_MAX_CONNS_PER_IP: usize = 8;

// ---------------------------------------------------------------- the network

/// What a node knows of its network.
pub struct P2p {
    pub listen: String,
    pub peers: Vec<String>,
    /// Reputation of remote hosts.
    pub book: PeerBook,
    /// The key that authenticates this node.
    pub id: Keypair,
    /// When not empty, only these node keys may connect or be dialled.
    pub allowed_ids: Vec<String>,
    /// Refuse peers that do not encrypt.
    pub require_encryption: bool,
}

/// Whether a peer may talk to a node with an allowlist.
pub open spec fn allowed(ids: Seq<Seq<char>>, peer: Option<Seq<char>>) -> bool {
    ids.len() == 0 || (peer is Some && ids.contains(peer->Some_0))
}

/// How a connection goes on after its first bytes.
#[derive(Clone, Copy, PartialEq, Eq, Structural, Debug)]
pub enum Sniff {
    /// An encrypted peer.
    Secure,
    /// A peer that does not encrypt.
    Plain,
    /// Refused: encryption is required.
    NeedsEncryption,
    /// Refused: an allowlist needs authentication.
    NeedsIdentity,
}

impl P2p {
    /// A network without restrictions.
    pub fn new(listen: String, peers: Vec<String>, id: Keypair) -> (r: P2p)
        ensures
            r.listen == listen,
            r.peers == peers,
            r.id == id,
            r.allowed_ids@.len() == 0,
            !r.require_encryption,
            r.book.wf(),
            r.book@ == (BookV {
                scores: Map::empty(),
                identities: Map::empty(),
                ban_ms: (P2P_BAN_SECS * 1_000) as u64,
            }),
    {
        P2p {
            listen,
            peers,
            book: PeerBook::new(P2P_BAN_SECS),
            id,
            allowed_ids: Vec::new(),
            require_encryption: false,
        }
    }

    /// The network with an allowlist.
    pub fn with_allowlist(self, ids: Vec<String>) -> (r: P2p)
        ensures
            r == (P2p { allowed_ids: ids, ..self }),
    {
        P2p {
            listen: self.listen,
            peers: self.peers,
            book: self.book,
            id: self.id,
            allowed_ids: ids,
            require_encryption: self.require_encryption,
        }
    }

    /// The network with encryption required or not.
    pub fn with_required_encryption(self, required: bool) -> (r: P2p)
        ensures
            r == (P2p { require_encryption: required, ..self }),
    {
        P2p {
            listen: self.listen,
            peers: self.peers,
            book: self.book,
            id: self.id,
            allowed_ids: self.allowed_ids,
            require_encryption: required,
        }
    }

    /// Whether a peer may talk to this node.
    pub fn id_allowed(&self, peer_id: Option<&str>) -> (r: bool)
        ensures
            r == allowed(types::texts(self.allowed_ids@), qos::cred_view(peer_id)),
    {
        let ghost ids = types::texts(self.allowed_ids@);
        if self.allowed_ids.len() == 0 {
            return true;
        }
        let id = match peer_id {
            None => {
                return false;
            },
            Some(t) => t,
        };
        let mut i: usize = 0;
        while i < self.allowed_ids.len()
            invariant
                i <= self.allowed_ids@.len(),
                ids == types::texts(self.allowed_ids@),
                qos::cred_view(peer_id) == Some(id@),
                forall|j: int| 0 <= j < i ==> #[trigger] ids[j] != id@,
            decreases self.allowed_ids@.len() - i,
        {
            assert(ids[i as int] == self.allowed_ids@[i as int]@);
            if text::same(self.allowed_ids[i].as_str(), id) {
                assert(ids.contains(id@));
                return true;
            }
            i = i + 1;
        }
        false
    }

    /// Decides on a connection by its first bytes.
    pub fn sniff(&self, head: &[u8; 5]) -> (r: Sniff)
        ensures
            r == if head@ == transport::MAGIC@ {
                Sniff::Secure
            } else if self.require_encryption {
                Sniff::NeedsEncryption
            } else if self.allowed_ids@.len() > 0 {
                Sniff::NeedsIdentity
            } else {
                Sniff::Plain
            },
    {
        let magic: [u8; 5] = transport::MAGIC;
        if text::same_bytes(head.as_slice(), magic.as_slice()) {
            return Sniff::Secure;
        }
        if self.require_encryption {
            return Sniff::NeedsEncryption;
        }
        if self.allowed_ids.len() > 0 {
            return Sniff::NeedsIdentity;
        }
        Sniff::Plain
    }
}

/// A node with an allowlist talks to nobody that did not prove a key on it, and one
/// that requires encryption to nobody in the clear.
pub proof fn law_allowlist_is_strict(ids: Seq<Seq<char>>, peer: Option<Seq<char>>)
    requires
        ids.len() > 0,
    ensures
        allowed(ids, peer) <==> peer is Some && ids.contains(peer->Some_0),
        !allowed(ids, None),
{
}

// ---------------------------------------------------------------- connections

/// What a connection did.
pub enum ConnEvent<'a> {
    /// The handshake failed or was refused.
    Refused,
    /// It is open; with its proven key when it encrypts.
    Opened(Option<&'a str>),
    /// A message was handled.
    Handled,
    /// It sent what cannot be read.
    Garbage,
}

/// Model of what a connection did.
pub enum ConnEventV {
    Refused,
    Opened(Option<Seq<char>>),
    Handled,
    Garbage,
}

impl<'a> View for ConnEvent<'a> {
    type V = ConnEventV;

    open spec fn view(&self) -> ConnEventV {
        match self {
            ConnEvent::Refused => ConnEventV::Refused,
            ConnEvent::Opened(id) => ConnEventV::Opened(qos::cred_view(*id)),
            ConnEvent::Handled => ConnEventV::Handled,
            ConnEvent::Garbage => ConnEventV::Garbage,
        }
    }
}

/// A book after a host was charged.
pub open spec fn charged(b: BookV, ip: Seq<char>, cost: i32, now: u64) -> BookV {
    BookV {
        scores: b.scores.insert(
            text::utf8(ip),
            limits::penalized(limits::standing_of(b, ip), cost, now, b.ban_ms),
        ),
        ..b
    }
}

/// A book after what a connection of a host did.
pub open spec fn noted(b: BookV, ip: Seq<char>, e: ConnEventV, now: u64) -> BookV {
    match e {
        ConnEventV::Refused => charged(b, ip, COST_BAD_MESSAGE, now),
        ConnEventV::Opened(id) => match id {
            None => charged(b, ip, COST_PLAINTEXT, now),
            Some(k) => BookV { identities: b.identities.insert(text::utf8(ip), k), ..b },
        },
        ConnEventV::Handled => BookV {
            scores: b.scores.insert(
                text::utf8(ip),
                limits::rewarded(limits::standing_of(b, ip)),
            ),
            ..b
        },
        ConnEventV::Garbage => charged(b, ip, COST_BAD_MESSAGE, now),
    }
}

/// Keeps the book on a connection; whether a key was proven for the first time.
pub fn note_conn(book: &mut PeerBook, ip: &str, event: ConnEvent, now: u64) -> (r: bool)
    requires
        old(book).wf(),
    ensures
        final(book).wf(),
        final(book)@ == noted(old(book)@, ip@, event@, now),
        r == match event@ {
            ConnEventV::Opened(Some(k)) => !(old(book)@.identities.contains_key(text::utf8(ip@))
                && old(book)@.identities[text::utf8(ip@)] == k),
            _ => false,
        },
{
    match event {
        ConnEvent::Refused => {
            let _ = book.penalize(ip, COST_BAD_MESSAGE, now);
            false
        },
        ConnEvent::Opened(None) => {
            let _ = book.penalize(ip, COST_PLAINTEXT, now);
            false
        },
        ConnEvent::Opened(Some(k)) => book.note_identity(ip, k),
        ConnEvent::Handled => {
            book.reward(ip);
            false
        },
        ConnEvent::Garbage => {
            let _ = book.penalize(ip, COST_BAD_MESSAGE, now);
            false
        },
    }
}

/// The slots a connection holds.
#[derive(Clone, Copy, PartialEq, Eq, Structural, Debug)]
pub struct Tickets {
    /// A slot of the listener.
    pub conn: bool,
    /// A slot of its host.
    pub host: bool,
}

/// Takes the slots of a connection. Configured peers pass the caps, so a flood of
/// strangers cannot cut the node off from them.
pub fn take_slots(
    conns: &mut ConnGuard,
    hosts: &mut IpConnCounter,
    ip: Option<&str>,
    configured: bool,
) -> (r: Option<Tickets>)
    requires
        old(conns).wf(),
        old(hosts).wf(),
    ensures
        final(conns).wf(),
        final(hosts).wf(),
        final(hosts).share() == old(hosts).share(),
        final(conns).max == old(conns).max,
        configured ==> r is Some,
        !configured && old(conns).live >= old(conns).max ==> r is None,
        !configured && old(conns).live < old(conns).max && ip is None ==> r == Some(
            Tickets { conn: true, host: false },
        ),
        !configured && old(conns).live < old(conns).max && ip is Some ==> (r is Some
            <==> limits::count_of(old(hosts)@, ip->Some_0@) < old(hosts).share()),
        match r {
            Some(t) => {
                &&& t.conn == (old(conns).live < old(conns).max)
                &&& t.host == (!configured && ip is Some)
                &&& final(conns).live == old(conns).live + if t.conn {
                    1int
                } else {
                    0int
                }
                &&& final(hosts)@ == if t.host {
                    old(hosts)@.insert(
                        text::utf8(ip->Some_0@),
                        (limits::count_of(old(hosts)@, ip->Some_0@) + 1) as usize,
                    )
                } else {
                    old(hosts)@
                }
            },
            None => final(conns).live == old(conns).live,
        },
{
    let conn = conns.try_acquire();
    if !conn && !configured {
        return None;
    }
    if configured {
        return Some(Tickets { conn, host: false });
    }
    match ip {
        None => Some(Tickets { conn, host: false }),
        Some(t) => {
            if hosts.try_acquire(t) {
                Some(Tickets { conn, host: true })
            } else {
                conns.release();
                None
            }
        },
    }
}

// ---------------------------------------------------------------- messages

/// A message of a peer.
pub enum Msg {
    Status,
    GetBlocks { from: u64, limit: u64 },
    Tx(Transaction),
    Vote(Vote),
    Evidence(Evidence),
    Block(Block),
    Other,
}

/// What a message is about, as its tag says; `GetBlocks` is read whole.
#[derive(Clone, Copy, PartialEq, Eq, Structural, Debug)]
pub enum Kind {
    Status,
    GetBlocks(u64, u64),
    Tx,
    Vote,
    Evidence,
    Block,
    Other,
}

/// A number of a message, or a default.
pub open spec fn number_or(raw: Seq<u8>, path: Seq<char>, default: u64) -> u64 {
    match json::json_number_at(raw, path) {
        Some(n) => n,
        None => default,
    }
}

fn read_number(raw: &[u8], path: &str, default: u64) -> (r: u64)
    ensures
        r == number_or(raw@, path@, default),
{
    match json::number_at(raw, path) {
        Some(n) => n,
        None => default,
    }
}

/// What a message is about.
pub open spec fn kind_of(raw: Seq<u8>) -> Kind {
    let t = json::json_text_at(raw, "/t"@);
    if t == Some("status"@) {
        Kind::Status
    } else if t == Some("getblocks"@) {
        Kind::GetBlocks(
            number_or(raw, "/from"@, 0),
            number_or(raw, "/limit"@, MAX_SYNC_BATCH),
        )
    } else if t == Some("tx"@) {
        Kind::Tx
    } else if t == Some("vote"@) {
        Kind::Vote
    } else if t == Some("evidence"@) {
        Kind::Evidence
    } else if t == Some("block"@) {
        Kind::Block
    } else {
        Kind::Other
    }
}

/// Reads what a message is about. One without a tag is about nothing known.
pub fn read_kind(raw: &[u8]) -> (r: Kind)
    ensures
        r == kind_of(raw@),
{
    let t = match json::text_at(raw, "/t") {
        Some(t) => t,
        None => {
            return Kind::Other;
        },
    };
    if text::same(t.as_str(), "status") {
        Kind::Status
    } else if text::same(t.as_str(), "getblocks") {
        Kind::GetBlocks(
            read_number(raw, "/from", 0),
            read_number(raw, "/limit", MAX_SYNC_BATCH),
        )
    } else if text::same(t.as_str(), "tx") {
        Kind::Tx
    } else if text::same(t.as_str(), "vote") {
        Kind::Vote
    } else if text::same(t.as_str(), "evidence") {
        Kind::Evidence
    } else if text::same(t.as_str(), "block") {
        Kind::Block
    } else {
        Kind::Other
    }
}

/// Reads the height of a peer and the lowest block it still serves from its status.
pub fn read_status(raw: &[u8]) -> (r: (u64, u64))
    ensures
        r == (number_or(raw@, "/height"@, 0), number_or(raw@, "/earliest"@, 0)),
{
    (read_number(raw, "/height", 0), read_number(raw, "/earliest", 0))
}

/// Model of a message.
pub enum MsgV {
    Status,
    GetBlocks { from: u64, limit: u64 },
    Tx(TxV),
    Vote(VoteV),
    Evidence(EvidenceV),
    Block(BlockV),
    Other,
}

impl View for Msg {
    type V = MsgV;

    open spec fn view(&self) -> MsgV {
        match self {
            Msg::Status => MsgV::Status,
            Msg::GetBlocks { from, limit } => MsgV::GetBlocks { from: *from, limit: *limit },
            Msg::Tx(t) => MsgV::Tx(t@),
            Msg::Vote(v) => MsgV::Vote(v@),
            Msg::Evidence(e) => MsgV::Evidence(e@),
            Msg::Block(b) => MsgV::Block(b@),
            Msg::Other => MsgV::Other,
        }
    }
}

/// What a node answers.
pub enum Reply {
    Status { height: u64, hash: String, finalized: u64, earliest: u64 },
    Blocks(Vec<Block>),
}

/// Model of an answer.
pub enum ReplyV {
    Status { height: u64, hash: Seq<char>, finalized: u64, earliest: u64 },
    Blocks(Seq<BlockV>),
}

impl View for Reply {
    type V = ReplyV;

    open spec fn view(&self) -> ReplyV {
        match self {
            Reply::Status { height, hash, finalized, earliest } => ReplyV::Status {
                height: *height,
                hash: hash@,
                finalized: *finalized,
                earliest: *earliest,
            },
            Reply::Blocks(b) => ReplyV::Blocks(rank::views(b@)),
        }
    }
}

/// What a node sends to every peer.
pub enum Gossip {
    Vote(Vote),
    Evidence(Evidence),
    Block(Block),
}

/// Model of what a node sends to every peer.
pub enum GossipV {
    Vote(VoteV),
    Evidence(EvidenceV),
    Block(BlockV),
}

impl View for Gossip {
    type V = GossipV;

    open spec fn view(&self) -> GossipV {
        match self {
            Gossip::Vote(v) => GossipV::Vote(v@),
            Gossip::Evidence(e) => GossipV::Evidence(e@),
            Gossip::Block(b) => GossipV::Block(b@),
        }
    }
}

/// What a node does about a message.
pub struct Reaction {
    pub reply: Option<Reply>,
    pub gossip: Vec<Gossip>,
    /// A height finalized by it.
    pub finalized: Option<u64>,
    /// What it costs the peer.
    pub penalty: i32,
    /// A gap showed: pull what is missing.
    pub sync: bool,
}

/// Model of what a node does about a message.
#[verifier::ext_equal]
pub struct ReactionV {
    pub reply: Option<ReplyV>,
    pub gossip: Seq<GossipV>,
    pub finalized: Option<u64>,
    pub penalty: i32,
    pub sync: bool,
}

/// Model of an optional answer.
pub open spec fn reply_view(r: Option<Reply>) -> Option<ReplyV> {
    match r {
        Some(r) => Some(r@),
        None => None,
    }
}

impl View for Reaction {
    type V = ReactionV;

    open spec fn view(&self) -> ReactionV {
        ReactionV {
            reply: reply_view(self.reply),
            gossip: rank::views(self.gossip@),
            finalized: self.finalized,
            penalty: self.penalty,
            sync: self.sync,
        }
    }
}

/// Nothing to do.
pub open spec fn idle() -> ReactionV {
    ReactionV { reply: None, gossip: Seq::empty(), finalized: None, penalty: 0, sync: false }
}

fn nothing() -> (r: Reaction)
    ensures
        r@ == idle(),
{
    let r = Reaction {
        reply: None,
        gossip: Vec::new(),
        finalized: None,
        penalty: 0,
        sync: false,
    };
    assert(r@ =~= idle());
    r
}

/// Height of the tip, zero when there is none.
pub open spec fn tip_of(db: Db) -> nat {
    match state::tip_height_of(db) {
        Some(h) => h,
        None => 0,
    }
}

fn tip(store: &Store) -> (r: u64)
    requires
        store.wf(),
    ensures
        r == tip_of(store@.db),
{
    match store.tip_height() {
        Some(h) => h,
        None => 0,
    }
}

/// The blocks served from a height up to the tip, as far as there is room.
pub open spec fn served(db: Db, h: nat, tip: nat, room: nat) -> Seq<BlockV>
    decreases tip + 1 - h,
{
    if h > tip || room == 0 {
        Seq::empty()
    } else {
        match state::block_of(db, h) {
            Some(b) => seq![b] + served(db, h + 1, tip, (room - 1) as nat),
            None => served(db, h + 1, tip, room),
        }
    }
}

/// The batch of an answer.
pub open spec fn batch_of(limit: u64) -> nat {
    if limit < MAX_SYNC_BATCH {
        limit as nat
    } else {
        MAX_SYNC_BATCH as nat
    }
}

/// No answer carries more blocks than asked for, nor more than a batch.
pub proof fn law_served_batch_is_bounded(db: Db, from: nat, tip: nat, limit: u64)
    ensures
        served(db, from, tip, batch_of(limit)).len() <= limit,
        served(db, from, tip, batch_of(limit)).len() <= MAX_SYNC_BATCH,
{
    lemma_served_len(db, from, tip, batch_of(limit));
}

proof fn lemma_served_len(db: Db, h: nat, tip: nat, room: nat)
    ensures
        served(db, h, tip, room).len() <= room,
    decreases tip + 1 - h,
{
    if h <= tip && room > 0 {
        match state::block_of(db, h) {
            Some(_) => lemma_served_len(db, h + 1, tip, (room - 1) as nat),
            None => lemma_served_len(db, h + 1, tip, room),
        }
    }
}

/// Collects the blocks of an answer.
pub fn serve_blocks(store: &Store, from: u64, limit: u64) -> (r: Vec<Block>)
    requires
        store.wf(),
    ensures
        rank::views(r@) == served(store@.db, from as nat, tip_of(store@.db), batch_of(limit)),
{
    let ghost db = store@.db;
    let last = tip(store);
    let most: u64 = if limit < MAX_SYNC_BATCH {
        limit
    } else {
        MAX_SYNC_BATCH
    };
    let mut out: Vec<Block> = Vec::new();
    let ghost want = served(db, from as nat, last as nat, most as nat);
    if from > last {
        assert(rank::views(out@) =~= want);
        return out;
    }
    let mut h: u64 = from;
    let mut room: u64 = most;
    let mut done = false;
    assert(rank::views(out@) + want =~= want);
    while !done && room > 0
        invariant
            store.wf(),
            db == store@.db,
            h <= last,
            room <= MAX_SYNC_BATCH,
            !done ==> rank::views(out@) + served(db, h as nat, last as nat, room as nat) =~= want,
            done ==> rank::views(out@) =~= want,
        decreases last - h + if done {
            0int
        } else {
            1int
        },
    {
        let ghost was = rank::views(out@);
        match store.block(h) {
            Some(b) => {
                let ghost bv = b@;
                out.push(b);
                room = room - 1;
                proof {
                    assert(rank::views(out@) =~= was.push(bv));
                    let rest = served(db, (h + 1) as nat, last as nat, room as nat);
                    assert(was + (seq![bv] + rest) =~= was.push(bv) + rest);
                }
            },
            None => {},
        }
        if h == last {
            assert(served(db, (h + 1) as nat, last as nat, room as nat) =~= Seq::<
                BlockV,
            >::empty());
            done = true;
        } else {
            h = h + 1;
        }
    }
    out
}

/// Whether a node signs precommits: it is bonded, not halted, and no replica.
pub open spec fn precommits(n: NodeV) -> bool {
    &&& !n.serving_only
    &&& !n.halted()
    &&& state::account_of(n.db, n.address()).validating()
}

/// The precommit of a node for a block.
pub open spec fn own_vote(n: NodeV, b: BlockV) -> VoteV {
    VoteV {
        height: b.height,
        hash: b.hash,
        voter_pubkey: crypto::hex_text(n.public()),
        signature: crypto::hex_text(
            crypto::ed25519_signature(
                n.seed,
                text::utf8(consensus::vote_text(b.height as nat, b.hash)),
            ),
        ),
    }
}

/// A node after it recorded a precommit.
pub open spec fn with_vote(n: NodeV, v: VoteV) -> NodeV {
    let (r, t, d) = consensus::added(n.votes, n.db, v);
    NodeV { votes: t, db: d, ..n }
}

/// The height a precommit finalized.
pub open spec fn finalized_by(n: NodeV, v: VoteV) -> Option<u64> {
    match consensus::added(n.votes, n.db, v).0 {
        Ok(o) => o.finalized,
        Err(_) => None,
    }
}

/// What a node gossips after it precommitted to a block, what that finalized, and the
/// node.
#[verifier::opaque]
pub open spec fn voted_on(n: NodeV, b: BlockV) -> (Seq<GossipV>, Option<u64>, NodeV) {
    if precommits(n) {
        let v = own_vote(n, b);
        (seq![GossipV::Vote(v)], finalized_by(n, v), with_vote(n, v))
    } else {
        (Seq::empty(), None, n)
    }
}

/// Signs a precommit for a block this node accepts as valid and counts it; what to
/// gossip and what it finalized.
pub fn vote_on(node: &mut Node, block: &Block) -> (r: (Option<Vote>, Option<u64>))
    requires
        old(node).wf(),
    ensures
        final(node).wf(),
        state::follows(old(node).store, final(node).store),
        final(node)@ == voted_on(old(node)@, block@).2,
        r.1 == voted_on(old(node)@, block@).1,
        match r.0 {
            Some(v) => voted_on(old(node)@, block@).0 =~= seq![GossipV::Vote(v@)]
                && crypto::signature_ok(
                v@.voter_pubkey,
                text::utf8(consensus::vote_text(v@.height as nat, v@.hash)),
                v@.signature,
            ),
            None => voted_on(old(node)@, block@).0 =~= Seq::<GossipV>::empty(),
        },
{
    let ghost n = node@;
    proof {
        reveal(voted_on);
    }
    if node.serving_only || node.halted() || !node.is_bonded_validator() {
        return (None, None);
    }
    let bytes = consensus::vote_bytes(block.height, block.hash.as_str());
    let vote = Vote {
        height: block.height,
        hash: block.hash.clone(),
        voter_pubkey: node.producer.pubkey_hex(),
        signature: node.producer.sign_hex(bytes.as_slice()),
    };
    assert(vote@ =~= own_vote(n, block@));
    let done = node.votes.add(&mut node.store, vote.clone());
    assert(node@ =~= with_vote(n, own_vote(n, block@)));
    let finalized: Option<u64> = match done {
        Ok(o) => o.finalized,
        Err(_) => None,
    };
    (Some(vote), finalized)
}

/// A halted node and a replica precommit to nothing, and no node without enough stake.
pub proof fn law_only_active_validators_vote(n: NodeV, b: BlockV)
    requires
        n.halted() || n.serving_only || !state::account_of(n.db, n.address()).validating(),
    ensures
        voted_on(n, b).0 == Seq::<GossipV>::empty(),
        voted_on(n, b).2 == n,
{
    reveal(voted_on);
}

/// A node after it tried to report evidence.
#[verifier::opaque]
pub open spec fn reported(n: NodeV, e: EvidenceV) -> NodeV {
    match chain::report_of(n, e) {
        Err(_) => n,
        Ok(t) => chain::submitted(n, t, n.floor()).1,
    }
}

/// Whether a report of evidence is accepted.
#[verifier::opaque]
pub open spec fn report_accepted(n: NodeV, e: EvidenceV) -> bool {
    match chain::report_of(n, e) {
        Err(_) => false,
        Ok(t) => chain::submitted(n, t, n.floor()).0 is Ok,
    }
}

/// Tries to report evidence; whether the report is accepted.
fn report(node: &mut Node, evidence: &Evidence) -> (r: bool)
    requires
        old(node).wf(),
    ensures
        final(node).wf(),
        state::follows(old(node).store, final(node).store),
        r == report_accepted(old(node)@, evidence@),
        final(node)@ == reported(old(node)@, evidence@),
{
    proof {
        reveal(reported);
        reveal(report_accepted);
    }
    node.submit_report(evidence).is_ok()
}

/// A node after it tried to report all evidence of a list.
pub open spec fn reported_all(n: NodeV, es: Seq<EvidenceV>) -> NodeV
    decreases es.len(),
{
    if es.len() == 0 {
        n
    } else {
        reported(reported_all(n, es.drop_last()), es.last())
    }
}

/// What a node gossips of evidence.
pub open spec fn evidence_gossip(es: Seq<EvidenceV>) -> Seq<GossipV> {
    es.map_values(|e: EvidenceV| GossipV::Evidence(e))
}

/// Reports the proofs the vote tracker collected and gossips them. Reporting is open to
/// anyone and pays a bounty, so honest nodes race to do it.
pub fn flush_vote_evidence(node: &mut Node, out: &mut Vec<Gossip>)
    requires
        old(node).wf(),
    ensures
        final(node).wf(),
        state::follows(old(node).store, final(node).store),
        rank::views(final(out)@) == rank::views(old(out)@) + evidence_gossip(
            old(node)@.votes.evidence,
        ),
        final(node)@ == reported_all(
            NodeV {
                votes: consensus::TrackerV {
                    evidence: Seq::empty(),
                    ..old(node)@.votes
                },
                ..old(node)@
            },
            old(node)@.votes.evidence,
        ),
{
    let ghost n = node@;
    let list = node.votes.take_evidence();
    let ghost es = rank::views(list@);
    let ghost m = NodeV {
        votes: consensus::TrackerV { evidence: Seq::empty(), ..n.votes },
        ..n
    };
    let ghost before = rank::views(out@);
    let mut i: usize = 0;
    proof {
        assert(node@ =~= m);
        assert(es.take(0) =~= Seq::<EvidenceV>::empty());
        assert(rank::views(out@) =~= before + evidence_gossip(es.take(0)));
    }
    while i < list.len()
        invariant
            i <= list@.len(),
            es == rank::views(list@),
            node.wf(),
            state::follows(old(node).store, node.store),
            node@ == reported_all(m, es.take(i as int)),
            rank::views(out@) =~= before + evidence_gossip(es.take(i as int)),
        decreases list@.len() - i,
    {
        let ghost was = rank::views(out@);
        proof {
            assert(es.take(i + 1).drop_last() =~= es.take(i as int));
            assert(es.take(i + 1).last() == list@[i as int]@);
        }
        let _ = report(node, &list[i]);
        let g = Gossip::Evidence(list[i].clone());
        let ghost gv = g@;
        out.push(g);
        proof {
            assert(rank::views(out@) =~= was.push(gv));
            assert(evidence_gossip(es.take(i + 1)) =~= evidence_gossip(es.take(i as int)).push(gv));
        }
        i = i + 1;
    }
    assert(es.take(es.len() as int) =~= es);
}

/// Outcome of importing a block at a time.
#[verifier::opaque]
pub open spec fn import_of(n: NodeV, b: BlockV, now: u128) -> (Result<bool, Seq<char>>, NodeV) {
    chain::imported(n, b, now)
}

/// Imports a block at a time.
fn import(node: &mut Node, block: &Block, now: u128) -> (r: Result<bool, String>)
    requires
        old(node).wf(),
    ensures
        final(node).wf(),
        state::follows(old(node).store, final(node).store),
        chain::imports(r, import_of(old(node)@, block@, now).0),
        final(node)@ == import_of(old(node)@, block@, now).1,
{
    proof {
        reveal(import_of);
    }
    node.import_block_at(block, now)
}

/// Outcome of submitting a transaction at the current fee floor.
#[verifier::opaque]
pub open spec fn submission_of(n: NodeV, t: TxV) -> (Result<Seq<char>, Seq<char>>, NodeV) {
    chain::submitted(n, t, n.floor())
}

/// Submits a transaction.
fn submit(node: &mut Node, tx: Transaction)
    requires
        old(node).wf(),
    ensures
        final(node).wf(),
        state::follows(old(node).store, final(node).store),
        final(node)@ == submission_of(old(node)@, tx@).1,
{
    proof {
        reveal(submission_of);
    }
    let _ = node.accept_tx(tx);
}

/// What a node does about a precommit of a peer.
#[verifier::opaque]
pub open spec fn on_vote_of(n: NodeV, v: VoteV) -> (ReactionV, NodeV) {
    let m = with_vote(n, v);
    match consensus::added(n.votes, n.db, v).0 {
        Ok(o) => (
            ReactionV {
                gossip: if o.fresh {
                    seq![GossipV::Vote(v)]
                } else {
                    Seq::empty()
                },
                finalized: o.finalized,
                ..idle()
            },
            m,
        ),
        Err(e) => if e == "equivocating vote: evidence recorded"@ {
            (
                ReactionV { gossip: evidence_gossip(m.votes.evidence), ..idle() },
                reported_all(
                    NodeV {
                        votes: consensus::TrackerV { evidence: Seq::empty(), ..m.votes },
                        ..m
                    },
                    m.votes.evidence,
                ),
            )
        } else {
            (idle(), m)
        },
    }
}

/// What a node does about evidence of a peer: what holds and is accepted is passed on.
pub open spec fn on_evidence_of(n: NodeV, e: EvidenceV) -> (ReactionV, NodeV) {
    if e.verdict() is Err {
        (idle(), n)
    } else {
        (
            ReactionV {
                gossip: if report_accepted(n, e) {
                    seq![GossipV::Evidence(e)]
                } else {
                    Seq::empty()
                },
                ..idle()
            },
            reported(n, e),
        )
    }
}

/// What a double sign that a block shows makes a node gossip, and the node after it.
pub open spec fn on_double_sign(n: NodeV, b: BlockV) -> (Seq<GossipV>, NodeV) {
    match chain::double_sign(n.db, b) {
        Some(e) => (seq![GossipV::Evidence(e)], reported(n, e)),
        None => (Seq::empty(), n),
    }
}

/// What a node does about a block of a peer: a conflicting block is proof against its
/// producer; a good one is adopted, precommitted to and passed on; one beyond the next
/// height shows a gap; any other bad one is misbehaviour, unless the node is halted and
/// takes no block at all.
pub open spec fn on_block_of(n: NodeV, b: BlockV, now: u128) -> (ReactionV, NodeV) {
    let (proofs, m) = on_double_sign(n, b);
    let (r, k) = import_of(m, b, now);
    match r {
        Ok(fresh) => if fresh {
            let (mine, done, v) = voted_on(k, b);
            (
                ReactionV {
                    gossip: proofs + mine + seq![GossipV::Block(b)],
                    finalized: done,
                    ..idle()
                },
                v,
            )
        } else {
            (ReactionV { gossip: proofs, ..idle() }, k)
        },
        Err(_) => if b.height > tip_of(k.db) + 1 {
            (ReactionV { gossip: proofs, sync: true, ..idle() }, k)
        } else if k.halted() {
            (ReactionV { gossip: proofs, ..idle() }, k)
        } else {
            (ReactionV { gossip: proofs, penalty: COST_BAD_BLOCK, ..idle() }, k)
        },
    }
}

/// A halted node takes no block, and holds that against nobody.
pub proof fn law_halted_node_blames_nobody(n: NodeV, b: BlockV, now: u128)
    requires
        n.halted(),
    ensures
        on_block_of(n, b, now).0.penalty == 0,
{
    reveal(reported);
    reveal(import_of);
    let m = on_double_sign(n, b).1;
    assert(m.db == n.db);
    if chain::imported(m, b, now).0 is Err {
        chain::law_refused_block_changes_nothing(m, b, now);
    }
}

/// What a node does about a message at a time, and the node after it.
pub open spec fn reacted(n: NodeV, m: MsgV, now: u128) -> (ReactionV, NodeV) {
    match m {
        MsgV::Status => (
            ReactionV {
                reply: Some(
                    ReplyV::Status {
                        height: tip_of(n.db) as u64,
                        hash: state::tip_hash_of(n.db),
                        finalized: state::finalized_of(n.db) as u64,
                        earliest: state::pruned_below_of(n.db) as u64,
                    },
                ),
                ..idle()
            },
            n,
        ),
        MsgV::GetBlocks { from, limit } => (
            ReactionV {
                reply: Some(
                    ReplyV::Blocks(served(n.db, from as nat, tip_of(n.db), batch_of(limit))),
                ),
                ..idle()
            },
            n,
        ),
        MsgV::Tx(t) => (idle(), submission_of(n, t).1),
        MsgV::Vote(v) => on_vote_of(n, v),
        MsgV::Evidence(e) => on_evidence_of(n, e),
        MsgV::Block(b) => on_block_of(n, b, now),
        MsgV::Other => (idle(), n),
    }
}

fn react_vote(node: &mut Node, vote: Vote) -> (r: Reaction)
    requires
        old(node).wf(),
    ensures
        final(node).wf(),
        state::follows(old(node).store, final(node).store),
        (r@, final(node)@) == on_vote_of(old(node)@, vote@),
{
    let ghost n = node@;
    let ghost v = vote@;
    proof {
        reveal(on_vote_of);
    }
    let copy = vote.clone();
    let done = node.votes.add(&mut node.store, vote);
    assert(node@ =~= with_vote(n, v));
    let mut out = nothing();
    match done {
        Ok(o) => {
            out.finalized = o.finalized;
            if o.fresh {
                out.gossip.push(Gossip::Vote(copy));
            }
            assert(out@ =~= on_vote_of(n, v).0);
        },
        Err(e) => {
            if text::same(e.as_str(), "equivocating vote: evidence recorded") {
                flush_vote_evidence(node, &mut out.gossip);
            }
            assert(out@ =~= on_vote_of(n, v).0);
        },
    }
    out
}

fn react_evidence(node: &mut Node, evidence: Evidence) -> (r: Reaction)
    requires
        old(node).wf(),
    ensures
        final(node).wf(),
        state::follows(old(node).store, final(node).store),
        (r@, final(node)@) == on_evidence_of(old(node)@, evidence@),
{
    let ghost n = node@;
    let ghost e = evidence@;
    let mut out = nothing();
    match evidence.verify() {
        Err(_) => {
            return out;
        },
        Ok(_) => {},
    }
    if report(node, &evidence) {
        out.gossip.push(Gossip::Evidence(evidence));
    }
    assert(out@ =~= on_evidence_of(n, e).0);
    out
}

fn react_block(node: &mut Node, block: Block, now: u128) -> (r: Reaction)
    requires
        old(node).wf(),
    ensures
        final(node).wf(),
        state::follows(old(node).store, final(node).store),
        (r@, final(node)@) == on_block_of(old(node)@, block@, now),
{
    let ghost n = node@;
    let ghost b = block@;
    let mut out = nothing();
    match node.detect_double_sign(&block) {
        Some(e) => {
            let _ = report(node, &e);
            out.gossip.push(Gossip::Evidence(e));
        },
        None => {},
    }
    let ghost proofs = on_double_sign(n, b).0;
    assert(rank::views(out.gossip@) =~= proofs);
    assert(node@ == on_double_sign(n, b).1);
    match import(node, &block, now) {
        Ok(fresh) => {
            if fresh {
                let ghost k = node@;
                let (mine, done) = vote_on(node, &block);
                match mine {
                    Some(v) => {
                        out.gossip.push(Gossip::Vote(v));
                    },
                    None => {},
                }
                assert(rank::views(out.gossip@) =~= proofs + voted_on(k, b).0);
                out.finalized = done;
                out.gossip.push(Gossip::Block(block));
                assert(rank::views(out.gossip@) =~= proofs + voted_on(k, b).0 + seq![
                    GossipV::Block(b),
                ]);
            }
        },
        Err(_) => {
            let last = tip(&node.store);
            if block.height > last && block.height - last > 1 {
                out.sync = true;
            } else if !node.halted() {
                out.penalty = COST_BAD_BLOCK;
            }
        },
    }
    assert(out@ =~= on_block_of(n, b, now).0);
    out
}

/// Handles a message of a peer at a time.
pub fn handle_msg(node: &mut Node, msg: Msg, now: u128) -> (r: Reaction)
    requires
        old(node).wf(),
    ensures
        final(node).wf(),
        state::follows(old(node).store, final(node).store),
        (r@, final(node)@) == reacted(old(node)@, msg@, now),
{
    let ghost n = node@;
    let mut out = nothing();
    match msg {
        Msg::Status => {
            out.reply = Some(
                Reply::Status {
                    height: tip(&node.store),
                    hash: node.store.tip_hash(),
                    finalized: node.store.finalized_height(),
                    earliest: node.store.pruned_below(),
                },
            );
            assert(out@ =~= reacted(n, MsgV::Status, now).0);
            out
        },
        Msg::GetBlocks { from, limit } => {
            out.reply = Some(Reply::Blocks(serve_blocks(&node.store, from, limit)));
            assert(out@ =~= reacted(n, MsgV::GetBlocks { from, limit }, now).0);
            out
        },
        Msg::Tx(t) => {
            submit(node, t);
            out
        },
        Msg::Vote(v) => react_vote(node, v),
        Msg::Evidence(e) => react_evidence(node, e),
        Msg::Block(b) => react_block(node, b, now),
        Msg::Other => out,
    }
}

// ---------------------------------------------------------------- catching up

/// What a node does about a peer's progress.
#[derive(Clone, Copy, PartialEq, Eq, Structural, Debug)]
pub enum Pull {
    /// The peer is behind.
    Nothing,
    /// The peer pruned what is missing: blocks cannot bridge the gap, a snapshot can.
    Pruned,
    /// Ask for blocks from a height.
    From(u64),
}

/// What to pull from a peer: the blocks above the tip, when it is not behind and still
/// has them.
pub open spec fn pull_of(tip: u64, peer_height: u64, peer_earliest: u64) -> Pull {
    if peer_height < tip || tip == u64::MAX {
        Pull::Nothing
    } else if peer_earliest > tip + 1 {
        Pull::Pruned
    } else {
        Pull::From((tip + 1) as u64)
    }
}

/// Decides what to pull from a peer.
pub fn plan_pull(tip: u64, peer_height: u64, peer_earliest: u64) -> (r: Pull)
    ensures
        r == pull_of(tip, peer_height, peer_earliest),
{
    if peer_height < tip || tip == u64::MAX {
        return Pull::Nothing;
    }
    let from: u64 = tip + 1;
    if peer_earliest > from {
        return Pull::Pruned;
    }
    Pull::From(from)
}

/// Whether a peer's chain is preferred: the longer one, and at equal length the one
/// whose block at the first divergent height has the lower hash. Every honest node
/// reaches the same verdict.
pub open spec fn preferred(ours: nat, theirs: nat, local: Option<Seq<char>>, hash: Seq<char>) -> bool {
    if theirs != ours {
        theirs > ours
    } else {
        match local {
            Some(l) => text::lex_lt(text::utf8(hash), text::utf8(l)),
            None => true,
        }
    }
}

/// The hash of the stored block at a height.
pub open spec fn hash_at(db: Db, height: nat) -> Option<Seq<char>> {
    match state::block_of(db, height) {
        Some(b) => Some(b.hash),
        None => None,
    }
}

/// What pulled blocks make a node gossip, where they stopped and why, and the node.
pub open spec fn pulled(n: NodeV, bs: Seq<BlockV>, now: u128) -> (
    Seq<GossipV>,
    Option<(int, Seq<char>)>,
    NodeV,
)
    decreases bs.len(),
{
    if bs.len() == 0 {
        (Seq::empty(), None, n)
    } else {
        let (g, stop, m) = pulled(n, bs.drop_last(), now);
        if stop is Some {
            (g, stop, m)
        } else {
            let (r, k) = import_of(m, bs.last(), now);
            match r {
                Ok(fresh) => if fresh {
                    let (mine, done, v) = voted_on(k, bs.last());
                    (g + mine, None, v)
                } else {
                    (g, None, k)
                },
                Err(e) => (g, Some((bs.len() - 1, e)), k),
            }
        }
    }
}

proof fn lemma_pulled_stops(n: NodeV, bs: Seq<BlockV>, k: int, now: u128)
    requires
        0 <= k <= bs.len(),
        pulled(n, bs.take(k), now).1 is Some,
    ensures
        pulled(n, bs, now) == pulled(n, bs.take(k), now),
    decreases bs.len(),
{
    if k == bs.len() {
        assert(bs.take(k) =~= bs);
    } else {
        assert(bs.drop_last().take(k) =~= bs.take(k));
        lemma_pulled_stops(n, bs.drop_last(), k, now);
    }
}

/// Takes in blocks pulled from a peer, in order, precommitting to each that is new,
/// until one is refused: what to gossip, and the place and reason of the refusal.
pub fn take_blocks(node: &mut Node, blocks: &Vec<Block>, now: u128) -> (r: (
    Vec<Gossip>,
    Option<(usize, String)>,
))
    requires
        old(node).wf(),
    ensures
        final(node).wf(),
        state::follows(old(node).store, final(node).store),
        ({
            let (g, stop, m) = pulled(old(node)@, rank::views(blocks@), now);
            &&& rank::views(r.0@) == g
            &&& final(node)@ == m
            &&& match r.1 {
                Some(p) => stop == Some((p.0 as int, p.1@)) && p.0 < blocks@.len(),
                None => stop is None,
            }
        }),
{
    let ghost bs = rank::views(blocks@);
    let ghost n = node@;
    let mut out: Vec<Gossip> = Vec::new();
    let mut i: usize = 0;
    proof {
        assert(bs.take(0) =~= Seq::<BlockV>::empty());
        assert(rank::views(out@) =~= Seq::<GossipV>::empty());
    }
    while i < blocks.len()
        invariant
            i <= blocks@.len(),
            bs == rank::views(blocks@),
            n == old(node)@,
            node.wf(),
            state::follows(old(node).store, node.store),
            pulled(n, bs.take(i as int), now) == (
                rank::views(out@),
                None::<(int, Seq<char>)>,
                node@,
            ),
        decreases blocks@.len() - i,
    {
        proof {
            assert(bs.take(i + 1).drop_last() =~= bs.take(i as int));
            assert(bs.take(i + 1).last() == blocks@[i as int]@);
        }
        let ghost was = rank::views(out@);
        match import(node, &blocks[i], now) {
            Ok(fresh) => {
                if fresh {
                    let ghost k = node@;
                    let (mine, _done) = vote_on(node, &blocks[i]);
                    match mine {
                        Some(v) => {
                            out.push(Gossip::Vote(v));
                        },
                        None => {},
                    }
                    assert(rank::views(out@) =~= was + voted_on(k, blocks@[i as int]@).0);
                }
            },
            Err(e) => {
                proof {
                    lemma_pulled_stops(n, bs, i + 1, now);
                }
                return (out, Some((i, e)));
            },
        }
        i = i + 1;
    }
    assert(bs.take(bs.len() as int) =~= bs);
    (out, None)
}

/// Whether to adopt a peer's chain.
pub fn should_adopt(node: &Node, peer_block: &Block, peer_height: u64) -> (r: bool)
    requires
        node.wf(),
    ensures
        r == preferred(
            tip_of(node@.db),
            peer_height as nat,
            hash_at(node@.db, peer_block@.height as nat),
            peer_block@.hash,
        ),
{
    let ours = tip(&node.store);
    if peer_height != ours {
        return peer_height > ours;
    }
    match node.store.block(peer_block.height) {
        Some(l) => text::before(peer_block.hash.as_str(), l.hash.as_str()),
        None => true,
    }
}

/// Of two nodes that forked, exactly one follows the other: never both, never neither.
pub proof fn law_fork_choice_is_decisive(a: nat, b: nat, ha: Seq<char>, hb: Seq<char>)
    requires
        ha != hb,
    ensures
        preferred(a, b, Some(ha), hb) != preferred(b, a, Some(hb), ha),
{
    let x = text::utf8(ha);
    let y = text::utf8(hb);
    if x == y {
        text::lemma_utf8_injective(ha, hb);
    }
    text::lemma_lex_total(x, y);
    if text::lex_lt(x, y) && text::lex_lt(y, x) {
        text::lemma_lex_transitive(x, y, x);
        text::lemma_lex_irreflexive(x);
    }
}

/// Whether a refused block starts a replay of a peer's chain: the chains forked, the
/// peer's is preferred, and the last replay is long enough ago.
pub fn should_replay(
    node: &Node,
    error: &str,
    block: &Block,
    peer_height: u64,
    last_reset: u64,
    now_secs: u64,
) -> (r: bool)
    requires
        node.wf(),
    ensures
        r == {
            &&& text::holds_text(error@, "parent hash mismatch"@)
            &&& preferred(
                tip_of(node@.db),
                peer_height as nat,
                hash_at(node@.db, block@.height as nat),
                block@.hash,
            )
            &&& now_secs > last_reset + RESET_COOLDOWN_SECS
        },
{
    text::has_text(error, "parent hash mismatch") && should_adopt(node, block, peer_height)
        && now_secs > last_reset && now_secs - last_reset > RESET_COOLDOWN_SECS
}

/// The block of a height among blocks.
pub open spec fn found_at(bs: Seq<BlockV>, height: u64) -> Option<BlockV>
    decreases bs.len(),
{
    if bs.len() == 0 {
        None
    } else {
        match found_at(bs.drop_last(), height) {
            Some(b) => Some(b),
            None => if bs.last().height == height {
                Some(bs.last())
            } else {
                None
            },
        }
    }
}

/// The first block of a height among those a peer served.
pub fn peer_block(blocks: &Vec<Block>, height: u64) -> (r: Option<Block>)
    ensures
        chain::block_view(r) == found_at(rank::views(blocks@), height),
{
    let ghost bs = rank::views(blocks@);
    let mut i: usize = 0;
    assert(bs.take(0) =~= Seq::<BlockV>::empty());
    while i < blocks.len()
        invariant
            i <= blocks@.len(),
            bs == rank::views(blocks@),
            found_at(bs.take(i as int), height) is None,
        decreases blocks@.len() - i,
    {
        proof {
            assert(bs.take(i + 1).drop_last() =~= bs.take(i as int));
            assert(bs.take(i + 1).last() == blocks@[i as int]@);
        }
        if blocks[i].height == height {
            proof {
                lemma_found(bs, i + 1, height);
            }
            return Some(blocks[i].clone());
        }
        i = i + 1;
    }
    assert(bs.take(bs.len() as int) =~= bs);
    None
}

proof fn lemma_found(bs: Seq<BlockV>, k: int, height: u64)
    requires
        0 <= k <= bs.len(),
        found_at(bs.take(k), height) is Some,
    ensures
        found_at(bs, height) == found_at(bs.take(k), height),
    decreases bs.len(),
{
    if k == bs.len() {
        assert(bs.take(k) =~= bs);
    } else {
        assert(bs.drop_last().take(k) =~= bs.take(k));
        lemma_found(bs.drop_last(), k, height);
    }
}

/// The highest height up to a bound whose block is stored, zero when there is none.
pub open spec fn backed(db: Db, height: nat) -> nat
    decreases height,
{
    if height == 0 || state::block_of(db, height) is Some {
        height
    } else {
        backed(db, (height - 1) as nat)
    }
}

/// The height at which a fork claim is held against the history a node considers
/// irreversible: the finalized height, or what stands for it locally.
pub open spec fn claim_height_of(db: Db) -> nat {
    let f = state::finalized_of(db);
    let t = tip_of(db);
    backed(
        db,
        if f < t {
            f
        } else {
            t
        },
    )
}

/// The height at which a fork claim is checked.
pub fn claim_height(store: &Store) -> (r: u64)
    requires
        store.wf(),
    ensures
        r == claim_height_of(store@.db),
{
    let f = store.finalized_height();
    let t = tip(store);
    let mut h: u64 = if f < t {
        f
    } else {
        t
    };
    let ghost want = claim_height_of(store@.db);
    while h > 0 && store.block(h).is_none()
        invariant
            store.wf(),
            backed(store@.db, h as nat) == want,
        decreases h,
    {
        h = h - 1;
    }
    h
}

/// A prefix of a hash for a message.
pub open spec fn short_hash(h: Seq<char>) -> Seq<char> {
    if h.len() < 8 {
        h
    } else {
        h.take(8)
    }
}

/// Verdict on a peer's claim of a longer chain, before any local state is given up: it
/// must show the signed block it claims as its tip, and its chain must hold the history
/// this node finalized.
pub open spec fn claim_verdict(
    db: Db,
    peer_height: u64,
    top: Option<BlockV>,
    theirs: Option<BlockV>,
) -> Result<(), Seq<char>> {
    let check = claim_height_of(db);
    match top {
        None => Err("peer cannot serve its own claimed tip"@),
        Some(t) => if t.height != peer_height {
            Err("peer served the wrong height"@)
        } else if t.hash != t.hash_text() {
            Err("peer tip hash does not match its header"@)
        } else if !t.produced() {
            Err("peer tip carries no valid producer signature"@)
        } else if check == 0 {
            Ok(())
        } else {
            match (state::block_of(db, check), theirs) {
                (None, _) => Err("local finalized block missing"@),
                (_, None) => Err("peer cannot serve our finalized height"@),
                (Some(o), Some(p)) => if p.hash != o.hash {
                    Err(
                        "peer chain diverges below finalized height "@ + text::dec(check)
                            + " (ours "@ + short_hash(o.hash) + " theirs "@ + short_hash(p.hash)
                            + ")"@,
                    )
                } else {
                    Ok(())
                },
            }
        },
    }
}

/// Model of a reference to an optional block.
pub open spec fn ref_view(b: Option<&Block>) -> Option<BlockV> {
    match b {
        Some(b) => Some(b@),
        None => None,
    }
}

/// Checks a peer's claim of a longer chain. `top` is the block the peer served at its
/// claimed height, `theirs` the one it served at the height of `claim_height`.
pub fn verify_peer_claim(
    store: &Store,
    peer_height: u64,
    top: Option<&Block>,
    theirs: Option<&Block>,
) -> (r: Result<(), String>)
    requires
        store.wf(),
    ensures
        state::agrees(
            r,
            claim_verdict(store@.db, peer_height, ref_view(top), ref_view(theirs)),
        ),
{
    let t = match top {
        None => {
            return Err(text::copy("peer cannot serve its own claimed tip"));
        },
        Some(t) => t,
    };
    if t.height != peer_height {
        return Err(text::copy("peer served the wrong height"));
    }
    if !text::same(t.hash.as_str(), t.compute_hash().as_str()) {
        return Err(text::copy("peer tip hash does not match its header"));
    }
    if !t.verify_producer() {
        return Err(text::copy("peer tip carries no valid producer signature"));
    }
    let check = claim_height(store);
    if check == 0 {
        return Ok(());
    }
    let ours = match store.block(check) {
        None => {
            return Err(text::copy("local finalized block missing"));
        },
        Some(b) => b,
    };
    let p = match theirs {
        None => {
            return Err(text::copy("peer cannot serve our finalized height"));
        },
        Some(b) => b,
    };
    if !text::same(p.hash.as_str(), ours.hash.as_str()) {
        let mut m = text::copy("peer chain diverges below finalized height ");
        text::push_dec(&mut m, check as u128);
        m.append(" (ours ");
        m.append(text::prefix(ours.hash.as_str(), 8).as_str());
        m.append(" theirs ");
        m.append(text::prefix(p.hash.as_str(), 8).as_str());
        m.append(")");
        return Err(m);
    }
    Ok(())
}

/// A node that holds finalized history gives nothing up for a peer whose chain does not
/// contain it.
pub proof fn law_finality_outranks_length(
    db: Db,
    peer_height: u64,
    top: Option<BlockV>,
    theirs: Option<BlockV>,
)
    requires
        claim_height_of(db) > 0,
        claim_verdict(db, peer_height, top, theirs) is Ok,
    ensures
        state::block_of(db, claim_height_of(db)) is Some,
        theirs is Some,
        theirs->Some_0.hash == state::block_of(db, claim_height_of(db))->Some_0.hash,
        top is Some && top->Some_0.produced(),
{
}

// ---------------------------------------------------------------- replay

/// A replay of a peer's chain from genesis.
#[derive(Clone, Copy, PartialEq, Eq, Structural, Debug)]
pub struct Replay {
    /// Height of the next block to ask for.
    pub next: u64,
    /// Height of the peer as far as known.
    pub target: u64,
}

/// What a replay does next.
pub enum ReplayStep {
    /// Ask for blocks from a height.
    Fetch(u64),
    /// Ask the peer how far it is now.
    AskHeight,
    /// Done.
    Finished,
    /// A block did not fit; what was replayed is kept.
    Stopped(u64, String),
}

/// Model of what a replay does next.
pub enum ReplayStepV {
    Fetch(u64),
    AskHeight,
    Finished,
    Stopped(u64, Seq<char>),
}

impl View for ReplayStep {
    type V = ReplayStepV;

    open spec fn view(&self) -> ReplayStepV {
        match self {
            ReplayStep::Fetch(h) => ReplayStepV::Fetch(*h),
            ReplayStep::AskHeight => ReplayStepV::AskHeight,
            ReplayStep::Finished => ReplayStepV::Finished,
            ReplayStep::Stopped(h, e) => ReplayStepV::Stopped(*h, e@),
        }
    }
}

/// What a replay asks for.
pub open spec fn wanted(p: Replay) -> ReplayStepV {
    if p.next <= p.target {
        ReplayStepV::Fetch(p.next)
    } else {
        ReplayStepV::Finished
    }
}

/// The height after a block.
pub open spec fn height_after(h: u64) -> u64 {
    if h == u64::MAX {
        h
    } else {
        (h + 1) as u64
    }
}

/// A node after blocks were imported in order until one was refused: the next height,
/// the refusal if there was one, and the node.
pub open spec fn taken_in(n: NodeV, bs: Seq<BlockV>, next: u64, now: u128) -> (
    u64,
    Option<(u64, Seq<char>)>,
    NodeV,
)
    decreases bs.len(),
{
    if bs.len() == 0 {
        (next, None, n)
    } else {
        let (k, stop, m) = taken_in(n, bs.drop_last(), next, now);
        if stop is Some {
            (k, stop, m)
        } else {
            let (r, p) = import_of(m, bs.last(), now);
            match r {
                Ok(_) => (height_after(bs.last().height), None, p),
                Err(e) => (k, Some((bs.last().height, e)), p),
            }
        }
    }
}

/// What a replay does after a peer's answer: the step, the replay and the node.
pub open spec fn replayed(p: Replay, n: NodeV, bs: Seq<BlockV>, now: u128) -> (
    ReplayStepV,
    Replay,
    NodeV,
) {
    if bs.len() == 0 {
        (ReplayStepV::AskHeight, p, n)
    } else {
        let (k, stop, m) = taken_in(n, bs, p.next, now);
        let q = Replay { next: k, ..p };
        match stop {
            Some((h, e)) => (ReplayStepV::Stopped(h, e), q, m),
            None => if k == p.next {
                (ReplayStepV::Finished, q, m)
            } else {
                (wanted(q), q, m)
            },
        }
    }
}

impl Replay {
    /// A replay up to a peer's height.
    pub fn new(peer_height: u64) -> (r: Replay)
        ensures
            r == (Replay { next: 1, target: peer_height }),
    {
        Replay { next: 1, target: peer_height }
    }

    /// What the replay asks for.
    pub fn wants(&self) -> (r: ReplayStep)
        ensures
            r@ == wanted(*self),
    {
        if self.next <= self.target {
            ReplayStep::Fetch(self.next)
        } else {
            ReplayStep::Finished
        }
    }

    /// Takes in the blocks a peer served.
    pub fn on_blocks(&mut self, node: &mut Node, blocks: &Vec<Block>, now: u128) -> (r: ReplayStep)
        requires
            old(node).wf(),
        ensures
            final(node).wf(),
            state::follows(old(node).store, final(node).store),
            (r@, *final(self), final(node)@) == replayed(
                *old(self),
                old(node)@,
                rank::views(blocks@),
                now,
            ),
    {
        let ghost bs = rank::views(blocks@);
        let ghost n = node@;
        if blocks.len() == 0 {
            return ReplayStep::AskHeight;
        }
        let before: u64 = self.next;
        let target: u64 = self.target;
        let mut next: u64 = self.next;
        let mut i: usize = 0;
        assert(bs.take(0) =~= Seq::<BlockV>::empty());
        while i < blocks.len()
            invariant
                i <= blocks@.len(),
                bs == rank::views(blocks@),
                n == old(node)@,
                node.wf(),
                state::follows(old(node).store, node.store),
                before == old(self).next,
                target == old(self).target,
                *self == *old(self),
                taken_in(n, bs.take(i as int), before, now) == (
                    next,
                    None::<(u64, Seq<char>)>,
                    node@,
                ),
            decreases blocks@.len() - i,
        {
            proof {
                assert(bs.take(i + 1).drop_last() =~= bs.take(i as int));
                assert(bs.take(i + 1).last() == blocks@[i as int]@);
            }
            match import(node, &blocks[i], now) {
                Ok(_) => {
                    let h = blocks[i].height;
                    next = if h == u64::MAX {
                        h
                    } else {
                        h + 1
                    };
                },
                Err(e) => {
                    proof {
                        lemma_taken_stops(n, bs, i + 1, before, now);
                    }
                    self.next = next;
                    return ReplayStep::Stopped(blocks[i].height, e);
                },
            }
            i = i + 1;
        }
        assert(bs.take(bs.len() as int) =~= bs);
        self.next = next;
        if next == before {
            return ReplayStep::Finished;
        }
        self.wants()
    }

    /// Takes in how far the peer is now. It keeps producing while this node replays.
    pub fn on_height(&mut self, live: Option<u64>) -> (r: ReplayStep)
        ensures
            final(self).next == old(self).next,
            ({
                let far = match live {
                    Some(h) => h,
                    None => old(self).target,
                };
                if far > old(self).target {
                    final(self).target == far && r@ == wanted(*final(self))
                } else {
                    *final(self) == *old(self) && r@ == ReplayStepV::Finished
                }
            }),
    {
        match live {
            Some(h) => {
                if h > self.target {
                    self.target = h;
                    return self.wants();
                }
            },
            None => {},
        }
        ReplayStep::Finished
    }
}

proof fn lemma_taken_stops(n: NodeV, bs: Seq<BlockV>, k: int, next: u64, now: u128)
    requires
        0 <= k <= bs.len(),
        taken_in(n, bs.take(k), next, now).1 is Some,
    ensures
        taken_in(n, bs, next, now) == taken_in(n, bs.take(k), next, now),
    decreases bs.len(),
{
    if k == bs.len() {
        assert(bs.take(k) =~= bs);
    } else {
        assert(bs.drop_last().take(k) =~= bs.take(k));
        lemma_taken_stops(n, bs.drop_last(), k, next, now);
    }
}

/// Whether a peer can serve a replay from genesis: one that pruned its history cannot,
/// and local state is kept.
pub fn can_replay(peer_earliest: u64) -> (r: bool)
    ensures
        r == (peer_earliest <= 1),
{
    peer_earliest <= 1
}

} // verus!
