//! Push notifications.
//!
//! The bus keeps the subscriptions and routes every event to the ones it belongs to.
//! It never waits: what is routed goes to an outbox that the owner of the sockets
//! drains, and a subscriber that keeps failing to take its frames is dropped.

use crate::contracts::Receipt;
use crate::contracts::ReceiptV;
use crate::crypto;
use crate::text;
use crate::types::TxKind;
use vstd::prelude::*;
use vstd::string::*;

verus! {

/// Queue depth per subscription. Deep enough to absorb a burst of blocks, small
/// enough that a dead consumer cannot hold memory hostage.
pub const QUEUE_DEPTH: usize = 256;

/// Consecutive failed sends tolerated before a subscription is considered dead.
pub const MAX_LAG_STRIKES: u32 = 3;

/// Upper bound on live subscriptions across all connections.
pub const MAX_SUBSCRIPTIONS: usize = 4_096;

/// Upper bound per connection, so one socket cannot take the whole table.
pub const MAX_SUBS_PER_CONN: usize = 64;

/// What an event is about.
#[derive(Clone, Copy, Debug, PartialEq, Eq, Structural)]
pub enum Topic {
    Heads,
    Finality,
    Mempool,
    Signature,
    Account,
    Logs,
}

/// Channels a client may subscribe to.
#[derive(Debug, PartialEq, Eq)]
pub enum Channel {
    /// Every new block header, produced here or imported from a peer.
    Heads,
    /// Fires when the finalized height advances.
    Finality,
    /// Every transaction admitted to the pool, before inclusion.
    Mempool,
    /// One specific transaction hash.
    Signature(String),
    /// Any block touching this address.
    Account(String),
    /// Contract activity; `None` means every contract.
    Logs(Option<String>),
}

/// Model of a channel: its topic and the key it is narrowed to.
#[verifier::ext_equal]
pub struct ChannelV {
    pub topic: Topic,
    pub key: Option<Seq<char>>,
}

impl View for Channel {
    type V = ChannelV;

    open spec fn view(&self) -> ChannelV {
        match self {
            Channel::Heads => ChannelV { topic: Topic::Heads, key: None },
            Channel::Finality => ChannelV { topic: Topic::Finality, key: None },
            Channel::Mempool => ChannelV { topic: Topic::Mempool, key: None },
            Channel::Signature(h) => ChannelV { topic: Topic::Signature, key: Some(h@) },
            Channel::Account(a) => ChannelV { topic: Topic::Account, key: Some(a@) },
            Channel::Logs(None) => ChannelV { topic: Topic::Logs, key: None },
            Channel::Logs(Some(c)) => ChannelV { topic: Topic::Logs, key: Some(c@) },
        }
    }
}

/// Name of a topic.
pub open spec fn topic_name(t: Topic) -> Seq<char> {
    match t {
        Topic::Heads => "heads"@,
        Topic::Finality => "finality"@,
        Topic::Mempool => "mempool"@,
        Topic::Signature => "signature"@,
        Topic::Account => "account"@,
        Topic::Logs => "logs"@,
    }
}

/// What happened, as far as subscribers are told.
pub enum Notice {
    /// A transaction entered the pool.
    Pooled { hash: String, from: String, kind: TxKind, fee: u128, pool_size: usize },
    /// A block was adopted.
    Head {
        height: u64,
        hash: String,
        parent_hash: String,
        timestamp_ms: u128,
        state_root: String,
        txs_root: String,
        producer: String,
        tx_count: usize,
        finalized_height: u64,
        base_fee: u128,
    },
    /// A transaction was included.
    Confirmed {
        hash: String,
        height: u64,
        finalized: bool,
        kind: TxKind,
        from: String,
        to: String,
        fee: u128,
    },
    /// A contract was deployed or called.
    Activity {
        contract: String,
        tx: String,
        height: u64,
        caller: String,
        receipt: Option<Receipt>,
    },
    /// An account was touched.
    Touched { address: String, height: u64, balance: u128, staked: u128, nonce: u64 },
    /// The finalized height advanced.
    Finalized { finalized_height: u64, height: u64 },
}

/// Model of a notice.
#[verifier::ext_equal]
pub enum NoticeV {
    Pooled { hash: Seq<char>, from: Seq<char>, kind: TxKind, fee: u128, pool_size: nat },
    Head {
        height: u64,
        hash: Seq<char>,
        parent_hash: Seq<char>,
        timestamp_ms: u128,
        state_root: Seq<char>,
        txs_root: Seq<char>,
        producer: Seq<char>,
        tx_count: nat,
        finalized_height: nat,
        base_fee: nat,
    },
    Confirmed {
        hash: Seq<char>,
        height: u64,
        finalized: bool,
        kind: TxKind,
        from: Seq<char>,
        to: Seq<char>,
        fee: u128,
    },
    Activity {
        contract: Seq<char>,
        tx: Seq<char>,
        height: u64,
        caller: Seq<char>,
        receipt: Option<ReceiptV>,
    },
    Touched { address: Seq<char>, height: u64, balance: u128, staked: u128, nonce: u64 },
    Finalized { finalized_height: nat, height: u64 },
}

/// Model of an optional receipt.
pub open spec fn receipt_view(r: Option<Receipt>) -> Option<ReceiptV> {
    match r {
        Some(r) => Some(r@),
        None => None,
    }
}

impl View for Notice {
    type V = NoticeV;

    open spec fn view(&self) -> NoticeV {
        match self {
            Notice::Pooled { hash, from, kind, fee, pool_size } => NoticeV::Pooled {
                hash: hash@,
                from: from@,
                kind: *kind,
                fee: *fee,
                pool_size: *pool_size as nat,
            },
            Notice::Head {
                height,
                hash,
                parent_hash,
                timestamp_ms,
                state_root,
                txs_root,
                producer,
                tx_count,
                finalized_height,
                base_fee,
            } => NoticeV::Head {
                height: *height,
                hash: hash@,
                parent_hash: parent_hash@,
                timestamp_ms: *timestamp_ms,
                state_root: state_root@,
                txs_root: txs_root@,
                producer: producer@,
                tx_count: *tx_count as nat,
                finalized_height: *finalized_height as nat,
                base_fee: *base_fee as nat,
            },
            Notice::Confirmed { hash, height, finalized, kind, from, to, fee } => NoticeV::Confirmed {
                hash: hash@,
                height: *height,
                finalized: *finalized,
                kind: *kind,
                from: from@,
                to: to@,
                fee: *fee,
            },
            Notice::Activity { contract, tx, height, caller, receipt } => NoticeV::Activity {
                contract: contract@,
                tx: tx@,
                height: *height,
                caller: caller@,
                receipt: receipt_view(*receipt),
            },
            Notice::Touched { address, height, balance, staked, nonce } => NoticeV::Touched {
                address: address@,
                height: *height,
                balance: *balance,
                staked: *staked,
                nonce: *nonce,
            },
            Notice::Finalized { finalized_height, height } => NoticeV::Finalized {
                finalized_height: *finalized_height as nat,
                height: *height,
            },
        }
    }
}

impl Clone for Notice {
    fn clone(&self) -> (r: Notice)
        ensures
            r@ == self@,
    {
        match self {
            Notice::Pooled { hash, from, kind, fee, pool_size } => Notice::Pooled {
                hash: hash.clone(),
                from: from.clone(),
                kind: *kind,
                fee: *fee,
                pool_size: *pool_size,
            },
            Notice::Head {
                height,
                hash,
                parent_hash,
                timestamp_ms,
                state_root,
                txs_root,
                producer,
                tx_count,
                finalized_height,
                base_fee,
            } => Notice::Head {
                height: *height,
                hash: hash.clone(),
                parent_hash: parent_hash.clone(),
                timestamp_ms: *timestamp_ms,
                state_root: state_root.clone(),
                txs_root: txs_root.clone(),
                producer: producer.clone(),
                tx_count: *tx_count,
                finalized_height: *finalized_height,
                base_fee: *base_fee,
            },
            Notice::Confirmed { hash, height, finalized, kind, from, to, fee } => Notice::Confirmed {
                hash: hash.clone(),
                height: *height,
                finalized: *finalized,
                kind: *kind,
                from: from.clone(),
                to: to.clone(),
                fee: *fee,
            },
            Notice::Activity { contract, tx, height, caller, receipt } => Notice::Activity {
                contract: contract.clone(),
                tx: tx.clone(),
                height: *height,
                caller: caller.clone(),
                receipt: match receipt {
                    Some(r) => Some(r.clone()),
                    None => None,
                },
            },
            Notice::Touched { address, height, balance, staked, nonce } => Notice::Touched {
                address: address.clone(),
                height: *height,
                balance: *balance,
                staked: *staked,
                nonce: *nonce,
            },
            Notice::Finalized { finalized_height, height } => Notice::Finalized {
                finalized_height: *finalized_height,
                height: *height,
            },
        }
    }
}

/// An event: what it is about, the hash, address or contract it is routed by, and what
/// subscribers are told.
pub struct Event {
    pub channel: Topic,
    pub key: Option<String>,
    pub payload: Notice,
}

/// Model of an event.
#[verifier::ext_equal]
pub struct EventV {
    pub channel: Topic,
    pub key: Option<Seq<char>>,
    pub payload: NoticeV,
}

/// Model of an optional key.
pub open spec fn key_view(k: Option<String>) -> Option<Seq<char>> {
    match k {
        Some(s) => Some(s@),
        None => None,
    }
}

impl View for Event {
    type V = EventV;

    open spec fn view(&self) -> EventV {
        EventV { channel: self.channel, key: key_view(self.key), payload: self.payload@ }
    }
}

impl Event {
    /// An event.
    pub fn new(channel: Topic, key: Option<String>, payload: Notice) -> (r: Event)
        ensures
            r@ == (EventV { channel, key: key_view(key), payload: payload@ }),
    {
        Event { channel, key, payload }
    }
}

impl Clone for Event {
    fn clone(&self) -> (r: Event)
        ensures
            r@ == self@,
    {
        Event {
            channel: self.channel,
            key: match &self.key {
                Some(k) => Some(k.clone()),
                None => None,
            },
            payload: self.payload.clone(),
        }
    }
}

// ---------------------------------------------------------------- channels

/// A digest in hexadecimal.
pub open spec fn is_digest(s: Seq<char>) -> bool {
    s.len() == 64 && forall|i: int| 0 <= i < s.len() ==> crypto::hex_value(#[trigger] s[i]) >= 0
}

/// The channel a subscription request asks for. Filters are mandatory where a missing
/// filter would turn a cheap subscription into every account update.
pub open spec fn channel_of(
    name: Seq<char>,
    hash: Option<Seq<char>>,
    address: Option<Seq<char>>,
    contract: Option<Seq<char>>,
) -> Result<ChannelV, Seq<char>> {
    if name == "heads"@ || name == "newHeads"@ {
        Ok(ChannelV { topic: Topic::Heads, key: None })
    } else if name == "finality"@ {
        Ok(ChannelV { topic: Topic::Finality, key: None })
    } else if name == "mempool"@ || name == "pending"@ {
        Ok(ChannelV { topic: Topic::Mempool, key: None })
    } else if name == "signature"@ {
        match hash {
            None => Err("signature subscription needs a hash"@),
            Some(h) => if !is_digest(text::trimmed(h)) {
                Err("hash must be 32 bytes of hex"@)
            } else {
                Ok(
                    ChannelV {
                        topic: Topic::Signature,
                        key: Some(text::ascii_lower_spec(text::trimmed(h))),
                    },
                )
            },
        }
    } else if name == "account"@ {
        match address {
            None => Err("account subscription needs an address"@),
            Some(a) => if !crypto::valid_address(text::trimmed(a)) {
                Err("invalid address"@)
            } else {
                Ok(ChannelV { topic: Topic::Account, key: Some(text::trimmed(a)) })
            },
        }
    } else if name == "logs"@ {
        Ok(
            ChannelV {
                topic: Topic::Logs,
                key: match contract {
                    Some(c) => Some(text::trimmed(c)),
                    None => None,
                },
            },
        )
    } else {
        Err("unknown channel '"@ + name + "'"@)
    }
}

/// Model of an optional text.
pub open spec fn str_view(s: Option<&str>) -> Option<Seq<char>> {
    match s {
        Some(s) => Some(s@),
        None => None,
    }
}

/// Whether a text is a digest in hexadecimal.
fn digest_like(s: &str) -> (r: bool)
    ensures
        r == is_digest(s@),
{
    let v = text::chars_of(s);
    if v.len() != 64 {
        return false;
    }
    let mut i: usize = 0;
    while i < v.len()
        invariant
            i <= v@.len(),
            v@ == s@,
            v@.len() == 64,
            forall|j: int| 0 <= j < i ==> crypto::hex_value(#[trigger] s@[j]) >= 0,
        decreases v@.len() - i,
    {
        let c = v[i];
        if !(('0' <= c && c <= '9') || ('a' <= c && c <= 'f') || ('A' <= c && c <= 'F')) {
            assert(crypto::hex_value(s@[i as int]) < 0);
            return false;
        }
        i = i + 1;
    }
    true
}

impl Channel {
    /// Name of the channel.
    pub fn label(&self) -> (r: &'static str)
        ensures
            r@ == topic_name(self@.topic),
    {
        match self {
            Channel::Heads => "heads",
            Channel::Finality => "finality",
            Channel::Mempool => "mempool",
            Channel::Signature(_) => "signature",
            Channel::Account(_) => "account",
            Channel::Logs(_) => "logs",
        }
    }

    /// The channel a subscription request asks for, from its name and filters.
    pub fn parse(
        channel: &str,
        hash: Option<&str>,
        address: Option<&str>,
        contract: Option<&str>,
    ) -> (r: Result<Channel, String>)
        ensures
            match r {
                Ok(c) => channel_of(channel@, str_view(hash), str_view(address), str_view(contract))
                    == Ok::<ChannelV, Seq<char>>(c@),
                Err(e) => channel_of(
                    channel@,
                    str_view(hash),
                    str_view(address),
                    str_view(contract),
                ) == Err::<ChannelV, Seq<char>>(e@),
            },
    {
        if text::same(channel, "heads") || text::same(channel, "newHeads") {
            return Ok(Channel::Heads);
        }
        if text::same(channel, "finality") {
            return Ok(Channel::Finality);
        }
        if text::same(channel, "mempool") || text::same(channel, "pending") {
            return Ok(Channel::Mempool);
        }
        if text::same(channel, "signature") {
            return match hash {
                None => Err(text::copy("signature subscription needs a hash")),
                Some(h) => {
                    let t = text::trim(h);
                    if !digest_like(t.as_str()) {
                        Err(text::copy("hash must be 32 bytes of hex"))
                    } else {
                        Ok(Channel::Signature(text::ascii_lower(t.as_str())))
                    }
                },
            };
        }
        if text::same(channel, "account") {
            return match address {
                None => Err(text::copy("account subscription needs an address")),
                Some(a) => {
                    let t = text::trim(a);
                    if !crypto::is_valid_address(t.as_str()) {
                        Err(text::copy("invalid address"))
                    } else {
                        Ok(Channel::Account(t))
                    }
                },
            };
        }
        if text::same(channel, "logs") {
            return Ok(
                Channel::Logs(
                    match contract {
                        Some(c) => Some(text::trim(c)),
                        None => None,
                    },
                ),
            );
        }
        let mut e = text::copy("unknown channel '");
        e.append(channel);
        e.append("'");
        Err(e)
    }

    /// Whether an event belongs to this subscription.
    fn matches_event(&self, ev: &Event) -> (r: bool)
        ensures
            r == wanted(self@, ev@),
    {
        let key: Option<&String> = match self {
            Channel::Heads => {
                return ev.channel == Topic::Heads;
            },
            Channel::Finality => {
                return ev.channel == Topic::Finality;
            },
            Channel::Mempool => {
                return ev.channel == Topic::Mempool;
            },
            Channel::Signature(h) => {
                if ev.channel != Topic::Signature {
                    return false;
                }
                Some(h)
            },
            Channel::Account(a) => {
                if ev.channel != Topic::Account {
                    return false;
                }
                Some(a)
            },
            Channel::Logs(c) => {
                if ev.channel != Topic::Logs {
                    return false;
                }
                match c {
                    Some(c) => Some(c),
                    None => None,
                }
            },
        };
        match key {
            None => true,
            Some(k) => match &ev.key {
                Some(e) => text::same(e.as_str(), k.as_str()),
                None => false,
            },
        }
    }
}

/// An event belongs to a subscription: the topics agree, and so does the key when the
/// subscription is narrowed to one.
pub open spec fn wanted(c: ChannelV, ev: EventV) -> bool {
    c.topic == ev.channel && (c.key is None || c.key == ev.key)
}

// ---------------------------------------------------------------- the bus

/// A subscription.
pub struct Sub {
    pub id: u64,
    pub channel: Channel,
    pub conn: u64,
    pub strikes: u32,
}

/// Model of a subscription.
#[verifier::ext_equal]
pub struct SubV {
    pub id: u64,
    pub channel: ChannelV,
    pub conn: u64,
    pub strikes: u32,
}

impl View for Sub {
    type V = SubV;

    open spec fn view(&self) -> SubV {
        SubV { id: self.id, channel: self.channel@, conn: self.conn, strikes: self.strikes }
    }
}

/// Model of a list of subscriptions.
pub open spec fn subs_view(v: Seq<Sub>) -> Seq<SubV> {
    v.map_values(|s: Sub| s@)
}

/// Model of routed events.
pub open spec fn outbox_view(v: Seq<(u64, Event)>) -> Seq<(u64, EventV)> {
    v.map_values(|e: (u64, Event)| (e.0, e.1@))
}

/// Subscriptions and the events routed to them.
pub struct EventBus {
    subs: Vec<Sub>,
    next_id: u64,
    outbox: Vec<(u64, Event)>,
}

/// Model of the bus.
#[verifier::ext_equal]
pub struct BusV {
    pub subs: Seq<SubV>,
    pub next_id: u64,
    pub outbox: Seq<(u64, EventV)>,
}

impl View for EventBus {
    type V = BusV;

    closed spec fn view(&self) -> BusV {
        BusV {
            subs: subs_view(self.subs@),
            next_id: self.next_id,
            outbox: outbox_view(self.outbox@),
        }
    }
}

/// How a frame left.
#[derive(Clone, Copy, Debug, PartialEq, Eq, Structural)]
pub enum Delivery {
    Sent,
    Full,
    Gone,
}

/// Subscriptions of one connection.
pub open spec fn of_conn(s: Seq<SubV>, conn: u64) -> nat
    decreases s.len(),
{
    if s.len() == 0 {
        0
    } else {
        of_conn(s.drop_last(), conn) + if s.last().conn == conn {
            1nat
        } else {
            0
        }
    }
}

/// What registering a subscription does.
pub open spec fn subscribed(b: BusV, conn: u64, channel: ChannelV) -> (
    Result<u64, Seq<char>>,
    BusV,
) {
    if b.subs.len() >= MAX_SUBSCRIPTIONS || b.next_id == u64::MAX {
        (Err("subscription table full"@), b)
    } else if of_conn(b.subs, conn) >= MAX_SUBS_PER_CONN {
        (Err("too many subscriptions on this connection"@), b)
    } else {
        let id = (b.next_id + 1) as u64;
        (
            Ok(id),
            BusV {
                subs: b.subs.push(SubV { id, channel, conn, strikes: 0 }),
                next_id: id,
                ..b
            },
        )
    }
}

/// Subscriptions that stay when some leave.
pub open spec fn staying(s: Seq<SubV>, gone: spec_fn(SubV) -> bool) -> Seq<SubV>
    decreases s.len(),
{
    if s.len() == 0 {
        s
    } else if gone(s.last()) {
        staying(s.drop_last(), gone)
    } else {
        staying(s.drop_last(), gone).push(s.last())
    }
}

/// A subscription a connection may cancel: its own.
pub open spec fn own(conn: u64, id: u64) -> spec_fn(SubV) -> bool {
    |s: SubV| s.id == id && s.conn == conn
}

/// Every subscription of a connection.
pub open spec fn on(conn: u64) -> spec_fn(SubV) -> bool {
    |s: SubV| s.conn == conn
}

/// The frames an event turns into, in order of subscription.
pub open spec fn routed(s: Seq<SubV>, ev: EventV) -> Seq<(u64, EventV)>
    decreases s.len(),
{
    if s.len() == 0 {
        Seq::empty()
    } else {
        let r = routed(s.drop_last(), ev);
        if wanted(s.last().channel, ev) {
            r.push((s.last().id, ev))
        } else {
            r
        }
    }
}

/// The bus after an event.
pub open spec fn published(b: BusV, ev: EventV) -> BusV {
    BusV { outbox: b.outbox + routed(b.subs, ev), ..b }
}

/// The bus after several events.
pub open spec fn published_all(b: BusV, evs: Seq<EventV>) -> BusV
    decreases evs.len(),
{
    if evs.len() == 0 {
        b
    } else {
        published(published_all(b, evs.drop_last()), evs.last())
    }
}

/// A subscription after a frame left: a full queue is a strike, a sent frame clears
/// them, and one strike too many or a closed queue ends it.
pub open spec fn struck(s: SubV, d: Delivery) -> Option<SubV> {
    match d {
        Delivery::Sent => Some(SubV { strikes: 0, ..s }),
        Delivery::Full => if s.strikes + 1 >= MAX_LAG_STRIKES {
            None
        } else {
            Some(SubV { strikes: (s.strikes + 1) as u32, ..s })
        },
        Delivery::Gone => None,
    }
}

/// The subscriptions after a frame of one of them left.
pub open spec fn settled(s: Seq<SubV>, id: u64, d: Delivery) -> Seq<SubV>
    decreases s.len(),
{
    if s.len() == 0 {
        s
    } else {
        let r = settled(s.drop_last(), id, d);
        if s.last().id != id {
            r.push(s.last())
        } else {
            match struck(s.last(), d) {
                Some(x) => r.push(x),
                None => r,
            }
        }
    }
}

/// An event reaches a subscription exactly when it belongs to it.
pub proof fn law_routing_is_exact(s: Seq<SubV>, ev: EventV, id: u64)
    ensures
        (exists|i: int|
            0 <= i < routed(s, ev).len() && (#[trigger] routed(s, ev)[i]).0 == id) <==> (exists|
            i: int,
        |
            0 <= i < s.len() && (#[trigger] s[i]).id == id && wanted(s[i].channel, ev)),
        forall|i: int| 0 <= i < routed(s, ev).len() ==> (#[trigger] routed(s, ev)[i]).1 == ev,
    decreases s.len(),
{
    if s.len() > 0 {
        let d = s.drop_last();
        law_routing_is_exact(d, ev, id);
        let r = routed(d, ev);
        let t = routed(s, ev);
        let l = s.len() - 1;
        if exists|i: int| 0 <= i < t.len() && (#[trigger] t[i]).0 == id {
            let i = choose|i: int| 0 <= i < t.len() && (#[trigger] t[i]).0 == id;
            if i < r.len() {
                assert(r[i].0 == id);
                let j = choose|j: int|
                    0 <= j < d.len() && (#[trigger] d[j]).id == id && wanted(d[j].channel, ev);
                assert(s[j] == d[j]);
            } else {
                assert(s[l].id == id && wanted(s[l].channel, ev));
            }
        }
        if exists|i: int|
            0 <= i < s.len() && (#[trigger] s[i]).id == id && wanted(s[i].channel, ev) {
            let i = choose|i: int|
                0 <= i < s.len() && (#[trigger] s[i]).id == id && wanted(s[i].channel, ev);
            if i < l {
                assert(d[i].id == id && wanted(d[i].channel, ev));
                let j = choose|j: int| 0 <= j < r.len() && (#[trigger] r[j]).0 == id;
                assert(t[j] == r[j]);
            } else {
                assert(t[r.len() as int].0 == id);
            }
        }
        assert forall|i: int| 0 <= i < t.len() implies (#[trigger] t[i]).1 == ev by {
            if i < r.len() {
                assert(t[i] == r[i]);
            }
        }
    }
}

/// A subscriber that never takes a frame is dropped after a few.
pub proof fn law_slow_consumer_is_dropped(s: SubV)
    requires
        s.strikes == 0,
    ensures
        ({
            let a = struck(s, Delivery::Full);
            let b = struck(a->Some_0, Delivery::Full);
            a is Some && b is Some && struck(b->Some_0, Delivery::Full) is None
        }),
{
}

impl EventBus {
    /// A bus without subscriptions.
    pub fn new() -> (r: EventBus)
        ensures
            r@ == (BusV { subs: Seq::empty(), next_id: 0, outbox: Seq::empty() }),
    {
        let r = EventBus { subs: Vec::new(), next_id: 0, outbox: Vec::new() };
        assert(r@ =~= BusV { subs: Seq::empty(), next_id: 0, outbox: Seq::empty() });
        r
    }

    /// Number of live subscriptions.
    pub fn len(&self) -> (r: usize)
        ensures
            r == self@.subs.len(),
    {
        self.subs.len()
    }

    /// Whether nobody listens.
    pub fn is_empty(&self) -> (r: bool)
        ensures
            r == (self@.subs.len() == 0),
    {
        self.subs.len() == 0
    }

    /// Registers a subscription. `conn` groups the subscriptions of one socket, so they
    /// can all be dropped when it closes.
    pub fn subscribe(&mut self, conn: u64, channel: Channel) -> (r: Result<u64, String>)
        ensures
            final(self)@ == subscribed(old(self)@, conn, channel@).1,
            match r {
                Ok(id) => subscribed(old(self)@, conn, channel@).0 == Ok::<u64, Seq<char>>(id),
                Err(e) => subscribed(old(self)@, conn, channel@).0 == Err::<u64, Seq<char>>(e@),
            },
    {
        if self.subs.len() >= MAX_SUBSCRIPTIONS || self.next_id == u64::MAX {
            return Err(text::copy("subscription table full"));
        }
        let mut n: usize = 0;
        let mut i: usize = 0;
        let ghost s = self@.subs;
        assert(s.take(0) =~= Seq::<SubV>::empty());
        while i < self.subs.len()
            invariant
                i <= self.subs@.len(),
                s == self@.subs,
                s.len() == self.subs@.len(),
                n <= i,
                n == of_conn(s.take(i as int), conn),
            decreases self.subs@.len() - i,
        {
            proof {
                assert(s.take(i + 1).drop_last() =~= s.take(i as int));
                assert(s.take(i + 1).last() == self.subs@[i as int]@);
            }
            if self.subs[i].conn == conn {
                n = n + 1;
            }
            i = i + 1;
        }
        assert(s.take(s.len() as int) =~= s);
        if n >= MAX_SUBS_PER_CONN {
            return Err(text::copy("too many subscriptions on this connection"));
        }
        let id: u64 = self.next_id + 1;
        self.next_id = id;
        let sub = Sub { id, channel, conn, strikes: 0 };
        let ghost sv = sub@;
        self.subs.push(sub);
        assert(self@.subs =~= s.push(sv));
        Ok(id)
    }

    /// Takes out the subscriptions that go, whether by connection and number or by
    /// connection alone.
    fn drop_matching(&mut self, conn: u64, id: Option<u64>) -> (r: bool)
        ensures
            ({
                let gone = match id {
                    Some(n) => own(conn, n),
                    None => on(conn),
                };
                &&& final(self)@ == (BusV { subs: staying(old(self)@.subs, gone), ..old(self)@ })
                &&& r == (exists|i: int|
                    0 <= i < old(self)@.subs.len() && gone(#[trigger] old(self)@.subs[i]))
            }),
    {
        let ghost gone = match id {
            Some(n) => own(conn, n),
            None => on(conn),
        };
        let ghost s = self@.subs;
        let mut kept: Vec<Sub> = Vec::new();
        let mut rest: Vec<Sub> = Vec::new();
        std::mem::swap(&mut rest, &mut self.subs);
        let mut found = false;
        let mut back: Vec<Sub> = Vec::new();
        assert(subs_view(back@) =~= s.skip(s.len() as int).reverse());
        while rest.len() > 0
            invariant
                rest@.len() <= s.len(),
                subs_view(rest@) == s.take(rest@.len() as int),
                subs_view(back@) == s.skip(rest@.len() as int).reverse(),
            decreases rest@.len(),
        {
            let ghost n = rest@.len() as int;
            let ghost was = subs_view(back@);
            match rest.pop() {
                Some(x) => {
                    let ghost xv = x@;
                    proof {
                        assert(subs_view(rest@) =~= s.take(n - 1));
                        assert(s.take(n)[n - 1] == xv);
                    }
                    back.push(x);
                    assert(subs_view(back@) =~= was.push(xv));
                    assert(s.skip(n - 1).reverse() =~= s.skip(n).reverse().push(s[n - 1]));
                },
                None => {},
            }
        }
        proof {
            assert(s.skip(0) =~= s);
            assert(subs_view(back@).len() == back@.len());
            assert(subs_view(kept@) =~= staying(s.take(0), gone));
        }
        while back.len() > 0
            invariant
                back@.len() <= s.len(),
                subs_view(back@) == s.skip(s.len() - back@.len()).reverse(),
                subs_view(kept@) == staying(s.take(s.len() - back@.len()), gone),
                found == (exists|i: int| 0 <= i < s.len() - back@.len() && gone(#[trigger] s[i])),
                gone == match id {
                    Some(n) => own(conn, n),
                    None => on(conn),
                },
            decreases back@.len(),
        {
            let ghost k = s.len() - back@.len();
            let ghost b0 = subs_view(back@);
            let ghost f0 = found;
            match back.pop() {
                Some(x) => {
                    let ghost xv = x@;
                    proof {
                        assert(b0.last() == xv);
                        assert(xv == s[k]);
                        assert(subs_view(back@) =~= b0.drop_last());
                        assert(s.skip(k + 1).reverse() =~= s.skip(k).reverse().drop_last());
                        assert(s.take(k + 1).drop_last() =~= s.take(k));
                        assert(s.take(k + 1).last() == xv);
                    }
                    let goes = x.conn == conn && match id {
                        Some(n) => x.id == n,
                        None => true,
                    };
                    assert(goes == gone(xv));
                    if goes {
                        found = true;
                        assert(gone(s[k]));
                    } else {
                        let ghost was = subs_view(kept@);
                        kept.push(x);
                        assert(subs_view(kept@) =~= was.push(xv));
                    }
                    proof {
                        if f0 {
                            let i = choose|i: int| 0 <= i < k && gone(#[trigger] s[i]);
                            assert(gone(s[i]));
                        }
                    }
                },
                None => {},
            }
        }
        assert(s.take(s.len() as int) =~= s);
        self.subs = kept;
        found
    }

    /// Cancels one subscription. Only the connection that made it may do so.
    pub fn unsubscribe(&mut self, conn: u64, id: u64) -> (r: bool)
        ensures
            final(self)@ == (BusV { subs: staying(old(self)@.subs, own(conn, id)), ..old(self)@ }),
            r == (exists|i: int|
                0 <= i < old(self)@.subs.len() && own(conn, id)(#[trigger] old(self)@.subs[i])),
    {
        self.drop_matching(conn, Some(id))
    }

    /// Drops every subscription of a connection.
    pub fn drop_conn(&mut self, conn: u64)
        ensures
            final(self)@ == (BusV { subs: staying(old(self)@.subs, on(conn)), ..old(self)@ }),
    {
        let _ = self.drop_matching(conn, None);
    }

    /// Routes an event to the subscriptions it belongs to.
    pub fn publish(&mut self, ev: Event)
        ensures
            final(self)@ == published(old(self)@, ev@),
    {
        let ghost s = self@.subs;
        let ghost o = self@.outbox;
        let mut i: usize = 0;
        proof {
            assert(s.take(0) =~= Seq::<SubV>::empty());
            assert(o =~= o + routed(s.take(0), ev@));
        }
        while i < self.subs.len()
            invariant
                i <= self.subs@.len(),
                s == subs_view(self.subs@),
                self.subs == old(self).subs,
                self.next_id == old(self).next_id,
                outbox_view(self.outbox@) == o + routed(s.take(i as int), ev@),
            decreases self.subs@.len() - i,
        {
            proof {
                assert(s.take(i + 1).drop_last() =~= s.take(i as int));
                assert(s.take(i + 1).last() == self.subs@[i as int]@);
            }
            if self.subs[i].channel.matches_event(&ev) {
                let id = self.subs[i].id;
                let ghost was = outbox_view(self.outbox@);
                self.outbox.push((id, ev.clone()));
                proof {
                    assert(outbox_view(self.outbox@) =~= was.push((id, ev@)));
                    assert(o + routed(s.take(i + 1), ev@) =~= (o + routed(s.take(i as int), ev@)).push(
                        (id, ev@),
                    ));
                }
            }
            i = i + 1;
        }
        assert(s.take(s.len() as int) =~= s);
    }

    /// Routes several events, in order.
    pub fn publish_all(&mut self, evs: Vec<Event>)
        ensures
            final(self)@ == published_all(old(self)@, events_view(evs@)),
    {
        let ghost all = events_view(evs@);
        let ghost b = self@;
        let mut i: usize = 0;
        assert(all.take(0) =~= Seq::<EventV>::empty());
        while i < evs.len()
            invariant
                i <= evs@.len(),
                all == events_view(evs@),
                self@ == published_all(b, all.take(i as int)),
            decreases evs@.len() - i,
        {
            proof {
                assert(all.take(i + 1).drop_last() =~= all.take(i as int));
                assert(all.take(i + 1).last() == evs@[i as int]@);
            }
            self.publish(evs[i].clone());
            i = i + 1;
        }
        assert(all.take(all.len() as int) =~= all);
    }

    /// Hands out what was routed, each event with the subscription it goes to.
    pub fn drain(&mut self) -> (r: Vec<(u64, Event)>)
        ensures
            outbox_view(r@) == old(self)@.outbox,
            final(self)@ == (BusV { outbox: Seq::empty(), ..old(self)@ }),
    {
        let mut out: Vec<(u64, Event)> = Vec::new();
        std::mem::swap(&mut out, &mut self.outbox);
        assert(self@ =~= BusV { outbox: Seq::empty(), ..old(self)@ });
        out
    }

    /// The channel of a subscription.
    pub fn label_of(&self, id: u64) -> (r: Option<&'static str>)
        ensures
            match r {
                Some(l) => exists|i: int|
                    0 <= i < self@.subs.len() && (#[trigger] self@.subs[i]).id == id && l@
                        == topic_name(self@.subs[i].channel.topic),
                None => forall|i: int| 0 <= i < self@.subs.len() ==> (#[trigger] self@.subs[i]).id != id,
            },
    {
        let mut i: usize = 0;
        while i < self.subs.len()
            invariant
                i <= self.subs@.len(),
                forall|j: int| 0 <= j < i ==> (#[trigger] self@.subs[j]).id != id,
            decreases self.subs@.len() - i,
        {
            assert(self@.subs[i as int] == self.subs@[i as int]@);
            if self.subs[i].id == id {
                return Some(self.subs[i].channel.label());
            }
            i = i + 1;
        }
        None
    }

    /// Takes note of how a frame left.
    pub fn settle(&mut self, id: u64, d: Delivery)
        ensures
            final(self)@ == (BusV { subs: settled(old(self)@.subs, id, d), ..old(self)@ }),
    {
        let ghost s = self@.subs;
        let mut rest: Vec<Sub> = Vec::new();
        std::mem::swap(&mut rest, &mut self.subs);
        let kept = Self::settle_all(rest, id, d);
        self.subs = kept;
    }

    fn settle_all(rest: Vec<Sub>, id: u64, d: Delivery) -> (r: Vec<Sub>)
        ensures
            subs_view(r@) == settled(subs_view(rest@), id, d),
        decreases rest@.len(),
    {
        let mut rest = rest;
        let ghost s = subs_view(rest@);
        match rest.pop() {
            None => {
                assert(subs_view(rest@) =~= s);
                rest
            },
            Some(x) => {
                let ghost xv = x@;
                assert(subs_view(rest@) =~= s.drop_last());
                let mut r = Self::settle_all(rest, id, d);
                let ghost was = subs_view(r@);
                let mut x = x;
                if x.id == id {
                    match d {
                        Delivery::Sent => {
                            x.strikes = 0;
                        },
                        Delivery::Full => {
                            if x.strikes >= MAX_LAG_STRIKES - 1 {
                                return r;
                            }
                            x.strikes = x.strikes + 1;
                        },
                        Delivery::Gone => {
                            return r;
                        },
                    }
                }
                let ghost yv = x@;
                r.push(x);
                assert(subs_view(r@) =~= was.push(yv));
                r
            },
        }
    }
}

/// Model of a list of events.
pub open spec fn events_view(v: Seq<Event>) -> Seq<EventV> {
    v.map_values(|e: Event| e@)
}

} // verus!
