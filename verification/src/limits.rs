//! Abuse limits for the public endpoints: token buckets, connection caps, peer
//! reputation and a comparison of secrets.
//!
//! Buckets count in thousandths of a token and milliseconds, so a rate of `n` tokens
//! per second is `n` thousandths per millisecond, exactly. Hosts are named by the text
//! of their address.

use crate::table;
use crate::table::Table;
use crate::text;
use vstd::prelude::*;

verus! {

/// Thousandths of a token in a token.
pub const TOKEN: u64 = 1_000;

// ---------------------------------------------------------------- token buckets

/// One bucket: what is left in it, and when it was last used.
#[derive(Clone, Copy)]
pub struct Bucket {
    pub level: u64,
    pub seen: u64,
}

/// Model of a limiter.
#[verifier::ext_equal]
pub struct LimiterV {
    pub rate: u64,
    pub burst: u64,
    pub buckets: Map<Seq<u8>, Bucket>,
}

/// Time since a bucket was used.
pub open spec fn idle(b: Bucket, now: u64) -> nat {
    if now > b.seen {
        (now - b.seen) as nat
    } else {
        0
    }
}

/// What a bucket holds at a time: it fills at the rate, up to the burst.
pub open spec fn refilled(b: Bucket, now: u64, rate: u64, burst: u64) -> u64 {
    let n = b.level + idle(b, now) * rate;
    if n < burst {
        n as u64
    } else {
        burst
    }
}

/// The buckets used within a time.
pub open spec fn recent(m: Map<Seq<u8>, Bucket>, now: u64, within: nat) -> Map<Seq<u8>, Bucket> {
    Map::new(
        |k: Seq<u8>| m.contains_key(k) && idle(m[k], now) < within,
        |k: Seq<u8>| m[k],
    )
}

/// The buckets after old ones were dropped, when there are too many.
pub open spec fn swept(m: Map<Seq<u8>, Bucket>, now: u64, cap: nat, within: nat) -> Map<
    Seq<u8>,
    Bucket,
> {
    if table::ordered(m).len() > cap {
        recent(m, now, within)
    } else {
        m
    }
}

/// The bucket of a key, full when it is new.
pub open spec fn bucket_at(m: Map<Seq<u8>, Bucket>, key: Seq<u8>, now: u64, burst: u64) -> Bucket {
    if m.contains_key(key) {
        m[key]
    } else {
        Bucket { level: burst, seen: now }
    }
}

/// Outcome of spending from the bucket of a key.
pub open spec fn spent(
    l: LimiterV,
    key: Seq<u8>,
    cost: u64,
    now: u64,
    cap: nat,
    within: nat,
) -> (bool, LimiterV) {
    let m = swept(l.buckets, now, cap, within);
    let held = refilled(bucket_at(m, key, now, l.burst), now, l.rate, l.burst);
    let left = if held >= cost {
        (held - cost) as u64
    } else {
        held
    };
    (
        held >= cost,
        LimiterV { buckets: m.insert(key, Bucket { level: left, seen: now }), ..l },
    )
}

/// Computes what a bucket holds.
fn refill(b: Bucket, now: u64, rate: u64, burst: u64) -> (r: u64)
    ensures
        r == refilled(b, now, rate, burst),
{
    let gone: u64 = if now > b.seen {
        now - b.seen
    } else {
        0
    };
    assert(gone * rate <= 0xFFFF_FFFF_FFFF_FFFF * 0xFFFF_FFFF_FFFF_FFFF) by (nonlinear_arith)
        requires
            gone <= 0xFFFF_FFFF_FFFF_FFFF,
            rate <= 0xFFFF_FFFF_FFFF_FFFF,
            0 <= gone,
            0 <= rate,
    ;
    let grown: u128 = b.level as u128 + gone as u128 * rate as u128;
    if grown < burst as u128 {
        grown as u64
    } else {
        burst
    }
}

/// Drops the buckets not used within a time.
fn sweep(t: &Table<Bucket>, now: u64, within: u64) -> (r: Table<Bucket>)
    requires
        t.wf(),
    ensures
        r.wf(),
        r@ == recent(t@, now, within as nat),
{
    let mut kept: Table<Bucket> = Table::new();
    let n: usize = t.len();
    let mut i: usize = 0;
    let ghost es = t.entries();
    while i < n
        invariant
            i <= n,
            n == es.len(),
            es == t.entries(),
            t.wf(),
            kept.wf(),
            forall|k: Seq<u8>| #[trigger]
                kept@.dom().contains(k) <==> (exists|j: int|
                    0 <= j < i && (#[trigger] es[j]).0 == k && idle(es[j].1, now) < within),
            forall|k: Seq<u8>| #[trigger]
                kept@.dom().contains(k) ==> t@.dom().contains(k) && kept@[k] == t@[k],
        decreases n - i,
    {
        let ghost was = kept@;
        let b = *t.val_at(i);
        let gone: u64 = if now > b.seen {
            now - b.seen
        } else {
            0
        };
        proof {
            table::lemma_map_of_at(es, i as int);
        }
        if gone < within {
            kept.insert(text::copy_bytes(t.key_at(i).as_slice()), b);
        }
        proof {
            assert forall|k: Seq<u8>| #[trigger]
                kept@.dom().contains(k) <==> (exists|j: int|
                    0 <= j < i + 1 && (#[trigger] es[j]).0 == k && idle(es[j].1, now)
                        < within) by {
                if kept@.dom().contains(k) && !was.dom().contains(k) {
                    assert(es[i as int].0 == k);
                }
                if exists|j: int|
                    0 <= j < i + 1 && (#[trigger] es[j]).0 == k && idle(es[j].1, now) < within {
                    let j = choose|j: int|
                        0 <= j < i + 1 && (#[trigger] es[j]).0 == k && idle(es[j].1, now)
                            < within;
                    if j < i {
                        assert(was.dom().contains(k));
                    }
                }
            }
        }
        i = i + 1;
    }
    proof {
        let want = recent(t@, now, within as nat);
        assert forall|k: Seq<u8>|
            #![trigger kept@.dom().contains(k)]
            #![trigger want.dom().contains(k)]
            kept@.dom().contains(k) == want.dom().contains(k) && (want.dom().contains(k)
                ==> kept@[k] == want[k]) by {
            table::lemma_map_of_dom(es, k);
            if want.dom().contains(k) {
                let j = choose|j: int| 0 <= j < es.len() && (#[trigger] es[j]).0 == k;
                table::lemma_map_of_at(es, j);
                assert(es[j].0 == k);
                assert(kept@.dom().contains(k));
            }
            if kept@.dom().contains(k) {
                let j = choose|j: int|
                    0 <= j < n && (#[trigger] es[j]).0 == k && idle(es[j].1, now) < within;
                table::lemma_map_of_at(es, j);
            }
        }
        assert(kept@ =~= want);
    }
    kept
}

/// A token bucket for every key.
pub struct KeyedLimiter {
    rate: u64,
    burst: u64,
    cap: usize,
    within: u64,
    buckets: Table<Bucket>,
}

impl View for KeyedLimiter {
    type V = LimiterV;

    closed spec fn view(&self) -> LimiterV {
        LimiterV { rate: self.rate, burst: self.burst, buckets: self.buckets@ }
    }
}

/// Keys above which a limiter drops old buckets, and how old those are.
pub const KEYED_CAP: usize = 50_000;

/// Milliseconds after which a key is forgotten when there are too many.
pub const KEYED_IDLE_MS: u64 = 120_000;

/// Hosts above which a limiter drops old buckets.
pub const HOST_CAP: usize = 20_000;

/// Milliseconds after which a host is forgotten when there are too many.
pub const HOST_IDLE_MS: u64 = 60_000;

impl KeyedLimiter {
    /// The table of buckets is well formed.
    pub closed spec fn wf(self) -> bool {
        self.buckets.wf()
    }

    /// Keys above which old buckets are dropped.
    pub closed spec fn sweeps_above(self) -> nat {
        self.cap as nat
    }

    /// How old dropped buckets are.
    pub closed spec fn sweeps_after(self) -> nat {
        self.within as nat
    }

    fn build(rate: u64, burst: u64, cap: usize, within: u64) -> (r: KeyedLimiter)
        ensures
            r.wf(),
            r.sweeps_above() == cap,
            r.sweeps_after() == within,
            r@ == (LimiterV {
                rate,
                burst: if burst * TOKEN <= u64::MAX {
                    (burst * TOKEN) as u64
                } else {
                    u64::MAX
                },
                buckets: Map::<Seq<u8>, Bucket>::empty(),
            }),
    {
        let full: u64 = match burst.checked_mul(TOKEN) {
            Some(n) => n,
            None => u64::MAX,
        };
        KeyedLimiter { rate, burst: full, cap, within, buckets: Table::new() }
    }

    /// A limiter of `rate` tokens per second with `burst` tokens of slack.
    pub fn new(rate: u64, burst: u64) -> (r: KeyedLimiter)
        ensures
            r.wf(),
            r.sweeps_above() == KEYED_CAP,
            r.sweeps_after() == KEYED_IDLE_MS,
            r@ == (LimiterV {
                rate,
                burst: if burst * TOKEN <= u64::MAX {
                    (burst * TOKEN) as u64
                } else {
                    u64::MAX
                },
                buckets: Map::<Seq<u8>, Bucket>::empty(),
            }),
    {
        KeyedLimiter::build(rate, burst, KEYED_CAP, KEYED_IDLE_MS)
    }

    /// Spends a cost, in thousandths of a token, from the bucket of a key, when it
    /// holds that much.
    pub fn allow_cost(&mut self, key: &str, cost: u64, now: u64) -> (r: bool)
        requires
            old(self).wf(),
        ensures
            final(self).wf(),
            final(self).sweeps_above() == old(self).sweeps_above(),
            final(self).sweeps_after() == old(self).sweeps_after(),
            (r, final(self)@) == spent(
                old(self)@,
                text::utf8(key@),
                cost,
                now,
                old(self).sweeps_above(),
                old(self).sweeps_after(),
            ),
    {
        let k = text::bytes_of(key);
        proof {
            table::lemma_ordered(self.buckets.entries());
        }
        if self.buckets.len() > self.cap {
            self.buckets = sweep(&self.buckets, now, self.within);
        }
        let b: Bucket = match self.buckets.get(k.as_slice()) {
            Some(b) => *b,
            None => Bucket { level: self.burst, seen: now },
        };
        let held = refill(b, now, self.rate, self.burst);
        let ok = held >= cost;
        let left: u64 = if ok {
            held - cost
        } else {
            held
        };
        self.buckets.insert(k, Bucket { level: left, seen: now });
        ok
    }

    /// Number of buckets.
    pub fn tracked_count(&self) -> (r: usize)
        requires
            self.wf(),
        ensures
            r == table::ordered(self@.buckets).len(),
    {
        proof {
            table::lemma_ordered(self.buckets.entries());
        }
        self.buckets.len()
    }
}

/// A token bucket for every host.
pub struct RateLimiter {
    inner: KeyedLimiter,
}

impl View for RateLimiter {
    type V = LimiterV;

    closed spec fn view(&self) -> LimiterV {
        self.inner@
    }
}

impl RateLimiter {
    /// The buckets are well formed, and hosts are forgotten after a minute.
    pub closed spec fn wf(self) -> bool {
        &&& self.inner.wf()
        &&& self.inner.sweeps_above() == HOST_CAP
        &&& self.inner.sweeps_after() == HOST_IDLE_MS
    }

    /// A limiter of `rate` requests per second with `burst` requests of slack.
    pub fn new(rate: u64, burst: u64) -> (r: RateLimiter)
        ensures
            r.wf(),
            r@ == (LimiterV {
                rate,
                burst: if burst * TOKEN <= u64::MAX {
                    (burst * TOKEN) as u64
                } else {
                    u64::MAX
                },
                buckets: Map::<Seq<u8>, Bucket>::empty(),
            }),
    {
        RateLimiter { inner: KeyedLimiter::build(rate, burst, HOST_CAP, HOST_IDLE_MS) }
    }

    /// Spends one token of a host.
    pub fn allow(&mut self, ip: &str, now: u64) -> (r: bool)
        requires
            old(self).wf(),
        ensures
            final(self).wf(),
            (r, final(self)@) == spent(
                old(self)@,
                text::utf8(ip@),
                TOKEN,
                now,
                HOST_CAP as nat,
                HOST_IDLE_MS as nat,
            ),
    {
        self.allow_cost(ip, TOKEN, now)
    }

    /// Spends a cost, in thousandths of a token, of a host: an expensive call spends
    /// more of the bucket than a cheap one.
    pub fn allow_cost(&mut self, ip: &str, cost: u64, now: u64) -> (r: bool)
        requires
            old(self).wf(),
        ensures
            final(self).wf(),
            (r, final(self)@) == spent(
                old(self)@,
                text::utf8(ip@),
                cost,
                now,
                HOST_CAP as nat,
                HOST_IDLE_MS as nat,
            ),
    {
        self.inner.allow_cost(ip, cost, now)
    }
}

/// What a bucket lets through is bounded: over any run of requests of one cost at one
/// moment, a full bucket serves no more than its burst pays for, and a refused request
/// takes nothing.
pub proof fn law_burst_is_bounded(
    l: LimiterV,
    key: Seq<u8>,
    cost: u64,
    now: u64,
    cap: nat,
    within: nat,
)
    ensures
        ({
            let (ok, after) = spent(l, key, cost, now, cap, within);
            let before = refilled(
                bucket_at(swept(l.buckets, now, cap, within), key, now, l.burst),
                now,
                l.rate,
                l.burst,
            );
            &&& before <= l.burst
            &&& after.buckets[key].level == if ok {
                before - cost
            } else {
                before as int
            }
            &&& after.buckets[key].level <= l.burst
            &&& ok <==> cost <= before
        }),
{
}

/// Spending from one bucket leaves the others.
pub proof fn law_buckets_are_separate(
    l: LimiterV,
    key: Seq<u8>,
    other: Seq<u8>,
    cost: u64,
    now: u64,
    cap: nat,
    within: nat,
)
    requires
        other != key,
        table::ordered(l.buckets).len() <= cap,
    ensures
        ({
            let after = spent(l, key, cost, now, cap, within).1;
            &&& after.buckets.contains_key(other) == l.buckets.contains_key(other)
            &&& after.buckets.contains_key(other) ==> after.buckets[other] == l.buckets[other]
        }),
{
}

// ---------------------------------------------------------------- secrets

/// Compares two byte strings over their whole length, whatever they hold.
pub fn secret_same(x: &[u8], y: &[u8]) -> (r: bool)
    ensures
        r == (x@ == y@),
{
    let n: usize = x.len();
    if n != y.len() {
        return false;
    }
    let mut diff: u8 = 0;
    let mut i: usize = 0;
    while i < n
        invariant
            i <= n,
            n == x@.len(),
            n == y@.len(),
            diff == 0 <==> (forall|j: int| 0 <= j < i ==> x@[j] == y@[j]),
        decreases n - i,
    {
        let p: u8 = x[i];
        let q: u8 = y[i];
        let d: u8 = diff;
        assert((d | (p ^ q)) == 0 <==> d == 0 && p == q) by (bit_vector);
        diff = diff | (p ^ q);
        i = i + 1;
    }
    if diff == 0 {
        assert(x@ =~= y@);
        true
    } else {
        false
    }
}

/// Compares two texts over their whole length, whatever they hold.
pub fn secret_eq(a: &str, b: &str) -> (r: bool)
    ensures
        r == (a@ == b@),
{
    let x = text::bytes_of(a);
    let y = text::bytes_of(b);
    proof {
        if text::utf8(a@) == text::utf8(b@) {
            text::lemma_utf8_injective(a@, b@);
        }
    }
    secret_same(x.as_slice(), y.as_slice())
}

// ---------------------------------------------------------------- connections

/// Counts live connections, so a listener can refuse work instead of falling over.
pub struct ConnGuard {
    pub live: usize,
    pub max: usize,
}

impl ConnGuard {
    /// A guard that lets `max` connections live.
    pub fn new(max: usize) -> (r: ConnGuard)
        ensures
            r.live == 0,
            r.max == max,
    {
        ConnGuard { live: 0, max }
    }

    /// No more than the allowed number lives.
    pub open spec fn wf(self) -> bool {
        self.live <= self.max
    }

    /// Takes a slot when one is free.
    pub fn try_acquire(&mut self) -> (r: bool)
        requires
            old(self).wf(),
        ensures
            final(self).wf(),
            final(self).max == old(self).max,
            r == (old(self).live < old(self).max),
            final(self).live == old(self).live + if r {
                1int
            } else {
                0int
            },
    {
        if self.live >= self.max {
            return false;
        }
        self.live = self.live + 1;
        true
    }

    /// Gives a slot back.
    pub fn release(&mut self)
        requires
            old(self).wf(),
        ensures
            final(self).wf(),
            final(self).max == old(self).max,
            final(self).live == if old(self).live > 0 {
                old(self).live - 1
            } else {
                0int
            },
    {
        if self.live > 0 {
            self.live = self.live - 1;
        }
    }

    /// Number of live connections.
    pub fn live(&self) -> (r: usize)
        ensures
            r == self.live,
    {
        self.live
    }
}

/// Live connections of every host: each has a bounded share.
pub struct IpConnCounter {
    live: Table<usize>,
    max_per_ip: usize,
}

/// The connections of a host.
pub open spec fn count_of(m: Map<Seq<u8>, usize>, ip: Seq<char>) -> usize {
    if m.contains_key(text::utf8(ip)) {
        m[text::utf8(ip)]
    } else {
        0
    }
}

impl View for IpConnCounter {
    type V = Map<Seq<u8>, usize>;

    closed spec fn view(&self) -> Map<Seq<u8>, usize> {
        self.live@
    }
}

impl IpConnCounter {
    /// The share of a host.
    pub closed spec fn share(self) -> usize {
        self.max_per_ip
    }

    /// No host has more than its share.
    pub closed spec fn wf(self) -> bool {
        &&& self.live.wf()
        &&& forall|k: Seq<u8>| #[trigger]
            self.live@.contains_key(k) ==> self.live@[k] <= self.max_per_ip
    }

    /// A counter with a share for every host.
    pub fn new(max_per_ip: usize) -> (r: IpConnCounter)
        ensures
            r.wf(),
            r.share() == max_per_ip,
            r@ == Map::<Seq<u8>, usize>::empty(),
    {
        IpConnCounter { live: Table::new(), max_per_ip }
    }

    /// Takes a slot of a host when it has one left.
    pub fn try_acquire(&mut self, ip: &str) -> (r: bool)
        requires
            old(self).wf(),
        ensures
            final(self).wf(),
            final(self).share() == old(self).share(),
            r == (count_of(old(self)@, ip@) < old(self).share()),
            final(self)@ == old(self)@.insert(
                text::utf8(ip@),
                if r {
                    (count_of(old(self)@, ip@) + 1) as usize
                } else {
                    count_of(old(self)@, ip@)
                },
            ),
    {
        let k = text::bytes_of(ip);
        let n: usize = match self.live.get(k.as_slice()) {
            Some(n) => *n,
            None => 0,
        };
        let ok = n < self.max_per_ip;
        let m: usize = if ok {
            n + 1
        } else {
            n
        };
        self.live.insert(k, m);
        ok
    }

    /// Gives a slot of a host back; a host without connections is forgotten.
    pub fn release(&mut self, ip: &str)
        requires
            old(self).wf(),
        ensures
            final(self).wf(),
            final(self).share() == old(self).share(),
            final(self)@ == if count_of(old(self)@, ip@) <= 1 {
                old(self)@.remove(text::utf8(ip@))
            } else {
                old(self)@.insert(text::utf8(ip@), (count_of(old(self)@, ip@) - 1) as usize)
            },
    {
        let k = text::bytes_of(ip);
        let n: usize = match self.live.get(k.as_slice()) {
            Some(n) => *n,
            None => 0,
        };
        if n <= 1 {
            self.live.remove(k.as_slice());
        } else {
            self.live.insert(k, n - 1);
        }
    }

    /// Live connections of a host.
    pub fn live_for(&self, ip: &str) -> (r: usize)
        requires
            self.wf(),
        ensures
            r == count_of(self@, ip@),
    {
        let k = text::bytes_of(ip);
        match self.live.get(k.as_slice()) {
            Some(n) => *n,
            None => 0,
        }
    }
}

// ---------------------------------------------------------------- reputation

/// Score at which a peer is banned.
pub const BAN_SCORE: i32 = -100;

/// Highest score that good behaviour earns.
pub const MAX_SCORE: i32 = 100;

/// Standing of a peer: its score, and until when it is banned.
#[derive(Clone, Copy)]
pub struct Standing {
    pub score: i32,
    pub until: Option<u64>,
}

/// Reputation of peers: misbehaviour costs score, and a peer that runs out is refused
/// for a while.
pub struct PeerBook {
    scores: Table<Standing>,
    identities: Table<String>,
    ban_ms: u64,
}

/// Model of the reputation of peers.
#[verifier::ext_equal]
pub struct BookV {
    pub scores: Map<Seq<u8>, Standing>,
    pub identities: Map<Seq<u8>, Seq<char>>,
    pub ban_ms: u64,
}

/// The standing of a host, neutral when it is new.
pub open spec fn standing_of(b: BookV, ip: Seq<char>) -> Standing {
    if b.scores.contains_key(text::utf8(ip)) {
        b.scores[text::utf8(ip)]
    } else {
        Standing { score: 0, until: None }
    }
}

/// Whether a standing is a ban at a time.
pub open spec fn barred(s: Standing, now: u64) -> bool {
    match s.until {
        Some(u) => now < u,
        None => false,
    }
}

/// A ban from a time, as long as it can be expressed.
pub open spec fn ban_end(now: u64, ban_ms: u64) -> u64 {
    if now + ban_ms <= u64::MAX {
        (now + ban_ms) as u64
    } else {
        u64::MAX
    }
}

/// A standing after misbehaviour.
pub open spec fn penalized(s: Standing, cost: i32, now: u64, ban_ms: u64) -> Standing {
    if s.score - cost <= BAN_SCORE {
        Standing { score: 0, until: Some(ban_end(now, ban_ms)) }
    } else {
        Standing { score: (s.score - cost) as i32, until: s.until }
    }
}

/// A standing after good behaviour.
pub open spec fn rewarded(s: Standing) -> Standing {
    Standing {
        score: if s.score + 1 < MAX_SCORE {
            (s.score + 1) as i32
        } else {
            MAX_SCORE
        },
        until: s.until,
    }
}

/// Standings of bans among rows.
pub open spec fn bans(s: Seq<(Seq<u8>, Standing)>, now: u64) -> nat
    decreases s.len(),
{
    if s.len() == 0 {
        0
    } else {
        bans(s.drop_last(), now) + if barred(s.last().1, now) {
            1nat
        } else {
            0nat
        }
    }
}

impl View for PeerBook {
    type V = BookV;

    closed spec fn view(&self) -> BookV {
        BookV {
            scores: self.scores@,
            identities: self.identities@.map_values(|t: String| t@),
            ban_ms: self.ban_ms,
        }
    }
}

impl PeerBook {
    /// The tables are well formed and no score is that of a banned peer.
    pub closed spec fn wf(self) -> bool {
        &&& self.scores.wf()
        &&& self.identities.wf()
        &&& forall|k: Seq<u8>| #[trigger]
            self.scores@.contains_key(k) ==> BAN_SCORE < self.scores@[k].score
    }

    /// An empty book with bans of a length in seconds.
    pub fn new(ban_secs: u64) -> (r: PeerBook)
        ensures
            r.wf(),
            r@ == (BookV {
                scores: Map::<Seq<u8>, Standing>::empty(),
                identities: Map::<Seq<u8>, Seq<char>>::empty(),
                ban_ms: if ban_secs * 1_000 <= u64::MAX {
                    (ban_secs * 1_000) as u64
                } else {
                    u64::MAX
                },
            }),
    {
        let ban_ms: u64 = match ban_secs.checked_mul(1_000) {
            Some(n) => n,
            None => u64::MAX,
        };
        let b = PeerBook { scores: Table::new(), identities: Table::new(), ban_ms };
        assert(b@.identities =~= Map::<Seq<u8>, Seq<char>>::empty());
        b
    }

    fn standing(&self, ip: &str) -> (r: Standing)
        requires
            self.wf(),
        ensures
            r == standing_of(self@, ip@),
            BAN_SCORE < r.score,
    {
        let k = text::bytes_of(ip);
        match self.scores.get(k.as_slice()) {
            Some(s) => *s,
            None => Standing { score: 0, until: None },
        }
    }

    /// Whether a host is banned at a time. An expired ban is lifted.
    pub fn is_banned(&mut self, ip: &str, now: u64) -> (r: bool)
        requires
            old(self).wf(),
        ensures
            final(self).wf(),
            r == barred(standing_of(old(self)@, ip@), now),
            final(self)@ == if standing_of(old(self)@, ip@).until is Some && !r {
                BookV {
                    scores: old(self)@.scores.insert(
                        text::utf8(ip@),
                        Standing { score: 0, until: None },
                    ),
                    ..old(self)@
                }
            } else {
                old(self)@
            },
    {
        match self.standing(ip).until {
            None => false,
            Some(u) => {
                if now < u {
                    true
                } else {
                    self.scores.insert(text::bytes_of(ip), Standing { score: 0, until: None });
                    assert(self@.identities =~= old(self)@.identities);
                    false
                }
            },
        }
    }

    /// Rewards a host for a good message.
    pub fn reward(&mut self, ip: &str)
        requires
            old(self).wf(),
        ensures
            final(self).wf(),
            final(self)@ == (BookV {
                scores: old(self)@.scores.insert(
                    text::utf8(ip@),
                    rewarded(standing_of(old(self)@, ip@)),
                ),
                ..old(self)@
            }),
    {
        let s = self.standing(ip);
        let score: i32 = if s.score < MAX_SCORE - 1 {
            s.score + 1
        } else {
            MAX_SCORE
        };
        self.scores.insert(text::bytes_of(ip), Standing { score, until: s.until });
        assert(self@.identities =~= old(self)@.identities);
    }

    /// Charges a host for misbehaviour; whether it just got banned.
    pub fn penalize(&mut self, ip: &str, cost: i32, now: u64) -> (r: bool)
        requires
            old(self).wf(),
            standing_of(old(self)@, ip@).score - cost <= i32::MAX,
        ensures
            final(self).wf(),
            r == (standing_of(old(self)@, ip@).score - cost <= BAN_SCORE),
            final(self)@ == (BookV {
                scores: old(self)@.scores.insert(
                    text::utf8(ip@),
                    penalized(standing_of(old(self)@, ip@), cost, now, old(self)@.ban_ms),
                ),
                ..old(self)@
            }),
    {
        let s = self.standing(ip);
        let left: i64 = s.score as i64 - cost as i64;
        let banned = left <= BAN_SCORE as i64;
        let next = if banned {
            Standing { score: 0, until: Some(now.saturating_add(self.ban_ms)) }
        } else {
            Standing { score: left as i32, until: s.until }
        };
        self.scores.insert(text::bytes_of(ip), next);
        assert(self@.identities =~= old(self)@.identities);
        banned
    }

    /// Records the authenticated key of a host; whether the pairing is new.
    pub fn note_identity(&mut self, ip: &str, id: &str) -> (r: bool)
        requires
            old(self).wf(),
        ensures
            final(self).wf(),
            r == !(old(self)@.identities.contains_key(text::utf8(ip@))
                && old(self)@.identities[text::utf8(ip@)] == id@),
            final(self)@ == (BookV {
                identities: old(self)@.identities.insert(text::utf8(ip@), id@),
                ..old(self)@
            }),
    {
        let k = text::bytes_of(ip);
        let known = match self.identities.get(k.as_slice()) {
            Some(t) => text::same(t.as_str(), id),
            None => false,
        };
        if known {
            assert(self@.identities =~= old(self)@.identities.insert(text::utf8(ip@), id@));
            return false;
        }
        self.identities.insert(k, text::copy(id));
        assert(self@.identities =~= old(self)@.identities.insert(text::utf8(ip@), id@));
        true
    }

    /// The hosts whose key is known, with their keys, in the order of the hosts.
    pub fn known_identities(&self) -> (r: Vec<(String, String)>)
        requires
            self.wf(),
        ensures
            pairs(r@) == named(table::ordered(self@.identities)),
    {
        let n: usize = self.identities.len();
        let ghost es = self.identities.entries();
        let ghost f = |t: String| t@;
        proof {
            table::lemma_ordered_mapped(es, f);
        }
        let ghost all = table::mapped(es, f);
        let mut out: Vec<(String, String)> = Vec::new();
        let mut i: usize = 0;
        while i < n
            invariant
                i <= n,
                n == es.len(),
                es == self.identities.entries(),
                f == (|t: String| t@),
                all == table::mapped(es, f),
                pairs(out@) =~= named(all.take(i as int)),
            decreases n - i,
        {
            let ghost was = pairs(out@);
            let k = text::std_from_utf8_lossy(self.identities.key_at(i).as_slice());
            let v = self.identities.val_at(i).clone();
            let ghost e = (k@, v@);
            out.push((k, v));
            proof {
                assert(pairs(out@) =~= was.push(e));
                assert(all[i as int] == (es[i as int].0, es[i as int].1@));
                assert(named(all.take(i + 1)) =~= named(all.take(i as int)).push(e));
            }
            i = i + 1;
        }
        assert(all.take(all.len() as int) =~= all);
        out
    }

    /// Number of hosts banned at a time.
    pub fn banned_count(&self, now: u64) -> (r: usize)
        requires
            self.wf(),
        ensures
            r == bans(table::ordered(self@.scores), now),
    {
        let n: usize = self.scores.len();
        let ghost es = self.scores.entries();
        proof {
            table::lemma_ordered(es);
            assert(es.take(0) =~= Seq::<(Seq<u8>, Standing)>::empty());
        }
        let mut count: usize = 0;
        let mut i: usize = 0;
        while i < n
            invariant
                i <= n,
                n == es.len(),
                es == self.scores.entries(),
                count <= i,
                count == bans(es.take(i as int), now),
            decreases n - i,
        {
            proof {
                assert(es.take(i + 1).drop_last() =~= es.take(i as int));
                assert(es.take(i + 1).last() == es[i as int]);
            }
            let s = *self.scores.val_at(i);
            let bar = match s.until {
                Some(u) => now < u,
                None => false,
            };
            if bar {
                count = count + 1;
            }
            i = i + 1;
        }
        assert(es.take(es.len() as int) =~= es);
        count
    }
}

/// Models of pairs of texts.
pub open spec fn pairs(v: Seq<(String, String)>) -> Seq<(Seq<char>, Seq<char>)> {
    v.map_values(|e: (String, String)| (e.0@, e.1@))
}

/// Rows with their keys read as texts.
pub open spec fn named(s: Seq<(Seq<u8>, Seq<char>)>) -> Seq<(Seq<char>, Seq<char>)> {
    s.map_values(|e: (Seq<u8>, Seq<char>)| (text::lossy(e.0), e.1))
}

/// A ban lasts its whole period and then ends, and its end leaves no debt.
pub proof fn law_ban_expires(b: BookV, ip: Seq<char>, cost: i32, now: u64, later: u64)
    requires
        cost >= 0,
        standing_of(b, ip).score - cost <= BAN_SCORE,
        now + b.ban_ms <= u64::MAX,
    ensures
        ({
            let after = BookV {
                scores: b.scores.insert(
                    text::utf8(ip),
                    penalized(standing_of(b, ip), cost, now, b.ban_ms),
                ),
                ..b
            };
            &&& barred(standing_of(after, ip), later) <==> later < now + b.ban_ms
            &&& standing_of(after, ip).score == 0
        }),
{
}

} // verus!
