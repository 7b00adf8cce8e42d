//! Indexed transaction pool.
//!
//! Indexes by hash and by sender make admission cheap, and blocks are filled by fee
//! so that a paying transaction is never stuck behind a flood.

use crate::rank;
use crate::rank::Ranked;
use crate::table::Table;
use crate::text;
use crate::types;
use crate::types::Transaction;
use crate::types::TxV;
use vstd::prelude::*;
use vstd::string::*;

verus! {

/// Hard ceiling on queued transactions.
pub const MAX_POOL_TXS: usize = 20_000;

/// Most transactions one account may have queued.
pub const MAX_PENDING_PER_SENDER: u64 = 64;

/// A queued transaction.
pub struct PoolTx {
    pub tx: Transaction,
    pub hash: String,
    pub sender: String,
    /// Arrival order, which keeps same-fee ordering stable and fair.
    pub seq: u64,
}

/// Model of a queued transaction.
#[verifier::ext_equal]
pub struct PoolV {
    pub tx: TxV,
    pub hash: Seq<char>,
    pub sender: Seq<char>,
    pub seq: u64,
}

impl View for PoolTx {
    type V = PoolV;

    open spec fn view(&self) -> PoolV {
        PoolV { tx: self.tx@, hash: self.hash@, sender: self.sender@, seq: self.seq }
    }
}

/// One entry fills a block before another: higher fee, then earlier arrival.
pub open spec fn precedes(a: PoolV, b: PoolV) -> bool {
    a.tx.fee > b.tx.fee || a.tx.fee == b.tx.fee && a.seq < b.seq
}

impl Ranked for Box<PoolTx> {
    open spec fn ahead(a: PoolV, b: PoolV) -> bool {
        precedes(b, a)
    }

    fn is_ahead(&self, other: &Self) -> (r: bool) {
        other.tx.fee > self.tx.fee || (other.tx.fee == self.tx.fee && other.seq < self.seq)
    }
}

/// Number of entries with a hash.
pub open spec fn with_hash(s: Seq<PoolV>, hash: Seq<char>) -> nat
    decreases s.len(),
{
    if s.len() == 0 {
        0
    } else {
        with_hash(s.drop_last(), hash) + if s.last().hash == hash {
            1nat
        } else {
            0
        }
    }
}

/// Number of entries of a sender.
pub open spec fn of_sender(s: Seq<PoolV>, sender: Seq<char>) -> nat
    decreases s.len(),
{
    if s.len() == 0 {
        0
    } else {
        of_sender(s.drop_last(), sender) + if s.last().sender == sender {
            1nat
        } else {
            0
        }
    }
}

/// The count an index holds for a key.
pub open spec fn count_at(m: Map<Seq<u8>, u64>, k: Seq<u8>) -> nat {
    if m.contains_key(k) {
        m[k] as nat
    } else {
        0
    }
}

/// The pool.
pub struct Mempool {
    entries: Vec<Box<PoolTx>>,
    hashes: Table<u64>,
    per_sender: Table<u64>,
    next_seq: u64,
}

impl View for Mempool {
    type V = Seq<PoolV>;

    closed spec fn view(&self) -> Seq<PoolV> {
        rank::views(self.entries@)
    }
}

/// Arrival numbers are below a bound and all different.
pub open spec fn numbered(s: Seq<PoolV>, bound: u64) -> bool {
    &&& forall|i: int| 0 <= i < s.len() ==> (#[trigger] s[i]).seq < bound
    &&& forall|i: int, j: int|
        0 <= i < j < s.len() ==> (#[trigger] s[i]).seq != (#[trigger] s[j]).seq
}

// ---------------------------------------------------------------- eviction

/// An entry is its sender's highest queued nonce.
pub open spec fn is_tail(s: Seq<PoolV>, i: int) -> bool {
    &&& 0 <= i < s.len()
    &&& forall|j: int|
        0 <= j < s.len() && (#[trigger] s[j]).sender == s[i].sender ==> s[j].tx.nonce
            < s[i].tx.nonce || s[j].tx.nonce == s[i].tx.nonce && j <= i
}

/// An entry makes way before another: cheaper, then later arrival.
pub open spec fn yields(a: PoolV, b: PoolV) -> bool {
    a.tx.fee < b.tx.fee || a.tx.fee == b.tx.fee && a.seq >= b.seq
}

/// The entry that makes way first: among the senders' highest nonces the cheapest.
pub open spec fn is_victim(s: Seq<PoolV>, i: int) -> bool {
    &&& is_tail(s, i)
    &&& forall|j: int| #[trigger] is_tail(s, j) ==> yields(s[i], s[j])
}

/// The entry that makes way first.
pub open spec fn victim_of(s: Seq<PoolV>) -> int {
    choose|i: int| is_victim(s, i)
}

/// The pool without an entry; the last one takes its place.
pub open spec fn swapped_out(s: Seq<PoolV>, i: int) -> Seq<PoolV> {
    s.update(i, s.last()).drop_last()
}

/// What making room for a fee evicts: the fee evicted and the pool afterwards.
pub open spec fn evicted(s: Seq<PoolV>, incoming: nat) -> (Option<u128>, Seq<PoolV>) {
    if s.len() == 0 || s[victim_of(s)].tx.fee >= incoming {
        (None, s)
    } else {
        (Some(s[victim_of(s)].tx.fee), swapped_out(s, victim_of(s)))
    }
}

proof fn lemma_victim_unique(s: Seq<PoolV>, bound: u64, i: int, j: int)
    requires
        numbered(s, bound),
        is_victim(s, i),
        is_victim(s, j),
    ensures
        i == j,
{
    assert(yields(s[i], s[j]));
    assert(yields(s[j], s[i]));
    if i < j {
        assert(s[i].seq != s[j].seq);
    }
    if j < i {
        assert(s[j].seq != s[i].seq);
    }
}

/// Eviction never punches a nonce gap into a queue: the entry that leaves is its
/// sender's highest nonce, the one that makes way before all other such entries, and it
/// pays less than the newcomer.
pub proof fn law_eviction_takes_a_tail(s: Seq<PoolV>, incoming: nat)
    requires
        evicted(s, incoming).0 is Some,
    ensures
        is_tail(s, victim_of(s)),
        is_victim(s, victim_of(s)),
        evicted(s, incoming).0->Some_0 < incoming,
        evicted(s, incoming).1.len() == s.len() - 1,
{
    let i = lemma_victim_exists(s);
    assert(is_victim(s, i));
}

/// A pool that holds something has an entry that makes way first.
proof fn lemma_victim_exists(s: Seq<PoolV>) -> (i: int)
    requires
        s.len() > 0,
    ensures
        is_victim(s, i),
{
    let t = lemma_tail_exists(s, 0);
    lemma_victim_among(s, t, s.len() as int)
}

/// The highest nonce of an entry's sender.
proof fn lemma_tail_exists(s: Seq<PoolV>, k: int) -> (t: int)
    requires
        0 <= k < s.len(),
    ensures
        is_tail(s, t),
        s[t].sender == s[k].sender,
{
    lemma_tail_among(s, k, k, s.len() as int)
}

proof fn lemma_tail_among(s: Seq<PoolV>, k: int, best: int, n: int) -> (t: int)
    requires
        0 <= k < s.len(),
        0 <= best < s.len(),
        0 <= n <= s.len(),
        s[best].sender == s[k].sender,
        forall|j: int|
            n <= j < s.len() && (#[trigger] s[j]).sender == s[best].sender ==> s[j].tx.nonce
                < s[best].tx.nonce || s[j].tx.nonce == s[best].tx.nonce && j <= best,
    ensures
        is_tail(s, t),
        s[t].sender == s[k].sender,
    decreases n,
{
    if n == 0 {
        best
    } else {
        let c = n - 1;
        if s[c].sender == s[best].sender && !(s[c].tx.nonce < s[best].tx.nonce || s[c].tx.nonce
            == s[best].tx.nonce && c <= best) {
            lemma_tail_among(s, k, c, c)
        } else {
            lemma_tail_among(s, k, best, c)
        }
    }
}

proof fn lemma_victim_among(s: Seq<PoolV>, best: int, n: int) -> (i: int)
    requires
        is_tail(s, best),
        0 <= n <= s.len(),
        forall|j: int| n <= j < s.len() && #[trigger] is_tail(s, j) ==> yields(s[best], s[j]),
    ensures
        is_victim(s, i),
    decreases n,
{
    if n == 0 {
        assert forall|j: int| #[trigger] is_tail(s, j) implies yields(s[best], s[j]) by {}
        best
    } else {
        let c = n - 1;
        if is_tail(s, c) && !yields(s[best], s[c]) {
            assert forall|j: int| c <= j < s.len() && #[trigger] is_tail(s, j) implies yields(
                s[c],
                s[j],
            ) by {
                if j > c {
                    assert(yields(s[best], s[j]));
                }
            }
            lemma_victim_among(s, c, c)
        } else {
            lemma_victim_among(s, best, c)
        }
    }
}

// ---------------------------------------------------------------- filling a block

/// The lowest queued nonce of every sender.
pub open spec fn lowest(s: Seq<PoolV>) -> Map<Seq<u8>, u128>
    decreases s.len(),
{
    if s.len() == 0 {
        Map::empty()
    } else {
        let m = lowest(s.drop_last());
        let k = text::utf8(s.last().sender);
        if m.contains_key(k) && m[k] <= s.last().tx.nonce {
            m
        } else {
            m.insert(k, s.last().tx.nonce as u128)
        }
    }
}

/// One pass over the pool: what it chose, what it left, and the nonce each sender is
/// at.
#[verifier::ext_equal]
pub struct PassV {
    pub chosen: Seq<PoolV>,
    pub left: Seq<PoolV>,
    pub next: Map<Seq<u8>, u128>,
}

/// An entry is the next one of its sender.
pub open spec fn is_next(next: Map<Seq<u8>, u128>, e: PoolV) -> bool {
    let k = text::utf8(e.sender);
    next.contains_key(k) && next[k] == e.tx.nonce
}

/// A pass after one more entry.
pub open spec fn step(p: PassV, e: PoolV, room: nat) -> PassV {
    if p.chosen.len() < room && is_next(p.next, e) {
        PassV {
            chosen: p.chosen.push(e),
            next: p.next.insert(text::utf8(e.sender), (e.tx.nonce + 1) as u128),
            ..p
        }
    } else {
        PassV { left: p.left.push(e), ..p }
    }
}

/// A pass over a list, its last entry first.
pub open spec fn passed(p: PassV, s: Seq<PoolV>, room: nat) -> PassV
    decreases s.len(),
{
    if s.len() == 0 {
        p
    } else {
        passed(step(p, s.last(), room), s.drop_last(), room)
    }
}

/// A fresh pass.
pub open spec fn fresh(next: Map<Seq<u8>, u128>) -> PassV {
    PassV { chosen: Seq::empty(), left: Seq::empty(), next }
}

/// Passes until the room is used up or nothing is next: what they chose, in order, and
/// what they left.
pub open spec fn filled(s: Seq<PoolV>, next: Map<Seq<u8>, u128>, room: nat) -> (
    Seq<PoolV>,
    Seq<PoolV>,
)
    decreases room,
{
    let p = passed(fresh(next), s, room);
    if p.chosen.len() == 0 || p.chosen.len() >= room {
        (p.chosen, p.left.reverse())
    } else {
        let (c, l) = filled(p.left.reverse(), p.next, (room - p.chosen.len()) as nat);
        (p.chosen + c, l)
    }
}

/// The entries a block takes, in order.
pub open spec fn chosen_of(s: Seq<PoolV>, max: nat) -> Seq<PoolV> {
    if s.len() == 0 || max == 0 {
        Seq::empty()
    } else {
        filled(rank::ranked::<Box<PoolTx>>(s.reverse()), lowest(s), max).0
    }
}

/// A pool with entries deleted; the rest keep their order.
pub open spec fn without(s: Seq<PoolV>, gone: Seq<PoolV>) -> Seq<PoolV>
    decreases s.len(),
{
    if s.len() == 0 {
        s
    } else if gone.contains(s.last()) {
        without(s.drop_last(), gone)
    } else {
        without(s.drop_last(), gone).push(s.last())
    }
}

/// The entries a block takes, in order, and the pool afterwards: what was not taken, in
/// its old order.
pub open spec fn batch_of(s: Seq<PoolV>, max: nat) -> (Seq<PoolV>, Seq<PoolV>) {
    (chosen_of(s, max), without(s, chosen_of(s, max)))
}

/// The transactions of entries.
pub open spec fn txs_of(s: Seq<PoolV>) -> Seq<TxV> {
    s.map_values(|e: PoolV| e.tx)
}

/// Entries whose hash is not among a list.
pub open spec fn unconfirmed(s: Seq<PoolV>, hashes: Seq<Seq<char>>) -> Seq<PoolV>
    decreases s.len(),
{
    if s.len() == 0 {
        s
    } else if hashes.contains(s.last().hash) {
        unconfirmed(s.drop_last(), hashes)
    } else {
        unconfirmed(s.drop_last(), hashes).push(s.last())
    }
}

// ---------------------------------------------------------------- counting lemmas

proof fn lemma_counts_push(s: Seq<PoolV>, e: PoolV, h: Seq<char>)
    ensures
        with_hash(s.push(e), h) == with_hash(s, h) + if e.hash == h {
            1nat
        } else {
            0
        },
        of_sender(s.push(e), h) == of_sender(s, h) + if e.sender == h {
            1nat
        } else {
            0
        },
{
    assert(s.push(e).drop_last() =~= s);
}

proof fn lemma_counts_remove(s: Seq<PoolV>, i: int, h: Seq<char>)
    requires
        0 <= i < s.len(),
    ensures
        with_hash(swapped_out(s, i), h) + (if s[i].hash == h {
            1nat
        } else {
            0
        }) == with_hash(s, h),
        of_sender(swapped_out(s, i), h) + (if s[i].sender == h {
            1nat
        } else {
            0
        }) == of_sender(s, h),
{
    let l = s.len() - 1;
    if i == l {
        assert(swapped_out(s, i) =~= s.drop_last());
    } else {
        let d = s.drop_last();
        assert(swapped_out(s, i) =~= d.update(i, s.last()));
        lemma_counts_update(d, i, s.last(), h);
    }
}

proof fn lemma_counts_update(s: Seq<PoolV>, i: int, e: PoolV, h: Seq<char>)
    requires
        0 <= i < s.len(),
    ensures
        with_hash(s.update(i, e), h) + (if s[i].hash == h {
            1nat
        } else {
            0
        }) == with_hash(s, h) + (if e.hash == h {
            1nat
        } else {
            0
        }),
        of_sender(s.update(i, e), h) + (if s[i].sender == h {
            1nat
        } else {
            0
        }) == of_sender(s, h) + (if e.sender == h {
            1nat
        } else {
            0
        }),
    decreases s.len(),
{
    let t = s.update(i, e);
    if i == s.len() - 1 {
        assert(t.drop_last() =~= s.drop_last());
    } else {
        lemma_counts_update(s.drop_last(), i, e, h);
        assert(t.drop_last() =~= s.drop_last().update(i, e));
    }
}

proof fn lemma_counts_bound(s: Seq<PoolV>, h: Seq<char>)
    ensures
        with_hash(s, h) <= s.len(),
        of_sender(s, h) <= s.len(),
    decreases s.len(),
{
    if s.len() > 0 {
        lemma_counts_bound(s.drop_last(), h);
    }
}

proof fn lemma_hash_present(s: Seq<PoolV>, h: Seq<char>)
    ensures
        with_hash(s, h) > 0 <==> (exists|i: int| 0 <= i < s.len() && (#[trigger] s[i]).hash == h),
    decreases s.len(),
{
    if s.len() > 0 {
        let d = s.drop_last();
        lemma_hash_present(d, h);
        if with_hash(s, h) > 0 {
            if s.last().hash == h {
                assert(s[s.len() - 1].hash == h);
            } else {
                let i = choose|i: int| 0 <= i < d.len() && (#[trigger] d[i]).hash == h;
                assert(s[i].hash == h);
            }
        }
        if exists|i: int| 0 <= i < s.len() && (#[trigger] s[i]).hash == h {
            let i = choose|i: int| 0 <= i < s.len() && (#[trigger] s[i]).hash == h;
            if i < d.len() {
                assert(d[i].hash == h);
            }
        }
    }
}

/// An index with one more of a key.
fn raise(t: &mut Table<u64>, key: &str)
    requires
        old(t).wf(),
        count_at(old(t)@, text::utf8(key@)) < u64::MAX,
    ensures
        final(t).wf(),
        count_at(final(t)@, text::utf8(key@)) == count_at(old(t)@, text::utf8(key@)) + 1,
        forall|k: Seq<u8>|
            k != text::utf8(key@) ==> #[trigger] count_at(final(t)@, k) == count_at(old(t)@, k),
{
    let n: u64 = match t.get(key.as_bytes()) {
        Some(n) => *n,
        None => 0,
    };
    t.insert(text::bytes_of(key), n + 1);
}

/// An index with one less of a key; nothing is kept for none.
fn lower(t: &mut Table<u64>, key: &str)
    requires
        old(t).wf(),
        count_at(old(t)@, text::utf8(key@)) > 0,
    ensures
        final(t).wf(),
        count_at(final(t)@, text::utf8(key@)) == count_at(old(t)@, text::utf8(key@)) - 1,
        forall|k: Seq<u8>|
            k != text::utf8(key@) ==> #[trigger] count_at(final(t)@, k) == count_at(old(t)@, k),
{
    let n: u64 = match t.get(key.as_bytes()) {
        Some(n) => *n,
        None => 0,
    };
    if n <= 1 {
        t.remove(key.as_bytes());
    } else {
        t.insert(text::bytes_of(key), n - 1);
    }
}

impl Mempool {
    /// The indexes count exactly the entries, and arrival numbers are all different.
    pub closed spec fn wf(self) -> bool {
        &&& self.hashes.wf()
        &&& self.per_sender.wf()
        &&& numbered(self@, self.next_seq)
        &&& forall|h: Seq<char>| #[trigger]
            count_at(self.hashes@, text::utf8(h)) == with_hash(self@, h)
        &&& forall|h: Seq<char>| #[trigger]
            count_at(self.per_sender@, text::utf8(h)) == of_sender(self@, h)
    }

    /// More entries can be numbered.
    pub open spec fn open(self) -> bool {
        self.bound() < u64::MAX
    }

    /// Arrival numbers of the pool.
    pub closed spec fn bound(self) -> u64 {
        self.next_seq
    }

    /// The entries of a pool have different arrival numbers.
    pub proof fn lemma_numbered(&self)
        requires
            self.wf(),
        ensures
            numbered(self@, self.bound()),
    {
    }

    /// An empty pool.
    pub fn new() -> (r: Mempool)
        ensures
            r.wf(),
            r.bound() == 0,
            r@ == Seq::<PoolV>::empty(),
    {
        let r = Mempool {
            entries: Vec::new(),
            hashes: Table::new(),
            per_sender: Table::new(),
            next_seq: 0,
        };
        assert(r@ =~= Seq::<PoolV>::empty());
        r
    }

    /// Number of queued transactions.
    pub fn len(&self) -> (r: usize)
        ensures
            r == self@.len(),
    {
        self.entries.len()
    }

    /// Whether nothing is queued.
    pub fn is_empty(&self) -> (r: bool)
        ensures
            r == (self@.len() == 0),
    {
        self.entries.len() == 0
    }

    /// Whether more entries can be numbered.
    pub fn is_open(&self) -> (r: bool)
        ensures
            r == self.open(),
    {
        self.next_seq < u64::MAX
    }

    /// Whether a transaction with a hash is queued.
    pub fn contains(&self, hash: &str) -> (r: bool)
        requires
            self.wf(),
        ensures
            r == (exists|i: int| 0 <= i < self@.len() && (#[trigger] self@[i]).hash == hash@),
    {
        proof {
            lemma_hash_present(self@, hash@);
            assert(count_at(self.hashes@, text::utf8(hash@)) == with_hash(self@, hash@));
        }
        match self.hashes.get(hash.as_bytes()) {
            Some(n) => *n > 0,
            None => false,
        }
    }

    /// Queued transactions of one sender: how far its nonce has run ahead.
    pub fn pending_for(&self, sender: &str) -> (r: u64)
        requires
            self.wf(),
        ensures
            r == of_sender(self@, sender@),
    {
        assert(count_at(self.per_sender@, text::utf8(sender@)) == of_sender(self@, sender@));
        match self.per_sender.get(sender.as_bytes()) {
            Some(n) => *n,
            None => 0,
        }
    }

    /// Queues a transaction.
    pub fn insert(&mut self, tx: Transaction, hash: String, sender: String)
        requires
            old(self).wf(),
            old(self).open(),
        ensures
            final(self).wf(),
            final(self)@ == old(self)@.push(
                PoolV { tx: tx@, hash: hash@, sender: sender@, seq: old(self).bound() },
            ),
            final(self).bound() == old(self).bound() + 1,
    {
        let ghost was = self@;
        let ghost e = PoolV { tx: tx@, hash: hash@, sender: sender@, seq: self.next_seq };
        proof {
            lemma_counts_bound(was, hash@);
            lemma_counts_bound(was, sender@);
            lemma_numbered_len(was, self.next_seq);
            assert(count_at(self.hashes@, text::utf8(hash@)) == with_hash(was, hash@));
            assert(count_at(self.per_sender@, text::utf8(sender@)) == of_sender(was, sender@));
        }
        raise(&mut self.hashes, hash.as_str());
        raise(&mut self.per_sender, sender.as_str());
        let seq = self.next_seq;
        self.next_seq = seq + 1;
        self.entries.push(Box::new(PoolTx { tx, hash, sender, seq }));
        proof {
            assert(self@ =~= was.push(e));
            assert forall|h: Seq<char>| #[trigger]
                count_at(self.hashes@, text::utf8(h)) == with_hash(self@, h) by {
                lemma_counts_push(was, e, h);
                assert(count_at(old(self).hashes@, text::utf8(h)) == with_hash(was, h));
                if text::utf8(h) == text::utf8(e.hash) {
                    text::lemma_utf8_injective(h, e.hash);
                }
            }
            assert forall|h: Seq<char>| #[trigger]
                count_at(self.per_sender@, text::utf8(h)) == of_sender(self@, h) by {
                lemma_counts_push(was, e, h);
                assert(count_at(old(self).per_sender@, text::utf8(h)) == of_sender(was, h));
                if text::utf8(h) == text::utf8(e.sender) {
                    text::lemma_utf8_injective(h, e.sender);
                }
            }
            assert(numbered(self@, self.next_seq)) by {
                assert forall|i: int| 0 <= i < self@.len() implies (#[trigger] self@[i]).seq
                    < self.next_seq by {
                    if i < was.len() {
                        assert(self@[i] == was[i]);
                    }
                }
                assert forall|i: int, j: int| 0 <= i < j < self@.len() implies (#[trigger] self@[i]).seq
                    != (#[trigger] self@[j]).seq by {
                    assert(self@[i] == was[i]);
                    if j < was.len() {
                        assert(self@[j] == was[j]);
                    }
                }
            }
        }
    }

    /// Whether the pool is at its ceiling.
    pub fn is_full(&self) -> (r: bool)
        ensures
            r == (self@.len() >= MAX_POOL_TXS),
    {
        self.entries.len() >= MAX_POOL_TXS
    }
}

/// Entries with different numbers below a bound are at most as many as the bound.
proof fn lemma_numbered_len(s: Seq<PoolV>, bound: u64)
    requires
        numbered(s, bound),
    ensures
        s.len() <= bound,
{
    let t = s.map_values(|e: PoolV| e.seq as int);
    assert(t.no_duplicates()) by {
        assert forall|i: int, j: int| 0 <= i < t.len() && 0 <= j < t.len() && i != j implies t[i]
            != t[j] by {
            if i < j {
                assert(s[i].seq != s[j].seq);
            } else {
                assert(s[j].seq != s[i].seq);
            }
        }
    }
    t.unique_seq_to_set();
    let r = vstd::set_lib::set_int_range(0, bound as int);
    vstd::set_lib::lemma_int_range(0, bound as int);
    assert(t.to_set().subset_of(r)) by {
        assert forall|x: int| t.to_set().contains(x) implies r.contains(x) by {
            let i = choose|i: int| 0 <= i < t.len() && t[i] == x;
            assert(s[i].seq < bound);
        }
    }
    vstd::set_lib::lemma_len_subset(t.to_set(), r);
}


// ---------------------------------------------------------------- what passes keep

/// Number of entries with a property.
pub open spec fn tally(s: Seq<PoolV>, p: spec_fn(PoolV) -> bool) -> nat
    decreases s.len(),
{
    if s.len() == 0 {
        0
    } else {
        tally(s.drop_last(), p) + if p(s.last()) {
            1nat
        } else {
            0
        }
    }
}

proof fn lemma_tally_push(s: Seq<PoolV>, e: PoolV, p: spec_fn(PoolV) -> bool)
    ensures
        tally(s.push(e), p) == tally(s, p) + if p(e) {
            1nat
        } else {
            0
        },
{
    assert(s.push(e).drop_last() =~= s);
}

proof fn lemma_tally_concat(s: Seq<PoolV>, t: Seq<PoolV>, p: spec_fn(PoolV) -> bool)
    ensures
        tally(s + t, p) == tally(s, p) + tally(t, p),
    decreases t.len(),
{
    if t.len() == 0 {
        assert(s + t =~= s);
    } else {
        lemma_tally_concat(s, t.drop_last(), p);
        assert((s + t).drop_last() =~= s + t.drop_last());
    }
}

proof fn lemma_tally_reverse(s: Seq<PoolV>, p: spec_fn(PoolV) -> bool)
    ensures
        tally(s.reverse(), p) == tally(s, p),
    decreases s.len(),
{
    if s.len() > 0 {
        let d = s.drop_last();
        lemma_tally_reverse(d, p);
        assert(s.reverse() =~= seq![s.last()] + d.reverse());
        lemma_tally_concat(seq![s.last()], d.reverse(), p);
        assert(seq![s.last()].drop_last() =~= Seq::<PoolV>::empty());
        assert(tally(seq![s.last()], p) == tally(Seq::<PoolV>::empty(), p) + if p(s.last()) {
            1nat
        } else {
            0
        });
    } else {
        assert(s.reverse() =~= s);
    }
}

proof fn lemma_tally_placed(s: Seq<PoolV>, e: PoolV, p: spec_fn(PoolV) -> bool)
    ensures
        tally(rank::placed::<Box<PoolTx>>(s, e), p) == tally(s, p) + if p(e) {
            1nat
        } else {
            0
        },
    decreases s.len(),
{
    if s.len() == 0 || !<Box<PoolTx> as Ranked>::ahead(e, s.last()) {
        lemma_tally_push(s, e, p);
    } else {
        let q = rank::placed::<Box<PoolTx>>(s.drop_last(), e);
        lemma_tally_placed(s.drop_last(), e, p);
        lemma_tally_push(q, s.last(), p);
    }
}

proof fn lemma_tally_ranked(s: Seq<PoolV>, p: spec_fn(PoolV) -> bool)
    ensures
        tally(rank::ranked::<Box<PoolTx>>(s), p) == tally(s, p),
    decreases s.len(),
{
    if s.len() > 0 {
        lemma_tally_ranked(s.drop_last(), p);
        lemma_tally_placed(rank::ranked::<Box<PoolTx>>(s.drop_last()), s.last(), p);
    }
}

proof fn lemma_tally_passed(v: PassV, s: Seq<PoolV>, room: nat, p: spec_fn(PoolV) -> bool)
    ensures
        ({
            let w = passed(v, s, room);
            tally(w.chosen, p) + tally(w.left, p) == tally(v.chosen, p) + tally(v.left, p) + tally(
                s,
                p,
            )
        }),
    decreases s.len(),
{
    if s.len() > 0 {
        let u = step(v, s.last(), room);
        lemma_tally_push(v.chosen, s.last(), p);
        lemma_tally_push(v.left, s.last(), p);
        lemma_tally_passed(u, s.drop_last(), room, p);
    }
}

proof fn lemma_tally_filled(
    s: Seq<PoolV>,
    next: Map<Seq<u8>, u128>,
    room: nat,
    p: spec_fn(PoolV) -> bool,
)
    ensures
        tally(filled(s, next, room).0, p) + tally(filled(s, next, room).1, p) == tally(s, p),
    decreases room,
{
    let w = passed(fresh(next), s, room);
    lemma_tally_passed(fresh(next), s, room, p);
    lemma_tally_reverse(w.left, p);
    if !(w.chosen.len() == 0 || w.chosen.len() >= room) {
        let rest = (room - w.chosen.len()) as nat;
        lemma_tally_filled(w.left.reverse(), w.next, rest, p);
        lemma_tally_concat(w.chosen, filled(w.left.reverse(), w.next, rest).0, p);
    }
}

/// What a block takes was queued, each entry as often as it was.
pub proof fn lemma_chosen_tally(s: Seq<PoolV>, max: nat, p: spec_fn(PoolV) -> bool)
    ensures
        tally(chosen_of(s, max), p) <= tally(s, p),
{
    if !(s.len() == 0 || max == 0) {
        lemma_tally_reverse(s, p);
        lemma_tally_ranked(s.reverse(), p);
        lemma_tally_filled(rank::ranked::<Box<PoolTx>>(s.reverse()), lowest(s), max, p);
    }
}

/// Entries that were deleted and entries that were not are all entries.
proof fn lemma_tally_without(s: Seq<PoolV>, gone: Seq<PoolV>, p: spec_fn(PoolV) -> bool)
    ensures
        tally(s, p) == tally(without(s, gone), p) + tally(s, among(gone, p)),
    decreases s.len(),
{
    if s.len() > 0 {
        let d = s.drop_last();
        lemma_tally_without(d, gone, p);
        lemma_tally_push(without(d, gone), s.last(), p);
    }
}

/// Entries of a list with a property.
spec fn among(list: Seq<PoolV>, p: spec_fn(PoolV) -> bool) -> spec_fn(PoolV) -> bool {
    |e: PoolV| list.contains(e) && p(e)
}

/// A property that holds of exactly the same entries counts the same.
proof fn lemma_tally_same(
    s: Seq<PoolV>,
    p: spec_fn(PoolV) -> bool,
    q: spec_fn(PoolV) -> bool,
)
    requires
        forall|i: int| 0 <= i < s.len() ==> p(#[trigger] s[i]) == q(s[i]),
    ensures
        tally(s, p) == tally(s, q),
    decreases s.len(),
{
    if s.len() > 0 {
        let d = s.drop_last();
        assert forall|i: int| 0 <= i < d.len() implies p(#[trigger] d[i]) == q(d[i]) by {
            assert(d[i] == s[i]);
        }
        lemma_tally_same(d, p, q);
        assert(s[s.len() - 1] == s.last());
    }
}

/// What a block takes and what it leaves together are the pool.
pub proof fn law_batch_splits_the_pool(
    s: Seq<PoolV>,
    bound: u64,
    max: nat,
    p: spec_fn(PoolV) -> bool,
)
    requires
        numbered(s, bound),
    ensures
        tally(batch_of(s, max).0, p) + tally(batch_of(s, max).1, p) == tally(s, p),
{
    let c = chosen_of(s, max);
    lemma_tally_without(s, c, p);
    if s.len() == 0 || max == 0 {
        lemma_tally_same(s, among(c, p), |e: PoolV| false);
        lemma_tally_never(s);
    } else {
        let r = rank::ranked::<Box<PoolTx>>(s.reverse());
        let l = filled(r, lowest(s), max).1;
        let q = among(c, p);
        lemma_tally_reverse(s, q);
        lemma_tally_ranked(s.reverse(), q);
        lemma_tally_filled(r, lowest(s), max, q);
        assert(tally(c, q) + tally(l, q) == tally(s, q));
        assert forall|i: int| 0 <= i < c.len() implies p(#[trigger] c[i]) == q(c[i]) by {
            assert(c.contains(c[i]));
        }
        lemma_tally_same(c, p, q);
        assert forall|i: int| 0 <= i < l.len() implies !q(#[trigger] l[i]) by {
            if c.contains(l[i]) {
                let j = choose|j: int| 0 <= j < c.len() && c[j] == l[i];
                let n = l[i].seq;
                lemma_tally_some(l, i);
                lemma_tally_some(c, j);
                lemma_tally_reverse(s, with_number(n));
                lemma_tally_ranked(s.reverse(), with_number(n));
                lemma_tally_filled(r, lowest(s), max, with_number(n));
                lemma_numbered_tally(s, bound);
                assert(tally(s, with_number(n)) <= 1);
            }
        }
        lemma_tally_same(l, q, |e: PoolV| false);
        lemma_tally_never(l);
    }
}

proof fn lemma_tally_never(s: Seq<PoolV>)
    ensures
        tally(s, |e: PoolV| false) == 0,
    decreases s.len(),
{
    if s.len() > 0 {
        lemma_tally_never(s.drop_last());
    }
}

/// Deleting entries leaves no more than there were.
proof fn lemma_without_fewer(s: Seq<PoolV>, gone: Seq<PoolV>, bound: u64)
    requires
        numbered(s, bound),
    ensures
        numbered(without(s, gone), bound),
{
    assert forall|p: spec_fn(PoolV) -> bool| #[trigger]
        tally(without(s, gone), p) <= tally(s, p) by {
        lemma_tally_without(s, gone, p);
    }
    lemma_numbered_fewer(s, without(s, gone), bound);
}

proof fn lemma_passed_len(v: PassV, s: Seq<PoolV>, room: nat)
    requires
        v.chosen.len() <= room,
    ensures
        passed(v, s, room).chosen.len() <= room,
    decreases s.len(),
{
    if s.len() > 0 {
        lemma_passed_len(step(v, s.last(), room), s.drop_last(), room);
    }
}

proof fn lemma_filled_len(s: Seq<PoolV>, next: Map<Seq<u8>, u128>, room: nat)
    ensures
        filled(s, next, room).0.len() <= room,
    decreases room,
{
    let w = passed(fresh(next), s, room);
    lemma_passed_len(fresh(next), s, room);
    if !(w.chosen.len() == 0 || w.chosen.len() >= room) {
        lemma_filled_len(w.left.reverse(), w.next, (room - w.chosen.len()) as nat);
    }
}

/// A block never takes more than it has room for.
pub proof fn law_batch_is_capped(s: Seq<PoolV>, max: nat)
    ensures
        batch_of(s, max).0.len() <= max,
{
    if !(s.len() == 0 || max == 0) {
        lemma_filled_len(rank::ranked::<Box<PoolTx>>(s.reverse()), lowest(s), max);
    }
}

/// The entries of every sender come in nonce order, each one step after the one
/// before, all of them below the nonce the sender is at.
pub open spec fn stepping(s: Seq<PoolV>, next: Map<Seq<u8>, u128>) -> bool {
    &&& forall|i: int|
        0 <= i < s.len() ==> next.contains_key(text::utf8((#[trigger] s[i]).sender))
            && s[i].tx.nonce < next[text::utf8(s[i].sender)]
    &&& forall|i: int, j: int|
        0 <= i < j < s.len() && (#[trigger] s[i]).sender == (#[trigger] s[j]).sender
            ==> s[i].tx.nonce < s[j].tx.nonce
}

proof fn lemma_stepping_step(done: Seq<PoolV>, v: PassV, e: PoolV, room: nat)
    requires
        stepping(done + v.chosen, v.next),
    ensures
        stepping(done + step(v, e, room).chosen, step(v, e, room).next),
{
    let w = step(v, e, room);
    if v.chosen.len() < room && is_next(v.next, e) {
        let a = done + v.chosen;
        let b = done + w.chosen;
        assert(b =~= a.push(e));
        assert forall|i: int| 0 <= i < b.len() implies w.next.contains_key(
            text::utf8((#[trigger] b[i]).sender),
        ) && b[i].tx.nonce < w.next[text::utf8(b[i].sender)] by {
            if i < a.len() {
                assert(b[i] == a[i]);
            }
        }
        assert forall|i: int, j: int|
            0 <= i < j < b.len() && (#[trigger] b[i]).sender == (#[trigger] b[j]).sender implies b[i].tx.nonce
            < b[j].tx.nonce by {
            assert(b[i] == a[i]);
            if j < a.len() {
                assert(b[j] == a[j]);
            }
        }
    }
}

proof fn lemma_stepping_passed(done: Seq<PoolV>, v: PassV, s: Seq<PoolV>, room: nat)
    requires
        stepping(done + v.chosen, v.next),
    ensures
        stepping(done + passed(v, s, room).chosen, passed(v, s, room).next),
    decreases s.len(),
{
    if s.len() > 0 {
        lemma_stepping_step(done, v, s.last(), room);
        lemma_stepping_passed(done, step(v, s.last(), room), s.drop_last(), room);
    }
}

proof fn lemma_stepping_filled(
    done: Seq<PoolV>,
    s: Seq<PoolV>,
    next: Map<Seq<u8>, u128>,
    room: nat,
)
    requires
        stepping(done, next),
    ensures
        forall|i: int, j: int|
            #![trigger (done + filled(s, next, room).0)[i], (done + filled(s, next, room).0)[j]]
            0 <= i < j < (done + filled(s, next, room).0).len() && (done + filled(
                s,
                next,
                room,
            ).0)[i].sender == (done + filled(s, next, room).0)[j].sender ==> (done + filled(
                s,
                next,
                room,
            ).0)[i].tx.nonce < (done + filled(s, next, room).0)[j].tx.nonce,
    decreases room,
{
    let f = fresh(next);
    assert(done + f.chosen =~= done);
    lemma_stepping_passed(done, f, s, room);
    let w = passed(f, s, room);
    if !(w.chosen.len() == 0 || w.chosen.len() >= room) {
        let rest = (room - w.chosen.len()) as nat;
        lemma_stepping_filled(done + w.chosen, w.left.reverse(), w.next, rest);
        let c = filled(w.left.reverse(), w.next, rest).0;
        assert((done + w.chosen) + c =~= done + (w.chosen + c));
    }
}

/// A block never takes a sender's later nonce before its earlier one.
pub proof fn law_batch_keeps_nonce_order(s: Seq<PoolV>, max: nat, i: int, j: int)
    requires
        0 <= i < j < batch_of(s, max).0.len(),
        batch_of(s, max).0[i].sender == batch_of(s, max).0[j].sender,
    ensures
        batch_of(s, max).0[i].tx.nonce < batch_of(s, max).0[j].tx.nonce,
{
    if !(s.len() == 0 || max == 0) {
        let e = Seq::<PoolV>::empty();
        let r = rank::ranked::<Box<PoolTx>>(s.reverse());
        lemma_stepping_filled(e, r, lowest(s), max);
        let b = filled(r, lowest(s), max).0;
        assert(e + b =~= b);
        assert((e + b)[i] == b[i] && (e + b)[j] == b[j]);
    }
}

/// A list holds an entry of a sender with a nonce.
pub open spec fn has_nonce(c: Seq<PoolV>, sender: Seq<char>, k: int) -> bool {
    exists|i: int|
        0 <= i < c.len() && (#[trigger] c[i]).sender == sender && c[i].tx.nonce == k
}

/// Every nonce a sender went through was chosen.
spec fn reached(
    c: Seq<PoolV>,
    start: Map<Seq<u8>, u128>,
    next: Map<Seq<u8>, u128>,
) -> bool {
    forall|x: Seq<char>, k: int|
        next.contains_key(text::utf8(x)) && start[text::utf8(x)] <= k < next[text::utf8(x)]
            ==> #[trigger] has_nonce(c, x, k)
}

/// Every nonce a sender went through before an entry was chosen.
spec fn rooted(c: Seq<PoolV>, start: Map<Seq<u8>, u128>) -> bool {
    forall|j: int, k: int|
        #![trigger has_nonce(c, c[j].sender, k)]
        0 <= j < c.len() && start[text::utf8(c[j].sender)] <= k < c[j].tx.nonce ==> has_nonce(
            c,
            c[j].sender,
            k,
        )
}

proof fn lemma_has_more(c: Seq<PoolV>, e: PoolV, sender: Seq<char>, k: int)
    requires
        has_nonce(c, sender, k),
    ensures
        has_nonce(c.push(e), sender, k),
{
    let i = choose|i: int|
        0 <= i < c.len() && (#[trigger] c[i]).sender == sender && c[i].tx.nonce == k;
    assert(c.push(e)[i] == c[i]);
}

proof fn lemma_rooted_step(
    done: Seq<PoolV>,
    v: PassV,
    e: PoolV,
    room: nat,
    start: Map<Seq<u8>, u128>,
)
    requires
        reached(done + v.chosen, start, v.next),
        rooted(done + v.chosen, start),
    ensures
        reached(done + step(v, e, room).chosen, start, step(v, e, room).next),
        rooted(done + step(v, e, room).chosen, start),
{
    let w = step(v, e, room);
    if v.chosen.len() < room && is_next(v.next, e) {
        let a = done + v.chosen;
        let b = done + w.chosen;
        let n = a.len() as int;
        assert(b =~= a.push(e));
        assert(b[n] == e);
        assert forall|x: Seq<char>, k: int|
            w.next.contains_key(text::utf8(x)) && start[text::utf8(x)] <= k
                < w.next[text::utf8(x)] implies #[trigger] has_nonce(b, x, k) by {
            if text::utf8(x) == text::utf8(e.sender) {
                text::lemma_utf8_injective(x, e.sender);
                if k == e.tx.nonce {
                    assert(b[n].sender == x && b[n].tx.nonce == k);
                } else {
                    assert(has_nonce(a, x, k));
                    lemma_has_more(a, e, x, k);
                }
            } else {
                assert(has_nonce(a, x, k));
                lemma_has_more(a, e, x, k);
            }
        }
        assert forall|j: int, k: int|
            #![trigger has_nonce(b, b[j].sender, k)]
            0 <= j < b.len() && start[text::utf8(b[j].sender)] <= k < b[j].tx.nonce implies has_nonce(
            b,
            b[j].sender,
            k,
        ) by {
            if j < n {
                assert(b[j] == a[j]);
                assert(has_nonce(a, a[j].sender, k));
            } else {
                assert(has_nonce(a, e.sender, k));
            }
            lemma_has_more(a, e, b[j].sender, k);
        }
    }
}

proof fn lemma_rooted_passed(
    done: Seq<PoolV>,
    v: PassV,
    s: Seq<PoolV>,
    room: nat,
    start: Map<Seq<u8>, u128>,
)
    requires
        reached(done + v.chosen, start, v.next),
        rooted(done + v.chosen, start),
    ensures
        reached(done + passed(v, s, room).chosen, start, passed(v, s, room).next),
        rooted(done + passed(v, s, room).chosen, start),
    decreases s.len(),
{
    if s.len() > 0 {
        lemma_rooted_step(done, v, s.last(), room, start);
        lemma_rooted_passed(done, step(v, s.last(), room), s.drop_last(), room, start);
    }
}

proof fn lemma_rooted_filled(
    done: Seq<PoolV>,
    s: Seq<PoolV>,
    next: Map<Seq<u8>, u128>,
    room: nat,
    start: Map<Seq<u8>, u128>,
)
    requires
        reached(done, start, next),
        rooted(done, start),
    ensures
        rooted(done + filled(s, next, room).0, start),
    decreases room,
{
    let f = fresh(next);
    assert(done + f.chosen =~= done);
    lemma_rooted_passed(done, f, s, room, start);
    let w = passed(f, s, room);
    if !(w.chosen.len() == 0 || w.chosen.len() >= room) {
        let rest = (room - w.chosen.len()) as nat;
        lemma_rooted_filled(done + w.chosen, w.left.reverse(), w.next, rest, start);
        let c = filled(w.left.reverse(), w.next, rest).0;
        assert((done + w.chosen) + c =~= done + (w.chosen + c));
    }
}

/// The lowest queued nonce of a sender is at most any other.
proof fn lemma_lowest(s: Seq<PoolV>, i: int)
    requires
        0 <= i < s.len(),
    ensures
        lowest(s).contains_key(text::utf8(s[i].sender)),
        lowest(s)[text::utf8(s[i].sender)] <= s[i].tx.nonce,
    decreases s.len(),
{
    if i < s.len() - 1 {
        lemma_lowest(s.drop_last(), i);
        assert(s.drop_last()[i] == s[i]);
    }
}

/// What a block takes of a sender starts with the earliest queued and skips nothing: every
/// nonce the sender queued before one that is taken is taken too, and comes first.
pub proof fn law_batch_skips_no_nonce(s: Seq<PoolV>, max: nat, q: int, j: int)
    requires
        0 <= q < s.len(),
        0 <= j < batch_of(s, max).0.len(),
        s[q].sender == batch_of(s, max).0[j].sender,
        s[q].tx.nonce < batch_of(s, max).0[j].tx.nonce,
    ensures
        exists|i: int|
            0 <= i < j && (#[trigger] batch_of(s, max).0[i]).sender == s[q].sender && batch_of(
                s,
                max,
            ).0[i].tx.nonce == s[q].tx.nonce,
{
    let none = Seq::<PoolV>::empty();
    let r = rank::ranked::<Box<PoolTx>>(s.reverse());
    let c = batch_of(s, max).0;
    let k = s[q].tx.nonce as int;
    lemma_rooted_filled(none, r, lowest(s), max, lowest(s));
    assert(none + c =~= c);
    lemma_lowest(s, q);
    assert(has_nonce(c, c[j].sender, k));
    let i = choose|i: int|
        0 <= i < c.len() && (#[trigger] c[i]).sender == c[j].sender && c[i].tx.nonce == k;
    if i > j {
        law_batch_keeps_nonce_order(s, max, j, i);
    }
    assert(batch_of(s, max).0[i].sender == s[q].sender);
}

/// The first entry from the end of a list that is next for its sender.
proof fn lemma_first_chosen(v: PassV, s: Seq<PoolV>, room: nat, k: int)
    requires
        v.chosen.len() == 0,
        room > 0,
        0 <= k < s.len(),
        is_next(v.next, s[k]),
    ensures
        passed(v, s, room).chosen.len() > 0,
        exists|i: int|
            k <= i < s.len() && #[trigger] s[i] == passed(v, s, room).chosen[0] && is_next(
                v.next,
                s[i],
            ),
    decreases s.len(),
{
    let l = s.len() - 1;
    if is_next(v.next, s.last()) {
        let w = step(v, s.last(), room);
        lemma_chosen_stay(w, s.drop_last(), room);
        assert(s[l] == w.chosen[0]);
    } else {
        let w = step(v, s.last(), room);
        lemma_first_chosen(w, s.drop_last(), room, k);
        let i = choose|i: int|
            k <= i < s.drop_last().len() && #[trigger] s.drop_last()[i] == passed(
                w,
                s.drop_last(),
                room,
            ).chosen[0] && is_next(w.next, s.drop_last()[i]);
        assert(s[i] == s.drop_last()[i]);
    }
}

/// What was chosen stays chosen.
proof fn lemma_chosen_stay(v: PassV, s: Seq<PoolV>, room: nat)
    ensures
        passed(v, s, room).chosen.len() >= v.chosen.len(),
        passed(v, s, room).chosen.take(v.chosen.len() as int) == v.chosen,
    decreases s.len(),
{
    if s.len() > 0 {
        let w = step(v, s.last(), room);
        lemma_chosen_stay(w, s.drop_last(), room);
        let c = passed(v, s, room).chosen;
        assert(c.take(w.chosen.len() as int).take(v.chosen.len() as int) =~= c.take(
            v.chosen.len() as int,
        ));
        assert(w.chosen.take(v.chosen.len() as int) =~= v.chosen);
    } else {
        assert(v.chosen.take(v.chosen.len() as int) =~= v.chosen);
    }
}

proof fn lemma_precedes_is_orderly()
    ensures
        rank::orderly::<Box<PoolTx>>(),
{
}

/// Where an entry of a pool stands once the pool is ranked.
proof fn lemma_ranked_place(s: Seq<PoolV>, q: int) -> (k: int)
    requires
        0 <= q < s.len(),
    ensures
        0 <= k < rank::ranked::<Box<PoolTx>>(s.reverse()).len(),
        rank::ranked::<Box<PoolTx>>(s.reverse())[k] == s[q],
        rank::ranked::<Box<PoolTx>>(s.reverse()).len() == s.len(),
{
    broadcast use vstd::seq_lib::group_to_multiset_ensures;

    let t = s.reverse();
    let r = rank::ranked::<Box<PoolTx>>(t);
    rank::law_ranking_keeps_values::<Box<PoolTx>>(t);
    assert(t[s.len() - 1 - q] == s[q]);
    assert(t.contains(s[q]));
    assert(t.to_multiset().count(s[q]) > 0);
    assert(r.contains(s[q]));
    assert(r.to_multiset().len() == t.to_multiset().len());
    choose|k: int| 0 <= k < r.len() && r[k] == s[q]
}

/// Where an entry of a ranked pool stands in the pool.
proof fn lemma_ranked_source(s: Seq<PoolV>, k: int) -> (q: int)
    requires
        0 <= k < rank::ranked::<Box<PoolTx>>(s.reverse()).len(),
    ensures
        0 <= q < s.len(),
        rank::ranked::<Box<PoolTx>>(s.reverse())[k] == s[q],
{
    broadcast use vstd::seq_lib::group_to_multiset_ensures;

    let t = s.reverse();
    let r = rank::ranked::<Box<PoolTx>>(t);
    rank::law_ranking_keeps_values::<Box<PoolTx>>(t);
    assert(r.contains(r[k]));
    assert(r.to_multiset().count(r[k]) > 0);
    assert(t.contains(r[k]));
    let i = choose|i: int| 0 <= i < t.len() && t[i] == r[k];
    assert(t[i] == s[s.len() - 1 - i]);
    s.len() - 1 - i
}

/// The lowest queued nonce of a sender is one of its queued nonces.
proof fn lemma_lowest_is_queued(s: Seq<PoolV>, sender: Seq<char>) -> (q: int)
    requires
        lowest(s).contains_key(text::utf8(sender)),
    ensures
        0 <= q < s.len(),
        s[q].sender == sender,
        s[q].tx.nonce == lowest(s)[text::utf8(sender)],
    decreases s.len(),
{
    let k = text::utf8(sender);
    let m = lowest(s.drop_last());
    let e = s.last();
    if text::utf8(e.sender) == k && !(m.contains_key(k) && m[k] <= e.tx.nonce) {
        text::lemma_utf8_injective(e.sender, sender);
        s.len() - 1
    } else {
        let q = lemma_lowest_is_queued(s.drop_last(), sender);
        assert(s[q] == s.drop_last()[q]);
        q
    }
}

/// No entry of a sender has a lower nonce.
pub open spec fn is_head(s: Seq<PoolV>, q: int) -> bool {
    forall|j: int|
        0 <= j < s.len() && (#[trigger] s[j]).sender == s[q].sender ==> s[q].tx.nonce
            <= s[j].tx.nonce
}

/// A block with room takes something of a pool that has something, and takes the best first:
/// of the entries with their sender's lowest nonce the one that pays most, and of those that
/// pay the same the one that came first.
pub proof fn law_batch_takes_the_best_first(s: Seq<PoolV>, bound: u64, max: nat, q: int)
    requires
        numbered(s, bound),
        max > 0,
        0 <= q < s.len(),
        is_head(s, q),
    ensures
        batch_of(s, max).0.len() > 0,
        ({
            let b = batch_of(s, max).0[0];
            b == s[q] || b.tx.fee > s[q].tx.fee || b.tx.fee == s[q].tx.fee && b.seq < s[q].seq
        }),
        exists|p: int| 0 <= p < s.len() && #[trigger] s[p] == batch_of(s, max).0[0] && is_head(s, p),
{
    let r = rank::ranked::<Box<PoolTx>>(s.reverse());
    let k = lemma_ranked_place(s, q);
    lemma_lowest(s, q);
    let x = lemma_lowest_is_queued(s, s[q].sender);
    assert(s[x].sender == s[q].sender);
    assert(is_next(lowest(s), r[k]));
    let f = fresh(lowest(s));
    lemma_first_chosen(f, r, max, k);
    let i = choose|i: int|
        k <= i < r.len() && #[trigger] r[i] == passed(f, r, max).chosen[0] && is_next(
            f.next,
            r[i],
        );
    let c = filled(r, lowest(s), max).0;
    assert(c[0] == passed(f, r, max).chosen[0]);
    let p = lemma_ranked_source(s, i);
    lemma_precedes_is_orderly();
    rank::law_ranking_orders::<Box<PoolTx>>(s.reverse());
    if k < i {
        assert(!<Box<PoolTx> as Ranked>::ahead(r[i], r[k]));
        if p != q {
            if p < q {
                assert(s[p].seq != s[q].seq);
            } else {
                assert(s[q].seq != s[p].seq);
            }
        }
    }
    assert forall|j: int| 0 <= j < s.len() && (#[trigger] s[j]).sender == s[p].sender implies s[p].tx.nonce
        <= s[j].tx.nonce by {
        lemma_lowest(s, j);
    }
    assert(is_head(s, p));
}

/// Every sender has one entry queued.
pub open spec fn lone(s: Seq<PoolV>) -> bool {
    forall|i: int, j: int|
        0 <= i < j < s.len() ==> (#[trigger] s[i]).sender != (#[trigger] s[j]).sender
}

/// A pass over entries of different senders that are all next takes them from the end.
proof fn lemma_lone_passed(v: PassV, s: Seq<PoolV>, room: nat)
    requires
        lone(s),
        v.chosen.len() <= room,
        forall|i: int| 0 <= i < s.len() ==> is_next(v.next, #[trigger] s[i]),
    ensures
        ({
            let n = if s.len() <= room - v.chosen.len() {
                s.len() as int
            } else {
                room - v.chosen.len()
            };
            passed(v, s, room).chosen == v.chosen + s.reverse().take(n)
        }),
    decreases s.len(),
{
    let n = if s.len() <= room - v.chosen.len() {
        s.len() as int
    } else {
        room - v.chosen.len()
    };
    if s.len() > 0 {
        let d = s.drop_last();
        let l = s.len() - 1;
        assert(is_next(v.next, s[l]));
        let w = step(v, s.last(), room);
        assert forall|i: int, j: int| 0 <= i < j < d.len() implies (#[trigger] d[i]).sender != (
        #[trigger] d[j]).sender by {
            assert(d[i] == s[i] && d[j] == s[j]);
        }
        assert forall|i: int| 0 <= i < d.len() implies is_next(w.next, #[trigger] d[i]) by {
            assert(d[i] == s[i]);
            assert(is_next(v.next, s[i]));
            assert(s[i].sender != s[l].sender);
            if text::utf8(d[i].sender) == text::utf8(s.last().sender) {
                text::lemma_utf8_injective(d[i].sender, s.last().sender);
            }
        }
        lemma_lone_passed(w, d, room);
        if v.chosen.len() < room {
            assert(v.chosen + s.reverse().take(n) =~= w.chosen + d.reverse().take(n - 1));
        } else {
            assert(v.chosen + s.reverse().take(n) =~= w.chosen + d.reverse().take(0));
        }
    } else {
        assert(v.chosen + s.reverse().take(n) =~= v.chosen);
    }
}

/// When every sender has one transaction queued, a block takes as many as it has room for,
/// those that pay most, in that order, and of those that pay the same the older first.
pub proof fn law_lone_transactions_go_by_fee(s: Seq<PoolV>, bound: u64, max: nat)
    requires
        numbered(s, bound),
        lone(s),
    ensures
        ({
            let b = batch_of(s, max).0;
            &&& b.len() == if s.len() <= max {
                s.len()
            } else {
                max
            }
            &&& forall|i: int, j: int|
                0 <= i < j < b.len() ==> (#[trigger] b[i]).tx.fee > (#[trigger] b[j]).tx.fee
                    || b[i].tx.fee == b[j].tx.fee && b[i].seq < b[j].seq
            &&& forall|i: int, q: int|
                0 <= i < b.len() && 0 <= q < s.len() && !b.contains(#[trigger] s[q]) ==> (
                #[trigger] b[i]).tx.fee > s[q].tx.fee || b[i].tx.fee == s[q].tx.fee && b[i].seq
                    < s[q].seq
        }),
{
    let b = batch_of(s, max).0;
    if s.len() > 0 && max > 0 {
        let r = rank::ranked::<Box<PoolTx>>(s.reverse());
        let n = lemma_ranked_place(s, 0);
        lemma_precedes_is_orderly();
        rank::law_ranking_orders::<Box<PoolTx>>(s.reverse());
        lemma_ranked_apart(s, bound);
        let f = fresh(lowest(s));
        assert forall|i: int| 0 <= i < r.len() implies is_next(f.next, #[trigger] r[i]) by {
            let q = lemma_ranked_source(s, i);
            lemma_lowest(s, q);
            let x = lemma_lowest_is_queued(s, s[q].sender);
            if x < q {
                assert(s[x].sender != s[q].sender);
            }
            if q < x {
                assert(s[q].sender != s[x].sender);
            }
        }
        assert(lone(r)) by {
            assert forall|i: int, j: int| 0 <= i < j < r.len() implies (#[trigger] r[i]).sender != (
            #[trigger] r[j]).sender by {
                let x = lemma_ranked_source(s, i);
                let y = lemma_ranked_source(s, j);
                assert(r[i].seq != r[j].seq);
                if x < y {
                    assert(s[x].sender != s[y].sender);
                } else if y < x {
                    assert(s[y].sender != s[x].sender);
                }
            }
        }
        lemma_lone_passed(f, r, max);
        let m = if r.len() <= max {
            r.len() as int
        } else {
            max as int
        };
        let c = passed(f, r, max).chosen;
        assert(c =~= r.reverse().take(m));
        if c.len() < max {
            // everything was taken: what is left is nothing
            lemma_lone_left(f, r, max);
            let w = passed(f, r, max);
            let rest = (max - c.len()) as nat;
            assert(w.left.reverse() =~= Seq::<PoolV>::empty());
            assert(passed(fresh(w.next), w.left.reverse(), rest) == fresh(w.next));
            assert(filled(w.left.reverse(), w.next, rest).0 =~= Seq::<PoolV>::empty());
            assert(b =~= c);
        }
        assert(b == c);
        assert forall|i: int, j: int| 0 <= i < j < b.len() implies (#[trigger] b[i]).tx.fee > (
        #[trigger] b[j]).tx.fee || b[i].tx.fee == b[j].tx.fee && b[i].seq < b[j].seq by {
            let (x, y) = (r.len() - 1 - i, r.len() - 1 - j);
            assert(b[i] == r[x] && b[j] == r[y]);
            assert(!<Box<PoolTx> as Ranked>::ahead(r[x], r[y]));
            assert(r[y].seq != r[x].seq);
        }
        assert forall|i: int, q: int|
            0 <= i < b.len() && 0 <= q < s.len() && !b.contains(#[trigger] s[q]) implies (
        #[trigger] b[i]).tx.fee > s[q].tx.fee || b[i].tx.fee == s[q].tx.fee && b[i].seq
            < s[q].seq by {
            let y = lemma_ranked_place(s, q);
            let x = r.len() - 1 - i;
            assert(b[i] == r[x]);
            if y >= r.len() - b.len() {
                assert(b[r.len() - 1 - y] == s[q]);
            }
            assert(!<Box<PoolTx> as Ranked>::ahead(r[x], r[y]));
            assert(r[y].seq != r[x].seq);
        }
    }
}

/// A pass over entries of different senders that are all next leaves nothing while there is
/// room.
proof fn lemma_lone_left(v: PassV, s: Seq<PoolV>, room: nat)
    requires
        lone(s),
        v.chosen.len() + s.len() <= room,
        v.left.len() == 0,
        forall|i: int| 0 <= i < s.len() ==> is_next(v.next, #[trigger] s[i]),
    ensures
        passed(v, s, room).left.len() == 0,
    decreases s.len(),
{
    if s.len() > 0 {
        let d = s.drop_last();
        let l = s.len() - 1;
        assert(is_next(v.next, s[l]));
        let w = step(v, s.last(), room);
        assert forall|i: int, j: int| 0 <= i < j < d.len() implies (#[trigger] d[i]).sender != (
        #[trigger] d[j]).sender by {
            assert(d[i] == s[i] && d[j] == s[j]);
        }
        assert forall|i: int| 0 <= i < d.len() implies is_next(w.next, #[trigger] d[i]) by {
            assert(d[i] == s[i]);
            assert(is_next(v.next, s[i]));
            assert(s[i].sender != s[l].sender);
            if text::utf8(d[i].sender) == text::utf8(s.last().sender) {
                text::lemma_utf8_injective(d[i].sender, s.last().sender);
            }
        }
        lemma_lone_left(w, d, room);
    }
}

/// Entries of a ranked pool have different arrival numbers.
proof fn lemma_ranked_apart(s: Seq<PoolV>, bound: u64)
    requires
        numbered(s, bound),
    ensures
        numbered(rank::ranked::<Box<PoolTx>>(s.reverse()), bound),
{
    let r = rank::ranked::<Box<PoolTx>>(s.reverse());
    assert forall|p: spec_fn(PoolV) -> bool| #[trigger] tally(r, p) <= tally(s, p) by {
        lemma_tally_reverse(s, p);
        lemma_tally_ranked(s.reverse(), p);
    }
    lemma_numbered_fewer(s, r, bound);
}

proof fn lemma_with_hash_tally(s: Seq<PoolV>, h: Seq<char>)
    ensures
        with_hash(s, h) == tally(s, |e: PoolV| e.hash == h),
        of_sender(s, h) == tally(s, |e: PoolV| e.sender == h),
    decreases s.len(),
{
    if s.len() > 0 {
        lemma_with_hash_tally(s.drop_last(), h);
    }
}

/// Whether an entry has a number.
spec fn with_number(n: u64) -> spec_fn(PoolV) -> bool {
    |e: PoolV| e.seq == n
}

/// Counting entries tells whether their numbers are all different and below a bound.
proof fn lemma_numbered_tally(s: Seq<PoolV>, bound: u64)
    ensures
        numbered(s, bound) <==> {
            &&& tally(s, |e: PoolV| e.seq >= bound) == 0
            &&& forall|n: u64| #[trigger] tally(s, with_number(n)) <= 1
        },
    decreases s.len(),
{
    if s.len() > 0 {
        let d = s.drop_last();
        lemma_numbered_tally(d, bound);
        let l = s.len() - 1;
        assert forall|n: u64| #[trigger] tally(s, with_number(n)) == tally(
            d,
            with_number(n),
        ) + if s.last().seq == n {
            1nat
        } else {
            0
        } by {}
        if numbered(s, bound) {
            assert(numbered(d, bound)) by {
                assert forall|i: int| 0 <= i < d.len() implies (#[trigger] d[i]).seq < bound by {
                    assert(d[i] == s[i]);
                }
                assert forall|i: int, j: int| 0 <= i < j < d.len() implies (#[trigger] d[i]).seq
                    != (#[trigger] d[j]).seq by {
                    assert(d[i] == s[i] && d[j] == s[j]);
                }
            }
            let n = s.last().seq;
            lemma_tally_none(d, n);
            assert forall|m: u64| #[trigger] tally(s, with_number(m)) <= 1 by {
                assert(tally(d, with_number(m)) <= 1);
            }
            assert(s[l].seq < bound);
        }
        if tally(s, |e: PoolV| e.seq >= bound) == 0 && (forall|n: u64| #[trigger]
            tally(s, with_number(n)) <= 1) {
            assert forall|n: u64| #[trigger] tally(d, with_number(n)) <= 1 by {
                assert(tally(s, with_number(n)) <= 1);
            }
            assert(numbered(d, bound));
            let n = s.last().seq;
            assert(tally(s, with_number(n)) <= 1);
            assert(tally(d, with_number(n)) == 0);
            assert forall|i: int| 0 <= i < s.len() implies (#[trigger] s[i]).seq < bound by {
                if i < l {
                    assert(d[i] == s[i]);
                }
            }
            assert forall|i: int, j: int| 0 <= i < j < s.len() implies (#[trigger] s[i]).seq != (
            #[trigger] s[j]).seq by {
                assert(d[i] == s[i]);
                if j < l {
                    assert(d[j] == s[j]);
                } else if s[i].seq == s[j].seq {
                    lemma_tally_some(d, i);
                }
            }
        }
    }
}

/// No entry has a number that all others differ from.
proof fn lemma_tally_none(d: Seq<PoolV>, n: u64)
    ensures
        (forall|i: int| 0 <= i < d.len() ==> (#[trigger] d[i]).seq != n) ==> tally(
            d,
            with_number(n),
        ) == 0,
    decreases d.len(),
{
    if d.len() > 0 {
        lemma_tally_none(d.drop_last(), n);
        if forall|i: int| 0 <= i < d.len() ==> (#[trigger] d[i]).seq != n {
            assert(d[d.len() - 1].seq != n);
            assert forall|i: int| 0 <= i < d.drop_last().len() implies (
            #[trigger] d.drop_last()[i]).seq != n by {
                assert(d[i].seq != n);
            }
        }
    }
}

proof fn lemma_tally_some(d: Seq<PoolV>, i: int)
    requires
        0 <= i < d.len(),
    ensures
        tally(d, with_number(d[i].seq)) >= 1,
    decreases d.len(),
{
    let n = d[i].seq;
    if i < d.len() - 1 {
        lemma_tally_some(d.drop_last(), i);
        assert(d.drop_last()[i] == d[i]);
    }
}

/// Fewer entries keep different numbers.
proof fn lemma_numbered_fewer(s: Seq<PoolV>, t: Seq<PoolV>, bound: u64)
    requires
        numbered(s, bound),
        forall|p: spec_fn(PoolV) -> bool| #[trigger] tally(t, p) <= tally(s, p),
    ensures
        numbered(t, bound),
{
    lemma_numbered_tally(s, bound);
    lemma_numbered_tally(t, bound);
    assert forall|n: u64| #[trigger] tally(t, with_number(n)) <= 1 by {
        assert(tally(s, with_number(n)) <= 1);
        assert(tally(t, with_number(n)) <= tally(s, with_number(n)));
    }
    assert(tally(t, |e: PoolV| e.seq >= bound) <= tally(s, |e: PoolV| e.seq >= bound));
}

/// A list turned around.
fn flip<T>(v: Vec<T>) -> (r: Vec<T>)
    ensures
        r@ == v@.reverse(),
{
    let ghost all = v@;
    let mut v = v;
    let mut out: Vec<T> = Vec::new();
    while v.len() > 0
        invariant
            v@.len() <= all.len(),
            v@ == all.take(v@.len() as int),
            out@ == all.skip(v@.len() as int).reverse(),
        decreases v@.len(),
    {
        let ghost n = v@.len() as int;
        match v.pop() {
            Some(e) => {
                out.push(e);
                assert(v@ =~= all.take(n - 1));
                assert(out@ =~= all.skip(n - 1).reverse());
            },
            None => {},
        }
    }
    assert(all.skip(0) =~= all);
    out
}

/// The entries at positions of a pool.
spec fn entries_at(s: Seq<PoolV>, lane: Seq<usize>) -> Seq<PoolV> {
    lane.map_values(|i: usize| s[i as int])
}

/// All positions are in a pool.
spec fn within(s: Seq<PoolV>, lane: Seq<usize>) -> bool {
    forall|k: int| 0 <= k < lane.len() ==> (#[trigger] lane[k]) < s.len()
}

impl Mempool {
    /// The lowest queued nonce of every sender.
    fn lowest_nonces(&self) -> (r: Table<u128>)
        ensures
            r.wf(),
            r@ == lowest(self@),
    {
        let ghost s = self@;
        let mut t: Table<u128> = Table::new();
        let mut i: usize = 0;
        assert(t@ =~= lowest(s.take(0)));
        while i < self.entries.len()
            invariant
                i <= self.entries@.len(),
                s == rank::views(self.entries@),
                t.wf(),
                t@ == lowest(s.take(i as int)),
            decreases self.entries@.len() - i,
        {
            proof {
                assert(s.take(i + 1).drop_last() =~= s.take(i as int));
                assert(s.take(i + 1).last() == self.entries@[i as int]@);
            }
            let nonce: u128 = self.entries[i].tx.nonce as u128;
            let known = match t.get(self.entries[i].sender.as_str().as_bytes()) {
                Some(n) => *n <= nonce,
                None => false,
            };
            if !known {
                t.insert(text::bytes_of(self.entries[i].sender.as_str()), nonce);
            }
            i = i + 1;
        }
        assert(s.take(s.len() as int) =~= s);
        t
    }

    /// Removes an entry from the indexes.
    fn unindex(&mut self, hash: &str, sender: &str)
        requires
            old(self).hashes.wf(),
            old(self).per_sender.wf(),
            count_at(old(self).hashes@, text::utf8(hash@)) > 0,
            count_at(old(self).per_sender@, text::utf8(sender@)) > 0,
        ensures
            final(self).hashes.wf(),
            final(self).per_sender.wf(),
            final(self).entries == old(self).entries,
            final(self).next_seq == old(self).next_seq,
            forall|h: Seq<char>| #[trigger]
                count_at(final(self).hashes@, text::utf8(h)) + (if h == hash@ {
                    1nat
                } else {
                    0
                }) == count_at(old(self).hashes@, text::utf8(h)),
            forall|h: Seq<char>| #[trigger]
                count_at(final(self).per_sender@, text::utf8(h)) + (if h == sender@ {
                    1nat
                } else {
                    0
                }) == count_at(old(self).per_sender@, text::utf8(h)),
    {
        lower(&mut self.hashes, hash);
        lower(&mut self.per_sender, sender);
        proof {
            assert forall|h: Seq<char>| #[trigger]
                count_at(self.hashes@, text::utf8(h)) + (if h == hash@ {
                    1nat
                } else {
                    0
                }) == count_at(old(self).hashes@, text::utf8(h)) by {
                if text::utf8(h) == text::utf8(hash@) {
                    text::lemma_utf8_injective(h, hash@);
                }
            }
            assert forall|h: Seq<char>| #[trigger]
                count_at(self.per_sender@, text::utf8(h)) + (if h == sender@ {
                    1nat
                } else {
                    0
                }) == count_at(old(self).per_sender@, text::utf8(h)) by {
                if text::utf8(h) == text::utf8(sender@) {
                    text::lemma_utf8_injective(h, sender@);
                }
            }
        }
    }

    /// Where each sender's highest nonce is.
    fn tails(&self) -> (r: Table<usize>)
        requires
            self.wf(),
        ensures
            r.wf(),
            forall|k: Seq<u8>| #[trigger]
                r@.dom().contains(k) ==> is_tail(self@, r@[k] as int) && text::utf8(
                    self@[r@[k] as int].sender,
                ) == k,
            forall|i: int|
                0 <= i < self@.len() ==> r@.dom().contains(
                    text::utf8((#[trigger] self@[i]).sender),
                ),
    {
        let ghost s = self@;
        let mut t: Table<usize> = Table::new();
        let mut i: usize = 0;
        while i < self.entries.len()
            invariant
                i <= self.entries@.len(),
                self.wf(),
                s == rank::views(self.entries@),
                s == self@,
                t.wf(),
                forall|k: Seq<u8>| #[trigger]
                    t@.dom().contains(k) ==> is_tail(s.take(i as int), t@[k] as int) && text::utf8(
                        s[t@[k] as int].sender,
                    ) == k,
                forall|j: int|
                    0 <= j < i ==> t@.dom().contains(text::utf8((#[trigger] s[j]).sender)),
            decreases self.entries@.len() - i,
        {
            let ghost before = t@;
            let ghost pre = s.take(i as int);
            let ghost now = s.take(i + 1);
            let ghost e = s[i as int];
            assert(e == self.entries@[i as int]@);
            let higher = match t.get(self.entries[i].sender.as_str().as_bytes()) {
                Some(j) => {
                    proof {
                        assert(before.dom().contains(text::utf8(e.sender)));
                        assert(s[*j as int] == self.entries@[*j as int]@);
                    }
                    self.entries[i].tx.nonce >= self.entries[*j].tx.nonce
                },
                None => true,
            };
            if higher {
                t.insert(text::bytes_of(self.entries[i].sender.as_str()), i);
            }
            proof {
                let ke = text::utf8(e.sender);
                assert forall|k: Seq<u8>| #[trigger] t@.dom().contains(k) implies is_tail(
                    now,
                    t@[k] as int,
                ) && text::utf8(s[t@[k] as int].sender) == k by {
                    let x = t@[k] as int;
                    if k == ke && higher {
                        assert(x == i);
                        assert forall|j: int|
                            0 <= j < now.len() && (#[trigger] now[j]).sender == now[x].sender implies now[j].tx.nonce
                            < now[x].tx.nonce || now[j].tx.nonce == now[x].tx.nonce && j <= x by {
                            if j < i {
                                assert(s[j].sender == e.sender);
                                assert(before.dom().contains(ke));
                                let y = before[ke] as int;
                                text::lemma_utf8_injective(s[y].sender, e.sender);
                                assert(is_tail(pre, y));
                                assert(pre[j] == now[j]);
                                assert(pre[j].sender == pre[y].sender);
                            }
                        }
                    } else {
                        assert(before.dom().contains(k) && before[k] == t@[k]);
                        assert(is_tail(pre, x));
                        assert forall|j: int|
                            0 <= j < now.len() && (#[trigger] now[j]).sender == now[x].sender implies now[j].tx.nonce
                            < now[x].tx.nonce || now[j].tx.nonce == now[x].tx.nonce && j <= x by {
                            if j < i {
                                assert(pre[j] == now[j]);
                                assert(pre[j].sender == pre[x].sender);
                            } else {
                                assert(now[j] == e);
                                assert(k == ke);
                            }
                        }
                    }
                }
                assert forall|j: int| 0 <= j < i + 1 implies t@.dom().contains(
                    text::utf8((#[trigger] s[j]).sender),
                ) by {
                    if j < i {
                        assert(before.dom().contains(text::utf8(s[j].sender)));
                    }
                }
            }
            i = i + 1;
        }
        assert(s.take(s.len() as int) =~= s);
        t
    }

    /// The entry that makes way first.
    fn victim(&self) -> (r: usize)
        requires
            self.wf(),
            self@.len() > 0,
        ensures
            r < self@.len(),
            is_victim(self@, r as int),
            r == victim_of(self@),
    {
        let t = self.tails();
        let ghost s = self@;
        let mut best: usize = 0;
        let mut found = false;
        let mut i: usize = 0;
        while i < self.entries.len()
            invariant
                i <= self.entries@.len(),
                self.wf(),
                s == self@,
                s == rank::views(self.entries@),
                t.wf(),
                forall|k: Seq<u8>| #[trigger]
                    t@.dom().contains(k) ==> is_tail(s, t@[k] as int) && text::utf8(
                        s[t@[k] as int].sender,
                    ) == k,
                forall|j: int|
                    0 <= j < s.len() ==> t@.dom().contains(text::utf8((#[trigger] s[j]).sender)),
                found ==> is_tail(s, best as int),
                found ==> (forall|j: int|
                    0 <= j < i && #[trigger] is_tail(s, j) ==> yields(s[best as int], s[j])),
                !found ==> (forall|j: int| 0 <= j < i ==> !#[trigger] is_tail(s, j)),
            decreases self.entries@.len() - i,
        {
            let ghost k = text::utf8(s[i as int].sender);
            assert(s[i as int] == self.entries@[i as int]@);
            let is_last = match t.get(self.entries[i].sender.as_str().as_bytes()) {
                Some(j) => *j == i,
                None => false,
            };
            proof {
                assert(t@.dom().contains(k));
                let y = t@[k] as int;
                text::lemma_utf8_injective(s[y].sender, s[i as int].sender);
                if is_tail(s, i as int) {
                    assert(s[y].sender == s[i as int].sender);
                    assert(s[i as int].sender == s[y].sender);
                    assert(y == i);
                }
            }
            if is_last {
                if !found {
                    best = i;
                    found = true;
                } else {
                    assert(s[best as int] == self.entries@[best as int]@);
                    let x_fee = self.entries[best].tx.fee;
                    let y_fee = self.entries[i].tx.fee;
                    if !(x_fee < y_fee || (x_fee == y_fee && self.entries[best].seq
                        >= self.entries[i].seq)) {
                        proof {
                            assert forall|j: int|
                                0 <= j < i + 1 && #[trigger] is_tail(s, j) implies yields(
                                s[i as int],
                                s[j],
                            ) by {
                                if j < i {
                                    assert(yields(s[best as int], s[j]));
                                }
                            }
                        }
                        best = i;
                    }
                }
            }
            i = i + 1;
        }
        proof {
            let w = lemma_victim_exists(s);
            assert(is_tail(s, w));
            assert(found);
            assert(is_victim(s, best as int)) by {
                assert forall|j: int| #[trigger] is_tail(s, j) implies yields(
                    s[best as int],
                    s[j],
                ) by {}
            }
            lemma_victim_unique(s, self.next_seq, best as int, victim_of(s));
        }
        best
    }

    /// Priority lane: the cheapest queued transaction makes way for one that pays more.
    /// Only a sender's highest queued nonce is ever a candidate. Returns the fee that
    /// left.
    pub fn evict_cheapest_below(&mut self, incoming_fee: u128) -> (r: Option<u128>)
        requires
            old(self).wf(),
        ensures
            final(self).wf(),
            final(self).bound() == old(self).bound(),
            (r, final(self)@) == evicted(old(self)@, incoming_fee as nat),
    {
        if self.entries.len() == 0 {
            return None;
        }
        let i = self.victim();
        let ghost s = self@;
        assert(s[i as int] == self.entries@[i as int]@);
        if self.entries[i].tx.fee >= incoming_fee {
            return None;
        }
        let ghost bound = self.next_seq;
        let e = self.entries.swap_remove(i);
        assert(rank::views(self.entries@) =~= swapped_out(s, i as int));
        proof {
            let t = swapped_out(s, i as int);
            assert forall|h: Seq<char>| with_hash(t, h) + (if e@.hash == h {
                1nat
            } else {
                0
            }) == #[trigger] with_hash(s, h) by {
                lemma_counts_remove(s, i as int, h);
            }
            assert forall|h: Seq<char>| of_sender(t, h) + (if e@.sender == h {
                1nat
            } else {
                0
            }) == #[trigger] of_sender(s, h) by {
                lemma_counts_remove(s, i as int, h);
            }
            assert(count_at(self.hashes@, text::utf8(e@.hash)) == with_hash(s, e@.hash));
            assert(count_at(self.per_sender@, text::utf8(e@.sender)) == of_sender(s, e@.sender));
            assert(numbered(t, bound)) by {
                assert forall|a: int| 0 <= a < t.len() implies (#[trigger] t[a]).seq < bound by {
                    if a == i {
                        assert(t[a] == s[s.len() - 1]);
                    } else {
                        assert(t[a] == s[a]);
                    }
                }
                assert forall|a: int, b: int| 0 <= a < b < t.len() implies (#[trigger] t[a]).seq
                    != (#[trigger] t[b]).seq by {
                    let x = if a == i {
                        s.len() - 1
                    } else {
                        a
                    };
                    let y = if b == i {
                        s.len() - 1
                    } else {
                        b
                    };
                    assert(t[a] == s[x] && t[b] == s[y]);
                    if x < y {
                        assert(s[x].seq != s[y].seq);
                    } else {
                        assert(s[y].seq != s[x].seq);
                    }
                }
            }
        }
        let hash = e.hash.clone();
        let sender = e.sender.clone();
        let ghost mid = *self;
        self.unindex(hash.as_str(), sender.as_str());
        proof {
            assert forall|h: Seq<char>| #[trigger]
                count_at(self.hashes@, text::utf8(h)) == with_hash(self@, h) by {
                assert(count_at(mid.hashes@, text::utf8(h)) == with_hash(s, h));
            }
            assert forall|h: Seq<char>| #[trigger]
                count_at(self.per_sender@, text::utf8(h)) == of_sender(self@, h) by {
                assert(count_at(mid.per_sender@, text::utf8(h)) == of_sender(s, h));
            }
        }
        Some(e.tx.fee)
    }

    /// Puts a position into a lane at its rank.
    fn place_at(&self, lane: &mut Vec<usize>, x: usize)
        requires
            x < self@.len(),
            within(self@, old(lane)@),
        ensures
            within(self@, final(lane)@),
            entries_at(self@, final(lane)@) == rank::placed::<Box<PoolTx>>(
                entries_at(self@, old(lane)@),
                self@[x as int],
            ),
    {
        let ghost s = entries_at(self@, lane@);
        let ghost xv = self@[x as int];
        let mut at: usize = lane.len();
        proof {
            assert(s.take(at as int) =~= s);
            assert(rank::placed::<Box<PoolTx>>(s, xv) =~= rank::placed::<Box<PoolTx>>(
                s.take(at as int),
                xv,
            ) + s.skip(at as int));
            assert(xv == self.entries@[x as int]@);
        }
        while at > 0 && self.entries[x].is_ahead(&self.entries[lane[at - 1]])
            invariant
                at <= lane@.len(),
                x < self@.len(),
                self@.len() == self.entries@.len(),
                xv == self.entries@[x as int]@,
                within(self@, lane@),
                s == entries_at(self@, lane@),
                lane@ == old(lane)@,
                rank::placed::<Box<PoolTx>>(s, xv) == rank::placed::<Box<PoolTx>>(
                    s.take(at as int),
                    xv,
                ) + s.skip(at as int),
            decreases at,
        {
            proof {
                assert(s[at - 1] == self.entries@[lane@[at - 1] as int]@);
                rank::lemma_split_step::<Box<PoolTx>>(s, xv, at as int);
            }
            at = at - 1;
        }
        proof {
            if at > 0 {
                assert(s.take(at as int).last() == s[at - 1]);
                assert(s[at - 1] == self.entries@[lane@[at - 1] as int]@);
            }
        }
        let ghost was = lane@;
        lane.insert(at, x);
        proof {
            assert(entries_at(self@, lane@) =~= s.take(at as int).push(xv) + s.skip(at as int));
            assert forall|k: int| 0 <= k < lane@.len() implies (#[trigger] lane@[k])
                < self@.len() by {
                if k < at {
                    assert(lane@[k] == was[k]);
                } else if k > at {
                    assert(lane@[k] == was[k - 1]);
                }
            }
        }
    }

    /// The positions of all entries, in the order they fill a block, the last first.
    fn ranking(&self) -> (r: Vec<usize>)
        ensures
            within(self@, r@),
            entries_at(self@, r@) == rank::ranked::<Box<PoolTx>>(self@.reverse()),
    {
        let ghost s = self@;
        let mut out: Vec<usize> = Vec::new();
        let mut i: usize = self.entries.len();
        assert(entries_at(s, out@) =~= rank::ranked::<Box<PoolTx>>(s.reverse().take(0)));
        while i > 0
            invariant
                s == self@,
                i <= s.len(),
                within(s, out@),
                entries_at(s, out@) == rank::ranked::<Box<PoolTx>>(
                    s.reverse().take(s.len() - i),
                ),
            decreases i,
        {
            proof {
                let r = s.reverse();
                let k = s.len() - i;
                assert(r.take(k + 1).drop_last() =~= r.take(k));
                assert(r.take(k + 1).last() == s[i - 1]);
            }
            i = i - 1;
            self.place_at(&mut out, i);
        }
        assert(s.reverse().take(s.len() as int) =~= s.reverse());
        out
    }

    /// A pool over entries, its indexes counted afresh.
    fn reindexed(entries: Vec<Box<PoolTx>>, next_seq: u64) -> (r: Mempool)
        requires
            numbered(rank::views(entries@), next_seq),
        ensures
            r.wf(),
            r@ == rank::views(entries@),
            r.bound() == next_seq,
    {
        let mut hashes: Table<u64> = Table::new();
        let mut per_sender: Table<u64> = Table::new();
        let ghost s = rank::views(entries@);
        let mut i: usize = 0;
        proof {
            assert(s.take(0) =~= Seq::<PoolV>::empty());
            lemma_numbered_len(s, next_seq);
        }
        while i < entries.len()
            invariant
                i <= entries@.len(),
                s == rank::views(entries@),
                s.len() <= u64::MAX,
                hashes.wf(),
                per_sender.wf(),
                forall|h: Seq<char>| #[trigger]
                    count_at(hashes@, text::utf8(h)) == with_hash(s.take(i as int), h),
                forall|h: Seq<char>| #[trigger]
                    count_at(per_sender@, text::utf8(h)) == of_sender(s.take(i as int), h),
            decreases entries@.len() - i,
        {
            let ghost pre = s.take(i as int);
            let ghost e = s[i as int];
            let ghost h0 = hashes@;
            let ghost p0 = per_sender@;
            proof {
                assert(e == entries@[i as int]@);
                assert(s.take(i + 1) =~= pre.push(e));
                lemma_counts_bound(pre, e.hash);
                lemma_counts_bound(pre, e.sender);
                assert(count_at(h0, text::utf8(e.hash)) == with_hash(pre, e.hash));
                assert(count_at(p0, text::utf8(e.sender)) == of_sender(pre, e.sender));
            }
            raise(&mut hashes, entries[i].hash.as_str());
            raise(&mut per_sender, entries[i].sender.as_str());
            proof {
                assert forall|h: Seq<char>| #[trigger]
                    count_at(hashes@, text::utf8(h)) == with_hash(s.take(i + 1), h) by {
                    lemma_counts_push(pre, e, h);
                    assert(count_at(h0, text::utf8(h)) == with_hash(pre, h));
                    if text::utf8(h) == text::utf8(e.hash) {
                        text::lemma_utf8_injective(h, e.hash);
                    }
                }
                assert forall|h: Seq<char>| #[trigger]
                    count_at(per_sender@, text::utf8(h)) == of_sender(s.take(i + 1), h) by {
                    lemma_counts_push(pre, e, h);
                    assert(count_at(p0, text::utf8(h)) == of_sender(pre, h));
                    if text::utf8(h) == text::utf8(e.sender) {
                        text::lemma_utf8_injective(h, e.sender);
                    }
                }
            }
            i = i + 1;
        }
        assert(s.take(s.len() as int) =~= s);
        Mempool { entries, hashes, per_sender, next_seq }
    }

    /// The positions of the entries a block takes, in order.
    fn chosen(&self, max: usize) -> (r: Vec<usize>)
        ensures
            within(self@, r@),
            entries_at(self@, r@) == chosen_of(self@, max as nat),
    {
        let mut out: Vec<usize> = Vec::new();
        let ghost s = self@;
        if self.entries.len() == 0 || max == 0 {
            assert(entries_at(s, out@) =~= Seq::<PoolV>::empty());
            return out;
        }
        let mut next = self.lowest_nonces();
        let mut lane = self.ranking();
        let ghost goal = filled(entries_at(s, lane@), next@, max as nat).0;
        let mut room: usize = max;
        let mut going = true;
        assert(goal =~= entries_at(s, out@) + goal);
        while going
            invariant
                s == self@,
                next.wf(),
                within(s, lane@),
                within(s, out@),
                going ==> room > 0,
                going ==> goal == entries_at(s, out@) + filled(
                    entries_at(s, lane@),
                    next@,
                    room as nat,
                ).0,
                !going ==> goal == entries_at(s, out@),
            decreases
                    (if going {
                        room + 1
                    } else {
                        0
                    }),
        {
            let ghost done0 = entries_at(s, out@);
            let ghost want = passed(fresh(next@), entries_at(s, lane@), room as nat);
            let (count, left) = self.pass(lane, &mut next, room, &mut out);
            let ghost l = left@;
            lane = flip(left);
            proof {
                assert(entries_at(s, lane@) =~= entries_at(s, l).reverse());
                assert forall|k: int| 0 <= k < lane@.len() implies (#[trigger] lane@[k])
                    < s.len() by {
                    assert(lane@[k] == l[l.len() - 1 - k]);
                }
            }
            if count == 0 || count >= room {
                going = false;
            } else {
                proof {
                    let more = filled(want.left.reverse(), want.next, (room - count) as nat).0;
                    assert(done0 + (want.chosen + more) =~= entries_at(s, out@) + more);
                }
                room = room - count;
            }
        }
        out
    }

    /// One pass over a lane: appends the positions it chooses, returns how many and what
    /// it left.
    fn pass(
        &self,
        lane: Vec<usize>,
        next: &mut Table<u128>,
        room: usize,
        out: &mut Vec<usize>,
    ) -> (r: (usize, Vec<usize>))
        requires
            old(next).wf(),
            within(self@, lane@),
            within(self@, old(out)@),
        ensures
            final(next).wf(),
            within(self@, r.1@),
            within(self@, final(out)@),
            ({
                let w = passed(fresh(old(next)@), entries_at(self@, lane@), room as nat);
                &&& r.0 == w.chosen.len()
                &&& entries_at(self@, r.1@) == w.left
                &&& final(next)@ == w.next
                &&& entries_at(self@, final(out)@) == entries_at(self@, old(out)@) + w.chosen
            }),
    {
        let ghost s = self@;
        let ghost lane0 = entries_at(s, lane@);
        let ghost out0 = entries_at(s, out@);
        let ghost want = passed(fresh(next@), lane0, room as nat);
        let mut left: Vec<usize> = Vec::new();
        let mut count: usize = 0;
        let ghost mut sofar = fresh(next@);
        let mut at: usize = lane.len();
        proof {
            assert(lane0.take(lane0.len() as int) =~= lane0);
            assert(entries_at(s, left@) =~= sofar.left);
            assert(out0 =~= out0 + sofar.chosen);
        }
        while at > 0
            invariant
                s == self@,
                next.wf(),
                at <= lane@.len(),
                lane0 == entries_at(s, lane@),
                within(s, lane@),
                within(s, left@),
                within(s, out@),
                want == passed(sofar, lane0.take(at as int), room as nat),
                sofar.chosen.len() == count,
                sofar.next == next@,
                entries_at(s, left@) == sofar.left,
                count <= room,
                entries_at(s, out@) == out0 + sofar.chosen,
            decreases at,
        {
            let i = lane[at - 1];
            let ghost ev = s[i as int];
            let ghost before = sofar;
            proof {
                assert(ev == self.entries@[i as int]@);
                assert(lane0.take(at as int).drop_last() =~= lane0.take(at - 1));
                assert(lane0.take(at as int).last() == ev);
                sofar = step(before, ev, room as nat);
            }
            at = at - 1;
            let e = &self.entries[i];
            let eligible = count < room && match next.get(e.sender.as_str().as_bytes()) {
                Some(k) => *k == e.tx.nonce as u128,
                None => false,
            };
            if eligible {
                next.insert(text::bytes_of(e.sender.as_str()), e.tx.nonce as u128 + 1);
                let ghost was = entries_at(s, out@);
                out.push(i);
                count = count + 1;
                proof {
                    assert(entries_at(s, out@) =~= was.push(ev));
                    assert(entries_at(s, out@) =~= out0 + sofar.chosen);
                }
            } else {
                let ghost was = entries_at(s, left@);
                left.push(i);
                assert(entries_at(s, left@) =~= was.push(ev));
            }
        }
        assert(lane0.take(0) =~= Seq::<PoolV>::empty());
        (count, left)
    }

    /// Takes up to `max` transactions for the next block: highest fee first, then
    /// oldest first, but never a sender's later nonce before its earlier one. What stays
    /// queued keeps its order.
    pub fn take_batch(&mut self, max: usize) -> (r: Vec<Transaction>)
        requires
            old(self).wf(),
        ensures
            final(self).wf(),
            final(self).bound() == old(self).bound(),
            types::txs_view(r@) == txs_of(batch_of(old(self)@, max as nat).0),
            final(self)@ == batch_of(old(self)@, max as nat).1,
    {
        let ghost s = self@;
        let bound = self.next_seq;
        let chosen = self.chosen(max);
        let n = self.entries.len();
        let ghost c = chosen_of(s, max as nat);
        let mut gone: Vec<bool> = Vec::new();
        while gone.len() < n
            invariant
                gone@.len() <= n,
                forall|i: int| 0 <= i < gone@.len() ==> !(#[trigger] gone@[i]),
            decreases n - gone@.len(),
        {
            gone.push(false);
        }
        let mut out: Vec<Transaction> = Vec::new();
        let mut k: usize = 0;
        assert(types::txs_view(out@) =~= txs_of(c.take(0)));
        while k < chosen.len()
            invariant
                k <= chosen@.len(),
                s == self@,
                gone@.len() == s.len(),
                s.len() == n,
                self.entries@.len() == s.len(),
                within(s, chosen@),
                c == entries_at(s, chosen@),
                types::txs_view(out@) == txs_of(c.take(k as int)),
                forall|i: int|
                    0 <= i < s.len() ==> (#[trigger] gone@[i] <==> chosen@.take(
                        k as int,
                    ).contains(i as usize)),
            decreases chosen@.len() - k,
        {
            let i = chosen[k];
            let ghost g0 = gone@;
            let ghost was = types::txs_view(out@);
            gone.set(i, true);
            out.push(self.entries[i].tx.clone());
            proof {
                assert(s[i as int] == self.entries@[i as int]@);
                assert(c.take(k + 1) =~= c.take(k as int).push(s[i as int]));
                assert(types::txs_view(out@) =~= was.push(s[i as int].tx));
                assert(txs_of(c.take(k + 1)) =~= txs_of(c.take(k as int)).push(s[i as int].tx));
                let t = chosen@.take(k as int);
                let u = chosen@.take(k + 1);
                assert(u =~= t.push(i));
                assert forall|j: int| 0 <= j < s.len() implies (#[trigger] gone@[j]
                    <==> u.contains(j as usize)) by {
                    if j == i {
                        assert(u[k as int] == j as usize);
                    } else {
                        assert(gone@[j] == g0[j]);
                        if t.contains(j as usize) {
                            let x = choose|x: int| 0 <= x < t.len() && t[x] == j as usize;
                            assert(u[x] == j as usize);
                        }
                        if u.contains(j as usize) {
                            let x = choose|x: int| 0 <= x < u.len() && u[x] == j as usize;
                            assert(x < k);
                            assert(t[x] == j as usize);
                        }
                    }
                }
            }
            k = k + 1;
        }
        proof {
            assert(chosen@.take(chosen@.len() as int) =~= chosen@);
            assert(c.take(c.len() as int) =~= c);
            assert forall|i: int| 0 <= i < s.len() implies (#[trigger] gone@[i] <==> c.contains(
                s[i],
            )) by {
                if gone@[i] {
                    let x = choose|x: int| 0 <= x < chosen@.len() && chosen@[x] == i as usize;
                    assert(c[x] == s[i]);
                }
                if c.contains(s[i]) {
                    let x = choose|x: int| 0 <= x < c.len() && c[x] == s[i];
                    let j = chosen@[x] as int;
                    assert(s[j] == s[i]);
                    if i < j {
                        assert(s[i].seq != s[j].seq);
                    } else if j < i {
                        assert(s[j].seq != s[i].seq);
                    }
                    assert(chosen@[x] == i as usize);
                }
            }
        }
        let mut rest: Vec<Box<PoolTx>> = Vec::new();
        std::mem::swap(&mut rest, &mut self.entries);
        let mut rest = flip(rest);
        let mut kept: Vec<Box<PoolTx>> = Vec::new();
        let mut i: usize = 0;
        proof {
            assert(rank::views(rest@) =~= s.reverse());
            assert(s.skip(0) =~= s);
            assert(rank::views(kept@) =~= without(s.take(0), c));
        }
        while i < gone.len()
            invariant
                i <= gone@.len(),
                gone@.len() == s.len(),
                rank::views(rest@) == s.skip(i as int).reverse(),
                rank::views(kept@) == without(s.take(i as int), c),
                forall|j: int| 0 <= j < s.len() ==> (#[trigger] gone@[j] <==> c.contains(s[j])),
            decreases gone@.len() - i,
        {
            let ghost r0 = rank::views(rest@);
            assert(r0.last() == s[i as int]);
            if let Some(e) = rest.pop() {
                let ghost ev = e@;
                proof {
                    assert(ev == s[i as int]);
                    assert(rank::views(rest@) =~= r0.drop_last());
                    assert(s.skip(i + 1).reverse() =~= s.skip(i as int).reverse().drop_last());
                    assert(s.take(i + 1).drop_last() =~= s.take(i as int));
                }
                if !gone[i] {
                    let ghost was = rank::views(kept@);
                    kept.push(e);
                    assert(rank::views(kept@) =~= was.push(ev));
                }
            }
            i = i + 1;
        }
        proof {
            assert(s.take(s.len() as int) =~= s);
            lemma_without_fewer(s, c, bound);
        }
        *self = Self::reindexed(kept, bound);
        out
    }

    /// Drops transactions confirmed in a block.
    pub fn remove_hashes(&mut self, hashes: &Vec<String>)
        requires
            old(self).wf(),
        ensures
            final(self).wf(),
            final(self).bound() == old(self).bound(),
            final(self)@ == unconfirmed(old(self)@, types::texts(hashes@)),
    {
        let ghost list = types::texts(hashes@);
        let mut gone: Table<u64> = Table::new();
        let mut i: usize = 0;
        while i < hashes.len()
            invariant
                i <= hashes@.len(),
                list == types::texts(hashes@),
                gone.wf(),
                forall|h: Seq<char>| #[trigger]
                    gone@.contains_key(text::utf8(h)) <==> list.take(i as int).contains(h),
            decreases hashes@.len() - i,
        {
            let ghost g0 = gone@;
            gone.insert(text::bytes_of(hashes[i].as_str()), 1);
            proof {
                let x = list[i as int];
                assert(x == hashes@[i as int]@);
                assert forall|h: Seq<char>| #[trigger]
                    gone@.contains_key(text::utf8(h)) <==> list.take(i + 1).contains(h) by {
                    assert(g0.contains_key(text::utf8(h)) <==> list.take(i as int).contains(h));
                    let t = list.take(i as int);
                    let u = list.take(i + 1);
                    if text::utf8(h) == text::utf8(x) {
                        text::lemma_utf8_injective(h, x);
                        assert(u[i as int] == h);
                    }
                    if t.contains(h) {
                        let j = choose|j: int| 0 <= j < t.len() && t[j] == h;
                        assert(u[j] == h);
                    }
                    if u.contains(h) {
                        let j = choose|j: int| 0 <= j < u.len() && u[j] == h;
                        if j < i {
                            assert(t[j] == h);
                        }
                    }
                }
            }
            i = i + 1;
        }
        assert(list.take(list.len() as int) =~= list);
        let ghost s = self@;
        let bound = self.next_seq;
        let mut kept: Vec<Box<PoolTx>> = Vec::new();
        let mut rest: Vec<Box<PoolTx>> = Vec::new();
        std::mem::swap(&mut rest, &mut self.entries);
        let mut rest = flip(rest);
        proof {
            assert(rank::views(rest@) =~= s.reverse());
            assert(s.skip(0) =~= s);
            assert(rank::views(kept@) =~= unconfirmed(s.take(0), list));
        }
        while rest.len() > 0
            invariant
                rest@.len() <= s.len(),
                rank::views(rest@) == s.skip(s.len() - rest@.len()).reverse(),
                rank::views(kept@) == unconfirmed(s.take(s.len() - rest@.len()), list),
                gone.wf(),
                forall|h: Seq<char>| #[trigger]
                    gone@.contains_key(text::utf8(h)) <==> list.contains(h),
            decreases rest@.len(),
        {
            let ghost k = s.len() - rest@.len();
            let ghost r0 = rank::views(rest@);
            match rest.pop() {
                Some(e) => {
                    let ghost ev = e@;
                    proof {
                        assert(r0.last() == ev);
                        assert(ev == s[k]);
                        assert(rank::views(rest@) =~= r0.drop_last());
                        assert(s.skip(k + 1).reverse() =~= s.skip(k).reverse().drop_last());
                        assert(s.take(k + 1).drop_last() =~= s.take(k));
                        assert(gone@.contains_key(text::utf8(ev.hash)) <==> list.contains(
                            ev.hash,
                        ));
                    }
                    if !gone.has(e.hash.as_str().as_bytes()) {
                        let ghost was = rank::views(kept@);
                        kept.push(e);
                        assert(rank::views(kept@) =~= was.push(ev));
                    }
                },
                None => {},
            }
        }
        proof {
            assert(s.take(s.len() as int) =~= s);
            assert forall|p: spec_fn(PoolV) -> bool| #[trigger]
                tally(unconfirmed(s, list), p) <= tally(s, p) by {
                lemma_tally_unconfirmed(s, list, p);
            }
            lemma_numbered_fewer(s, unconfirmed(s, list), bound);
        }
        *self = Self::reindexed(kept, bound);
    }

    /// Forgets everything queued.
    pub fn clear(&mut self)
        requires
            old(self).wf(),
        ensures
            final(self).wf(),
            final(self).bound() == old(self).bound(),
            final(self)@ == Seq::<PoolV>::empty(),
    {
        let bound = self.next_seq;
        let none: Vec<Box<PoolTx>> = Vec::new();
        assert(rank::views(none@) =~= Seq::<PoolV>::empty());
        *self = Self::reindexed(none, bound);
    }

    /// Fees of everything queued, in the order of the pool.
    pub fn fees(&self) -> (r: Vec<u128>)
        ensures
            r@ == self@.map_values(|e: PoolV| e.tx.fee),
    {
        let mut out: Vec<u128> = Vec::new();
        let mut i: usize = 0;
        while i < self.entries.len()
            invariant
                i <= self.entries@.len(),
                out@ =~= self@.take(i as int).map_values(|e: PoolV| e.tx.fee),
            decreases self.entries@.len() - i,
        {
            assert(self@[i as int] == self.entries@[i as int]@);
            out.push(self.entries[i].tx.fee);
            i = i + 1;
        }
        assert(self@.take(self@.len() as int) =~= self@);
        out
    }

    /// Lowest fee queued, for fee estimation.
    pub fn min_fee(&self) -> (r: Option<u128>)
        ensures
            r is None <==> self@.len() == 0,
            r is Some ==> (forall|i: int|
                0 <= i < self@.len() ==> r->Some_0 <= (#[trigger] self@[i]).tx.fee),
            r is Some ==> (exists|i: int|
                0 <= i < self@.len() && r->Some_0 == (#[trigger] self@[i]).tx.fee),
    {
        if self.entries.len() == 0 {
            return None;
        }
        assert(self@[0] == self.entries@[0]@);
        let mut low: u128 = self.entries[0].tx.fee;
        let mut i: usize = 1;
        while i < self.entries.len()
            invariant
                1 <= i <= self.entries@.len(),
                forall|j: int| 0 <= j < i ==> low <= (#[trigger] self@[j]).tx.fee,
                exists|j: int| 0 <= j < i && low == (#[trigger] self@[j]).tx.fee,
            decreases self.entries@.len() - i,
        {
            assert(self@[i as int] == self.entries@[i as int]@);
            let fee: u128 = self.entries[i].tx.fee;
            if fee < low {
                low = fee;
                assert(low == self@[i as int].tx.fee);
            }
            i = i + 1;
        }
        Some(low)
    }
}

proof fn lemma_tally_unconfirmed(s: Seq<PoolV>, hashes: Seq<Seq<char>>, p: spec_fn(PoolV) -> bool)
    ensures
        tally(unconfirmed(s, hashes), p) <= tally(s, p),
    decreases s.len(),
{
    if s.len() > 0 {
        lemma_tally_unconfirmed(s.drop_last(), hashes, p);
        lemma_tally_push(unconfirmed(s.drop_last(), hashes), s.last(), p);
    }
}

} // verus!
