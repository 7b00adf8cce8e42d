//! Finality: stake-weighted precommit votes with a two-thirds threshold.
//!
//! Every validator signs a precommit over a height and a hash. Once precommits worth
//! more than two thirds of the staked INAZ agree, that height is final and can never
//! be reorganised by this node.

use crate::crypto;
use crate::journal::Db;
use crate::rank;
use crate::slashing;
use crate::slashing::Evidence;
use crate::slashing::EvidenceV;
use crate::staking;
use crate::staking::Validator;
use crate::staking::ValidatorV;
use crate::state;
use crate::state::Store;
use crate::table;
use crate::table::Table;
use crate::text;
use crate::types;
use vstd::prelude::*;
use vstd::string::*;

verus! {

/// A precommit.
#[derive(Debug)]
pub struct Vote {
    pub height: u64,
    pub hash: String,
    /// Voting validator's public key, hexadecimal; its address derives from it.
    pub voter_pubkey: String,
    pub signature: String,
}

/// Model of a precommit.
#[verifier::ext_equal]
pub struct VoteV {
    pub height: u64,
    pub hash: Seq<char>,
    pub voter_pubkey: Seq<char>,
    pub signature: Seq<char>,
}

impl View for Vote {
    type V = VoteV;

    open spec fn view(&self) -> VoteV {
        VoteV {
            height: self.height,
            hash: self.hash@,
            voter_pubkey: self.voter_pubkey@,
            signature: self.signature@,
        }
    }
}

impl Clone for Vote {
    fn clone(&self) -> (r: Vote)
        ensures
            r@ == self@,
    {
        Vote {
            height: self.height,
            hash: self.hash.clone(),
            voter_pubkey: self.voter_pubkey.clone(),
            signature: self.signature.clone(),
        }
    }
}

/// What a precommit over a height and a hash signs.
pub open spec fn vote_text(height: nat, hash: Seq<char>) -> Seq<char> {
    "inazuma-vote|"@ + text::dec(types::CHAIN_ID as nat) + "|"@ + text::dec(height) + "|"@ + hash
}

/// What a precommit over a height and a hash signs.
pub fn vote_bytes(height: u64, hash: &str) -> (r: Vec<u8>)
    ensures
        r@ == text::utf8(vote_text(height as nat, hash@)),
{
    let mut s = text::copy("inazuma-vote|");
    text::push_dec(&mut s, types::CHAIN_ID as u128);
    s.append("|");
    text::push_dec(&mut s, height as u128);
    s.append("|");
    s.append(hash);
    text::bytes_of(s.as_str())
}

impl VoteV {
    /// The voter's address.
    pub open spec fn voter(self) -> Option<Seq<char>> {
        crypto::address_of_hex(self.voter_pubkey)
    }

    /// The voter signed exactly this precommit. A `|` inside a signed field could move
    /// the field boundaries, so it is refused.
    pub open spec fn signed(self) -> bool {
        &&& types::bar_free(self.hash)
        &&& types::bar_free(self.voter_pubkey)
        &&& crypto::signature_ok(
            self.voter_pubkey,
            text::utf8(vote_text(self.height as nat, self.hash)),
            self.signature,
        )
    }
}

impl Vote {
    /// What the precommit signs.
    pub fn signing_bytes(&self) -> (r: Vec<u8>)
        ensures
            r@ == text::utf8(vote_text(self.height as nat, self.hash@)),
    {
        vote_bytes(self.height, self.hash.as_str())
    }

    /// The voter's address.
    pub fn voter(&self) -> (r: Option<String>)
        ensures
            match r {
                Some(a) => self@.voter() == Some(a@),
                None => self@.voter() is None,
            },
    {
        crypto::address_from_hex(self.voter_pubkey.as_str())
    }

    /// Whether the voter signed exactly this precommit.
    pub fn verify_signature(&self) -> (r: bool)
        ensures
            r == self@.signed(),
    {
        if !types::delimiter_free(self.hash.as_str()) || !types::delimiter_free(
            self.voter_pubkey.as_str(),
        ) {
            return false;
        }
        let msg = self.signing_bytes();
        crypto::verify(self.voter_pubkey.as_str(), msg.as_slice(), self.signature.as_str())
    }
}

/// Precommits over different heights or hashes sign different bytes, so a signature
/// over one never covers another.
pub proof fn law_votes_are_domain_separated(h: nat, a: Seq<char>, g: nat, b: Seq<char>)
    requires
        types::bar_free(a),
        types::bar_free(b),
        text::utf8(vote_text(h, a)) == text::utf8(vote_text(g, b)),
    ensures
        h == g,
        a == b,
{
    text::lemma_utf8_injective(vote_text(h, a), vote_text(g, b));
    let p = "inazuma-vote|"@ + text::dec(types::CHAIN_ID as nat) + "|"@;
    reveal_strlit("|");
    let x = text::dec(h) + "|"@ + a;
    let y = text::dec(g) + "|"@ + b;
    assert(vote_text(h, a) =~= p + x);
    assert(vote_text(g, b) =~= p + y);
    assert((p + x).skip(p.len() as int) =~= x);
    assert((p + y).skip(p.len() as int) =~= y);
    crate::signing::lemma_dec_bar_free(h);
    crate::signing::lemma_dec_bar_free(g);
    let m = text::dec(h).len() as int;
    let n = text::dec(g).len() as int;
    assert(x[m] == '|');
    assert(y[n] == '|');
    if m < n {
        assert(y[m] == text::dec(g)[m]);
        assert(text::dec(g).contains('|'));
    }
    if n < m {
        assert(x[n] == text::dec(h)[n]);
        assert(text::dec(h).contains('|'));
    }
    assert(x.take(m) =~= text::dec(h));
    assert(y.take(n) =~= text::dec(g));
    text::lemma_dec_injective(h, g);
    assert(x.skip(m + 1) =~= a);
    assert(y.skip(n + 1) =~= b);
}

// ---------------------------------------------------------------- tally

/// Key of a voter's precommit at a height.
pub open spec fn vote_key(height: nat, voter: Seq<char>) -> Seq<u8> {
    text::be(height, 8) + text::utf8(voter)
}

/// Precommits by height and voter.
pub type CastV = Map<Seq<u8>, VoteV>;

/// Stake of the validators of a set that have a precommit at a height.
pub open spec fn voted_stake(s: Seq<ValidatorV>, cast: CastV, height: nat) -> nat
    decreases s.len(),
{
    if s.len() == 0 {
        0
    } else {
        voted_stake(s.drop_last(), cast, height) + if cast.contains_key(
            vote_key(height, s.last().address),
        ) {
            s.last().stake as nat
        } else {
            0
        }
    }
}

/// Stake of the validators of a set whose precommit at a height covers a hash.
pub open spec fn agreeing_stake(
    s: Seq<ValidatorV>,
    cast: CastV,
    height: nat,
    hash: Seq<char>,
) -> nat
    decreases s.len(),
{
    if s.len() == 0 {
        0
    } else {
        let k = vote_key(height, s.last().address);
        agreeing_stake(s.drop_last(), cast, height, hash) + if cast.contains_key(k)
            && cast[k].hash == hash {
            s.last().stake as nat
        } else {
            0
        }
    }
}

/// More than two thirds.
pub open spec fn supermajority(part: nat, whole: nat) -> bool {
    part * 3 > whole * 2
}

/// The height a key stands for.
pub open spec fn key_height(k: Seq<u8>) -> nat {
    text::from_be(k.take(8))
}

/// Precommits above a height.
pub open spec fn above(cast: CastV, height: nat) -> CastV {
    Map::new(
        |k: Seq<u8>| cast.contains_key(k) && k.len() >= 8 && key_height(k) > height,
        |k: Seq<u8>| cast[k],
    )
}

/// A validator of a set has an address.
pub open spec fn seated(s: Seq<ValidatorV>, address: Seq<char>) -> bool {
    exists|i: int| 0 <= i < s.len() && (#[trigger] s[i]).address == address
}

/// What recording a precommit led to.
#[derive(Debug, Clone, Copy, PartialEq, Eq, Structural)]
pub struct VoteOutcome {
    /// The precommit was new and worth gossiping onward.
    pub fresh: bool,
    /// Set when it pushed the height over the threshold.
    pub finalized: Option<u64>,
}

/// Precommits this node has seen.
pub struct VoteTracker {
    cast: Table<Vote>,
    /// Precommits that arrived before the block they refer to.
    pending: Vec<Vote>,
    /// Equivocation proofs waiting to be reported.
    evidence: Vec<Evidence>,
}

/// Model of the tracker.
#[verifier::ext_equal]
pub struct TrackerV {
    pub cast: CastV,
    pub pending: Seq<VoteV>,
    pub evidence: Seq<EvidenceV>,
}

/// Model of a table of precommits.
pub open spec fn cast_view(t: Table<Vote>) -> CastV {
    t@.map_values(|v: Vote| v@)
}

impl View for VoteTracker {
    type V = TrackerV;

    closed spec fn view(&self) -> TrackerV {
        TrackerV {
            cast: cast_view(self.cast),
            pending: rank::views(self.pending@),
            evidence: rank::views(self.evidence@),
        }
    }
}

/// Evidence with one more proof, unless the same offence is already there; the oldest
/// makes way when the queue is long.
pub open spec fn queued(q: Seq<EvidenceV>, e: EvidenceV) -> Seq<EvidenceV> {
    if exists|i: int| 0 <= i < q.len() && (#[trigger] q[i]).id() == e.id() {
        q
    } else if q.len() > 64 {
        q.skip(1).push(e)
    } else {
        q.push(e)
    }
}

/// A precommit of the same validator at the same height is waiting.
pub open spec fn waiting(p: Seq<VoteV>, v: VoteV) -> bool {
    exists|i: int|
        0 <= i < p.len() && (#[trigger] p[i]).height == v.height && p[i].voter_pubkey
            == v.voter_pubkey
}

/// Most precommits that may wait: bounded by the size of the set.
pub open spec fn waiting_cap(n: nat) -> nat {
    let m = if n < 1 {
        1
    } else {
        n
    };
    if m * 64 < 4096 {
        m * 64
    } else {
        4096
    }
}

/// The tracker, the database and the answer after a precommit for a block that is
/// still in flight.
pub open spec fn buffered(t: TrackerV, db: Db, v: VoteV, voter: Seq<char>) -> (
    Result<VoteOutcome, Seq<char>>,
    TrackerV,
) {
    let s = staking::set_at(db, staking::next_height(db));
    if !seated(s, voter) {
        (Err("voter is not a bonded validator"@), t)
    } else if waiting(t.pending, v) {
        (Ok(VoteOutcome { fresh: false, finalized: None }), t)
    } else {
        let p = if t.pending.len() >= waiting_cap(s.len()) {
            t.pending.skip(1)
        } else {
            t.pending
        };
        (Ok(VoteOutcome { fresh: true, finalized: None }), TrackerV { pending: p.push(v), ..t })
    }
}

/// The tracker, the database and the answer after a precommit for a stored block.
pub open spec fn counted(t: TrackerV, db: Db, v: VoteV, voter: Seq<char>) -> (
    Result<VoteOutcome, Seq<char>>,
    TrackerV,
    Db,
) {
    let s = staking::set_at(db, staking::next_height(db));
    let total = types::cap128(staking::stake_sum(s)) as nat;
    if !seated(s, voter) {
        (Err("voter is not a bonded validator"@), t, db)
    } else {
        let k = vote_key(v.height as nat, voter);
        let fresh = !t.cast.contains_key(k);
        let cast = t.cast.insert(k, v);
        let agreed = types::cap128(agreeing_stake(s, cast, v.height as nat, v.hash)) as nat;
        if total > 0 && supermajority(agreed, total) && v.height > state::finalized_of(db) {
            (
                Ok(VoteOutcome { fresh, finalized: Some(v.height) }),
                TrackerV { cast: above(cast, v.height as nat), ..t },
                state::with_finalized(db, v.height as nat),
            )
        } else {
            (Ok(VoteOutcome { fresh, finalized: None }), TrackerV { cast, ..t }, db)
        }
    }
}

/// The answer, the tracker and the database after a precommit. Only precommits of
/// bonded validators on a block this node stores are counted.
pub open spec fn added(t: TrackerV, db: Db, v: VoteV) -> (
    Result<VoteOutcome, Seq<char>>,
    TrackerV,
    Db,
) {
    if !v.signed() {
        (Err("invalid vote signature"@), t, db)
    } else {
        match v.voter() {
            None => (Err("invalid voter public key"@), t, db),
            Some(voter) => {
                let k = vote_key(v.height as nat, voter);
                if t.cast.contains_key(k) && t.cast[k].hash != v.hash {
                    (
                        Err("equivocating vote: evidence recorded"@),
                        TrackerV {
                            evidence: queued(
                                t.evidence,
                                EvidenceV::Vote { a: t.cast[k], b: v },
                            ),
                            ..t
                        },
                        db,
                    )
                } else if v.height <= state::finalized_of(db) {
                    (Ok(VoteOutcome { fresh: false, finalized: None }), t, db)
                } else {
                    match state::block_of(db, v.height as nat) {
                        Some(b) => if b.hash == v.hash {
                            counted(t, db, v, voter)
                        } else {
                            (Err("vote for a different block at this height"@), t, db)
                        },
                        None => {
                            let (r, u) = buffered(t, db, v, voter);
                            (r, u, db)
                        },
                    }
                }
            },
        }
    }
}

/// Precommits of a list for a height.
pub open spec fn votes_at(p: Seq<VoteV>, height: nat) -> Seq<VoteV>
    decreases p.len(),
{
    if p.len() == 0 {
        p
    } else if p.last().height == height {
        votes_at(p.drop_last(), height).push(p.last())
    } else {
        votes_at(p.drop_last(), height)
    }
}

/// Precommits of a list that keep waiting: for another height, above the finalized one.
pub open spec fn votes_kept(p: Seq<VoteV>, height: nat, finalized: nat) -> Seq<VoteV>
    decreases p.len(),
{
    if p.len() == 0 {
        p
    } else if p.last().height != height && p.last().height > finalized {
        votes_kept(p.drop_last(), height, finalized).push(p.last())
    } else {
        votes_kept(p.drop_last(), height, finalized)
    }
}

/// The last finalized height, the tracker and the database after a list of precommits.
pub open spec fn added_all(t: TrackerV, db: Db, vs: Seq<VoteV>) -> (Option<u64>, TrackerV, Db)
    decreases vs.len(),
{
    if vs.len() == 0 {
        (None, t, db)
    } else {
        let (f, u, d) = added_all(t, db, vs.drop_last());
        let (r, w, e) = added(u, d, vs.last());
        (
            match r {
                Ok(o) => match o.finalized {
                    Some(h) => Some(h),
                    None => f,
                },
                Err(_) => f,
            },
            w,
            e,
        )
    }
}

/// Outcome of replaying the precommits that waited for a height.
pub open spec fn replayed(t: TrackerV, db: Db, height: nat) -> (Option<u64>, TrackerV, Db) {
    added_all(
        TrackerV {
            pending: votes_kept(t.pending, height, state::finalized_of(db)),
            ..t
        },
        db,
        votes_at(t.pending, height),
    )
}

/// A tracker that has seen nothing.
pub open spec fn fresh_tracker() -> TrackerV {
    TrackerV {
        cast: Map::<Seq<u8>, VoteV>::empty(),
        pending: Seq::<VoteV>::empty(),
        evidence: Seq::<EvidenceV>::empty(),
    }
}

/// A tracker whose proofs were handed out.
pub open spec fn drained(t: TrackerV) -> TrackerV {
    TrackerV { evidence: Seq::<EvidenceV>::empty(), ..t }
}

/// A precommit is filed under its height and voter, and was signed.
pub open spec fn filed(k: Seq<u8>, v: VoteV) -> bool {
    &&& v.signed()
    &&& v.height > 0
    &&& v.voter() matches Some(a) && k == vote_key(v.height as nat, a)
}

/// No two proofs are of the same offence.
pub open spec fn differing(q: Seq<EvidenceV>) -> bool {
    forall|i: int, j: int|
        0 <= i < j < q.len() ==> (#[trigger] q[i]).id() != (#[trigger] q[j]).id()
}

/// What holds of every tracker: the counted precommits are filed, and the waiting proofs
/// are of different offences.
pub open spec fn tracking(t: TrackerV) -> bool {
    &&& forall|k: Seq<u8>| #[trigger] t.cast.contains_key(k) ==> filed(k, t.cast[k])
    &&& differing(t.evidence)
}

proof fn lemma_queued_differ(q: Seq<EvidenceV>, e: EvidenceV)
    requires
        differing(q),
    ensures
        differing(queued(q, e)),
{
    let r = queued(q, e);
    if r != q {
        let base = if q.len() > 64 {
            1int
        } else {
            0
        };
        assert forall|i: int, j: int| 0 <= i < j < r.len() implies (#[trigger] r[i]).id() != (
        #[trigger] r[j]).id() by {
            assert(r[i] == q[i + base]);
            if j < r.len() - 1 {
                assert(r[j] == q[j + base]);
            } else {
                assert(q[i + base].id() != e.id());
            }
        }
    }
}

/// Whatever precommit comes, no two waiting proofs are of the same offence and every
/// counted precommit is one its voter signed.
pub proof fn law_proofs_differ(t: TrackerV, db: Db, v: VoteV)
    requires
        tracking(t),
    ensures
        tracking(added(t, db, v).1),
        tracking(drained(t)),
{
    let u = added(t, db, v).1;
    if v.signed() && v.voter() is Some {
        let k = vote_key(v.height as nat, v.voter()->Some_0);
        if t.cast.contains_key(k) && t.cast[k].hash != v.hash {
            lemma_queued_differ(t.evidence, EvidenceV::Vote { a: t.cast[k], b: v });
        }
        assert forall|x: Seq<u8>| #[trigger] u.cast.contains_key(x) implies filed(x, u.cast[x]) by {
            if x != k || u.cast[x] != v {
                assert(t.cast.contains_key(x));
            }
        }
    }
}

/// A second precommit of a validator at a height is refused as equivocation exactly when
/// it is signed and covers another block than the counted one, and the pair proves the
/// offence: it names the voter to anyone who checks it, and waits to be handed out once.
pub proof fn law_double_vote_is_proved(t: TrackerV, db: Db, a: VoteV, b: VoteV)
    requires
        tracking(t),
        a.voter() is Some,
        t.cast.contains_key(vote_key(a.height as nat, a.voter()->Some_0)),
        t.cast[vote_key(a.height as nat, a.voter()->Some_0)] == a,
        b.height == a.height,
        b.voter_pubkey == a.voter_pubkey,
    ensures
        ({
            let (r, u, d) = added(t, db, b);
            let e = EvidenceV::Vote { a, b };
            &&& b.signed() && b.hash != a.hash ==> {
                &&& r == Err::<VoteOutcome, Seq<char>>("equivocating vote: evidence recorded"@)
                &&& u == (TrackerV { evidence: queued(t.evidence, e), ..t })
                &&& d == db
                &&& e.verdict() == Ok::<Seq<char>, Seq<char>>(a.voter()->Some_0)
                &&& exists|i: int|
                    0 <= i < u.evidence.len() && (#[trigger] u.evidence[i]).id() == e.id()
                &&& t.evidence.len() == 0 ==> u.evidence == seq![e]
                &&& drained(u).evidence.len() == 0
            }
            &&& r == Err::<VoteOutcome, Seq<char>>("equivocating vote: evidence recorded"@)
                ==> b.signed() && b.hash != a.hash
        }),
{
    let e = EvidenceV::Vote { a, b };
    let (r, u, d) = added(t, db, b);
    let k = vote_key(a.height as nat, a.voter()->Some_0);
    assert(filed(k, t.cast[k]));
    reveal_strlit("equivocating vote: evidence recorded");
    reveal_strlit("invalid vote signature");
    reveal_strlit("voter is not a bonded validator");
    reveal_strlit("vote for a different block at this height");
    assert("equivocating vote: evidence recorded"@[0] == 'e');
    assert("invalid vote signature"@[0] == 'i');
    assert("voter is not a bonded validator"@[0] == 'v');
    assert("vote for a different block at this height"@[0] == 'v');
    if b.signed() && b.hash != a.hash {
        let q = queued(t.evidence, e);
        if !(exists|i: int| 0 <= i < t.evidence.len() && (#[trigger] t.evidence[i]).id()
            == e.id()) {
            assert(q[q.len() - 1].id() == e.id());
        }
        if t.evidence.len() == 0 {
            assert(q =~= seq![e]);
        }
        assert(u.evidence == q);
        assert(e.verdict() == Ok::<Seq<char>, Seq<char>>(a.voter()->Some_0));
        assert(u == (TrackerV { evidence: queued(t.evidence, e), ..t }));
        assert(exists|i: int| 0 <= i < u.evidence.len() && (#[trigger] u.evidence[i]).id() == e.id());
    } else {
        assert(r != Err::<VoteOutcome, Seq<char>>("equivocating vote: evidence recorded"@));
    }
}

/// An answer agrees with its model.
pub open spec fn answers(
    r: Result<VoteOutcome, String>,
    v: Result<VoteOutcome, Seq<char>>,
) -> bool {
    match r {
        Ok(o) => v == Ok::<VoteOutcome, Seq<char>>(o),
        Err(e) => v == Err::<VoteOutcome, Seq<char>>(e@),
    }
}

/// Key of a voter's precommit at a height.
fn key_of(height: u64, voter: &str) -> (r: Vec<u8>)
    ensures
        r@ == vote_key(height as nat, voter@),
{
    let mut k = text::be8(height);
    text::push_text(&mut k, voter);
    assert(k@ =~= vote_key(height as nat, voter@));
    k
}

/// Whether a validator of a set has an address.
fn is_seated(set: &Vec<Validator>, address: &str) -> (r: bool)
    ensures
        r == seated(rank::views(set@), address@),
{
    let ghost v = rank::views(set@);
    let mut i: usize = 0;
    while i < set.len()
        invariant
            i <= set@.len(),
            v == rank::views(set@),
            forall|j: int| 0 <= j < i ==> (#[trigger] v[j]).address != address@,
        decreases set@.len() - i,
    {
        assert(v[i as int] == set@[i as int]@);
        if text::same(set[i].address.as_str(), address) {
            return true;
        }
        i = i + 1;
    }
    false
}

impl VoteTracker {
    /// The table of precommits is well formed, and the tracker holds what it should.
    pub closed spec fn wf(self) -> bool {
        &&& self.cast.wf()
        &&& tracking(self@)
    }

    /// What holds of every tracker.
    pub proof fn lemma_tracking(&self)
        requires
            self.wf(),
        ensures
            tracking(self@),
    {
    }

    /// A tracker that has seen nothing.
    pub fn new() -> (r: VoteTracker)
        ensures
            r.wf(),
            r@ == fresh_tracker(),
    {
        let r = VoteTracker { cast: Table::new(), pending: Vec::new(), evidence: Vec::new() };
        assert(r@.cast =~= Map::<Seq<u8>, VoteV>::empty());
        assert(r@.pending =~= Seq::<VoteV>::empty());
        assert(r@.evidence =~= Seq::<EvidenceV>::empty());
        r
    }

    /// The first precommit this node saw from a voter at a height.
    fn first_vote(&self, height: u64, voter: &str) -> (r: Option<Vote>)
        requires
            self.wf(),
        ensures
            match r {
                Some(v) => self@.cast.contains_key(vote_key(height as nat, voter@)) && v@
                    == self@.cast[vote_key(height as nat, voter@)],
                None => !self@.cast.contains_key(vote_key(height as nat, voter@)),
            },
    {
        let k = key_of(height, voter);
        match self.cast.get(k.as_slice()) {
            Some(v) => Some(v.clone()),
            None => None,
        }
    }

    /// Queues a proof unless the same offence is queued already.
    fn push_evidence(&mut self, e: Evidence)
        requires
            old(self).wf(),
        ensures
            final(self).wf(),
            final(self)@ == (TrackerV {
                evidence: queued(old(self)@.evidence, e@),
                ..old(self)@
            }),
    {
        let id = e.id();
        let ghost q = self@.evidence;
        let mut i: usize = 0;
        while i < self.evidence.len()
            invariant
                i <= self.evidence@.len(),
                *self == *old(self),
                self.wf(),
                q == rank::views(self.evidence@),
                id@ == e@.id(),
                forall|j: int| 0 <= j < i ==> (#[trigger] q[j]).id() != e@.id(),
            decreases self.evidence@.len() - i,
        {
            assert(q[i as int] == self.evidence@[i as int]@);
            if text::same(self.evidence[i].id().as_str(), id.as_str()) {
                return;
            }
            i = i + 1;
        }
        let ghost ev = e@;
        proof {
            lemma_queued_differ(q, ev);
        }
        if self.evidence.len() > 64 {
            let _oldest = self.evidence.remove(0);
            self.evidence.push(e);
            assert(rank::views(self.evidence@) =~= q.skip(1).push(ev));
        } else {
            self.evidence.push(e);
            assert(rank::views(self.evidence@) =~= q.push(ev));
        }
    }

    /// Stake of the set that has a precommit at a height, capped at the largest amount.
    fn voted(&self, set: &Vec<Validator>, height: u64) -> (r: u128)
        requires
            self.wf(),
        ensures
            r == types::cap128(voted_stake(rank::views(set@), self@.cast, height as nat)),
    {
        let ghost v = rank::views(set@);
        let mut sum: u128 = 0;
        let mut i: usize = 0;
        while i < set.len()
            invariant
                i <= set@.len(),
                self.wf(),
                v == rank::views(set@),
                sum == types::cap128(voted_stake(v.take(i as int), self@.cast, height as nat)),
            decreases set@.len() - i,
        {
            proof {
                assert(v.take(i + 1).drop_last() =~= v.take(i as int));
                assert(v.take(i + 1).last() == set@[i as int]@);
            }
            let k = key_of(height, set[i].address.as_str());
            if self.cast.has(k.as_slice()) {
                sum = sum.saturating_add(set[i].stake);
            }
            i = i + 1;
        }
        assert(v.take(v.len() as int) =~= v);
        sum
    }

    /// Stake of the set whose precommit at a height covers a hash, capped at the largest
    /// amount.
    fn agreed(&self, set: &Vec<Validator>, height: u64, hash: &str) -> (r: u128)
        requires
            self.wf(),
        ensures
            r == types::cap128(
                agreeing_stake(rank::views(set@), self@.cast, height as nat, hash@),
            ),
    {
        let ghost v = rank::views(set@);
        let mut sum: u128 = 0;
        let mut i: usize = 0;
        while i < set.len()
            invariant
                i <= set@.len(),
                self.wf(),
                v == rank::views(set@),
                sum == types::cap128(
                    agreeing_stake(v.take(i as int), self@.cast, height as nat, hash@),
                ),
            decreases set@.len() - i,
        {
            proof {
                assert(v.take(i + 1).drop_last() =~= v.take(i as int));
                assert(v.take(i + 1).last() == set@[i as int]@);
            }
            let same = match self.first_vote(height, set[i].address.as_str()) {
                Some(p) => text::same(p.hash.as_str(), hash),
                None => false,
            };
            if same {
                sum = sum.saturating_add(set[i].stake);
            }
            i = i + 1;
        }
        assert(v.take(v.len() as int) =~= v);
        sum
    }

    /// Forgets every precommit at or below a height.
    fn forget_upto(&mut self, height: u64)
        requires
            old(self).wf(),
        ensures
            final(self).wf(),
            final(self)@ == (TrackerV {
                cast: above(old(self)@.cast, height as nat),
                ..old(self)@
            }),
    {
        let mut kept: Table<Vote> = Table::new();
        let n: usize = self.cast.len();
        let mut i: usize = 0;
        let ghost es = self.cast.entries();
        while i < n
            invariant
                i <= n,
                n == self.cast.entries().len(),
                *self == *old(self),
                self.wf(),
                kept.wf(),
                es == self.cast.entries(),
                forall|k: Seq<u8>| #[trigger]
                    kept@.dom().contains(k) <==> (exists|j: int|
                        0 <= j < i && (#[trigger] es[j]).0 == k && k.len() >= 8 && key_height(k)
                            > height),
                forall|k: Seq<u8>| #[trigger]
                    kept@.dom().contains(k) ==> self.cast@.dom().contains(k) && kept@[k]@
                        == self.cast@[k]@,
            decreases n - i,
        {
            let key = self.cast.key_at(i);
            let ghost was = kept@;
            proof {
                table::lemma_map_of_at(es, i as int);
            }
            if key.len() >= 8 {
                let head = vstd::slice::slice_subrange(key.as_slice(), 0, 8);
                assert(head@ =~= key@.take(8));
                let h = text::read_be(head);
                if h > height as u128 {
                    kept.insert(text::copy_bytes(key.as_slice()), self.cast.val_at(i).clone());
                }
            }
            proof {
                assert forall|k: Seq<u8>| #[trigger]
                    kept@.dom().contains(k) <==> (exists|j: int|
                        0 <= j < i + 1 && (#[trigger] es[j]).0 == k && k.len() >= 8 && key_height(k)
                            > height) by {
                    if kept@.dom().contains(k) && !was.dom().contains(k) {
                        assert(es[i as int].0 == k);
                    }
                    if exists|j: int|
                        0 <= j < i + 1 && (#[trigger] es[j]).0 == k && k.len() >= 8 && key_height(k)
                            > height {
                        let j = choose|j: int|
                            0 <= j < i + 1 && (#[trigger] es[j]).0 == k && k.len() >= 8
                                && key_height(k) > height;
                        if j < i {
                            assert(was.dom().contains(k));
                        }
                    }
                }
            }
            i = i + 1;
        }
        proof {
            let want = above(self@.cast, height as nat);
            let got = cast_view(kept);
            assert forall|k: Seq<u8>|
                #![trigger got.dom().contains(k)]
                #![trigger want.dom().contains(k)]
                got.dom().contains(k) == want.dom().contains(k) && (want.dom().contains(k)
                    ==> got[k] == want[k]) by {
                table::lemma_map_of_dom(es, k);
                if want.dom().contains(k) {
                    let j = choose|j: int| 0 <= j < es.len() && (#[trigger] es[j]).0 == k;
                    assert(es[j].0 == k);
                    assert(kept@.dom().contains(k));
                }
                assert(got.dom().contains(k) == kept@.dom().contains(k));
            }
            assert(got =~= want);
        }
        self.cast = kept;
    }

    /// Buffers a precommit for a block that is still in flight.
    fn buffer(&mut self, store: &Store, vote: Vote, voter: &str) -> (r: Result<
        VoteOutcome,
        String,
    >)
        requires
            old(self).wf(),
            store.wf(),
        ensures
            final(self).wf(),
            answers(r, buffered(old(self)@, store@.db, vote@, voter@).0),
            final(self)@ == buffered(old(self)@, store@.db, vote@, voter@).1,
    {
        let set = staking::validator_set(store);
        if !is_seated(&set, voter) {
            return Err(text::copy("voter is not a bonded validator"));
        }
        let ghost p = self@.pending;
        let mut i: usize = 0;
        while i < self.pending.len()
            invariant
                i <= self.pending@.len(),
                *self == *old(self),
                self.wf(),
                p == rank::views(self.pending@),
                p == self@.pending,
                seated(
                    staking::set_at(store@.db, staking::next_height(store@.db)),
                    voter@,
                ),
                forall|j: int|
                    0 <= j < i ==> !((#[trigger] p[j]).height == vote@.height && p[j].voter_pubkey
                        == vote@.voter_pubkey),
            decreases self.pending@.len() - i,
        {
            assert(p[i as int] == self.pending@[i as int]@);
            if self.pending[i].height == vote.height && text::same(
                self.pending[i].voter_pubkey.as_str(),
                vote.voter_pubkey.as_str(),
            ) {
                return Ok(VoteOutcome { fresh: false, finalized: None });
            }
            i = i + 1;
        }
        let n: usize = set.len();
        assert(rank::views(set@).len() == n);
        let cap: usize = if n < 1 {
            64
        } else if n < 64 {
            n * 64
        } else {
            4096
        };
        let ghost vv = vote@;
        if self.pending.len() >= cap {
            let _oldest = self.pending.remove(0);
            self.pending.push(vote);
            assert(rank::views(self.pending@) =~= p.skip(1).push(vv));
        } else {
            self.pending.push(vote);
            assert(rank::views(self.pending@) =~= p.push(vv));
        }
        Ok(VoteOutcome { fresh: true, finalized: None })
    }

    /// Counts a precommit for a stored block.
    fn count(&mut self, store: &mut Store, vote: Vote, voter: &str) -> (r: Result<
        VoteOutcome,
        String,
    >)
        requires
            old(self).wf(),
            old(store).wf(),
            filed(vote_key(vote@.height as nat, voter@), vote@),
        ensures
            final(self).wf(),
            state::follows(*old(store), *final(store)),
            answers(r, counted(old(self)@, old(store)@.db, vote@, voter@).0),
            final(self)@ == counted(old(self)@, old(store)@.db, vote@, voter@).1,
            final(store)@.db == counted(old(self)@, old(store)@.db, vote@, voter@).2,
    {
        let set = staking::validator_set(store);
        let total = staking::total_stake(&set);
        if !is_seated(&set, voter) {
            return Err(text::copy("voter is not a bonded validator"));
        }
        let k = key_of(vote.height, voter);
        let fresh = !self.cast.has(k.as_slice());
        let ghost was = self@.cast;
        let ghost kv = k@;
        let height = vote.height;
        let hash = vote.hash.clone();
        let ghost vv = vote@;
        self.cast.insert(k, vote);
        proof {
            assert(self@.cast =~= was.insert(kv, vv));
            assert forall|x: Seq<u8>| #[trigger] self@.cast.contains_key(x) implies filed(
                x,
                self@.cast[x],
            ) by {
                if x != kv {
                    assert(was.contains_key(x));
                }
            }
        }
        let agreed = self.agreed(&set, height, hash.as_str());
        proof {
            lemma_agreeing_within(rank::views(set@), self@.cast, height as nat, vv.hash);
        }
        let rest: u128 = total - agreed;
        let crossed = rest < agreed && agreed - rest > rest;
        if total > 0 && crossed && height > store.finalized_height() {
            store.set_finalized_height(height);
            self.forget_upto(height);
            return Ok(VoteOutcome { fresh, finalized: Some(height) });
        }
        Ok(VoteOutcome { fresh, finalized: None })
    }

    /// Records a precommit.
    pub fn add(&mut self, store: &mut Store, vote: Vote) -> (r: Result<VoteOutcome, String>)
        requires
            old(self).wf(),
            old(store).wf(),
        ensures
            final(self).wf(),
            state::follows(*old(store), *final(store)),
            answers(r, added(old(self)@, old(store)@.db, vote@).0),
            final(self)@ == added(old(self)@, old(store)@.db, vote@).1,
            final(store)@.db == added(old(self)@, old(store)@.db, vote@).2,
    {
        if !vote.verify_signature() {
            return Err(text::copy("invalid vote signature"));
        }
        let voter = match vote.voter() {
            Some(a) => a,
            None => {
                return Err(text::copy("invalid voter public key"));
            },
        };
        match self.first_vote(vote.height, voter.as_str()) {
            Some(prev) => {
                if !text::same(prev.hash.as_str(), vote.hash.as_str()) {
                    self.push_evidence(Evidence::Vote { a: prev, b: vote });
                    return Err(text::copy("equivocating vote: evidence recorded"));
                }
            },
            None => {},
        }
        if vote.height <= store.finalized_height() {
            return Ok(VoteOutcome { fresh: false, finalized: None });
        }
        match store.block(vote.height) {
            Some(b) => {
                if !text::same(b.hash.as_str(), vote.hash.as_str()) {
                    return Err(text::copy("vote for a different block at this height"));
                }
                self.count(store, vote, voter.as_str())
            },
            None => self.buffer(store, vote, voter.as_str()),
        }
    }

    /// How much stake has precommitted a height, and how much exists in total.
    pub fn tally(&self, store: &Store, height: u64) -> (r: (u128, u128))
        requires
            self.wf(),
            store.wf(),
        ensures
            ({
                let s = staking::set_at(store@.db, staking::next_height(store@.db));
                &&& r.0 == types::cap128(voted_stake(s, self@.cast, height as nat))
                &&& r.1 == types::cap128(staking::stake_sum(s))
            }),
    {
        let set = staking::validator_set(store);
        (self.voted(&set, height), staking::total_stake(&set))
    }

    /// Number of precommits seen at a height.
    pub fn seen(&self, height: u64) -> (r: usize)
        requires
            self.wf(),
        ensures
            r == seen_among(keys_of(self@.cast), height as nat),
    {
        let ghost ks = keys_of(self@.cast);
        proof {
            table::lemma_ordered_mapped(self.cast.entries(), |v: Vote| v@);
            assert(ks =~= self.cast.entries().map_values(|e: (Seq<u8>, Vote)| e.0));
        }
        let n: usize = self.cast.len();
        let mut count: usize = 0;
        let mut i: usize = 0;
        while i < n
            invariant
                i <= n,
                n == self.cast.entries().len(),
                self.wf(),
                ks == self.cast.entries().map_values(|e: (Seq<u8>, Vote)| e.0),
                count <= i,
                count == seen_among(ks.take(i as int), height as nat),
            decreases n - i,
        {
            proof {
                assert(ks.take(i + 1).drop_last() =~= ks.take(i as int));
                assert(ks.take(i + 1).last() == self.cast.entries()[i as int].0);
            }
            let key = self.cast.key_at(i);
            if key.len() >= 8 {
                let head = vstd::slice::slice_subrange(key.as_slice(), 0, 8);
                assert(head@ =~= key@.take(8));
                if text::read_be(head) == height as u128 {
                    count = count + 1;
                }
            }
            i = i + 1;
        }
        assert(ks.take(ks.len() as int) =~= ks);
        count
    }

    /// Drains the proofs gathered from conflicting precommits.
    pub fn take_evidence(&mut self) -> (r: Vec<Evidence>)
        requires
            old(self).wf(),
        ensures
            final(self).wf(),
            rank::views(r@) == old(self)@.evidence,
            differing(rank::views(r@)),
            final(self)@ == drained(old(self)@),
    {
        let mut out: Vec<Evidence> = Vec::new();
        std::mem::swap(&mut out, &mut self.evidence);
        assert(rank::views(self.evidence@) =~= Seq::<EvidenceV>::empty());
        proof {
            law_proofs_differ(old(self)@, arbitrary(), arbitrary());
            assert(self@ =~= drained(old(self)@));
        }
        out
    }

    /// Replays precommits that waited for a height that just landed, and returns the
    /// height finalized by the replay.
    pub fn replay_pending(&mut self, store: &mut Store, height: u64) -> (r: Option<u64>)
        requires
            old(self).wf(),
            old(store).wf(),
        ensures
            final(self).wf(),
            state::follows(*old(store), *final(store)),
            (r, final(self)@, final(store)@.db) == replayed(
                old(self)@,
                old(store)@.db,
                height as nat,
            ),
    {
        let floor = store.finalized_height();
        let ghost p = self@.pending;
        let mut ready: Vec<Vote> = Vec::new();
        let mut keep: Vec<Vote> = Vec::new();
        let mut i: usize = 0;
        assert(rank::views(ready@) =~= votes_at(p.take(0), height as nat));
        assert(rank::views(keep@) =~= votes_kept(p.take(0), height as nat, floor as nat));
        while i < self.pending.len()
            invariant
                i <= self.pending@.len(),
                *self == *old(self),
                self.wf(),
                p == rank::views(self.pending@),
                rank::views(ready@) == votes_at(p.take(i as int), height as nat),
                rank::views(keep@) == votes_kept(p.take(i as int), height as nat, floor as nat),
            decreases self.pending@.len() - i,
        {
            proof {
                assert(p.take(i + 1).drop_last() =~= p.take(i as int));
                assert(p.take(i + 1).last() == self.pending@[i as int]@);
            }
            let v = self.pending[i].clone();
            let ghost vv = v@;
            if v.height == height {
                let ghost was = rank::views(ready@);
                ready.push(v);
                assert(rank::views(ready@) =~= was.push(vv));
            } else if v.height > floor {
                let ghost was = rank::views(keep@);
                keep.push(v);
                assert(rank::views(keep@) =~= was.push(vv));
            }
            i = i + 1;
        }
        assert(p.take(p.len() as int) =~= p);
        let ghost before = self@;
        self.pending = keep;
        assert(self@.cast == before.cast && self@.evidence == before.evidence);
        let ghost t0 = self@;
        let ghost d0 = store@.db;
        let ghost vs = rank::views(ready@);
        let mut finalized: Option<u64> = None;
        let mut j: usize = 0;
        assert(vs.take(0) =~= Seq::<VoteV>::empty());
        while j < ready.len()
            invariant
                j <= ready@.len(),
                self.wf(),
                state::follows(*old(store), *store),
                vs == rank::views(ready@),
                (finalized, self@, store@.db) == added_all(t0, d0, vs.take(j as int)),
            decreases ready@.len() - j,
        {
            proof {
                assert(vs.take(j + 1).drop_last() =~= vs.take(j as int));
                assert(vs.take(j + 1).last() == ready@[j as int]@);
            }
            match self.add(store, ready[j].clone()) {
                Ok(o) => {
                    if o.finalized.is_some() {
                        finalized = o.finalized;
                    }
                },
                Err(_) => {},
            }
            j = j + 1;
        }
        assert(vs.take(vs.len() as int) =~= vs);
        finalized
    }
}

/// Keys of the recorded precommits, in order.
pub open spec fn keys_of(cast: CastV) -> Seq<Seq<u8>> {
    table::ordered(cast).map_values(|e: (Seq<u8>, VoteV)| e.0)
}

/// Number of keys that stand for a height.
pub open spec fn seen_among(ks: Seq<Seq<u8>>, height: nat) -> nat
    decreases ks.len(),
{
    if ks.len() == 0 {
        0
    } else {
        seen_among(ks.drop_last(), height) + if ks.last().len() >= 8 && key_height(ks.last())
            == height {
            1nat
        } else {
            0
        }
    }
}

/// The stake that agrees is part of all stake.
proof fn lemma_agreeing_within(s: Seq<ValidatorV>, cast: CastV, height: nat, hash: Seq<char>)
    ensures
        agreeing_stake(s, cast, height, hash) <= staking::stake_sum(s),
    decreases s.len(),
{
    if s.len() > 0 {
        lemma_agreeing_within(s.drop_last(), cast, height, hash);
    }
}

/// Finality is safe: a precommit finalizes a height only when more than two thirds of
/// the stake precommitted the same block there, the height is the precommit's own and
/// above every finalized one, and the finalized height never falls.
pub proof fn law_finality_needs_two_thirds(t: TrackerV, db: Db, v: VoteV)
    requires
        db.len() == 16,
    ensures
        ({
            let (r, u, d) = added(t, db, v);
            let s = staking::set_at(db, staking::next_height(db));
            &&& r matches Ok(o) ==> (o.finalized matches Some(h) ==> {
                &&& h == v.height
                &&& h > state::finalized_of(db)
                &&& state::finalized_of(d) == h
                &&& supermajority(
                    types::cap128(
                        agreeing_stake(
                            s,
                            t.cast.insert(vote_key(h as nat, v.voter().unwrap()), v),
                            h as nat,
                            v.hash,
                        ),
                    ) as nat,
                    types::cap128(staking::stake_sum(s)) as nat,
                )
            })
            &&& state::finalized_of(d) >= state::finalized_of(db)
            &&& r is Err ==> d == db
        }),
{
    text::lemma_pow256_values();
    text::lemma_be(v.height as nat, 8);
}

/// Stake of a set held by validators that satisfy a condition.
pub open spec fn stake_where(s: Seq<ValidatorV>, who: spec_fn(Seq<char>) -> bool) -> nat
    decreases s.len(),
{
    if s.len() == 0 {
        0
    } else {
        stake_where(s.drop_last(), who) + if who(s.last().address) {
            s.last().stake as nat
        } else {
            0
        }
    }
}

proof fn lemma_disjoint_stake(
    s: Seq<ValidatorV>,
    p: spec_fn(Seq<char>) -> bool,
    q: spec_fn(Seq<char>) -> bool,
)
    requires
        forall|i: int| 0 <= i < s.len() ==> !(p((#[trigger] s[i]).address) && q(s[i].address)),
    ensures
        stake_where(s, p) + stake_where(s, q) <= staking::stake_sum(s),
    decreases s.len(),
{
    if s.len() > 0 {
        let d = s.drop_last();
        assert forall|i: int| 0 <= i < d.len() implies !(p((#[trigger] d[i]).address) && q(
            d[i].address,
        )) by {
            assert(d[i] == s[i]);
        }
        lemma_disjoint_stake(d, p, q);
        let l = s.len() - 1;
        assert(!(p(s[l].address) && q(s[l].address)));
    }
}

/// Two groups of validators that each hold more than two thirds of the stake share a
/// validator, so two conflicting blocks can only both be finalized when somebody
/// signed both.
pub proof fn law_quorums_intersect(
    s: Seq<ValidatorV>,
    p: spec_fn(Seq<char>) -> bool,
    q: spec_fn(Seq<char>) -> bool,
)
    requires
        supermajority(stake_where(s, p), staking::stake_sum(s)),
        supermajority(stake_where(s, q), staking::stake_sum(s)),
    ensures
        exists|i: int|
            0 <= i < s.len() && p((#[trigger] s[i]).address) && q(s[i].address),
{
    if !(exists|i: int| 0 <= i < s.len() && p((#[trigger] s[i]).address) && q(s[i].address)) {
        lemma_disjoint_stake(s, p, q);
    }
}

} // verus!
