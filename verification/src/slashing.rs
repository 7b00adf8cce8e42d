//! Slashing: equivocation burns, downtime jailing and evidence proofs.
//!
//! Two offences are punished, and both are proved without a committee or an
//! administrator: signing two different blocks or precommits at one height burns a
//! share of the stake and tombstones the validator, and being elected without ever
//! sealing costs a jail or a slow leak.

use crate::chain;
use crate::consensus::Vote;
use crate::consensus::VoteV;
use crate::crypto;
use crate::journal::Db;
use crate::json;
use crate::json::Part;
use crate::json::PartV;
use crate::rank;
use crate::staking;
use crate::staking::Validator;
use crate::staking::ValidatorV;
use crate::state;
use crate::state::FixedV;
use crate::state::Store;
use crate::supply;
use crate::text;
use crate::types;
use crate::types::AccountV;
use crate::types::Block;
use crate::types::BlockV;
use crate::types::Payload;
use crate::types::PayloadV;
use crate::types::Penalties;
use crate::types::TxV;
use crate::types::Unbond;
use vstd::prelude::*;
use vstd::string::*;

verus! {

/// A slash that was applied on chain, kept for explorers and audits.
#[derive(Debug)]
pub struct SlashRecord {
    pub id: String,
    pub offence: String,
    pub offender: String,
    /// Height the offence happened at.
    pub offence_height: u64,
    /// Height the punishment was applied at.
    pub applied_height: u64,
    /// What left circulation: the cut from the stake, net of the bounty.
    pub burned: u128,
    pub bounty: u128,
    pub reporter: String,
    pub tombstoned: bool,
    pub jailed_until: u64,
}

/// Model of a slash record.
#[verifier::ext_equal]
pub struct SlashV {
    pub id: Seq<char>,
    pub offence: Seq<char>,
    pub offender: Seq<char>,
    pub offence_height: u64,
    pub applied_height: u64,
    pub burned: u128,
    pub bounty: u128,
    pub reporter: Seq<char>,
    pub tombstoned: bool,
    pub jailed_until: u64,
}

impl View for SlashRecord {
    type V = SlashV;

    open spec fn view(&self) -> SlashV {
        SlashV {
            id: self.id@,
            offence: self.offence@,
            offender: self.offender@,
            offence_height: self.offence_height,
            applied_height: self.applied_height,
            burned: self.burned,
            bounty: self.bounty,
            reporter: self.reporter@,
            tombstoned: self.tombstoned,
            jailed_until: self.jailed_until,
        }
    }
}

impl Clone for SlashRecord {
    fn clone(&self) -> (r: SlashRecord)
        ensures
            r@ == self@,
    {
        SlashRecord {
            id: self.id.clone(),
            offence: self.offence.clone(),
            offender: self.offender.clone(),
            offence_height: self.offence_height,
            applied_height: self.applied_height,
            burned: self.burned,
            bounty: self.bounty,
            reporter: self.reporter.clone(),
            tombstoned: self.tombstoned,
            jailed_until: self.jailed_until,
        }
    }
}


/// A signed block header, enough to prove who sealed what without the body.
#[derive(Debug)]
pub struct HeaderProof {
    pub height: u64,
    pub parent_hash: String,
    pub timestamp_ms: u128,
    pub state_root: String,
    pub txs_root: String,
    pub producer: String,
    pub producer_pubkey: String,
    pub signature: String,
    pub hash: String,
}

impl View for HeaderProof {
    type V = BlockV;

    open spec fn view(&self) -> BlockV {
        BlockV {
            height: self.height,
            parent_hash: self.parent_hash@,
            timestamp_ms: self.timestamp_ms,
            state_root: self.state_root@,
            txs_root: self.txs_root@,
            producer: self.producer@,
            producer_pubkey: self.producer_pubkey@,
            transactions: Seq::<TxV>::empty(),
            signature: self.signature@,
            hash: self.hash@,
        }
    }
}

impl Clone for HeaderProof {
    fn clone(&self) -> (r: HeaderProof)
        ensures
            r@ == self@,
    {
        HeaderProof {
            height: self.height,
            parent_hash: self.parent_hash.clone(),
            timestamp_ms: self.timestamp_ms,
            state_root: self.state_root.clone(),
            txs_root: self.txs_root.clone(),
            producer: self.producer.clone(),
            producer_pubkey: self.producer_pubkey.clone(),
            signature: self.signature.clone(),
            hash: self.hash.clone(),
        }
    }
}

impl HeaderProof {
    /// The header of a block.
    pub fn from_block(b: &Block) -> (r: HeaderProof)
        ensures
            r@ == (BlockV { transactions: Seq::<TxV>::empty(), ..b@ }),
    {
        HeaderProof {
            height: b.height,
            parent_hash: b.parent_hash.clone(),
            timestamp_ms: b.timestamp_ms,
            state_root: b.state_root.clone(),
            txs_root: b.txs_root.clone(),
            producer: b.producer.clone(),
            producer_pubkey: b.producer_pubkey.clone(),
            signature: b.signature.clone(),
            hash: b.hash.clone(),
        }
    }

    /// The header as a block without transactions.
    fn as_block(&self) -> (r: Block)
        ensures
            r@ == self@,
    {
        let b = Block {
            height: self.height,
            parent_hash: self.parent_hash.clone(),
            timestamp_ms: self.timestamp_ms,
            state_root: self.state_root.clone(),
            txs_root: self.txs_root.clone(),
            producer: self.producer.clone(),
            producer_pubkey: self.producer_pubkey.clone(),
            transactions: Vec::new(),
            signature: self.signature.clone(),
            hash: self.hash.clone(),
        };
        assert(b@.transactions =~= Seq::<TxV>::empty());
        b
    }

    /// The producer really signed this header and owns the producer address.
    pub fn is_authentic(&self) -> (r: bool)
        ensures
            r == self@.produced(),
    {
        self.as_block().verify_producer()
    }
}

/// Proof of an offence, verified by anyone from the signatures alone.
#[allow(inconsistent_fields)]
#[derive(Debug)]
pub enum Evidence {
    /// Two conflicting blocks sealed at one height by one producer.
    Block { a: HeaderProof, b: HeaderProof },
    /// Two conflicting precommits cast at one height by one validator.
    Vote { a: Vote, b: Vote },
}

/// Model of evidence.
#[allow(inconsistent_fields)]
pub enum EvidenceV {
    Block { a: BlockV, b: BlockV },
    Vote { a: VoteV, b: VoteV },
}

impl View for Evidence {
    type V = EvidenceV;

    open spec fn view(&self) -> EvidenceV {
        match *self {
            Evidence::Block { a, b } => EvidenceV::Block { a: a@, b: b@ },
            Evidence::Vote { a, b } => EvidenceV::Vote { a: a@, b: b@ },
        }
    }
}

impl Clone for Evidence {
    fn clone(&self) -> (r: Evidence)
        ensures
            r@ == self@,
    {
        match self {
            Evidence::Block { a, b } => Evidence::Block { a: a.clone(), b: b.clone() },
            Evidence::Vote { a, b } => Evidence::Vote { a: a.clone(), b: b.clone() },
        }
    }
}

/// Two hashes in order, joined.
pub open spec fn hash_pair(x: Seq<char>, y: Seq<char>) -> Seq<char> {
    if text::lex_lt(text::utf8(y), text::utf8(x)) {
        y + "+"@ + x
    } else {
        x + "+"@ + y
    }
}

impl EvidenceV {
    /// What the offence is called.
    pub open spec fn label(self) -> Seq<char> {
        match self {
            EvidenceV::Block { .. } => "double-sign"@,
            EvidenceV::Vote { .. } => "double-vote"@,
        }
    }

    /// The height of the offence.
    pub open spec fn height(self) -> u64 {
        match self {
            EvidenceV::Block { a, .. } => a.height,
            EvidenceV::Vote { a, .. } => a.height,
        }
    }

    /// Who is accused.
    pub open spec fn accused(self) -> Seq<char> {
        match self {
            EvidenceV::Block { a, .. } => a.producer,
            EvidenceV::Vote { a, .. } => match a.voter() {
                Some(v) => v,
                None => ""@,
            },
        }
    }

    /// The two conflicting hashes, in order.
    pub open spec fn hashes(self) -> Seq<char> {
        match self {
            EvidenceV::Block { a, b } => hash_pair(a.hash, b.hash),
            EvidenceV::Vote { a, b } => hash_pair(a.hash, b.hash),
        }
    }

    /// Deterministic id, so one offence is slashed once.
    pub open spec fn id(self) -> Seq<char> {
        self.label() + ":"@ + text::dec(self.height() as nat) + ":"@ + self.accused() + ":"@
            + self.hashes()
    }

    /// Verdict on the proof alone: the offender, or what is wrong with it.
    pub open spec fn verdict(self) -> Result<Seq<char>, Seq<char>> {
        match self {
            EvidenceV::Block { a, b } => if a.height != b.height {
                Err("evidence heights differ"@)
            } else if a.height == 0 {
                Err("genesis cannot equivocate"@)
            } else if a.hash == b.hash {
                Err("both headers are the same block"@)
            } else if a.producer != b.producer || a.producer_pubkey != b.producer_pubkey {
                Err("headers were sealed by different validators"@)
            } else if !a.produced() || !b.produced() {
                Err("header signature does not verify"@)
            } else {
                Ok(a.producer)
            },
            EvidenceV::Vote { a, b } => if a.height != b.height {
                Err("evidence heights differ"@)
            } else if a.height == 0 {
                Err("no votes at genesis"@)
            } else if a.hash == b.hash {
                Err("both votes cover the same block"@)
            } else if a.voter_pubkey != b.voter_pubkey {
                Err("votes came from different validators"@)
            } else if !a.signed() || !b.signed() {
                Err("vote signature does not verify"@)
            } else {
                match a.voter() {
                    Some(v) => Ok(v),
                    None => Err("invalid voter public key"@),
                }
            },
        }
    }
}

/// The same offence has one id, whichever of the two objects comes first.
pub proof fn law_evidence_id_is_symmetric(a: BlockV, b: BlockV, x: VoteV, y: VoteV)
    requires
        a.height == b.height,
        a.producer == b.producer,
        x.height == y.height,
        x.voter_pubkey == y.voter_pubkey,
    ensures
        (EvidenceV::Block { a, b }).id() == (EvidenceV::Block { a: b, b: a }).id(),
        (EvidenceV::Vote { a: x, b: y }).id() == (EvidenceV::Vote { a: y, b: x }).id(),
{
    lemma_hash_pair(a.hash, b.hash);
    lemma_hash_pair(x.hash, y.hash);
}

proof fn lemma_hash_pair(x: Seq<char>, y: Seq<char>)
    ensures
        hash_pair(x, y) == hash_pair(y, x),
{
    if text::lex_lt(text::utf8(x), text::utf8(y)) && text::lex_lt(text::utf8(y), text::utf8(x)) {
        text::lemma_lex_transitive(text::utf8(x), text::utf8(y), text::utf8(x));
        text::lemma_lex_irreflexive(text::utf8(x));
    }
    if text::utf8(x) == text::utf8(y) {
        text::lemma_utf8_injective(x, y);
    } else {
        text::lemma_lex_total(text::utf8(x), text::utf8(y));
    }
}

/// Only the key holder can be found guilty: whoever a proof names signed both
/// objects, and the two are different objects of one height.
pub proof fn law_verdict_names_the_signer(e: EvidenceV)
    requires
        e.verdict() is Ok,
    ensures
        e.height() > 0,
        match e {
            EvidenceV::Block { a, b } => {
                &&& a.produced() && b.produced()
                &&& a.hash != b.hash && a.height == b.height
                &&& crypto::address_of_hex(a.producer_pubkey) == Some(e.verdict()->Ok_0)
                &&& b.producer_pubkey == a.producer_pubkey
            },
            EvidenceV::Vote { a, b } => {
                &&& a.signed() && b.signed()
                &&& a.hash != b.hash && a.height == b.height
                &&& crypto::address_of_hex(a.voter_pubkey) == Some(e.verdict()->Ok_0)
                &&& b.voter_pubkey == a.voter_pubkey
            },
        },
{
}

/// Two hashes in order, joined.
fn join_hashes(x: &str, y: &str) -> (r: String)
    ensures
        r@ == hash_pair(x@, y@),
{
    let (first, second) = if text::before(y, x) {
        (y, x)
    } else {
        (x, y)
    };
    let mut s = text::copy(first);
    s.append("+");
    s.append(second);
    s
}

impl Evidence {
    /// What the offence is called.
    pub fn label(&self) -> (r: &'static str)
        ensures
            r@ == self@.label(),
    {
        match self {
            Evidence::Block { .. } => "double-sign",
            Evidence::Vote { .. } => "double-vote",
        }
    }

    /// The height of the offence.
    pub fn height(&self) -> (r: u64)
        ensures
            r == self@.height(),
    {
        match self {
            Evidence::Block { a, .. } => a.height,
            Evidence::Vote { a, .. } => a.height,
        }
    }

    /// Deterministic id, so one offence is slashed once.
    pub fn id(&self) -> (r: String)
        ensures
            r@ == self@.id(),
    {
        let (accused, hashes) = match self {
            Evidence::Block { a, b } => (
                a.producer.clone(),
                join_hashes(a.hash.as_str(), b.hash.as_str()),
            ),
            Evidence::Vote { a, b } => (
                match a.voter() {
                    Some(v) => v,
                    None => text::copy(""),
                },
                join_hashes(a.hash.as_str(), b.hash.as_str()),
            ),
        };
        let mut s = text::copy(self.label());
        s.append(":");
        text::push_dec(&mut s, self.height() as u128);
        s.append(":");
        s.append(accused.as_str());
        s.append(":");
        s.append(hashes.as_str());
        s
    }

    /// Checks that the proof stands on its own and returns the offender's address.
    pub fn verify(&self) -> (r: Result<String, String>)
        ensures
            crate::tokens::agrees_text(r, self@.verdict()),
    {
        match self {
            Evidence::Block { a, b } => {
                if a.height != b.height {
                    return Err(text::copy("evidence heights differ"));
                }
                if a.height == 0 {
                    return Err(text::copy("genesis cannot equivocate"));
                }
                if text::same(a.hash.as_str(), b.hash.as_str()) {
                    return Err(text::copy("both headers are the same block"));
                }
                if !text::same(a.producer.as_str(), b.producer.as_str()) || !text::same(
                    a.producer_pubkey.as_str(),
                    b.producer_pubkey.as_str(),
                ) {
                    return Err(text::copy("headers were sealed by different validators"));
                }
                if !a.is_authentic() || !b.is_authentic() {
                    return Err(text::copy("header signature does not verify"));
                }
                Ok(a.producer.clone())
            },
            Evidence::Vote { a, b } => {
                if a.height != b.height {
                    return Err(text::copy("evidence heights differ"));
                }
                if a.height == 0 {
                    return Err(text::copy("no votes at genesis"));
                }
                if text::same(a.hash.as_str(), b.hash.as_str()) {
                    return Err(text::copy("both votes cover the same block"));
                }
                if !text::same(a.voter_pubkey.as_str(), b.voter_pubkey.as_str()) {
                    return Err(text::copy("votes came from different validators"));
                }
                if !a.verify_signature() || !b.verify_signature() {
                    return Err(text::copy("vote signature does not verify"));
                }
                match a.voter() {
                    Some(v) => Ok(v),
                    None => Err(text::copy("invalid voter public key")),
                }
            },
        }
    }
}


// ---------------------------------------------------------------- equivocation

/// Burn percentage for an equivocation.
pub open spec fn burn_pct(offender_stake: nat, total_stake: nat) -> nat {
    if total_stake == 0 {
        types::EQUIVOCATION_MIN_BURN_PCT as nat
    } else {
        let share = types::cap128(offender_stake * 100) as nat / total_stake;
        let correlated = share * types::EQUIVOCATION_CORRELATION_FACTOR as nat;
        if correlated < types::EQUIVOCATION_MIN_BURN_PCT {
            types::EQUIVOCATION_MIN_BURN_PCT as nat
        } else if correlated > 100 {
            100
        } else {
            correlated
        }
    }
}

/// Burn percentage for an equivocation: a floor, plus a correlation term based on the
/// offender's share of total stake, capped at all of it.
pub fn equivocation_burn_pct(offender_stake: u128, total_stake: u128) -> (r: u128)
    ensures
        r == burn_pct(offender_stake as nat, total_stake as nat),
        5 <= r <= 100,
{
    if total_stake == 0 {
        return types::EQUIVOCATION_MIN_BURN_PCT;
    }
    let scaled: u128 = match offender_stake.checked_mul(100) {
        Some(n) => n,
        None => u128::MAX,
    };
    let share: u128 = scaled / total_stake;
    if share > 100 {
        return 100;
    }
    let correlated: u128 = share * types::EQUIVOCATION_CORRELATION_FACTOR;
    if correlated < types::EQUIVOCATION_MIN_BURN_PCT {
        types::EQUIVOCATION_MIN_BURN_PCT
    } else if correlated > 100 {
        100
    } else {
        correlated
    }
}

/// The burn stays between the floor and everything, and a larger validator never
/// burns a smaller share.
pub proof fn law_burn_is_bounded_and_monotone(a: nat, b: nat, total: nat)
    requires
        a <= b,
    ensures
        5 <= burn_pct(a, total) <= 100,
        burn_pct(a, total) <= burn_pct(b, total),
{
    if total > 0 {
        vstd::arithmetic::div_mod::lemma_div_is_ordered(
            types::cap128(a * 100) as int,
            types::cap128(b * 100) as int,
            total as int,
        );
    }
}

/// `a * num / den` for a proper fraction, without overflow.
fn fraction(a: u128, num: u128, den: u128) -> (r: u128)
    requires
        num <= den,
        0 < den <= 1_000_000,
    ensures
        r == (a as nat) * (num as nat) / (den as nat),
        r <= a,
{
    let q: u128 = a / den;
    let m: u128 = a % den;
    proof {
        let (an, nn, dn) = (a as int, num as int, den as int);
        let (qn, mn) = (q as int, m as int);
        vstd::arithmetic::div_mod::lemma_fundamental_div_mod(an, dn);
        assert(mn * nn < dn * 1_000_000) by (nonlinear_arith)
            requires
                0 <= mn < dn,
                0 <= nn <= 1_000_000,
        ;
        assert(mn * nn <= 1_000_000_000_000) by (nonlinear_arith)
            requires
                0 <= mn < 1_000_000,
                0 <= nn <= 1_000_000,
        ;
        assert(qn * nn <= an) by (nonlinear_arith)
            requires
                an == dn * qn + mn,
                0 <= nn <= dn,
                0 <= mn,
                0 <= qn,
        ;
        let k = mn * nn / dn;
        let r = mn * nn % dn;
        vstd::arithmetic::div_mod::lemma_fundamental_div_mod(mn * nn, dn);
        assert(an * nn == (qn * nn + k) * dn + r) by (nonlinear_arith)
            requires
                an == dn * qn + mn,
                mn * nn == dn * k + r,
        ;
        vstd::arithmetic::div_mod::lemma_fundamental_div_mod_converse(
            an * nn,
            dn,
            qn * nn + k,
            r,
        );
        assert(qn * nn + k <= an) by (nonlinear_arith)
            requires
                an == dn * qn + mn,
                mn * nn == dn * k + r,
                0 <= nn <= dn,
                0 <= r,
                0 <= mn,
                0 <= qn,
                0 < dn,
        ;
    }
    q * num + m * num / den
}

/// What a percentage takes of an amount.
pub open spec fn pct_of(amount: nat, pct: nat) -> nat {
    amount * pct / 100
}

/// Locked amounts with a percentage taken off; what is left empty disappears.
pub open spec fn cut_unbonds(u: Seq<Unbond>, pct: nat) -> Seq<Unbond>
    decreases u.len(),
{
    if u.len() == 0 {
        u
    } else {
        let rest = cut_unbonds(u.drop_last(), pct);
        let left = (u.last().amount - pct_of(u.last().amount as nat, pct)) as u128;
        if left > 0 {
            rest.push(Unbond { amount: left, release_height: u.last().release_height })
        } else {
            rest
        }
    }
}

/// What a percentage takes of locked amounts.
pub open spec fn cut_sum(u: Seq<Unbond>, pct: nat) -> nat
    decreases u.len(),
{
    if u.len() == 0 {
        0
    } else {
        cut_sum(u.drop_last(), pct) + pct_of(u.last().amount as nat, pct)
    }
}

/// What an equivocation takes of an account.
pub open spec fn taken(a: AccountV, pct: nat) -> nat {
    pct_of(a.staked as nat, pct) + cut_sum(a.unbonding, pct)
}

/// An account after an equivocation: bonded and locked stake cut, and removed for ever.
pub open spec fn punished(a: AccountV, pct: nat) -> AccountV {
    AccountV {
        staked: (a.staked - pct_of(a.staked as nat, pct)) as u128,
        unbonding: cut_unbonds(a.unbonding, pct),
        penalties: Penalties {
            tombstoned: true,
            jailed_until: types::TOMBSTONE_HEIGHT,
            jail_fault: true,
            slashed: types::cap128(a.penalties.slashed as nat + types::cap128(taken(a, pct)) as nat),
            ..a.penalties
        },
        ..a
    }
}

/// The reporter's cut: nothing for reporting oneself.
pub open spec fn bounty_of(burned: nat, reporter: Seq<char>, offender: Seq<char>) -> nat {
    if reporter == offender {
        0
    } else {
        pct_of(burned, types::REPORTER_BOUNTY_PCT as nat)
    }
}

/// Burn percentage of an offender.
pub open spec fn pct_for(db: Db, offender: Seq<char>) -> nat {
    burn_pct(
        state::account_of(db, offender).staked as nat,
        types::cap128(state::staked_of(state::stakers_of(db))) as nat,
    )
}

/// The record of an equivocation.
pub open spec fn record_of(
    db: Db,
    height: u64,
    reporter: Seq<char>,
    e: EvidenceV,
    offender: Seq<char>,
) -> SlashV {
    let cut = types::cap128(taken(state::account_of(db, offender), pct_for(db, offender))) as nat;
    let bounty = bounty_of(cut, reporter, offender);
    SlashV {
        id: e.id(),
        offence: e.label(),
        offender,
        offence_height: e.height(),
        applied_height: height,
        burned: (cut - bounty) as u128,
        bounty: bounty as u128,
        reporter,
        tombstoned: true,
        jailed_until: types::TOMBSTONE_HEIGHT,
    }
}

/// The database after an equivocation is punished.
pub open spec fn punished_db(
    db: Db,
    height: u64,
    reporter: Seq<char>,
    e: EvidenceV,
    offender: Seq<char>,
) -> Db {
    let rec = record_of(db, height, reporter, e, offender);
    let d = state::with_account(
        db,
        offender,
        punished(state::account_of(db, offender), pct_for(db, offender)),
    );
    let r = state::account_of(d, reporter);
    let g = if rec.bounty > 0 {
        state::with_account(
            d,
            reporter,
            AccountV { balance: staking::capped_sum(r.balance, rec.bounty as nat), ..r },
        )
    } else {
        d
    };
    state::with_slash(g, rec)
}

/// Outcome of applying a report: its record and the database, or why not.
pub open spec fn reported(
    db: Db,
    height: u64,
    reporter: Seq<char>,
    e: EvidenceV,
) -> Result<(SlashV, Db), Seq<char>> {
    match e.verdict() {
        Err(m) => Err(m),
        Ok(offender) => if state::slash_of(db, e.id()) is Some {
            Err("this offence has already been slashed"@)
        } else if state::account_of(db, offender).penalties.tombstoned {
            Err("validator is already tombstoned"@)
        } else {
            Ok(
                (
                    record_of(db, height, reporter, e, offender),
                    punished_db(db, height, reporter, e, offender),
                ),
            )
        },
    }
}

proof fn lemma_pct_within(n: nat, pct: nat)
    requires
        pct <= 100,
    ensures
        pct_of(n, pct) <= n,
{
    assert(n * pct <= n * 100) by (nonlinear_arith)
        requires
            pct <= 100,
    ;
    vstd::arithmetic::div_mod::lemma_div_is_ordered((n * pct) as int, (n * 100) as int, 100);
    vstd::arithmetic::div_mod::lemma_div_by_multiple(n as int, 100);
}

proof fn lemma_cut_conserves(u: Seq<Unbond>, pct: nat)
    requires
        pct <= 100,
    ensures
        types::unbond_sum(cut_unbonds(u, pct)) + cut_sum(u, pct) == types::unbond_sum(u),
    decreases u.len(),
{
    if u.len() > 0 {
        lemma_cut_conserves(u.drop_last(), pct);
        lemma_pct_within(u.last().amount as nat, pct);
        let rest = cut_unbonds(u.drop_last(), pct);
        let left = (u.last().amount - pct_of(u.last().amount as nat, pct)) as u128;
        if left > 0 {
            let x = Unbond { amount: left, release_height: u.last().release_height };
            assert(rest.push(x).drop_last() =~= rest);
        }
    }
}

/// Takes a percentage off locked amounts: what was taken and what is left.
fn cut_locked(u: &Vec<Unbond>, pct: u128) -> (r: (u128, Vec<Unbond>))
    requires
        pct <= 100,
    ensures
        r.0 == types::cap128(cut_sum(u@, pct as nat)),
        r.1@ == cut_unbonds(u@, pct as nat),
{
    let mut sum: u128 = 0;
    let mut keep: Vec<Unbond> = Vec::new();
    let mut i: usize = 0;
    assert(keep@ =~= cut_unbonds(u@.take(0), pct as nat));
    while i < u.len()
        invariant
            i <= u@.len(),
            pct <= 100,
            sum == types::cap128(cut_sum(u@.take(i as int), pct as nat)),
            keep@ == cut_unbonds(u@.take(i as int), pct as nat),
        decreases u@.len() - i,
    {
        proof {
            assert(u@.take(i + 1).drop_last() =~= u@.take(i as int));
            assert(u@.take(i + 1).last() == u@[i as int]);
        }
        let cut = fraction(u[i].amount, pct, 100);
        let left: u128 = u[i].amount - cut;
        sum = sum.saturating_add(cut);
        if left > 0 {
            keep.push(Unbond { amount: left, release_height: u[i].release_height });
        }
        i = i + 1;
    }
    assert(u@.take(u@.len() as int) =~= u@);
    (sum, keep)
}

/// Applies an equivocation slash: burns a share of the offender's bonded and locked
/// stake, pays the reporter a bounty out of the burn, and removes the validator for
/// ever.
pub fn apply_report(store: &mut Store, height: u64, reporter: &str, evidence: &Evidence) -> (r:
    Result<SlashRecord, String>)
    requires
        old(store).wf(),
    ensures
        state::follows(*old(store), *final(store)),
        match r {
            Ok(rec) => reported(old(store)@.db, height, reporter@, evidence@) == Ok::<
                (SlashV, Db),
                Seq<char>,
            >((rec@, final(store)@.db)),
            Err(e) => reported(old(store)@.db, height, reporter@, evidence@) == Err::<
                (SlashV, Db),
                Seq<char>,
            >(e@) && final(store)@.db == old(store)@.db,
        },
{
    let offender = match evidence.verify() {
        Ok(a) => a,
        Err(e) => {
            return Err(e);
        },
    };
    let id = evidence.id();
    if store.slash(id.as_str()).is_some() {
        return Err(text::copy("this offence has already been slashed"));
    }
    let mut acct = store.account(offender.as_str());
    if acct.penalties.tombstoned {
        return Err(text::copy("validator is already tombstoned"));
    }
    let ghost was = acct@;
    let pct = equivocation_burn_pct(acct.staked, store.total_staked());
    let from_stake = fraction(acct.staked, pct, 100);
    acct.staked = acct.staked - from_stake;
    let (from_locked, left) = cut_locked(&acct.unbonding, pct);
    acct.unbonding = left;
    let cut = from_stake.saturating_add(from_locked);
    acct.penalties.tombstoned = true;
    acct.penalties.jailed_until = types::TOMBSTONE_HEIGHT;
    acct.penalties.jail_fault = true;
    acct.penalties.slashed = acct.penalties.slashed.saturating_add(cut);
    assert(cut == types::cap128(taken(was, pct as nat)));
    assert(acct@ =~= punished(was, pct as nat));
    store.set_account(offender.as_str(), &acct);
    let bounty: u128 = if text::same(reporter, offender.as_str()) {
        0
    } else {
        fraction(cut, types::REPORTER_BOUNTY_PCT, 100)
    };
    if bounty > 0 {
        let mut r = store.account(reporter);
        r.balance = r.balance.saturating_add(bounty);
        store.set_account(reporter, &r);
    }
    let record = SlashRecord {
        id,
        offence: text::copy(evidence.label()),
        offender,
        offence_height: evidence.height(),
        applied_height: height,
        burned: cut - bounty,
        bounty,
        reporter: text::copy(reporter),
        tombstoned: true,
        jailed_until: types::TOMBSTONE_HEIGHT,
    };
    store.put_slash(&record);
    Ok(record)
}

/// A slash prints nothing: what leaves the offender is burned or paid to the reporter,
/// so the total supply falls by exactly what the record calls burned. The same
/// offence cannot be slashed again, and the offender is out for ever.
pub proof fn law_slash_conserves(db: Db, height: u64, reporter: Seq<char>, e: EvidenceV, again: u64)
    requires
        supply::sound(db),
        state::supply_of(db) <= u128::MAX,
        reported(db, height, reporter, e) is Ok,
    ensures
        ({
            let (rec, d) = reported(db, height, reporter, e)->Ok_0;
            let offender = e.verdict()->Ok_0;
            &&& supply::sound(d)
            &&& state::supply_of(d) + rec.burned == state::supply_of(db)
            &&& state::account_of(d, offender).penalties.tombstoned
            &&& !state::account_of(d, offender).active(again)
            &&& reported(d, again, reporter, e) is Err
        }),
{
    let offender = e.verdict()->Ok_0;
    let a = state::account_of(db, offender);
    let pct = pct_for(db, offender);
    let rec = record_of(db, height, reporter, e, offender);
    law_burn_is_bounded_and_monotone(
        a.staked as nat,
        a.staked as nat,
        types::cap128(state::staked_of(state::stakers_of(db))) as nat,
    );
    lemma_pct_within(a.staked as nat, pct);
    lemma_cut_conserves(a.unbonding, pct);
    supply::lemma_account_within_supply(db, offender);
    let p = punished(a, pct);
    assert(p.worth() + taken(a, pct) == a.worth());
    supply::lemma_supply_after(db, offender, p);
    let d = state::with_account(db, offender, p);
    let cut = types::cap128(taken(a, pct)) as nat;
    lemma_pct_within(cut, 10);
    supply::lemma_account_within_supply(d, reporter);
    let r = state::account_of(d, reporter);
    let q = AccountV { balance: staking::capped_sum(r.balance, rec.bounty as nat), ..r };
    supply::lemma_supply_after(d, reporter, q);
    supply::lemma_account_after(db, offender, p, offender);
    supply::lemma_account_after(d, reporter, q, offender);
    let g = if rec.bounty > 0 {
        state::with_account(d, reporter, q)
    } else {
        d
    };
    let f = state::with_slash(g, rec);
    assert(f[11].contains_key(text::utf8(e.id())));
    supply::lemma_supply_frame(g, f);
}

// ---------------------------------------------------------------- reports

/// Verdict on a decoded report.
pub open spec fn reportable(db: Db, height: u64, e: EvidenceV) -> Result<(), Seq<char>> {
    match e.verdict() {
        Err(m) => Err(m),
        Ok(offender) => {
            let a = state::account_of(db, offender);
            if e.height() > height {
                Err("evidence is from the future"@)
            } else if height - e.height() > types::EVIDENCE_MAX_AGE_BLOCKS {
                Err("evidence is too old to punish"@)
            } else if state::slash_of(db, e.id()) is Some {
                Err("this offence has already been slashed"@)
            } else if a.penalties.tombstoned {
                Err("validator is already tombstoned"@)
            } else if a.staked == 0 && a.locked() == 0 {
                Err("offender has no stake left to slash"@)
            } else {
                Ok(())
            }
        },
    }
}

/// Checks a decoded report without writing anything.
pub fn check_evidence(store: &Store, height: u64, evidence: &Evidence) -> (r: Result<(), String>)
    requires
        store.wf(),
    ensures
        state::agrees(r, reportable(store@.db, height, evidence@)),
{
    let offender = match evidence.verify() {
        Ok(a) => a,
        Err(e) => {
            return Err(e);
        },
    };
    if evidence.height() > height {
        return Err(text::copy("evidence is from the future"));
    }
    if height - evidence.height() > types::EVIDENCE_MAX_AGE_BLOCKS {
        return Err(text::copy("evidence is too old to punish"));
    }
    if store.slash(evidence.id().as_str()).is_some() {
        return Err(text::copy("this offence has already been slashed"));
    }
    let acct = store.account(offender.as_str());
    if acct.penalties.tombstoned {
        return Err(text::copy("validator is already tombstoned"));
    }
    if acct.staked == 0 && acct.unbonding_total() == 0 {
        return Err(text::copy("offender has no stake left to slash"));
    }
    Ok(())
}

/// Largest evidence a report may carry, in bytes.
pub const MAX_EVIDENCE_BYTES: usize = 65_536;

/// The number a document holds at a pointer, written as text or as a number.
pub open spec fn json_amount(raw: Seq<u8>, path: Seq<char>) -> Option<nat> {
    match json::json_text_at(raw, path) {
        Some(s) => text::parsed_upto(s, u128::MAX as nat),
        None => match json::json_number_at(raw, path) {
            Some(n) => Some(n as nat),
            None => None,
        },
    }
}

/// The header a document holds under a name.
pub open spec fn json_header(raw: Seq<u8>, at: Seq<char>) -> Option<BlockV> {
    match (
        json::json_number_at(raw, at + "/height"@),
        json::json_text_at(raw, at + "/parent_hash"@),
        json_amount(raw, at + "/timestamp_ms"@),
        json::json_text_at(raw, at + "/state_root"@),
        json::json_text_at(raw, at + "/txs_root"@),
        json::json_text_at(raw, at + "/producer"@),
        json::json_text_at(raw, at + "/producer_pubkey"@),
        json::json_text_at(raw, at + "/signature"@),
        json::json_text_at(raw, at + "/hash"@),
    ) {
        (
            Some(height),
            Some(parent_hash),
            Some(ts),
            Some(state_root),
            Some(txs_root),
            Some(producer),
            Some(producer_pubkey),
            Some(signature),
            Some(hash),
        ) => Some(
            BlockV {
                height,
                parent_hash,
                timestamp_ms: ts as u128,
                state_root,
                txs_root,
                producer,
                producer_pubkey,
                transactions: Seq::<TxV>::empty(),
                signature,
                hash,
            },
        ),
        _ => None,
    }
}

/// The string a document holds at a pointer; one that is missing is empty.
pub open spec fn json_text_or_empty(raw: Seq<u8>, path: Seq<char>) -> Option<Seq<char>> {
    match json::json_text_at(raw, path) {
        Some(s) => Some(s),
        None => if json::json_present(raw, path) {
            None
        } else {
            Some(""@)
        },
    }
}

/// The precommit a document holds under a name; the signature may be missing.
pub open spec fn json_vote(raw: Seq<u8>, at: Seq<char>) -> Option<VoteV> {
    match (
        json::json_number_at(raw, at + "/height"@),
        json::json_text_at(raw, at + "/hash"@),
        json::json_text_at(raw, at + "/voter_pubkey"@),
        json_text_or_empty(raw, at + "/signature"@),
    ) {
        (Some(height), Some(hash), Some(voter_pubkey), Some(signature)) => Some(
            VoteV { height, hash, voter_pubkey, signature },
        ),
        _ => None,
    }
}

/// The evidence a document holds.
pub open spec fn json_evidence(raw: Seq<u8>) -> Option<EvidenceV> {
    match json::json_text_at(raw, "/kind"@) {
        Some(k) => if k == "block"@ {
            match (json_header(raw, "/a"@), json_header(raw, "/b"@)) {
                (Some(a), Some(b)) => Some(EvidenceV::Block { a, b }),
                _ => None,
            }
        } else if k == "vote"@ {
            match (json_vote(raw, "/a"@), json_vote(raw, "/b"@)) {
                (Some(a), Some(b)) => Some(EvidenceV::Vote { a, b }),
                _ => None,
            }
        } else {
            None
        },
        None => None,
    }
}

/// The evidence a payload carries, or what is wrong with it. Of a document that holds no
/// evidence nothing more is said than that.
pub open spec fn decoded(p: Option<PayloadV>) -> Result<EvidenceV, Seq<char>> {
    match p {
        None => Err("report carries no evidence"@),
        Some(p) => if p.args.len() == 0 {
            Err("report carries no evidence"@)
        } else {
            match crypto::unhex(p.args) {
                None => Err("evidence is not valid hex"@),
                Some(raw) => if raw.len() > MAX_EVIDENCE_BYTES {
                    Err("evidence too large"@)
                } else {
                    match json_evidence(raw) {
                        Some(e) => Ok(e),
                        None => Err("bad evidence: not two conflicting blocks or votes"@),
                    }
                },
            }
        },
    }
}

/// Verdict on the report a payload carries.
pub open spec fn report_verdict(db: Db, height: u64, p: Option<PayloadV>) -> Result<
    EvidenceV,
    Seq<char>,
> {
    match decoded(p) {
        Err(m) => Err(m),
        Ok(e) => match reportable(db, height, e) {
            Err(m) => Err(m),
            Ok(_) => Ok(e),
        },
    }
}

/// A path below a name.
fn under(at: &str, key: &str) -> (r: String)
    ensures
        r@ == at@ + key@,
{
    let mut s = text::copy(at);
    s.append(key);
    s
}

/// The string at a path below a name.
fn field_text(raw: &Vec<u8>, at: &str, key: &str) -> (r: Option<String>)
    ensures
        match r {
            Some(s) => json::json_text_at(raw@, at@ + key@) == Some(s@),
            None => json::json_text_at(raw@, at@ + key@) is None,
        },
{
    json::text_at(raw.as_slice(), under(at, key).as_str())
}

/// The string at a path below a name; one that is missing is empty.
fn field_text_or_empty(raw: &Vec<u8>, at: &str, key: &str) -> (r: Option<String>)
    ensures
        match r {
            Some(s) => json_text_or_empty(raw@, at@ + key@) == Some(s@),
            None => json_text_or_empty(raw@, at@ + key@) is None,
        },
{
    match field_text(raw, at, key) {
        Some(s) => Some(s),
        None => if json::present_at(raw.as_slice(), under(at, key).as_str()) {
            None
        } else {
            Some(text::copy(""))
        },
    }
}

/// The number at a path below a name.
fn field_number(raw: &Vec<u8>, at: &str, key: &str) -> (r: Option<u64>)
    ensures
        r == json::json_number_at(raw@, at@ + key@),
{
    json::number_at(raw.as_slice(), under(at, key).as_str())
}

/// The amount at a path below a name.
fn field_amount(raw: &Vec<u8>, at: &str, key: &str) -> (r: Option<u128>)
    ensures
        match r {
            Some(n) => json_amount(raw@, at@ + key@) == Some(n as nat),
            None => json_amount(raw@, at@ + key@) is None,
        },
{
    match field_text(raw, at, key) {
        Some(s) => text::parse_u128(s.as_str()),
        None => match field_number(raw, at, key) {
            Some(n) => Some(n as u128),
            None => None,
        },
    }
}

/// Reads a header.
fn read_header(raw: &Vec<u8>, at: &str) -> (r: Option<HeaderProof>)
    ensures
        match r {
            Some(h) => json_header(raw@, at@) == Some(h@),
            None => json_header(raw@, at@) is None,
        },
{
    match (
        field_number(raw, at, "/height"),
        field_text(raw, at, "/parent_hash"),
        field_amount(raw, at, "/timestamp_ms"),
        field_text(raw, at, "/state_root"),
        field_text(raw, at, "/txs_root"),
        field_text(raw, at, "/producer"),
        field_text(raw, at, "/producer_pubkey"),
        field_text(raw, at, "/signature"),
        field_text(raw, at, "/hash"),
    ) {
        (
            Some(height),
            Some(parent_hash),
            Some(timestamp_ms),
            Some(state_root),
            Some(txs_root),
            Some(producer),
            Some(producer_pubkey),
            Some(signature),
            Some(hash),
        ) => Some(
            HeaderProof {
                height,
                parent_hash,
                timestamp_ms,
                state_root,
                txs_root,
                producer,
                producer_pubkey,
                signature,
                hash,
            },
        ),
        _ => None,
    }
}

/// Reads a precommit.
fn read_vote(raw: &Vec<u8>, at: &str) -> (r: Option<Vote>)
    ensures
        match r {
            Some(v) => json_vote(raw@, at@) == Some(v@),
            None => json_vote(raw@, at@) is None,
        },
{
    match (
        field_number(raw, at, "/height"),
        field_text(raw, at, "/hash"),
        field_text(raw, at, "/voter_pubkey"),
        field_text_or_empty(raw, at, "/signature"),
    ) {
        (Some(height), Some(hash), Some(voter_pubkey), Some(signature)) => Some(
            Vote { height, hash, voter_pubkey, signature },
        ),
        _ => None,
    }
}

/// Reads evidence out of a document.
pub fn read_evidence(raw: &Vec<u8>) -> (r: Option<Evidence>)
    ensures
        match r {
            Some(e) => json_evidence(raw@) == Some(e@),
            None => json_evidence(raw@) is None,
        },
{
    match json::text_at(raw.as_slice(), "/kind") {
        Some(k) => if text::same(k.as_str(), "block") {
            match (read_header(raw, "/a"), read_header(raw, "/b")) {
                (Some(a), Some(b)) => Some(Evidence::Block { a, b }),
                _ => None,
            }
        } else if text::same(k.as_str(), "vote") {
            match (read_vote(raw, "/a"), read_vote(raw, "/b")) {
                (Some(a), Some(b)) => Some(Evidence::Vote { a, b }),
                _ => None,
            }
        } else {
            None
        },
        None => None,
    }
}

/// The evidence a payload carries.
pub fn decode(payload: &Option<Payload>) -> (r: Result<Evidence, String>)
    ensures
        match r {
            Ok(e) => decoded(types::payload_view(*payload)) == Ok::<EvidenceV, Seq<char>>(e@),
            Err(m) => decoded(types::payload_view(*payload)) == Err::<EvidenceV, Seq<char>>(m@),
        },
{
    match payload {
        None => Err(text::copy("report carries no evidence")),
        Some(p) => {
            if p.args.as_str().is_empty() {
                return Err(text::copy("report carries no evidence"));
            }
            match crypto::from_hex(p.args.as_str()) {
                None => Err(text::copy("evidence is not valid hex")),
                Some(raw) => {
                    if raw.len() > MAX_EVIDENCE_BYTES {
                        return Err(text::copy("evidence too large"));
                    }
                    match read_evidence(&raw) {
                        Some(e) => Ok(e),
                        None => Err(
                            text::copy("bad evidence: not two conflicting blocks or votes"),
                        ),
                    }
                },
            }
        },
    }
}

/// Validates a report before it enters the mempool or a block.
pub fn check_report(store: &Store, height: u64, payload: &Option<Payload>) -> (r: Result<
    Evidence,
    String,
>)
    requires
        store.wf(),
    ensures
        match r {
            Ok(e) => report_verdict(store@.db, height, types::payload_view(*payload)) == Ok::<
                EvidenceV,
                Seq<char>,
            >(e@),
            Err(m) => report_verdict(store@.db, height, types::payload_view(*payload)) == Err::<
                EvidenceV,
                Seq<char>,
            >(m@),
        },
{
    match decode(payload) {
        Err(m) => Err(m),
        Ok(e) => match check_evidence(store, height, &e) {
            Err(m) => Err(m),
            Ok(_) => Ok(e),
        },
    }
}

/// A header as members of an object. The timestamp is written as text and read as text or
/// as a number: evidence is tagged with its kind, and readers of tagged objects do not take
/// numbers of 128 bits.
pub open spec fn header_part(name: Seq<char>, h: BlockV) -> PartV {
    PartV {
        name,
        texts: seq![
            ("parent_hash"@, h.parent_hash),
            ("timestamp_ms"@, text::dec(h.timestamp_ms as nat)),
            ("state_root"@, h.state_root),
            ("txs_root"@, h.txs_root),
            ("producer"@, h.producer),
            ("producer_pubkey"@, h.producer_pubkey),
            ("signature"@, h.signature),
            ("hash"@, h.hash),
        ],
        numbers: seq![("height"@, h.height)],
    }
}

/// A precommit as members of an object.
pub open spec fn vote_part(name: Seq<char>, v: VoteV) -> PartV {
    PartV {
        name,
        texts: seq![
            ("hash"@, v.hash),
            ("voter_pubkey"@, v.voter_pubkey),
            ("signature"@, v.signature),
        ],
        numbers: seq![("height"@, v.height)],
    }
}

/// The kind of evidence as a member.
pub open spec fn kind_member(e: EvidenceV) -> Seq<(Seq<char>, Seq<char>)> {
    seq![
        (
            "kind"@,
            match e {
                EvidenceV::Block { .. } => "block"@,
                EvidenceV::Vote { .. } => "vote"@,
            },
        ),
    ]
}

/// The two sides of evidence as members.
pub open spec fn side_members(e: EvidenceV) -> Seq<PartV> {
    match e {
        EvidenceV::Block { a, b } => seq![header_part("a"@, a), header_part("b"@, b)],
        EvidenceV::Vote { a, b } => seq![vote_part("a"@, a), vote_part("b"@, b)],
    }
}

/// Evidence as a JSON object.
pub open spec fn evidence_json(e: EvidenceV) -> Seq<char> {
    json::json_written(kind_member(e), side_members(e))
}

/// Names of members are tidy.
proof fn lemma_names_are_tidy(n: Seq<char>, h: BlockV, v: VoteV, e: EvidenceV)
    ensures
        json::tidy(json::part_names(header_part(n, h))),
        json::tidy(json::part_names(vote_part(n, v))),
        json::tidy(json::names_of(kind_member(e), side_members(e))),
{
    reveal_strlit("parent_hash");
    reveal_strlit("timestamp_ms");
    reveal_strlit("state_root");
    reveal_strlit("txs_root");
    reveal_strlit("producer");
    reveal_strlit("producer_pubkey");
    reveal_strlit("signature");
    reveal_strlit("hash");
    reveal_strlit("height");
    reveal_strlit("voter_pubkey");
    reveal_strlit("kind");
    reveal_strlit("a");
    reveal_strlit("b");
    let p = json::part_names(header_part(n, h));
    assert("txs_root"@[0] == 't' && "producer"@[0] == 'p');
    assert(p =~= seq![
        "parent_hash"@,
        "timestamp_ms"@,
        "state_root"@,
        "txs_root"@,
        "producer"@,
        "producer_pubkey"@,
        "signature"@,
        "hash"@,
        "height"@,
    ]);
    assert(p[0].len() == 11 && p[1].len() == 12 && p[2].len() == 10 && p[3].len() == 8);
    assert(p[4].len() == 8 && p[5].len() == 15 && p[6].len() == 9 && p[7].len() == 4);
    assert(p[8].len() == 6 && p[3][0] != p[4][0]);
    assert(json::plain(p[0]) && json::plain(p[1]) && json::plain(p[2]) && json::plain(p[3]));
    assert(json::plain(p[4]) && json::plain(p[5]) && json::plain(p[6]) && json::plain(p[7]));
    assert(json::plain(p[8]));
    assert(json::tidy(p));
    let q = json::part_names(vote_part(n, v));
    assert(q =~= seq!["hash"@, "voter_pubkey"@, "signature"@, "height"@]);
    assert(q[0].len() == 4 && q[1].len() == 12 && q[2].len() == 9 && q[3].len() == 6);
    assert(json::plain(q[0]) && json::plain(q[1]) && json::plain(q[2]) && json::plain(q[3]));
    assert(json::tidy(q));
    let r = json::names_of(kind_member(e), side_members(e));
    assert("a"@[0] == 'a' && "b"@[0] == 'b');
    assert(r =~= seq!["kind"@, "a"@, "b"@]);
}

/// A header reads back from its members.
proof fn lemma_header_reads(raw: Seq<u8>, ps: Seq<PartV>, i: int, at: Seq<char>, h: BlockV)
    requires
        json::reads_as(raw, Seq::empty(), ps),
        0 <= i < ps.len(),
        ps[i] == header_part(ps[i].name, h),
        at == json::member(ps[i].name),
        h.transactions == Seq::<TxV>::empty(),
    ensures
        json_header(raw, at) == Some(h),
{
    reveal_strlit("/");
    reveal_strlit("parent_hash");
    reveal_strlit("timestamp_ms");
    reveal_strlit("state_root");
    reveal_strlit("txs_root");
    reveal_strlit("producer");
    reveal_strlit("producer_pubkey");
    reveal_strlit("signature");
    reveal_strlit("hash");
    reveal_strlit("height");
    reveal_strlit("/parent_hash");
    reveal_strlit("/timestamp_ms");
    reveal_strlit("/state_root");
    reveal_strlit("/txs_root");
    reveal_strlit("/producer");
    reveal_strlit("/producer_pubkey");
    reveal_strlit("/signature");
    reveal_strlit("/hash");
    reveal_strlit("/height");
    assert(json::member("parent_hash"@) =~= "/parent_hash"@);
    assert(json::member("timestamp_ms"@) =~= "/timestamp_ms"@);
    assert(json::member("state_root"@) =~= "/state_root"@);
    assert(json::member("txs_root"@) =~= "/txs_root"@);
    assert(json::member("producer"@) =~= "/producer"@);
    assert(json::member("producer_pubkey"@) =~= "/producer_pubkey"@);
    assert(json::member("signature"@) =~= "/signature"@);
    assert(json::member("hash"@) =~= "/hash"@);
    assert(json::member("height"@) =~= "/height"@);
    let t = ps[i].texts;
    assert(ps[i].texts[0] == ("parent_hash"@, h.parent_hash));
    assert(ps[i].texts[1] == ("timestamp_ms"@, text::dec(h.timestamp_ms as nat)));
    assert(ps[i].texts[2] == ("state_root"@, h.state_root));
    assert(ps[i].texts[3] == ("txs_root"@, h.txs_root));
    assert(ps[i].texts[4] == ("producer"@, h.producer));
    assert(ps[i].texts[5] == ("producer_pubkey"@, h.producer_pubkey));
    assert(ps[i].texts[6] == ("signature"@, h.signature));
    assert(ps[i].texts[7] == ("hash"@, h.hash));
    assert(ps[i].numbers[0] == ("height"@, h.height));
    text::lemma_parsed_dec(h.timestamp_ms as nat);
}

/// A precommit reads back from its members.
proof fn lemma_vote_reads(raw: Seq<u8>, ps: Seq<PartV>, i: int, at: Seq<char>, v: VoteV)
    requires
        json::reads_as(raw, Seq::empty(), ps),
        0 <= i < ps.len(),
        ps[i] == vote_part(ps[i].name, v),
        at == json::member(ps[i].name),
    ensures
        json_vote(raw, at) == Some(v),
{
    reveal_strlit("/");
    reveal_strlit("hash");
    reveal_strlit("voter_pubkey");
    reveal_strlit("signature");
    reveal_strlit("height");
    reveal_strlit("/hash");
    reveal_strlit("/voter_pubkey");
    reveal_strlit("/signature");
    reveal_strlit("/height");
    assert(json::member("hash"@) =~= "/hash"@);
    assert(json::member("voter_pubkey"@) =~= "/voter_pubkey"@);
    assert(json::member("signature"@) =~= "/signature"@);
    assert(json::member("height"@) =~= "/height"@);
    assert(ps[i].texts[0] == ("hash"@, v.hash));
    assert(ps[i].texts[1] == ("voter_pubkey"@, v.voter_pubkey));
    assert(ps[i].texts[2] == ("signature"@, v.signature));
    assert(ps[i].numbers[0] == ("height"@, v.height));
}

/// Evidence without bodies of blocks, as every proof carries it.
pub open spec fn bodiless(e: EvidenceV) -> bool {
    match e {
        EvidenceV::Block { a, b } => a.transactions.len() == 0 && b.transactions.len() == 0,
        EvidenceV::Vote { .. } => true,
    }
}

/// Evidence reads back from its members.
proof fn lemma_evidence_reads(raw: Seq<u8>, e: EvidenceV)
    requires
        json::reads_as(raw, kind_member(e), side_members(e)),
        bodiless(e),
    ensures
        json_evidence(raw) == Some(e),
{
    reveal_strlit("/");
    reveal_strlit("kind");
    reveal_strlit("/kind");
    reveal_strlit("a");
    reveal_strlit("b");
    reveal_strlit("/a");
    reveal_strlit("/b");
    reveal_strlit("block");
    reveal_strlit("vote");
    assert("block"@.len() != "vote"@.len());
    assert(json::member("kind"@) =~= "/kind"@);
    assert(json::member("a"@) =~= "/a"@);
    assert(json::member("b"@) =~= "/b"@);
    let t = kind_member(e);
    assert(t[0].0 == "kind"@);
    let ps = side_members(e);
    match e {
        EvidenceV::Block { a, b } => {
            assert(a.transactions =~= Seq::<TxV>::empty());
            assert(b.transactions =~= Seq::<TxV>::empty());
            lemma_header_reads(raw, ps, 0, "/a"@, a);
            lemma_header_reads(raw, ps, 1, "/b"@, b);
        },
        EvidenceV::Vote { a, b } => {
            lemma_vote_reads(raw, ps, 0, "/a"@, a);
            lemma_vote_reads(raw, ps, 1, "/b"@, b);
        },
    }
}

/// A member that is a string.
fn pair(key: &str, v: &str) -> (r: (String, String))
    ensures
        (r.0@, r.1@) == (key@, v@),
{
    (text::copy(key), text::copy(v))
}

/// A header as members of an object.
fn part_of_header(name: &str, h: &HeaderProof) -> (r: Part)
    ensures
        r@ == header_part(name@, h@),
{
    let texts: Vec<(String, String)> = vec![
        pair("parent_hash", h.parent_hash.as_str()),
        pair("timestamp_ms", text::decimal(h.timestamp_ms).as_str()),
        pair("state_root", h.state_root.as_str()),
        pair("txs_root", h.txs_root.as_str()),
        pair("producer", h.producer.as_str()),
        pair("producer_pubkey", h.producer_pubkey.as_str()),
        pair("signature", h.signature.as_str()),
        pair("hash", h.hash.as_str()),
    ];
    let numbers: Vec<(String, u64)> = vec![(text::copy("height"), h.height)];
    let r = Part { name: text::copy(name), texts, numbers };
    assert(r@.texts =~= header_part(name@, h@).texts);
    assert(r@.numbers =~= header_part(name@, h@).numbers);
    r
}

/// A precommit as members of an object.
fn part_of_vote(name: &str, v: &Vote) -> (r: Part)
    ensures
        r@ == vote_part(name@, v@),
{
    let texts: Vec<(String, String)> = vec![
        pair("hash", v.hash.as_str()),
        pair("voter_pubkey", v.voter_pubkey.as_str()),
        pair("signature", v.signature.as_str()),
    ];
    let numbers: Vec<(String, u64)> = vec![(text::copy("height"), v.height)];
    let r = Part { name: text::copy(name), texts, numbers };
    assert(r@.texts =~= vote_part(name@, v@).texts);
    assert(r@.numbers =~= vote_part(name@, v@).numbers);
    r
}

/// Evidence as a JSON object. It reads back as the same evidence.
pub fn write_evidence(e: &Evidence) -> (r: String)
    ensures
        r@ == evidence_json(e@),
        r@.len() > 0,
        json_evidence(text::utf8(r@)) == Some(e@),
{
    let (kind, parts): ((String, String), Vec<Part>) = match e {
        Evidence::Block { a, b } => (
            pair("kind", "block"),
            vec![part_of_header("a", a), part_of_header("b", b)],
        ),
        Evidence::Vote { a, b } => (
            pair("kind", "vote"),
            vec![part_of_vote("a", a), part_of_vote("b", b)],
        ),
    };
    let texts: Vec<(String, String)> = vec![kind];
    proof {
        assert(json::text_pairs(texts@) =~= kind_member(e@));
        assert(json::part_views(parts@) =~= side_members(e@));
        match e@ {
            EvidenceV::Block { a, b } => {
                lemma_names_are_tidy("a"@, a, arbitrary(), e@);
                lemma_names_are_tidy("b"@, b, arbitrary(), e@);
            },
            EvidenceV::Vote { a, b } => {
                lemma_names_are_tidy("a"@, arbitrary(), a, e@);
                lemma_names_are_tidy("b"@, arbitrary(), b, e@);
            },
        }
        assert forall|i: int| 0 <= i < parts@.len() implies json::tidy(
            json::part_names((#[trigger] parts@[i])@),
        ) by {
            assert(parts@[i]@ == json::part_views(parts@)[i]);
        }
    }
    let doc = json::write_members(&texts, &parts);
    proof {
        lemma_evidence_reads(text::utf8(doc@), e@);
    }
    doc
}

/// The payload that carries evidence.
pub open spec fn evidence_payload(e: EvidenceV) -> PayloadV {
    PayloadV {
        token: ""@,
        symbol: ""@,
        name: ""@,
        decimals: 0,
        mintable: false,
        code: ""@,
        args: crypto::hex_text(text::utf8(evidence_json(e))),
    }
}

/// Evidence as the payload of a report: hexadecimal JSON in the call input, covered by
/// the sender's signature like any other payload.
pub fn encode(evidence: &Evidence) -> (r: Payload)
    ensures
        r@ == evidence_payload(evidence@),
        match decoded(Some(r@)) {
            Ok(e) => e == evidence@,
            Err(m) => m == "evidence too large"@ && text::utf8(evidence_json(evidence@)).len()
                > MAX_EVIDENCE_BYTES,
        },
{
    let doc = write_evidence(evidence);
    proof {
        let raw = text::utf8(doc@);
        crypto::lemma_unhex_hex(raw);
        let none = Seq::<char>::empty();
        text::lemma_lossy_round_trip(doc@);
        text::lemma_lossy_round_trip(none);
        if raw.len() == 0 {
            assert(text::utf8(none).len() == 0);
            assert(raw =~= text::utf8(none));
        }
    }
    Payload {
        token: text::copy(""),
        symbol: text::copy(""),
        name: text::copy(""),
        decimals: 0,
        mintable: false,
        code: text::copy(""),
        args: crypto::to_hex(doc.as_str().as_bytes()),
    }
}

// ---------------------------------------------------------------- jail and liveness

/// Outcome of leaving a downtime jail.
pub open spec fn unjailed(db: Db, height: u64, address: Seq<char>) -> Result<Db, Seq<char>> {
    let a = state::account_of(db, address);
    if a.penalties.tombstoned {
        Err("tombstoned validators can never rejoin"@)
    } else if a.penalties.jailed_until == 0 {
        Err("validator is not jailed"@)
    } else if a.penalties.jailed_until > height {
        Err(
            "still jailed for "@ + text::dec((a.penalties.jailed_until - height) as nat)
                + " more blocks"@,
        )
    } else {
        Ok(
            state::with_account(
                db,
                address,
                AccountV {
                    penalties: Penalties { jailed_until: 0, missed_streak: 0, ..a.penalties },
                    ..a
                },
            ),
        )
    }
}

/// Leaves a downtime jail: only after it expired, and never after a tombstone.
pub fn apply_unjail(store: &mut Store, height: u64, address: &str) -> (r: Result<(), String>)
    requires
        old(store).wf(),
    ensures
        state::follows(*old(store), *final(store)),
        crate::tokens::wrote(r, unjailed(old(store)@.db, height, address@), final(store)@.db),
        r is Err ==> final(store)@.db == old(store)@.db,
{
    let mut acct = store.account(address);
    if acct.penalties.tombstoned {
        return Err(text::copy("tombstoned validators can never rejoin"));
    }
    if acct.penalties.jailed_until == 0 {
        return Err(text::copy("validator is not jailed"));
    }
    if acct.penalties.jailed_until > height {
        let mut s = text::copy("still jailed for ");
        text::push_dec(&mut s, (acct.penalties.jailed_until - height) as u128);
        s.append(" more blocks");
        return Err(s);
    }
    acct.penalties.jailed_until = 0;
    acct.penalties.missed_streak = 0;
    store.set_account(address, &acct);
    Ok(())
}

/// A count one higher, unless it is at its largest.
pub open spec fn bumped(n: u64) -> u64 {
    if n < u64::MAX {
        (n + 1) as u64
    } else {
        n
    }
}

/// Basis points of an amount.
pub open spec fn bps_of(amount: nat, bps: nat) -> nat {
    amount * bps / 10_000
}

/// An account charged with one missed slot.
pub open spec fn counted_miss(a: AccountV) -> AccountV {
    AccountV {
        penalties: Penalties {
            missed_slots: bumped(a.penalties.missed_slots),
            missed_streak: bumped(a.penalties.missed_streak),
            ..a.penalties
        },
        ..a
    }
}

/// A missed slot jails: downtime still jails, the streak is long enough, and the
/// validator is not out already.
pub open spec fn jails(a: AccountV, height: u64) -> bool {
    &&& height < types::NO_DOWNTIME_JAIL_HEIGHT
    &&& a.penalties.missed_streak >= types::DOWNTIME_JAIL_STREAK
    &&& !a.penalties.tombstoned
}

/// A missed slot leaks: the leak is on, the streak is long enough, and the validator
/// is not out already.
pub open spec fn leaks(a: AccountV, height: u64) -> bool {
    &&& height >= types::INACTIVITY_LEAK_ACTIVATION_HEIGHT
    &&& a.penalties.missed_streak >= types::INACTIVITY_LEAK_STREAK
    &&& !a.penalties.tombstoned
}

/// What a downtime jail burns: nothing the first time.
pub open spec fn jail_burn(a: AccountV) -> nat {
    if bumped(a.penalties.downtime_jails) > 1 {
        bps_of(a.staked as nat, types::DOWNTIME_REPEAT_BURN_BPS as nat)
    } else {
        0
    }
}

/// An account jailed for downtime.
pub open spec fn jailed_account(a: AccountV, height: u64) -> AccountV {
    let burn = jail_burn(a);
    AccountV {
        staked: (a.staked - burn) as u128,
        penalties: Penalties {
            missed_streak: 0,
            downtime_jails: bumped(a.penalties.downtime_jails),
            jailed_until: (height + types::DOWNTIME_JAIL_BLOCKS) as u64,
            jail_fault: false,
            slashed: types::cap128(a.penalties.slashed as nat + burn),
            ..a.penalties
        },
        ..a
    }
}

/// The record of a downtime jail.
pub open spec fn jail_record(address: Seq<char>, a: AccountV, height: u64) -> SlashV {
    SlashV {
        id: "downtime:"@ + text::dec(height as nat) + ":"@ + address,
        offence: "downtime"@,
        offender: address,
        offence_height: height,
        applied_height: height,
        burned: jail_burn(a) as u128,
        bounty: 0,
        reporter: ""@,
        tombstoned: false,
        jailed_until: (height + types::DOWNTIME_JAIL_BLOCKS) as u64,
    }
}

/// An account whose bond leaks.
pub open spec fn leaked_account(a: AccountV) -> AccountV {
    let leak = bps_of(a.staked as nat, types::INACTIVITY_LEAK_BPS as nat);
    AccountV {
        staked: (a.staked - leak) as u128,
        penalties: Penalties {
            leaked: types::cap128(a.penalties.leaked as nat + leak),
            ..a.penalties
        },
        ..a
    }
}

/// The database with one missed slot charged to a validator.
pub open spec fn charged(db: Db, address: Seq<char>, height: u64) -> Db {
    let a = counted_miss(state::account_of(db, address));
    if jails(a, height) {
        state::with_slash(
            state::with_account(db, address, jailed_account(a, height)),
            jail_record(address, a, height),
        )
    } else if leaks(a, height) {
        state::with_account(db, address, leaked_account(a))
    } else {
        state::with_account(db, address, a)
    }
}

/// The database with one missed slot charged to each of a list, in order.
pub open spec fn all_charged(db: Db, names: Seq<Seq<char>>, height: u64) -> Db
    decreases names.len(),
{
    if names.len() == 0 {
        db
    } else {
        charged(all_charged(db, names.drop_last(), height), names.last(), height)
    }
}

/// The lowest attempt from `from` on that elects a producer.
pub open spec fn used_attempt(
    s: Seq<ValidatorV>,
    height: nat,
    parent: Seq<char>,
    producer: Seq<char>,
    from: nat,
) -> Option<nat>
    decreases chain::MAX_LEADER_ATTEMPTS - from,
{
    if from >= chain::MAX_LEADER_ATTEMPTS {
        None
    } else if staking::leader_of(s, height, parent, from) == Some(producer) {
        Some(from)
    } else {
        used_attempt(s, height, parent, producer, from + 1)
    }
}

/// The validators elected on the first attempts that stayed silent, each once.
pub open spec fn silent(
    s: Seq<ValidatorV>,
    height: nat,
    parent: Seq<char>,
    producer: Seq<char>,
    attempts: nat,
) -> Seq<Seq<char>>
    decreases attempts,
{
    if attempts == 0 {
        Seq::empty()
    } else {
        let rest = silent(s, height, parent, producer, (attempts - 1) as nat);
        match staking::leader_of(s, height, parent, (attempts - 1) as nat) {
            Some(l) => if l != producer && !rest.contains(l) {
                rest.push(l)
            } else {
                rest
            },
            None => rest,
        }
    }
}

/// The database with a producer's streak of missed slots cleared.
pub open spec fn streak_cleared(db: Db, producer: Seq<char>) -> Db {
    let a = state::account_of(db, producer);
    if a.penalties.missed_streak == 0 {
        db
    } else {
        state::with_account(
            db,
            producer,
            AccountV { penalties: Penalties { missed_streak: 0, ..a.penalties }, ..a },
        )
    }
}

/// The database with the liveness of a sealed height recorded.
pub open spec fn lived(
    f: FixedV,
    db: Db,
    height: u64,
    parent: Seq<char>,
    producer: Seq<char>,
) -> Db {
    let s = staking::set_at(db, height);
    if height < f.params.slashing_activation || s.len() < 2 {
        db
    } else {
        match used_attempt(s, height as nat, parent, producer, 0) {
            None => db,
            Some(n) => streak_cleared(
                all_charged(db, silent(s, height as nat, parent, producer, n), height),
                producer,
            ),
        }
    }
}

/// Whether a list holds a text.
fn lists(v: &Vec<String>, s: &str) -> (r: bool)
    ensures
        r == types::texts(v@).contains(s@),
{
    let ghost t = types::texts(v@);
    let mut i: usize = 0;
    while i < v.len()
        invariant
            i <= v@.len(),
            t == types::texts(v@),
            forall|j: int| 0 <= j < i ==> #[trigger] t[j] != s@,
        decreases v@.len() - i,
    {
        assert(t[i as int] == v@[i as int]@);
        if text::same(v[i].as_str(), s) {
            return true;
        }
        i = i + 1;
    }
    false
}

/// Charges one missed slot to a validator.
fn charge(store: &mut Store, address: &str, height: u64)
    requires
        old(store).wf(),
    ensures
        state::follows(*old(store), *final(store)),
        final(store)@.db == charged(old(store)@.db, address@, height),
{
    let mut acct = store.account(address);
    acct.penalties.missed_slots = acct.penalties.missed_slots.saturating_add(1);
    acct.penalties.missed_streak = acct.penalties.missed_streak.saturating_add(1);
    let ghost a = acct@;
    assert(a =~= counted_miss(state::account_of(store@.db, address@)));
    if types::downtime_jail_enabled(height) && acct.penalties.missed_streak
        >= types::DOWNTIME_JAIL_STREAK && !acct.penalties.tombstoned {
        acct.penalties.missed_streak = 0;
        acct.penalties.downtime_jails = acct.penalties.downtime_jails.saturating_add(1);
        acct.penalties.jailed_until = height + types::DOWNTIME_JAIL_BLOCKS;
        acct.penalties.jail_fault = false;
        let mut burned: u128 = 0;
        if acct.penalties.downtime_jails > 1 {
            burned = fraction(acct.staked, types::DOWNTIME_REPEAT_BURN_BPS, 10_000);
        }
        acct.staked = acct.staked - burned;
        acct.penalties.slashed = acct.penalties.slashed.saturating_add(burned);
        assert(acct@ =~= jailed_account(a, height));
        store.set_account(address, &acct);
        let mut id = text::copy("downtime:");
        text::push_dec(&mut id, height as u128);
        id.append(":");
        id.append(address);
        store.put_slash(
            &SlashRecord {
                id,
                offence: text::copy("downtime"),
                offender: text::copy(address),
                offence_height: height,
                applied_height: height,
                burned,
                bounty: 0,
                reporter: text::copy(""),
                tombstoned: false,
                jailed_until: height + types::DOWNTIME_JAIL_BLOCKS,
            },
        );
    } else if types::inactivity_leak_enabled(height) && acct.penalties.missed_streak
        >= types::INACTIVITY_LEAK_STREAK && !acct.penalties.tombstoned {
        let leak = fraction(acct.staked, types::INACTIVITY_LEAK_BPS, 10_000);
        acct.staked = acct.staked - leak;
        acct.penalties.leaked = acct.penalties.leaked.saturating_add(leak);
        assert(acct@ =~= leaked_account(a));
        store.set_account(address, &acct);
    } else {
        store.set_account(address, &acct);
    }
}

/// The lowest attempt that elects a producer.
fn find_attempt(set: &Vec<Validator>, height: u64, parent_hash: &str, producer: &str) -> (r:
    Option<u64>)
    ensures
        match r {
            Some(n) => used_attempt(
                rank::views(set@),
                height as nat,
                parent_hash@,
                producer@,
                0,
            ) == Some(n as nat),
            None => used_attempt(rank::views(set@), height as nat, parent_hash@, producer@, 0) is None,
        },
{
    let ghost v = rank::views(set@);
    let mut n: u64 = 0;
    while n < chain::MAX_LEADER_ATTEMPTS
        invariant
            n <= chain::MAX_LEADER_ATTEMPTS,
            v == rank::views(set@),
            used_attempt(v, height as nat, parent_hash@, producer@, 0) == used_attempt(
                v,
                height as nat,
                parent_hash@,
                producer@,
                n as nat,
            ),
        decreases chain::MAX_LEADER_ATTEMPTS - n,
    {
        match staking::elect_leader_attempt(set, height, parent_hash, n) {
            Some(l) => {
                if text::same(l.as_str(), producer) {
                    return Some(n);
                }
            },
            None => {},
        }
        n = n + 1;
    }
    None
}

/// The validators elected before an attempt that stayed silent.
fn find_silent(
    set: &Vec<Validator>,
    height: u64,
    parent_hash: &str,
    producer: &str,
    attempts: u64,
) -> (r: Vec<String>)
    ensures
        types::texts(r@) == silent(
            rank::views(set@),
            height as nat,
            parent_hash@,
            producer@,
            attempts as nat,
        ),
{
    let ghost v = rank::views(set@);
    let mut out: Vec<String> = Vec::new();
    let mut n: u64 = 0;
    assert(types::texts(out@) =~= silent(v, height as nat, parent_hash@, producer@, 0));
    while n < attempts
        invariant
            n <= attempts,
            v == rank::views(set@),
            types::texts(out@) == silent(v, height as nat, parent_hash@, producer@, n as nat),
        decreases attempts - n,
    {
        match staking::elect_leader_attempt(set, height, parent_hash, n) {
            Some(l) => {
                if !text::same(l.as_str(), producer) && !lists(&out, l.as_str()) {
                    let ghost was = types::texts(out@);
                    let ghost lv = l@;
                    out.push(l);
                    assert(types::texts(out@) =~= was.push(lv));
                }
            },
            None => {},
        }
        n = n + 1;
    }
    out
}

/// Credits liveness for the validator that sealed a height, and charges a missed slot
/// to every validator that was elected before it and stayed silent. A function of
/// height, parent and producer, so replaying history gives the same ledger.
pub fn record_liveness(store: &mut Store, height: u64, parent_hash: &str, producer: &str)
    requires
        old(store).wf(),
    ensures
        state::follows(*old(store), *final(store)),
        final(store)@.db == lived(
            old(store).fixed(),
            old(store)@.db,
            height,
            parent_hash@,
            producer@,
        ),
{
    if height < store.params().slashing_activation {
        return;
    }
    let set = staking::validator_set_at(store, height);
    assert(rank::views(set@).len() == set@.len());
    if set.len() < 2 {
        return;
    }
    let used = match find_attempt(&set, height, parent_hash, producer) {
        Some(n) => n,
        None => {
            return;
        },
    };
    let missed = find_silent(&set, height, parent_hash, producer, used);
    let ghost db0 = store@.db;
    let ghost names = types::texts(missed@);
    let mut i: usize = 0;
    assert(names.take(0) =~= Seq::<Seq<char>>::empty());
    while i < missed.len()
        invariant
            i <= missed@.len(),
            names == types::texts(missed@),
            state::follows(*old(store), *store),
            store@.db == all_charged(db0, names.take(i as int), height),
        decreases missed@.len() - i,
    {
        proof {
            assert(names.take(i + 1).drop_last() =~= names.take(i as int));
            assert(names.take(i + 1).last() == missed@[i as int]@);
        }
        charge(store, missed[i].as_str(), height);
        i = i + 1;
    }
    assert(names.take(names.len() as int) =~= names);
    let mut p = store.account(producer);
    if p.penalties.missed_streak != 0 {
        p.penalties.missed_streak = 0;
        store.set_account(producer, &p);
    }
}

/// Liveness accounting is inert before its activation height, and a lone validator is
/// never charged.
pub proof fn law_liveness_is_gated(
    f: FixedV,
    db: Db,
    height: u64,
    parent: Seq<char>,
    producer: Seq<char>,
)
    requires
        height < f.params.slashing_activation || staking::set_at(db, height).len() < 2,
    ensures
        lived(f, db, height, parent, producer) == db,
{
}

/// A jail comes at exactly the configured streak, lasts exactly its length, and burns
/// nothing the first time.
pub proof fn law_jail_boundary_is_exact(a: AccountV, height: u64)
    requires
        height < types::NO_DOWNTIME_JAIL_HEIGHT,
        !a.penalties.tombstoned,
        a.penalties.missed_streak < u64::MAX,
        a.validating(),
    ensures
        jails(counted_miss(a), height) <==> a.penalties.missed_streak + 1
            >= types::DOWNTIME_JAIL_STREAK,
        a.penalties.downtime_jails == 0 ==> jailed_account(counted_miss(a), height).staked
            == a.staked,
        !jailed_account(counted_miss(a), height).active(
            (height + types::DOWNTIME_JAIL_BLOCKS - 1) as u64,
        ) || height + types::DOWNTIME_JAIL_BLOCKS > types::NO_DOWNTIME_JAIL_HEIGHT,
        a.penalties.downtime_jails == 0 ==> jailed_account(counted_miss(a), height).active(
            (height + types::DOWNTIME_JAIL_BLOCKS) as u64,
        ),
{
}

/// The leak decays a bond without ever taking more than is there, and stops for a
/// validator that is back: without a streak nothing leaks.
pub proof fn law_leak_is_gradual(a: AccountV, height: u64)
    ensures
        leaked_account(a).staked <= a.staked,
        leaked_account(a).staked as nat + bps_of(a.staked as nat, 5) == a.staked,
        a.penalties.missed_streak == 0 ==> !leaks(a, height),
{
    let n = a.staked as nat;
    assert(n * 5 <= n * 10_000);
    vstd::arithmetic::div_mod::lemma_div_is_ordered((n * 5) as int, (n * 10_000) as int, 10_000);
    vstd::arithmetic::div_mod::lemma_div_by_multiple(n as int, 10_000);
}

} // verus!
