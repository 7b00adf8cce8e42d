//! What evidence, absence and agreement lead to: who signs two ways is cut and removed, who
//! misses slots is jailed or leaks, and what two thirds of the stake agree on is final.

use crate::apply;
use crate::consensus;
use crate::consensus::CastV;
use crate::consensus::TrackerV;
use crate::consensus::VoteOutcome;
use crate::consensus::VoteV;
use crate::crypto;
use crate::deeds;
use crate::journal::Db;
use crate::slashing;
use crate::slashing::EvidenceV;
use crate::staking;
use crate::staking::ValidatorV;
use crate::state;
use crate::state::FixedV;
use crate::supply;
use crate::text;
use crate::types;
use crate::types::AccountV;
use crate::types::BlockV;
use crate::types::Penalties;
use crate::types::TxV;
use crate::types::Unbond;
use vstd::prelude::*;
use vstd::string::*;

verus! {

// ---------------------------------------------------------------- evidence

/// Two blocks prove an offence exactly when they are different blocks of one height above
/// genesis that one key sealed; the proof names the address of that key.
pub proof fn law_two_blocks_are_evidence(a: BlockV, b: BlockV)
    ensures
        (EvidenceV::Block { a, b }).verdict() is Ok <==> {
            &&& a.height == b.height
            &&& a.height > 0
            &&& a.hash != b.hash
            &&& a.producer == b.producer
            &&& a.producer_pubkey == b.producer_pubkey
            &&& a.produced()
            &&& b.produced()
        },
        (EvidenceV::Block { a, b }).verdict() matches Ok(o) ==> o == a.producer,
{
}

/// Two precommits prove an offence exactly when they are of one height above genesis, cover
/// different blocks, and one key signed both; the proof names the address of that key.
pub proof fn law_two_votes_are_evidence(a: VoteV, b: VoteV)
    ensures
        (EvidenceV::Vote { a, b }).verdict() is Ok <==> {
            &&& a.height == b.height
            &&& a.height > 0
            &&& a.hash != b.hash
            &&& a.voter_pubkey == b.voter_pubkey
            &&& a.signed()
            &&& b.signed()
        },
        (EvidenceV::Vote { a, b }).verdict() matches Ok(o) ==> crypto::address_of_hex(
            a.voter_pubkey,
        ) == Some(o),
{
}

/// A precommit counts as signed exactly when its key signed its height and hash for this
/// chain.
pub proof fn law_vote_is_signed(v: VoteV)
    ensures
        v.signed() <==> {
            &&& forall|i: int| 0 <= i < v.hash.len() ==> #[trigger] v.hash[i] != '|'
            &&& forall|i: int| 0 <= i < v.voter_pubkey.len() ==> #[trigger] v.voter_pubkey[i] != '|'
            &&& crypto::unhex(v.voter_pubkey) matches Some(key) && key.len() == 32 && (
            crypto::unhex(v.signature) matches Some(sig) && sig.len() == 64
                && crypto::ed25519_accepts(
                key,
                text::utf8("inazuma-vote|7777|"@ + text::dec(v.height as nat) + "|"@ + v.hash),
                sig,
            ))
        },
{
    reveal_strlit("inazuma-vote|7777|");
    reveal_strlit("inazuma-vote|");
    reveal_strlit("|");
    reveal_with_fuel(text::dec, 5);
    assert(text::dec(types::CHAIN_ID as nat) =~= seq!['7', '7', '7', '7']);
    assert("inazuma-vote|7777|"@ + text::dec(v.height as nat) + "|"@ + v.hash
        =~= consensus::vote_text(v.height as nat, v.hash));
}

/// Evidence may be punished exactly when it proves an offence, is not from the future, is at
/// most a hundred thousand blocks old, was not punished yet, and its offender is not removed
/// already and has something bonded or locked.
pub proof fn law_evidence_is_punishable(db: Db, height: u64, e: EvidenceV)
    ensures
        slashing::reportable(db, height, e) is Ok <==> (e.verdict() matches Ok(o) && {
            let a = state::account_of(db, o);
            &&& e.height() <= height
            &&& height <= e.height() + 100_000
            &&& state::slash_of(db, e.id()) is None
            &&& !a.penalties.tombstoned
            &&& a.staked > 0 || a.locked() > 0
        }),
{
}

/// How much an offence burns in percent: three times the offender's share of all stake, at
/// least five and at most a hundred.
pub proof fn law_burn_is_three_times_the_share(stake: nat, total: nat)
    requires
        stake * 100 <= u128::MAX,
        total > 0,
    ensures
        ({
            let three = 3 * (stake * 100 / total);
            &&& three <= 5 ==> slashing::burn_pct(stake, total) == 5
            &&& 5 <= three <= 100 ==> slashing::burn_pct(stake, total) == three
            &&& three >= 100 ==> slashing::burn_pct(stake, total) == 100
        }),
{
}

/// What a percentage takes of locked amounts, each rounded down.
pub open spec fn cut_of_locks(u: Seq<Unbond>, pct: nat) -> nat
    decreases u.len(),
{
    if u.len() == 0 {
        0
    } else {
        cut_of_locks(u.drop_last(), pct) + (u.last().amount as nat) * pct / 100
    }
}

proof fn lemma_cut_locks(u: Seq<Unbond>, pct: nat)
    requires
        pct <= 100,
    ensures
        slashing::cut_sum(u, pct) == cut_of_locks(u, pct),
        types::unbond_sum(slashing::cut_unbonds(u, pct)) + cut_of_locks(u, pct)
            == types::unbond_sum(u),
    decreases u.len(),
{
    if u.len() > 0 {
        lemma_cut_locks(u.drop_last(), pct);
        let n = u.last().amount as nat;
        assert(n * pct <= n * 100) by (nonlinear_arith)
            requires
                pct <= 100,
        ;
        vstd::arithmetic::div_mod::lemma_div_is_ordered((n * pct) as int, (n * 100) as int, 100);
        vstd::arithmetic::div_mod::lemma_div_by_multiple(n as int, 100);
        let rest = slashing::cut_unbonds(u.drop_last(), pct);
        let left = (n - n * pct / 100) as u128;
        if left > 0 {
            let x = Unbond { amount: left, release_height: u.last().release_height };
            assert(rest.push(x).drop_last() =~= rest);
        }
    }
}

/// Punishing an offence takes the percentage of the bond and of every lock, removes the
/// offender for good, gives a tenth of what was taken to the reporter, unless that is the
/// offender, burns the rest, and records it. Nobody else's account changes.
pub proof fn law_offence_is_punished(
    db: Db,
    height: u64,
    reporter: Seq<char>,
    e: EvidenceV,
    other: Seq<char>,
)
    requires
        db.len() == 16,
        slashing::reported(db, height, reporter, e) is Ok,
        other != reporter,
        Ok::<Seq<char>, Seq<char>>(other) != e.verdict(),
        state::account_of(db, e.verdict()->Ok_0).worth() <= u128::MAX,
        state::account_of(db, reporter).balance + state::account_of(
            db,
            e.verdict()->Ok_0,
        ).worth() <= u128::MAX,
    ensures
        e.verdict() is Ok,
        ({
            let (rec, d) = slashing::reported(db, height, reporter, e)->Ok_0;
            let o = e.verdict()->Ok_0;
            let a = state::account_of(db, o);
            let b = state::account_of(d, o);
            let total = types::cap128(state::staked_of(state::stakers_of(db))) as nat;
            let pct = slashing::burn_pct(a.staked as nat, total);
            let cut = (a.staked as nat) * pct / 100 + cut_of_locks(a.unbonding, pct);
            &&& b.staked + (a.staked as nat) * pct / 100 == a.staked
            &&& b.locked() + cut_of_locks(a.unbonding, pct) == a.locked()
            &&& b.penalties.tombstoned
            &&& b.penalties.jailed_until == u64::MAX
            &&& b.penalties.jail_fault
            &&& b.nonce == a.nonce && b.rewards == a.rewards
            &&& rec.burned + rec.bounty == cut
            &&& reporter != o ==> rec.bounty == cut / 10
            &&& reporter == o ==> rec.bounty == 0 && b.balance == a.balance
            &&& reporter != o ==> b.balance == a.balance
            &&& reporter != o ==> deeds::gained(
                state::account_of(db, reporter),
                state::account_of(d, reporter),
                rec.bounty as nat,
            )
            &&& state::account_of(d, other) == state::account_of(db, other)
            &&& state::slash_of(d, e.id()) == Some(rec)
            &&& rec.offender == o && rec.reporter == reporter && rec.applied_height == height
                && rec.offence_height == e.height() && rec.tombstoned
        }),
{
    let o = e.verdict()->Ok_0;
    let a = state::account_of(db, o);
    let total = types::cap128(state::staked_of(state::stakers_of(db))) as nat;
    let pct = slashing::burn_pct(a.staked as nat, total);
    slashing::law_burn_is_bounded_and_monotone(a.staked as nat, a.staked as nat, total);
    lemma_cut_locks(a.unbonding, pct);
    let n = a.staked as nat;
    assert(n * pct <= n * 100) by (nonlinear_arith)
        requires
            pct <= 100,
    ;
    vstd::arithmetic::div_mod::lemma_div_is_ordered((n * pct) as int, (n * 100) as int, 100);
    vstd::arithmetic::div_mod::lemma_div_by_multiple(n as int, 100);
    let cut = n * pct / 100 + cut_of_locks(a.unbonding, pct);
    assert(slashing::taken(a, pct) == cut);
    assert(cut <= a.worth());
    assert(cut * 10 / 100 == cut / 10) by (nonlinear_arith);
    let p = slashing::punished(a, pct);
    let d = state::with_account(db, o, p);
    supply::lemma_account_after(db, o, p, o);
    supply::lemma_account_after(db, o, p, reporter);
    supply::lemma_account_after(db, o, p, other);
    supply::lemma_account_frame(db, o, p);
    let rec = slashing::record_of(db, height, reporter, e, o);
    let r = state::account_of(d, reporter);
    let q = AccountV { balance: staking::capped_sum(r.balance, rec.bounty as nat), ..r };
    supply::lemma_account_after(d, reporter, q, o);
    supply::lemma_account_after(d, reporter, q, reporter);
    supply::lemma_account_after(d, reporter, q, other);
    supply::lemma_account_frame(d, reporter, q);
    let g = if rec.bounty > 0 {
        state::with_account(d, reporter, q)
    } else {
        d
    };
    let f = state::with_slash(g, rec);
    assert(f[0] == g[0]);
    assert(f[11].contains_key(text::utf8(e.id())));
}

/// An offence is punished exactly when it is proved, was not yet, and its offender is not
/// removed.
pub proof fn law_offence_is_punished_once(
    db: Db,
    height: u64,
    reporter: Seq<char>,
    e: EvidenceV,
)
    ensures
        slashing::reported(db, height, reporter, e) is Ok <==> (e.verdict() matches Ok(o)
            && state::slash_of(db, e.id()) is None && !state::account_of(
            db,
            o,
        ).penalties.tombstoned),
{
}

/// A report goes through exactly when its sender can pay the fee with the next nonce and the
/// evidence it carries may be punished then; it costs the fee.
pub proof fn law_report_goes_through(db: Db, tx: TxV, height: u64)
    requires
        db.len() == 16,
        tx.kind is ReportEquivocation,
    ensures
        apply::applied(db, tx, height) is Ok ==> {
            &&& tx.sender() is Some
            &&& slashing::decoded(tx.payload) is Ok
            &&& apply::applied(db, tx, height)->Ok_0.0 == tx.fee
        },
        apply::applied(db, tx, height) is Ok <==> (tx.sender() matches Some(s) && {
            let a = state::account_of(db, s);
            let paid = state::with_account(
                db,
                s,
                AccountV {
                    balance: (a.balance - tx.fee) as u128,
                    nonce: (a.nonce + 1) as u64,
                    ..a
                },
            );
            &&& tx.nonce == a.nonce
            &&& a.nonce < u64::MAX
            &&& tx.fee <= a.balance
            &&& slashing::decoded(tx.payload) matches Ok(e) && slashing::reportable(
                paid,
                height,
                e,
            ) is Ok
        }),
{
}

/// Whoever was jailed for downtime leaves once the jail is over and never before; being
/// removed is for good. Leaving ends the jail and the streak and nothing else.
pub proof fn law_jail_is_left_when_over(db: Db, height: u64, who: Seq<char>, other: Seq<char>)
    requires
        db.len() == 16,
        other != who,
    ensures
        ({
            let a = state::account_of(db, who);
            let r = slashing::unjailed(db, height, who);
            &&& r is Ok <==> !a.penalties.tombstoned && 0 < a.penalties.jailed_until <= height
            &&& r matches Ok(d) ==> {
                let b = state::account_of(d, who);
                &&& b == (AccountV {
                    penalties: Penalties { jailed_until: 0, missed_streak: 0, ..a.penalties },
                    ..a
                })
                &&& state::account_of(d, other) == state::account_of(db, other)
            }
        }),
{
    let a = state::account_of(db, who);
    let v = AccountV {
        penalties: Penalties { jailed_until: 0, missed_streak: 0, ..a.penalties },
        ..a
    };
    supply::lemma_account_after(db, who, v, who);
    supply::lemma_account_after(db, who, v, other);
}

// ---------------------------------------------------------------- missed slots

/// What one missed slot does to an account at a height. The slot is counted. From the
/// fiftieth in a row: before downtime jails were retired it jails for ten thousand blocks,
/// ends the streak, and from the second jail on burns a thousandth of the bond; from the
/// height of the leak on it takes five ten-thousandths of the bond, and the streak goes on.
/// Whoever is removed already loses nothing more.
pub open spec fn missed_one(a: AccountV, b: AccountV, height: u64) -> bool {
    let p = a.penalties;
    let q = b.penalties;
    let late = p.missed_streak + 1 >= 50 && !p.tombstoned;
    let jail = late && height < 1_400_000;
    let leak = late && height >= 2_000_000;
    let burn = if jail && p.downtime_jails >= 1 {
        (a.staked as nat) * 10 / 10_000
    } else {
        0
    };
    let drip = if leak {
        (a.staked as nat) * 5 / 10_000
    } else {
        0
    };
    &&& q.missed_slots == p.missed_slots + 1
    &&& q.missed_streak == if jail {
        0
    } else {
        p.missed_streak + 1
    }
    &&& q.jailed_until == if jail {
        height + 10_000
    } else {
        p.jailed_until as int
    }
    &&& q.jail_fault == (p.jail_fault && !jail)
    &&& q.downtime_jails == p.downtime_jails + if jail {
        1int
    } else {
        0
    }
    &&& q.tombstoned == p.tombstoned
    &&& b.staked + burn + drip == a.staked
    &&& q.slashed == p.slashed + burn
    &&& q.leaked == p.leaked + drip
    &&& b.balance == a.balance
    &&& b.nonce == a.nonce
    &&& b.unbonding == a.unbonding
    &&& b.rewards == a.rewards
    &&& b.blocks_produced == a.blocks_produced
}

/// Counters of an account that are not at their largest.
pub open spec fn countable(a: AccountV) -> bool {
    &&& a.penalties.missed_slots < u64::MAX
    &&& a.penalties.missed_streak < u64::MAX
    &&& a.penalties.downtime_jails < u64::MAX
    &&& a.penalties.slashed + a.staked <= u128::MAX
    &&& a.penalties.leaked + a.staked <= u128::MAX
}

proof fn lemma_bps(n: nat, k: nat)
    requires
        k <= 10_000,
    ensures
        n * k / 10_000 <= n,
{
    assert(n * k <= n * 10_000) by (nonlinear_arith)
        requires
            k <= 10_000,
    ;
    vstd::arithmetic::div_mod::lemma_div_is_ordered((n * k) as int, (n * 10_000) as int, 10_000);
    vstd::arithmetic::div_mod::lemma_div_by_multiple(n as int, 10_000);
}

/// A missed slot costs whoever missed it exactly what it should, and nobody else anything.
pub proof fn law_missed_slot_costs(db: Db, who: Seq<char>, height: u64, other: Seq<char>)
    requires
        db.len() == 16,
        countable(state::account_of(db, who)),
        other != who,
    ensures
        ({
            let d = slashing::charged(db, who, height);
            &&& d.len() == 16
            &&& missed_one(state::account_of(db, who), state::account_of(d, who), height)
            &&& state::account_of(d, other) == state::account_of(db, other)
        }),
{
    let x = state::account_of(db, who);
    let a = slashing::counted_miss(x);
    lemma_bps(a.staked as nat, 10);
    lemma_bps(a.staked as nat, 5);
    let v = if slashing::jails(a, height) {
        slashing::jailed_account(a, height)
    } else if slashing::leaks(a, height) {
        slashing::leaked_account(a)
    } else {
        a
    };
    supply::lemma_account_after(db, who, v, who);
    supply::lemma_account_after(db, who, v, other);
    supply::lemma_account_frame(db, who, v);
    let d = state::with_account(db, who, v);
    assert(slashing::charged(db, who, height)[0] == d[0]);
}

/// A producer used an attempt exactly when it is the first that elects it, among the first
/// four thousand and ninety-six.
pub proof fn law_used_attempt_is_the_first(
    s: Seq<ValidatorV>,
    height: nat,
    parent: Seq<char>,
    producer: Seq<char>,
    from: nat,
    n: nat,
)
    requires
        from <= n < 4_096,
    ensures
        slashing::used_attempt(s, height, parent, producer, from) == Some(n) <==> {
            &&& staking::leader_of(s, height, parent, n) == Some(producer)
            &&& forall|a: nat|
                from <= a < n ==> #[trigger] staking::leader_of(s, height, parent, a) != Some(
                    producer,
                )
        },
    decreases n - from,
{
    if from < n {
        law_used_attempt_is_the_first(s, height, parent, producer, from + 1, n);
        if staking::leader_of(s, height, parent, from) == Some(producer) {
            assert(slashing::used_attempt(s, height, parent, producer, from) == Some(from));
        }
    } else if staking::leader_of(s, height, parent, n) != Some(producer) {
        lemma_used_later(s, height, parent, producer, n + 1);
    }
}

proof fn lemma_used_later(
    s: Seq<ValidatorV>,
    height: nat,
    parent: Seq<char>,
    producer: Seq<char>,
    from: nat,
)
    ensures
        slashing::used_attempt(s, height, parent, producer, from) matches Some(n) ==> n >= from,
    decreases 4_096 - from,
{
    if from < 4_096 {
        lemma_used_later(s, height, parent, producer, from + 1);
    }
}

/// Who stayed silent before an attempt: exactly those elected on an earlier attempt, but for
/// the producer, each listed once.
pub proof fn law_silent_were_elected(
    s: Seq<ValidatorV>,
    height: nat,
    parent: Seq<char>,
    producer: Seq<char>,
    attempts: nat,
    who: Seq<char>,
)
    ensures
        slashing::silent(s, height, parent, producer, attempts).no_duplicates(),
        slashing::silent(s, height, parent, producer, attempts).contains(who) <==> who != producer
            && exists|a: nat|
            a < attempts && #[trigger] staking::leader_of(s, height, parent, a) == Some(who),
    decreases attempts,
{
    let all = slashing::silent(s, height, parent, producer, attempts);
    if attempts > 0 {
        let k = (attempts - 1) as nat;
        law_silent_were_elected(s, height, parent, producer, k, who);
        let rest = slashing::silent(s, height, parent, producer, k);
        let l = staking::leader_of(s, height, parent, k);
        if l is Some && l->Some_0 != producer {
            law_silent_were_elected(s, height, parent, producer, k, l->Some_0);
            if !rest.contains(l->Some_0) {
                assert(all == rest.push(l->Some_0));
                if rest.contains(who) {
                    let i = choose|i: int| 0 <= i < rest.len() && rest[i] == who;
                    assert(all[i] == who);
                }
                if who == l->Some_0 {
                    assert(all[all.len() - 1] == who);
                }
                if all.contains(who) && who != l->Some_0 {
                    let i = choose|i: int| 0 <= i < all.len() && all[i] == who;
                    assert(rest[i] == who);
                }
            }
        }
        if exists|a: nat|
            a < attempts && #[trigger] staking::leader_of(s, height, parent, a) == Some(who) {
            let a = choose|a: nat|
                a < attempts && #[trigger] staking::leader_of(s, height, parent, a) == Some(who);
            if a < k {
                assert(staking::leader_of(s, height, parent, a) == Some(who));
            }
        }
    }
}

proof fn lemma_all_charged(db: Db, names: Seq<Seq<char>>, height: u64, who: Seq<char>)
    requires
        db.len() == 16,
        names.no_duplicates(),
        countable(state::account_of(db, who)),
    ensures
        slashing::all_charged(db, names, height).len() == 16,
        names.contains(who) ==> missed_one(
            state::account_of(db, who),
            state::account_of(slashing::all_charged(db, names, height), who),
            height,
        ),
        !names.contains(who) ==> state::account_of(
            slashing::all_charged(db, names, height),
            who,
        ) == state::account_of(db, who),
    decreases names.len(),
{
    if names.len() > 0 {
        let t = names.drop_last();
        let l = names.last();
        assert(t.no_duplicates()) by {
            assert forall|i: int, j: int| 0 <= i < t.len() && 0 <= j < t.len() && i != j implies t[i]
                != t[j] by {
                assert(t[i] == names[i] && t[j] == names[j]);
            }
        }
        lemma_all_charged(db, t, height, who);
        let d = slashing::all_charged(db, t, height);
        assert(names.contains(who) <==> t.contains(who) || l == who) by {
            if t.contains(who) {
                let i = choose|i: int| 0 <= i < t.len() && t[i] == who;
                assert(names[i] == who);
            }
            if l == who {
                assert(names[names.len() - 1] == who);
            }
            if names.contains(who) && l != who {
                let i = choose|i: int| 0 <= i < names.len() && names[i] == who;
                assert(t[i] == who);
            }
        }
        if l == who {
            if t.contains(who) {
                let i = choose|i: int| 0 <= i < t.len() && t[i] == who;
                assert(names[i] == names[names.len() - 1]);
            }
            let far = who.push('x');
            assert(far.len() != who.len());
            law_missed_slot_costs(d, who, height, far);
        } else {
            lemma_charged_other(d, l, height, who);
        }
    }
}

proof fn lemma_charged_other(db: Db, who: Seq<char>, height: u64, other: Seq<char>)
    requires
        db.len() == 16,
        other != who,
    ensures
        slashing::charged(db, who, height).len() == 16,
        state::account_of(slashing::charged(db, who, height), other) == state::account_of(
            db,
            other,
        ),
{
    let a = slashing::counted_miss(state::account_of(db, who));
    let v = if slashing::jails(a, height) {
        slashing::jailed_account(a, height)
    } else if slashing::leaks(a, height) {
        slashing::leaked_account(a)
    } else {
        a
    };
    supply::lemma_account_after(db, who, v, other);
    supply::lemma_account_frame(db, who, v);
    let d = state::with_account(db, who, v);
    assert(slashing::charged(db, who, height)[0] == d[0]);
}

/// Once slots are charged and two or more validators are bonded, a block sealed on an attempt
/// charges one missed slot to everyone elected before and silent, ends its producer's streak,
/// and touches nobody else.
pub proof fn law_block_charges_the_silent(
    f: FixedV,
    db: Db,
    height: u64,
    parent: Seq<char>,
    producer: Seq<char>,
    n: nat,
    who: Seq<char>,
)
    requires
        db.len() == 16,
        height >= f.params.slashing_activation,
        staking::set_at(db, height).len() >= 2,
        n < 4_096,
        staking::leader_of(staking::set_at(db, height), height as nat, parent, n) == Some(producer),
        forall|a: nat|
            a < n ==> #[trigger] staking::leader_of(
                staking::set_at(db, height),
                height as nat,
                parent,
                a,
            ) != Some(producer),
        countable(state::account_of(db, who)),
    ensures
        ({
            let s = staking::set_at(db, height);
            let d = slashing::lived(f, db, height, parent, producer);
            let a = state::account_of(db, who);
            let b = state::account_of(d, who);
            let missed = who != producer && exists|k: nat|
                k < n && #[trigger] staking::leader_of(s, height as nat, parent, k) == Some(who);
            &&& missed ==> missed_one(a, b, height)
            &&& who == producer ==> b.penalties.missed_streak == 0 && b == (AccountV {
                penalties: Penalties { missed_streak: 0, ..a.penalties },
                ..a
            })
            &&& who != producer && !missed ==> b == a
        }),
{
    let s = staking::set_at(db, height);
    law_used_attempt_is_the_first(s, height as nat, parent, producer, 0, n);
    let names = slashing::silent(s, height as nat, parent, producer, n);
    law_silent_were_elected(s, height as nat, parent, producer, n, who);
    lemma_all_charged(db, names, height, who);
    let d = slashing::all_charged(db, names, height);
    let p = state::account_of(d, producer);
    let v = AccountV { penalties: Penalties { missed_streak: 0, ..p.penalties }, ..p };
    supply::lemma_account_after(d, producer, v, who);
}

// ---------------------------------------------------------------- finality

/// Stake that agrees on a block at a height: each validator whose precommit there covers it
/// adds its stake, the others nothing.
pub proof fn law_agreement_adds_up(
    s: Seq<ValidatorV>,
    v: ValidatorV,
    cast: CastV,
    height: nat,
    hash: Seq<char>,
)
    ensures
        ({
            let k = text::be(height, 8) + text::utf8(v.address);
            &&& consensus::agreeing_stake(Seq::empty(), cast, height, hash) == 0
            &&& consensus::agreeing_stake(s.push(v), cast, height, hash)
                == consensus::agreeing_stake(s, cast, height, hash) + if cast.contains_key(k)
                && cast[k].hash == hash {
                v.stake as nat
            } else {
                0
            }
        }),
{
    assert(s.push(v).drop_last() =~= s);
}

/// A precommit of a bonded validator for a stored block is counted, and finalizes its height
/// exactly when what agrees on that block then is more than two thirds of the stake and the
/// height is above the finalized one.
pub proof fn law_two_thirds_finalize(t: TrackerV, db: Db, v: VoteV, voter: Seq<char>)
    requires
        db.len() == 16,
        v.signed(),
        crypto::address_of_hex(v.voter_pubkey) == Some(voter),
        state::block_of(db, v.height as nat) matches Some(b) && b.hash == v.hash,
        v.height > state::finalized_of(db),
        exists|i: int|
            0 <= i < staking::set_at(db, staking::next_height(db)).len() && (
            #[trigger] staking::set_at(db, staking::next_height(db))[i]).address == voter,
        !t.cast.contains_key(consensus::vote_key(v.height as nat, voter)) || t.cast[
            consensus::vote_key(v.height as nat, voter)
        ].hash == v.hash,
        staking::stake_sum(staking::set_at(db, staking::next_height(db))) <= u128::MAX,
    ensures
        ({
            let (r, u, d) = consensus::added(t, db, v);
            let s = staking::set_at(db, staking::next_height(db));
            let k = consensus::vote_key(v.height as nat, voter);
            let agreed = consensus::agreeing_stake(
                s,
                t.cast.insert(k, v),
                v.height as nat,
                v.hash,
            );
            let enough = agreed * 3 > staking::stake_sum(s) * 2;
            &&& r == Ok::<VoteOutcome, Seq<char>>(
                VoteOutcome {
                    fresh: !t.cast.contains_key(k),
                    finalized: if enough {
                        Some(v.height)
                    } else {
                        None
                    },
                },
            )
            &&& enough ==> state::finalized_of(d) == v.height
            &&& !enough ==> d == db && u.cast == t.cast.insert(k, v)
        }),
{
    let s = staking::set_at(db, staking::next_height(db));
    let k = consensus::vote_key(v.height as nat, voter);
    let cast = t.cast.insert(k, v);
    lemma_agreeing_within(s, cast, v.height as nat, v.hash);
    consensus::law_finality_needs_two_thirds(t, db, v);
    assert(consensus::seated(s, voter));
    if staking::stake_sum(s) == 0 {
        assert(consensus::agreeing_stake(s, cast, v.height as nat, v.hash) == 0);
    }
}

proof fn lemma_agreeing_within(s: Seq<ValidatorV>, cast: CastV, height: nat, hash: Seq<char>)
    ensures
        consensus::agreeing_stake(s, cast, height, hash) <= staking::stake_sum(s),
    decreases s.len(),
{
    if s.len() > 0 {
        lemma_agreeing_within(s.drop_last(), cast, height, hash);
    }
}

/// Nobody but a bonded validator is counted, and nothing unsigned: such a precommit changes
/// neither the tally nor the chain.
pub proof fn law_strangers_are_not_counted(t: TrackerV, db: Db, v: VoteV)
    requires
        !v.signed() || crypto::address_of_hex(v.voter_pubkey) is None || (v.height
            > state::finalized_of(db) && (forall|i: int|
            0 <= i < staking::set_at(db, staking::next_height(db)).len() ==> (
            #[trigger] staking::set_at(db, staking::next_height(db))[i]).address
                != crypto::address_of_hex(v.voter_pubkey)->Some_0)),
    ensures
        consensus::added(t, db, v).0 is Err,
        consensus::added(t, db, v).1.cast == t.cast,
        consensus::added(t, db, v).1.pending == t.pending,
        consensus::added(t, db, v).2 == db,
{
}

} // verus!
