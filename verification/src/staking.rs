//! Proof of stake: validator set, stake-weighted leader election, rewards and
//! unbonding.
//!
//! INAZ is the staking coin: an account that stakes the minimum enters the set.

use crate::crypto;
use crate::journal::Db;
use crate::rank;
use crate::rank::Ranked;
use crate::state;
use crate::state::Store;
use crate::supply;
use crate::text;
use crate::types;
use crate::types::Account;
use crate::types::AccountV;
use crate::types::Unbond;
use vstd::prelude::*;
use vstd::string::*;

verus! {

/// Newly issued INAZ per block, shared by the validator set: 0.01 INAZ.
pub const BLOCK_REWARD: u128 = 10_000_000;

/// Share of the block reward the elected leader keeps for doing the work.
pub const LEADER_COMMISSION_PCT: u128 = 20;

/// Most validators that may be active at once, from the activation height on.
pub const MAX_VALIDATORS: usize = 100;

/// Height from which the size of the validator set is capped.
pub const VALIDATOR_CAP_ACTIVATION_HEIGHT: u64 = 2_000_000;

/// A bonded account as elections see it.
#[derive(Debug)]
pub struct Validator {
    pub address: String,
    pub stake: u128,
    pub rewards: u128,
    pub blocks_produced: u64,
    /// Height this validator becomes electable again (0 = active).
    pub jailed_until: u64,
    pub tombstoned: bool,
    pub missed_slots: u64,
    pub slashed: u128,
}

/// Model of a validator.
#[verifier::ext_equal]
pub struct ValidatorV {
    pub address: Seq<char>,
    pub stake: u128,
    pub rewards: u128,
    pub blocks_produced: u64,
    pub jailed_until: u64,
    pub tombstoned: bool,
    pub missed_slots: u64,
    pub slashed: u128,
}

impl View for Validator {
    type V = ValidatorV;

    open spec fn view(&self) -> ValidatorV {
        ValidatorV {
            address: self.address@,
            stake: self.stake,
            rewards: self.rewards,
            blocks_produced: self.blocks_produced,
            jailed_until: self.jailed_until,
            tombstoned: self.tombstoned,
            missed_slots: self.missed_slots,
            slashed: self.slashed,
        }
    }
}

impl Clone for Validator {
    fn clone(&self) -> (r: Validator)
        ensures
            r@ == self@,
    {
        Validator {
            address: self.address.clone(),
            stake: self.stake,
            rewards: self.rewards,
            blocks_produced: self.blocks_produced,
            jailed_until: self.jailed_until,
            tombstoned: self.tombstoned,
            missed_slots: self.missed_slots,
            slashed: self.slashed,
        }
    }
}

impl Ranked for Validator {
    open spec fn ahead(a: ValidatorV, b: ValidatorV) -> bool {
        text::lex_lt(text::utf8(a.address), text::utf8(b.address))
    }

    fn is_ahead(&self, other: &Self) -> (r: bool) {
        text::before(self.address.as_str(), other.address.as_str())
    }
}

/// A validator ranked by stake, ties by address.
struct Heavy {
    v: Validator,
}

impl View for Heavy {
    type V = ValidatorV;

    closed spec fn view(&self) -> ValidatorV {
        self.v@
    }
}

/// One validator outranks another for a seat.
pub open spec fn heavier(a: ValidatorV, b: ValidatorV) -> bool {
    a.stake > b.stake || a.stake == b.stake && text::lex_lt(
        text::utf8(a.address),
        text::utf8(b.address),
    )
}

impl Ranked for Heavy {
    closed spec fn ahead(a: ValidatorV, b: ValidatorV) -> bool {
        heavier(a, b)
    }

    fn is_ahead(&self, other: &Self) -> (r: bool) {
        self.v.stake > other.v.stake || (self.v.stake == other.v.stake && text::before(
            self.v.address.as_str(),
            other.v.address.as_str(),
        ))
    }
}

/// A list with one more validator, behind everything it does not outrank.
pub open spec fn seated(s: Seq<ValidatorV>, x: ValidatorV) -> Seq<ValidatorV>
    decreases s.len(),
{
    if s.len() == 0 || !heavier(x, s.last()) {
        s.push(x)
    } else {
        seated(s.drop_last(), x).push(s.last())
    }
}

/// Validators by stake, the largest first, ties by address.
pub open spec fn by_stake(s: Seq<ValidatorV>) -> Seq<ValidatorV>
    decreases s.len(),
{
    if s.len() == 0 {
        s
    } else {
        seated(by_stake(s.drop_last()), s.last())
    }
}

proof fn lemma_seated(s: Seq<ValidatorV>, x: ValidatorV)
    ensures
        seated(s, x) == rank::placed::<Heavy>(s, x),
    decreases s.len(),
{
    if s.len() > 0 {
        lemma_seated(s.drop_last(), x);
    }
}

proof fn lemma_by_stake_ranked(s: Seq<ValidatorV>)
    ensures
        by_stake(s) == rank::ranked::<Heavy>(s),
    decreases s.len(),
{
    if s.len() > 0 {
        lemma_by_stake_ranked(s.drop_last());
        lemma_seated(by_stake(s.drop_last()), s.last());
    }
}

proof fn lemma_heavier_is_orderly()
    ensures
        rank::orderly::<Heavy>(),
{
    assert forall|a: ValidatorV| !#[trigger] Heavy::ahead(a, a) by {
        text::lemma_lex_irreflexive(text::utf8(a.address));
    }
    assert forall|a: ValidatorV, b: ValidatorV, c: ValidatorV|
        !#[trigger] Heavy::ahead(b, a) && !#[trigger] Heavy::ahead(c, b) implies !Heavy::ahead(
        c,
        a,
    ) by {
        let (x, y, z) = (
            text::utf8(a.address),
            text::utf8(b.address),
            text::utf8(c.address),
        );
        if a.stake == b.stake && b.stake == c.stake && text::lex_lt(z, x) {
            if x == y {
            } else {
                text::lemma_lex_total(x, y);
                text::lemma_lex_transitive(z, x, y);
            }
        }
    }
    assert forall|a: ValidatorV, b: ValidatorV| #[trigger] Heavy::ahead(a, b) implies !Heavy::ahead(
        b,
        a,
    ) by {
        let (x, y) = (text::utf8(a.address), text::utf8(b.address));
        if text::lex_lt(x, y) && text::lex_lt(y, x) {
            text::lemma_lex_transitive(x, y, x);
            text::lemma_lex_irreflexive(x);
        }
    }
}

/// Ordering validators by stake keeps exactly its values, the largest stake first.
pub proof fn law_by_stake_orders(s: Seq<ValidatorV>, i: int, j: int)
    requires
        0 <= i < j < s.len(),
    ensures
        by_stake(s).len() == s.len(),
        by_stake(s).to_multiset() == s.to_multiset(),
        by_stake(s)[i].stake >= by_stake(s)[j].stake,
{
    lemma_by_stake_ranked(s);
    lemma_heavier_is_orderly();
    rank::law_ranking_keeps_values::<Heavy>(s);
    rank::law_ranking_orders::<Heavy>(s);
    lemma_by_stake_len(s);
    let r = by_stake(s);
    assert(!Heavy::ahead(r[j], r[i]));
}

/// The validator an account is.
pub open spec fn validator_of(address: Seq<char>, a: AccountV) -> ValidatorV {
    ValidatorV {
        address,
        stake: a.staked,
        rewards: a.rewards,
        blocks_produced: a.blocks_produced,
        jailed_until: a.penalties.jailed_until,
        tombstoned: a.penalties.tombstoned,
        missed_slots: a.penalties.missed_slots,
        slashed: a.penalties.slashed,
    }
}

/// The active validators among accounts, in order.
pub open spec fn active_among(s: Seq<(Seq<char>, AccountV)>, height: u64) -> Seq<ValidatorV>
    decreases s.len(),
{
    if s.len() == 0 {
        Seq::empty()
    } else {
        let rest = active_among(s.drop_last(), height);
        if s.last().1.active(height) {
            rest.push(validator_of(s.last().0, s.last().1))
        } else {
            rest
        }
    }
}

/// The bonded accounts among accounts, in order.
pub open spec fn bonded_among(s: Seq<(Seq<char>, AccountV)>) -> Seq<ValidatorV>
    decreases s.len(),
{
    if s.len() == 0 {
        Seq::empty()
    } else {
        let rest = bonded_among(s.drop_last());
        if s.last().1.staked > 0 {
            rest.push(validator_of(s.last().0, s.last().1))
        } else {
            rest
        }
    }
}

/// The seats a set is cut down to: the largest stakes, in address order.
pub open spec fn seats(s: Seq<ValidatorV>, height: u64) -> Seq<ValidatorV> {
    if height >= VALIDATOR_CAP_ACTIVATION_HEIGHT && s.len() > MAX_VALIDATORS {
        rank::ranked::<Validator>(by_stake(s).take(MAX_VALIDATORS as int))
    } else {
        s
    }
}

/// Active validator set as of a height.
pub open spec fn set_at(db: Db, height: u64) -> Seq<ValidatorV> {
    seats(active_among(state::stakers_of(db), height), height)
}

/// Height of the next block.
pub open spec fn next_height(db: Db) -> u64 {
    match state::tip_height_of(db) {
        Some(h) => if h < u64::MAX {
            (h + 1) as u64
        } else {
            u64::MAX
        },
        None => 1,
    }
}

/// The validator an account is.
fn to_validator(address: &String, a: &Account) -> (r: Validator)
    ensures
        r@ == validator_of(address@, a@),
{
    Validator {
        address: address.clone(),
        stake: a.staked,
        rewards: a.rewards,
        blocks_produced: a.blocks_produced,
        jailed_until: a.penalties.jailed_until,
        tombstoned: a.penalties.tombstoned,
        missed_slots: a.penalties.missed_slots,
        slashed: a.penalties.slashed,
    }
}

/// Height of the next block.
pub fn upcoming(store: &Store) -> (r: u64)
    requires
        store.wf(),
    ensures
        r == next_height(store@.db),
{
    match store.tip_height() {
        Some(h) => h.saturating_add(1),
        None => 1,
    }
}

/// Active validator set at the chain tip.
pub fn validator_set(store: &Store) -> (r: Vec<Validator>)
    requires
        store.wf(),
    ensures
        rank::views(r@) == set_at(store@.db, next_height(store@.db)),
{
    validator_set_at(store, upcoming(store))
}

/// Active validator set as of a height: every account staking at least the minimum
/// that is neither jailed nor tombstoned, in address order; from the activation
/// height on only the largest stakes.
pub fn validator_set_at(store: &Store, height: u64) -> (r: Vec<Validator>)
    requires
        store.wf(),
    ensures
        rank::views(r@) == set_at(store@.db, height),
{
    let all = store.stake_accounts();
    let ghost v = rank::views(all@);
    let mut out: Vec<Validator> = Vec::new();
    let mut i: usize = 0;
    assert(rank::views(out@) =~= active_among(v.take(0), height));
    while i < all.len()
        invariant
            i <= all@.len(),
            v == rank::views(all@),
            rank::views(out@) == active_among(v.take(i as int), height),
        decreases all@.len() - i,
    {
        proof {
            assert(v.take(i + 1).drop_last() =~= v.take(i as int));
            assert(v.take(i + 1).last() == all@[i as int]@);
        }
        if all[i].1.is_active_validator(height) {
            let x = to_validator(&all[i].0, &all[i].1);
            let ghost was = rank::views(out@);
            let ghost xv = x@;
            out.push(x);
            assert(rank::views(out@) =~= was.push(xv));
        }
        i = i + 1;
    }
    assert(v.take(v.len() as int) =~= v);
    if height >= VALIDATOR_CAP_ACTIVATION_HEIGHT && out.len() > MAX_VALIDATORS {
        cut_down(out)
    } else {
        out
    }
}

/// Keeps the largest stakes, in address order.
fn cut_down(set: Vec<Validator>) -> (r: Vec<Validator>)
    requires
        set@.len() > MAX_VALIDATORS,
    ensures
        rank::views(r@) == rank::ranked::<Validator>(
            by_stake(rank::views(set@)).take(MAX_VALIDATORS as int),
        ),
{
    let ghost v = rank::views(set@);
    let mut heavy: Vec<Heavy> = Vec::new();
    let mut i: usize = 0;
    assert(rank::views(heavy@) =~= by_stake(v.take(0)));
    while i < set.len()
        invariant
            i <= set@.len(),
            v == rank::views(set@),
            heavy@.len() == i,
            rank::views(heavy@) == by_stake(v.take(i as int)),
        decreases set@.len() - i,
    {
        proof {
            assert(v.take(i + 1).drop_last() =~= v.take(i as int));
            assert(v.take(i + 1).last() == set@[i as int]@);
            lemma_seated(by_stake(v.take(i as int)), set@[i as int]@);
            lemma_by_stake_len(v.take(i + 1));
        }
        rank::place(&mut heavy, Heavy { v: set[i].clone() });
        i = i + 1;
        assert(rank::views(heavy@).len() == heavy@.len());
    }
    assert(v.take(v.len() as int) =~= v);
    let ghost best = by_stake(v).take(MAX_VALIDATORS as int);
    let mut out: Vec<Validator> = Vec::new();
    let mut k: usize = 0;
    assert(rank::views(out@) =~= rank::ranked::<Validator>(best.take(0)));
    while k < MAX_VALIDATORS
        invariant
            k <= MAX_VALIDATORS < heavy@.len(),
            rank::views(heavy@) == by_stake(v),
            best == by_stake(v).take(MAX_VALIDATORS as int),
            rank::views(out@) == rank::ranked::<Validator>(best.take(k as int)),
        decreases MAX_VALIDATORS - k,
    {
        proof {
            assert(rank::views(heavy@)[k as int] == heavy@[k as int]@);
            assert(best.take(k + 1).drop_last() =~= best.take(k as int));
            assert(best.take(k + 1).last() == heavy@[k as int].v@);
        }
        rank::place(&mut out, heavy[k].v.clone());
        k = k + 1;
    }
    assert(best.take(MAX_VALIDATORS as int) =~= best);
    out
}

proof fn lemma_seated_len(s: Seq<ValidatorV>, x: ValidatorV)
    ensures
        seated(s, x).len() == s.len() + 1,
    decreases s.len(),
{
    if s.len() > 0 {
        lemma_seated_len(s.drop_last(), x);
    }
}

proof fn lemma_by_stake_len(s: Seq<ValidatorV>)
    ensures
        by_stake(s).len() == s.len(),
    decreases s.len(),
{
    if s.len() > 0 {
        lemma_by_stake_len(s.drop_last());
        lemma_seated_len(by_stake(s.drop_last()), s.last());
    }
}

/// Every bonded account including jailed and tombstoned ones, for reporting.
pub fn bonded_set(store: &Store) -> (r: Vec<Validator>)
    requires
        store.wf(),
    ensures
        rank::views(r@) == bonded_among(state::stakers_of(store@.db)),
{
    let all = store.stake_accounts();
    let ghost v = rank::views(all@);
    let mut out: Vec<Validator> = Vec::new();
    let mut i: usize = 0;
    assert(rank::views(out@) =~= bonded_among(v.take(0)));
    while i < all.len()
        invariant
            i <= all@.len(),
            v == rank::views(all@),
            rank::views(out@) == bonded_among(v.take(i as int)),
        decreases all@.len() - i,
    {
        proof {
            assert(v.take(i + 1).drop_last() =~= v.take(i as int));
            assert(v.take(i + 1).last() == all@[i as int]@);
        }
        if all[i].1.staked > 0 {
            let x = to_validator(&all[i].0, &all[i].1);
            let ghost was = rank::views(out@);
            let ghost xv = x@;
            out.push(x);
            assert(rank::views(out@) =~= was.push(xv));
        }
        i = i + 1;
    }
    assert(v.take(v.len() as int) =~= v);
    out
}

// ---------------------------------------------------------------- leader election

/// Sum of the stakes of a set.
pub open spec fn stake_sum(s: Seq<ValidatorV>) -> nat
    decreases s.len(),
{
    if s.len() == 0 {
        0
    } else {
        stake_sum(s.drop_last()) + s.last().stake as nat
    }
}

/// Sum of the stakes of a set, capped at the largest amount.
pub fn total_stake(set: &Vec<Validator>) -> (r: u128)
    ensures
        r == types::cap128(stake_sum(rank::views(set@))),
{
    let ghost v = rank::views(set@);
    let mut total: u128 = 0;
    let mut i: usize = 0;
    while i < set.len()
        invariant
            i <= set@.len(),
            v == rank::views(set@),
            total == types::cap128(stake_sum(v.take(i as int))),
        decreases set@.len() - i,
    {
        proof {
            assert(v.take(i + 1).drop_last() =~= v.take(i as int));
            assert(v.take(i + 1).last() == set@[i as int]@);
        }
        total = total.saturating_add(set[i].stake);
        i = i + 1;
    }
    assert(v.take(v.len() as int) =~= v);
    total
}

/// The text an election hashes: the height and its parent, and on a later attempt its
/// number.
pub open spec fn election_text(height: nat, parent: Seq<char>, attempt: nat) -> Seq<char> {
    let first = "inazuma-leader|"@ + text::dec(height) + "|"@ + parent;
    if attempt == 0 {
        first
    } else {
        first + "|"@ + text::dec(attempt)
    }
}

/// The number an election draws before it is reduced.
pub open spec fn election_draw(height: nat, parent: Seq<char>, attempt: nat) -> nat {
    text::from_be(crypto::sha256_of(text::utf8(election_text(height, parent, attempt))).take(16))
}

/// The validator whose stretch of the stakes, laid end to end, holds a point.
pub open spec fn picked(s: Seq<ValidatorV>, point: nat) -> int
    decreases s.len(),
{
    if s.len() == 0 {
        -1
    } else if point < stake_sum(s.drop_last()) {
        picked(s.drop_last(), point)
    } else {
        s.len() - 1
    }
}

/// The leader of a height on an attempt.
pub open spec fn leader_of(
    s: Seq<ValidatorV>,
    height: nat,
    parent: Seq<char>,
    attempt: nat,
) -> Option<Seq<char>> {
    let total = types::cap128(stake_sum(s));
    if s.len() == 0 || total == 0 {
        None
    } else {
        Some(s[picked(s, election_draw(height, parent, attempt) % (total as nat))].address)
    }
}

/// Deterministic, stake-weighted leader of a height.
pub fn elect_leader(set: &Vec<Validator>, height: u64, parent_hash: &str) -> (r: Option<String>)
    ensures
        match r {
            Some(a) => leader_of(rank::views(set@), height as nat, parent_hash@, 0) == Some(a@),
            None => leader_of(rank::views(set@), height as nat, parent_hash@, 0) is None,
        },
{
    elect_leader_attempt(set, height, parent_hash, 0)
}

/// Leader of a height on a given attempt. Attempt zero is the primary slot owner; a
/// missed slot moves every node to the next attempt.
pub fn elect_leader_attempt(
    set: &Vec<Validator>,
    height: u64,
    parent_hash: &str,
    attempt: u64,
) -> (r: Option<String>)
    ensures
        match r {
            Some(a) => leader_of(
                rank::views(set@),
                height as nat,
                parent_hash@,
                attempt as nat,
            ) == Some(a@),
            None => leader_of(rank::views(set@), height as nat, parent_hash@, attempt as nat) is None,
        },
{
    let total = total_stake(set);
    if set.len() == 0 || total == 0 {
        return None;
    }
    let mut s = text::copy("inazuma-leader|");
    text::push_dec(&mut s, height as u128);
    s.append("|");
    s.append(parent_hash);
    if attempt > 0 {
        s.append("|");
        text::push_dec(&mut s, attempt as u128);
    }
    assert(s@ =~= election_text(height as nat, parent_hash@, attempt as nat));
    let seed = crypto::sha256(s.as_str().as_bytes());
    let head = vstd::slice::slice_subrange(&seed, 0, 16);
    assert(head@ =~= seed@.take(16));
    let draw: u128 = text::read_be(head) % total;
    let ghost v = rank::views(set@);
    let mut cursor: u128 = 0;
    let mut i: usize = 0;
    proof {
        assert(v.take(0) =~= Seq::<ValidatorV>::empty());
    }
    while i < set.len()
        invariant
            i <= set@.len(),
            v == rank::views(set@),
            v.len() == set@.len(),
            set@.len() > 0,
            total == types::cap128(stake_sum(v)),
            draw < total,
            total != 0,
            draw as nat == election_draw(height as nat, parent_hash@, attempt as nat) % (
            total as nat),
            cursor == types::cap128(stake_sum(v.take(i as int))),
            stake_sum(v.take(i as int)) <= draw,
        decreases set@.len() - i,
    {
        proof {
            assert(v.take(i + 1).drop_last() =~= v.take(i as int));
            assert(v.take(i + 1).last() == set@[i as int]@);
        }
        cursor = cursor.saturating_add(set[i].stake);
        if draw < cursor {
            proof {
                lemma_picked(v, draw as nat, i as int);
                assert(v[i as int] == set@[i as int]@);
            }
            return Some(set[i].address.clone());
        }
        i = i + 1;
    }
    proof {
        assert(v.take(v.len() as int) =~= v);
        assert(false);
    }
    None
}

/// Prefix sums of stakes never fall.
proof fn lemma_prefix_monotone(s: Seq<ValidatorV>, i: int, j: int)
    requires
        0 <= i <= j <= s.len(),
    ensures
        stake_sum(s.take(i)) <= stake_sum(s.take(j)),
    decreases j,
{
    if i < j {
        lemma_prefix_monotone(s, i, j - 1);
        assert(s.take(j).drop_last() =~= s.take(j - 1));
    }
}

proof fn lemma_picked(s: Seq<ValidatorV>, point: nat, i: int)
    requires
        0 <= i < s.len(),
        stake_sum(s.take(i)) <= point < stake_sum(s.take(i + 1)),
    ensures
        picked(s, point) == i,
    decreases s.len(),
{
    let d = s.drop_last();
    assert(s.take(s.len() - 1) =~= d);
    if i < s.len() - 1 {
        lemma_prefix_monotone(s, i + 1, s.len() - 1);
        assert(d.take(i) =~= s.take(i));
        assert(d.take(i + 1) =~= s.take(i + 1));
        lemma_picked(d, point, i);
    }
}

/// Election is weighted by stake: laid end to end, each validator's stretch is as long
/// as its stake, and it is elected exactly by the points of its stretch.
pub proof fn law_election_is_stake_weighted(s: Seq<ValidatorV>, i: int, point: nat)
    requires
        0 <= i < s.len(),
        point < stake_sum(s),
    ensures
        stake_sum(s.take(i + 1)) == stake_sum(s.take(i)) + s[i].stake,
        (picked(s, point) == i) == (stake_sum(s.take(i)) <= point < stake_sum(s.take(i + 1))),
{
    assert(s.take(i + 1).drop_last() =~= s.take(i));
    if stake_sum(s.take(i)) <= point < stake_sum(s.take(i + 1)) {
        lemma_picked(s, point, i);
    } else if picked(s, point) == i {
        lemma_picked_holds(s, point);
    }
}

pub proof fn lemma_picked_holds(s: Seq<ValidatorV>, point: nat)
    requires
        point < stake_sum(s),
    ensures
        0 <= picked(s, point) < s.len(),
        stake_sum(s.take(picked(s, point))) <= point < stake_sum(s.take(picked(s, point) + 1)),
    decreases s.len(),
{
    let d = s.drop_last();
    assert(s.take(s.len() - 1) =~= d);
    assert(s.take(s.len() as int) =~= s);
    if point < stake_sum(d) {
        lemma_picked_holds(d, point);
        let i = picked(d, point);
        assert(d.take(i) =~= s.take(i));
        assert(d.take(i + 1) =~= s.take(i + 1));
    }
}

/// A leader is elected exactly when some stake is bonded, and it is in the set.
pub proof fn law_leader_is_in_the_set(
    s: Seq<ValidatorV>,
    height: nat,
    parent: Seq<char>,
    attempt: nat,
)
    ensures
        leader_of(s, height, parent, attempt) is Some <==> stake_sum(s) > 0,
        leader_of(s, height, parent, attempt) matches Some(a) ==> exists|i: int|
            0 <= i < s.len() && (#[trigger] s[i]).address == a && s[i].stake > 0,
{
    if s.len() == 0 {
        assert(stake_sum(s) == 0);
    }
    let total = types::cap128(stake_sum(s)) as nat;
    if stake_sum(s) > 0 {
        let point = election_draw(height, parent, attempt) % total;
        vstd::arithmetic::div_mod::lemma_mod_bound(
            election_draw(height, parent, attempt) as int,
            total as int,
        );
        lemma_picked_holds(s, point);
        let i = picked(s, point);
        assert(s.take(i + 1).drop_last() =~= s.take(i));
        assert(s[i].address == leader_of(s, height, parent, attempt).unwrap());
    }
}

// ---------------------------------------------------------------- rewards

/// A saturating sum of two amounts.
pub open spec fn capped_sum(a: u128, b: nat) -> u128 {
    types::cap128(a as nat + b)
}

/// An account with a reward credited.
pub open spec fn rewarded(a: AccountV, amount: nat) -> AccountV {
    AccountV {
        balance: capped_sum(a.balance, amount),
        rewards: capped_sum(a.rewards, amount),
        ..a
    }
}

/// An account credited as leader of a block.
pub open spec fn led(a: AccountV, income: nat, reward: nat) -> AccountV {
    AccountV {
        balance: capped_sum(a.balance, income),
        rewards: capped_sum(a.rewards, reward),
        blocks_produced: if a.blocks_produced < u64::MAX {
            (a.blocks_produced + 1) as u64
        } else {
            u64::MAX
        },
        ..a
    }
}

/// The leader's commission on the block reward.
pub open spec fn commission() -> nat {
    (BLOCK_REWARD * LEADER_COMMISSION_PCT / 100) as nat
}

/// The part of the block reward the set shares.
pub open spec fn shared_reward() -> nat {
    (BLOCK_REWARD - commission()) as nat
}

/// A validator's cut of the shared reward.
pub open spec fn cut_of(v: ValidatorV, total: nat) -> nat {
    shared_reward() * (v.stake as nat) / total
}

/// All cuts of a set.
pub open spec fn cuts(s: Seq<ValidatorV>, total: nat) -> nat
    decreases s.len(),
{
    if s.len() == 0 {
        0
    } else {
        cuts(s.drop_last(), total) + cut_of(s.last(), total)
    }
}

/// The database with every cut credited, in order.
pub open spec fn shared_out(db: Db, s: Seq<ValidatorV>, total: nat) -> Db
    decreases s.len(),
{
    if s.len() == 0 {
        db
    } else {
        let d = shared_out(db, s.drop_last(), total);
        let cut = cut_of(s.last(), total);
        if cut == 0 {
            d
        } else {
            state::with_account(
                d,
                s.last().address,
                rewarded(state::account_of(d, s.last().address), cut),
            )
        }
    }
}

/// What the leader gets of the block reward: the commission and the rounding dust.
pub open spec fn leader_reward(s: Seq<ValidatorV>, total: nat) -> nat {
    commission() + if cuts(s, total) <= shared_reward() {
        (shared_reward() - cuts(s, total)) as nat
    } else {
        0
    }
}

/// The database with a sealed block's fees and reward paid out.
pub open spec fn paid(db: Db, leader: Seq<char>, fees: nat) -> Db {
    let s = set_at(db, next_height(db));
    let total = types::cap128(stake_sum(s)) as nat;
    if s.len() == 0 || total == 0 {
        state::with_account(
            db,
            leader,
            led(state::account_of(db, leader), fees + BLOCK_REWARD as nat, BLOCK_REWARD as nat),
        )
    } else {
        let d = shared_out(db, s, total);
        state::with_account(
            d,
            leader,
            led(
                state::account_of(d, leader),
                fees + leader_reward(s, total),
                leader_reward(s, total),
            ),
        )
    }
}

proof fn lemma_quotient(a: int, b: int, c: int, q: int, r: int)
    requires
        0 <= a,
        0 <= b <= c,
        c > 0,
        0 <= r,
        a * b == q * c + r,
    ensures
        q <= a,
{
    if q > a {
        assert(q * c >= (a + 1) * c) by (nonlinear_arith)
            requires
                q >= a + 1,
                c > 0,
        ;
        assert((a + 1) * c > a * b) by (nonlinear_arith)
            requires
                0 <= a,
                0 <= b <= c,
                c > 0,
        ;
    }
}

/// `a * b / c` without overflow, and the remainder.
fn share(a: u64, b: u128, c: u128) -> (r: (u128, u128))
    requires
        b <= c,
        c > 0,
    ensures
        r.0 <= a,
        r.1 < c,
        a * b == r.0 * c + r.1,
    decreases a,
{
    if a == 0 {
        return (0, 0);
    }
    let half: u64 = a / 2;
    let (q, r) = share(half, b, c);
    let ghost q0 = q as int;
    let ghost r0 = r as int;
    let mut q2: u128 = 2 * q;
    let mut r2: u128 = 0;
    if r >= c - r {
        q2 = q2 + 1;
        r2 = r - (c - r);
    } else {
        r2 = r + r;
    }
    proof {
        assert(2 * (half * b) == q2 * c + r2) by (nonlinear_arith)
            requires
                half * b == q0 * c + r0,
                (q2 == 2 * q0 + 1 && r2 == 2 * r0 - c) || (q2 == 2 * q0 && r2 == 2 * r0),
        ;
    }
    if a % 2 == 0 {
        proof {
            assert(a * b == 2 * (half * b)) by (nonlinear_arith)
                requires
                    a == 2 * half,
            ;
            lemma_quotient(a as int, b as int, c as int, q2 as int, r2 as int);
        }
        return (q2, r2);
    }
    let ghost q1 = q2 as int;
    let ghost r1 = r2 as int;
    if r2 >= c - b {
        q2 = q2 + 1;
        r2 = r2 - (c - b);
    } else {
        r2 = r2 + b;
    }
    proof {
        assert(a * b == 2 * (half * b) + b) by (nonlinear_arith)
            requires
                a == 2 * half + 1,
        ;
        assert(2 * (half * b) + b == q2 * c + r2) by (nonlinear_arith)
            requires
                2 * (half * b) == q1 * c + r1,
                (q2 == q1 + 1 && r2 == r1 + b - c) || (q2 == q1 && r2 == r1 + b),
        ;
        lemma_quotient(a as int, b as int, c as int, q2 as int, r2 as int);
    }
    (q2, r2)
}

/// A validator's cut of the shared reward.
fn reward_cut(stake: u128, total: u128) -> (r: u128)
    requires
        stake <= total,
        total > 0,
    ensures
        r == shared_reward() * (stake as nat) / (total as nat),
        r <= shared_reward(),
{
    let (q, rest) = share(8_000_000, stake, total);
    proof {
        vstd::arithmetic::div_mod::lemma_fundamental_div_mod_converse(
            (8_000_000 * stake) as int,
            total as int,
            q as int,
            rest as int,
        );
    }
    q
}

/// Credits a reward.
fn credit(store: &mut Store, address: &str, amount: u128)
    requires
        old(store).wf(),
    ensures
        state::follows(*old(store), *final(store)),
        final(store)@.db == state::with_account(
            old(store)@.db,
            address@,
            rewarded(state::account_of(old(store)@.db, address@), amount as nat),
        ),
{
    let mut acct = store.account(address);
    acct.balance = acct.balance.saturating_add(amount);
    acct.rewards = acct.rewards.saturating_add(amount);
    store.set_account(address, &acct);
}

/// Credits a leader.
fn credit_leader(store: &mut Store, leader: &str, fees: u128, reward: u128)
    requires
        old(store).wf(),
    ensures
        state::follows(*old(store), *final(store)),
        final(store)@.db == state::with_account(
            old(store)@.db,
            leader@,
            led(
                state::account_of(old(store)@.db, leader@),
                fees as nat + reward as nat,
                reward as nat,
            ),
        ),
{
    let mut acct = store.account(leader);
    acct.balance = acct.balance.saturating_add(fees).saturating_add(reward);
    acct.rewards = acct.rewards.saturating_add(reward);
    acct.blocks_produced = acct.blocks_produced.saturating_add(1);
    store.set_account(leader, &acct);
}

proof fn lemma_stake_within(s: Seq<ValidatorV>, i: int)
    requires
        0 <= i < s.len(),
    ensures
        s[i].stake <= stake_sum(s),
    decreases s.len(),
{
    if i < s.len() - 1 {
        lemma_stake_within(s.drop_last(), i);
    }
}

/// Credits a sealed block's fees and reward. The leader takes the fees plus a
/// commission; the rest of the reward is split across the set by stake.
pub fn pay_rewards(store: &mut Store, leader: &str, fees: u128)
    requires
        old(store).wf(),
    ensures
        state::follows(*old(store), *final(store)),
        final(store)@.db == paid(old(store)@.db, leader@, fees as nat),
{
    let set = validator_set(store);
    let total = total_stake(&set);
    if set.len() == 0 || total == 0 {
        credit_leader(store, leader, fees, BLOCK_REWARD);
        return;
    }
    let ghost db0 = store@.db;
    let ghost v = rank::views(set@);
    let mut distributed: u128 = 0;
    let mut i: usize = 0;
    proof {
        assert(v.take(0) =~= Seq::<ValidatorV>::empty());
    }
    while i < set.len()
        invariant
            i <= set@.len(),
            v == rank::views(set@),
            total == types::cap128(stake_sum(v)),
            total > 0,
            state::follows(*old(store), *store),
            store@.db == shared_out(db0, v.take(i as int), total as nat),
            distributed == types::cap128(cuts(v.take(i as int), total as nat)),
        decreases set@.len() - i,
    {
        proof {
            assert(v.take(i + 1).drop_last() =~= v.take(i as int));
            assert(v.take(i + 1).last() == set@[i as int]@);
            lemma_stake_within(v, i as int);
            assert(v[i as int] == set@[i as int]@);
        }
        let cut = reward_cut(set[i].stake, total);
        if cut != 0 {
            distributed = distributed.saturating_add(cut);
            credit(store, set[i].address.as_str(), cut);
        }
        i = i + 1;
    }
    assert(v.take(v.len() as int) =~= v);
    let shared: u128 = 8_000_000;
    let dust: u128 = if distributed <= shared {
        shared - distributed
    } else {
        0
    };
    credit_leader(store, leader, fees, 2_000_000 + dust);
}

/// Cuts of a set never exceed the shared reward.
pub proof fn lemma_cuts_bound(s: Seq<ValidatorV>, total: nat)
    requires
        total > 0,
    ensures
        cuts(s, total) * total <= shared_reward() * stake_sum(s),
    decreases s.len(),
{
    if s.len() > 0 {
        lemma_cuts_bound(s.drop_last(), total);
        let a = shared_reward() * (s.last().stake as nat);
        vstd::arithmetic::div_mod::lemma_fundamental_div_mod(a as int, total as int);
        assert(cut_of(s.last(), total) * total <= a) by (nonlinear_arith)
            requires
                a as int == total * (a / total) + a % total,
                cut_of(s.last(), total) == a / total,
                a % total >= 0,
        ;
        let c = cuts(s.drop_last(), total);
        let k = cut_of(s.last(), total);
        assert((c + k) * total == c * total + k * total) by (nonlinear_arith);
        let x = stake_sum(s.drop_last());
        let y = s.last().stake as nat;
        assert(shared_reward() * (x + y) == shared_reward() * x + shared_reward() * y)
            by (nonlinear_arith);
    } else {
        assert(cuts(s, total) * total == 0) by (nonlinear_arith)
            requires
                cuts(s, total) == 0,
        ;
    }
}

proof fn lemma_shared_out_supply(db: Db, s: Seq<ValidatorV>, total: nat)
    requires
        supply::sound(db),
        state::supply_of(db) + cuts(s, total) <= u128::MAX,
    ensures
        supply::sound(shared_out(db, s, total)),
        state::supply_of(shared_out(db, s, total)) == state::supply_of(db) + cuts(s, total),
    decreases s.len(),
{
    if s.len() > 0 {
        lemma_shared_out_supply(db, s.drop_last(), total);
        let d = shared_out(db, s.drop_last(), total);
        let cut = cut_of(s.last(), total);
        if cut != 0 {
            let a = s.last().address;
            supply::lemma_account_within_supply(d, a);
            supply::lemma_supply_after(d, a, rewarded(state::account_of(d, a), cut));
        }
    }
}

/// A block pays out exactly its fees and the block reward: that is what the total
/// supply grows by, whatever the validator set, as long as amounts fit in 128 bits.
pub proof fn law_rewards_are_conserved(db: Db, leader: Seq<char>, fees: nat)
    requires
        supply::sound(db),
        state::supply_of(db) + fees + BLOCK_REWARD <= u128::MAX,
        stake_sum(set_at(db, next_height(db))) <= u128::MAX,
    ensures
        supply::sound(paid(db, leader, fees)),
        state::supply_of(paid(db, leader, fees)) == state::supply_of(db) + fees + BLOCK_REWARD,
{
    let s = set_at(db, next_height(db));
    let total = types::cap128(stake_sum(s)) as nat;
    if s.len() == 0 || total == 0 {
        supply::lemma_account_within_supply(db, leader);
        supply::lemma_supply_after(
            db,
            leader,
            led(state::account_of(db, leader), fees + BLOCK_REWARD as nat, BLOCK_REWARD as nat),
        );
    } else {
        lemma_cuts_bound(s, total);
        assert(cuts(s, total) <= shared_reward()) by (nonlinear_arith)
            requires
                cuts(s, total) * total <= shared_reward() * stake_sum(s),
                stake_sum(s) == total,
                total > 0,
        ;
        lemma_shared_out_supply(db, s, total);
        let d = shared_out(db, s, total);
        supply::lemma_account_within_supply(d, leader);
        supply::lemma_supply_after(
            d,
            leader,
            led(
                state::account_of(d, leader),
                fees + leader_reward(s, total),
                leader_reward(s, total),
            ),
        );
    }
}

proof fn lemma_shared_out_earnings(db: Db, s: Seq<ValidatorV>, total: nat)
    requires
        supply::sound(db),
        supply::earnings_of(db) + cuts(s, total) <= u128::MAX,
    ensures
        supply::sound(shared_out(db, s, total)),
        supply::earnings_of(shared_out(db, s, total)) == supply::earnings_of(db) + cuts(s, total),
    decreases s.len(),
{
    if s.len() > 0 {
        lemma_shared_out_earnings(db, s.drop_last(), total);
        let d = shared_out(db, s.drop_last(), total);
        let cut = cut_of(s.last(), total);
        if cut != 0 {
            let a = s.last().address;
            supply::lemma_earnings_after(d, a, rewarded(state::account_of(d, a), cut));
        }
    }
}

/// Every block adds exactly the block reward to what accounts earned, whatever the
/// validator set and its rounding, and its fees count as no reward.
pub proof fn law_earnings_grow_by_the_reward(db: Db, leader: Seq<char>, fees: nat)
    requires
        supply::sound(db),
        supply::earnings_of(db) + BLOCK_REWARD <= u128::MAX,
        stake_sum(set_at(db, next_height(db))) <= u128::MAX,
    ensures
        supply::earnings_of(paid(db, leader, fees)) == supply::earnings_of(db) + BLOCK_REWARD,
{
    let s = set_at(db, next_height(db));
    let total = types::cap128(stake_sum(s)) as nat;
    if s.len() == 0 || total == 0 {
        supply::lemma_earnings_after(
            db,
            leader,
            led(state::account_of(db, leader), fees + BLOCK_REWARD as nat, BLOCK_REWARD as nat),
        );
    } else {
        lemma_cuts_bound(s, total);
        assert(cuts(s, total) <= shared_reward()) by (nonlinear_arith)
            requires
                cuts(s, total) * total <= shared_reward() * stake_sum(s),
                stake_sum(s) == total,
                total > 0,
        ;
        lemma_shared_out_earnings(db, s, total);
        let d = shared_out(db, s, total);
        supply::lemma_earnings_after(
            d,
            leader,
            led(
                state::account_of(d, leader),
                fees + leader_reward(s, total),
                leader_reward(s, total),
            ),
        );
    }
}

// ---------------------------------------------------------------- unbonding

/// What matures at a height.
pub open spec fn matured(u: Seq<Unbond>, height: u64) -> nat
    decreases u.len(),
{
    if u.len() == 0 {
        0
    } else {
        matured(u.drop_last(), height) + if u.last().release_height <= height {
            u.last().amount as nat
        } else {
            0
        }
    }
}

/// What stays locked at a height.
pub open spec fn still_locked(u: Seq<Unbond>, height: u64) -> Seq<Unbond>
    decreases u.len(),
{
    if u.len() == 0 {
        u
    } else if u.last().release_height <= height {
        still_locked(u.drop_last(), height)
    } else {
        still_locked(u.drop_last(), height).push(u.last())
    }
}

/// An account with everything matured at a height credited.
pub open spec fn released(a: AccountV, height: u64) -> AccountV {
    AccountV {
        balance: capped_sum(a.balance, matured(a.unbonding, height)),
        unbonding: still_locked(a.unbonding, height),
        ..a
    }
}

/// Something of an account matures at a height.
pub open spec fn ripe(a: AccountV, height: u64) -> bool {
    still_locked(a.unbonding, height).len() != a.unbonding.len()
}

/// The database with everything matured among accounts released.
pub open spec fn all_released(db: Db, s: Seq<(Seq<char>, AccountV)>, height: u64) -> Db
    decreases s.len(),
{
    if s.len() == 0 {
        db
    } else {
        let d = all_released(db, s.drop_last(), height);
        if ripe(s.last().1, height) {
            state::with_account(d, s.last().0, released(s.last().1, height))
        } else {
            d
        }
    }
}

/// Addresses among accounts of which something matures.
pub open spec fn ripe_names(s: Seq<(Seq<char>, AccountV)>, height: u64) -> Seq<Seq<char>>
    decreases s.len(),
{
    if s.len() == 0 {
        Seq::empty()
    } else if ripe(s.last().1, height) {
        ripe_names(s.drop_last(), height).push(s.last().0)
    } else {
        ripe_names(s.drop_last(), height)
    }
}

pub proof fn lemma_still_locked_len(u: Seq<Unbond>, height: u64)
    ensures
        still_locked(u, height).len() <= u.len(),
        types::unbond_sum(still_locked(u, height)) + matured(u, height) == types::unbond_sum(u),
        still_locked(u, height).len() == u.len() ==> still_locked(u, height) == u && matured(
            u,
            height,
        ) == 0,
    decreases u.len(),
{
    if u.len() > 0 {
        lemma_still_locked_len(u.drop_last(), height);
        if u.last().release_height > height {
            let t = still_locked(u.drop_last(), height);
            assert(t.push(u.last()).drop_last() =~= t);
            if t.len() == u.len() - 1 {
                assert(t.push(u.last()) =~= u);
            }
        }
    }
}

/// Splits unbonding entries at a height: what matures and what stays.
fn split_unbonding(u: &Vec<Unbond>, height: u64) -> (r: (u128, Vec<Unbond>))
    ensures
        r.0 == types::cap128(matured(u@, height)),
        r.1@ == still_locked(u@, height),
{
    let mut total: u128 = 0;
    let mut keep: Vec<Unbond> = Vec::new();
    let mut i: usize = 0;
    assert(keep@ =~= still_locked(u@.take(0), height));
    while i < u.len()
        invariant
            i <= u@.len(),
            total == types::cap128(matured(u@.take(i as int), height)),
            keep@ == still_locked(u@.take(i as int), height),
        decreases u@.len() - i,
    {
        proof {
            assert(u@.take(i + 1).drop_last() =~= u@.take(i as int));
            assert(u@.take(i + 1).last() == u@[i as int]);
        }
        if u[i].release_height <= height {
            total = total.saturating_add(u[i].amount);
        } else {
            keep.push(u[i]);
        }
        i = i + 1;
    }
    assert(u@.take(u@.len() as int) =~= u@);
    (total, keep)
}

/// Releases every unbonding entry that has matured at a height and returns the
/// addresses that were unlocked.
pub fn release_unbonded(store: &mut Store, height: u64) -> (r: Vec<String>)
    requires
        old(store).wf(),
    ensures
        state::follows(*old(store), *final(store)),
        final(store)@.db == all_released(
            old(store)@.db,
            state::stakers_of(old(store)@.db),
            height,
        ),
        types::texts(r@) == ripe_names(state::stakers_of(old(store)@.db), height),
{
    let all = store.stake_accounts();
    let ghost v = rank::views(all@);
    let ghost db0 = store@.db;
    let mut out: Vec<String> = Vec::new();
    let mut i: usize = 0;
    assert(types::texts(out@) =~= ripe_names(v.take(0), height));
    proof {
        assert(v.take(0) =~= Seq::<(Seq<char>, AccountV)>::empty());
    }
    while i < all.len()
        invariant
            i <= all@.len(),
            v == rank::views(all@),
            state::follows(*old(store), *store),
            store@.db == all_released(db0, v.take(i as int), height),
            types::texts(out@) == ripe_names(v.take(i as int), height),
        decreases all@.len() - i,
    {
        proof {
            assert(v.take(i + 1).drop_last() =~= v.take(i as int));
            assert(v.take(i + 1).last() == all@[i as int]@);
        }
        let (amount, keep) = split_unbonding(&all[i].1.unbonding, height);
        if keep.len() != all[i].1.unbonding.len() {
            let mut acct = all[i].1.clone();
            acct.balance = acct.balance.saturating_add(amount);
            acct.unbonding = keep;
            store.set_account(all[i].0.as_str(), &acct);
            let name = all[i].0.clone();
            let ghost was = types::texts(out@);
            out.push(name);
            assert(types::texts(out@) =~= was.push(all@[i as int].0@));
        }
        i = i + 1;
    }
    assert(v.take(v.len() as int) =~= v);
    out
}

/// Unbonding moves what matured into the spendable balance and nothing else: the
/// account owns what it did, and nothing matured stays locked.
pub proof fn law_unbonding_conserves(a: AccountV, height: u64)
    requires
        a.worth() <= u128::MAX,
    ensures
        released(a, height).worth() == a.worth(),
        released(a, height).balance == a.balance + matured(a.unbonding, height),
        matured(released(a, height).unbonding, height) == 0,
{
    lemma_still_locked_len(a.unbonding, height);
    lemma_still_late(a.unbonding, height);
}

proof fn lemma_still_late(u: Seq<Unbond>, height: u64)
    ensures
        matured(still_locked(u, height), height) == 0,
    decreases u.len(),
{
    if u.len() > 0 {
        lemma_still_late(u.drop_last(), height);
        if u.last().release_height > height {
            let t = still_locked(u.drop_last(), height);
            assert(t.push(u.last()).drop_last() =~= t);
        }
    }
}

/// Every account of a list is the one the database holds, and no address occurs twice.
pub open spec fn mirrors(db: Db, s: Seq<(Seq<char>, AccountV)>) -> bool {
    &&& forall|i: int| 0 <= i < s.len() ==> (#[trigger] s[i]).1 == state::account_of(db, s[i].0)
    &&& forall|i: int, j: int|
        0 <= i < j < s.len() ==> (#[trigger] s[i]).0 != (#[trigger] s[j]).0
}

pub proof fn lemma_released_other(db: Db, s: Seq<(Seq<char>, AccountV)>, height: u64, a: Seq<char>)
    requires
        supply::sound(db),
        forall|i: int| 0 <= i < s.len() ==> (#[trigger] s[i]).0 != a,
    ensures
        all_released(db, s, height).len() == 16,
        state::account_of(all_released(db, s, height), a) == state::account_of(db, a),
    decreases s.len(),
{
    if s.len() > 0 {
        let d = s.drop_last();
        assert forall|i: int| 0 <= i < d.len() implies (#[trigger] d[i]).0 != a by {
            assert(d[i] == s[i]);
        }
        lemma_released_other(db, d, height, a);
        assert(s[s.len() - 1].0 != a);
        supply::lemma_account_after(
            all_released(db, d, height),
            s.last().0,
            released(s.last().1, height),
            a,
        );
        supply::lemma_account_frame(
            all_released(db, d, height),
            s.last().0,
            released(s.last().1, height),
        );
    }
}

/// Releasing everything that matured keeps the total supply.
pub proof fn law_release_conserves_supply(db: Db, s: Seq<(Seq<char>, AccountV)>, height: u64)
    requires
        supply::sound(db),
        mirrors(db, s),
        state::supply_of(db) <= u128::MAX,
    ensures
        supply::sound(all_released(db, s, height)),
        state::supply_of(all_released(db, s, height)) == state::supply_of(db),
    decreases s.len(),
{
    if s.len() > 0 {
        let t = s.drop_last();
        assert(mirrors(db, t)) by {
            assert forall|i: int| 0 <= i < t.len() implies (#[trigger] t[i]).1
                == state::account_of(db, t[i].0) by {
                assert(t[i] == s[i]);
            }
            assert forall|i: int, j: int| 0 <= i < j < t.len() implies (#[trigger] t[i]).0 != (
            #[trigger] t[j]).0 by {
                assert(t[i] == s[i] && t[j] == s[j]);
            }
        }
        law_release_conserves_supply(db, t, height);
        let d = all_released(db, t, height);
        let a = s.last().0;
        let l = s.len() - 1;
        assert forall|i: int| 0 <= i < t.len() implies (#[trigger] t[i]).0 != a by {
            assert(t[i] == s[i]);
            assert(s[i].0 != s[l].0);
        }
        lemma_released_other(db, t, height, a);
        assert(s[l].1 == state::account_of(db, s[l].0));
        supply::lemma_account_within_supply(db, a);
        law_unbonding_conserves(s.last().1, height);
        supply::lemma_supply_after(d, a, released(s.last().1, height));
    }
}

} // verus!
