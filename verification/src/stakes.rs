//! What staking is for: whoever bonds enough sits in the validator set, the block reward is
//! split by stake, and what was unbonded comes back.

use crate::conserve;
use crate::journal::Db;
use crate::rank;
use crate::staking;
use crate::staking::ValidatorV;
use crate::state;
use crate::supply;
use crate::table;
use crate::text;
use crate::types;
use crate::types::AccountV;
use crate::types::Unbond;
use vstd::prelude::*;
use vstd::string::*;

verus! {

// ---------------------------------------------------------------- the set

/// Who may sit in the set at a height: a thousand INAZ or more bonded, no tombstone, and no
/// jail that counts then. A jail counts until its height; one for downtime counts no more
/// from the height at which those were retired.
pub open spec fn electable(a: AccountV, height: u64) -> bool {
    &&& a.staked >= 1_000_000_000_000
    &&& !a.penalties.tombstoned
    &&& a.penalties.jailed_until <= height || (height >= 1_400_000 && !a.penalties.jail_fault
        && a.penalties.jailed_until < u64::MAX)
}

/// Being active is exactly that.
pub proof fn law_active_is_electable(a: AccountV, height: u64)
    requires
        height < u64::MAX,
    ensures
        a.active(height) <==> electable(a, height),
{
}

/// Every account with stake or locks is listed among the stakers, and nobody else.
pub open spec fn listed(db: Db) -> bool {
    forall|a: Seq<char>|
        #[trigger] db[4].contains_key(text::utf8(a)) <==> (state::account_of(db, a).staked > 0
            || state::account_of(db, a).unbonding.len() > 0)
}

/// Writing an account keeps the list of stakers right.
pub proof fn law_stakers_stay_listed(db: Db, address: Seq<char>, v: AccountV)
    requires
        db.len() == 16,
        listed(db),
    ensures
        listed(state::with_account(db, address, v)),
{
    let d = state::with_account(db, address, v);
    assert forall|a: Seq<char>| #[trigger] d[4].contains_key(text::utf8(a)) <==> (
    state::account_of(d, a).staked > 0 || state::account_of(d, a).unbonding.len() > 0) by {
        supply::lemma_account_after(db, address, v, a);
        if text::utf8(a) == text::utf8(address) {
            text::lemma_utf8_injective(a, address);
        }
        assert(db[4].contains_key(text::utf8(a)) <==> (state::account_of(db, a).staked > 0
            || state::account_of(db, a).unbonding.len() > 0));
    }
}

/// No two validators of a set have one address.
pub open spec fn distinct(s: Seq<ValidatorV>) -> bool {
    forall|i: int, j: int|
        0 <= i < j < s.len() ==> (#[trigger] s[i]).address != (#[trigger] s[j]).address
}

/// Every validator of a list is an account of the database that may sit at a height.
pub open spec fn drawn_from(db: Db, s: Seq<ValidatorV>, height: u64) -> bool {
    forall|i: int| 0 <= i < s.len() ==> {
        let a = state::account_of(db, (#[trigger] s[i]).address);
        s[i].stake == a.staked && a.active(height)
    }
}

proof fn lemma_active_among(db: Db, s: Seq<(Seq<char>, AccountV)>, height: u64)
    requires
        staking::mirrors(db, s),
    ensures
        drawn_from(db, staking::active_among(s, height), height),
        distinct(staking::active_among(s, height)),
        staking::active_among(s, height).len() <= s.len(),
        forall|i: int|
            0 <= i < staking::active_among(s, height).len() ==> exists|k: int|
                0 <= k < s.len() && (#[trigger] s[k]).0 == (#[trigger] staking::active_among(
                    s,
                    height,
                )[i]).address,
        forall|k: int|
            0 <= k < s.len() && (#[trigger] s[k]).1.active(height) ==> conserve::seated(
                staking::active_among(s, height),
                s[k].0,
            ),
    decreases s.len(),
{
    let all = staking::active_among(s, height);
    if s.len() > 0 {
        let t = s.drop_last();
        assert forall|i: int| 0 <= i < t.len() implies (#[trigger] t[i]).1 == state::account_of(
            db,
            t[i].0,
        ) by {
            assert(t[i] == s[i]);
        }
        assert forall|i: int, j: int| 0 <= i < j < t.len() implies (#[trigger] t[i]).0 != (
        #[trigger] t[j]).0 by {
            assert(t[i] == s[i] && t[j] == s[j]);
        }
        lemma_active_among(db, t, height);
        let rest = staking::active_among(t, height);
        let l = s.len() - 1;
        assert(s[l].1 == state::account_of(db, s[l].0));
        assert forall|i: int| 0 <= i < all.len() implies {
            let a = state::account_of(db, (#[trigger] all[i]).address);
            all[i].stake == a.staked && a.active(height)
        } by {
            if i < rest.len() {
                assert(all[i] == rest[i]);
            }
        }
        assert forall|i: int| 0 <= i < all.len() implies exists|k: int|
            0 <= k < s.len() && (#[trigger] s[k]).0 == (#[trigger] all[i]).address by {
            if i < rest.len() {
                assert(all[i] == rest[i]);
                let k = choose|k: int| 0 <= k < t.len() && (#[trigger] t[k]).0 == rest[i].address;
                assert(s[k].0 == all[i].address);
            } else {
                assert(s[l].0 == all[i].address);
            }
        }
        assert forall|i: int, j: int| 0 <= i < j < all.len() implies (#[trigger] all[i]).address
            != (#[trigger] all[j]).address by {
            assert(all[i] == rest[i]);
            if j < rest.len() {
                assert(all[j] == rest[j]);
            } else {
                let k = choose|k: int| 0 <= k < t.len() && (#[trigger] t[k]).0 == rest[i].address;
                assert(t[k] == s[k]);
                assert(s[k].0 != s[l].0);
            }
        }
        assert forall|k: int| 0 <= k < s.len() && (#[trigger] s[k]).1.active(
            height,
        ) implies conserve::seated(all, s[k].0) by {
            if k < t.len() {
                assert(t[k] == s[k]);
                assert(conserve::seated(rest, t[k].0));
                let i = choose|i: int| 0 <= i < rest.len() && (#[trigger] rest[i]).address == t[k].0;
                assert(all[i] == rest[i]);
            } else {
                assert(all[all.len() - 1].address == s[k].0);
            }
        }
    }
}

/// A list holds a validator.
spec fn holds(s: Seq<ValidatorV>, v: ValidatorV) -> bool {
    exists|k: int| 0 <= k < s.len() && #[trigger] s[k] == v
}

proof fn lemma_same_members(s: Seq<ValidatorV>, t: Seq<ValidatorV>)
    requires
        s.to_multiset() == t.to_multiset(),
        distinct(s),
    ensures
        distinct(t),
        forall|i: int| 0 <= i < t.len() ==> holds(s, #[trigger] t[i]),
{
    broadcast use vstd::seq_lib::group_to_multiset_ensures;

    assert(s.no_duplicates()) by {
        assert forall|i: int, j: int| 0 <= i < s.len() && 0 <= j < s.len() && i != j implies s[i]
            != s[j] by {
            if i < j {
                assert(s[i].address != s[j].address);
            } else {
                assert(s[j].address != s[i].address);
            }
        }
    }
    s.lemma_multiset_has_no_duplicates();
    t.lemma_multiset_has_no_duplicates_conv();
    assert forall|i: int| 0 <= i < t.len() implies holds(s, #[trigger] t[i]) by {
        assert(t.contains(t[i]));
        assert(t.to_multiset().count(t[i]) > 0);
        assert(s.contains(t[i]));
    }
    assert forall|i: int, j: int| 0 <= i < j < t.len() implies (#[trigger] t[i]).address != (
    #[trigger] t[j]).address by {
        assert(holds(s, t[i]) && holds(s, t[j]));
        let a = choose|k: int| 0 <= k < s.len() && #[trigger] s[k] == t[i];
        let b = choose|k: int| 0 <= k < s.len() && #[trigger] s[k] == t[j];
        assert(t[i] != t[j]);
        if a < b {
            assert(s[a].address != s[b].address);
        } else {
            assert(s[b].address != s[a].address);
        }
    }
}

/// Whoever sits in the set has the account to: the stake counted is the stake bonded, and
/// the account may sit at that height. Nobody sits twice.
pub proof fn law_set_seats_the_electable(db: Db, height: u64)
    requires
        conserve::steady(db),
        height < u64::MAX,
    ensures
        distinct(staking::set_at(db, height)),
        forall|i: int| 0 <= i < staking::set_at(db, height).len() ==> {
            let v = #[trigger] staking::set_at(db, height)[i];
            let a = state::account_of(db, v.address);
            v.stake == a.staked && electable(a, height)
        },
{
    conserve::lemma_stakers_mirror(db);
    let all = staking::active_among(state::stakers_of(db), height);
    lemma_active_among(db, state::stakers_of(db), height);
    let set = staking::set_at(db, height);
    if height >= staking::VALIDATOR_CAP_ACTIVATION_HEIGHT && all.len() > staking::MAX_VALIDATORS {
        let by = staking::by_stake(all);
        staking::law_by_stake_orders(all, 0, 1);
        lemma_same_members(all, by);
        let top = by.take(staking::MAX_VALIDATORS as int);
        assert forall|i: int, j: int| 0 <= i < j < top.len() implies (#[trigger] top[i]).address
            != (#[trigger] top[j]).address by {
            assert(top[i] == by[i] && top[j] == by[j]);
        }
        rank::law_ranking_keeps_values::<staking::Validator>(top);
        lemma_same_members(top, set);
        assert forall|i: int| 0 <= i < set.len() implies {
            let a = state::account_of(db, (#[trigger] set[i]).address);
            set[i].stake == a.staked && a.active(height)
        } by {
            assert(holds(top, set[i]));
            let k = choose|k: int| 0 <= k < top.len() && #[trigger] top[k] == set[i];
            assert(by[k] == top[k]);
            assert(holds(all, by[k]));
            let m = choose|m: int| 0 <= m < all.len() && #[trigger] all[m] == by[k];
            assert(all[m].stake == state::account_of(db, all[m].address).staked);
        }
    }
    assert(drawn_from(db, set, height));
    assert forall|i: int| 0 <= i < set.len() implies {
        let v = #[trigger] set[i];
        let a = state::account_of(db, v.address);
        v.stake == a.staked && electable(a, height)
    } by {
        law_active_is_electable(state::account_of(db, set[i].address), height);
    }
}

/// Whoever may sit does, below the height of the cap and whenever there are seats for all:
/// a hundred of them.
pub proof fn law_electable_are_seated(db: Db, height: u64, who: Seq<char>)
    requires
        conserve::steady(db),
        listed(db),
        height < u64::MAX,
        height < 2_000_000 || staking::active_among(state::stakers_of(db), height).len() <= 100,
    ensures
        conserve::seated(staking::set_at(db, height), who) <==> electable(
            state::account_of(db, who),
            height,
        ),
{
    conserve::lemma_stakers_mirror(db);
    let s = state::stakers_of(db);
    let set = staking::set_at(db, height);
    lemma_active_among(db, s, height);
    law_active_is_electable(state::account_of(db, who), height);
    assert(set == staking::active_among(s, height));
    assert(drawn_from(db, set, height));
    if conserve::seated(set, who) {
        let i = choose|i: int| 0 <= i < set.len() && (#[trigger] set[i]).address == who;
        assert(state::account_of(db, set[i].address).active(height));
    }
    if state::account_of(db, who).active(height) {
        let k = text::utf8(who);
        assert(db[4].contains_key(k));
        let rows = table::ordered(db[4]);
        table::lemma_tabular(db[4]);
        table::lemma_map_of_dom(rows, k);
        let r = choose|r: int| 0 <= r < rows.len() && (#[trigger] rows[r]).0 == k;
        text::lemma_lossy_round_trip(who);
        let cells = state::staker_cells(db, rows);
        assert(cells[r] == (who, state::account_of(db, who)));
        rank::law_ranking_keeps_values::<(String, types::Account)>(cells);
        lemma_row_is_ranked(cells, s, r);
        let j = choose|j: int| 0 <= j < s.len() && #[trigger] s[j] == cells[r];
        assert(conserve::seated(set, s[j].0));
    }
}

proof fn lemma_row_is_ranked(
    cells: Seq<(Seq<char>, AccountV)>,
    s: Seq<(Seq<char>, AccountV)>,
    r: int,
)
    requires
        s.to_multiset() == cells.to_multiset(),
        0 <= r < cells.len(),
    ensures
        exists|j: int| 0 <= j < s.len() && #[trigger] s[j] == cells[r],
{
    broadcast use vstd::seq_lib::group_to_multiset_ensures;

    assert(cells.contains(cells[r]));
    assert(cells.to_multiset().count(cells[r]) > 0);
    assert(s.contains(cells[r]));
}

// ---------------------------------------------------------------- rewards

/// What the validators other than one are due of the eight million rai a set shares, with a
/// total stake.
pub open spec fn due_to_others(s: Seq<ValidatorV>, leader: Seq<char>, total: nat) -> nat
    decreases s.len(),
{
    if s.len() == 0 {
        0
    } else {
        due_to_others(s.drop_last(), leader, total) + if s.last().address == leader {
            0
        } else {
            8_000_000 * (s.last().stake as nat) / total
        }
    }
}

/// An account that earned: balance and rewards are higher by it, the rest as it was.
pub open spec fn earned(before: AccountV, after: AccountV, income: nat, reward: nat) -> bool {
    &&& after.balance == before.balance + income
    &&& after.rewards == before.rewards + reward
    &&& after.nonce == before.nonce
    &&& after.staked == before.staked
    &&& after.unbonding == before.unbonding
    &&& after.penalties == before.penalties
}

proof fn lemma_shared(db: Db, s: Seq<ValidatorV>, total: nat, who: Seq<char>, k: int)
    requires
        db.len() == 16,
        distinct(s),
        total > 0,
        -1 <= k < s.len(),
        k >= 0 ==> s[k].address == who,
        k < 0 ==> forall|i: int| 0 <= i < s.len() ==> (#[trigger] s[i]).address != who,
        k >= 0 ==> s[k].stake <= total,
        state::account_of(db, who).balance + 8_000_000 <= u128::MAX,
        state::account_of(db, who).rewards + 8_000_000 <= u128::MAX,
    ensures
        ({
            let d = staking::shared_out(db, s, total);
            let a = state::account_of(db, who);
            let b = state::account_of(d, who);
            let n = if k >= 0 {
                8_000_000 * (s[k].stake as nat) / total
            } else {
                0
            };
            &&& d.len() == 16
            &&& earned(a, b, n, n)
            &&& b.blocks_produced == a.blocks_produced
            &&& n <= 8_000_000
        }),
    decreases s.len(),
{
    if s.len() > 0 {
        let t = s.drop_last();
        assert forall|i: int, j: int| 0 <= i < j < t.len() implies (#[trigger] t[i]).address != (
        #[trigger] t[j]).address by {
            assert(t[i] == s[i] && t[j] == s[j]);
        }
        let l = s.len() - 1;
        if k == l {
            assert forall|i: int| 0 <= i < t.len() implies (#[trigger] t[i]).address != who by {
                assert(t[i] == s[i]);
                assert(s[i].address != s[l].address);
            }
            lemma_shared(db, t, total, who, -1);
        } else {
            if k < 0 {
                assert forall|i: int| 0 <= i < t.len() implies (#[trigger] t[i]).address != who by {
                    assert(t[i] == s[i]);
                }
            } else {
                assert(t[k] == s[k]);
                assert(s[k].address != s[l].address);
            }
            lemma_shared(db, t, total, who, k);
        }
        let d = staking::shared_out(db, t, total);
        let cut = staking::cut_of(s[l], total);
        let x = s[l].address;
        assert(x == who <==> k == l) by {
            if k < 0 {
                assert(s[l].address != who);
            }
        }
        let v = staking::rewarded(state::account_of(d, x), cut);
        supply::lemma_account_after(d, x, v, who);
        supply::lemma_account_frame(d, x, v);
        if k == l {
            assert(cut == 8_000_000 * (s[k].stake as nat) / total);
        }
    }
    if k >= 0 {
        let st = s[k].stake as nat;
        assert(8_000_000 * st <= 8_000_000 * total);
        vstd::arithmetic::div_mod::lemma_div_is_ordered(
            8_000_000 * st as int,
            8_000_000 * total as int,
            total as int,
        );
        vstd::arithmetic::div_mod::lemma_div_by_multiple(8_000_000, total as int);
    }
}

proof fn lemma_others(s: Seq<ValidatorV>, leader: Seq<char>, total: nat, k: int)
    requires
        distinct(s),
        total > 0,
        -1 <= k < s.len(),
        k >= 0 ==> s[k].address == leader,
        k < 0 ==> forall|i: int| 0 <= i < s.len() ==> (#[trigger] s[i]).address != leader,
    ensures
        staking::cuts(s, total) == due_to_others(s, leader, total) + if k >= 0 {
            8_000_000 * (s[k].stake as nat) / total
        } else {
            0
        },
    decreases s.len(),
{
    if s.len() > 0 {
        let t = s.drop_last();
        let l = s.len() - 1;
        assert forall|i: int, j: int| 0 <= i < j < t.len() implies (#[trigger] t[i]).address != (
        #[trigger] t[j]).address by {
            assert(t[i] == s[i] && t[j] == s[j]);
        }
        assert(s.last() == s[l]);
        assert(staking::cuts(s, total) == staking::cuts(t, total) + staking::cut_of(s[l], total));
        assert(staking::shared_reward() == 8_000_000);
        assert(staking::cut_of(s[l], total) == 8_000_000 * (s[l].stake as nat) / total);
        if k == l {
            assert forall|i: int| 0 <= i < t.len() implies (#[trigger] t[i]).address != leader by {
                assert(t[i] == s[i]);
                assert(s[i].address != s[l].address);
            }
            lemma_others(t, leader, total, -1);
        } else {
            if k < 0 {
                assert forall|i: int| 0 <= i < t.len() implies (#[trigger] t[i]).address
                    != leader by {
                    assert(t[i] == s[i]);
                }
                assert(s[l].address != leader);
            } else {
                assert(t[k] == s[k]);
                assert(s[k].address != s[l].address);
            }
            lemma_others(t, leader, total, k);
        }
    }
}

proof fn lemma_stake_below(s: Seq<ValidatorV>, i: int)
    requires
        0 <= i < s.len(),
    ensures
        s[i].stake <= staking::stake_sum(s),
    decreases s.len(),
{
    if i < s.len() - 1 {
        lemma_stake_below(s.drop_last(), i);
    }
}

/// A block's ten million rai are split so: of eight million, every validator of the set gets
/// the part its stake is of all stake, rounded down. The leader gets the two million, what
/// rounding left and the fees on top of its own part: all that the others do not get.
/// Whoever is not in the set and does not lead gets nothing.
pub proof fn law_reward_is_split_by_stake(
    db: Db,
    leader: Seq<char>,
    fees: nat,
    who: Seq<char>,
    k: int,
)
    requires
        conserve::steady(db),
        staking::next_height(db) < u64::MAX,
        0 < staking::stake_sum(staking::set_at(db, staking::next_height(db))) <= u128::MAX,
        state::account_of(db, who).balance + fees + 10_000_000 <= u128::MAX,
        state::account_of(db, who).rewards + 10_000_000 <= u128::MAX,
        state::account_of(db, who).blocks_produced < u64::MAX,
        -1 <= k < staking::set_at(db, staking::next_height(db)).len(),
        k >= 0 ==> staking::set_at(db, staking::next_height(db))[k].address == who,
        k < 0 ==> !conserve::seated(staking::set_at(db, staking::next_height(db)), who),
    ensures
        ({
            let s = staking::set_at(db, staking::next_height(db));
            let total = staking::stake_sum(s);
            let d = staking::paid(db, leader, fees);
            let a = state::account_of(db, who);
            let b = state::account_of(d, who);
            let part = 8_000_000 * (state::account_of(db, who).staked as nat) / total;
            let others = due_to_others(s, leader, total);
            &&& who != leader && k >= 0 ==> earned(a, b, part, part)
            &&& who != leader && k < 0 ==> b == a
            &&& who == leader ==> others <= 8_000_000
            &&& who == leader ==> earned(
                a,
                b,
                (fees + 10_000_000 - others) as nat,
                (10_000_000 - others) as nat,
            )
            &&& who == leader && k >= 0 ==> b.balance >= a.balance + fees + 2_000_000 + part
            &&& b.blocks_produced == a.blocks_produced + if who == leader {
                1int
            } else {
                0
            }
        }),
{
    let h = staking::next_height(db);
    let s = staking::set_at(db, h);
    let total = staking::stake_sum(s);
    law_set_seats_the_electable(db, h);
    if k >= 0 {
        assert(s[k].stake == state::account_of(db, who).staked);
        lemma_stake_below(s, k);
    }
    lemma_shared(db, s, total, who, k);
    staking::lemma_cuts_bound(s, total);
    assert(staking::cuts(s, total) <= 8_000_000) by (nonlinear_arith)
        requires
            staking::cuts(s, total) * total <= 8_000_000 * staking::stake_sum(s),
            staking::stake_sum(s) == total,
            total > 0,
    ;
    let d = staking::shared_out(db, s, total);
    let r = staking::leader_reward(s, total);
    let v = staking::led(state::account_of(d, leader), fees + r, r);
    supply::lemma_account_after(d, leader, v, who);
    if who == leader {
        lemma_others(s, leader, total, k);
    }
}

/// With nobody bonded the leader gets the ten million rai and the fees.
pub proof fn law_reward_without_a_set(db: Db, leader: Seq<char>, fees: nat, who: Seq<char>)
    requires
        db.len() == 16,
        staking::stake_sum(staking::set_at(db, staking::next_height(db))) == 0,
        state::account_of(db, who).balance + fees + 10_000_000 <= u128::MAX,
        state::account_of(db, who).rewards + 10_000_000 <= u128::MAX,
    ensures
        ({
            let a = state::account_of(db, who);
            let b = state::account_of(staking::paid(db, leader, fees), who);
            &&& who == leader ==> earned(a, b, fees + 10_000_000, 10_000_000)
            &&& who != leader ==> b == a
        }),
{
    let v = staking::led(
        state::account_of(db, leader),
        fees + staking::BLOCK_REWARD as nat,
        staking::BLOCK_REWARD as nat,
    );
    supply::lemma_account_after(db, leader, v, who);
}

// ---------------------------------------------------------------- release

/// What of locked amounts is due at a height.
pub open spec fn due(u: Seq<Unbond>, height: u64) -> nat
    decreases u.len(),
{
    if u.len() == 0 {
        0
    } else {
        (if u[0].release_height <= height {
            u[0].amount as nat
        } else {
            0
        }) + due(u.skip(1), height)
    }
}

proof fn lemma_due_push(u: Seq<Unbond>, x: Unbond, height: u64)
    ensures
        due(u.push(x), height) == due(u, height) + if x.release_height <= height {
            x.amount as nat
        } else {
            0
        },
    decreases u.len(),
{
    if u.len() > 0 {
        lemma_due_push(u.skip(1), x, height);
        assert(u.push(x).skip(1) =~= u.skip(1).push(x));
    } else {
        assert(u.push(x).skip(1) =~= Seq::<Unbond>::empty());
        assert(due(u.push(x).skip(1), height) == 0);
    }
}

proof fn lemma_due(u: Seq<Unbond>, height: u64)
    ensures
        staking::matured(u, height) == due(u, height),
        staking::still_locked(u, height) == u.filter(|x: Unbond| x.release_height > height),
    decreases u.len(),
{
    reveal(Seq::filter);
    if u.len() > 0 {
        let t = u.drop_last();
        lemma_due(t, height);
        lemma_due_push(t, u.last(), height);
        assert(t.push(u.last()) =~= u);
    }
}

/// Settling a height pays every staker exactly what is due of its locks at that height, and
/// leaves the locks that are not due, in order; nothing else of any account changes.
pub proof fn law_release_pays_what_is_due(db: Db, height: u64, who: Seq<char>)
    requires
        conserve::steady(db),
        listed(db),
        state::account_of(db, who).worth() <= u128::MAX,
    ensures
        ({
            let d = staking::all_released(db, state::stakers_of(db), height);
            let a = state::account_of(db, who);
            let b = state::account_of(d, who);
            &&& b.balance == a.balance + due(a.unbonding, height)
            &&& b.unbonding == a.unbonding.filter(|x: Unbond| x.release_height > height)
            &&& b == (AccountV { balance: b.balance, unbonding: b.unbonding, ..a })
        }),
{
    conserve::lemma_stakers_mirror(db);
    let s = state::stakers_of(db);
    let a = state::account_of(db, who);
    lemma_due(a.unbonding, height);
    staking::law_unbonding_conserves(a, height);
    staking::lemma_still_locked_len(a.unbonding, height);
    if exists|k: int| 0 <= k < s.len() && (#[trigger] s[k]).0 == who {
        let k = choose|k: int| 0 <= k < s.len() && (#[trigger] s[k]).0 == who;
        lemma_released_at(db, s, height, k);
    } else {
        staking::lemma_released_other(db, s, height, who);
        if a.unbonding.len() > 0 {
            let key = text::utf8(who);
            assert(db[4].contains_key(key));
            let rows = table::ordered(db[4]);
            table::lemma_tabular(db[4]);
            table::lemma_map_of_dom(rows, key);
            let r = choose|r: int| 0 <= r < rows.len() && (#[trigger] rows[r]).0 == key;
            text::lemma_lossy_round_trip(who);
            let cells = state::staker_cells(db, rows);
            assert(cells[r] == (who, a));
            rank::law_ranking_keeps_values::<(String, types::Account)>(cells);
            lemma_row_is_ranked(cells, s, r);
            let j = choose|j: int| 0 <= j < s.len() && #[trigger] s[j] == cells[r];
            assert(s[j].0 == who);
        } else {
            assert(a.unbonding =~= Seq::<Unbond>::empty());
            assert(staking::still_locked(a.unbonding, height) =~= a.unbonding);
        }
    }
}

proof fn lemma_released_at(db: Db, s: Seq<(Seq<char>, AccountV)>, height: u64, k: int)
    requires
        supply::sound(db),
        staking::mirrors(db, s),
        0 <= k < s.len(),
    ensures
        ({
            let d = staking::all_released(db, s, height);
            let a = state::account_of(db, s[k].0);
            &&& d.len() == 16
            &&& state::account_of(d, s[k].0) == if staking::ripe(a, height) {
                staking::released(a, height)
            } else {
                a
            }
        }),
    decreases s.len(),
{
    let t = s.drop_last();
    let l = s.len() - 1;
    let who = s[k].0;
    assert(s[k].1 == state::account_of(db, s[k].0));
    assert(s[l].1 == state::account_of(db, s[l].0));
    assert(staking::mirrors(db, t)) by {
        assert forall|i: int| 0 <= i < t.len() implies (#[trigger] t[i]).1 == state::account_of(
            db,
            t[i].0,
        ) by {
            assert(t[i] == s[i]);
        }
        assert forall|i: int, j: int| 0 <= i < j < t.len() implies (#[trigger] t[i]).0 != (
        #[trigger] t[j]).0 by {
            assert(t[i] == s[i] && t[j] == s[j]);
        }
    }
    if k == l {
        assert forall|i: int| 0 <= i < t.len() implies (#[trigger] t[i]).0 != who by {
            assert(t[i] == s[i]);
            assert(s[i].0 != s[l].0);
        }
        staking::lemma_released_other(db, t, height, who);
    } else {
        lemma_released_at(db, t, height, k);
        assert(t[k] == s[k]);
        assert(s[k].0 != s[l].0);
    }
    let d = staking::all_released(db, t, height);
    let v = staking::released(s[l].1, height);
    supply::lemma_account_after(d, s[l].0, v, who);
    supply::lemma_account_frame(d, s[l].0, v);
}

} // verus!
