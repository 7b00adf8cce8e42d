//! What the rules around the chain are for: whom an election draws, where the base fee goes,
//! what a digest tells apart, who is served and who is turned away.

use crate::chain::NodeV;
use crate::consensus;
use crate::contracts;
use crate::crypto;
use crate::fees;
use crate::journal::CellV;
use crate::journal::Db;
use crate::limits;
use crate::limits::BookV;
use crate::limits::LimiterV;
use crate::limits::Standing;
use crate::p2p;
use crate::poseidon::ParamsV;
use crate::qos;
use crate::rpcauth;
use crate::rpcauth::Tier;
use crate::signing;
use crate::staking;
use crate::staking::ValidatorV;
use crate::state;
use crate::supply;
use crate::table;
use crate::text;
use crate::tokens;
use crate::types;
use crate::types::AccountV;
use crate::types::BlockV;
use crate::types::PayloadV;
use vstd::prelude::*;
use vstd::string::*;

verus! {

// ---------------------------------------------------------------- elections

/// The leader of a height on an attempt is drawn by stake from the hash of the height, the
/// parent and, from the second attempt on, its number: the first sixteen bytes, reduced by
/// the total stake, point into the stakes laid end to end.
pub proof fn law_leader_is_drawn_by_stake(
    s: Seq<ValidatorV>,
    height: nat,
    parent: Seq<char>,
    attempt: nat,
    i: int,
)
    requires
        0 <= i < s.len(),
        0 < staking::stake_sum(s) <= u128::MAX,
        forall|j: int, k: int|
            0 <= j < k < s.len() ==> (#[trigger] s[j]).address != (#[trigger] s[k]).address,
    ensures
        ({
            let seed = "inazuma-leader|"@ + text::dec(height) + "|"@ + parent + if attempt == 0 {
                ""@
            } else {
                "|"@ + text::dec(attempt)
            };
            let draw = text::from_be(crypto::sha256_of(text::utf8(seed)).take(16));
            let point = draw % staking::stake_sum(s);
            staking::leader_of(s, height, parent, attempt) == Some(s[i].address)
                <==> staking::stake_sum(s.take(i)) <= point < staking::stake_sum(s.take(i))
                + s[i].stake
        }),
{
    let first = "inazuma-leader|"@ + text::dec(height) + "|"@ + parent;
    reveal_strlit("");
    assert(first + ""@ =~= first);
    assert(first + ("|"@ + text::dec(attempt)) =~= first + "|"@ + text::dec(attempt));
    let total = staking::stake_sum(s);
    let point = staking::election_draw(height, parent, attempt) % total;
    vstd::arithmetic::div_mod::lemma_mod_bound(
        staking::election_draw(height, parent, attempt) as int,
        total as int,
    );
    staking::law_election_is_stake_weighted(s, i, point);
    staking::law_leader_is_in_the_set(s, height, parent, attempt);
    let p = staking::picked(s, point);
    staking::lemma_picked_holds(s, point);
    if p < i {
        assert(s[p].address != s[i].address);
    }
    if i < p {
        assert(s[i].address != s[p].address);
    }
}

/// A node takes the attempt of a time from its tip's timestamp: none in the first two slots,
/// then one more for every further slot.
pub proof fn law_attempts_follow_the_clock(n: NodeV, now: nat)
    requires
        n.tip_time() > 0,
        n.slot > 0,
        n.tip_time() <= now,
        now - n.tip_time() <= u64::MAX,
    ensures
        now < n.tip_time() + 2 * n.slot ==> n.attempt(now) == 0,
        now >= n.tip_time() + 2 * n.slot ==> n.attempt(now) == (now - n.tip_time())
            / n.slot as int - 1,
{
    let gap = now - n.tip_time();
    let w = n.slot as int;
    vstd::arithmetic::div_mod::lemma_fundamental_div_mod(gap, w);
    let q = gap / w;
    let r = gap % w;
    assert(0 <= q <= gap) by (nonlinear_arith)
        requires
            gap == w * q + r,
            0 <= r < w,
            gap >= 0,
            w >= 1,
    ;
    if now < n.tip_time() + 2 * n.slot {
        assert(q < 2) by (nonlinear_arith)
            requires
                gap == w * q + r,
                0 <= r,
                gap < 2 * w,
                w >= 1,
        ;
    } else {
        assert(q >= 2) by (nonlinear_arith)
            requires
                gap == w * q + r,
                r < w,
                gap >= 2 * w,
                w >= 1,
        ;
    }
}

// ---------------------------------------------------------------- base fee

/// The base fee after a block, from a thousand rai to an INAZ: a block of two thousand five
/// hundred transactions leaves it; a fuller one raises it, an emptier one lowers it, by
/// twelve percent times how far it is from that.
pub proof fn law_base_fee_moves_with_load(prev: nat, txs: nat)
    requires
        1_000 <= prev <= 1_000_000_000,
        txs <= 5_000,
    ensures
        ({
            let most = prev * 12 / 100;
            let next = fees::fee_after(prev, txs);
            &&& txs == 2_500 ==> next == prev
            &&& txs > 2_500 ==> next == ({
                let up = prev + most * ((txs - 2_500) as nat) / 2_500;
                if up > 1_000_000_000 {
                    1_000_000_000
                } else {
                    up
                }
            })
            &&& txs < 2_500 ==> next == ({
                let down = prev - most * ((2_500 - txs) as nat) / 2_500;
                if down < 1_000 {
                    1_000
                } else {
                    down
                }
            })
            &&& txs == 5_000 && next < 1_000_000_000 ==> next == prev + most
        }),
{
    let most = prev * 12 / 100;
    assert(most >= 120 && most <= prev);
    assert(fees::fee_step(prev) == most);
    if txs < 2_500 {
        let k = (2_500 - txs) as nat;
        assert(most * k <= most * 2_500) by (nonlinear_arith)
            requires
                k <= 2_500,
        ;
        vstd::arithmetic::div_mod::lemma_div_is_ordered(
            (most * k) as int,
            (most * 2_500) as int,
            2_500,
        );
        vstd::arithmetic::div_mod::lemma_div_by_multiple(most as int, 2_500);
    }
    if txs == 5_000 {
        vstd::arithmetic::div_mod::lemma_div_by_multiple(most as int, 2_500);
    }
}

/// What a transaction must pay at a height: a thousand rai, and from height two hundred
/// thousand the base fee when that is more.
pub proof fn law_floor_is_the_base_fee(height: nat, base_fee: nat)
    ensures
        height < 200_000 ==> fees::floor_at(height, base_fee) == 1_000,
        height >= 200_000 && base_fee >= 1_000 ==> fees::floor_at(height, base_fee) == base_fee,
        height >= 200_000 && base_fee < 1_000 ==> fees::floor_at(height, base_fee) == 1_000,
{
}

// ---------------------------------------------------------------- digests

proof fn lemma_split_bar(a: Seq<char>, x: Seq<char>, b: Seq<char>, y: Seq<char>)
    requires
        a + "|"@ + x == b + "|"@ + y,
        !a.contains('|'),
        !b.contains('|'),
    ensures
        a == b,
        x == y,
{
    reveal_strlit("|");
    let s = a + "|"@ + x;
    let t = b + "|"@ + y;
    let m = a.len() as int;
    let n = b.len() as int;
    assert(s[m] == '|');
    assert(t[n] == '|');
    if m < n {
        assert(t[m] == b[m]);
        assert(b.contains('|'));
    }
    if n < m {
        assert(s[n] == a[n]);
        assert(a.contains('|'));
    }
    assert(s.take(m) =~= a);
    assert(t.take(n) =~= b);
    assert(s.skip(m + 1) =~= x);
    assert(t.skip(n + 1) =~= y);
}

proof fn lemma_split_dec(a: nat, x: Seq<char>, b: nat, y: Seq<char>)
    requires
        text::dec(a) + "|"@ + x == text::dec(b) + "|"@ + y,
    ensures
        a == b,
        x == y,
{
    signing::lemma_dec_bar_free(a);
    signing::lemma_dec_bar_free(b);
    lemma_split_bar(text::dec(a), x, text::dec(b), y);
    text::lemma_dec_injective(a, b);
}

proof fn lemma_assoc(p: Seq<char>, a: Seq<char>, b: Seq<char>, c: Seq<char>)
    ensures
        p + a + b + c == p + (a + b + c),
{
    assert(p + a + b + c =~= p + (a + b + c));
}

/// Five fields with bars between them, read from the front.
proof fn lemma_five(a: Seq<char>, b: Seq<char>, c: Seq<char>, d: Seq<char>, e: Seq<char>)
    ensures
        ({
            let bar = "|"@;
            a + bar + b + bar + c + bar + d + bar + e == a + bar + (b + bar + (c + bar + (d + bar
                + e)))
        }),
{
    let bar = "|"@;
    lemma_assoc(a + bar + b + bar + c + bar, d, bar, e);
    let x = d + bar + e;
    lemma_assoc(a + bar + b + bar, c, bar, x);
    let y = c + bar + x;
    lemma_assoc(a + bar, b, bar, y);
}

/// What the state says of an account tells every balance, nonce, bond, sum of locks and sum
/// of rewards apart.
pub proof fn law_account_leaf_is_telling(a: AccountV, b: AccountV)
    requires
        state::account_leaf_of(a) == state::account_leaf_of(b),
        a.locked() <= u128::MAX,
        b.locked() <= u128::MAX,
    ensures
        a.balance == b.balance,
        a.nonce == b.nonce,
        a.staked == b.staked,
        a.locked() == b.locked(),
        a.rewards == b.rewards,
{
    let bar = "|"@;
    let (a1, b1) = (text::dec(a.balance as nat), text::dec(b.balance as nat));
    let (a2, b2) = (text::dec(a.nonce as nat), text::dec(b.nonce as nat));
    let (a3, b3) = (text::dec(a.staked as nat), text::dec(b.staked as nat));
    let (a4, b4) = (text::dec(a.locked()), text::dec(b.locked()));
    let (a5, b5) = (text::dec(a.rewards as nat), text::dec(b.rewards as nat));
    let x4 = a4 + bar + a5;
    let y4 = b4 + bar + b5;
    let x3 = a3 + bar + x4;
    let y3 = b3 + bar + y4;
    let x2 = a2 + bar + x3;
    let y2 = b2 + bar + y3;
    lemma_five(a1, a2, a3, a4, a5);
    lemma_five(b1, b2, b3, b4, b5);
    assert(state::account_leaf_of(a) == a1 + bar + x2);
    assert(state::account_leaf_of(b) == b1 + bar + y2);
    lemma_split_dec(a.balance as nat, x2, b.balance as nat, y2);
    lemma_split_dec(a.nonce as nat, x3, b.nonce as nat, y3);
    lemma_split_dec(a.staked as nat, x4, b.staked as nat, y4);
    lemma_split_dec(a.locked(), a5, b.locked(), b5);
    text::lemma_dec_injective(a.rewards as nat, b.rewards as nat);
}

/// What the state says of a token tells every symbol, number of decimals and supply apart.
pub proof fn law_token_leaf_is_telling(a: tokens::TokenV, b: tokens::TokenV)
    requires
        state::token_leaf_of(a) == state::token_leaf_of(b),
        !a.symbol.contains('|'),
        !b.symbol.contains('|'),
        !a.creator.contains('|'),
        !b.creator.contains('|'),
    ensures
        a.symbol == b.symbol,
        a.decimals == b.decimals,
        a.supply == b.supply,
        a.creator == b.creator,
        a.mintable == b.mintable,
{
    let bar = "|"@;
    let (a2, b2) = (text::dec(a.decimals as nat), text::dec(b.decimals as nat));
    let (a3, b3) = (text::dec(a.supply as nat), text::dec(b.supply as nat));
    let (a5, b5) = (types::bool_text(a.mintable), types::bool_text(b.mintable));
    let x4 = a.creator + bar + a5;
    let y4 = b.creator + bar + b5;
    let x3 = a3 + bar + x4;
    let y3 = b3 + bar + y4;
    let x2 = a2 + bar + x3;
    let y2 = b2 + bar + y3;
    lemma_five(a.symbol, a2, a3, a.creator, a5);
    lemma_five(b.symbol, b2, b3, b.creator, b5);
    assert(state::token_leaf_of(a) == a.symbol + bar + x2);
    assert(state::token_leaf_of(b) == b.symbol + bar + y2);
    lemma_split_bar(a.symbol, x2, b.symbol, y2);
    lemma_split_dec(a.decimals as nat, x3, b.decimals as nat, y3);
    lemma_split_dec(a.supply as nat, x4, b.supply as nat, y4);
    lemma_split_bar(a.creator, a5, b.creator, b5);
    reveal_strlit("true");
    reveal_strlit("false");
    assert("true"@.len() != "false"@.len());
}

proof fn lemma_byte_rows_split(s: Seq<(Seq<u8>, CellV)>, i: int)
    requires
        0 <= i < s.len(),
    ensures
        state::byte_rows(s) == state::byte_rows(s.take(i)) + state::byte_rows(seq![s[i]])
            + state::byte_rows(s.skip(i + 1)),
    decreases s.len(),
{
    let one = seq![s[i]];
    assert(one.drop_last() =~= Seq::<(Seq<u8>, CellV)>::empty());
    assert(state::byte_rows(one.drop_last()) =~= Seq::<u8>::empty());
    if i == s.len() - 1 {
        assert(s.take(i) =~= s.drop_last());
        assert(s.skip(i + 1) =~= Seq::<(Seq<u8>, CellV)>::empty());
        assert(state::byte_rows(s) =~= state::byte_rows(s.take(i)) + state::byte_rows(one)
            + state::byte_rows(s.skip(i + 1)));
    } else {
        let d = s.drop_last();
        lemma_byte_rows_split(d, i);
        assert(d.take(i) =~= s.take(i));
        assert(d.skip(i + 1) =~= s.skip(i + 1).drop_last());
        assert(s.skip(i + 1).last() == s.last());
        assert(state::byte_rows(s) =~= state::byte_rows(s.take(i)) + state::byte_rows(one)
            + state::byte_rows(s.skip(i + 1)));
    }
}

proof fn lemma_account_rows_split(s: Seq<(Seq<u8>, CellV)>, i: int)
    requires
        0 <= i < s.len(),
    ensures
        state::account_rows(s) == state::account_rows(s.take(i)) + state::account_rows(seq![s[i]])
            + state::account_rows(s.skip(i + 1)),
    decreases s.len(),
{
    let one = seq![s[i]];
    assert(one.drop_last() =~= Seq::<(Seq<u8>, CellV)>::empty());
    assert(state::account_rows(one.drop_last()) =~= Seq::<u8>::empty());
    if i == s.len() - 1 {
        assert(s.take(i) =~= s.drop_last());
        assert(s.skip(i + 1) =~= Seq::<(Seq<u8>, CellV)>::empty());
        assert(state::account_rows(s) =~= state::account_rows(s.take(i)) + state::account_rows(one)
            + state::account_rows(s.skip(i + 1)));
    } else {
        let d = s.drop_last();
        lemma_account_rows_split(d, i);
        assert(d.take(i) =~= s.take(i));
        assert(d.skip(i + 1) =~= s.skip(i + 1).drop_last());
        assert(s.skip(i + 1).last() == s.last());
        assert(state::account_rows(s) =~= state::account_rows(s.take(i)) + state::account_rows(one)
            + state::account_rows(s.skip(i + 1)));
    }
}

/// What surrounds a part of equal texts being equal, the parts are equal.
proof fn lemma_middle(p: Seq<u8>, x: Seq<u8>, q: Seq<u8>, y: Seq<u8>)
    requires
        p + x + q == p + y + q,
    ensures
        x == y,
{
    let s = p + x + q;
    let t = p + y + q;
    assert(s.len() == p.len() + x.len() + q.len());
    assert(t.len() == p.len() + y.len() + q.len());
    assert(x.len() == y.len());
    assert(s.subrange(p.len() as int, p.len() as int + x.len() as int) =~= x);
    assert(t.subrange(p.len() as int, p.len() as int + y.len() as int) =~= y);
}

/// The row of a balance or of stored bytes.
proof fn lemma_byte_row(k: Seq<u8>, v: Seq<u8>)
    ensures
        state::byte_rows(seq![(k, CellV::Bytes(v))]) == k + seq![61u8] + v + seq![124u8],
{
    let x = seq![(k, CellV::Bytes(v))];
    assert(x.drop_last() =~= Seq::<(Seq<u8>, CellV)>::empty());
    assert(state::byte_rows(x.drop_last()) =~= Seq::<u8>::empty());
    assert(x.last() == (k, CellV::Bytes(v)));
    assert(Seq::<u8>::empty() + k =~= k);
}

/// The row of an account.
proof fn lemma_account_row(k: Seq<u8>, a: AccountV)
    ensures
        state::account_rows(seq![(k, CellV::Account(a))]) == k + seq![124u8] + text::utf8(
            state::account_leaf_of(a),
        ) + seq![124u8],
{
    let x = seq![(k, CellV::Account(a))];
    assert(x.drop_last() =~= Seq::<(Seq<u8>, CellV)>::empty());
    assert(state::account_rows(x.drop_last()) =~= Seq::<u8>::empty());
    assert(x.last() == (k, CellV::Account(a)));
    assert(Seq::<u8>::empty() + k =~= k);
}

/// What the digest covers behind accounts, tokens and token balances.
spec fn rest_text(p: ParamsV, db: Db) -> Seq<u8> {
    state::contract_rows(table::ordered(db[7])) + state::byte_rows(table::ordered(db[9]))
        + text::utf8("shielded|"@) + text::utf8(state::note_root_of(p, db)) + seq![124u8]
        + text::utf8(text::dec(state::pool_of(db))) + seq![124u8] + text::utf8(
        state::nulls_digest_of(db),
    ) + seq![124u8]
}

proof fn lemma_rest_text(p: ParamsV, db: Db)
    ensures
        state::state_text(p, db) == state::account_rows(table::ordered(db[0])) + state::token_rows(
            table::ordered(db[5]),
        ) + state::byte_rows(table::ordered(db[6])) + rest_text(p, db),
{
    let x = state::account_rows(table::ordered(db[0])) + state::token_rows(table::ordered(db[5]))
        + state::byte_rows(table::ordered(db[6]));
    let bar = seq![124u8];
    let c = state::contract_rows(table::ordered(db[7]));
    let d = state::byte_rows(table::ordered(db[9]));
    let e = text::utf8("shielded|"@);
    let f = text::utf8(state::note_root_of(p, db));
    let g = text::utf8(text::dec(state::pool_of(db)));
    let h = text::utf8(state::nulls_digest_of(db));
    signing::lemma_assoc(x, c, d);
    signing::lemma_assoc(x, c + d, e);
    signing::lemma_assoc(x, c + d + e, f);
    signing::lemma_assoc(x, c + d + e + f, bar);
    signing::lemma_assoc(x, c + d + e + f + bar, g);
    signing::lemma_assoc(x, c + d + e + f + bar + g, bar);
    signing::lemma_assoc(x, c + d + e + f + bar + g + bar, h);
    signing::lemma_assoc(x, c + d + e + f + bar + g + bar + h, bar);
}

/// The digest of all state covers every token balance: one that changes from an amount to
/// another changes what is hashed.
pub proof fn law_digest_covers_token_balances(
    p: ParamsV,
    db: Db,
    token: Seq<char>,
    address: Seq<char>,
    n: nat,
    m: nat,
)
    requires
        db.len() == 16,
        table::tabular(db[6]),
        0 < n <= u128::MAX,
        0 < m <= u128::MAX,
        n != m,
    ensures
        state::state_text(p, state::with_token_balance(db, token, address, n))
            != state::state_text(p, state::with_token_balance(db, token, address, m)),
{
    let k = text::utf8(state::joined(token, address));
    let u = text::utf8(text::dec(n));
    let v = text::utf8(text::dec(m));
    let a = state::with_token_balance(db, token, address, n);
    let b = state::with_token_balance(db, token, address, m);
    let base = db[6].insert(k, CellV::Bytes(u));
    if db[6].contains_key(k) {
        let i = table::lemma_walk_put(db[6], k, CellV::Bytes(u));
    } else {
        let i = table::lemma_walk_put_fresh(db[6], k, CellV::Bytes(u));
    }
    let i = table::lemma_walk_put(base, k, CellV::Bytes(v));
    assert(base.insert(k, CellV::Bytes(v)) =~= db[6].insert(k, CellV::Bytes(v)));
    let s = table::ordered(base);
    let t = s.update(i, (k, CellV::Bytes(v)));
    assert(a[6] == base && table::ordered(b[6]) == t);
    lemma_byte_rows_split(s, i);
    lemma_byte_rows_split(t, i);
    assert(t.take(i) =~= s.take(i));
    assert(t.skip(i + 1) =~= s.skip(i + 1));
    assert(a[0] == db[0] && b[0] == db[0] && a[5] == db[5] && b[5] == db[5] && a[7] == db[7]
        && b[7] == db[7] && a[9] == db[9] && b[9] == db[9]);
    assert(a[3] == db[3] && b[3] == db[3] && a[13] == db[13] && b[13] == db[13] && a[14] == db[14]
        && b[14] == db[14]);
    assert(state::note_root_of(p, a) == state::note_root_of(p, b));
    assert(state::pool_of(a) == state::pool_of(b));
    assert(state::nulls_digest_of(a) == state::nulls_digest_of(b));
    let front = state::account_rows(table::ordered(db[0])) + state::token_rows(
        table::ordered(db[5]),
    );
    let back = rest_text(p, a);
    assert(rest_text(p, b) == back);
    lemma_rest_text(p, a);
    lemma_rest_text(p, b);
    assert(state::state_text(p, a) == front + state::byte_rows(s) + back);
    assert(state::state_text(p, b) == front + state::byte_rows(t) + back);
    assert(s[i] == (k, CellV::Bytes(u)));
    lemma_byte_row(k, u);
    lemma_byte_row(k, v);
    if state::state_text(p, a) == state::state_text(p, b) {
        lemma_middle(front, state::byte_rows(s), back, state::byte_rows(t));
        lemma_middle(
            state::byte_rows(s.take(i)),
            state::byte_rows(seq![s[i]]),
            state::byte_rows(s.skip(i + 1)),
            state::byte_rows(seq![t[i]]),
        );
        lemma_middle(k + seq![61u8], u, seq![124u8], v);
        text::lemma_utf8_injective(text::dec(n), text::dec(m));
        text::lemma_dec_injective(n, m);
    }
}

proof fn lemma_behind(x: Seq<u8>, a: Seq<u8>, b: Seq<u8>, c: Seq<u8>)
    ensures
        x + a + b + c == Seq::<u8>::empty() + x + (a + b + c),
{
    assert(x + a + b + c =~= Seq::<u8>::empty() + x + (a + b + c));
}

/// The digest of all state covers every account: one that changes in balance, nonce, bond,
/// locks or rewards changes what is hashed.
pub proof fn law_digest_covers_accounts(
    p: ParamsV,
    db: Db,
    address: Seq<char>,
    x: AccountV,
    y: AccountV,
)
    requires
        supply::sound(db),
        x.locked() <= u128::MAX,
        y.locked() <= u128::MAX,
        x.balance != y.balance || x.nonce != y.nonce || x.staked != y.staked || x.locked()
            != y.locked() || x.rewards != y.rewards,
    ensures
        state::state_text(p, state::with_account(db, address, x)) != state::state_text(
            p,
            state::with_account(db, address, y),
        ),
{
    let k = text::utf8(address);
    let a = state::with_account(db, address, x);
    let b = state::with_account(db, address, y);
    let base = db[0].insert(k, CellV::Account(x));
    if db[0].contains_key(k) {
        let i = table::lemma_walk_put(db[0], k, CellV::Account(x));
    } else {
        let i = table::lemma_walk_put_fresh(db[0], k, CellV::Account(x));
    }
    let i = table::lemma_walk_put(base, k, CellV::Account(y));
    assert(base.insert(k, CellV::Account(y)) =~= db[0].insert(k, CellV::Account(y)));
    let s = table::ordered(base);
    let t = s.update(i, (k, CellV::Account(y)));
    assert(a[0] == base && table::ordered(b[0]) == t);
    lemma_account_rows_split(s, i);
    lemma_account_rows_split(t, i);
    assert(t.take(i) =~= s.take(i));
    assert(t.skip(i + 1) =~= s.skip(i + 1));
    supply::lemma_account_frame(db, address, x);
    supply::lemma_account_frame(db, address, y);
    assert(a[6] == db[6] && b[6] == db[6] && a[5] == db[5] && b[5] == db[5] && a[7] == db[7]
        && b[7] == db[7] && a[9] == db[9] && b[9] == db[9]);
    assert(a[3] == db[3] && b[3] == db[3] && a[13] == db[13] && b[13] == db[13] && a[14] == db[14]
        && b[14] == db[14]);
    assert(state::note_root_of(p, a) == state::note_root_of(p, b));
    assert(state::pool_of(a) == state::pool_of(b));
    assert(state::nulls_digest_of(a) == state::nulls_digest_of(b));
    let none = Seq::<u8>::empty();
    let tr = state::token_rows(table::ordered(db[5]));
    let br = state::byte_rows(table::ordered(db[6]));
    let end = rest_text(p, a);
    assert(rest_text(p, b) == end);
    let back = tr + br + end;
    lemma_rest_text(p, a);
    lemma_rest_text(p, b);
    lemma_behind(state::account_rows(s), tr, br, end);
    lemma_behind(state::account_rows(t), tr, br, end);
    assert(state::state_text(p, a) == none + state::account_rows(s) + back);
    assert(state::state_text(p, b) == none + state::account_rows(t) + back);
    assert(s[i] == (k, CellV::Account(x)));
    lemma_account_row(k, x);
    lemma_account_row(k, y);
    if state::state_text(p, a) == state::state_text(p, b) {
        lemma_middle(none, state::account_rows(s), back, state::account_rows(t));
        lemma_middle(
            state::account_rows(s.take(i)),
            state::account_rows(seq![s[i]]),
            state::account_rows(s.skip(i + 1)),
            state::account_rows(seq![t[i]]),
        );
        let u = text::utf8(state::account_leaf_of(x));
        let v = text::utf8(state::account_leaf_of(y));
        lemma_middle(k + seq![124u8], u, seq![124u8], v);
        text::lemma_utf8_injective(state::account_leaf_of(x), state::account_leaf_of(y));
        law_account_leaf_is_telling(x, y);
    }
}

// ---------------------------------------------------------------- payloads

/// A deployment carries code exactly when it is hexadecimal of a module: eight bytes to two
/// hundred and sixty-two thousand one hundred and forty-four, the first four those of
/// WebAssembly. The code is those bytes.
pub proof fn law_code_is_what_was_sent(p: PayloadV, code: Seq<u8>)
    ensures
        contracts::code_in(Some(p)) == Ok::<Seq<u8>, Seq<char>>(code) <==> {
            &&& crypto::unhex(text::strip_0x_spec(text::trimmed(p.code))) == Some(code)
            &&& 8 <= code.len() <= 262_144
            &&& code[0] == 0 && code[1] == 97 && code[2] == 115 && code[3] == 109
        },
{
}

/// A call hands its guest the bytes that were sent in hexadecimal, up to sixteen thousand
/// three hundred and eighty-four of them, and no bytes when nothing was sent.
pub proof fn law_input_is_what_was_sent(p: PayloadV, input: Seq<u8>)
    requires
        text::strip_0x_spec(text::trimmed(p.args)).len() > 0,
    ensures
        contracts::args_in(Some(p)) == Ok::<Seq<u8>, Seq<char>>(input) <==> crypto::unhex(
            text::strip_0x_spec(text::trimmed(p.args)),
        ) == Some(input) && input.len() <= 16_384,
        contracts::args_in(None) == Ok::<Seq<u8>, Seq<char>>(Seq::<u8>::empty()),
{
}

// ---------------------------------------------------------------- limits

/// A caller that was never seen may spend its whole burst at once, and what was spent comes
/// back at the rate: whoever waits long enough for a cost is served again.
pub proof fn law_budget_comes_back(
    l: LimiterV,
    key: Seq<u8>,
    cost: u64,
    now: u64,
    later: u64,
    cap: nat,
    within: nat,
)
    requires
        table::ordered(l.buckets).len() <= cap,
        table::ordered(limits::spent(l, key, l.burst, now, cap, within).1.buckets).len() <= cap,
        !l.buckets.contains_key(key),
        now <= later,
        cost <= l.burst,
    ensures
        limits::spent(l, key, l.burst, now, cap, within).0,
        l.burst < u64::MAX ==> !limits::spent(
            l,
            key,
            (l.burst + 1) as u64,
            now,
            cap,
            within,
        ).0,
        limits::spent(
            limits::spent(l, key, l.burst, now, cap, within).1,
            key,
            cost,
            later,
            cap,
            within,
        ).0 <==> cost <= (later - now) * l.rate,
{
    let m = limits::spent(l, key, l.burst, now, cap, within).1;
    assert(m.buckets[key].level == 0);
    assert((later - now) * l.rate >= 0) by (nonlinear_arith)
        requires
            later >= now,
    ;
}

/// A peer is banned exactly when its score falls to minus a hundred; short of it the score
/// falls by the cost. Good behaviour raises it by one, to a hundred at most.
pub proof fn law_scores_decide_bans(s: Standing, cost: i32, now: u64, ban_ms: u64)
    requires
        -100 < s.score <= 100,
        0 <= cost,
        s.until is None,
        now + ban_ms <= u64::MAX,
        ban_ms > 0,
    ensures
        limits::barred(limits::penalized(s, cost, now, ban_ms), now) <==> s.score - cost <= -100,
        s.score - cost > -100 ==> limits::penalized(s, cost, now, ban_ms).score == s.score - cost,
        limits::rewarded(s).score == if s.score < 100 {
            s.score + 1
        } else {
            100
        },
        limits::rewarded(s).until is None,
{
}

/// What connections cost a peer: a message that cannot be read twelve points, talking
/// without encryption four; proving a key costs nothing and is remembered.
pub proof fn law_connections_are_scored(b: BookV, ip: Seq<char>, key: Seq<char>, now: u64)
    requires
        limits::standing_of(b, ip).score > -80,
    ensures
        ({
            let was = limits::standing_of(b, ip).score;
            let bad = p2p::noted(b, ip, p2p::ConnEventV::Garbage, now);
            let plain = p2p::noted(b, ip, p2p::ConnEventV::Opened(None), now);
            let known = p2p::noted(b, ip, p2p::ConnEventV::Opened(Some(key)), now);
            &&& limits::standing_of(bad, ip).score == was - 12
            &&& limits::standing_of(plain, ip).score == was - 4
            &&& limits::standing_of(known, ip) == limits::standing_of(b, ip)
            &&& known.identities.contains_key(text::utf8(ip))
            &&& known.identities[text::utf8(ip)] == key
        }),
{
}

/// Stake weighs by its share: nothing bonded weighs one, a hundredth of all stake a fifth
/// more, and a third of it or more eight times.
pub proof fn law_weight_is_by_share(staked: nat, total: nat)
    requires
        total > 0,
    ensures
        staked == 0 ==> qos::weight(staked, total) == 1_000,
        ({
            let w = 1_000 + staked * 20_000 / total;
            staked > 0 && w < 8_000 ==> qos::weight(staked, total) == w
        }),
        staked * 20 >= total * 7 ==> qos::weight(staked, total) == 8_000,
{
    if staked * 20 >= total * 7 {
        vstd::arithmetic::div_mod::lemma_div_is_ordered(
            total * 7_000 as int,
            staked * 20_000 as int,
            total as int,
        );
        vstd::arithmetic::div_mod::lemma_div_by_multiple(7_000, total as int);
        assert(total * 7_000 == 7_000 * total) by (nonlinear_arith);
    }
}

// ---------------------------------------------------------------- credentials

proof fn lemma_keys_held(m: Map<Seq<u8>, Tier>, keys: Seq<Seq<char>>, tier: Tier, p: Seq<char>)
    ensures
        ({
            let r = rpcauth::with_keys(m, keys, tier);
            let k = text::utf8(p);
            &&& keys.contains(p) && k.len() >= 16 ==> r.contains_key(k) && r[k] == tier
            &&& !(keys.contains(p) && k.len() >= 16) ==> r.contains_key(k) == m.contains_key(k)
                && r[k] == m[k]
        }),
    decreases keys.len(),
{
    if keys.len() > 0 {
        let d = keys.drop_last();
        lemma_keys_held(m, d, tier, p);
        if text::utf8(keys.last()) == text::utf8(p) {
            text::lemma_utf8_injective(keys.last(), p);
            assert(keys[keys.len() - 1] == p);
        }
        if d.contains(p) {
            let i = choose|i: int| 0 <= i < d.len() && d[i] == p;
            assert(keys[i] == p);
        }
        if keys.contains(p) && keys.last() != p {
            let i = choose|i: int| 0 <= i < keys.len() && keys[i] == p;
            assert(d[i] == p);
        }
    }
}

/// A configured key of sixteen bytes or more gets its tier, an operator's before a plain
/// one; whatever else is presented is anonymous.
pub proof fn law_keys_open_their_tier(
    keys: Seq<Seq<char>>,
    admins: Seq<Seq<char>>,
    presented: Seq<char>,
)
    ensures
        ({
            let m = rpcauth::with_keys(
                rpcauth::with_keys(Map::<Seq<u8>, Tier>::empty(), keys, Tier::Key),
                admins,
                Tier::Admin,
            );
            let long = text::utf8(presented).len() >= 16;
            rpcauth::tier_of(m, Some(presented)) == if long && admins.contains(presented) {
                Tier::Admin
            } else if long && keys.contains(presented) {
                Tier::Key
            } else {
                Tier::Anonymous
            }
        }),
{
    let none = Map::<Seq<u8>, Tier>::empty();
    lemma_keys_held(none, keys, Tier::Key, presented);
    lemma_keys_held(
        rpcauth::with_keys(none, keys, Tier::Key),
        admins,
        Tier::Admin,
        presented,
    );
}

// ---------------------------------------------------------------- peers

/// A node precommits to a block exactly when it takes part, is not halted and has a thousand
/// INAZ bonded; its precommit is of that block's height and hash, under its own key.
pub proof fn law_validators_precommit(n: NodeV, b: BlockV)
    ensures
        ({
            let (out, done, m) = p2p::voted_on(n, b);
            let takes_part = !n.serving_only && state::meta(n.db, "halt_reason"@) is None
                && state::account_of(n.db, n.address()).staked >= 1_000_000_000_000;
            &&& out.len() == if takes_part {
                1int
            } else {
                0
            }
            &&& !takes_part ==> m == n && done is None
            &&& takes_part ==> (out[0] matches p2p::GossipV::Vote(v) && {
                &&& v.height == b.height
                &&& v.hash == b.hash
                &&& v.voter_pubkey == crypto::hex_text(n.public())
                &&& m.votes == consensus::added(n.votes, n.db, v).1
                &&& m.db == consensus::added(n.votes, n.db, v).2
            })
        }),
{
    reveal(p2p::voted_on);
}

/// A node that stores every block from a height to its tip serves them from that height on,
/// one after the other: as many as were asked for and it has, two hundred at most.
pub proof fn law_blocks_are_served_in_order(db: Db, from: nat, tip: nat, limit: u64, i: int)
    requires
        from <= tip,
        forall|h: nat| from <= h <= tip ==> #[trigger] state::block_of(db, h) is Some,
    ensures
        ({
            let out = p2p::served(db, from, tip, p2p::batch_of(limit));
            let most = if limit < 200 {
                limit as int
            } else {
                200
            };
            &&& out.len() == if tip + 1 - from < most {
                tip + 1 - from
            } else {
                most
            }
            &&& 0 <= i < out.len() ==> state::block_of(db, (from + i) as nat) == Some(out[i])
        }),
{
    lemma_served(db, from, tip, p2p::batch_of(limit), i);
}

proof fn lemma_served(db: Db, h: nat, tip: nat, room: nat, i: int)
    requires
        forall|k: nat| h <= k <= tip ==> #[trigger] state::block_of(db, k) is Some,
    ensures
        ({
            let out = p2p::served(db, h, tip, room);
            let n = if h > tip {
                0
            } else {
                tip + 1 - h
            };
            &&& out.len() == if n < room {
                n
            } else {
                room as int
            }
            &&& 0 <= i < out.len() ==> state::block_of(db, (h + i) as nat) == Some(out[i])
        }),
    decreases tip + 1 - h,
{
    if h <= tip && room > 0 {
        assert(state::block_of(db, h) is Some);
        lemma_served(db, h + 1, tip, (room - 1) as nat, i - 1);
    }
}

/// A peer's chain is followed exactly when it is longer, or as long and its block has the
/// lower hash.
pub proof fn law_longer_chain_wins(ours: nat, theirs: nat, mine: Seq<char>, hash: Seq<char>)
    ensures
        theirs > ours ==> p2p::preferred(ours, theirs, Some(mine), hash),
        theirs < ours ==> !p2p::preferred(ours, theirs, Some(mine), hash),
        theirs == ours ==> (p2p::preferred(ours, theirs, Some(mine), hash) <==> text::lex_lt(
            text::utf8(hash),
            text::utf8(mine),
        )),
{
}

} // verus!
