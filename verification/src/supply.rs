//! What writes to the store keep: the rows they do not name, and the total of what
//! accounts own.

use crate::journal::CellV;
use crate::consensus;
use crate::consensus::TrackerV;
use crate::consensus::VoteV;
use crate::journal::Db;
use crate::ledger;
use crate::poseidon::ParamsV;
use crate::state;
use crate::table;
use crate::text;
use crate::tokens;
use crate::types;
use crate::types::AccountV;
use vstd::prelude::*;
use vstd::string::*;

verus! {

/// A database with every table, whose accounts can be walked.
pub open spec fn sound(db: Db) -> bool {
    db.len() == 16 && table::tabular(db[0])
}

/// Writing an account changes that account and no other.
pub proof fn lemma_account_after(db: Db, a: Seq<char>, v: AccountV, b: Seq<char>)
    requires
        db.len() == 16,
    ensures
        state::account_of(state::with_account(db, a, v), b) == if a == b {
            v
        } else {
            state::account_of(db, b)
        },
{
    if text::utf8(a) == text::utf8(b) {
        text::lemma_utf8_injective(a, b);
    }
}

/// Writing an account leaves every table but accounts, stakers and the Merkle tree.
pub proof fn lemma_account_frame(db: Db, a: Seq<char>, v: AccountV)
    requires
        db.len() == 16,
    ensures
        state::with_account(db, a, v).len() == 16,
        forall|i: int|
            0 <= i < 16 && i != 0 && i != 4 && i != 12 ==> #[trigger] state::with_account(db, a, v)[i]
                == db[i],
{
}

proof fn lemma_worth_insert(s: Seq<(Seq<u8>, CellV)>, i: int, e: (Seq<u8>, CellV))
    requires
        0 <= i <= s.len(),
    ensures
        state::worth_of(s.insert(i, e)) == state::worth_of(s) + state::cell_account(e.1).worth(),
    decreases s.len(),
{
    let t = s.insert(i, e);
    if i == s.len() {
        assert(t.drop_last() =~= s);
    } else {
        lemma_worth_insert(s.drop_last(), i, e);
        assert(t.drop_last() =~= s.drop_last().insert(i, e));
        assert(t.last() == s.last());
    }
}

proof fn lemma_worth_update(s: Seq<(Seq<u8>, CellV)>, i: int, e: (Seq<u8>, CellV))
    requires
        0 <= i < s.len(),
    ensures
        state::worth_of(s.update(i, e)) + state::cell_account(s[i].1).worth() == state::worth_of(s)
            + state::cell_account(e.1).worth(),
    decreases s.len(),
{
    let t = s.update(i, e);
    if i == s.len() - 1 {
        assert(t.drop_last() =~= s.drop_last());
    } else {
        lemma_worth_update(s.drop_last(), i, e);
        assert(t.drop_last() =~= s.drop_last().update(i, e));
        assert(t.last() == s.last());
    }
}

/// Writing an account changes the total supply by exactly what the account gains or
/// loses.
pub proof fn lemma_supply_after(db: Db, a: Seq<char>, v: AccountV)
    requires
        sound(db),
    ensures
        sound(state::with_account(db, a, v)),
        state::supply_of(state::with_account(db, a, v)) + state::account_of(db, a).worth()
            == state::supply_of(db) + v.worth(),
{
    let k = text::utf8(a);
    let m = db[0];
    let c = CellV::Account(v);
    assert(state::with_account(db, a, v)[0] == m.insert(k, c));
    if m.contains_key(k) {
        let i = table::lemma_walk_put(m, k, c);
        lemma_worth_update(table::ordered(m), i, (k, c));
    } else {
        let i = table::lemma_walk_put_fresh(m, k, c);
        lemma_worth_insert(table::ordered(m), i, (k, c));
        assert(types::unbond_sum(Seq::empty()) == 0);
    }
}

proof fn lemma_worth_member(s: Seq<(Seq<u8>, CellV)>, i: int)
    requires
        0 <= i < s.len(),
    ensures
        state::cell_account(s[i].1).worth() <= state::worth_of(s),
    decreases s.len(),
{
    if i < s.len() - 1 {
        lemma_worth_member(s.drop_last(), i);
    }
}

/// No account owns more than all accounts together.
pub proof fn lemma_account_within_supply(db: Db, a: Seq<char>)
    requires
        sound(db),
    ensures
        state::account_of(db, a).worth() <= state::supply_of(db),
{
    let k = text::utf8(a);
    assert(types::unbond_sum(Seq::empty()) == 0);
    if db[0].contains_key(k) {
        let i = table::lemma_walk_put(db[0], k, db[0][k]);
        lemma_worth_member(table::ordered(db[0]), i);
    }
}

/// Other writes leave accounts alone: what they leave of the account table they leave
/// of the supply.
pub proof fn lemma_supply_frame(db: Db, d: Db)
    requires
        sound(db),
        d.len() == 16,
        d[0] == db[0],
    ensures
        sound(d),
        state::supply_of(d) == state::supply_of(db),
        forall|a: Seq<char>| #[trigger] state::account_of(d, a) == state::account_of(db, a),
{
}

// ---------------------------------------------------------------- rewards

/// What the accounts of entries earned as rewards.
pub open spec fn earned_in(s: Seq<(Seq<u8>, CellV)>) -> nat
    decreases s.len(),
{
    if s.len() == 0 {
        0
    } else {
        earned_in(s.drop_last()) + state::cell_account(s.last().1).rewards as nat
    }
}

/// What all accounts together earned as rewards.
pub open spec fn earnings_of(db: Db) -> nat {
    earned_in(table::ordered(db[0]))
}

proof fn lemma_earned_insert(s: Seq<(Seq<u8>, CellV)>, i: int, e: (Seq<u8>, CellV))
    requires
        0 <= i <= s.len(),
    ensures
        earned_in(s.insert(i, e)) == earned_in(s) + state::cell_account(e.1).rewards,
    decreases s.len(),
{
    let t = s.insert(i, e);
    if i == s.len() {
        assert(t.drop_last() =~= s);
    } else {
        lemma_earned_insert(s.drop_last(), i, e);
        assert(t.drop_last() =~= s.drop_last().insert(i, e));
        assert(t.last() == s.last());
    }
}

proof fn lemma_earned_update(s: Seq<(Seq<u8>, CellV)>, i: int, e: (Seq<u8>, CellV))
    requires
        0 <= i < s.len(),
    ensures
        earned_in(s.update(i, e)) + state::cell_account(s[i].1).rewards == earned_in(s)
            + state::cell_account(e.1).rewards,
        state::cell_account(s[i].1).rewards <= earned_in(s),
    decreases s.len(),
{
    let t = s.update(i, e);
    if i == s.len() - 1 {
        assert(t.drop_last() =~= s.drop_last());
    } else {
        lemma_earned_update(s.drop_last(), i, e);
        assert(t.drop_last() =~= s.drop_last().update(i, e));
        assert(t.last() == s.last());
    }
}

/// Writing an account changes what all accounts earned by exactly what that account
/// gains, and no account earned more than all of them together.
pub proof fn lemma_earnings_after(db: Db, a: Seq<char>, v: AccountV)
    requires
        sound(db),
    ensures
        sound(state::with_account(db, a, v)),
        earnings_of(state::with_account(db, a, v)) + state::account_of(db, a).rewards
            == earnings_of(db) + v.rewards,
        state::account_of(db, a).rewards <= earnings_of(db),
{
    let k = text::utf8(a);
    let m = db[0];
    let c = CellV::Account(v);
    assert(state::with_account(db, a, v)[0] == m.insert(k, c));
    if m.contains_key(k) {
        let i = table::lemma_walk_put(m, k, c);
        lemma_earned_update(table::ordered(m), i, (k, c));
    } else {
        let i = table::lemma_walk_put_fresh(m, k, c);
        lemma_earned_insert(table::ordered(m), i, (k, c));
    }
}

// ---------------------------------------------------------------- token balances

/// Keys of balances of one token are equal only for one address.
proof fn lemma_joined_injective(t: Seq<char>, a: Seq<char>, b: Seq<char>)
    requires
        state::joined(t, a) == state::joined(t, b),
    ensures
        a == b,
{
    reveal_strlit(":");
    let x = state::joined(t, a);
    let y = state::joined(t, b);
    assert(x.skip(t.len() as int + 1) =~= a);
    assert(y.skip(t.len() as int + 1) =~= b);
}

/// Writing a token balance changes that balance and no other of the same token.
pub proof fn lemma_balance_after(db: Db, t: Seq<char>, a: Seq<char>, n: nat, b: Seq<char>)
    requires
        db.len() == 16,
        n <= u128::MAX,
    ensures
        state::token_balance_of(state::with_token_balance(db, t, a, n), t, b) == if a == b {
            n
        } else {
            state::token_balance_of(db, t, b)
        },
{
    let ka = text::utf8(state::joined(t, a));
    let kb = text::utf8(state::joined(t, b));
    if ka == kb {
        text::lemma_utf8_injective(state::joined(t, a), state::joined(t, b));
        lemma_joined_injective(t, a, b);
    }
    if n > 0 {
        text::lemma_lossy_round_trip(text::dec(n));
        text::lemma_parsed_dec(n);
    }
}

/// A registered token holds its own id.
pub open spec fn registered(db: Db, id: Seq<char>) -> bool {
    state::token_of(db, id) matches Some(t) && t.id == id
}

/// Moving units of a token between two accounts keeps its supply and what the two
/// hold together, and touches the balance of nobody else.
pub proof fn law_token_transfer_conserves(
    db: Db,
    sender: Seq<char>,
    to: Seq<char>,
    amount: nat,
    p: types::PayloadV,
    other: Seq<char>,
)
    requires
        db.len() == 16,
        registered(db, p.token),
        tokens::transferred(db, sender, to, amount, Some(p)) is Ok,
        state::token_of(db, p.token).unwrap().supply >= state::token_balance_of(
            db,
            p.token,
            sender,
        ),
        other != sender,
        other != to,
    ensures
        ({
            let d = tokens::transferred(db, sender, to, amount, Some(p))->Ok_0;
            let id = p.token;
            &&& state::token_of(d, id) matches Some(t) && t.supply == state::token_of(
                db,
                id,
            ).unwrap().supply
            &&& sender != to ==> state::token_balance_of(d, id, sender) == state::token_balance_of(
                db,
                id,
                sender,
            ) - amount
            &&& sender != to ==> state::token_balance_of(d, id, to) == state::token_balance_of(
                db,
                id,
                to,
            ) + amount
            &&& sender == to ==> d == db
            &&& state::token_balance_of(d, id, other) == state::token_balance_of(db, id, other)
        }),
{
    let id = p.token;
    if sender != to {
        let before = state::token_balance_of(db, id, sender);
        let after = (before - amount) as nat;
        lemma_parsed_bounds(db, id, sender);
        lemma_parsed_bounds(db, id, to);
        let d1 = state::with_token_balance(db, id, sender, after);
        lemma_balance_after(db, id, sender, after, sender);
        lemma_balance_after(db, id, sender, after, to);
        lemma_balance_after(db, id, sender, after, other);
        let d2 = state::debited(db, id, sender, amount).1;
        assert(d2[6] == d1[6]);
        let d3 = state::credited(d2, id, to, amount).1;
        let n = state::token_balance_of(d2, id, to) + amount;
        let u = state::token_of(d3, id);
        let mid = state::with_token(d2, state::token_of(d3, id).unwrap());
        lemma_balance_after(d2, id, to, n, sender);
        lemma_balance_after(d2, id, to, n, to);
        lemma_balance_after(d2, id, to, n, other);
        assert(d3[6] == state::with_token_balance(d2, id, to, n)[6]);
    }
}

proof fn lemma_parsed_bounds(db: Db, t: Seq<char>, a: Seq<char>)
    ensures
        state::token_balance_of(db, t, a) <= u128::MAX,
{
}


// ---------------------------------------------------------------- meta and roots

/// Writing one name of the meta table leaves the others.
pub proof fn lemma_meta_after(db: Db, name: Seq<char>, v: Seq<u8>, other: Seq<char>)
    requires
        db.len() == 16,
    ensures
        state::with_meta(db, name, v).len() == 16,
        state::meta(state::with_meta(db, name, v), other) == if other == name {
            Some(v)
        } else {
            state::meta(db, other)
        },
        forall|i: int|
            0 <= i < 16 && i != 3 ==> #[trigger] state::with_meta(db, name, v)[i] == db[i],
{
    if text::utf8(name) == text::utf8(other) {
        text::lemma_utf8_injective(name, other);
    }
}

/// Two databases agree on everything a state root covers.
pub open spec fn same_state(a: Db, b: Db) -> bool {
    &&& a.len() == 16
    &&& b.len() == 16
    &&& forall|i: int| 0 <= i < 16 && i != 1 && i != 2 && i != 3 ==> #[trigger] a[i] == b[i]
    &&& state::meta(a, "shielded_pool"@) == state::meta(b, "shielded_pool"@)
}

/// Databases that agree on what a state root covers have the same root.
pub proof fn lemma_same_root(p: ParamsV, a: Db, b: Db, height: nat)
    requires
        same_state(a, b),
    ensures
        state::root_at(p, a, height) == state::root_at(p, b, height),
{
    assert(a[0] == b[0] && a[5] == b[5] && a[6] == b[6] && a[7] == b[7] && a[9] == b[9] && a[12]
        == b[12] && a[13] == b[13] && a[14] == b[14]);
    assert(state::meta_number(a, "shielded_pool"@, u128::MAX as nat) == state::meta_number(
        b,
        "shielded_pool"@,
        u128::MAX as nat,
    ));
}

/// Writing a name of the meta table other than the pool's leaves the state.
pub proof fn lemma_meta_keeps_state(db: Db, name: Seq<char>, v: Seq<u8>)
    requires
        db.len() == 16,
        name != "shielded_pool"@,
    ensures
        same_state(db, state::with_meta(db, name, v)),
{
    lemma_meta_after(db, name, v, "shielded_pool"@);
}

/// Indexing transactions leaves every table but the index.
pub proof fn lemma_indexed_frame(db: Db, txs: Seq<types::TxV>, height: nat)
    requires
        db.len() == 16,
    ensures
        state::with_indexed(db, txs, height).len() == 16,
        forall|i: int|
            0 <= i < 16 && i != 2 ==> #[trigger] state::with_indexed(db, txs, height)[i] == db[i],
    decreases txs.len(),
{
    if txs.len() > 0 {
        lemma_indexed_frame(db, txs.drop_last(), height);
    }
}

/// Meta names that are all different.
pub proof fn lemma_meta_names()
    ensures
        "tip_height"@ != "shielded_pool"@,
        "tip_hash"@ != "shielded_pool"@,
        "base_fee"@ != "shielded_pool"@,
        "state_checkpoint"@ != "shielded_pool"@,
        "finalized_height"@ != "shielded_pool"@,
        "tip_height"@ != "tip_hash"@,
        "tip_height"@ != "base_fee"@,
        "tip_height"@ != "state_checkpoint"@,
        "tip_height"@ != "finalized_height"@,
        "tip_hash"@ != "base_fee"@,
        "tip_hash"@ != "state_checkpoint"@,
        "tip_hash"@ != "finalized_height"@,
        "base_fee"@ != "state_checkpoint"@,
        "base_fee"@ != "finalized_height"@,
        "state_checkpoint"@ != "finalized_height"@,
{
    reveal_strlit("tip_height");
    reveal_strlit("tip_hash");
    reveal_strlit("base_fee");
    reveal_strlit("state_checkpoint");
    reveal_strlit("finalized_height");
    reveal_strlit("shielded_pool");
    assert("tip_height"@.len() == 10);
    assert("tip_hash"@.len() == 8 && "tip_hash"@[0] == 't');
    assert("base_fee"@.len() == 8 && "base_fee"@[0] == 'b');
    assert("state_checkpoint"@.len() == 16 && "state_checkpoint"@[0] == 's');
    assert("finalized_height"@.len() == 16 && "finalized_height"@[0] == 'f');
    assert("shielded_pool"@.len() == 13);
}

/// Storing a block leaves the state and makes it the tip.
pub proof fn lemma_block_stored(db: Db, b: types::BlockV)
    requires
        db.len() == 16,
    ensures
        same_state(db, state::with_block(db, b)),
        state::tip_height_of(state::with_block(db, b)) == Some(b.height as nat),
        state::tip_hash_of(state::with_block(db, b)) == b.hash,
        state::block_of(state::with_block(db, b), b.height as nat) == Some(b),
{
    lemma_meta_names();
    let h = text::be(b.height as nat, 8);
    let d0 = ledger::put(db, 1, h, CellV::Block(b));
    lemma_indexed_frame(d0, b.transactions, b.height as nat);
    let d1 = state::with_indexed(d0, b.transactions, b.height as nat);
    let d2 = state::with_meta(d1, "tip_height"@, h);
    let d3 = state::with_meta(d2, "tip_hash"@, text::utf8(b.hash));
    lemma_meta_after(d1, "tip_height"@, h, "tip_height"@);
    lemma_meta_after(d1, "tip_height"@, h, "shielded_pool"@);
    lemma_meta_after(d2, "tip_hash"@, text::utf8(b.hash), "tip_height"@);
    lemma_meta_after(d2, "tip_hash"@, text::utf8(b.hash), "tip_hash"@);
    lemma_meta_after(d2, "tip_hash"@, text::utf8(b.hash), "shielded_pool"@);
    assert(d1[3] == db[3]);
    assert(state::meta(d1, "shielded_pool"@) == state::meta(db, "shielded_pool"@));
    text::lemma_pow256_values();
    text::lemma_be(b.height as nat, 8);
    text::lemma_lossy_round_trip(b.hash);
    assert(d3[1] == d0[1]);
    assert forall|i: int| 0 <= i < 16 && i != 1 && i != 2 && i != 3 implies #[trigger] db[i]
        == d3[i] by {
        assert(d1[i] == d0[i]);
        assert(d2[i] == d1[i]);
        assert(d3[i] == d2[i]);
    }
}

/// Recording a checkpoint leaves the state and is read back.
pub proof fn lemma_checkpoint_recorded(db: Db, height: u64, root: Seq<char>)
    requires
        db.len() == 16,
    ensures
        same_state(db, state::with_checkpoint(db, height as nat, root)),
        state::checkpoint_of(state::with_checkpoint(db, height as nat, root)) == Some(
            (height as nat, root),
        ),
{
    lemma_meta_names();
    reveal_strlit(":");
    let t = state::joined(text::dec(height as nat), root);
    lemma_meta_keeps_state(db, "state_checkpoint"@, text::utf8(t));
    lemma_meta_after(db, "state_checkpoint"@, text::utf8(t), "state_checkpoint"@);
    text::lemma_utf8_round_trip(t);
    text::lemma_dec_digits(height as nat);
    text::lemma_parsed_dec(height as nat);
    let n = text::dec(height as nat).len() as int;
    assert(t[n] == ':');
    t.index_of_first_ensures(':');
    assert forall|i: int| 0 <= i < n implies t[i] != ':' by {
        assert(t[i] == text::dec(height as nat)[i]);
        assert(text::is_digit(text::dec(height as nat)[i]));
    }
    assert(t.contains(':'));
    assert(t.index_of_first(':') == Some(n));
    assert(t.take(n) =~= text::dec(height as nat));
    assert(t.skip(n + 1) =~= root);
}

/// Counting precommits leaves everything but the finalized height, which never falls.
pub open spec fn finality_only(a: Db, b: Db) -> bool {
    &&& same_state(a, b)
    &&& a[1] == b[1]
    &&& a[2] == b[2]
    &&& forall|name: Seq<char>|
        name != "finalized_height"@ ==> #[trigger] state::meta(b, name) == state::meta(a, name)
    &&& state::finalized_of(b) >= state::finalized_of(a)
}

proof fn lemma_finalized_after(db: Db, h: u64)
    requires
        db.len() == 16,
    ensures
        finality_only(db, state::with_finalized(db, h as nat)),
{
    lemma_meta_names();
    let v = text::be(h as nat, 8);
    if h > state::finalized_of(db) {
        lemma_meta_keeps_state(db, "finalized_height"@, v);
        lemma_meta_after(db, "finalized_height"@, v, "finalized_height"@);
        text::lemma_pow256_values();
        text::lemma_be(h as nat, 8);
        assert forall|name: Seq<char>| name != "finalized_height"@ implies #[trigger] state::meta(
            state::with_finalized(db, h as nat),
            name,
        ) == state::meta(db, name) by {
            lemma_meta_after(db, "finalized_height"@, v, name);
        }
    }
}

/// Counting precommits that waited changes nothing but the finalized height.
pub proof fn lemma_votes_frame(t: TrackerV, db: Db, vs: Seq<VoteV>)
    requires
        db.len() == 16,
    ensures
        finality_only(db, consensus::added_all(t, db, vs).2),
    decreases vs.len(),
{
    if vs.len() > 0 {
        lemma_votes_frame(t, db, vs.drop_last());
        let (f, u, d) = consensus::added_all(t, db, vs.drop_last());
        lemma_finalized_after(d, vs.last().height);
    }
}

} // verus!
