//! What each transaction is for, said of the accounts, stakes and tokens that anybody can
//! read before and after it.

use crate::apply;
use crate::journal::Db;
use crate::staking;
use crate::state;
use crate::supply;
use crate::text;
use crate::tokens;
use crate::tokens::TokenV;
use crate::types::AccountV;
use crate::types::PayloadV;
use crate::types::TxV;
use crate::types::Unbond;
use vstd::prelude::*;
use vstd::string::*;

verus! {

// ---------------------------------------------------------------- coins

/// An account that paid: its balance is lower by what it paid, its nonce one higher, and
/// the rest of it as it was.
pub open spec fn charged(before: AccountV, after: AccountV, paid: nat) -> bool {
    &&& after.balance + paid == before.balance
    &&& after.nonce == before.nonce + 1
    &&& after.staked == before.staked
    &&& after.unbonding == before.unbonding
    &&& after.rewards == before.rewards
    &&& after.blocks_produced == before.blocks_produced
    &&& after.penalties == before.penalties
}

/// An account that was paid, and changed in nothing else.
pub open spec fn gained(before: AccountV, after: AccountV, got: nat) -> bool {
    &&& after.balance == before.balance + got
    &&& after.nonce == before.nonce
    &&& after.staked == before.staked
    &&& after.unbonding == before.unbonding
    &&& after.rewards == before.rewards
    &&& after.blocks_produced == before.blocks_produced
    &&& after.penalties == before.penalties
}

/// Accounts, stakers and their leaves aside, two databases are the same.
pub open spec fn same_but_accounts(db: Db, d: Db) -> bool {
    &&& d.len() == 16
    &&& forall|i: int| 0 <= i < 16 && i != 0 && i != 4 && i != 12 ==> #[trigger] d[i] == db[i]
}

/// A transfer takes the amount and the fee from its sender and gives the amount to its
/// recipient; a transfer to oneself costs the fee. Nobody else notices.
pub proof fn law_transfer_moves_the_amount(db: Db, tx: TxV, height: u64, other: Seq<char>)
    requires
        db.len() == 16,
        tx.kind is Transfer,
        apply::applied(db, tx, height) is Ok,
        Some(other) != tx.sender(),
        other != tx.to,
    ensures
        tx.sender() is Some,
        ({
            let (fee, d) = apply::applied(db, tx, height)->Ok_0;
            let sender = tx.sender()->Some_0;
            let a = state::account_of(db, sender);
            &&& fee == tx.fee
            &&& tx.nonce == a.nonce
            &&& sender != tx.to ==> charged(
                a,
                state::account_of(d, sender),
                (tx.amount + tx.fee) as nat,
            )
            &&& sender != tx.to ==> gained(
                state::account_of(db, tx.to),
                state::account_of(d, tx.to),
                tx.amount as nat,
            )
            &&& sender == tx.to ==> charged(a, state::account_of(d, sender), tx.fee as nat)
            &&& state::account_of(d, other) == state::account_of(db, other)
            &&& same_but_accounts(db, d)
        }),
{
    let sender = tx.sender()->Some_0;
    let a = state::account_of(db, sender);
    let b = apply::debited(a, tx);
    let d = state::with_account(db, sender, b);
    supply::lemma_account_frame(db, sender, b);
    supply::lemma_account_after(db, sender, b, sender);
    supply::lemma_account_after(db, sender, b, tx.to);
    supply::lemma_account_after(db, sender, b, other);
    if tx.to == sender {
        let c = AccountV { balance: (b.balance + tx.amount) as u128, ..b };
        supply::lemma_account_frame(db, sender, c);
        supply::lemma_account_after(db, sender, c, sender);
        supply::lemma_account_after(db, sender, c, other);
    } else {
        let t = state::account_of(d, tx.to);
        let c = AccountV { balance: (t.balance + tx.amount) as u128, ..t };
        supply::lemma_account_frame(d, tx.to, c);
        supply::lemma_account_after(d, tx.to, c, sender);
        supply::lemma_account_after(d, tx.to, c, tx.to);
        supply::lemma_account_after(d, tx.to, c, other);
    }
}

/// A transfer goes through exactly when its nonce is the sender's next, the sender can pay
/// the amount and the fee, and the recipient can hold it.
pub proof fn law_transfer_goes_through(db: Db, tx: TxV, height: u64)
    requires
        db.len() == 16,
        tx.kind is Transfer,
    ensures
        apply::applied(db, tx, height) is Ok <==> (tx.sender() matches Some(sender) && {
            let a = state::account_of(db, sender);
            &&& tx.nonce == a.nonce
            &&& a.nonce < u64::MAX
            &&& tx.amount + tx.fee <= a.balance
            &&& sender == tx.to || state::account_of(db, tx.to).balance + tx.amount <= u128::MAX
        }),
{
    if tx.sender() is Some {
        let sender = tx.sender()->Some_0;
        let b = apply::debited(state::account_of(db, sender), tx);
        supply::lemma_account_after(db, sender, b, tx.to);
    }
}

/// Staking moves the amount from the sender's balance into the sender's bond, and costs
/// the fee.
pub proof fn law_stake_bonds_the_amount(db: Db, tx: TxV, height: u64, other: Seq<char>)
    requires
        db.len() == 16,
        tx.kind is Stake,
        apply::applied(db, tx, height) is Ok,
        Some(other) != tx.sender(),
    ensures
        tx.sender() is Some,
        ({
            let (fee, d) = apply::applied(db, tx, height)->Ok_0;
            let a = state::account_of(db, tx.sender()->Some_0);
            let b = state::account_of(d, tx.sender()->Some_0);
            &&& fee == tx.fee
            &&& b.staked == a.staked + tx.amount
            &&& charged(
                a,
                AccountV { staked: a.staked, ..b },
                (tx.amount + tx.fee) as nat,
            )
            &&& state::account_of(d, other) == state::account_of(db, other)
            &&& same_but_accounts(db, d)
        }),
{
    let sender = tx.sender()->Some_0;
    let b = apply::debited(state::account_of(db, sender), tx);
    let c = AccountV { staked: (b.staked + tx.amount) as u128, ..b };
    supply::lemma_account_frame(db, sender, c);
    supply::lemma_account_after(db, sender, c, sender);
    supply::lemma_account_after(db, sender, c, other);
}

/// Staking goes through exactly when the nonce is the sender's next, the sender can pay
/// the amount and the fee, and the bond can hold it.
pub proof fn law_stake_goes_through(db: Db, tx: TxV, height: u64)
    requires
        tx.kind is Stake,
    ensures
        apply::applied(db, tx, height) is Ok <==> (tx.sender() matches Some(sender) && {
            let a = state::account_of(db, sender);
            &&& tx.nonce == a.nonce
            &&& a.nonce < u64::MAX
            &&& tx.amount + tx.fee <= a.balance
            &&& a.staked + tx.amount <= u128::MAX
        }),
{
}

/// Unstaking takes the amount out of the bond, locks it for three hundred blocks, and
/// costs the fee and nothing more.
pub proof fn law_unstake_locks_for_three_hundred_blocks(
    db: Db,
    tx: TxV,
    height: u64,
    other: Seq<char>,
)
    requires
        db.len() == 16,
        tx.kind is Unstake,
        apply::applied(db, tx, height) is Ok,
        height + 300 <= u64::MAX,
        Some(other) != tx.sender(),
    ensures
        tx.sender() is Some,
        ({
            let (fee, d) = apply::applied(db, tx, height)->Ok_0;
            let a = state::account_of(db, tx.sender()->Some_0);
            let b = state::account_of(d, tx.sender()->Some_0);
            &&& fee == tx.fee
            &&& b.staked + tx.amount == a.staked
            &&& b.unbonding == a.unbonding.push(
                Unbond { amount: tx.amount, release_height: (height + 300) as u64 },
            )
            &&& charged(
                a,
                AccountV { staked: a.staked, unbonding: a.unbonding, ..b },
                tx.fee as nat,
            )
            &&& state::account_of(d, other) == state::account_of(db, other)
            &&& same_but_accounts(db, d)
        }),
{
    let sender = tx.sender()->Some_0;
    let b = apply::debited(state::account_of(db, sender), tx);
    let c = AccountV {
        staked: (b.staked - tx.amount) as u128,
        unbonding: b.unbonding.push(
            Unbond { amount: tx.amount, release_height: (height + 300) as u64 },
        ),
        ..b
    };
    supply::lemma_account_frame(db, sender, c);
    supply::lemma_account_after(db, sender, c, sender);
    supply::lemma_account_after(db, sender, c, other);
}

/// Unstaking goes through exactly when the nonce is the sender's next, the sender can pay
/// the fee and has that much bonded.
pub proof fn law_unstake_goes_through(db: Db, tx: TxV, height: u64)
    requires
        tx.kind is Unstake,
    ensures
        apply::applied(db, tx, height) is Ok <==> (tx.sender() matches Some(sender) && {
            let a = state::account_of(db, sender);
            &&& tx.nonce == a.nonce
            &&& a.nonce < u64::MAX
            &&& tx.fee <= a.balance
            &&& tx.amount <= a.staked
        }),
{
}

/// One more lock on an account: what the others come to at a height, this one adds to.
proof fn lemma_released_push(a: AccountV, x: Unbond, height: u64)
    ensures
        ({
            let b = AccountV { unbonding: a.unbonding.push(x), ..a };
            let u = staking::released(a, height).unbonding;
            &&& x.release_height > height ==> staking::released(b, height).balance
                == staking::released(a, height).balance
            &&& x.release_height > height ==> staking::released(b, height).unbonding == u.push(x)
            &&& x.release_height <= height ==> staking::released(b, height).unbonding == u
        }),
{
    assert(a.unbonding.push(x).drop_last() =~= a.unbonding);
}

/// Unstaked coins stay locked below their height and come back whole at it: before, the
/// account is as if nothing had been unstaked but for the lock; then, it has exactly the
/// amount more to spend and the lock is gone.
pub proof fn law_unstaked_coins_come_back(a: AccountV, amount: u128, from: u64, height: u64)
    requires
        from + 300 <= u64::MAX,
        a.worth() + amount <= u128::MAX,
    ensures
        ({
            let x = Unbond { amount, release_height: (from + 300) as u64 };
            let with = staking::released(
                AccountV { unbonding: a.unbonding.push(x), ..a },
                height,
            );
            let without = staking::released(a, height);
            &&& height < from + 300 ==> with.balance == without.balance && with.unbonding
                == without.unbonding.push(x)
            &&& height >= from + 300 ==> with.balance == without.balance + amount
                && with.unbonding == without.unbonding
            &&& with.staked == a.staked && with.nonce == a.nonce
        }),
{
    let x = Unbond { amount, release_height: (from + 300) as u64 };
    let b = AccountV { unbonding: a.unbonding.push(x), ..a };
    lemma_released_push(a, x, height);
    assert(b.unbonding.drop_last() =~= a.unbonding);
    assert(b.worth() == a.worth() + amount);
    staking::law_unbonding_conserves(a, height);
    staking::law_unbonding_conserves(b, height);
}

// ---------------------------------------------------------------- tokens

/// A balance of a token that another entry of the balance table holds.
pub open spec fn elsewhere(id: Seq<char>, who: Seq<char>, token: Seq<char>, holder: Seq<char>) -> bool {
    token + ":"@ + holder != id + ":"@ + who
}

/// Accounts are as they were.
pub open spec fn same_accounts(db: Db, d: Db) -> bool {
    forall|a: Seq<char>| #[trigger] state::account_of(d, a) == state::account_of(db, a)
}

/// A token as it was but for what is in circulation and in how many hands.
pub open spec fn same_token(t: TokenV, u: TokenV) -> bool {
    &&& u.id == t.id
    &&& u.symbol == t.symbol
    &&& u.name == t.name
    &&& u.decimals == t.decimals
    &&& u.creator == t.creator
    &&& u.mintable == t.mintable
    &&& u.created_height == t.created_height
}

proof fn lemma_balance_written(
    db: Db,
    id: Seq<char>,
    who: Seq<char>,
    n: nat,
    token: Seq<char>,
    holder: Seq<char>,
)
    requires
        db.len() == 16,
        n <= u128::MAX,
    ensures
        ({
            let d = state::with_token_balance(db, id, who, n);
            &&& d.len() == 16
            &&& state::token_balance_of(d, id, who) == n
            &&& elsewhere(id, who, token, holder) ==> state::token_balance_of(d, token, holder)
                == state::token_balance_of(db, token, holder)
            &&& same_accounts(db, d)
            &&& forall|t: Seq<char>| #[trigger] state::token_of(d, t) == state::token_of(db, t)
        }),
{
    supply::lemma_balance_after(db, id, who, n, who);
    let x = state::joined(id, who);
    let y = state::joined(token, holder);
    if text::utf8(x) == text::utf8(y) {
        text::lemma_utf8_injective(x, y);
    }
}

proof fn lemma_token_written(db: Db, t: TokenV, id: Seq<char>)
    requires
        db.len() == 16,
    ensures
        ({
            let d = state::with_token(db, t);
            &&& d.len() == 16
            &&& d[6] == db[6]
            &&& state::token_of(d, t.id) == Some(t)
            &&& id != t.id ==> state::token_of(d, id) == state::token_of(db, id)
            &&& same_accounts(db, d)
        }),
{
    if text::utf8(t.id) == text::utf8(id) {
        text::lemma_utf8_injective(t.id, id);
    }
}

proof fn lemma_units_added(
    db: Db,
    id: Seq<char>,
    who: Seq<char>,
    n: nat,
    token: Seq<char>,
    holder: Seq<char>,
    kin: Seq<char>,
)
    requires
        db.len() == 16,
        supply::registered(db, id),
        state::credited(db, id, who, n).0 is Ok,
        kin != id,
    ensures
        ({
            let d = state::credited(db, id, who, n).1;
            let t = state::token_of(db, id)->Some_0;
            let u = state::token_of(d, id)->Some_0;
            let before = state::token_balance_of(db, id, who);
            &&& d.len() == 16
            &&& state::token_of(d, id) is Some
            &&& same_token(t, u)
            &&& u.supply == t.supply + n
            &&& t.holders < u64::MAX ==> u.holders == t.holders + if before == 0 && n > 0 {
                1int
            } else {
                0
            }
            &&& state::token_balance_of(d, id, who) == before + n
            &&& elsewhere(id, who, token, holder) ==> state::token_balance_of(d, token, holder)
                == state::token_balance_of(db, token, holder)
            &&& state::token_of(d, kin) == state::token_of(db, kin)
            &&& same_accounts(db, d)
        }),
{
    let before = state::token_balance_of(db, id, who);
    let t = state::token_of(db, id)->Some_0;
    let u = TokenV {
        supply: (t.supply + n) as u128,
        holders: if before == 0 && n > 0 && t.holders < u64::MAX {
            (t.holders + 1) as u64
        } else {
            t.holders
        },
        ..t
    };
    lemma_token_written(db, u, kin);
    let e = state::with_token(db, u);
    assert(state::token_balance_of(e, token, holder) == state::token_balance_of(db, token, holder));
    lemma_balance_written(e, id, who, before + n, token, holder);
}

proof fn lemma_units_taken(
    db: Db,
    id: Seq<char>,
    who: Seq<char>,
    n: nat,
    token: Seq<char>,
    holder: Seq<char>,
    kin: Seq<char>,
)
    requires
        db.len() == 16,
        supply::registered(db, id),
        state::debited(db, id, who, n).0 is Ok,
        n <= state::token_of(db, id)->Some_0.supply,
        kin != id,
    ensures
        ({
            let d = state::debited(db, id, who, n).1;
            let t = state::token_of(db, id)->Some_0;
            let u = state::token_of(d, id)->Some_0;
            let before = state::token_balance_of(db, id, who);
            &&& d.len() == 16
            &&& state::token_of(d, id) is Some
            &&& same_token(t, u)
            &&& u.supply + n == t.supply
            &&& t.holders > 0 ==> u.holders + if before == n {
                1int
            } else {
                0
            } == t.holders
            &&& state::token_balance_of(d, id, who) + n == before
            &&& elsewhere(id, who, token, holder) ==> state::token_balance_of(d, token, holder)
                == state::token_balance_of(db, token, holder)
            &&& state::token_of(d, kin) == state::token_of(db, kin)
            &&& same_accounts(db, d)
        }),
{
    let before = state::token_balance_of(db, id, who);
    let after = (before - n) as nat;
    let t = state::token_of(db, id)->Some_0;
    lemma_balance_written(db, id, who, after, token, holder);
    let e = state::with_token_balance(db, id, who, after);
    let u = TokenV {
        supply: (t.supply - n) as u128,
        holders: if after == 0 && t.holders > 0 {
            (t.holders - 1) as u64
        } else {
            t.holders
        },
        ..t
    };
    lemma_token_written(e, u, kin);
    let d = state::with_token(e, u);
    assert(state::token_balance_of(d, token, holder) == state::token_balance_of(e, token, holder));
    assert(state::token_balance_of(d, id, who) == state::token_balance_of(e, id, who));
}

/// A mint gives the recipient exactly the amount and puts exactly the amount into
/// circulation; every other balance and every other token is as it was.
pub proof fn law_mint_gives_the_amount(
    db: Db,
    sender: Seq<char>,
    to: Seq<char>,
    amount: nat,
    p: PayloadV,
    token: Seq<char>,
    holder: Seq<char>,
    kin: Seq<char>,
)
    requires
        db.len() == 16,
        supply::registered(db, p.token),
        tokens::minted(db, sender, to, amount, Some(p)) is Ok,
        elsewhere(p.token, to, token, holder),
        kin != p.token,
    ensures
        ({
            let d = tokens::minted(db, sender, to, amount, Some(p))->Ok_0;
            let t = state::token_of(db, p.token)->Some_0;
            let u = state::token_of(d, p.token)->Some_0;
            let before = state::token_balance_of(db, p.token, to);
            &&& t.creator == sender && t.mintable
            &&& state::token_balance_of(d, p.token, to) == before + amount
            &&& state::token_of(d, p.token) is Some
            &&& u.supply == t.supply + amount
            &&& same_token(t, u)
            &&& t.holders < u64::MAX ==> u.holders == t.holders + if before == 0 && amount > 0 {
                1int
            } else {
                0
            }
            &&& state::token_balance_of(d, token, holder) == state::token_balance_of(
                db,
                token,
                holder,
            )
            &&& state::token_of(d, kin) == state::token_of(db, kin)
            &&& same_accounts(db, d)
        }),
{
    lemma_units_added(db, p.token, to, amount, token, holder, kin);
}

/// A mint goes through exactly for the creator of a mintable token whose supply, and the
/// recipient's balance, can hold the amount.
pub proof fn law_mint_goes_through(
    db: Db,
    sender: Seq<char>,
    to: Seq<char>,
    amount: nat,
    p: PayloadV,
)
    requires
        supply::registered(db, p.token),
    ensures
        tokens::minted(db, sender, to, amount, Some(p)) is Ok <==> {
            let t = state::token_of(db, p.token)->Some_0;
            &&& t.creator == sender
            &&& t.mintable
            &&& t.supply + amount <= u128::MAX
            &&& state::token_balance_of(db, p.token, to) + amount <= u128::MAX
        },
{
}

/// Burning takes exactly the amount from its holder and from circulation.
pub proof fn law_burn_destroys_the_amount(
    db: Db,
    sender: Seq<char>,
    amount: nat,
    p: PayloadV,
    token: Seq<char>,
    holder: Seq<char>,
    kin: Seq<char>,
)
    requires
        db.len() == 16,
        supply::registered(db, p.token),
        amount <= state::token_of(db, p.token)->Some_0.supply,
        tokens::burnt(db, sender, amount, Some(p)) is Ok,
        elsewhere(p.token, sender, token, holder),
        kin != p.token,
    ensures
        ({
            let d = tokens::burnt(db, sender, amount, Some(p))->Ok_0;
            let t = state::token_of(db, p.token)->Some_0;
            let u = state::token_of(d, p.token)->Some_0;
            let before = state::token_balance_of(db, p.token, sender);
            &&& state::token_balance_of(d, p.token, sender) + amount == before
            &&& state::token_of(d, p.token) is Some
            &&& u.supply + amount == t.supply
            &&& same_token(t, u)
            &&& t.holders > 0 ==> u.holders + if before == amount {
                1int
            } else {
                0
            } == t.holders
            &&& state::token_balance_of(d, token, holder) == state::token_balance_of(
                db,
                token,
                holder,
            )
            &&& state::token_of(d, kin) == state::token_of(db, kin)
            &&& same_accounts(db, d)
        }),
{
    lemma_units_taken(db, p.token, sender, amount, token, holder, kin);
}

/// A burn goes through exactly for who holds the amount.
pub proof fn law_burn_goes_through(db: Db, sender: Seq<char>, amount: nat, p: PayloadV)
    requires
        supply::registered(db, p.token),
    ensures
        tokens::burnt(db, sender, amount, Some(p)) is Ok <==> amount <= state::token_balance_of(
            db,
            p.token,
            sender,
        ),
{
}

/// Moving units takes exactly the amount from the sender and gives it to the recipient;
/// circulation, every other balance and every other token are as they were.
pub proof fn law_token_transfer_moves_the_amount(
    db: Db,
    sender: Seq<char>,
    to: Seq<char>,
    amount: nat,
    p: PayloadV,
    token: Seq<char>,
    holder: Seq<char>,
    kin: Seq<char>,
)
    requires
        db.len() == 16,
        supply::registered(db, p.token),
        amount <= state::token_of(db, p.token)->Some_0.supply,
        tokens::transferred(db, sender, to, amount, Some(p)) is Ok,
        elsewhere(p.token, sender, token, holder),
        elsewhere(p.token, to, token, holder),
        kin != p.token,
    ensures
        ({
            let d = tokens::transferred(db, sender, to, amount, Some(p))->Ok_0;
            let t = state::token_of(db, p.token)->Some_0;
            let u = state::token_of(d, p.token)->Some_0;
            &&& sender != to ==> state::token_balance_of(d, p.token, sender) + amount
                == state::token_balance_of(db, p.token, sender)
            &&& sender != to ==> state::token_balance_of(d, p.token, to)
                == state::token_balance_of(db, p.token, to) + amount
            &&& sender == to ==> d == db
            &&& state::token_of(d, p.token) is Some
            &&& u.supply == t.supply
            &&& same_token(t, u)
            &&& state::token_balance_of(d, token, holder) == state::token_balance_of(
                db,
                token,
                holder,
            )
            &&& state::token_of(d, kin) == state::token_of(db, kin)
            &&& same_accounts(db, d)
        }),
{
    let id = p.token;
    if sender != to {
        assert(elsewhere(id, sender, id, to)) by {
            let x = id + ":"@ + sender;
            let y = id + ":"@ + to;
            reveal_strlit(":");
            if x == y {
                assert(x.skip(id.len() as int + 1) =~= sender);
                assert(y.skip(id.len() as int + 1) =~= to);
            }
        }
        lemma_units_taken(db, id, sender, amount, token, holder, kin);
        lemma_units_taken(db, id, sender, amount, id, to, kin);
        let e = state::debited(db, id, sender, amount).1;
        lemma_units_added(e, id, to, amount, token, holder, kin);
        lemma_units_added(e, id, to, amount, id, sender, kin);
    }
}

/// Creating a token registers what the payload describes under a fresh id and gives its
/// creator the whole supply; every other token and balance is as it was.
pub proof fn law_create_registers_the_token(
    db: Db,
    sender: Seq<char>,
    nonce: nat,
    amount: nat,
    height: u64,
    p: PayloadV,
    token: Seq<char>,
    holder: Seq<char>,
    kin: Seq<char>,
)
    requires
        db.len() == 16,
        tokens::created(db, sender, nonce, amount, height, Some(p)) is Ok,
        state::token_balance_of(
            db,
            tokens::created(db, sender, nonce, amount, height, Some(p))->Ok_0.0,
            sender,
        ) == 0,
        elsewhere(
            tokens::created(db, sender, nonce, amount, height, Some(p))->Ok_0.0,
            sender,
            token,
            holder,
        ),
        kin != tokens::created(db, sender, nonce, amount, height, Some(p))->Ok_0.0,
    ensures
        ({
            let (id, d) = tokens::created(db, sender, nonce, amount, height, Some(p))->Ok_0;
            let u = state::token_of(d, id)->Some_0;
            &&& state::token_of(db, id) is None
            &&& state::token_of(d, id) is Some
            &&& u.id == id
            &&& Ok::<Seq<char>, Seq<char>>(u.symbol) == tokens::symbol_of(p.symbol)
            &&& u.name == text::trimmed(p.name)
            &&& u.decimals == p.decimals
            &&& u.decimals <= 18
            &&& u.supply == amount
            &&& u.creator == sender
            &&& u.mintable == p.mintable
            &&& u.created_height == height
            &&& u.holders == if amount > 0 {
                1int
            } else {
                0
            }
            &&& state::token_balance_of(d, id, sender) == amount
            &&& state::token_balance_of(d, token, holder) == state::token_balance_of(
                db,
                token,
                holder,
            )
            &&& state::token_of(d, kin) == state::token_of(db, kin)
            &&& same_accounts(db, d)
        }),
{
    let symbol = tokens::symbol_of(p.symbol)->Ok_0;
    let t = tokens::fresh_token(sender, nonce, symbol, height, p);
    lemma_token_written(db, t, kin);
    let e = state::with_token(db, t);
    assert(state::token_balance_of(e, t.id, sender) == state::token_balance_of(db, t.id, sender));
    assert(state::token_balance_of(e, token, holder) == state::token_balance_of(db, token, holder));
    if amount > 0 {
        lemma_units_added(e, t.id, sender, amount, token, holder, kin);
    }
}

/// A ticker is two to ten capital letters and digits: the asked one, trimmed and in
/// capitals. Nothing else is refused.
pub proof fn law_symbol_is_normal(raw: Seq<char>)
    ensures
        ({
            let s = text::ascii_upper_spec(text::trimmed(raw));
            let fits = 2 <= text::utf8(s).len() <= 10 && forall|i: int|
                0 <= i < s.len() ==> ('0' <= #[trigger] s[i] <= '9' || 'A' <= s[i] <= 'Z');
            &&& fits ==> tokens::symbol_of(raw) == Ok::<Seq<char>, Seq<char>>(s)
            &&& !fits ==> tokens::symbol_of(raw) is Err
        }),
{
    let s = text::ascii_upper_spec(text::trimmed(raw));
    assert forall|i: int| 0 <= i < s.len() implies !('a' <= #[trigger] s[i] <= 'z') by {}
}

/// A token is created exactly when its ticker is in order, it has at most eighteen
/// decimals, its id is free, and its supply fits.
pub proof fn law_create_goes_through(
    db: Db,
    sender: Seq<char>,
    nonce: nat,
    amount: u128,
    height: u64,
    p: PayloadV,
)
    requires
        db.len() == 16,
        tokens::symbol_of(p.symbol) is Ok ==> state::token_balance_of(
            db,
            tokens::token_id_of(sender, nonce, tokens::symbol_of(p.symbol)->Ok_0),
            sender,
        ) == 0,
    ensures
        tokens::created(db, sender, nonce, amount as nat, height, Some(p)) is Ok <==> {
            &&& tokens::symbol_of(p.symbol) is Ok
            &&& p.decimals <= 18
            &&& state::token_of(
                db,
                tokens::token_id_of(sender, nonce, tokens::symbol_of(p.symbol)->Ok_0),
            ) is None
        },
{
    if tokens::symbol_of(p.symbol) is Ok {
        let t = tokens::fresh_token(sender, nonce, tokens::symbol_of(p.symbol)->Ok_0, height, p);
        lemma_token_written(db, t, t.id);
        let e = state::with_token(db, t);
        assert(state::token_balance_of(e, t.id, sender) == state::token_balance_of(
            db,
            t.id,
            sender,
        ));
    }
}

/// What a token transaction costs in INAZ: the fee, and ten INAZ more to create a token.
pub open spec fn token_cost(tx: TxV) -> nat {
    if tx.kind is CreateToken {
        (tx.fee + 10_000_000_000) as nat
    } else {
        tx.fee as nat
    }
}

/// A token transaction costs its sender the fee in INAZ, ten INAZ more when it creates a
/// token, and no coin of anybody else's.
pub proof fn law_token_transaction_pays_in_inaz(db: Db, tx: TxV, height: u64, other: Seq<char>)
    requires
        db.len() == 16,
        tx.kind is CreateToken || tx.kind is MintToken || tx.kind is TokenTransfer
            || tx.kind is BurnToken,
        apply::applied(db, tx, height) is Ok,
        Some(other) != tx.sender(),
    ensures
        tx.sender() is Some,
        ({
            let (fee, d) = apply::applied(db, tx, height)->Ok_0;
            let sender = tx.sender()->Some_0;
            &&& fee == token_cost(tx)
            &&& charged(
                state::account_of(db, sender),
                state::account_of(d, sender),
                token_cost(tx),
            )
            &&& state::account_of(d, other) == state::account_of(db, other)
        }),
{
    let sender = tx.sender()->Some_0;
    let b = apply::debited(state::account_of(db, sender), tx);
    let e = state::with_account(db, sender, b);
    supply::lemma_account_frame(db, sender, b);
    supply::lemma_account_after(db, sender, b, sender);
    supply::lemma_account_after(db, sender, b, other);
    let d = apply::applied(db, tx, height)->Ok_0.1;
    assert(d[0] == e[0]);
}

/// The token part of a token transaction, at the level of the chain: a mint adds to the
/// recipient and to circulation, a burn takes from the sender and from circulation, a
/// transfer moves from sender to recipient, all by exactly the amount.
pub proof fn law_token_transaction_moves_units(
    db: Db,
    tx: TxV,
    height: u64,
    token: Seq<char>,
    holder: Seq<char>,
    kin: Seq<char>,
)
    requires
        db.len() == 16,
        tx.kind is MintToken || tx.kind is TokenTransfer || tx.kind is BurnToken,
        apply::applied(db, tx, height) is Ok,
        supply::registered(db, tx.payload->Some_0.token),
        tx.kind is MintToken || tx.amount <= state::token_of(
            db,
            tx.payload->Some_0.token,
        )->Some_0.supply,
        kin != tx.payload->Some_0.token,
        elsewhere(tx.payload->Some_0.token, tx.sender()->Some_0, token, holder),
        elsewhere(tx.payload->Some_0.token, tx.to, token, holder),
    ensures
        tx.payload is Some,
        tx.sender() is Some,
        tx.amount > 0,
        ({
            let d = apply::applied(db, tx, height)->Ok_0.1;
            let id = tx.payload->Some_0.token;
            let s = tx.sender()->Some_0;
            let t = state::token_of(db, id)->Some_0;
            let u = state::token_of(d, id)->Some_0;
            &&& state::token_of(d, id) is Some
            &&& same_token(t, u)
            &&& tx.kind is MintToken ==> {
                &&& t.creator == s && t.mintable
                &&& u.supply == t.supply + tx.amount
                &&& state::token_balance_of(d, id, tx.to) == state::token_balance_of(db, id, tx.to)
                    + tx.amount
            }
            &&& tx.kind is BurnToken ==> {
                &&& u.supply + tx.amount == t.supply
                &&& state::token_balance_of(d, id, s) + tx.amount == state::token_balance_of(
                    db,
                    id,
                    s,
                )
            }
            &&& tx.kind is TokenTransfer ==> {
                &&& u.supply == t.supply
                &&& s != tx.to ==> state::token_balance_of(d, id, s) + tx.amount
                    == state::token_balance_of(db, id, s)
                &&& s != tx.to ==> state::token_balance_of(d, id, tx.to)
                    == state::token_balance_of(db, id, tx.to) + tx.amount
                &&& s == tx.to ==> state::token_balance_of(d, id, s) == state::token_balance_of(
                    db,
                    id,
                    s,
                )
            }
            &&& state::token_balance_of(d, token, holder) == state::token_balance_of(
                db,
                token,
                holder,
            )
            &&& state::token_of(d, kin) == state::token_of(db, kin)
        }),
{
    let s = tx.sender()->Some_0;
    let id = tx.payload->Some_0.token;
    let b = apply::debited(state::account_of(db, s), tx);
    let e = state::with_account(db, s, b);
    supply::lemma_account_frame(db, s, b);
    assert(e[5] == db[5] && e[6] == db[6]);
    assert(state::token_of(e, id) == state::token_of(db, id));
    assert(state::token_of(e, kin) == state::token_of(db, kin));
    assert(state::token_balance_of(e, id, s) == state::token_balance_of(db, id, s));
    assert(state::token_balance_of(e, id, tx.to) == state::token_balance_of(db, id, tx.to));
    assert(state::token_balance_of(e, token, holder) == state::token_balance_of(db, token, holder));
    let p = tx.payload->Some_0;
    if tx.kind is MintToken {
        law_mint_gives_the_amount(e, s, tx.to, tx.amount as nat, p, token, holder, kin);
    } else if tx.kind is BurnToken {
        law_burn_destroys_the_amount(e, s, tx.amount as nat, p, token, holder, kin);
    } else {
        law_token_transfer_moves_the_amount(
            e,
            s,
            tx.to,
            tx.amount as nat,
            p,
            token,
            holder,
            kin,
        );
    }
}

/// A token transaction goes through exactly when the nonce is the sender's next, the
/// sender can pay for it, and the token lets it: a mint for the creator of a mintable token
/// with room, a burn or a transfer for who holds the amount; never for nothing.
pub proof fn law_token_transaction_goes_through(db: Db, tx: TxV, height: u64)
    requires
        db.len() == 16,
        tx.kind is MintToken || tx.kind is TokenTransfer || tx.kind is BurnToken,
        tx.payload is Some,
        supply::registered(db, tx.payload->Some_0.token),
        tx.amount <= state::token_balance_of(
            db,
            tx.payload->Some_0.token,
            tx.sender()->Some_0,
        ) ==> tx.amount <= state::token_of(db, tx.payload->Some_0.token)->Some_0.supply,
    ensures
        apply::applied(db, tx, height) is Ok <==> (tx.sender() matches Some(sender) && {
            let a = state::account_of(db, sender);
            let id = tx.payload->Some_0.token;
            let t = state::token_of(db, id)->Some_0;
            &&& tx.nonce == a.nonce
            &&& a.nonce < u64::MAX
            &&& tx.fee <= a.balance
            &&& tx.amount > 0
            &&& tx.kind is MintToken ==> {
                &&& t.creator == sender
                &&& t.mintable
                &&& crate::crypto::valid_address(tx.to)
                &&& t.supply + tx.amount <= u128::MAX
                &&& state::token_balance_of(db, id, tx.to) + tx.amount <= u128::MAX
            }
            &&& tx.kind is BurnToken ==> tx.amount <= state::token_balance_of(db, id, sender)
            &&& tx.kind is TokenTransfer ==> {
                &&& tx.amount <= state::token_balance_of(db, id, sender)
                &&& crate::crypto::valid_address(tx.to)
                &&& sender == tx.to || state::token_balance_of(db, id, tx.to) + tx.amount
                    <= u128::MAX
            }
        }),
{
    if tx.sender() is Some {
        let s = tx.sender()->Some_0;
        let id = tx.payload->Some_0.token;
        let b = apply::debited(state::account_of(db, s), tx);
        let e = state::with_account(db, s, b);
        supply::lemma_account_frame(db, s, b);
        assert(e[5] == db[5] && e[6] == db[6]);
        assert(state::token_of(e, id) == state::token_of(db, id));
        assert(state::token_balance_of(e, id, s) == state::token_balance_of(db, id, s));
        assert(state::token_balance_of(e, id, tx.to) == state::token_balance_of(db, id, tx.to));
        if tx.kind is TokenTransfer && s != tx.to && tx.amount <= state::token_balance_of(
            db,
            id,
            s,
        ) {
            reveal_strlit(":");
            let x = id + ":"@ + s;
            let y = id + ":"@ + tx.to;
            assert(x != y) by {
                assert(x.skip(id.len() as int + 1) =~= s);
                assert(y.skip(id.len() as int + 1) =~= tx.to);
            }
            let kin = id.push('x');
            assert(kin.len() != id.len());
            lemma_units_taken(e, id, s, tx.amount as nat, id, tx.to, kin);
        }
    }
}

} // verus!
