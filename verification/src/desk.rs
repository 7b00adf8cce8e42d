//! What an operator types becomes the transaction it names, and what an operator is shown is
//! where the node stands.

use crate::chain::NodeV;
use crate::cli;
use crate::cli::Args;
use crate::cli::DraftV;
use crate::crypto;
use crate::log;
use crate::mempool;
use crate::rpc;
use crate::slashing;
use crate::staking;
use crate::staking::ValidatorV;
use crate::state;
use crate::text;
use crate::types::TxKind;
use crate::ui;
use crate::words;
use vstd::prelude::*;
use vstd::string::*;

verus! {

// ---------------------------------------------------------------- commands

/// A token command names its token and an amount in the token's units. Minting and moving go
/// to the recipient named, burning stays with the sender.
pub proof fn law_token_command_is_kept(a: Args, own: Seq<char>, decimals: nat, d: DraftV)
    requires
        cli::token_moved(a, own, decimals) == Ok::<DraftV, Seq<char>>(d),
    ensures
        a.value("token"@) is Some,
        d.payload matches Some(p) && p.token == a.value("token"@)->Some_0,
        a.value("amount"@) matches Some(v) && text::fixed_value(v, decimals) == Ok::<
            nat,
            Seq<char>,
        >(d.amount),
        a.cmd@ == "token-mint"@ ==> d.kind == TxKind::MintToken && a.value("to"@) == Some(d.to),
        a.cmd@ == "token-burn"@ ==> d.kind == TxKind::BurnToken && d.to == own,
        a.cmd@ != "token-mint"@ && a.cmd@ != "token-burn"@ ==> d.kind == TxKind::TokenTransfer
            && a.value("to"@) == Some(d.to),
        a.value("fee"@) is None ==> d.fee == 1_000,
{
    reveal_strlit("token-mint");
    reveal_strlit("token-burn");
    assert("token-mint"@[6] == 'm');
    assert("token-burn"@[6] == 'b');
}

/// A contract command with code deploys that code to the sender; one without calls the
/// contract named with the arguments given.
pub proof fn law_contract_command_is_kept(
    a: Args,
    own: Seq<char>,
    code: Option<Seq<u8>>,
    d: DraftV,
)
    requires
        cli::contracted(a, own, code) == Ok::<DraftV, Seq<char>>(d),
    ensures
        code matches Some(c) ==> d.kind == TxKind::DeployContract && d.to == own && (
        d.payload matches Some(p) && p.code == crypto::hex_text(c)),
        code is None ==> d.kind == TxKind::CallContract && a.value("contract"@) == Some(d.to),
        code is None && a.value("args"@) is Some ==> (d.payload matches Some(p) && Some(p.args)
            == a.value("args"@)),
        a.value("value"@) is None ==> d.amount == 0,
{
}

/// A jailed operator's node asks to rejoin exactly when the chain would let it, offering the
/// floor and its own next nonce.
pub proof fn law_rejoining_when_allowed(n: NodeV)
    ensures
        cli::rejoining(n) is Some <==> slashing::unjailed(
            n.db,
            staking::next_height(n.db),
            n.address(),
        ) is Ok,
        cli::rejoining(n) matches Some(t) ==> {
            &&& t.kind == TxKind::Unjail
            &&& t.to == n.address()
            &&& t.amount == 0
            &&& t.chain_id == n.chain_id
            &&& n.floor() <= u128::MAX ==> t.fee == n.floor()
            &&& state::account_of(n.db, n.address()).nonce + mempool::of_sender(
                n.pool,
                n.address(),
            ) <= u64::MAX ==> t.nonce == state::account_of(n.db, n.address()).nonce
                + mempool::of_sender(n.pool, n.address())
        },
{
}

/// A node compared with another is as far behind as the heights are apart, and never ahead.
pub proof fn law_lag_is_the_distance(url: Seq<char>, remote: Seq<char>, tip: u64, height: u64)
    ensures
        cli::lag_of(url, remote, tip, height) matches Some(k) ==> {
            &&& tip > 0
            &&& tip >= height ==> height + k == tip
            &&& tip < height ==> k == 0
        },
        tip > 0 && !words::holds(url, words::start_stripped(remote, "https://"@)) ==> cli::lag_of(
            url,
            remote,
            tip,
            height,
        ) is Some,
{
}

/// A measurement ends when everything accepted was confirmed and nothing waits, or when time
/// is up, and gives what was confirmed since it began.
pub proof fn law_measurement_counts(before: u64, total: u64, accepted: u64, queued: u64, late: bool)
    requires
        before <= total,
    ensures
        cli::measured(before, total, accepted, queued, late) is Some <==> late || (total >= before
            + accepted && queued == 0),
        cli::measured(before, total, accepted, queued, late) matches Some(k) ==> before + k
            == total,
{
}

// ---------------------------------------------------------------- display

/// The seat of an address is a seat of the set under that address; without one there is none
/// in the set.
pub proof fn law_seat_is_found(s: Seq<ValidatorV>, address: Seq<char>)
    ensures
        match ui::seat(s, address) {
            Some(v) => v.address == address && exists|i: int|
                0 <= i < s.len() && #[trigger] s[i] == v,
            None => forall|i: int| 0 <= i < s.len() ==> (#[trigger] s[i]).address != address,
        },
    decreases s.len(),
{
    if s.len() > 0 && s[0].address != address {
        let d = s.drop_first();
        law_seat_is_found(d, address);
        match ui::seat(d, address) {
            Some(v) => {
                let i = choose|i: int| 0 <= i < d.len() && #[trigger] d[i] == v;
                assert(s[i + 1] == v);
            },
            None => {
                assert forall|i: int| 0 <= i < s.len() implies (
                #[trigger] s[i]).address != address by {
                    if i > 0 {
                        assert(d[i - 1] == s[i]);
                    }
                }
            },
        }
    }
}

/// What is shown of a node is where it stands: its height, what is final, its bond, and
/// whether its seat is jailed.
pub proof fn law_beat_shows_the_node(n: NodeV, me: Seq<char>, peers: usize, target: u64)
    ensures
        ({
            let b = ui::beat_of(n, me, peers, target);
            let set = staking::set_at(n.db, staking::next_height(n.db));
            &&& b.height == rpc::tip_of(n.db)
            &&& b.target == target
            &&& b.peers == peers
            &&& b.staked == state::account_of(n.db, me).staked
            &&& b.validating || b.jailed ==> exists|i: int|
                0 <= i < set.len() && (#[trigger] set[i]).address == me
            &&& !(b.validating && b.jailed)
        }),
{
    let set = staking::set_at(n.db, staking::next_height(n.db));
    law_seat_is_found(set, me);
    let b = ui::beat_of(n, me, peers, target);
    if b.validating || b.jailed {
        let v = ui::seat(set, me)->Some_0;
        let i = choose|i: int| 0 <= i < set.len() && #[trigger] set[i] == v;
        assert(set[i].address == me);
    }
}

/// Grouping digits adds one comma for every three after the first group and changes nothing
/// else: the last three stay last, and short numbers stay as they are.
pub proof fn law_grouping_keeps_digits(s: Seq<char>)
    requires
        forall|i: int| 0 <= i < s.len() ==> s[i] != ',',
    ensures
        s.len() > 0 ==> log::grouped(s).len() == s.len() + (s.len() - 1) / 3,
        log::grouped(s).filter(|c: char| c != ',') == s,
    decreases s.len(),
{
    let plain = |c: char| c != ',';
    if s.len() <= 3 {
        lemma_unfiltered(s);
    } else {
        let front = s.take(s.len() - 3);
        let back = s.skip(s.len() - 3);
        assert forall|i: int| 0 <= i < front.len() implies front[i] != ',' by {
            assert(front[i] == s[i]);
        }
        law_grouping_keeps_digits(front);
        let g = log::grouped(front);
        assert forall|i: int| 0 <= i < back.len() implies back[i] != ',' by {
            assert(back[i] == s[s.len() - 3 + i]);
        }
        lemma_unfiltered(back);
        Seq::filter_distributes_over_add(g.push(','), back, plain);
        assert(g.push(',').filter(plain) == g.filter(plain)) by {
            reveal(Seq::filter);
            assert(g.push(',').drop_last() =~= g);
        }
        assert(front + back =~= s);
    }
}

proof fn lemma_unfiltered(s: Seq<char>)
    requires
        forall|i: int| 0 <= i < s.len() ==> s[i] != ',',
    ensures
        s.filter(|c: char| c != ',') == s,
    decreases s.len(),
{
    let plain = |c: char| c != ',';
    reveal(Seq::filter);
    if s.len() > 0 {
        let d = s.drop_last();
        assert forall|i: int| 0 <= i < d.len() implies d[i] != ',' by {
            assert(d[i] == s[i]);
        }
        lemma_unfiltered(d);
        assert(s.last() != ',');
        assert(s.filter(plain) == d.filter(plain).push(s.last()));
        assert(d.push(s.last()) =~= s);
    }
}

/// A limit that a caller asks for is kept up to the most there is; without one the usual limit
/// holds.
pub proof fn law_limit_is_capped(raw: Seq<u8>, usual: u64, most: u64)
    requires
        usual <= most,
    ensures
        rpc::limit_of(raw, usual, most) <= most,
        crate::json::json_number_at(raw, "/params/limit"@) is None ==> rpc::limit_of(
            raw,
            usual,
            most,
        ) == usual,
        crate::json::json_number_at(raw, "/params/limit"@) matches Some(k) ==> k <= most
            ==> rpc::limit_of(raw, usual, most) == k,
{
}

} // verus!
