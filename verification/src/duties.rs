//! What a node owes its peers, its callers and its subscribers: answers from its own chain,
//! messages passed on once, and limits that are the same for everyone.

use crate::adoption;
use crate::chain;
use crate::chain::NodeV;
use crate::consensus;
use crate::consensus::TrackerV;
use crate::consensus::VoteV;
use crate::crypto;
use crate::events;
use crate::events::BusV;
use crate::events::ChannelV;
use crate::events::EventV;
use crate::events::NoticeV;
use crate::events::SubV;
use crate::events::Topic;
use crate::http;
use crate::http::Gate;
use crate::http::HeadV;
use crate::journal::Db;
use crate::limits;
use crate::limits::Standing;
use crate::mempool;
use crate::p2p;
use crate::p2p::GossipV;
use crate::p2p::MsgV;
use crate::p2p::Pull;
use crate::p2p::ReplyV;
use crate::rpcauth;
use crate::rpcauth::ConfigV;
use crate::rpcauth::Tier;
use crate::slashing;
use crate::slashing::EvidenceV;
use crate::staking;
use crate::state;
use crate::state::FixedV;
use crate::text;
use crate::tokens::TokenV;
use crate::types;
use crate::types::BlockV;
use crate::types::TxKind;
use crate::types::TxV;
use vstd::prelude::*;
use vstd::string::*;

verus! {

// ---------------------------------------------------------------- peers

/// A peer that asks where a node stands is told the node's tip, its hash, what is final and
/// what is still served, and asking changes nothing.
pub proof fn law_peer_is_told_the_tip(n: NodeV, now: u128)
    ensures
        ({
            let (r, m) = p2p::reacted(n, MsgV::Status, now);
            &&& m == n
            &&& r.gossip.len() == 0
            &&& r.finalized is None
            &&& r.reply matches Some(ReplyV::Status { height, hash, finalized, earliest }) && {
                &&& height == p2p::tip_of(n.db) as u64
                &&& hash == state::tip_hash_of(n.db)
                &&& finalized == state::finalized_of(n.db) as u64
                &&& earliest == state::pruned_below_of(n.db) as u64
            }
        }),
{
}

proof fn lemma_submitted(n: NodeV, t: TxV, floor: nat)
    ensures
        ({
            let (r, m) = chain::submitted(n, t, floor);
            &&& m.db == n.db
            &&& r is Ok ==> m.pool.len() > 0 && m.pool.last().tx == t
            &&& r is Err ==> m == n
        }),
{
    adoption::law_queueing_is_exact(n, t, floor);
}

proof fn lemma_reacted_transaction(n: NodeV, t: TxV, now: u128)
    ensures
        p2p::reacted(n, MsgV::Tx(t), now).1 == chain::submitted(n, t, n.floor()).1,
        p2p::reacted(n, MsgV::Tx(t), now).0.reply is None,
{
    let m = p2p::reacted(n, MsgV::Tx(t), now).1;
    assert(m == p2p::submission_of(n, t).1);
    assert(p2p::submission_of(n, t) == chain::submitted(n, t, n.floor())) by {
        reveal(p2p::submission_of);
    }
}

/// A transaction from a peer that may be queued is queued as if it had been submitted here,
/// at the price the node asks; one that may not changes nothing.
pub proof fn law_peer_transaction_is_queued(n: NodeV, t: TxV, now: u128)
    ensures
        ({
            let (r, m) = p2p::reacted(n, MsgV::Tx(t), now);
            &&& r.reply is None
            &&& m.db == n.db
            &&& chain::submitted(n, t, n.floor()).0 is Ok ==> m.pool.len() > 0 && m.pool.last().tx
                == t
            &&& chain::submitted(n, t, n.floor()).0 is Err ==> m == n
        }),
{
    lemma_reacted_transaction(n, t, now);
    lemma_submitted(n, t, n.floor());
}

/// A vote that counts for the first time is passed on exactly once; one that was known, or
/// that is refused for anything but a contradiction, is not passed on and reports nothing
/// final.
pub proof fn law_fresh_votes_are_passed_on(n: NodeV, v: VoteV, now: u128)
    ensures
        ({
            let (r, m) = p2p::reacted(n, MsgV::Vote(v), now);
            match consensus::added(n.votes, n.db, v).0 {
                Ok(o) => {
                    &&& o.fresh ==> r.gossip.len() == 1 && r.gossip[0] == GossipV::Vote(v)
                    &&& !o.fresh ==> r.gossip.len() == 0
                    &&& r.finalized == o.finalized
                    &&& m.db == consensus::added(n.votes, n.db, v).2
                },
                Err(e) => {
                    &&& r.finalized is None
                    &&& e != "equivocating vote: evidence recorded"@ ==> r.gossip.len() == 0
                        && m.db == n.db
                },
            }
        }),
{
    let (r, m) = p2p::reacted(n, MsgV::Vote(v), now);
    assert((r, m) == p2p::on_vote_of(n, v));
    reveal(p2p::on_vote_of);
    match consensus::added(n.votes, n.db, v).0 {
        Ok(o) => {
            assert(m.db == consensus::added(n.votes, n.db, v).2);
            assert(r.finalized == o.finalized);
            assert(o.fresh ==> r.gossip == seq![GossipV::Vote(v)]);
        },
        Err(e) => {
            assert(r.finalized is None);
            if e != "equivocating vote: evidence recorded"@ {
                assert(m.db == n.db);
            }
        },
    }
}

/// A vote for a block that has not arrived waits when a seated validator cast it and it is
/// the first of that validator for that height; nothing waits beyond sixty-four votes for
/// each seat, four thousand and ninety-six in all.
pub proof fn law_early_votes_wait(t: TrackerV, db: Db, v: VoteV, voter: Seq<char>)
    requires
        v.signed(),
        v.voter() == Some(voter),
        !t.cast.contains_key(consensus::vote_key(v.height as nat, voter)),
        v.height > state::finalized_of(db),
        state::block_of(db, v.height as nat) is None,
    ensures
        ({
            let set = staking::set_at(db, staking::next_height(db));
            let here = exists|i: int| 0 <= i < set.len() && (#[trigger] set[i]).address == voter;
            let known = exists|i: int|
                0 <= i < t.pending.len() && (#[trigger] t.pending[i]).height == v.height
                    && t.pending[i].voter_pubkey == v.voter_pubkey;
            let (r, u, d) = consensus::added(t, db, v);
            &&& d == db
            &&& r is Ok <==> here
            &&& !here || known ==> u == t
            &&& r matches Ok(o) ==> o.finalized is None && o.fresh == !known
            &&& here && !known ==> u.pending.len() > 0 && u.pending.last() == v
            &&& t.pending.len() <= 4_096 ==> u.pending.len() <= 4_096
            &&& here && !known && t.pending.len() < 64 ==> u.pending == t.pending.push(v)
        }),
{
}

/// The next blocks are asked for from right above the tip, of a peer that is not behind and
/// still has them.
pub proof fn law_pull_continues_the_chain(tip: u64, height: u64, earliest: u64)
    requires
        tip < u64::MAX,
    ensures
        match p2p::pull_of(tip, height, earliest) {
            Pull::Nothing => height < tip,
            Pull::Pruned => height >= tip && earliest > tip + 1,
            Pull::From(h) => h == tip + 1 && height >= tip && earliest <= h,
        },
{
}

/// A block is found by its height in a list exactly when the list has one there.
pub proof fn law_height_finds_its_block(bs: Seq<BlockV>, height: u64)
    ensures
        match p2p::found_at(bs, height) {
            Some(b) => b.height == height && exists|i: int|
                0 <= i < bs.len() && #[trigger] bs[i] == b,
            None => forall|i: int| 0 <= i < bs.len() ==> (#[trigger] bs[i]).height != height,
        },
    decreases bs.len(),
{
    if bs.len() > 0 {
        let d = bs.drop_last();
        law_height_finds_its_block(d, height);
        match p2p::found_at(d, height) {
            Some(b) => {
                let i = choose|i: int| 0 <= i < d.len() && #[trigger] d[i] == b;
                assert(bs[i] == b);
            },
            None => {
                assert forall|i: int| 0 <= i < bs.len() - 1 implies (
                #[trigger] bs[i]).height != height by {
                    assert(d[i] == bs[i]);
                }
                if bs.last().height == height {
                    assert(bs[bs.len() - 1] == bs.last());
                }
            },
        }
    }
}

/// A vote of a node names the block's height and hash, under the node's key.
pub proof fn law_own_vote_is_for_the_block(n: NodeV, b: BlockV)
    ensures
        ({
            let v = p2p::own_vote(n, b);
            &&& v.height == b.height
            &&& v.hash == b.hash
            &&& v.voter_pubkey == crypto::hex_text(n.public())
        }),
{
}

// ---------------------------------------------------------------- starting up

/// A node starts on its state exactly when no checkpoint was recorded or the state still has
/// the root that was.
pub proof fn law_start_needs_the_recorded_root(f: FixedV, db: Db)
    ensures
        chain::startup_verdict(f, db) is Ok <==> match state::checkpoint_of(db) {
            Some(c) => state::state_root_of(f.notes, db) == c.1,
            None => true,
        },
{
}

/// The first block has height zero, carries nothing, commits to the state given and names
/// its own hash.
pub proof fn law_first_block_is_empty(root: Seq<char>)
    ensures
        ({
            let b = chain::genesis_block(root);
            &&& b.height == 0
            &&& b.timestamp_ms == 0
            &&& b.transactions.len() == 0
            &&& b.state_root == root
            &&& b.hash == b.hash_text()
        }),
{
}

/// A node alone is always on turn; any other is on turn when it is the leader drawn, or when
/// there are validators and none was drawn.
pub proof fn law_turn_is_the_leaders(n: NodeV, now: nat)
    ensures
        n.solo ==> chain::on_turn(n, now),
        !n.solo && n.leader(now) is Some ==> chain::on_turn(n, now) == (n.leader(now) == Some(
            n.address(),
        ) && staking::set_at(n.db, staking::next_height(n.db)).len() > 0),
        !n.solo && staking::set_at(n.db, staking::next_height(n.db)).len() == 0
            ==> !chain::on_turn(n, now),
{
}

/// A batch that is submitted is answered transaction by transaction: one answer each, and an
/// accepted one is answered with its own hash.
pub proof fn law_batch_is_answered_in_order(n: NodeV, txs: Seq<TxV>, floor: nat, i: int)
    requires
        0 <= i < txs.len(),
    ensures
        ({
            let (rs, m) = chain::submitted_all(n, txs, floor);
            let before = chain::submitted_all(n, txs.take(i), floor).1;
            &&& rs.len() == txs.len()
            &&& m.db == n.db
            &&& rs[i] == chain::submitted(before, txs[i], floor).0
            &&& rs[i] matches Ok(h) ==> h == txs[i].hash_text()
        }),
    decreases txs.len(),
{
    let d = txs.drop_last();
    let (rs, m) = chain::submitted_all(n, d, floor);
    adoption::law_queueing_is_exact(m, txs.last(), floor);
    if i < d.len() {
        law_batch_is_answered_in_order(n, d, floor, i);
        assert(d.take(i) =~= txs.take(i));
        assert(d[i] == txs[i]);
    } else {
        assert(txs.take(i) =~= d);
        if d.len() > 0 {
            law_batch_is_answered_in_order(n, d, floor, 0);
        }
    }
}

// ---------------------------------------------------------------- transactions of a block

proof fn lemma_top_of_two(x: Seq<u8>, y: Seq<u8>)
    ensures
        types::merkle_top(seq![x, y]) == crypto::sha256_of(x + y),
{
    let up = types::merkle_up(seq![x, y]);
    assert(up =~= seq![crypto::sha256_of(x + y)]);
    assert(types::merkle_top(up) == up[0]);
    assert(types::merkle_top(seq![x, y]) == types::merkle_top(up));
}

proof fn lemma_top_of_three(x: Seq<u8>, y: Seq<u8>, z: Seq<u8>)
    ensures
        types::merkle_top(seq![x, y, z]) == crypto::sha256_of(
            crypto::sha256_of(x + y) + crypto::sha256_of(z + z),
        ),
{
    let up = types::merkle_up(seq![x, y, z]);
    assert(up =~= seq![crypto::sha256_of(x + y), crypto::sha256_of(z + z)]);
    lemma_top_of_two(crypto::sha256_of(x + y), crypto::sha256_of(z + z));
    assert(types::merkle_top(seq![x, y, z]) == types::merkle_top(up));
}

/// The root of one transaction is its leaf, of two the digest of both leaves; a third is
/// paired with itself.
pub proof fn law_root_pairs_the_leaves(a: TxV, b: TxV, c: TxV)
    ensures
        ({
            let leaf = |t: TxV| crypto::sha256_of(text::utf8(t.hash_text()));
            &&& types::txs_root_of(seq![a]) == crypto::hex_text(leaf(a))
            &&& types::txs_root_of(seq![a, b]) == crypto::hex_text(
                crypto::sha256_of(leaf(a) + leaf(b)),
            )
            &&& types::txs_root_of(seq![a, b, c]) == crypto::hex_text(
                crypto::sha256_of(
                    crypto::sha256_of(leaf(a) + leaf(b)) + crypto::sha256_of(leaf(c) + leaf(c)),
                ),
            )
        }),
{
    let leaf = |t: TxV| crypto::sha256_of(text::utf8(t.hash_text()));
    let one = seq![a].map_values(leaf);
    assert(one =~= seq![leaf(a)]);
    lemma_top_of_two(leaf(a), leaf(b));
    assert(seq![a, b].map_values(leaf) =~= seq![leaf(a), leaf(b)]);
    lemma_top_of_three(leaf(a), leaf(b), leaf(c));
    assert(seq![a, b, c].map_values(leaf) =~= seq![leaf(a), leaf(b), leaf(c)]);
}

// ---------------------------------------------------------------- subscribers

/// A subscription is accepted exactly while fewer than four thousand and ninety-six are open,
/// fewer than sixty-four of them on the connection, and identifiers are left. It is the one
/// added, under an identifier above all given out before, and hears what its channel wants.
pub proof fn law_subscription_is_heard(b: BusV, conn: u64, channel: ChannelV, ev: EventV)
    ensures
        ({
            let (r, c) = events::subscribed(b, conn, channel);
            &&& r is Ok <==> b.subs.len() < 4_096 && events::of_conn(b.subs, conn) < 64
                && b.next_id < u64::MAX
            &&& r is Err ==> c == b
            &&& r matches Ok(id) ==> {
                &&& id == b.next_id + 1
                &&& c.next_id == id
                &&& c.subs.len() == b.subs.len() + 1
                &&& c.subs.last() == (SubV { id, channel, conn, strikes: 0 })
                &&& c.subs.drop_last() == b.subs
                &&& events::wanted(channel, ev) ==> {
                    let out = events::published(c, ev).outbox;
                    &&& out.len() > b.outbox.len()
                    &&& out.last() == (id, ev)
                }
            }
        }),
{
    let (r, c) = events::subscribed(b, conn, channel);
    if r is Ok {
        assert(c.subs.drop_last() =~= b.subs);
        if events::wanted(channel, ev) {
            let x = events::routed(c.subs, ev);
            assert(x == events::routed(b.subs, ev).push((c.subs.last().id, ev)));
            assert((c.outbox + x).last() == x.last());
        }
    }
}

/// Publishing several events keeps what was queued and who is subscribed.
pub proof fn law_publishing_keeps_the_queue(b: BusV, evs: Seq<EventV>)
    ensures
        ({
            let c = events::published_all(b, evs);
            &&& c.subs == b.subs
            &&& c.next_id == b.next_id
            &&& b.outbox.len() <= c.outbox.len()
            &&& c.outbox.take(b.outbox.len() as int) == b.outbox
        }),
    decreases evs.len(),
{
    if evs.len() > 0 {
        law_publishing_keeps_the_queue(b, evs.drop_last());
        let m = events::published_all(b, evs.drop_last());
        let c = events::published_all(b, evs);
        assert(c.outbox.take(b.outbox.len() as int) =~= m.outbox.take(b.outbox.len() as int));
    } else {
        assert(b.outbox.take(b.outbox.len() as int) =~= b.outbox);
    }
}

/// A connection that closes takes its subscriptions with it, and no others.
pub proof fn law_closing_drops_its_subscriptions(s: Seq<SubV>, conn: u64, x: SubV)
    ensures
        events::staying(s, events::on(conn)).contains(x) <==> s.contains(x) && x.conn != conn,
    decreases s.len(),
{
    if s.len() > 0 {
        let d = s.drop_last();
        law_closing_drops_its_subscriptions(d, conn, x);
        let rest = events::staying(d, events::on(conn));
        let all = events::staying(s, events::on(conn));
        if all.contains(x) {
            let i = choose|i: int| 0 <= i < all.len() && all[i] == x;
            if s.last().conn != conn && i == rest.len() {
                assert(s[s.len() - 1] == x);
            } else {
                assert(rest[i] == x);
                let j = choose|j: int| 0 <= j < d.len() && d[j] == x;
                assert(s[j] == x);
            }
        }
        if s.contains(x) && x.conn != conn {
            let j = choose|j: int| 0 <= j < s.len() && s[j] == x;
            if j < d.len() {
                assert(d[j] == x);
                let i = choose|i: int| 0 <= i < rest.len() && rest[i] == x;
                assert(all[i] == x);
            } else {
                assert(all[rest.len() as int] == x);
            }
        }
    }
}

// ---------------------------------------------------------------- callers

/// A batch costs two thousand and twenty for each transaction in it, a list of statuses one
/// thousand and forty for each hash, as far as a number goes; every call costs at least one
/// thousand.
pub proof fn law_calls_cost_what_they_ask(method: Seq<char>, k: usize)
    ensures
        rpcauth::cost_of(method, None) >= 1_000,
        rpcauth::cost_of(method, Some(k)) >= 1_000,
        2_000 + 20 * k <= u64::MAX ==> rpcauth::cost_of("inaz_sendTransactions"@, Some(k)) == 2_000
            + 20 * k,
        1_000 + 40 * k <= u64::MAX && method == "inaz_signatureStatuses"@ ==> rpcauth::cost_of(
            method,
            Some(k),
        ) == 1_000 + 40 * k,
{
    reveal_strlit("inaz_signatureStatuses");
    reveal_strlit("inaz_sendTransactions");
    reveal_strlit("inaz_getProof");
    reveal_strlit("inaz_verifyProof");
    reveal_strlit("inaz_simulateTransaction");
    assert("inaz_signatureStatuses"@.len() == 22);
    assert("inaz_sendTransactions"@.len() == 21);
    assert("inaz_getProof"@.len() == 13);
    assert("inaz_verifyProof"@.len() == 16);
    assert("inaz_simulateTransaction"@.len() == 24);
}

/// Weight behind a key never makes a call dearer, and weighing by one times keeps its price.
pub proof fn law_weight_eases_the_cost(cost: u64, multiplier: u64)
    requires
        multiplier >= 1_000,
    ensures
        rpcauth::eased(cost, multiplier) <= cost,
        multiplier == 1_000 ==> rpcauth::eased(cost, multiplier) == cost,
        cost > 0 ==> rpcauth::eased(cost, multiplier) > 0,
        rpcauth::eased(cost, multiplier) * multiplier >= cost * 1_000,
{
    let m = multiplier as int;
    let x = cost * 1_000 + m - 1;
    let q = x / m;
    assert(q * m <= x < q * m + m) by (nonlinear_arith)
        requires
            q == x / m,
            m > 0,
    ;
    assert(q <= cost) by (nonlinear_arith)
        requires
            q * m <= x,
            x == cost * 1_000 + m - 1,
            m >= 1_000,
            cost >= 0,
    ;
    assert(q >= 0) by (nonlinear_arith)
        requires
            x < q * m + m,
            x >= 0,
            m > 0,
    ;
    if cost > 0 {
        assert(q > 0) by (nonlinear_arith)
            requires
                x < q * m + m,
                x >= m,
                m > 0,
        ;
    }
}

/// Nobody is counted as barred exactly when nobody's bar lasts past now.
pub proof fn law_bars_are_counted(s: Seq<(Seq<u8>, Standing)>, now: u64)
    ensures
        limits::bans(s, now) <= s.len(),
        limits::bans(s, now) == 0 <==> forall|i: int|
            0 <= i < s.len() ==> match (#[trigger] s[i]).1.until {
                Some(u) => u <= now,
                None => true,
            },
    decreases s.len(),
{
    if s.len() > 0 {
        let d = s.drop_last();
        law_bars_are_counted(d, now);
        if limits::bans(s, now) == 0 {
            assert forall|i: int| 0 <= i < s.len() implies match (#[trigger] s[i]).1.until {
                Some(u) => u <= now,
                None => true,
            } by {
                if i < d.len() {
                    assert(d[i] == s[i]);
                }
            }
        } else if limits::bans(d, now) == 0 {
            assert(s[s.len() - 1] == s.last());
        } else {
            let i = choose|i: int|
                0 <= i < d.len() && !match (#[trigger] d[i]).1.until {
                    Some(u) => u <= now,
                    None => true,
                };
            assert(s[i] == d[i]);
        }
    }
}

/// The holdings of an address are the tokens it has some of, each with how much.
pub proof fn law_holdings_are_what_is_held(
    db: Db,
    tokens: Seq<TokenV>,
    address: Seq<char>,
    t: TokenV,
    n: u128,
)
    requires
        state::token_balance_of(db, t.id, address) <= u128::MAX,
    ensures
        state::holdings_of(db, tokens, address).contains((t, n)) <==> tokens.contains(t) && n > 0
            && n == state::token_balance_of(db, t.id, address),
    decreases tokens.len(),
{
    let all = state::holdings_of(db, tokens, address);
    if tokens.len() > 0 {
        let d = tokens.drop_last();
        law_holdings_are_what_is_held(db, d, address, t, n);
        let rest = state::holdings_of(db, d, address);
        if all.contains((t, n)) {
            let i = choose|i: int| 0 <= i < all.len() && all[i] == (t, n);
            if i < rest.len() {
                assert(rest[i] == (t, n));
                let j = choose|j: int| 0 <= j < d.len() && d[j] == t;
                assert(tokens[j] == t);
            } else {
                assert(tokens[tokens.len() - 1] == t);
            }
        }
        if tokens.contains(t) && n > 0 && n == state::token_balance_of(db, t.id, address) {
            let j = choose|j: int| 0 <= j < tokens.len() && tokens[j] == t;
            if j < d.len() {
                assert(d[j] == t);
                let i = choose|i: int| 0 <= i < rest.len() && rest[i] == (t, n);
                assert(all[i] == (t, n));
            } else {
                assert(all[rest.len() as int] == (t, n));
            }
        }
    }
}

// ---------------------------------------------------------------- announcements

proof fn lemma_confirmed_events(db: Db, height: u64, txs: Seq<TxV>, k: int) -> (at: int)
    requires
        0 <= k < txs.len(),
    ensures
        0 <= at < chain::all_tx_events(db, height, txs).len(),
        chain::all_tx_events(db, height, txs)[at] == chain::tx_events(db, height, txs[k])[0],
    decreases txs.len(),
{
    let d = txs.drop_last();
    let before = chain::all_tx_events(db, height, d);
    let own = chain::tx_events(db, height, txs.last());
    if k < d.len() {
        let at = lemma_confirmed_events(db, height, d, k);
        assert((before + own)[at] == before[at]);
        at
    } else {
        assert((before + own)[before.len() as int] == own[0]);
        before.len() as int
    }
}

/// A block is announced first, by its own figures; each transaction in it is announced to
/// who waits for its hash, with its height and whether it is final.
pub proof fn law_block_is_announced(db: Db, b: BlockV, announced: u64, k: int)
    requires
        0 <= k < b.transactions.len(),
    ensures
        ({
            let evs = chain::block_events(db, b, announced);
            let tx = b.transactions[k];
            &&& evs[0].channel == Topic::Heads
            &&& evs[0].payload matches NoticeV::Head { height, hash, tx_count, .. } && height
                == b.height && hash == b.hash && tx_count == b.transactions.len()
            &&& exists|i: int|
                0 <= i < evs.len() && (#[trigger] evs[i]).channel == Topic::Signature && evs[i].key
                    == Some(tx.hash_text()) && (evs[i].payload matches NoticeV::Confirmed {
                    hash,
                    height,
                    finalized,
                    to,
                    fee,
                    ..
                } && hash == tx.hash_text() && height == b.height && finalized == (b.height
                    <= state::finalized_of(db)) && to == tx.to && fee == tx.fee)
        }),
{
    let evs = chain::block_events(db, b, announced);
    let body = chain::all_tx_events(db, b.height, b.transactions);
    let at = lemma_confirmed_events(db, b.height, b.transactions, k);
    assert(evs[0] == chain::head_event(db, b));
    assert(evs[1 + at] == body[at]);
}

/// Finality is announced last, exactly when it moved past what was announced.
pub proof fn law_finality_is_announced(db: Db, b: BlockV, announced: u64)
    ensures
        ({
            let evs = chain::block_events(db, b, announced);
            (evs.last().channel == Topic::Finality) == (state::finalized_of(db) > announced)
        }),
{
    let evs = chain::block_events(db, b, announced);
    let heads = seq![chain::head_event(db, b)];
    let txs = chain::all_tx_events(db, b.height, b.transactions);
    let accounts = chain::touched(b.transactions).map_values(
        |a: Seq<char>| chain::account_event(db, b.height, a),
    );
    let body = heads + txs + accounts;
    lemma_tx_events_channels(db, b.height, b.transactions);
    if state::finalized_of(db) <= announced {
        assert(evs == body);
        if accounts.len() > 0 {
            assert(body.last() == accounts.last());
        } else if txs.len() > 0 {
            assert(body.last() == txs.last());
        } else {
            assert(body.last() == heads[0]);
        }
    }
}

proof fn lemma_tx_events_channels(db: Db, height: u64, txs: Seq<TxV>)
    ensures
        forall|i: int|
            0 <= i < chain::all_tx_events(db, height, txs).len() ==> (
            #[trigger] chain::all_tx_events(db, height, txs)[i]).channel != Topic::Finality,
    decreases txs.len(),
{
    if txs.len() > 0 {
        lemma_tx_events_channels(db, height, txs.drop_last());
    }
}

// ---------------------------------------------------------------- catching up

/// Blocks that were all taken in one after the other leave the node at the last of them, and
/// ask for the one above it next.
pub proof fn law_catching_up_reaches_the_last(n: NodeV, bs: Seq<BlockV>, next: u64, now: u128)
    requires
        bs.len() > 0,
        p2p::taken_in(n, bs, next, now).1 is None,
    ensures
        bs.last().height < u64::MAX ==> p2p::taken_in(n, bs, next, now).0 == bs.last().height + 1,
        p2p::taken_in(n, bs.drop_last(), next, now).1 is None,
        ({
            let before = p2p::taken_in(n, bs.drop_last(), next, now).2;
            let (r, after) = chain::imported(before, bs.last(), now);
            r is Ok && p2p::taken_in(n, bs, next, now).2 == after
        }),
{
    reveal(p2p::import_of);
}

/// Catching up goes on over a block exactly when it could be imported; where it could not,
/// the block's height is given with the reason, and nothing after it is taken in.
pub proof fn law_catching_up_stops_at_a_fault(
    n: NodeV,
    bs: Seq<BlockV>,
    b: BlockV,
    next: u64,
    now: u128,
)
    ensures
        ({
            let (k, stop, m) = p2p::taken_in(n, bs, next, now);
            let (r, after) = chain::imported(m, b, now);
            let (k2, stop2, m2) = p2p::taken_in(n, bs.push(b), next, now);
            &&& stop is Some ==> k2 == k && stop2 == stop && m2 == m
            &&& stop is None ==> m2 == after && match r {
                Ok(_) => stop2 is None,
                Err(e) => stop2 == Some((b.height, e)) && k2 == k,
            }
        }),
{
    assert(bs.push(b).drop_last() =~= bs);
    reveal(p2p::import_of);
}

// ---------------------------------------------------------------- reports

/// A node reports an offence exactly when the chain would punish it, at the lowest fee and
/// with its own next nonce, and moves no coins by it.
pub proof fn law_reports_are_worth_sending(n: NodeV, e: EvidenceV)
    ensures
        chain::report_of(n, e) is Ok <==> slashing::report_verdict(
            n.db,
            staking::next_height(n.db),
            Some(slashing::evidence_payload(e)),
        ) is Ok,
        chain::report_of(n, e) matches Ok(t) ==> {
            &&& t.kind == TxKind::ReportEquivocation
            &&& t.amount == 0
            &&& t.fee == 1_000
            &&& t.chain_id == n.chain_id
            &&& t.payload == Some(slashing::evidence_payload(e))
            &&& state::account_of(n.db, n.address()).nonce + mempool::of_sender(
                n.pool,
                n.address(),
            ) <= u64::MAX ==> t.nonce == state::account_of(n.db, n.address()).nonce
                + mempool::of_sender(n.pool, n.address())
        },
{
}

// ---------------------------------------------------------------- the endpoint

/// A body over four mebibytes is refused unread; a preflight costs nothing; a health question
/// costs one thousand of the caller's budget; anything else is a call, which an endpoint that
/// requires keys refuses to unknown callers.
pub proof fn law_endpoint_gates(
    c: ConfigV,
    db: Db,
    h: HeadV,
    ip: Seq<char>,
    method: Seq<char>,
    items: Option<usize>,
    now: u64,
)
    ensures
        ({
            let (g, d) = http::gated(c, db, h, ip, method, items, now);
            let tier = rpcauth::tier_of(c.keys, h.credential);
            &&& (g == Gate::TooLarge) == (h.content_length > 4_194_304)
            &&& g == Gate::TooLarge || g == Gate::Options ==> d == c
            &&& h.content_length <= 4_194_304 && h.method == "OPTIONS"@ ==> g == Gate::Options
            &&& h.content_length <= 4_194_304 && h.method == "GET"@ ==> {
                &&& (g == Gate::Limited(None)) == !rpcauth::charged(
                    c,
                    ip,
                    tier,
                    h.credential,
                    1_000,
                    now,
                ).0
                &&& g != Gate::Limited(None) ==> (g == Gate::Health) == (h.path == "/health"@)
            }
            &&& h.content_length <= 4_194_304 && h.method != "OPTIONS"@ && h.method != "GET"@ ==> {
                &&& (g == Gate::NeedsKey) == (c.require_auth && tier == Tier::Anonymous)
                &&& g == Gate::Call ==> rpcauth::permitted(method, tier)
            }
        }),
{
    reveal_strlit("OPTIONS");
    reveal_strlit("GET");
    assert("OPTIONS"@.len() != "GET"@.len());
}

} // verus!
