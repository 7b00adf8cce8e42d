//! Prometheus text-format metrics. Everything here is public in the chain figures or a
//! plain counter: peer addresses and keys stay out.

use crate::chain::Node;
use crate::chain::NodeV;
use crate::rank;
use crate::rpc;
use crate::staking;
use crate::state;
use crate::table;
use crate::text;
use crate::types;
use vstd::prelude::*;
use vstd::string::*;

verus! {

/// One sample in the exposition format, with its help and its kind in front.
pub open spec fn sample(
    name: Seq<char>,
    help: Seq<char>,
    kind: Seq<char>,
    value: Seq<char>,
) -> Seq<char> {
    "# HELP "@ + name + " "@ + help + "\n# TYPE "@ + name + " "@ + kind + "\n"@ + name + " "@
        + value + "\n"@
}

/// Appends one sample.
pub fn line(out: &mut String, name: &str, help: &str, kind: &str, value: String)
    ensures
        final(out)@ == old(out)@ + sample(name@, help@, kind@, value@),
{
    let mut s = text::copy("# HELP ");
    s.append(name);
    s.append(" ");
    s.append(help);
    s.append("\n# TYPE ");
    s.append(name);
    s.append(" ");
    s.append(kind);
    s.append("\n");
    s.append(name);
    s.append(" ");
    s.append(value.as_str());
    s.append("\n");
    out.append(s.as_str());
}

/// A sample that goes up and down.
pub open spec fn gauge(name: Seq<char>, help: Seq<char>, value: nat) -> Seq<char> {
    sample(name, help, "gauge"@, text::dec(value))
}

fn push_gauge(out: &mut String, name: &str, help: &str, value: u128)
    ensures
        final(out)@ == old(out)@ + gauge(name@, help@, value as nat),
{
    line(out, name, help, "gauge", text::decimal(value));
}

/// One or zero.
pub open spec fn flag(b: bool) -> nat {
    if b {
        1
    } else {
        0
    }
}

fn flag_of(b: bool) -> (r: u128)
    ensures
        r == flag(b),
{
    if b {
        1
    } else {
        0
    }
}

/// Blocks between the tip and the last finalized block.
pub open spec fn lag(n: NodeV) -> nat {
    if rpc::tip_of(n.db) > state::finalized_of(n.db) {
        (rpc::tip_of(n.db) - state::finalized_of(n.db)) as nat
    } else {
        0
    }
}

/// The figures of the chain and of the pool.
pub open spec fn head_page(n: NodeV, peers: nat) -> Seq<char> {
    gauge(
        "inazuma_block_height"@,
        "Height of the local chain tip."@,
        rpc::tip_of(n.db) as nat,
    ) + gauge(
        "inazuma_finalized_height"@,
        "Highest finalized block height."@,
        state::finalized_of(n.db),
    ) + gauge(
        "inazuma_finality_lag_blocks"@,
        "Blocks between the tip and the last finalized block."@,
        lag(n),
    ) + gauge("inazuma_peer_count"@, "Connected P2P peers."@, peers) + gauge(
        "inazuma_mempool_txs"@,
        "Transactions queued in the mempool."@,
        n.pool.len(),
    ) + gauge(
        "inazuma_validators"@,
        "Active validators in the set."@,
        staking::set_at(n.db, staking::next_height(n.db)).len(),
    )
}

/// The figures of the state.
pub open spec fn state_page(n: NodeV) -> Seq<char> {
    gauge("inazuma_accounts"@, "Accounts in state."@, table::ordered(n.db[0]).len()) + sample(
        "inazuma_txs_total"@,
        "Transactions executed since genesis."@,
        "counter"@,
        text::dec(table::ordered(n.db[2]).len()),
    ) + gauge("inazuma_tokens"@, "Tokens created."@, table::ordered(n.db[5]).len()) + gauge(
        "inazuma_contracts"@,
        "Contracts deployed."@,
        table::ordered(n.db[7]).len(),
    ) + gauge(
        "inazuma_pruned_below"@,
        "Lowest retained block height."@,
        state::pruned_below_of(n.db),
    )
}

/// The figures of the node and of its coin.
pub open spec fn node_page(n: NodeV) -> Seq<char> {
    gauge(
        "inazuma_halted"@,
        "1 when the node is halted by an operator."@,
        flag(n.halted()),
    ) + gauge("inazuma_solo_mode"@, "1 when running without peers."@, flag(n.solo)) + gauge(
        "inazuma_base_fee_rai"@,
        "Current base fee in rai."@,
        state::base_fee_of(n.db) as nat,
    ) + gauge(
        "inazuma_total_supply_rai"@,
        "Total supply in rai."@,
        types::cap128(state::supply_of(n.db)) as nat,
    ) + gauge(
        "inazuma_total_staked_rai"@,
        "Total bonded stake in rai."@,
        types::cap128(state::staked_of(state::stakers_of(n.db))) as nat,
    )
}

/// The state root and the tip hash, as labels of a constant gauge: alerting compares them
/// across nodes.
pub open spec fn root_page(n: NodeV) -> Seq<char> {
    "# HELP inazuma_state_root_info State root and tip hash at the local tip.\n"@
        + "# TYPE inazuma_state_root_info gauge\n"@ + "inazuma_state_root_info{height=\""@
        + text::dec(rpc::tip_of(n.db) as nat) + "\",state_root=\""@ + state::root_at(
        n.fixed.notes,
        n.db,
        rpc::tip_of(n.db) as nat,
    ) + "\",tip_hash=\""@ + state::tip_hash_of(n.db) + "\",chain_id=\""@ + text::dec(
        n.chain_id as nat,
    ) + "\"} 1\n"@
}

/// The whole page.
pub open spec fn page(n: NodeV, peers: nat) -> Seq<char> {
    head_page(n, peers) + state_page(n) + node_page(n) + root_page(n)
}

fn render_head(node: &Node, peers: usize) -> (o: String)
    requires
        node.wf(),
    ensures
        o@ == head_page(node@, peers as nat),
{
    let height: u64 = match node.store.tip_height() {
        Some(h) => h,
        None => 0,
    };
    let finalized = node.store.finalized_height();
    let set = node.validators();
    assert(rank::views(set@).len() == set@.len());
    let mut o = String::new();
    push_gauge(
        &mut o,
        "inazuma_block_height",
        "Height of the local chain tip.",
        height as u128,
    );
    assert(o@ =~= gauge(
        "inazuma_block_height"@,
        "Height of the local chain tip."@,
        height as nat,
    ));
    push_gauge(
        &mut o,
        "inazuma_finalized_height",
        "Highest finalized block height.",
        finalized as u128,
    );
    push_gauge(
        &mut o,
        "inazuma_finality_lag_blocks",
        "Blocks between the tip and the last finalized block.",
        height.saturating_sub(finalized) as u128,
    );
    push_gauge(&mut o, "inazuma_peer_count", "Connected P2P peers.", peers as u128);
    push_gauge(
        &mut o,
        "inazuma_mempool_txs",
        "Transactions queued in the mempool.",
        node.mempool_size() as u128,
    );
    push_gauge(
        &mut o,
        "inazuma_validators",
        "Active validators in the set.",
        set.len() as u128,
    );
    o
}

fn render_state(node: &Node) -> (o: String)
    requires
        node.wf(),
    ensures
        o@ == state_page(node@),
{
    let mut o = String::new();
    let accounts: usize = node.store.account_count();
    push_gauge(&mut o, "inazuma_accounts", "Accounts in state.", accounts as u128);
    assert(o@ =~= gauge("inazuma_accounts"@, "Accounts in state."@, accounts as nat));
    line(
        &mut o,
        "inazuma_txs_total",
        "Transactions executed since genesis.",
        "counter",
        text::decimal(node.store.tx_count() as u128),
    );
    push_gauge(&mut o, "inazuma_tokens", "Tokens created.", node.store.token_count() as u128);
    push_gauge(
        &mut o,
        "inazuma_contracts",
        "Contracts deployed.",
        node.store.contract_count() as u128,
    );
    push_gauge(
        &mut o,
        "inazuma_pruned_below",
        "Lowest retained block height.",
        node.store.pruned_below() as u128,
    );
    o
}

fn render_node(node: &Node) -> (o: String)
    requires
        node.wf(),
    ensures
        o@ == node_page(node@),
{
    let mut o = String::new();
    let halted = flag_of(node.halted());
    push_gauge(&mut o, "inazuma_halted", "1 when the node is halted by an operator.", halted);
    assert(o@ =~= gauge(
        "inazuma_halted"@,
        "1 when the node is halted by an operator."@,
        halted as nat,
    ));
    push_gauge(&mut o, "inazuma_solo_mode", "1 when running without peers.", flag_of(node.solo));
    push_gauge(&mut o, "inazuma_base_fee_rai", "Current base fee in rai.", node.base_fee());
    push_gauge(
        &mut o,
        "inazuma_total_supply_rai",
        "Total supply in rai.",
        node.store.total_supply(),
    );
    push_gauge(
        &mut o,
        "inazuma_total_staked_rai",
        "Total bonded stake in rai.",
        node.store.total_staked(),
    );
    o
}

fn render_root(node: &Node) -> (o: String)
    requires
        node.wf(),
    ensures
        o@ == root_page(node@),
{
    let height: u64 = match node.store.tip_height() {
        Some(h) => h,
        None => 0,
    };
    let mut o = text::copy(
        "# HELP inazuma_state_root_info State root and tip hash at the local tip.\n",
    );
    o.append("# TYPE inazuma_state_root_info gauge\n");
    o.append("inazuma_state_root_info{height=\"");
    text::push_dec(&mut o, height as u128);
    o.append("\",state_root=\"");
    o.append(node.store.state_root_at(height).as_str());
    o.append("\",tip_hash=\"");
    o.append(node.store.tip_hash().as_str());
    o.append("\",chain_id=\"");
    text::push_dec(&mut o, node.genesis.chain_id as u128);
    o.append("\"} 1\n");
    o
}

/// Renders the whole node in the exposition format.
pub fn render(node: &Node, peers: usize) -> (o: String)
    requires
        node.wf(),
    ensures
        o@ == page(node@, peers as nat),
{
    let mut o = render_head(node, peers);
    o.append(render_state(node).as_str());
    o.append(render_node(node).as_str());
    o.append(render_root(node).as_str());
    o
}

} // verus!
