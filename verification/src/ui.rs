//! What the operator's terminal shows, as far as it is decided or computed here:
//! the phase of the node, the progress bar, remaining time.

use crate::chain::Node;
use crate::chain::NodeV;
use crate::log;
use crate::rank;
use crate::rpc;
use crate::staking;
use crate::staking::Validator;
use crate::staking::ValidatorV;
use crate::state;
use crate::text;
use crate::types;
use vstd::prelude::*;
use vstd::string::*;

verus! {

/// Where an operator's validator page lives.
pub const DASHBOARD: &'static str = "https://inazuma.network/validators";

/// Cells of the progress bar.
pub const BAR_CELLS: usize = 18;

/// A row of the status table.
pub struct StatusRow {
    pub label: &'static str,
    pub value: String,
    pub good: Option<bool>,
}

/// State of the node as the heartbeat sees it.
#[derive(Clone, Copy, PartialEq, Eq, Structural, Debug)]
pub struct Beat {
    pub height: u64,
    pub target: u64,
    pub peers: usize,
    pub finalized: u64,
    pub staked: u128,
    pub validating: bool,
    pub jailed: bool,
}

/// The link to a validator page.
pub fn dashboard_url(address: &str) -> (r: String)
    ensures
        r@ == DASHBOARD@ + "?node="@ + address@,
{
    let mut u = text::copy(DASHBOARD);
    u.append("?node=");
    u.append(address);
    u
}

/// What `qrcode` draws of a text, if the text is not too long for it.
pub uninterp spec fn qr_of(url: Seq<char>) -> Option<Seq<char>>;

/// `qrcode::QrCode::with_error_correction_level` at the lowest level, rendered as
/// `Dense1x2` text with a quiet zone and modules of one cell: by name, a function of the
/// text alone.
#[verifier::external_body]
fn qr_draw(url: &str) -> (r: Option<String>)
    ensures
        match r {
            Some(s) => qr_of(url@) == Some(s@),
            None => qr_of(url@) is None,
        },
{
    let code = qrcode::QrCode::with_error_correction_level(url, qrcode::EcLevel::L).ok()?;
    let mut art = code.render::<qrcode::render::unicode::Dense1x2>();
    Some(art.quiet_zone(true).module_dimensions(1, 1).build())
}

/// The code of a link, so an operator can open it on a phone. A plain terminal shows none,
/// and neither does one where the link is too long.
pub fn qr(url: &str, plain: bool) -> (r: Option<String>)
    ensures
        match r {
            Some(s) => !plain && qr_of(url@) == Some(s@),
            None => plain || qr_of(url@) is None,
        },
{
    if plain {
        None
    } else {
        qr_draw(url)
    }
}

/// A duration in its two largest units.
pub open spec fn eta_text(secs: nat) -> Seq<char> {
    if secs == 0 {
        "done"@
    } else if secs < 60 {
        text::dec(secs) + "s"@
    } else if secs < 3600 {
        text::dec(secs / 60) + "m"@ + log::zero_padded(secs % 60, 2) + "s"@
    } else if secs < 86_400 {
        text::dec(secs / 3600) + "h"@ + log::zero_padded(secs % 3600 / 60, 2) + "m"@
    } else {
        text::dec(secs / 86_400) + "d"@ + log::zero_padded(secs % 86_400 / 3600, 2) + "h"@
    }
}

/// Writes a duration in its two largest units.
pub fn human_eta(secs: u64) -> (r: String)
    ensures
        r@ == eta_text(secs as nat),
{
    if secs == 0 {
        return text::copy("done");
    }
    let (whole, unit, part, end): (u64, &str, u64, &str) = if secs < 60 {
        let mut out = text::decimal(secs as u128);
        out.append("s");
        return out;
    } else if secs < 3600 {
        (secs / 60, "m", secs % 60, "s")
    } else if secs < 86_400 {
        (secs / 3600, "h", (secs % 3600) / 60, "m")
    } else {
        (secs / 86_400, "d", (secs % 86_400) / 3600, "h")
    };
    let mut out = text::decimal(whole as u128);
    out.append(unit);
    log::push_padded(&mut out, part, 2);
    out.append(end);
    out
}

/// The height synchronisation works towards, never zero.
pub open spec fn goal(b: Beat) -> u64 {
    if b.target > b.height {
        b.target
    } else if b.height > 0 {
        b.height
    } else {
        1
    }
}

/// The height synchronisation works towards, never zero.
pub fn goal_of(b: &Beat) -> (r: u64)
    ensures
        r == goal(*b),
        r > 0,
        r >= b.height,
{
    if b.target > b.height {
        b.target
    } else if b.height > 0 {
        b.height
    } else {
        1
    }
}

/// Filled cells of the progress bar: the part of the way, rounded to the nearest cell.
pub open spec fn cells(b: Beat) -> nat {
    ((2 * BAR_CELLS * b.height + goal(b)) / (2 * goal(b) as int)) as nat
}

/// The progress bar.
pub fn bar(b: &Beat) -> (r: String)
    ensures
        cells(*b) <= BAR_CELLS,
        r@ == log::repeated('\u{2588}', cells(*b)) + log::repeated(
            '\u{b7}',
            (BAR_CELLS - cells(*b)) as nat,
        ),
{
    let g: u64 = goal_of(b);
    let n: u128 = (36 * b.height as u128 + g as u128) / (2 * g as u128);
    proof {
        let h = b.height as int;
        let k = g as int;
        assert((36 * h + k) / (2 * k) <= 18) by (nonlinear_arith)
            requires
                0 <= h <= k,
                k > 0,
        ;
        assert((36 * h + k) / (2 * k) >= 0) by (nonlinear_arith)
            requires
                0 <= h,
                k > 0,
        ;
    }
    let filled: usize = n as usize;
    let mut out = String::new();
    log::push_repeated(&mut out, '\u{2588}', filled);
    assert(out@ =~= log::repeated('\u{2588}', cells(*b)));
    log::push_repeated(&mut out, '\u{b7}', BAR_CELLS - filled);
    out
}

/// What the node is doing, in words.
pub open spec fn phase_text(b: Beat) -> Seq<char> {
    if b.jailed {
        "JAILED \u{2014} will auto-rejoin"@
    } else if b.peers == 0 {
        "waiting for peers"@
    } else if b.height * 1000 < goal(b) * 995 {
        "syncing"@
    } else if b.validating {
        "VALIDATING \u{2014} producing blocks"@
    } else if b.staked > 0 {
        "staked, joining active set"@
    } else {
        "synced \u{2014} stake to validate"@
    }
}

/// What the node is doing, in words. It syncs while less than 99.5 percent of the way is
/// behind it.
pub fn phase(b: &Beat) -> (r: &'static str)
    ensures
        r@ == phase_text(*b),
{
    if b.jailed {
        "JAILED \u{2014} will auto-rejoin"
    } else if b.peers == 0 {
        "waiting for peers"
    } else if (b.height as u128) * 1000 < goal_of(b) as u128 * 995 {
        "syncing"
    } else if b.validating {
        "VALIDATING \u{2014} producing blocks"
    } else if b.staked > 0 {
        "staked, joining active set"
    } else {
        "synced \u{2014} stake to validate"
    }
}

/// The first validator of an address.
pub open spec fn seat(s: Seq<ValidatorV>, address: Seq<char>) -> Option<ValidatorV>
    decreases s.len(),
{
    if s.len() == 0 {
        None
    } else if s[0].address == address {
        Some(s[0])
    } else {
        seat(s.drop_first(), address)
    }
}

/// The heartbeat of a node that looks after an address.
pub open spec fn beat_of(n: NodeV, me: Seq<char>, peers: usize, target: u64) -> Beat {
    let height = rpc::tip_of(n.db);
    let v = seat(staking::set_at(n.db, staking::next_height(n.db)), me);
    Beat {
        height,
        target,
        peers,
        finalized: state::finalized_of(n.db) as u64,
        staked: state::account_of(n.db, me).staked,
        validating: v is Some && v->Some_0.jailed_until == 0,
        jailed: v is Some && v->Some_0.jailed_until > height,
    }
}

fn find_seat(set: &Vec<Validator>, me: &str) -> (r: Option<u64>)
    ensures
        match (r, seat(rank::views(set@), me@)) {
            (Some(j), Some(v)) => v.jailed_until == j,
            (None, None) => true,
            _ => false,
        },
{
    let ghost all = rank::views(set@);
    let mut i: usize = 0;
    assert(all.skip(0) =~= all);
    while i < set.len()
        invariant
            i <= set@.len(),
            all == rank::views(set@),
            seat(all, me@) == seat(all.skip(i as int), me@),
        decreases set@.len() - i,
    {
        assert(all.skip(i as int)[0] == set@[i as int]@);
        assert(all.skip(i as int).drop_first() =~= all.skip(i + 1));
        if text::same(set[i].address.as_str(), me) {
            return Some(set[i].jailed_until);
        }
        i = i + 1;
    }
    None
}

/// Takes the heartbeat of a node that looks after an address.
pub fn beat(node: &Node, me: &str, peers: usize, target: u64) -> (r: Beat)
    requires
        node.wf(),
    ensures
        r == beat_of(node@, me@, peers, target),
{
    let height: u64 = match node.store.tip_height() {
        Some(h) => h,
        None => 0,
    };
    let set = node.validators();
    let jail = find_seat(&set, me);
    Beat {
        height,
        target,
        peers,
        finalized: node.store.finalized_height(),
        staked: node.store.account(me).staked,
        validating: match jail {
            Some(j) => j == 0,
            None => false,
        },
        jailed: match jail {
            Some(j) => j > height,
            None => false,
        },
    }
}

/// What a heartbeat is worth a line about.
#[derive(Clone, Copy, PartialEq, Eq, Structural, Debug)]
pub enum Pulse {
    LookingForPeers,
    Syncing,
    Head,
}

/// More than two blocks behind the best peer.
pub open spec fn behind(b: Beat) -> bool {
    b.target > b.height + 2
}

/// Whether the node is more than two blocks behind the best peer.
pub fn is_behind(b: &Beat) -> (r: bool)
    ensures
        r == behind(*b),
{
    b.target > b.height && b.target - b.height > 2
}

/// What a heartbeat is worth a line about.
pub fn pulse(b: &Beat, solo: bool) -> (r: Pulse)
    ensures
        r == if b.peers == 0 && !solo {
            Pulse::LookingForPeers
        } else if behind(*b) {
            Pulse::Syncing
        } else {
            Pulse::Head
        },
{
    if b.peers == 0 && !solo {
        Pulse::LookingForPeers
    } else if is_behind(b) {
        Pulse::Syncing
    } else {
        Pulse::Head
    }
}

/// The role a heartbeat reports.
pub fn role(b: &Beat) -> (r: &'static str)
    ensures
        r@ == if b.jailed {
            "jailed"@
        } else if b.validating {
            "validator"@
        } else {
            "full"@
        },
{
    if b.jailed {
        "jailed"
    } else if b.validating {
        "validator"
    } else {
        "full"
    }
}

/// Where the operator stands once the chain is synced.
pub fn standing(b: &Beat) -> (r: &'static str)
    ensures
        r@ == if b.validating {
            "producing blocks"@
        } else if b.staked >= types::MIN_STAKE {
            "joining active set"@
        } else {
            "not staked"@
        },
{
    if b.validating {
        "producing blocks"
    } else if b.staked >= types::MIN_STAKE {
        "joining active set"
    } else {
        "not staked"
    }
}

} // verus!
