//! The JSON-RPC methods: what each reads from the body of a call and what it answers.
//! Answers are plain values; rendering them is the caller's business.

use crate::chain;
use crate::chain::Node;
use crate::chain::NodeV;
use crate::consensus;
use crate::contracts;
use crate::contracts::Contract;
use crate::contracts::Outcome;
use crate::contracts::OutcomeV;
use crate::contracts::Receipt;
use crate::crypto;
use crate::events;
use crate::events::Channel;
use crate::fees;
use crate::journal::Db;
use crate::json;
use crate::mempool;
use crate::limits;
use crate::mempool::PoolV;
use crate::p2p::P2p;
use crate::qos;
use crate::rank;
use crate::rank::Ranked;
use crate::rpcauth;
use crate::rpcauth::ConfigV;
use crate::rpcauth::RpcConfig;
use crate::rpcauth::Tier;
use crate::slashing;
use crate::slashing::Evidence;
use crate::slashing::EvidenceV;
use crate::slashing::SlashRecord;
use crate::slashing::SlashV;
use crate::smt;
use crate::staking;
use crate::staking::Validator;
use crate::staking::ValidatorV;
use crate::state;
use crate::state::Store;
use crate::table;
use crate::text;
use crate::tokens;
use crate::tokens::Token;
use crate::types;
use crate::types::Account;
use crate::types::Block;
use crate::types::BlockV;
use crate::types::Payload;
use crate::types::Transaction;
use crate::types::TxKind;
use crate::types::TxV;
use vstd::prelude::*;
use vstd::string::*;

verus! {

/// Whether a request is a document at all.
pub fn is_json(raw: &[u8]) -> (r: bool)
    ensures
        r == json::json_present(raw@, ""@),
{
    json::fault_in(raw).is_none()
}

/// Largest bulk submission.
pub const MAX_BATCH_TXS: usize = 5_000;

/// Errors reported of a bulk submission.
pub const MAX_BATCH_ERRORS: usize = 20;

/// Hashes reported of a bulk submission.
pub const MAX_BATCH_HASHES: usize = 1_000;

/// Hashes in one status lookup.
pub const MAX_STATUS_HASHES: usize = 256;

/// An optional text parameter, or an error.
pub open spec fn needed(raw: Seq<u8>, path: Seq<char>, error: Seq<char>) -> Result<
    Seq<char>,
    Seq<char>,
> {
    match json::json_text_at(raw, path) {
        Some(t) => Ok(t),
        None => Err(error),
    }
}

fn need(raw: &[u8], path: &str, error: &str) -> (r: Result<String, String>)
    ensures
        tokens::agrees_text(r, needed(raw@, path@, error@)),
{
    match json::text_at(raw, path) {
        Some(t) => Ok(t),
        None => Err(text::copy(error)),
    }
}

/// A text parameter with a default.
pub open spec fn text_or(raw: Seq<u8>, path: Seq<char>, default: Seq<char>) -> Seq<char> {
    match json::json_text_at(raw, path) {
        Some(t) => t,
        None => default,
    }
}

fn read_or(raw: &[u8], path: &str, default: &str) -> (r: String)
    ensures
        r@ == text_or(raw@, path@, default@),
{
    match json::text_at(raw, path) {
        Some(t) => t,
        None => text::copy(default),
    }
}

/// Height of the tip, zero when there is none.
pub open spec fn tip_of(db: Db) -> u64 {
    match state::tip_height_of(db) {
        Some(h) => h as u64,
        None => 0,
    }
}

fn tip(store: &Store) -> (r: u64)
    requires
        store.wf(),
    ensures
        r == tip_of(store@.db),
{
    match store.tip_height() {
        Some(h) => h,
        None => 0,
    }
}

// ---------------------------------------------------------------- requests

/// The method a call names, empty when it names none.
pub open spec fn method_of(raw: Seq<u8>) -> Seq<char> {
    text_or(raw, "/method"@, ""@)
}

/// Reads the method of a call.
pub fn read_method(raw: &[u8]) -> (r: String)
    ensures
        r@ == method_of(raw@),
{
    read_or(raw, "/method", "")
}

/// The length of the list a bulk method carries.
pub open spec fn items_of(raw: Seq<u8>, method: Seq<char>) -> Option<usize> {
    let list = if method == "inaz_sendTransactions"@ {
        json::json_texts_at(raw, "/params/txs"@, ""@)
    } else if method == "inaz_signatureStatuses"@ {
        json::json_texts_at(raw, "/params/hashes"@, ""@)
    } else {
        None
    };
    match list {
        Some(v) => Some(v.len() as usize),
        None => None,
    }
}

/// Reads the length of the list a bulk method carries.
pub fn read_items(raw: &[u8], method: &str) -> (r: Option<usize>)
    ensures
        r == items_of(raw@, method@),
{
    let list = if text::same(method, "inaz_sendTransactions") {
        json::texts_at(raw, "/params/txs", "")
    } else if text::same(method, "inaz_signatureStatuses") {
        json::texts_at(raw, "/params/hashes", "")
    } else {
        None
    };
    match list {
        Some(v) => {
            assert(json::optional_texts(v@).len() == v@.len());
            Some(v.len())
        },
        None => None,
    }
}

/// The methods.
#[derive(Clone, Copy, PartialEq, Eq, Structural, Debug)]
pub enum Route {
    ChainInfo,
    Tokens,
    GetToken,
    TokenBalance,
    TokenHoldings,
    NetInfo,
    RpcLimits,
    BlockNumber,
    FeeMarket,
    GetProof,
    VerifyProof,
    StateRoot,
    FinalizedBlockNumber,
    Finality,
    Account,
    Validators,
    Slashing,
    ReportEquivocation,
    PreviewSlash,
    BlockByNumber,
    LatestBlocks,
    Transaction,
    Contracts,
    Contract,
    ContractStorage,
    Receipt,
    Query,
    SendTransaction,
    SendTransactions,
    SimulateTransaction,
    SignatureStatuses,
    PriorityFee,
    NodeStatus,
}

/// The method a name stands for.
pub open spec fn route_of(method: Seq<char>) -> Option<Route> {
    if method == "inaz_chainInfo"@ {
        Some(Route::ChainInfo)
    } else if method == "inaz_tokens"@ {
        Some(Route::Tokens)
    } else if method == "inaz_getToken"@ {
        Some(Route::GetToken)
    } else if method == "inaz_tokenBalance"@ {
        Some(Route::TokenBalance)
    } else if method == "inaz_tokenHoldings"@ {
        Some(Route::TokenHoldings)
    } else if method == "inaz_netInfo"@ {
        Some(Route::NetInfo)
    } else if method == "inaz_rpcLimits"@ {
        Some(Route::RpcLimits)
    } else if method == "inaz_blockNumber"@ {
        Some(Route::BlockNumber)
    } else if method == "inaz_feeMarket"@ {
        Some(Route::FeeMarket)
    } else if method == "inaz_getProof"@ {
        Some(Route::GetProof)
    } else if method == "inaz_verifyProof"@ {
        Some(Route::VerifyProof)
    } else if method == "inaz_stateRoot"@ {
        Some(Route::StateRoot)
    } else if method == "inaz_finalizedBlockNumber"@ {
        Some(Route::FinalizedBlockNumber)
    } else if method == "inaz_finality"@ {
        Some(Route::Finality)
    } else if method == "inaz_getBalance"@ || method == "inaz_getAccount"@ {
        Some(Route::Account)
    } else if method == "inaz_validators"@ {
        Some(Route::Validators)
    } else if method == "inaz_slashing"@ {
        Some(Route::Slashing)
    } else if method == "inaz_reportEquivocation"@ {
        Some(Route::ReportEquivocation)
    } else if method == "inaz_previewSlash"@ {
        Some(Route::PreviewSlash)
    } else if method == "inaz_getBlockByNumber"@ {
        Some(Route::BlockByNumber)
    } else if method == "inaz_latestBlocks"@ {
        Some(Route::LatestBlocks)
    } else if method == "inaz_getTransaction"@ {
        Some(Route::Transaction)
    } else if method == "inaz_contracts"@ {
        Some(Route::Contracts)
    } else if method == "inaz_getContract"@ {
        Some(Route::Contract)
    } else if method == "inaz_contractStorage"@ {
        Some(Route::ContractStorage)
    } else if method == "inaz_getReceipt"@ {
        Some(Route::Receipt)
    } else if method == "inaz_query"@ {
        Some(Route::Query)
    } else if method == "inaz_sendTransaction"@ {
        Some(Route::SendTransaction)
    } else if method == "inaz_sendTransactions"@ {
        Some(Route::SendTransactions)
    } else if method == "inaz_simulateTransaction"@ {
        Some(Route::SimulateTransaction)
    } else if method == "inaz_signatureStatuses"@ {
        Some(Route::SignatureStatuses)
    } else if method == "inaz_priorityFee"@ {
        Some(Route::PriorityFee)
    } else if method == "inaz_nodeStatus"@ {
        Some(Route::NodeStatus)
    } else {
        None
    }
}

/// The method a name stands for; an unknown name is an error.
pub fn dispatch(method: &str) -> (r: Result<Route, String>)
    ensures
        match r {
            Ok(k) => route_of(method@) == Some(k),
            Err(e) => route_of(method@) is None && e@ == "unknown method "@ + method@,
        },
{
    if text::same(method, "inaz_chainInfo") {
        return Ok(Route::ChainInfo);
    }
    if text::same(method, "inaz_tokens") {
        return Ok(Route::Tokens);
    }
    if text::same(method, "inaz_getToken") {
        return Ok(Route::GetToken);
    }
    if text::same(method, "inaz_tokenBalance") {
        return Ok(Route::TokenBalance);
    }
    if text::same(method, "inaz_tokenHoldings") {
        return Ok(Route::TokenHoldings);
    }
    if text::same(method, "inaz_netInfo") {
        return Ok(Route::NetInfo);
    }
    if text::same(method, "inaz_rpcLimits") {
        return Ok(Route::RpcLimits);
    }
    if text::same(method, "inaz_blockNumber") {
        return Ok(Route::BlockNumber);
    }
    if text::same(method, "inaz_feeMarket") {
        return Ok(Route::FeeMarket);
    }
    if text::same(method, "inaz_getProof") {
        return Ok(Route::GetProof);
    }
    if text::same(method, "inaz_verifyProof") {
        return Ok(Route::VerifyProof);
    }
    if text::same(method, "inaz_stateRoot") {
        return Ok(Route::StateRoot);
    }
    if text::same(method, "inaz_finalizedBlockNumber") {
        return Ok(Route::FinalizedBlockNumber);
    }
    if text::same(method, "inaz_finality") {
        return Ok(Route::Finality);
    }
    if text::same(method, "inaz_getBalance") || text::same(method, "inaz_getAccount") {
        return Ok(Route::Account);
    }
    if text::same(method, "inaz_validators") {
        return Ok(Route::Validators);
    }
    if text::same(method, "inaz_slashing") {
        return Ok(Route::Slashing);
    }
    if text::same(method, "inaz_reportEquivocation") {
        return Ok(Route::ReportEquivocation);
    }
    if text::same(method, "inaz_previewSlash") {
        return Ok(Route::PreviewSlash);
    }
    if text::same(method, "inaz_getBlockByNumber") {
        return Ok(Route::BlockByNumber);
    }
    if text::same(method, "inaz_latestBlocks") {
        return Ok(Route::LatestBlocks);
    }
    if text::same(method, "inaz_getTransaction") {
        return Ok(Route::Transaction);
    }
    if text::same(method, "inaz_contracts") {
        return Ok(Route::Contracts);
    }
    if text::same(method, "inaz_getContract") {
        return Ok(Route::Contract);
    }
    if text::same(method, "inaz_contractStorage") {
        return Ok(Route::ContractStorage);
    }
    if text::same(method, "inaz_getReceipt") {
        return Ok(Route::Receipt);
    }
    if text::same(method, "inaz_query") {
        return Ok(Route::Query);
    }
    if text::same(method, "inaz_sendTransaction") {
        return Ok(Route::SendTransaction);
    }
    if text::same(method, "inaz_sendTransactions") {
        return Ok(Route::SendTransactions);
    }
    if text::same(method, "inaz_simulateTransaction") {
        return Ok(Route::SimulateTransaction);
    }
    if text::same(method, "inaz_signatureStatuses") {
        return Ok(Route::SignatureStatuses);
    }
    if text::same(method, "inaz_priorityFee") {
        return Ok(Route::PriorityFee);
    }
    if text::same(method, "inaz_nodeStatus") {
        return Ok(Route::NodeStatus);
    }
    let mut m = text::copy("unknown method ");
    m.append(method);
    Err(m)
}

// ---------------------------------------------------------------- metering

/// How often a sender occurs in a list.
pub open spec fn times(s: Seq<Seq<char>>, a: Seq<char>) -> nat
    decreases s.len(),
{
    if s.len() == 0 {
        0
    } else {
        times(s.drop_last(), a) + if s.last() == a {
            1nat
        } else {
            0nat
        }
    }
}

/// The senders of a list, each once, in the order they first occur.
pub open spec fn distinct(s: Seq<Seq<char>>) -> Seq<Seq<char>>
    decreases s.len(),
{
    if s.len() == 0 {
        s
    } else if s.drop_last().contains(s.last()) {
        distinct(s.drop_last())
    } else {
        distinct(s.drop_last()).push(s.last())
    }
}

/// The texts there are.
pub open spec fn present(s: Seq<Option<Seq<char>>>) -> Seq<Seq<char>>
    decreases s.len(),
{
    if s.len() == 0 {
        Seq::empty()
    } else {
        match s.last() {
            Some(t) => present(s.drop_last()).push(t),
            None => present(s.drop_last()),
        }
    }
}

/// The senders a call submits transactions of.
pub open spec fn senders_of(raw: Seq<u8>, route: Route) -> Seq<Seq<char>> {
    if route is SendTransaction {
        let at = if json::json_present(raw, "/params/tx"@) {
            "/params/tx/from_pubkey"@
        } else {
            "/params/from_pubkey"@
        };
        match json::json_text_at(raw, at) {
            Some(t) => seq![t],
            None => Seq::empty(),
        }
    } else if route is SendTransactions {
        match json::json_texts_at(raw, "/params/txs"@, "/from_pubkey"@) {
            Some(v) => present(v),
            None => Seq::empty(),
        }
    } else {
        Seq::empty()
    }
}

/// Outcome of charging senders, the first `k` of them: the first that is too fast is
/// named.
pub open spec fn metered(c: ConfigV, all: Seq<Seq<char>>, who: Seq<Seq<char>>, now: u64) -> (
    Option<Seq<char>>,
    ConfigV,
)
    decreases who.len(),
{
    if who.len() == 0 {
        (None, c)
    } else {
        let (bad, d) = metered(c, all, who.drop_last(), now);
        if bad is Some {
            (bad, d)
        } else {
            let (ok, e) = rpcauth::charged_account(d, who.last(), times(all, who.last()), now);
            if ok {
                (None, e)
            } else {
                (Some(who.last()), e)
            }
        }
    }
}

fn keep_present(v: Vec<Option<String>>) -> (r: Vec<String>)
    ensures
        types::texts(r@) == present(json::optional_texts(v@)),
{
    let ghost all = json::optional_texts(v@);
    let mut out: Vec<String> = Vec::new();
    let mut i: usize = 0;
    proof {
        assert(all.take(0) =~= Seq::<Option<Seq<char>>>::empty());
        assert(types::texts(out@) =~= Seq::<Seq<char>>::empty());
    }
    while i < v.len()
        invariant
            i <= v@.len(),
            all == json::optional_texts(v@),
            types::texts(out@) =~= present(all.take(i as int)),
        decreases v@.len() - i,
    {
        let ghost was = types::texts(out@);
        proof {
            assert(all.take(i + 1).drop_last() =~= all.take(i as int));
            assert(all.take(i + 1).last() == all[i as int]);
        }
        match &v[i] {
            Some(t) => {
                let c = t.clone();
                let ghost cv = c@;
                out.push(c);
                assert(types::texts(out@) =~= was.push(cv));
            },
            None => {},
        }
        i = i + 1;
    }
    assert(all.take(all.len() as int) =~= all);
    out
}

/// Reads the senders a call submits transactions of.
pub fn read_senders(raw: &[u8], route: Route) -> (r: Vec<String>)
    ensures
        types::texts(r@) == senders_of(raw@, route),
{
    let mut out: Vec<String> = Vec::new();
    assert(types::texts(out@) =~= Seq::<Seq<char>>::empty());
    match route {
        Route::SendTransaction => {
            let sender = if json::present_at(raw, "/params/tx") {
                json::text_at(raw, "/params/tx/from_pubkey")
            } else {
                json::text_at(raw, "/params/from_pubkey")
            };
            match sender {
                Some(t) => {
                    out.push(t);
                },
                None => {},
            }
            assert(types::texts(out@) =~= senders_of(raw@, route));
            out
        },
        Route::SendTransactions => {
            match json::texts_at(raw, "/params/txs", "/from_pubkey") {
                Some(v) => keep_present(v),
                None => out,
            }
        },
        _ => out,
    }
}

fn count_times(v: &Vec<String>, a: &str) -> (r: usize)
    ensures
        r == times(types::texts(v@), a@),
{
    let ghost all = types::texts(v@);
    let mut n: usize = 0;
    let mut i: usize = 0;
    assert(all.take(0) =~= Seq::<Seq<char>>::empty());
    while i < v.len()
        invariant
            i <= v@.len(),
            all == types::texts(v@),
            n <= i,
            n == times(all.take(i as int), a@),
        decreases v@.len() - i,
    {
        proof {
            assert(all.take(i + 1).drop_last() =~= all.take(i as int));
            assert(all.take(i + 1).last() == v@[i as int]@);
        }
        if text::same(v[i].as_str(), a) {
            n = n + 1;
        }
        i = i + 1;
    }
    assert(all.take(all.len() as int) =~= all);
    n
}

fn holds(v: &Vec<String>, n: usize, a: &str) -> (r: bool)
    requires
        n <= v@.len(),
    ensures
        r == types::texts(v@).take(n as int).contains(a@),
{
    let ghost all = types::texts(v@);
    let mut i: usize = 0;
    while i < n
        invariant
            i <= n <= v@.len(),
            all == types::texts(v@),
            forall|j: int| 0 <= j < i ==> #[trigger] all[j] != a@,
        decreases n - i,
    {
        assert(all[i as int] == v@[i as int]@);
        if text::same(v[i].as_str(), a) {
            assert(all.take(n as int)[i as int] == a@);
            return true;
        }
        i = i + 1;
    }
    false
}

/// Charges every sender of a submission for its transactions, before the node spends
/// time on signatures. One account cannot flood the pool from a thousand hosts.
pub fn charge_senders(cfg: &mut RpcConfig, senders: &Vec<String>, now: u64) -> (r: Result<
    (),
    String,
>)
    requires
        old(cfg).wf(),
    ensures
        final(cfg).wf(),
        ({
            let all = types::texts(senders@);
            let (bad, d) = metered(old(cfg)@, all, distinct(all), now);
            &&& final(cfg)@ == d
            &&& match r {
                Ok(()) => bad is None,
                Err(e) => bad is Some && e@ == "account "@ + bad->Some_0
                    + " is submitting too fast"@,
            }
        }),
{
    let ghost all = types::texts(senders@);
    let ghost c = cfg@;
    let mut i: usize = 0;
    proof {
        assert(all.take(0) =~= Seq::<Seq<char>>::empty());
    }
    while i < senders.len()
        invariant
            i <= senders@.len(),
            all == types::texts(senders@),
            cfg.wf(),
            c == old(cfg)@,
            metered(c, all, distinct(all.take(i as int)), now) == (None::<Seq<char>>, cfg@),
        decreases senders@.len() - i,
    {
        proof {
            assert(all.take(i + 1).drop_last() =~= all.take(i as int));
            assert(all.take(i + 1).last() == senders@[i as int]@);
        }
        if !holds(senders, i, senders[i].as_str()) {
            let n = count_times(senders, senders[i].as_str());
            proof {
                let d = distinct(all.take(i as int));
                assert(distinct(all.take(i + 1)) == d.push(all[i as int]));
                assert(d.push(all[i as int]).drop_last() =~= d);
            }
            if !cfg.charge_account(senders[i].as_str(), n, now) {
                proof {
                    lemma_metered_stops(c, all, i + 1, now);
                }
                let mut m = text::copy("account ");
                m.append(senders[i].as_str());
                m.append(" is submitting too fast");
                return Err(m);
            }
        }
        i = i + 1;
    }
    assert(all.take(all.len() as int) =~= all);
    Ok(())
}

proof fn lemma_metered_stops(c: ConfigV, all: Seq<Seq<char>>, k: int, now: u64)
    requires
        0 <= k <= all.len(),
        metered(c, all, distinct(all.take(k)), now).0 is Some,
    ensures
        metered(c, all, distinct(all), now) == metered(c, all, distinct(all.take(k)), now),
    decreases all.len() - k,
{
    if k == all.len() {
        assert(all.take(k) =~= all);
    } else {
        let next = all.take(k + 1);
        assert(next.drop_last() =~= all.take(k));
        let d = distinct(all.take(k));
        if !next.drop_last().contains(next.last()) {
            assert(d.push(next.last()).drop_last() =~= d);
        }
        lemma_metered_stops(c, all, k + 1, now);
    }
}

/// Outcome of an admitted call: the method it runs, or why it is refused.
pub open spec fn dispatched(c: ConfigV, tier: Tier, raw: Seq<u8>, now: u64) -> (
    Result<Route, Seq<char>>,
    ConfigV,
) {
    match route_of(method_of(raw)) {
        None => (Err("unknown method "@ + method_of(raw)), c),
        Some(route) => if route is RpcLimits && tier != Tier::Admin {
            (Err("admin key required"@), c)
        } else {
            let all = senders_of(raw, route);
            let (bad, d) = metered(c, all, distinct(all), now);
            match bad {
                Some(a) => (Err("account "@ + a + " is submitting too fast"@), d),
                None => (Ok(route), d),
            }
        },
    }
}

/// Decides which method a call runs. Senders of submissions are charged first, and the
/// limits are shown to operators only.
pub fn dispatch_metered(cfg: &mut RpcConfig, tier: Tier, raw: &[u8], now: u64) -> (r: Result<
    Route,
    String,
>)
    requires
        old(cfg).wf(),
    ensures
        final(cfg).wf(),
        ({
            let (s, d) = dispatched(old(cfg)@, tier, raw@, now);
            &&& final(cfg)@ == d
            &&& match r {
                Ok(k) => s == Ok::<Route, Seq<char>>(k),
                Err(e) => s == Err::<Route, Seq<char>>(e@),
            }
        }),
{
    let method = read_method(raw);
    let route = match dispatch(method.as_str()) {
        Ok(k) => k,
        Err(e) => {
            return Err(e);
        },
    };
    if route == Route::RpcLimits && tier != Tier::Admin {
        return Err(text::copy("admin key required"));
    }
    let senders = read_senders(raw, route);
    match charge_senders(cfg, &senders, now) {
        Ok(()) => Ok(route),
        Err(e) => Err(e),
    }
}

/// No call but an operator's is told the limits.
pub proof fn law_limits_are_for_operators(c: ConfigV, tier: Tier, raw: Seq<u8>, now: u64)
    ensures
        dispatched(c, tier, raw, now).0 == Ok::<Route, Seq<char>>(Route::RpcLimits) ==> tier
            == Tier::Admin,
{
}

/// What an operator sees of the network.
pub struct NetDetails {
    pub encryption_required: bool,
    pub node_key: String,
    pub listen: String,
    pub peers: Vec<String>,
    pub allowlist: Vec<String>,
    /// Hosts with the keys they authenticated with.
    pub authenticated: Vec<(String, String)>,
    pub banned: usize,
}

/// What a caller sees of the network: its topology is for operators only.
pub enum NetInfo {
    Redacted(usize),
    Disabled,
    Full(NetDetails),
}

/// A view of the network as a tier may see it.
pub open spec fn net_info_told(net: Option<&P2p>, tier: Tier, now: u64, r: NetInfo) -> bool {
    if tier != Tier::Admin {
        r == NetInfo::Redacted(
            match net {
                Some(n) => n.peers@.len() as usize,
                None => 0,
            },
        )
    } else {
        match net {
            None => r == NetInfo::Disabled,
            Some(n) => {
                &&& r matches NetInfo::Full(d)
                &&& d.encryption_required == n.require_encryption
                &&& d.node_key@ == crypto::hex_text(n.id.public())
                &&& d.listen@ == n.listen@
                &&& types::texts(d.peers@) == types::texts(n.peers@)
                &&& types::texts(d.allowlist@) == types::texts(n.allowed_ids@)
                &&& limits::pairs(d.authenticated@) == limits::named(
                    table::ordered(n.book@.identities),
                )
                &&& d.banned == limits::bans(table::ordered(n.book@.scores), now)
            },
        }
    }
}

/// Reads what a caller of a tier sees of the network.
pub fn net_info(net: Option<&P2p>, tier: Tier, now: u64) -> (r: NetInfo)
    requires
        net is Some ==> net->Some_0.book.wf(),
    ensures
        net_info_told(net, tier, now, r),
{
    match net {
        Some(n) => {
            if tier != Tier::Admin {
                return NetInfo::Redacted(n.peers.len());
            }
            NetInfo::Full(
                NetDetails {
                    encryption_required: n.require_encryption,
                    node_key: n.id.pubkey_hex(),
                    listen: n.listen.clone(),
                    peers: types::copy_texts(&n.peers),
                    allowlist: types::copy_texts(&n.allowed_ids),
                    authenticated: n.book.known_identities(),
                    banned: n.book.banned_count(now),
                },
            )
        },
        None => {
            if tier != Tier::Admin {
                NetInfo::Redacted(0)
            } else {
                NetInfo::Disabled
            }
        },
    }
}

/// What an operator sees of the limits.
pub struct Limits {
    pub tier: &'static str,
    pub auth_enabled: bool,
    pub auth_required: bool,
    pub trust_proxy: bool,
    pub stake_weighted: bool,
    pub bound_keys: usize,
    /// Share of all stake behind a credential, in hundredths of a percent.
    pub stake_share: u128,
    /// Weight of a credential, in thousandths.
    pub multiplier: u64,
    pub subscriptions: usize,
    pub tracked_keys: usize,
    pub tracked_accounts: usize,
}

/// The limits, and the configuration after the reading.
pub open spec fn rpc_limits_told(
    node: NodeV,
    cfg: ConfigV,
    after: ConfigV,
    tier: Tier,
    raw: Seq<u8>,
    now: u64,
    r: Limits,
) -> bool {
    let hint = json::json_text_at(raw, "/params/key"@);
    let q = cfg.qos;
    let backer = qos::backer(q, hint);
    let seen = if backer is Some {
        qos::looked(q, node.db, now)
    } else {
        q
    };
    let whole = qos::stake_known(q, node.db, now) as nat;
    &&& after == (ConfigV {
        qos: if backer is Some {
            qos::looked(seen, node.db, now)
        } else {
            q
        },
        ..cfg
    })
    &&& r.tier@ == tier.name()
    &&& r.auth_enabled == (table::ordered(cfg.keys).len() > 0)
    &&& r.auth_required == cfg.require_auth
    &&& r.trust_proxy == cfg.trust_proxy
    &&& r.stake_weighted == (q.keys.len() > 0)
    &&& r.bound_keys == q.keys.len()
    &&& r.stake_share == match backer {
        Some(a) => types::cap128(qos::share(qos::stake_behind(node.db, a), whole)),
        None => 0,
    }
    &&& r.multiplier == match backer {
        Some(a) => qos::weight(
            qos::stake_behind(node.db, a),
            qos::stake_known(seen, node.db, now) as nat,
        ),
        None => qos::BASE_MULTIPLIER,
    }
    &&& r.subscriptions == node.bus.subs.len()
    &&& r.tracked_keys == table::ordered(cfg.keyed.buckets).len()
    &&& r.tracked_accounts == table::ordered(cfg.accounts.buckets).len()
}

/// Reads the limits, for the credential a call hints at.
pub fn rpc_limits(node: &Node, cfg: &mut RpcConfig, tier: Tier, raw: &[u8], now: u64) -> (r:
    Limits)
    requires
        node.wf(),
        old(cfg).wf(),
    ensures
        final(cfg).wf(),
        rpc_limits_told(node@, old(cfg)@, final(cfg)@, tier, raw@, now, r),
{
    let hint = json::text_at(raw, "/params/key");
    let cred = borrowed(&hint);
    let stake_share = cfg.qos.share_pct(&node.store, cred, now);
    let multiplier = cfg.qos.multiplier(&node.store, cred, now);
    Limits {
        tier: tier.label(),
        auth_enabled: cfg.auth_enabled(),
        auth_required: cfg.require_auth,
        trust_proxy: cfg.trust_proxy,
        stake_weighted: !cfg.qos.is_empty(),
        bound_keys: cfg.qos.len(),
        stake_share,
        multiplier,
        subscriptions: node.events.len(),
        tracked_keys: cfg.keyed.tracked_count(),
        tracked_accounts: cfg.accounts.tracked_count(),
    }
}

// ---------------------------------------------------------------- the chain

/// Figures of the chain.
pub struct ChainInfo {
    pub height: u64,
    pub tip_hash: String,
    pub finalized: u64,
    pub solo: bool,
    pub accounts: usize,
    pub total_txs: usize,
    pub mempool: usize,
    pub base_fee: u128,
    pub fee_floor: u128,
    pub state_root: String,
    pub supply: u128,
    pub staked: u128,
    pub producer: String,
    pub validators: usize,
    pub next_leader: Option<String>,
    pub tokens: usize,
    pub contracts: usize,
}

/// The figures of the chain.
pub open spec fn chain_info_told(node: NodeV, now: u128, r: ChainInfo) -> bool {
    &&& r.height == tip_of(node.db)
    &&& r.tip_hash@ == state::tip_hash_of(node.db)
    &&& r.finalized == state::finalized_of(node.db)
    &&& r.solo == node.solo
    &&& r.accounts == table::ordered(node.db[0]).len()
    &&& r.total_txs == table::ordered(node.db[2]).len()
    &&& r.mempool == node.pool.len()
    &&& r.base_fee == state::base_fee_of(node.db)
    &&& r.fee_floor == node.floor()
    &&& r.state_root@ == state::root_at(node.fixed.notes, node.db, tip_of(node.db) as nat)
    &&& r.supply == types::cap128(state::supply_of(node.db))
    &&& r.staked == types::cap128(state::staked_of(state::stakers_of(node.db)))
    &&& r.producer@ == node.address()
    &&& r.validators == staking::set_at(node.db, staking::next_height(node.db)).len()
    &&& contracts::text_view(r.next_leader) == node.leader(now as nat)
    &&& r.tokens == table::ordered(node.db[5]).len()
    &&& r.contracts == table::ordered(node.db[7]).len()
}

/// Reads the figures of the chain at a time.
pub fn chain_info(node: &Node, now: u128) -> (r: ChainInfo)
    requires
        node.wf(),
    ensures
        chain_info_told(node@, now, r),
{
    let height = tip(&node.store);
    let set = node.validators();
    assert(rank::views(set@).len() == set@.len());
    ChainInfo {
        height,
        tip_hash: node.store.tip_hash(),
        finalized: node.store.finalized_height(),
        solo: node.solo,
        accounts: node.store.account_count(),
        total_txs: node.store.tx_count(),
        mempool: node.mempool_size(),
        base_fee: node.base_fee(),
        fee_floor: node.fee_floor(),
        state_root: node.store.state_root_at(height),
        supply: node.store.total_supply(),
        staked: node.store.total_staked(),
        producer: node.producer.address(),
        validators: set.len(),
        next_leader: node.next_leader_at(now),
        tokens: node.store.token_count(),
        contracts: node.store.contract_count(),
    }
}

/// What a transaction must pay right now.
pub struct FeeMarket {
    pub base_fee: u128,
    pub fee_floor: u128,
    /// Whether the market decides the floor of the next block.
    pub active: bool,
    pub mempool: usize,
}

/// The fee market.
pub open spec fn fee_market_told(node: NodeV, r: FeeMarket) -> bool {
    &&& r.base_fee == state::base_fee_of(node.db)
    &&& r.fee_floor == node.floor()
    &&& r.active == (tip_of(node.db) + 1 >= fees::FEE_MARKET_ACTIVATION_HEIGHT)
    &&& r.mempool == node.pool.len()
}

/// Reads the fee market.
pub fn fee_market(node: &Node) -> (r: FeeMarket)
    requires
        node.wf(),
    ensures
        fee_market_told(node@, r),
{
    let height = tip(&node.store);
    FeeMarket {
        base_fee: node.base_fee(),
        fee_floor: node.fee_floor(),
        active: height >= fees::FEE_MARKET_ACTIVATION_HEIGHT - 1,
        mempool: node.mempool_size(),
    }
}

/// Roots of the state.
pub struct StateRoots {
    pub height: u64,
    pub state_root: String,
    pub merkle_root: String,
    pub merkle_ready: bool,
    /// Whether blocks carry Merkle roots already.
    pub active: bool,
}

/// The roots of the state.
pub open spec fn state_roots_told(node: NodeV, r: StateRoots) -> bool {
    &&& r.height == tip_of(node.db)
    &&& r.state_root@ == state::root_at(node.fixed.notes, node.db, tip_of(node.db) as nat)
    &&& r.merkle_root@ == state::merkle_root_of(node.db)
    &&& r.merkle_ready == node.db[3].contains_key(text::utf8("smt_version"@))
    &&& r.active == (tip_of(node.db) >= state::STATE_ROOT_V2_ACTIVATION_HEIGHT)
}

/// Reads the roots of the state.
pub fn state_roots(node: &Node) -> (r: StateRoots)
    requires
        node.wf(),
    ensures
        state_roots_told(node@, r),
{
    let height = tip(&node.store);
    StateRoots {
        height,
        state_root: node.store.state_root_at(height),
        merkle_root: node.store.merkle_root(),
        merkle_ready: node.store.merkle_ready(),
        active: height >= state::STATE_ROOT_V2_ACTIVATION_HEIGHT,
    }
}

/// Finality of a height.
pub struct Finality {
    pub height: u64,
    pub tip: u64,
    pub finalized: u64,
    pub is_final: bool,
    pub votes: usize,
    pub voted: u128,
    pub total: u128,
    /// Share that voted, in hundredths of a percent.
    pub voted_bp: u128,
    pub validators: usize,
}

/// The height a finality question is about.
pub open spec fn asked_height(raw: Seq<u8>, db: Db) -> u64 {
    match json::json_number_at(raw, "/params/height"@) {
        Some(h) => h,
        None => tip_of(db),
    }
}

/// The finality of the height asked for.
pub open spec fn finality_told(node: NodeV, raw: Seq<u8>, r: Finality) -> bool {
    let db = node.db;
    let h = asked_height(raw, db);
    let s = staking::set_at(db, staking::next_height(db));
    let total = types::cap128(staking::stake_sum(s));
    let seen = types::cap128(consensus::voted_stake(s, node.votes.cast, h as nat));
    &&& r.height == h
    &&& r.tip == tip_of(db)
    &&& r.finalized == state::finalized_of(db)
    &&& r.is_final == (h <= state::finalized_of(db))
    &&& r.votes == if r.is_final {
        s.len()
    } else {
        consensus::seen_among(consensus::keys_of(node.votes.cast), h as nat)
    }
    &&& r.total == total
    &&& r.voted == if r.is_final && seen == 0 {
        total
    } else {
        seen
    }
    &&& r.voted_bp == if total > 0 {
        types::cap128(qos::share(r.voted as nat, total as nat))
    } else {
        0
    }
    &&& r.validators == s.len()
}

/// Reads the finality of a height. Precommits are forgotten once a height is final, so
/// such a height counts as fully voted.
pub fn finality(node: &Node, raw: &[u8]) -> (r: Finality)
    requires
        node.wf(),
    ensures
        finality_told(node@, raw@, r),
{
    let top = tip(&node.store);
    let height: u64 = match json::number_at(raw, "/params/height") {
        Some(h) => h,
        None => top,
    };
    let (seen, total) = node.votes.tally(&node.store, height);
    let finalized = node.store.finalized_height();
    let is_final = height <= finalized;
    let voted: u128 = if is_final && seen == 0 {
        total
    } else {
        seen
    };
    let set = node.validators();
    assert(rank::views(set@).len() == set@.len());
    Finality {
        height,
        tip: top,
        finalized,
        is_final,
        votes: if is_final {
            set.len()
        } else {
            node.votes.seen(height)
        },
        voted,
        total,
        voted_bp: if total > 0 {
            qos::basis_points(voted, total)
        } else {
            0
        },
        validators: set.len(),
    }
}

/// Serving health of a node.
pub struct NodeStatus {
    pub replica: bool,
    pub height: u64,
    pub finalized: u64,
    pub mempool: usize,
    pub subscriptions: usize,
    pub chain_id: u64,
    /// Peers are there, but the tip does not move.
    pub syncing: bool,
}

/// The serving health.
pub open spec fn node_status_told(node: NodeV, peers: usize, now: u128, r: NodeStatus) -> bool {
    &&& r.replica == node.serving_only
    &&& r.height == tip_of(node.db)
    &&& r.finalized == state::finalized_of(node.db)
    &&& r.mempool == node.pool.len()
    &&& r.subscriptions == node.bus.subs.len()
    &&& r.chain_id == node.chain_id
    &&& r.syncing == (peers > 0 && node.stale(now as nat))
}

/// Reads the serving health of a node at a time.
pub fn node_status(node: &Node, peers: usize, now: u128) -> (r: NodeStatus)
    requires
        node.wf(),
    ensures
        node_status_told(node@, peers, now, r),
{
    NodeStatus {
        replica: node.serving_only,
        height: tip(&node.store),
        finalized: node.store.finalized_height(),
        mempool: node.mempool_size(),
        subscriptions: node.events.len(),
        chain_id: node.genesis.chain_id,
        syncing: peers > 0 && node.behind_tip_at(now),
    }
}

impl Ranked for u128 {
    open spec fn ahead(a: u128, b: u128) -> bool {
        a < b
    }

    fn is_ahead(&self, other: &u128) -> (r: bool) {
        *self < *other
    }
}

/// Fee guidance.
pub struct PriorityFee {
    pub base_fee: u128,
    pub floor: u128,
    pub queued: usize,
    pub normal: u128,
    pub fast: u128,
    pub urgent: u128,
}

/// The fees of a pool, lowest first.
pub open spec fn sorted_fees(pool: Seq<PoolV>) -> Seq<u128> {
    rank::ranked::<u128>(pool.map_values(|e: PoolV| e.tx.fee))
}

/// The fee at a percentile of a pool, at least the floor.
pub open spec fn percentile(sorted: Seq<u128>, p: int, floor: u128) -> u128 {
    if sorted.len() == 0 {
        floor
    } else {
        let f = sorted[(sorted.len() - 1) * p / 100];
        if f > floor {
            f
        } else {
            floor
        }
    }
}

fn at_percentile(sorted: &Vec<u128>, p: usize, floor: u128) -> (r: u128)
    requires
        p <= 100,
    ensures
        r == percentile(sorted@, p as int, floor),
{
    let n: usize = sorted.len();
    if n == 0 {
        return floor;
    }
    proof {
        let k = n - 1;
        assert(0 <= k * p && k * p <= k * 100 && k * p / 100 <= k) by (nonlinear_arith)
            requires
                0 <= p <= 100,
                k >= 0,
        ;
    }
    let wide: u128 = (n as u128 - 1) * p as u128 / 100;
    let f: u128 = sorted[wide as usize];
    if f > floor {
        f
    } else {
        floor
    }
}

/// The fee guidance.
pub open spec fn priority_fee_told(node: NodeV, r: PriorityFee) -> bool {
    let floor = node.floor() as u128;
    let s = sorted_fees(node.pool);
    let fast = percentile(s, 90, floor);
    &&& r.base_fee == state::base_fee_of(node.db)
    &&& r.floor == node.floor()
    &&& r.queued == node.pool.len()
    &&& r.normal == percentile(s, 50, floor)
    &&& r.fast == fast
    &&& r.urgent == types::cap128(2 * fast as nat)
}

/// Reads fee guidance from the pool.
pub fn priority_fee(node: &Node) -> (r: PriorityFee)
    requires
        node.wf(),
    ensures
        priority_fee_told(node@, r),
{
    let floor = node.fee_floor();
    let fees = node.mempool.fees();
    let ghost all = fees@;
    let mut sorted: Vec<u128> = Vec::new();
    let mut i: usize = 0;
    proof {
        assert(all.take(0) =~= Seq::<u128>::empty());
        assert(rank::views(sorted@) =~= Seq::<u128>::empty());
    }
    while i < fees.len()
        invariant
            i <= fees@.len(),
            all == fees@,
            rank::views(sorted@) == rank::ranked::<u128>(all.take(i as int)),
        decreases fees@.len() - i,
    {
        proof {
            assert(all.take(i + 1).drop_last() =~= all.take(i as int));
            assert(all.take(i + 1).last() == all[i as int]);
        }
        rank::place(&mut sorted, fees[i]);
        i = i + 1;
    }
    proof {
        assert(all.take(all.len() as int) =~= all);
        assert(rank::views(sorted@) =~= sorted@);
    }
    let fast = at_percentile(&sorted, 90, floor);
    PriorityFee {
        base_fee: node.base_fee(),
        floor,
        queued: fees.len(),
        normal: at_percentile(&sorted, 50, floor),
        fast,
        urgent: fast.saturating_add(fast),
    }
}

// ---------------------------------------------------------------- accounts and stake

/// An account as reported.
pub struct AccountInfo {
    pub address: String,
    pub account: Account,
    pub validator: bool,
    /// Jailed for the next block.
    pub jailed: bool,
    pub pending_nonce: u64,
}

/// The account asked for.
pub open spec fn get_account_told(
    node: NodeV,
    raw: Seq<u8>,
    r: Result<AccountInfo, String>,
) -> bool {
    match needed(raw, "/params/address"@, "missing address"@) {
        Err(e) => r matches Err(m) && m@ == e,
        Ok(a) => if !crypto::valid_address(a) {
            r matches Err(m) && m@ == "invalid address"@
        } else {
            &&& r matches Ok(i)
            &&& i.address@ == a
            &&& i.account@ == state::account_of(node.db, a)
            &&& i.validator == state::account_of(node.db, a).validating()
            &&& i.jailed == state::account_of(node.db, a).jailed(
                staking::next_height(node.db),
            )
            &&& i.pending_nonce == crate::simulate::nonce_due(node, a)
        },
    }
}

/// Reads an account.
pub fn get_account(node: &Node, raw: &[u8]) -> (r: Result<AccountInfo, String>)
    requires
        node.wf(),
    ensures
        get_account_told(node@, raw@, r),
{
    let address = match need(raw, "/params/address", "missing address") {
        Ok(a) => a,
        Err(e) => {
            return Err(e);
        },
    };
    if !crypto::is_valid_address(address.as_str()) {
        return Err(text::copy("invalid address"));
    }
    let account = node.store.account(address.as_str());
    let validator = account.is_validator();
    let jailed = account.is_jailed(staking::upcoming(&node.store));
    let pending_nonce = node.pending_nonce(address.as_str());
    Ok(AccountInfo { address, account, validator, jailed, pending_nonce })
}

/// The validator set as reported.
pub struct ValidatorsInfo {
    pub set: Vec<Validator>,
    pub total: u128,
    pub next_leader: Option<String>,
    /// Bonded, but jailed or tombstoned.
    pub jailed: Vec<Validator>,
}

/// Bonded validators that are jailed or tombstoned.
pub open spec fn held_back(s: Seq<ValidatorV>, height: u64) -> Seq<ValidatorV>
    decreases s.len(),
{
    if s.len() == 0 {
        s
    } else if s.last().tombstoned || s.last().jailed_until > height {
        held_back(s.drop_last(), height).push(s.last())
    } else {
        held_back(s.drop_last(), height)
    }
}

/// The validator set.
pub open spec fn validators_info_told(node: NodeV, now: u128, r: ValidatorsInfo) -> bool {
    let db = node.db;
    let h = staking::next_height(db);
    &&& rank::views(r.set@) == staking::set_at(db, h)
    &&& r.total == types::cap128(staking::stake_sum(staking::set_at(db, h)))
    &&& contracts::text_view(r.next_leader) == node.leader(now as nat)
    &&& rank::views(r.jailed@) == held_back(
        staking::bonded_among(state::stakers_of(db)),
        h,
    )
}

/// Reads the validator set at a time.
pub fn validators_info(node: &Node, now: u128) -> (r: ValidatorsInfo)
    requires
        node.wf(),
    ensures
        validators_info_told(node@, now, r),
{
    let set = node.validators();
    let total = staking::total_stake(&set);
    let height = staking::upcoming(&node.store);
    let bonded = staking::bonded_set(&node.store);
    let ghost all = rank::views(bonded@);
    let mut jailed: Vec<Validator> = Vec::new();
    let mut i: usize = 0;
    proof {
        assert(all.take(0) =~= Seq::<ValidatorV>::empty());
        assert(rank::views(jailed@) =~= Seq::<ValidatorV>::empty());
    }
    while i < bonded.len()
        invariant
            i <= bonded@.len(),
            all == rank::views(bonded@),
            rank::views(jailed@) =~= held_back(all.take(i as int), height),
        decreases bonded@.len() - i,
    {
        let ghost was = rank::views(jailed@);
        proof {
            assert(all.take(i + 1).drop_last() =~= all.take(i as int));
            assert(all.take(i + 1).last() == bonded@[i as int]@);
        }
        if bonded[i].tombstoned || bonded[i].jailed_until > height {
            let v = bonded[i].clone();
            let ghost vv = v@;
            jailed.push(v);
            assert(rank::views(jailed@) =~= was.push(vv));
        }
        i = i + 1;
    }
    assert(all.take(all.len() as int) =~= all);
    ValidatorsInfo { set, total, next_leader: node.next_leader_at(now), jailed }
}

/// Punishments as reported.
pub struct SlashingInfo {
    pub height: u64,
    /// From this height on the chain punishes.
    pub activation: u64,
    pub active: bool,
    pub burned: u128,
    pub count: usize,
    pub shown: Vec<SlashRecord>,
}

/// What records burned.
pub open spec fn burned_by(s: Seq<SlashV>) -> nat
    decreases s.len(),
{
    if s.len() == 0 {
        0
    } else {
        burned_by(s.drop_last()) + s.last().burned as nat
    }
}

/// A limit parameter with a default and a ceiling.
pub open spec fn limit_of(raw: Seq<u8>, default: u64, most: u64) -> u64 {
    let n = match json::json_number_at(raw, "/params/limit"@) {
        Some(k) => k,
        None => default,
    };
    if n < most {
        n
    } else {
        most
    }
}

fn read_limit(raw: &[u8], default: u64, most: u64) -> (r: u64)
    ensures
        r == limit_of(raw@, default, most),
{
    let n: u64 = match json::number_at(raw, "/params/limit") {
        Some(k) => k,
        None => default,
    };
    if n < most {
        n
    } else {
        most
    }
}

/// The records reported, in their order.
pub open spec fn records_of(db: Db) -> Seq<SlashV> {
    rank::ranked::<SlashRecord>(state::slash_cells(table::ordered(db[11])))
}

/// The punishments.
pub open spec fn slashing_info_told(node: NodeV, raw: Seq<u8>, r: SlashingInfo) -> bool {
    let h = staking::next_height(node.db);
    let all = records_of(node.db);
    let n = limit_of(raw, 50, 500);
    &&& r.height == h
    &&& r.activation == node.fixed.params.slashing_activation
    &&& r.active == (h >= r.activation)
    &&& r.burned == types::cap128(burned_by(all))
    &&& r.count == all.len()
    &&& rank::views(r.shown@) == state::at_most(all, n as nat)
}

/// Reads the punishments ever applied.
pub fn slashing_info(node: &Node, raw: &[u8]) -> (r: SlashingInfo)
    requires
        node.wf(),
    ensures
        slashing_info_told(node@, raw@, r),
{
    let height = staking::upcoming(&node.store);
    let activation = types::slashing_activation(&node.store.params());
    let records = node.store.slashes();
    let ghost all = rank::views(records@);
    let limit = read_limit(raw, 50, 500);
    let count: usize = records.len();
    let mut burned: u128 = 0;
    let mut shown: Vec<SlashRecord> = Vec::new();
    let mut i: usize = 0;
    proof {
        assert(all.take(0) =~= Seq::<SlashV>::empty());
        assert(rank::views(shown@) =~= Seq::<SlashV>::empty());
    }
    while i < count
        invariant
            i <= count,
            count == records@.len(),
            limit <= 500,
            all == rank::views(records@),
            burned == types::cap128(burned_by(all.take(i as int))),
            rank::views(shown@) =~= all.take(
                if i < limit {
                    i as int
                } else {
                    limit as int
                },
            ),
        decreases count - i,
    {
        let ghost was = rank::views(shown@);
        proof {
            assert(all.take(i + 1).drop_last() =~= all.take(i as int));
            assert(all.take(i + 1).last() == records@[i as int]@);
        }
        burned = burned.saturating_add(records[i].burned);
        if i < limit as usize {
            let c = records[i].clone();
            let ghost cv = c@;
            shown.push(c);
            assert(rank::views(shown@) =~= was.push(cv));
        }
        i = i + 1;
    }
    proof {
        assert(all.take(all.len() as int) =~= all);
        assert(rank::views(shown@) =~= state::at_most(all, limit as nat));
    }
    SlashingInfo {
        height,
        activation,
        active: height >= activation,
        burned,
        count,
        shown,
    }
}

/// What an accepted report is answered with.
pub struct ReportInfo {
    pub hash: String,
    pub offender: String,
    pub offence: &'static str,
}

/// The outcome of a report, and the node after it.
pub open spec fn report_equivocation_told(
    node: NodeV,
    after: NodeV,
    evidence: EvidenceV,
    r: Result<ReportInfo, String>,
) -> bool {
    match evidence.verdict() {
        Err(e) => (r matches Err(m) && m@ == e) && after == node,
        Ok(offender) => match chain::report_of(node, evidence) {
            Err(e) => (r matches Err(m) && m@ == e) && after == node,
            Ok(t) => {
                let (s, m) = chain::submitted(node, t, node.floor());
                &&& after == m
                &&& match s {
                    Err(e) => r matches Err(k) && k@ == e,
                    Ok(hash) => {
                        &&& r matches Ok(i)
                        &&& i.hash@ == hash
                        &&& i.offender@ == offender
                        &&& i.offence@ == evidence.label()
                    },
                }
            },
        },
    }
}

/// Submits a report of evidence from the node's own key.
pub fn report_equivocation(node: &mut Node, evidence: &Evidence) -> (r: Result<ReportInfo, String>)
    requires
        old(node).wf(),
    ensures
        final(node).wf(),
        state::follows(old(node).store, final(node).store),
        report_equivocation_told(old(node)@, final(node)@, evidence@, r),
{
    let offender = match evidence.verify() {
        Ok(o) => o,
        Err(e) => {
            return Err(e);
        },
    };
    match node.submit_report(evidence) {
        Ok(hash) => Ok(ReportInfo { hash, offender, offence: evidence.label() }),
        Err(e) => Err(e),
    }
}

/// What evidence would cost its offender.
pub struct SlashPreview {
    pub offender: String,
    pub offence: &'static str,
    pub height: u64,
    pub stake: u128,
    pub pct: u128,
    pub burn: u128,
    pub bounty: u128,
}

/// Part of an amount in percent.
pub open spec fn percent(n: u128, pct: nat) -> u128 {
    (n * pct / 100) as u128
}

/// `n * pct / 100` without a product that is too wide.
fn percent_of(n: u128, pct: u128) -> (r: u128)
    requires
        pct <= 100,
    ensures
        r == percent(n, pct as nat),
        r <= n,
{
    let whole: u128 = n / 100;
    let rest: u128 = n % 100;
    proof {
        assert(whole * pct <= whole * 100) by (nonlinear_arith)
            requires
                pct <= 100,
                0 <= whole,
        ;
        assert(rest * pct <= 100 * 100) by (nonlinear_arith)
            requires
                pct <= 100,
                0 <= rest < 100,
        ;
        assert(rest * pct / 100 <= rest) by (nonlinear_arith)
            requires
                0 <= pct <= 100,
                0 <= rest < 100,
        ;
        assert(n * pct / 100 == whole * pct + rest * pct / 100) by (nonlinear_arith)
            requires
                n == 100 * whole + rest,
                0 <= pct <= 100,
        ;
    }
    whole * pct + rest * pct / 100
}

/// What evidence would cost.
pub open spec fn preview_slash_told(
    node: NodeV,
    evidence: EvidenceV,
    r: Result<SlashPreview, String>,
) -> bool {
    match evidence.verdict() {
        Err(e) => r matches Err(m) && m@ == e,
        Ok(offender) => {
            let stake = state::account_of(node.db, offender).staked;
            let total = types::cap128(state::staked_of(state::stakers_of(node.db)));
            let pct = slashing::burn_pct(stake as nat, total as nat);
            &&& r matches Ok(p)
            &&& p.offender@ == offender
            &&& p.offence@ == evidence.label()
            &&& p.height == evidence.height()
            &&& p.stake == stake
            &&& p.pct == pct
            &&& p.burn == percent(stake, pct)
            &&& p.bounty == percent(p.burn, types::REPORTER_BOUNTY_PCT as nat)
        },
    }
}

/// Previews what evidence would cost its offender, without submitting it.
pub fn preview_slash(node: &Node, evidence: &Evidence) -> (r: Result<SlashPreview, String>)
    requires
        node.wf(),
    ensures
        preview_slash_told(node@, evidence@, r),
{
    let offender = match evidence.verify() {
        Ok(o) => o,
        Err(e) => {
            return Err(e);
        },
    };
    let stake = node.store.account(offender.as_str()).staked;
    let total = node.store.total_staked();
    let pct = slashing::equivocation_burn_pct(stake, total);
    let burn = percent_of(stake, pct);
    let bounty = percent_of(burn, types::REPORTER_BOUNTY_PCT);
    Ok(
        SlashPreview {
            offender,
            offence: evidence.label(),
            height: evidence.height(),
            stake,
            pct,
            burn,
            bounty,
        },
    )
}

// ---------------------------------------------------------------- blocks, transactions

/// The block asked for.
pub open spec fn block_by_number_told(
    node: NodeV,
    raw: Seq<u8>,
    r: Result<Option<Block>, String>,
) -> bool {
    match json::json_number_at(raw, "/params/height"@) {
        Some(h) => r matches Ok(b) && chain::block_view(b) == state::block_of(
            node.db,
            h as nat,
        ),
        None => match state::tip_height_of(node.db) {
            Some(h) => r matches Ok(b) && chain::block_view(b) == state::block_of(node.db, h),
            None => r matches Err(e) && e@ == "missing height"@,
        },
    }
}

/// Reads a block by height, the tip when none is given.
pub fn block_by_number(node: &Node, raw: &[u8]) -> (r: Result<Option<Block>, String>)
    requires
        node.wf(),
    ensures
        block_by_number_told(node@, raw@, r),
{
    let h: u64 = match json::number_at(raw, "/params/height") {
        Some(h) => h,
        None => match node.store.tip_height() {
            Some(h) => h,
            None => {
                return Err(text::copy("missing height"));
            },
        },
    };
    Ok(node.store.block(h))
}

/// The stored blocks from a height downward, as far as there is room.
pub open spec fn downward(db: Db, h: nat, room: nat) -> Seq<BlockV>
    decreases h,
{
    if room == 0 {
        Seq::empty()
    } else {
        let (here, left) = match state::block_of(db, h) {
            Some(b) => (seq![b], (room - 1) as nat),
            None => (Seq::empty(), room),
        };
        if h == 0 {
            here
        } else {
            here + downward(db, (h - 1) as nat, left)
        }
    }
}

/// The latest blocks.
pub open spec fn latest_blocks_told(node: NodeV, raw: Seq<u8>, r: Vec<Block>) -> bool {
    rank::views(r@) == downward(
        node.db,
        tip_of(node.db) as nat,
        limit_of(raw, 10, 100) as nat,
    )
}

/// Reads the latest blocks, newest first.
pub fn latest_blocks(node: &Node, raw: &[u8]) -> (r: Vec<Block>)
    requires
        node.wf(),
    ensures
        latest_blocks_told(node@, raw@, r),
{
    let ghost db = node@.db;
    let limit = read_limit(raw, 10, 100);
    let mut out: Vec<Block> = Vec::new();
    let mut h: u64 = tip(&node.store);
    let mut room: u64 = limit;
    let mut done = false;
    let ghost want = downward(db, h as nat, room as nat);
    assert(rank::views(out@) + want =~= want);
    while !done && room > 0
        invariant
            node.wf(),
            db == node@.db,
            room <= 100,
            !done ==> rank::views(out@) + downward(db, h as nat, room as nat) =~= want,
            done ==> rank::views(out@) =~= want,
        decreases h + if done {
            0int
        } else {
            1int
        },
    {
        let ghost was = rank::views(out@);
        let ghost before = room;
        match node.store.block(h) {
            Some(b) => {
                let ghost bv = b@;
                out.push(b);
                room = room - 1;
                proof {
                    assert(rank::views(out@) =~= was.push(bv));
                    if h > 0 {
                        let rest = downward(db, (h - 1) as nat, room as nat);
                        assert(was + (seq![bv] + rest) =~= was.push(bv) + rest);
                    } else {
                        assert(was + seq![bv] =~= was.push(bv));
                    }
                }
            },
            None => {
                proof {
                    if h > 0 {
                        let rest = downward(db, (h - 1) as nat, room as nat);
                        assert(was + (Seq::<BlockV>::empty() + rest) =~= was + rest);
                    } else {
                        assert(was + Seq::<BlockV>::empty() =~= was);
                    }
                }
            },
        }
        if h == 0 {
            done = true;
        } else {
            h = h - 1;
        }
    }
    out
}

/// A transaction on chain.
pub struct TxInfo {
    pub tx: Transaction,
    pub height: u64,
    pub block_hash: String,
}

/// The first transaction of a hash.
pub open spec fn with_hash(s: Seq<TxV>, hash: Seq<char>) -> Option<TxV>
    decreases s.len(),
{
    if s.len() == 0 {
        None
    } else {
        match with_hash(s.drop_last(), hash) {
            Some(t) => Some(t),
            None => if s.last().hash_text() == hash {
                Some(s.last())
            } else {
                None
            },
        }
    }
}

proof fn lemma_with_hash(s: Seq<TxV>, k: int, hash: Seq<char>)
    requires
        0 <= k <= s.len(),
        with_hash(s.take(k), hash) is Some,
    ensures
        with_hash(s, hash) == with_hash(s.take(k), hash),
    decreases s.len(),
{
    if k == s.len() {
        assert(s.take(k) =~= s);
    } else {
        assert(s.drop_last().take(k) =~= s.take(k));
        lemma_with_hash(s.drop_last(), k, hash);
    }
}

fn find_tx(txs: &Vec<Transaction>, hash: &str) -> (r: Option<Transaction>)
    ensures
        match r {
            Some(t) => with_hash(types::txs_view(txs@), hash@) == Some(t@),
            None => with_hash(types::txs_view(txs@), hash@) is None,
        },
{
    let ghost all = types::txs_view(txs@);
    let mut i: usize = 0;
    assert(all.take(0) =~= Seq::<TxV>::empty());
    while i < txs.len()
        invariant
            i <= txs@.len(),
            all == types::txs_view(txs@),
            with_hash(all.take(i as int), hash@) is None,
        decreases txs@.len() - i,
    {
        proof {
            assert(all.take(i + 1).drop_last() =~= all.take(i as int));
            assert(all.take(i + 1).last() == txs@[i as int]@);
        }
        if text::same(txs[i].hash().as_str(), hash) {
            proof {
                lemma_with_hash(all, i + 1, hash@);
            }
            return Some(txs[i].clone());
        }
        i = i + 1;
    }
    assert(all.take(all.len() as int) =~= all);
    None
}

/// The transaction asked for.
pub open spec fn get_transaction_told(
    node: NodeV,
    raw: Seq<u8>,
    r: Result<Option<TxInfo>, String>,
) -> bool {
    match needed(raw, "/params/hash"@, "missing hash"@) {
        Err(e) => r matches Err(m) && m@ == e,
        Ok(hash) => match state::tx_height_of(node.db, hash) {
            None => r == Ok::<Option<TxInfo>, String>(None),
            Some(h) => match state::block_of(node.db, h) {
                None => r matches Err(m) && m@ == "block missing"@,
                Some(b) => match with_hash(b.transactions, hash) {
                    None => r matches Err(m) && m@ == "tx missing in block"@,
                    Some(t) => {
                        &&& r matches Ok(Some(i))
                        &&& i.tx@ == t
                        &&& i.height == h
                        &&& i.block_hash@ == b.hash
                    },
                },
            },
        },
    }
}

/// Reads a transaction that is on chain.
pub fn get_transaction(node: &Node, raw: &[u8]) -> (r: Result<Option<TxInfo>, String>)
    requires
        node.wf(),
    ensures
        get_transaction_told(node@, raw@, r),
{
    let hash = match need(raw, "/params/hash", "missing hash") {
        Ok(h) => h,
        Err(e) => {
            return Err(e);
        },
    };
    let height = match node.store.tx_height(hash.as_str()) {
        Some(h) => h,
        None => {
            return Ok(None);
        },
    };
    let block = match node.store.block(height) {
        Some(b) => b,
        None => {
            return Err(text::copy("block missing"));
        },
    };
    match find_tx(&block.transactions, hash.as_str()) {
        Some(tx) => Ok(Some(TxInfo { tx, height, block_hash: block.hash })),
        None => Err(text::copy("tx missing in block")),
    }
}

/// Where a transaction is.
#[derive(Clone, Copy, PartialEq, Eq, Structural, Debug)]
pub enum TxStatus {
    /// On chain at a height, with confirmations, and irreversible.
    Finalized(u64, u64),
    /// On chain at a height, with confirmations.
    Confirmed(u64, u64),
    /// In the pool.
    Pending,
    Unknown,
}

/// Where a transaction of a hash is.
pub open spec fn status_of(n: NodeV, hash: Seq<char>) -> TxStatus {
    match state::tx_height_of(n.db, hash) {
        Some(h) => {
            let t = tip_of(n.db);
            let c = if t < h {
                1
            } else if t - h == u64::MAX {
                u64::MAX
            } else {
                (t - h + 1) as u64
            };
            if h <= state::finalized_of(n.db) {
                TxStatus::Finalized(h as u64, c)
            } else {
                TxStatus::Confirmed(h as u64, c)
            }
        },
        None => if chain::queued(n.pool, hash) {
            TxStatus::Pending
        } else {
            TxStatus::Unknown
        },
    }
}

/// Looks where a transaction of a hash is.
pub fn tx_status(node: &Node, hash: &str) -> (r: TxStatus)
    requires
        node.wf(),
    ensures
        r == status_of(node@, hash@),
{
    match node.store.tx_height(hash) {
        Some(h) => {
            let t = tip(&node.store);
            let c: u64 = t.saturating_sub(h).saturating_add(1);
            if h <= node.store.finalized_height() {
                TxStatus::Finalized(h, c)
            } else {
                TxStatus::Confirmed(h, c)
            }
        },
        None => {
            if node.mempool.contains(hash) {
                TxStatus::Pending
            } else {
                TxStatus::Unknown
            }
        },
    }
}

/// The hashes of a status lookup, in small letters; what is no text counts as empty.
pub open spec fn lookup_hashes(v: Seq<Option<Seq<char>>>) -> Seq<Seq<char>> {
    v.map_values(
        |t: Option<Seq<char>>|
            match t {
                Some(s) => text::ascii_lower_spec(s),
                None => Seq::empty(),
            },
    )
}

/// The hashes with where their transactions are.
pub open spec fn statuses_of(n: NodeV, hs: Seq<Seq<char>>) -> Seq<(Seq<char>, TxStatus)> {
    hs.map_values(|h: Seq<char>| (h, status_of(n, h)))
}

/// Models of statuses.
pub open spec fn status_views(v: Seq<(String, TxStatus)>) -> Seq<(Seq<char>, TxStatus)> {
    v.map_values(|e: (String, TxStatus)| (e.0@, e.1))
}

/// Where the transactions asked for are.
pub open spec fn signature_statuses_told(
    node: NodeV,
    raw: Seq<u8>,
    r: Result<Vec<(String, TxStatus)>, String>,
) -> bool {
    match json::json_texts_at(raw, "/params/hashes"@, ""@) {
        None => r matches Err(e) && e@ == "missing hashes array"@,
        Some(v) => if v.len() > MAX_STATUS_HASHES {
            r matches Err(e) && e@ == "too many hashes (max 256)"@
        } else {
            r matches Ok(s) && status_views(s@) == statuses_of(node, lookup_hashes(v))
        },
    }
}

/// Looks where transactions are, all in one call.
pub fn signature_statuses(node: &Node, raw: &[u8]) -> (r: Result<Vec<(String, TxStatus)>, String>)
    requires
        node.wf(),
    ensures
        signature_statuses_told(node@, raw@, r),
{
    let list = match json::texts_at(raw, "/params/hashes", "") {
        Some(v) => v,
        None => {
            return Err(text::copy("missing hashes array"));
        },
    };
    let ghost all = json::optional_texts(list@);
    assert(all.len() == list@.len());
    if list.len() > MAX_STATUS_HASHES {
        return Err(text::copy("too many hashes (max 256)"));
    }
    let ghost want = statuses_of(node@, lookup_hashes(all));
    let mut out: Vec<(String, TxStatus)> = Vec::new();
    let mut i: usize = 0;
    while i < list.len()
        invariant
            i <= list@.len(),
            node.wf(),
            all == json::optional_texts(list@),
            want == statuses_of(node@, lookup_hashes(all)),
            status_views(out@) =~= want.take(i as int),
        decreases list@.len() - i,
    {
        let ghost was = status_views(out@);
        let h = match &list[i] {
            Some(t) => text::ascii_lower(t.as_str()),
            None => text::copy(""),
        };
        proof {
            reveal_strlit("");
            assert(all[i as int] == match list@[i as int] {
                Some(s) => Some(s@),
                None => None,
            });
            assert(h@ =~= lookup_hashes(all)[i as int]);
        }
        let s = tx_status(node, h.as_str());
        let ghost e = (h@, s);
        out.push((h, s));
        assert(status_views(out@) =~= was.push(e));
        assert(want[i as int] == e);
        i = i + 1;
    }
    assert(want.take(want.len() as int) =~= want);
    Ok(out)
}

// ---------------------------------------------------------------- submission

/// Outcome of submitting one transaction: its hash and, for a deployment, the address
/// the contract will have.
pub open spec fn sent_one(n: NodeV, tx: TxV) -> (
    Result<(Seq<char>, Option<Seq<char>>), Seq<char>>,
    NodeV,
) {
    let code = contracts::code_in(tx.payload);
    if tx.kind is DeployContract && code is Err {
        (Err(code->Err_0), n)
    } else {
        let (r, m) = chain::submitted(n, tx, n.floor());
        match r {
            Err(e) => (Err(e), m),
            Ok(hash) => (
                Ok(
                    (
                        hash,
                        if tx.kind is DeployContract && tx.sender() is Some {
                            Some(
                                contracts::contract_address_of(
                                    tx.sender()->Some_0,
                                    tx.nonce as nat,
                                    crypto::hash_text(code->Ok_0),
                                ),
                            )
                        } else {
                            None
                        },
                    ),
                ),
                m,
            ),
        }
    }
}

/// The outcome of a submission, and the node after it.
pub open spec fn send_transaction_told(
    node: NodeV,
    after: NodeV,
    tx: TxV,
    r: Result<(String, Option<String>), String>,
) -> bool {
    let (s, m) = sent_one(node, tx);
    &&& after == m
    &&& match r {
        Ok(p) => s == Ok::<(Seq<char>, Option<Seq<char>>), Seq<char>>(
            (p.0@, contracts::text_view(p.1)),
        ),
        Err(e) => s == Err::<(Seq<char>, Option<Seq<char>>), Seq<char>>(e@),
    }
}

/// Submits one transaction.
pub fn send_transaction(node: &mut Node, tx: Transaction) -> (r: Result<
    (String, Option<String>),
    String,
>)
    requires
        old(node).wf(),
    ensures
        final(node).wf(),
        state::follows(old(node).store, final(node).store),
        send_transaction_told(old(node)@, final(node)@, tx@, r),
{
    let mut predicted: Option<String> = None;
    match tx.kind {
        TxKind::DeployContract => {
            match contracts::decode_code(&tx.payload) {
                Err(e) => {
                    return Err(e);
                },
                Ok(code) => {
                    match tx.sender() {
                        Some(s) => {
                            let h = contracts::code_hash(code.as_slice());
                            predicted = Some(
                                contracts::contract_address(s.as_str(), tx.nonce, h.as_str()),
                            );
                        },
                        None => {},
                    }
                },
            }
        },
        _ => {},
    }
    match node.accept_tx(tx) {
        Ok(hash) => Ok((hash, predicted)),
        Err(e) => Err(e),
    }
}

/// What a bulk submission came to.
pub struct Bulk {
    pub accepted: usize,
    pub rejected: usize,
    /// The first errors, with the places they occurred at.
    pub errors: Vec<(usize, String)>,
    /// The first hashes.
    pub hashes: Vec<String>,
    /// Places of the accepted transactions among those that could be read.
    pub passed: Vec<usize>,
}

/// Counts of answers.
pub open spec fn accepted_in(rs: Seq<Result<Seq<char>, Seq<char>>>) -> nat
    decreases rs.len(),
{
    if rs.len() == 0 {
        0
    } else {
        accepted_in(rs.drop_last()) + if rs.last() is Ok {
            1nat
        } else {
            0nat
        }
    }
}

/// Places of the accepted answers.
pub open spec fn passed_in(rs: Seq<Result<Seq<char>, Seq<char>>>) -> Seq<usize>
    decreases rs.len(),
{
    if rs.len() == 0 {
        Seq::empty()
    } else if rs.last() is Ok {
        passed_in(rs.drop_last()).push((rs.len() - 1) as usize)
    } else {
        passed_in(rs.drop_last())
    }
}

/// The first hashes of the accepted answers.
pub open spec fn hashes_in(rs: Seq<Result<Seq<char>, Seq<char>>>) -> Seq<Seq<char>>
    decreases rs.len(),
{
    if rs.len() == 0 {
        Seq::empty()
    } else {
        let h = hashes_in(rs.drop_last());
        match rs.last() {
            Ok(x) => if h.len() < MAX_BATCH_HASHES {
                h.push(x)
            } else {
                h
            },
            Err(_) => h,
        }
    }
}

/// Errors with the first refusals added, at the places of the transactions.
pub open spec fn errors_in(
    start: Seq<(usize, Seq<char>)>,
    places: Seq<usize>,
    rs: Seq<Result<Seq<char>, Seq<char>>>,
) -> Seq<(usize, Seq<char>)>
    decreases rs.len(),
{
    if rs.len() == 0 {
        start
    } else {
        let es = errors_in(start, places, rs.drop_last());
        match rs.last() {
            Err(e) => if es.len() < MAX_BATCH_ERRORS {
                es.push((places[rs.len() - 1], e))
            } else {
                es
            },
            Ok(_) => es,
        }
    }
}

/// Models of errors with places.
pub open spec fn error_views(v: Seq<(usize, String)>) -> Seq<(usize, Seq<char>)> {
    v.map_values(|e: (usize, String)| (e.0, e.1@))
}

proof fn lemma_one_answer_each(n: NodeV, txs: Seq<TxV>, floor: nat)
    ensures
        chain::submitted_all(n, txs, floor).0.len() == txs.len(),
    decreases txs.len(),
{
    if txs.len() > 0 {
        lemma_one_answer_each(n, txs.drop_last(), floor);
    }
}

/// The outcome of a bulk submission, and the node after it.
pub open spec fn send_transactions_told(
    node: NodeV,
    after: NodeV,
    txs: Seq<TxV>,
    places: Seq<usize>,
    unread: Seq<(usize, Seq<char>)>,
    size: usize,
    r: Result<Bulk, String>,
) -> bool {
    if size > MAX_BATCH_TXS {
        (r matches Err(e) && e@ == "batch too large (max 5000)"@) && after == node
    } else {
        let (rs, m) = chain::submitted_all(
            node,
            txs,
            node.floor(),
        );
        &&& after == m
        &&& r matches Ok(b)
        &&& b.accepted == accepted_in(rs)
        &&& b.rejected == unread.len() + txs.len() - accepted_in(rs)
        &&& error_views(b.errors@) == errors_in(unread, places, rs)
        &&& types::texts(b.hashes@) == hashes_in(rs)
        &&& b.passed@ == passed_in(rs)
    }
}

/// Submits many transactions. `places` are the places the transactions had in the
/// submission, `unread` the errors of those that could not be read. Refusals are
/// reported by place and stop nothing.
pub fn send_transactions(
    node: &mut Node,
    txs: Vec<Transaction>,
    places: &Vec<usize>,
    unread: Vec<(usize, String)>,
    size: usize,
) -> (r: Result<Bulk, String>)
    requires
        old(node).wf(),
        places@.len() == txs@.len(),
        unread@.len() <= MAX_BATCH_ERRORS,
        txs@.len() + MAX_BATCH_ERRORS <= usize::MAX,
    ensures
        final(node).wf(),
        state::follows(old(node).store, final(node).store),
        send_transactions_told(
            old(node)@,
            final(node)@,
            types::txs_view(txs@),
            places@,
            error_views(unread@),
            size,
            r,
        ),
{
    if size > MAX_BATCH_TXS {
        return Err(text::copy("batch too large (max 5000)"));
    }
    let ghost n = node@;
    let count: usize = txs.len();
    let read: usize = unread.len();
    proof {
        lemma_one_answer_each(n, types::txs_view(txs@), n.floor());
    }
    let results = node.accept_batch(txs);
    let ghost rs = chain::answers_view(results@);
    let ghost start = error_views(unread@);
    let mut errors = unread;
    let mut accepted: usize = 0;
    let mut hashes: Vec<String> = Vec::new();
    let mut passed: Vec<usize> = Vec::new();
    let mut i: usize = 0;
    proof {
        assert(rs.len() == results@.len());
        assert(rs.take(0) =~= Seq::<Result<Seq<char>, Seq<char>>>::empty());
        assert(types::texts(hashes@) =~= Seq::<Seq<char>>::empty());
    }
    while i < results.len()
        invariant
            i <= results@.len(),
            results@.len() == count,
            places@.len() == count,
            rs == chain::answers_view(results@),
            accepted <= i,
            accepted == accepted_in(rs.take(i as int)),
            error_views(errors@) =~= errors_in(start, places@, rs.take(i as int)),
            types::texts(hashes@) =~= hashes_in(rs.take(i as int)),
            passed@ =~= passed_in(rs.take(i as int)),
        decreases results@.len() - i,
    {
        let ghost was_e = error_views(errors@);
        let ghost was_h = types::texts(hashes@);
        proof {
            assert(rs.take(i + 1).drop_last() =~= rs.take(i as int));
            assert(rs.take(i + 1).last() == chain::answer_view(results@[i as int]));
        }
        match &results[i] {
            Ok(h) => {
                accepted = accepted + 1;
                if hashes.len() < MAX_BATCH_HASHES {
                    let c = h.clone();
                    let ghost cv = c@;
                    hashes.push(c);
                    assert(types::texts(hashes@) =~= was_h.push(cv));
                }
                passed.push(i);
            },
            Err(e) => {
                if errors.len() < MAX_BATCH_ERRORS {
                    let c = e.clone();
                    let ghost cv = (places@[i as int], c@);
                    errors.push((places[i], c));
                    assert(error_views(errors@) =~= was_e.push(cv));
                }
            },
        }
        i = i + 1;
    }
    assert(rs.take(rs.len() as int) =~= rs);
    Ok(Bulk { accepted, rejected: read + (count - accepted), errors, hashes, passed })
}

// ---------------------------------------------------------------- tokens and contracts

/// A token with its largest holders.
pub struct TokenInfo {
    pub token: Token,
    pub holders: Vec<(String, u128)>,
}

/// The largest holders of a token.
pub open spec fn holders_of(db: Db, id: Seq<char>, limit: nat) -> Seq<(Seq<char>, u128)> {
    state::at_most(
        rank::ranked::<(String, u128)>(
            state::holder_cells(table::ordered(db[6]), text::utf8(state::joined(id, ""@))),
        ),
        limit,
    )
}

/// The token asked for.
pub open spec fn get_token_told(
    node: NodeV,
    raw: Seq<u8>,
    r: Result<Option<TokenInfo>, String>,
) -> bool {
    match needed(raw, "/params/token"@, "missing token"@) {
        Err(e) => r matches Err(m) && m@ == e,
        Ok(id) => match state::token_of(node.db, id) {
            None => r == Ok::<Option<TokenInfo>, String>(None),
            Some(t) => {
                &&& r matches Ok(Some(i))
                &&& i.token@ == t
                &&& rank::views(i.holders@) == holders_of(node.db, t.id, 20)
            },
        },
    }
}

/// Reads a token.
pub fn get_token(node: &Node, raw: &[u8]) -> (r: Result<Option<TokenInfo>, String>)
    requires
        node.wf(),
    ensures
        get_token_told(node@, raw@, r),
{
    let id = match need(raw, "/params/token", "missing token") {
        Ok(t) => t,
        Err(e) => {
            return Err(e);
        },
    };
    match node.store.token(id.as_str()) {
        Some(token) => {
            let holders = node.store.token_holders(token.id.as_str(), 20);
            Ok(Some(TokenInfo { token, holders }))
        },
        None => Ok(None),
    }
}

/// A balance of a token.
pub struct TokenBalance {
    pub token: Token,
    pub address: String,
    pub balance: u128,
}

/// The balance asked for.
pub open spec fn token_balance_told(
    node: NodeV,
    raw: Seq<u8>,
    r: Result<TokenBalance, String>,
) -> bool {
    match (
        needed(raw, "/params/token"@, "missing token"@),
        needed(raw, "/params/address"@, "missing address"@),
    ) {
        (Err(e), _) => r matches Err(m) && m@ == e,
        (_, Err(e)) => r matches Err(m) && m@ == e,
        (Ok(id), Ok(a)) => match state::token_of(node.db, id) {
            None => r matches Err(m) && m@ == "unknown token"@,
            Some(t) => {
                &&& r matches Ok(i)
                &&& i.token@ == t
                &&& i.address@ == a
                &&& i.balance == state::token_balance_of(node.db, id, a)
            },
        },
    }
}

/// Reads a balance of a token.
pub fn token_balance(node: &Node, raw: &[u8]) -> (r: Result<TokenBalance, String>)
    requires
        node.wf(),
    ensures
        token_balance_told(node@, raw@, r),
{
    let id = match need(raw, "/params/token", "missing token") {
        Ok(t) => t,
        Err(e) => {
            return Err(e);
        },
    };
    let address = match need(raw, "/params/address", "missing address") {
        Ok(a) => a,
        Err(e) => {
            return Err(e);
        },
    };
    match node.store.token(id.as_str()) {
        Some(token) => {
            let balance = node.store.token_balance(id.as_str(), address.as_str());
            Ok(TokenBalance { token, address, balance })
        },
        None => Err(text::copy("unknown token")),
    }
}

/// The holdings asked for.
pub open spec fn token_holdings_told(
    node: NodeV,
    raw: Seq<u8>,
    r: Result<(String, Vec<(Token, u128)>), String>,
) -> bool {
    match needed(raw, "/params/address"@, "missing address"@) {
        Err(e) => r matches Err(m) && m@ == e,
        Ok(a) => if !crypto::valid_address(a) {
            r matches Err(m) && m@ == "invalid address"@
        } else {
            &&& r matches Ok(p)
            &&& p.0@ == a
            &&& rank::views(p.1@) == state::holdings_of(
                node.db,
                rank::ranked::<Token>(state::token_cells(table::ordered(node.db[5]))),
                a,
            )
        },
    }
}

/// Reads the tokens an address holds.
pub fn token_holdings(node: &Node, raw: &[u8]) -> (r: Result<(String, Vec<(Token, u128)>), String>)
    requires
        node.wf(),
    ensures
        token_holdings_told(node@, raw@, r),
{
    let address = match need(raw, "/params/address", "missing address") {
        Ok(a) => a,
        Err(e) => {
            return Err(e);
        },
    };
    if !crypto::is_valid_address(address.as_str()) {
        return Err(text::copy("invalid address"));
    }
    let list = node.store.token_holdings(address.as_str());
    Ok((address, list))
}

/// A contract with its balance and the start of its storage.
pub struct ContractInfo {
    pub contract: Contract,
    pub balance: u128,
    pub entries: Vec<(String, Vec<u8>)>,
}

/// The contract asked for.
pub open spec fn get_contract_told(
    node: NodeV,
    raw: Seq<u8>,
    r: Result<Option<ContractInfo>, String>,
) -> bool {
    match needed(raw, "/params/address"@, "missing address"@) {
        Err(e) => r matches Err(m) && m@ == e,
        Ok(a) => match state::contract_of(node.db, a) {
            None => r == Ok::<Option<ContractInfo>, String>(None),
            Some(c) => {
                &&& r matches Ok(Some(i))
                &&& i.contract@ == c
                &&& i.balance == state::account_of(node.db, c.address).balance
                &&& state::entry_views(i.entries@) == state::at_most(
                    state::storage_cells(
                        table::ordered(node.db[9]),
                        text::utf8(state::joined(c.address, ""@)),
                    ),
                    50,
                )
            },
        },
    }
}

/// Reads a contract.
pub fn get_contract(node: &Node, raw: &[u8]) -> (r: Result<Option<ContractInfo>, String>)
    requires
        node.wf(),
    ensures
        get_contract_told(node@, raw@, r),
{
    let address = match need(raw, "/params/address", "missing address") {
        Ok(a) => a,
        Err(e) => {
            return Err(e);
        },
    };
    match node.store.contract(address.as_str()) {
        Some(contract) => {
            let balance = node.store.account(contract.address.as_str()).balance;
            let entries = node.store.contract_entries(contract.address.as_str(), 50);
            Ok(Some(ContractInfo { contract, balance, entries }))
        },
        None => Ok(None),
    }
}

/// A value of a contract's storage.
pub struct StorageInfo {
    pub address: String,
    pub key: String,
    pub value: Option<Vec<u8>>,
}

/// The stored value asked for.
pub open spec fn contract_storage_told(
    node: NodeV,
    raw: Seq<u8>,
    r: Result<StorageInfo, String>,
) -> bool {
    match (
        needed(raw, "/params/address"@, "missing address"@),
        needed(raw, "/params/key"@, "missing key"@),
    ) {
        (Err(e), _) => r matches Err(m) && m@ == e,
        (_, Err(e)) => r matches Err(m) && m@ == e,
        (Ok(a), Ok(k)) => {
            &&& r matches Ok(i)
            &&& i.address@ == a
            &&& i.key@ == k
            &&& contracts::value_view(i.value) == state::storage_of(node.db, a, k)
        },
    }
}

/// Reads a value of a contract's storage.
pub fn contract_storage(node: &Node, raw: &[u8]) -> (r: Result<StorageInfo, String>)
    requires
        node.wf(),
    ensures
        contract_storage_told(node@, raw@, r),
{
    let address = match need(raw, "/params/address", "missing address") {
        Ok(a) => a,
        Err(e) => {
            return Err(e);
        },
    };
    let key = match need(raw, "/params/key", "missing key") {
        Ok(k) => k,
        Err(e) => {
            return Err(e);
        },
    };
    let value = node.store.contract_storage(address.as_str(), key.as_str());
    Ok(StorageInfo { address, key, value })
}

/// The receipt asked for.
pub open spec fn get_receipt_told(
    node: NodeV,
    raw: Seq<u8>,
    r: Result<Option<(String, Receipt)>, String>,
) -> bool {
    match needed(raw, "/params/hash"@, "missing hash"@) {
        Err(e) => r matches Err(m) && m@ == e,
        Ok(h) => match state::receipt_of(node.db, h) {
            None => r == Ok::<Option<(String, Receipt)>, String>(None),
            Some(v) => r matches Ok(Some(p)) && p.0@ == h && p.1@ == v,
        },
    }
}

/// Reads a receipt, with the hash it was asked for by.
pub fn get_receipt(node: &Node, raw: &[u8]) -> (r: Result<Option<(String, Receipt)>, String>)
    requires
        node.wf(),
    ensures
        get_receipt_told(node@, raw@, r),
{
    let hash = match need(raw, "/params/hash", "missing hash") {
        Ok(h) => h,
        Err(e) => {
            return Err(e);
        },
    };
    match node.store.receipt(hash.as_str()) {
        Some(v) => Ok(Some((hash, v))),
        None => Ok(None),
    }
}

/// The payload of a query.
pub open spec fn query_payload(raw: Seq<u8>) -> types::PayloadV {
    types::PayloadV {
        token: ""@,
        symbol: ""@,
        name: ""@,
        decimals: 0,
        mintable: false,
        code: ""@,
        args: text_or(raw, "/params/args"@, ""@),
    }
}

/// What a query comes to: the call is run on the current state and everything it would
/// write is thrown away.
pub open spec fn query_of(db: Db, raw: Seq<u8>) -> Result<(Seq<char>, OutcomeV), Seq<char>> {
    match needed(raw, "/params/address"@, "missing address"@) {
        Err(e) => Err(e),
        Ok(a) => match contracts::callable(db, a) {
            Err(e) => Err(e),
            Ok(c) => match state::code_of(db, c.code_hash) {
                None => Err("contract code missing"@),
                Some(code) => match contracts::args_in(Some(query_payload(raw))) {
                    Err(e) => Err(e),
                    Ok(input) => Ok(
                        (
                            a,
                            contracts::executed(
                                db,
                                a,
                                text_or(raw, "/params/caller"@, a),
                                code,
                                input,
                                0,
                                tip_of(db),
                                contracts::QUERY_FUEL,
                            ),
                        ),
                    ),
                },
            },
        },
    }
}

/// The outcome of a query.
pub open spec fn query_told(
    node: NodeV,
    raw: Seq<u8>,
    r: Result<(String, Outcome), String>,
) -> bool {
    match r {
        Ok(p) => query_of(node.db, raw) == Ok::<(Seq<char>, OutcomeV), Seq<char>>(
            (p.0@, p.1@),
        ),
        Err(e) => query_of(node.db, raw) == Err::<(Seq<char>, OutcomeV), Seq<char>>(e@),
    }
}

/// Runs a read-only contract call.
pub fn query(node: &Node, raw: &[u8]) -> (r: Result<(String, Outcome), String>)
    requires
        node.wf(),
    ensures
        query_told(node@, raw@, r),
{
    let address = match need(raw, "/params/address", "missing address") {
        Ok(a) => a,
        Err(e) => {
            return Err(e);
        },
    };
    let c = match contracts::check_call(&node.store, address.as_str()) {
        Ok(c) => c,
        Err(e) => {
            return Err(e);
        },
    };
    let code = match node.store.code(c.code_hash.as_str()) {
        Some(b) => b,
        None => {
            return Err(text::copy("contract code missing"));
        },
    };
    let payload = Payload {
        token: text::copy(""),
        symbol: text::copy(""),
        name: text::copy(""),
        decimals: 0,
        mintable: false,
        code: text::copy(""),
        args: read_or(raw, "/params/args", ""),
    };
    assert(payload@ =~= query_payload(raw@));
    let input = match contracts::decode_args(&Some(payload)) {
        Ok(b) => b,
        Err(e) => {
            return Err(e);
        },
    };
    let caller = read_or(raw, "/params/caller", address.as_str());
    let out = contracts::execute(
        &node.store,
        address.as_str(),
        caller.as_str(),
        code.as_slice(),
        input,
        0,
        tip(&node.store),
        contracts::QUERY_FUEL,
    );
    Ok((address, out))
}

// ---------------------------------------------------------------- proofs

/// A Merkle proof of one leaf.
pub struct ProofInfo {
    pub domain: String,
    pub key: String,
    pub root: String,
    pub leaf_key: String,
    pub value: Option<Vec<u8>>,
    pub siblings: Vec<String>,
    pub bitmap: String,
    pub height: u64,
    pub finalized: u64,
}

/// The key a proof is asked for.
pub open spec fn proof_key(raw: Seq<u8>) -> Option<Seq<char>> {
    if json::json_present(raw, "/params/key"@) {
        json::json_text_at(raw, "/params/key"@)
    } else {
        json::json_text_at(raw, "/params/address"@)
    }
}

/// The proof asked for.
pub open spec fn get_proof_told(node: NodeV, raw: Seq<u8>, r: Result<ProofInfo, String>) -> bool {
    match proof_key(raw) {
        None => r matches Err(e) && e@ == "key required"@,
        Some(k) => {
            let d = text_or(raw, "/params/domain"@, "acct"@);
            let leaf = smt::leaf_key_of(d, text::utf8(k));
            &&& r matches Ok(p)
            &&& p.domain@ == d
            &&& p.key@ == k
            &&& p.root@ == state::merkle_root_of(node.db)
            &&& p.leaf_key@ == crypto::hex_text(leaf)
            &&& contracts::value_view(p.value) == state::leaf_value_of(
                node.db,
                d,
                text::utf8(k),
            )
            &&& types::texts(p.siblings@) == smt::hex_list(
                smt::proof_siblings(node.db[12], smt::path_bits(leaf), 128),
            )
            &&& p.bitmap@ == crypto::hex_text(
                smt::packed(smt::proof_bits(node.db[12], smt::path_bits(leaf))),
            )
            &&& p.height == tip_of(node.db)
            &&& p.finalized == state::finalized_of(node.db)
        },
    }
}

/// Reads a Merkle proof of one leaf.
pub fn get_proof(node: &Node, raw: &[u8]) -> (r: Result<ProofInfo, String>)
    requires
        node.wf(),
    ensures
        get_proof_told(node@, raw@, r),
{
    let asked = if json::present_at(raw, "/params/key") {
        json::text_at(raw, "/params/key")
    } else {
        json::text_at(raw, "/params/address")
    };
    let key = match asked {
        Some(k) => k,
        None => {
            return Err(text::copy("key required"));
        },
    };
    let domain = read_or(raw, "/params/domain", "acct");
    let (root, leaf_key, siblings, bitmap) = node.store.merkle_proof(
        domain.as_str(),
        key.as_str(),
    );
    let value = node.store.merkle_leaf_value(domain.as_str(), key.as_str());
    Ok(
        ProofInfo {
            domain,
            key,
            root,
            leaf_key,
            value,
            siblings,
            bitmap,
            height: tip(&node.store),
            finalized: node.store.finalized_height(),
        },
    )
}

/// The value a proof to be checked is for; an empty text stands for none.
pub open spec fn proven_value(raw: Seq<u8>) -> Result<Option<Seq<u8>>, Seq<char>> {
    match json::json_text_at(raw, "/params/value"@) {
        None => Ok(None),
        Some(h) => if h.len() == 0 {
            Ok(None)
        } else {
            match crypto::unhex(h) {
                Some(b) => Ok(Some(b)),
                None => Err("bad value hex"@),
            }
        },
    }
}

/// The verdict on a proof.
pub open spec fn proof_verdict(raw: Seq<u8>) -> Result<bool, Seq<char>> {
    match needed(raw, "/params/key"@, "key required"@) {
        Err(e) => Err(e),
        Ok(key) => match needed(raw, "/params/root"@, "root required"@) {
            Err(e) => Err(e),
            Ok(root) => match proven_value(raw) {
                Err(e) => Err(e),
                Ok(value) => Ok(
                    smt::proof_ok(
                        root,
                        text_or(raw, "/params/domain"@, "acct"@),
                        text::utf8(key),
                        value,
                        match json::json_texts_at(raw, "/params/siblings"@, ""@) {
                            Some(v) => present(v),
                            None => Seq::empty(),
                        },
                        text_or(raw, "/params/siblingBitmap"@, ""@),
                    ),
                ),
            },
        },
    }
}

/// The verdict on a proof.
pub open spec fn verify_proof_told(raw: Seq<u8>, r: Result<bool, String>) -> bool {
    match r {
        Ok(b) => proof_verdict(raw) == Ok::<bool, Seq<char>>(b),
        Err(e) => proof_verdict(raw) == Err::<bool, Seq<char>>(e@),
    }
}

/// Checks a proof without any state, so bridges can hold their own verifier against it.
pub fn verify_proof(raw: &[u8]) -> (r: Result<bool, String>)
    ensures
        verify_proof_told(raw@, r),
{
    let key = match need(raw, "/params/key", "key required") {
        Ok(k) => k,
        Err(e) => {
            return Err(e);
        },
    };
    let root = match need(raw, "/params/root", "root required") {
        Ok(k) => k,
        Err(e) => {
            return Err(e);
        },
    };
    let value: Option<Vec<u8>> = match json::text_at(raw, "/params/value") {
        None => None,
        Some(h) => {
            if h.as_str().is_empty() {
                None
            } else {
                match crypto::from_hex(h.as_str()) {
                    Some(b) => Some(b),
                    None => {
                        return Err(text::copy("bad value hex"));
                    },
                }
            }
        },
    };
    let siblings = match json::texts_at(raw, "/params/siblings", "") {
        Some(v) => keep_present(v),
        None => {
            let none: Vec<String> = Vec::new();
            assert(types::texts(none@) =~= Seq::<Seq<char>>::empty());
            none
        },
    };
    let domain = read_or(raw, "/params/domain", "acct");
    let bitmap = read_or(raw, "/params/siblingBitmap", "");
    let bytes = text::bytes_of(key.as_str());
    let given: Option<&[u8]> = match &value {
        Some(b) => Some(b.as_slice()),
        None => None,
    };
    Ok(
        smt::verify_proof(
            root.as_str(),
            domain.as_str(),
            bytes.as_slice(),
            given,
            &siblings,
            bitmap.as_str(),
        ),
    )
}

// ---------------------------------------------------------------- subscriptions

/// The channel a subscription asks for.
pub open spec fn channel_asked(raw: Seq<u8>) -> Result<events::ChannelV, Seq<char>> {
    events::channel_of(
        text_or(raw, "/params/channel"@, "heads"@),
        json::json_text_at(raw, "/params/hash"@),
        json::json_text_at(raw, "/params/address"@),
        json::json_text_at(raw, "/params/contract"@),
    )
}

fn borrowed(t: &Option<String>) -> (r: Option<&str>)
    ensures
        events::str_view(r) == contracts::text_view(*t),
{
    match t {
        Some(s) => Some(s.as_str()),
        None => None,
    }
}

/// Subscribes a connection to a channel; the number of the subscription.
pub fn subscribe(node: &mut Node, raw: &[u8], conn: u64) -> (r: Result<u64, String>)
    requires
        old(node).wf(),
    ensures
        final(node).wf(),
        final(node).store == old(node).store,
        match channel_asked(raw@) {
            Err(e) => (r matches Err(m) && m@ == e) && final(node)@ == old(node)@,
            Ok(c) => {
                let (s, b) = events::subscribed(old(node)@.bus, conn, c);
                &&& final(node)@ == (NodeV { bus: b, ..old(node)@ })
                &&& match r {
                    Ok(id) => s == Ok::<u64, Seq<char>>(id),
                    Err(e) => s == Err::<u64, Seq<char>>(e@),
                }
            },
        },
{
    let channel = read_or(raw, "/params/channel", "heads");
    let hash = json::text_at(raw, "/params/hash");
    let address = json::text_at(raw, "/params/address");
    let contract = json::text_at(raw, "/params/contract");
    match Channel::parse(
        channel.as_str(),
        borrowed(&hash),
        borrowed(&address),
        borrowed(&contract),
    ) {
        Err(e) => Err(e),
        Ok(c) => {
            let ghost cv = c@;
            let r = node.events.subscribe(conn, c);
            assert(node@ =~= NodeV {
                bus: events::subscribed(old(node)@.bus, conn, cv).1,
                ..old(node)@
            });
            r
        },
    }
}

/// Cancels a subscription of a connection; whether there was one.
pub fn unsubscribe(node: &mut Node, raw: &[u8], conn: u64) -> (r: Result<bool, String>)
    requires
        old(node).wf(),
    ensures
        final(node).wf(),
        final(node).store == old(node).store,
        match json::json_number_at(raw@, "/params/subscription"@) {
            None => (r matches Err(e) && e@ == "subscription id required"@) && final(node)@
                == old(node)@,
            Some(id) => {
                let subs = old(node)@.bus.subs;
                &&& r matches Ok(b)
                &&& b == (exists|i: int|
                    0 <= i < subs.len() && events::own(conn, id)(#[trigger] subs[i]))
                &&& final(node)@ == (NodeV {
                    bus: events::BusV {
                        subs: events::staying(subs, events::own(conn, id)),
                        ..old(node)@.bus
                    },
                    ..old(node)@
                })
            },
        },
{
    match json::number_at(raw, "/params/subscription") {
        None => Err(text::copy("subscription id required")),
        Some(id) => {
            let b = node.events.unsubscribe(conn, id);
            assert(node@ =~= NodeV {
                bus: events::BusV {
                    subs: events::staying(old(node)@.bus.subs, events::own(conn, id)),
                    ..old(node)@.bus
                },
                ..old(node)@
            });
            Ok(b)
        },
    }
}

} // verus!
