//! What a call that passed its limits comes to: one answer for every method, from the
//! same place for every transport.

use crate::chain::Node;
use crate::chain::NodeV;
use crate::contracts::Contract;
use crate::contracts::Outcome;
use crate::contracts::Receipt;
use crate::json;
use crate::p2p::P2p;
use crate::rank;
use crate::rpc;
use crate::rpc::AccountInfo;
use crate::rpc::Bulk;
use crate::rpc::ChainInfo;
use crate::rpc::ContractInfo;
use crate::rpc::FeeMarket;
use crate::rpc::Finality;
use crate::rpc::Limits;
use crate::rpc::NetInfo;
use crate::rpc::NodeStatus;
use crate::rpc::PriorityFee;
use crate::rpc::ProofInfo;
use crate::rpc::ReportInfo;
use crate::rpc::Route;
use crate::rpc::SlashPreview;
use crate::rpc::SlashingInfo;
use crate::rpc::StateRoots;
use crate::rpc::StorageInfo;
use crate::rpc::TokenBalance;
use crate::rpc::TokenInfo;
use crate::rpc::TxInfo;
use crate::rpc::TxStatus;
use crate::rpc::ValidatorsInfo;
use crate::rpcauth::ConfigV;
use crate::rpcauth::RpcConfig;
use crate::rpcauth::Tier;
use crate::simulate;
use crate::simulate::Preflight;
use crate::slashing::Evidence;
use crate::state;
use crate::table;
use crate::text;
use crate::tokens::Token;
use crate::types;
use crate::types::Block;
use crate::types::Transaction;
use vstd::prelude::*;
use vstd::string::*;

verus! {

/// Transactions read from a bulk call.
pub struct Batch {
    pub txs: Vec<Transaction>,
    /// Places the transactions had in the call.
    pub places: Vec<usize>,
    /// The first of those that could not be read, with their places.
    pub unread: Vec<(usize, String)>,
}

impl Batch {
    /// Every transaction has a place, and no more errors are kept than are reported.
    pub open spec fn wf(self) -> bool {
        &&& self.places@.len() == self.txs@.len()
        &&& self.unread@.len() <= rpc::MAX_BATCH_ERRORS
        &&& self.txs@.len() + rpc::MAX_BATCH_ERRORS <= usize::MAX
    }
}

/// What a call carries beside plain texts and numbers, as far as its method looks at it.
/// A part that could not be read is the reason why.
pub struct Body {
    pub tx: Result<Transaction, String>,
    pub evidence: Result<Evidence, String>,
    pub batch: Batch,
}

impl Body {
    /// A body that holds nothing, for the methods that look at none of it.
    pub fn plain() -> (r: Body)
        ensures
            r.tx matches Err(e) && e@ == ""@,
            r.evidence matches Err(e) && e@ == ""@,
            r.batch.txs@.len() == 0,
            r.batch.places@.len() == 0,
            r.batch.unread@.len() == 0,
    {
        Body {
            tx: Err(text::copy("")),
            evidence: Err(text::copy("")),
            batch: Batch { txs: Vec::new(), places: Vec::new(), unread: Vec::new() },
        }
    }
}

/// The answers, each named for what it is about.
pub enum Answer {
    ChainInfo(ChainInfo),
    Tokens(Vec<Token>),
    Token(Option<TokenInfo>),
    TokenBalance(TokenBalance),
    TokenHoldings((String, Vec<(Token, u128)>)),
    Net(NetInfo),
    Limits(Limits),
    BlockNumber(u64),
    FeeMarket(FeeMarket),
    Proof(ProofInfo),
    /// Whether a proof holds.
    Verdict(bool),
    StateRoots(StateRoots),
    FinalizedBlockNumber(u64),
    Finality(Finality),
    Account(AccountInfo),
    Validators(ValidatorsInfo),
    Slashing(SlashingInfo),
    Report(ReportInfo),
    Preview(SlashPreview),
    Block(Option<Block>),
    Blocks(Vec<Block>),
    Transaction(Option<TxInfo>),
    Contracts(Vec<Contract>),
    Contract(Option<ContractInfo>),
    Storage(StorageInfo),
    /// A receipt with the hash it was asked for by.
    Receipt(Option<(String, Receipt)>),
    /// The address called and what came of it.
    Query((String, Outcome)),
    /// A hash and, for a deployment, the address to come.
    Sent((String, Option<String>)),
    /// What a bulk submission came to, and how many transactions wait after it.
    Bulk(Bulk, usize),
    Preflight(Preflight),
    /// Where transactions are, and the last final height.
    Statuses(Vec<(String, TxStatus)>, u64),
    PriorityFee(PriorityFee),
    NodeStatus(NodeStatus),
}

/// Who calls, when, and how many peers the node has at that time.
pub struct Caller {
    pub tier: Tier,
    pub now: u64,
    pub peers: usize,
}

/// The methods that may change the node.
pub open spec fn writes(route: Route) -> bool {
    route is SendTransaction || route is SendTransactions || route is ReportEquivocation
}

/// The outcome of a bulk submission of a batch.
pub open spec fn bulk_told(
    node: NodeV,
    after: NodeV,
    b: Batch,
    size: usize,
    r: Result<Bulk, String>,
) -> bool {
    rpc::send_transactions_told(
        node,
        after,
        types::txs_view(b.txs@),
        b.places@,
        rpc::error_views(b.unread@),
        size,
        r,
    )
}

/// Whether a result is an error of a text.
pub open spec fn fails(r: Result<Answer, String>, e: Seq<char>) -> bool {
    r matches Err(m) && m@ == e
}


/// What each method answers, and what it leaves behind. Reads change nothing.
pub open spec fn answered(
    node: NodeV,
    cfg: ConfigV,
    net: Option<&P2p>,
    caller: Caller,
    raw: Seq<u8>,
    route: Route,
    body: Body,
    after: NodeV,
    cfg_after: ConfigV,
    r: Result<Answer, String>,
) -> bool {
    let now = caller.now;
    &&& route != Route::RpcLimits ==> cfg_after == cfg
    &&& !writes(route) ==> after == node
    &&& match route {
        Route::ChainInfo => {
            &&& r matches Ok(Answer::ChainInfo(i))
            &&& rpc::chain_info_told(node, now as u128, i)
        },
        Route::FeeMarket => {
            &&& r matches Ok(Answer::FeeMarket(i))
            &&& rpc::fee_market_told(node, i)
        },
        Route::StateRoot => {
            &&& r matches Ok(Answer::StateRoots(i))
            &&& rpc::state_roots_told(node, i)
        },
        Route::Finality => {
            &&& r matches Ok(Answer::Finality(i))
            &&& rpc::finality_told(node, raw, i)
        },
        Route::Validators => {
            &&& r matches Ok(Answer::Validators(i))
            &&& rpc::validators_info_told(node, now as u128, i)
        },
        Route::Slashing => {
            &&& r matches Ok(Answer::Slashing(i))
            &&& rpc::slashing_info_told(node, raw, i)
        },
        Route::LatestBlocks => {
            &&& r matches Ok(Answer::Blocks(i))
            &&& rpc::latest_blocks_told(node, raw, i)
        },
        Route::PriorityFee => {
            &&& r matches Ok(Answer::PriorityFee(i))
            &&& rpc::priority_fee_told(node, i)
        },
        Route::NodeStatus => {
            &&& r matches Ok(Answer::NodeStatus(i))
            &&& rpc::node_status_told(node, caller.peers, now as u128, i)
        },
        Route::BlockNumber => r matches Ok(Answer::BlockNumber(h)) && h == rpc::tip_of(node.db),
        Route::FinalizedBlockNumber => {
            &&& r matches Ok(Answer::FinalizedBlockNumber(h))
            &&& h == state::finalized_of(node.db)
        },
        Route::Tokens => {
            &&& r matches Ok(Answer::Tokens(v))
            &&& rank::views(v@) == rank::ranked::<Token>(
                state::token_cells(table::ordered(node.db[5])),
            )
        },
        Route::Contracts => {
            &&& r matches Ok(Answer::Contracts(v))
            &&& rank::views(v@) == rank::ranked::<Contract>(
                state::contract_cells(table::ordered(node.db[7])),
            )
        },
        Route::GetToken => match r {
            Ok(Answer::Token(i)) => rpc::get_token_told(node, raw, Ok(i)),
            Ok(_) => false,
            Err(e) => rpc::get_token_told(node, raw, Err(e)),
        },
        Route::TokenBalance => match r {
            Ok(Answer::TokenBalance(i)) => rpc::token_balance_told(node, raw, Ok(i)),
            Ok(_) => false,
            Err(e) => rpc::token_balance_told(node, raw, Err(e)),
        },
        Route::TokenHoldings => match r {
            Ok(Answer::TokenHoldings(i)) => rpc::token_holdings_told(node, raw, Ok(i)),
            Ok(_) => false,
            Err(e) => rpc::token_holdings_told(node, raw, Err(e)),
        },
        Route::GetProof => match r {
            Ok(Answer::Proof(i)) => rpc::get_proof_told(node, raw, Ok(i)),
            Ok(_) => false,
            Err(e) => rpc::get_proof_told(node, raw, Err(e)),
        },
        Route::Account => match r {
            Ok(Answer::Account(i)) => rpc::get_account_told(node, raw, Ok(i)),
            Ok(_) => false,
            Err(e) => rpc::get_account_told(node, raw, Err(e)),
        },
        Route::BlockByNumber => match r {
            Ok(Answer::Block(i)) => rpc::block_by_number_told(node, raw, Ok(i)),
            Ok(_) => false,
            Err(e) => rpc::block_by_number_told(node, raw, Err(e)),
        },
        Route::Transaction => match r {
            Ok(Answer::Transaction(i)) => rpc::get_transaction_told(node, raw, Ok(i)),
            Ok(_) => false,
            Err(e) => rpc::get_transaction_told(node, raw, Err(e)),
        },
        Route::Contract => match r {
            Ok(Answer::Contract(i)) => rpc::get_contract_told(node, raw, Ok(i)),
            Ok(_) => false,
            Err(e) => rpc::get_contract_told(node, raw, Err(e)),
        },
        Route::ContractStorage => match r {
            Ok(Answer::Storage(i)) => rpc::contract_storage_told(node, raw, Ok(i)),
            Ok(_) => false,
            Err(e) => rpc::contract_storage_told(node, raw, Err(e)),
        },
        Route::Receipt => match r {
            Ok(Answer::Receipt(i)) => rpc::get_receipt_told(node, raw, Ok(i)),
            Ok(_) => false,
            Err(e) => rpc::get_receipt_told(node, raw, Err(e)),
        },
        Route::Query => match r {
            Ok(Answer::Query(i)) => rpc::query_told(node, raw, Ok(i)),
            Ok(_) => false,
            Err(e) => rpc::query_told(node, raw, Err(e)),
        },
        Route::VerifyProof => match r {
            Ok(Answer::Verdict(i)) => rpc::verify_proof_told(raw, Ok(i)),
            Ok(_) => false,
            Err(e) => rpc::verify_proof_told(raw, Err(e)),
        },
        Route::SignatureStatuses => match r {
            Ok(Answer::Statuses(v, h)) => {
                &&& rpc::signature_statuses_told(node, raw, Ok(v))
                &&& h == state::finalized_of(node.db)
            },
            Ok(_) => false,
            Err(e) => rpc::signature_statuses_told(node, raw, Err(e)),
        },
        Route::SimulateTransaction => match body.tx {
            Ok(tx) => {
                &&& r matches Ok(Answer::Preflight(p))
                &&& p@ == simulate::verdict(node, tx@)
            },
            Err(e) => fails(r, e@),
        },
        Route::PreviewSlash => if !json::json_present(raw, "/params/evidence"@) {
            fails(r, "missing evidence"@)
        } else {
            match body.evidence {
                Ok(v) => match r {
                    Ok(Answer::Preview(i)) => rpc::preview_slash_told(node, v@, Ok(i)),
                    Ok(_) => false,
                    Err(e) => rpc::preview_slash_told(node, v@, Err(e)),
                },
                Err(e) => fails(r, e@),
            }
        },
        Route::NetInfo => {
            &&& r matches Ok(Answer::Net(i))
            &&& rpc::net_info_told(net, caller.tier, now, i)
        },
        Route::RpcLimits => {
            &&& r matches Ok(Answer::Limits(i))
            &&& rpc::rpc_limits_told(node, cfg, cfg_after, caller.tier, raw, now, i)
        },
        Route::SendTransaction => match body.tx {
            Ok(tx) => match r {
                Ok(Answer::Sent(i)) => rpc::send_transaction_told(node, after, tx@, Ok(i)),
                Ok(_) => false,
                Err(e) => rpc::send_transaction_told(node, after, tx@, Err(e)),
            },
            Err(e) => fails(r, e@) && after == node,
        },
        Route::SendTransactions => match rpc::items_of(raw, "inaz_sendTransactions"@) {
            None => fails(r, "missing txs array"@) && after == node,
            Some(size) => match r {
                Ok(Answer::Bulk(i, queued)) => {
                    &&& bulk_told(node, after, body.batch, size, Ok(i))
                    &&& queued == after.pool.len()
                },
                Ok(_) => false,
                Err(e) => bulk_told(node, after, body.batch, size, Err(e)),
            },
        },
        Route::ReportEquivocation => if !json::json_present(raw, "/params/evidence"@) {
            fails(r, "missing evidence"@) && after == node
        } else {
            match body.evidence {
                Ok(v) => match r {
                    Ok(Answer::Report(i)) => rpc::report_equivocation_told(
                        node,
                        after,
                        v@,
                        Ok(i),
                    ),
                    Ok(_) => false,
                    Err(e) => rpc::report_equivocation_told(node, after, v@, Err(e)),
                },
                Err(e) => fails(r, e@) && after == node,
            }
        },
    }
}


/// Answers a call. The body is what its method needs besides the plain values that the
/// raw request holds.
pub fn answer(
    node: &mut Node,
    cfg: &mut RpcConfig,
    net: Option<&P2p>,
    caller: &Caller,
    raw: &[u8],
    route: Route,
    body: Body,
) -> (r: Result<Answer, String>)
    requires
        old(node).wf(),
        old(cfg).wf(),
        net is Some ==> net->Some_0.book.wf(),
        body.batch.wf(),
    ensures
        final(node).wf(),
        final(cfg).wf(),
        state::follows(old(node).store, final(node).store),
        answered(
            old(node)@,
            old(cfg)@,
            net,
            *caller,
            raw@,
            route,
            body,
            final(node)@,
            final(cfg)@,
            r,
        ),
{
    let now = caller.now;
    match route {
        Route::ChainInfo => Ok(Answer::ChainInfo(rpc::chain_info(&*node, now as u128))),
        Route::FeeMarket => Ok(Answer::FeeMarket(rpc::fee_market(&*node))),
        Route::StateRoot => Ok(Answer::StateRoots(rpc::state_roots(&*node))),
        Route::Finality => Ok(Answer::Finality(rpc::finality(&*node, raw))),
        Route::Validators => Ok(Answer::Validators(rpc::validators_info(&*node, now as u128))),
        Route::Slashing => Ok(Answer::Slashing(rpc::slashing_info(&*node, raw))),
        Route::LatestBlocks => Ok(Answer::Blocks(rpc::latest_blocks(&*node, raw))),
        Route::PriorityFee => Ok(Answer::PriorityFee(rpc::priority_fee(&*node))),
        Route::NodeStatus => Ok(
            Answer::NodeStatus(rpc::node_status(&*node, caller.peers, now as u128)),
        ),
        Route::BlockNumber => Ok(Answer::BlockNumber(node.store.tip_height().unwrap_or(0))),
        Route::FinalizedBlockNumber => Ok(
            Answer::FinalizedBlockNumber(node.store.finalized_height()),
        ),
        Route::Tokens => Ok(Answer::Tokens(node.store.tokens())),
        Route::Contracts => Ok(Answer::Contracts(node.store.contracts())),
        Route::GetToken => match rpc::get_token(&*node, raw) {
            Ok(i) => Ok(Answer::Token(i)),
            Err(e) => Err(e),
        },
        Route::TokenBalance => match rpc::token_balance(&*node, raw) {
            Ok(i) => Ok(Answer::TokenBalance(i)),
            Err(e) => Err(e),
        },
        Route::TokenHoldings => match rpc::token_holdings(&*node, raw) {
            Ok(i) => Ok(Answer::TokenHoldings(i)),
            Err(e) => Err(e),
        },
        Route::GetProof => match rpc::get_proof(&*node, raw) {
            Ok(i) => Ok(Answer::Proof(i)),
            Err(e) => Err(e),
        },
        Route::Account => match rpc::get_account(&*node, raw) {
            Ok(i) => Ok(Answer::Account(i)),
            Err(e) => Err(e),
        },
        Route::BlockByNumber => match rpc::block_by_number(&*node, raw) {
            Ok(i) => Ok(Answer::Block(i)),
            Err(e) => Err(e),
        },
        Route::Transaction => match rpc::get_transaction(&*node, raw) {
            Ok(i) => Ok(Answer::Transaction(i)),
            Err(e) => Err(e),
        },
        Route::Contract => match rpc::get_contract(&*node, raw) {
            Ok(i) => Ok(Answer::Contract(i)),
            Err(e) => Err(e),
        },
        Route::ContractStorage => match rpc::contract_storage(&*node, raw) {
            Ok(i) => Ok(Answer::Storage(i)),
            Err(e) => Err(e),
        },
        Route::Receipt => match rpc::get_receipt(&*node, raw) {
            Ok(i) => Ok(Answer::Receipt(i)),
            Err(e) => Err(e),
        },
        Route::Query => match rpc::query(&*node, raw) {
            Ok(i) => Ok(Answer::Query(i)),
            Err(e) => Err(e),
        },
        Route::VerifyProof => match rpc::verify_proof(raw) {
            Ok(i) => Ok(Answer::Verdict(i)),
            Err(e) => Err(e),
        },
        Route::SignatureStatuses => match rpc::signature_statuses(&*node, raw) {
            Ok(v) => Ok(Answer::Statuses(v, node.store.finalized_height())),
            Err(e) => Err(e),
        },
        Route::SimulateTransaction => match body.tx {
            Ok(tx) => Ok(Answer::Preflight(simulate::preflight(&*node, &tx))),
            Err(e) => Err(e),
        },
        Route::PreviewSlash => {
            if !json::present_at(raw, "/params/evidence") {
                return Err(text::copy("missing evidence"));
            }
            match body.evidence {
                Ok(v) => match rpc::preview_slash(&*node, &v) {
                    Ok(i) => Ok(Answer::Preview(i)),
                    Err(e) => Err(e),
                },
                Err(e) => Err(e),
            }
        },
        Route::NetInfo => Ok(Answer::Net(rpc::net_info(net, caller.tier, now))),
        Route::RpcLimits => Ok(
            Answer::Limits(rpc::rpc_limits(&*node, cfg, caller.tier, raw, now)),
        ),
        Route::SendTransaction => match body.tx {
            Ok(tx) => match rpc::send_transaction(node, tx) {
                Ok(i) => Ok(Answer::Sent(i)),
                Err(e) => Err(e),
            },
            Err(e) => Err(e),
        },
        Route::SendTransactions => match rpc::read_items(raw, "inaz_sendTransactions") {
            None => Err(text::copy("missing txs array")),
            Some(size) => {
                let b = body.batch;
                match rpc::send_transactions(node, b.txs, &b.places, b.unread, size) {
                    Ok(i) => Ok(Answer::Bulk(i, node.mempool_size())),
                    Err(e) => Err(e),
                }
            },
        },
        Route::ReportEquivocation => {
            if !json::present_at(raw, "/params/evidence") {
                return Err(text::copy("missing evidence"));
            }
            match body.evidence {
                Ok(v) => match rpc::report_equivocation(node, &v) {
                    Ok(i) => Ok(Answer::Report(i)),
                    Err(e) => Err(e),
                },
                Err(e) => Err(e),
            }
        },
    }
}

} // verus!
