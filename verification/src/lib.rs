//! Inazuma: the verified core of a proof-of-stake blockchain node.
//!
//! Every module states what it computes in `requires` / `ensures` contracts over
//! mathematical models (sequences, maps, naturals) and proves it with Verus.

use vstd::prelude::*;

pub mod adoption;
pub mod answers;
pub mod apply;
pub mod byzantine;
pub mod chain;
pub mod cli;
pub mod commit;
pub mod consensus;
pub mod conserve;
pub mod contracts;
pub mod crypto;
pub mod deeds;
pub mod desk;
pub mod duties;
pub mod events;
pub mod fees;
pub mod gates;
pub mod guests;
pub mod http;
pub mod journal;
pub mod json;
pub mod justice;
pub mod ledger;
pub mod limits;
pub mod log;
pub mod mempool;
pub mod mirror;
pub mod metrics;
pub mod p2p;
pub mod poseidon;
pub mod prune;
pub mod qos;
pub mod rank;
pub mod readings;
pub mod replicate;
pub mod rpc;
pub mod rpcauth;
pub mod shielded;
pub mod shielded_circuit;
pub mod signing;
pub mod signguard;
pub mod simulate;
pub mod slashing;
pub mod smt;
pub mod snapshot;
pub mod staking;
pub mod stakes;
pub mod state;
pub mod supply;
pub mod table;
pub mod text;
pub mod tokens;
pub mod transport;
pub mod treasury;
pub mod types;
pub mod ui;
pub mod words;
pub mod ws;

verus! {

/// Blocks of history a pruning node keeps behind the finalized height.
/// About two days at 400 ms blocks: enough for peers to catch up, small on disk.
pub const DEFAULT_PRUNE_KEEP: u64 = 400_000;

} // verus!
