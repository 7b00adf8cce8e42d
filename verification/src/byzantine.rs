//! Misbehaviour for the adversarial harness: what a faulty validator sends beside the
//! block it sealed. All of it is a slashable offence by design, and none of it runs in
//! an operator's node.

use crate::chain;
use crate::crypto;
use crate::crypto::Keypair;
use crate::journal::Db;
use crate::state;
use crate::text;
use crate::types;
use crate::types::Block;
use crate::types::BlockV;
use vstd::prelude::*;
use vstd::string::*;

verus! {

/// The ways to misbehave.
#[derive(Clone, Copy, PartialEq, Eq, Structural, Debug)]
pub enum Mode {
    /// A second block at the same height that differs in its time only.
    DoubleSign,
    /// A second block that carries other transactions too.
    Equivocate,
    /// A second block whose state root is garbage.
    Invalid,
    /// No finality votes.
    Withhold,
}

/// The misbehaviour a setting stands for. Whatever is not known is honest.
pub open spec fn mode_of(setting: Seq<char>) -> Option<Mode> {
    let s = text::trimmed(setting);
    if s == "double-sign"@ || s == "doublesign"@ {
        Some(Mode::DoubleSign)
    } else if s == "equivocate"@ {
        Some(Mode::Equivocate)
    } else if s == "invalid"@ || s == "propose-invalid"@ {
        Some(Mode::Invalid)
    } else if s == "withhold"@ || s == "withhold-vote"@ {
        Some(Mode::Withhold)
    } else {
        None
    }
}

/// Reads a setting; without one a validator is honest.
pub fn mode(setting: Option<&str>) -> (r: Option<Mode>)
    ensures
        r == match setting {
            Some(s) => mode_of(s@),
            None => None,
        },
{
    let s = match setting {
        Some(s) => text::trim(s),
        None => {
            return None;
        },
    };
    let t = s.as_str();
    if text::same(t, "double-sign") || text::same(t, "doublesign") {
        Some(Mode::DoubleSign)
    } else if text::same(t, "equivocate") {
        Some(Mode::Equivocate)
    } else if text::same(t, "invalid") || text::same(t, "propose-invalid") {
        Some(Mode::Invalid)
    } else if text::same(t, "withhold") || text::same(t, "withhold-vote") {
        Some(Mode::Withhold)
    } else {
        None
    }
}

/// Whether a validator casts its finality votes: all do but the one that withholds them.
pub fn should_vote(mode: Option<Mode>) -> (r: bool)
    ensures
        r == (mode != Some(Mode::Withhold)),
{
    match mode {
        Some(Mode::Withhold) => false,
        _ => true,
    }
}

/// A state root that no state has.
pub const GARBAGE_ROOT: &'static str =
    "dededededededededededededededededededededededededededededededede";

/// The transactions without the last of them.
pub open spec fn shortened(b: BlockV) -> BlockV {
    let left = if b.transactions.len() > 0 {
        b.transactions.drop_last()
    } else {
        b.transactions
    };
    BlockV { transactions: left, txs_root: types::txs_root_of(left), ..b }
}

/// What a mode makes of an honest block, before it is signed again. The time differs in
/// every one of them, so the headers do too.
pub open spec fn twisted(mode: Mode, b: BlockV) -> Option<BlockV> {
    let later = BlockV { timestamp_ms: (b.timestamp_ms + 1) as u128, ..b };
    match mode {
        Mode::Withhold => None,
        Mode::DoubleSign => Some(later),
        Mode::Equivocate => Some(shortened(later)),
        Mode::Invalid => Some(BlockV { state_root: GARBAGE_ROOT@, ..later }),
    }
}

/// The block a validator sends beside the honest one, signed with its key.
pub open spec fn forged(mode: Option<Mode>, seed: Seq<u8>, honest: BlockV) -> Option<BlockV> {
    match mode {
        None => None,
        Some(m) => match twisted(m, honest) {
            None => None,
            Some(b) => Some(chain::sealed_with(seed, b)),
        },
    }
}

/// Signs a changed header again and hashes it. Without this a forgery would be dropped
/// as unsigned and nobody would be punished for it.
fn reseal(key: &Keypair, b: Block) -> (r: Block)
    ensures
        r@ == chain::sealed_with(key.seed@, b@),
        b@.producer_pubkey == crypto::hex_text(key.public())
            && crypto::address_of_hex(b@.producer_pubkey) == Some(b@.producer)
            ==> r@.produced(),
{
    let mut b = b;
    let ghost b0 = b@;
    let header = b.header_bytes();
    b.signature = key.sign_hex(header.as_slice());
    let ghost b1 = b@;
    b.hash = b.compute_hash();
    proof {
        let sig = crypto::hex_text(
            crypto::ed25519_signature(key.seed@, text::utf8(b0.header_text())),
        );
        assert(b1 =~= BlockV { signature: sig, ..b0 });
        assert(b@ =~= BlockV { hash: b1.hash_text(), ..b1 });
        assert(b@.header_text() =~= b0.header_text());
        assert(b@.hash_text() == b1.hash_text());
    }
    b
}

/// What a validator sends right after the block it sealed. A forgery with the producer's
/// own key is properly signed.
pub fn after_seal(mode: Option<Mode>, key: &Keypair, honest: &Block) -> (r: Option<Block>)
    requires
        honest.timestamp_ms < u128::MAX,
    ensures
        chain::block_view(r) == forged(mode, key.seed@, honest@),
        r is Some && honest@.producer_pubkey == crypto::hex_text(key.public())
            && crypto::address_of_hex(honest@.producer_pubkey) == Some(honest@.producer)
            ==> r->Some_0@.produced(),
{
    let m = match mode {
        Some(m) => m,
        None => {
            return None;
        },
    };
    let mut evil = honest.clone();
    evil.timestamp_ms = honest.timestamp_ms + 1;
    let ghost later = evil@;
    assert(later =~= BlockV { timestamp_ms: (honest@.timestamp_ms + 1) as u128, ..honest@ });
    match m {
        Mode::Withhold => {
            return None;
        },
        Mode::DoubleSign => {},
        Mode::Equivocate => {
            let ghost all = evil.transactions@;
            if evil.transactions.len() > 0 {
                evil.transactions.pop();
            }
            evil.txs_root = types::txs_root(&evil.transactions);
            proof {
                if all.len() > 0 {
                    assert(types::txs_view(all.drop_last()) =~= types::txs_view(all).drop_last());
                }
                assert(evil@ =~= shortened(later));
            }
        },
        Mode::Invalid => {
            evil.state_root = text::copy(GARBAGE_ROOT);
            assert(evil@ =~= BlockV { state_root: GARBAGE_ROOT@, ..later });
        },
    }
    Some(reseal(key, evil))
}

/// Whatever is forged is caught: a node that holds the honest block and is sent the
/// forged one has proof against its signer, unless both happen to hash alike.
pub proof fn law_forgery_is_caught(db: Db, mode: Mode, seed: Seq<u8>, honest: BlockV)
    requires
        honest.height > 0,
        honest.timestamp_ms < u128::MAX,
        honest.produced(),
        state::block_of(db, honest.height as nat) == Some(honest),
        forged(Some(mode), seed, honest) matches Some(b) && b.produced() && b.hash != honest.hash,
    ensures
        ({
            let b = forged(Some(mode), seed, honest)->Some_0;
            &&& chain::double_sign(db, b) is Some
            &&& chain::double_sign(db, b)->Some_0.verdict() == Ok::<Seq<char>, Seq<char>>(
                honest.producer,
            )
        }),
{
    let b = forged(Some(mode), seed, honest)->Some_0;
    chain::law_double_sign_is_caught(db, honest, b);
}

} // verus!
