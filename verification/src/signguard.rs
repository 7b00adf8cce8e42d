//! Double-sign guard.
//!
//! A validator key must never sign two different blocks at the same height. The guard
//! remembers the highest height a key has signed. Its file stands beside the data
//! directory, so wiping the database or restoring a snapshot does not erase it.

use crate::chain;
use crate::chain::Node;
use crate::chain::NodeV;
use crate::staking;
use crate::state;
use crate::text;
use crate::types;
use crate::types::Block;
use crate::types::BlockV;
use crate::words;
use vstd::prelude::*;
use vstd::string::*;

verus! {

/// The guard of a key.
pub struct SignGuard {
    pub address: String,
    pub highest: u64,
}

/// The path of the guard file of a data directory.
pub open spec fn path_of(data: Seq<char>) -> Seq<char> {
    words::end_stripped(data, '/') + ".signguard"@
}

/// The path of the guard file of a data directory.
pub fn guard_path(data: &str) -> (r: String)
    ensures
        r@ == path_of(data@),
{
    let mut p = words::strip_end(data, '/');
    p.append(".signguard");
    p
}

/// What a guard file says an address has signed: `<address> <height>`. A file of
/// another key says nothing.
pub open spec fn parsed(raw: Seq<char>, address: Seq<char>) -> Option<u64> {
    let w = words::words(raw);
    if w.len() < 2 {
        None
    } else {
        match text::parsed_upto(w[1], u64::MAX as nat) {
            None => None,
            Some(h) => if w[0] == address {
                Some(h as u64)
            } else {
                None
            },
        }
    }
}

/// Reads a guard file.
pub fn parse(raw: &str, address: &str) -> (r: Option<u64>)
    ensures
        r == parsed(raw@, address@),
{
    let w = words::split_words(raw);
    let ghost ws = types::texts(w@);
    if w.len() < 2 {
        return None;
    }
    proof {
        assert(ws[0] == w@[0]@ && ws[1] == w@[1]@);
    }
    match text::parse_u64(w[1].as_str()) {
        None => None,
        Some(h) => {
            if text::same(w[0].as_str(), address) {
                Some(h)
            } else {
                None
            }
        },
    }
}

/// What is written to a guard file.
pub open spec fn body_of(address: Seq<char>, height: u64) -> Seq<char> {
    address + " "@ + text::dec(height as nat) + "\n"@
}

impl SignGuard {
    /// The guard of an address, from what its file holds, if there is one.
    pub fn open(raw: Option<&str>, address: &str) -> (r: SignGuard)
        ensures
            r.address@ == address@,
            r.highest == match raw {
                Some(t) => match parsed(t@, address@) {
                    Some(h) => h,
                    None => 0,
                },
                None => 0,
            },
    {
        let highest: u64 = match raw {
            Some(t) => match parse(t, address) {
                Some(h) => h,
                None => 0,
            },
            None => 0,
        };
        SignGuard { address: text::copy(address), highest }
    }

    /// The highest height signed.
    pub fn highest_signed(&self) -> (r: u64)
        ensures
            r == self.highest,
    {
        self.highest
    }

    /// Whether the key may sign a height: at or below the highest height signed it
    /// would equivocate.
    pub fn may_sign(&self, height: u64) -> (r: bool)
        ensures
            r == (height > self.highest),
    {
        height > self.highest
    }

    /// Records a height as signed. What has to be written to the file before the block
    /// leaves the node, when anything changed.
    pub fn record(&mut self, height: u64) -> (r: Option<String>)
        ensures
            final(self).address@ == old(self).address@,
            final(self).highest == if height > old(self).highest {
                height
            } else {
                old(self).highest
            },
            match r {
                Some(t) => height > old(self).highest && t@ == body_of(old(self).address@, height),
                None => height <= old(self).highest,
            },
    {
        if height <= self.highest {
            return None;
        }
        self.highest = height;
        let mut b = self.address.clone();
        b.append(" ");
        text::push_dec(&mut b, height as u128);
        b.append("\n");
        Some(b)
    }
}

/// Outcome of a production slot of a node.
#[verifier::opaque]
pub open spec fn slot_of(n: NodeV, now: u128) -> (Result<Option<BlockV>, Seq<char>>, NodeV) {
    chain::produced(n, now)
}

/// A sealed block is the next one.
proof fn lemma_slot_height(n: NodeV, now: u128)
    requires
        slot_of(n, now).0 matches Ok(Some(_)),
    ensures
        (slot_of(n, now).0->Ok_0)->Some_0.height == staking::next_height(n.db),
{
    reveal(slot_of);
}

/// Seals the next block under a guard: never at or below a height the key has signed.
/// What has to be written to the guard's file comes with the block.
pub fn seal_guarded(node: &mut Node, guard: &mut SignGuard, now: u128) -> (r: Result<
    Option<(Block, String)>,
    String,
>)
    requires
        old(node).wf(),
    ensures
        final(node).wf(),
        state::follows(old(node).store, final(node).store),
        final(guard).address@ == old(guard).address@,
        ({
            let h = staking::next_height(old(node)@.db);
            if h <= old(guard).highest {
                &&& r == Ok::<Option<(Block, String)>, String>(None)
                &&& final(node)@ == old(node)@
                &&& final(guard).highest == old(guard).highest
            } else {
                let (s, m) = slot_of(old(node)@, now);
                &&& final(node)@ == m
                &&& match r {
                    Ok(Some(p)) => {
                        &&& s == Ok::<Option<BlockV>, Seq<char>>(Some(p.0@))
                        &&& p.0@.height == h
                        &&& p.1@ == body_of(old(guard).address@, h)
                        &&& final(guard).highest == h
                    },
                    Ok(None) => s == Ok::<Option<BlockV>, Seq<char>>(None) && final(guard).highest
                        == old(guard).highest,
                    Err(e) => s == Err::<Option<BlockV>, Seq<char>>(e@) && final(guard).highest
                        == old(guard).highest,
                }
            }
        }),
{
    let ghost n = node@;
    let height = staking::upcoming(&node.store);
    if !guard.may_sign(height) {
        return Ok(None);
    }
    let sealed = node.produce_block_at(now);
    proof {
        reveal(slot_of);
    }
    match sealed {
        Ok(Some(b)) => {
            proof {
                lemma_slot_height(n, now);
            }
            match guard.record(b.height) {
                Some(body) => Ok(Some((b, body))),
                None => Ok(None),
            }
        },
        Ok(None) => Ok(None),
        Err(e) => Err(e),
    }
}

/// A guard file keeps its memory: what was written for a height is read back as that
/// height by the same address, and says nothing of another.
pub proof fn law_guard_survives_a_restart(address: Seq<char>, height: u64, other: Seq<char>)
    requires
        address.len() > 0,
        forall|i: int| 0 <= i < address.len() ==> !text::is_space(#[trigger] address[i]),
    ensures
        parsed(body_of(address, height), other) == if other == address {
            Some(height)
        } else {
            None
        },
{
    let d = text::dec(height as nat);
    text::lemma_dec_digits(height as nat);
    text::lemma_parsed_dec(height as nat);
    reveal_strlit(" ");
    reveal_strlit("\n");
    let none: Seq<char> = Seq::empty();
    let a = words::pieces(address, None);
    words::lemma_pieces_continue(none, address, None);
    assert(none + address =~= address);
    assert(none + address == address);
    assert(words::pieces(none, None) =~= seq![none]);
    assert(a =~= seq![address]);
    let s1 = address + " "@;
    assert(s1.drop_last() =~= address);
    assert(s1.last() == ' ');
    let p1 = words::pieces(s1, None);
    assert(p1 =~= seq![address, none]);
    assert forall|i: int| 0 <= i < d.len() implies !words::cuts(None, #[trigger] d[i]) by {
        assert(text::is_digit(d[i]));
    }
    words::lemma_pieces_continue(s1, d, None);
    let s2 = s1 + d;
    let p2 = words::pieces(s2, None);
    assert(none + d =~= d);
    assert(p2 =~= seq![address, d]);
    let s3 = s2 + "\n"@;
    assert(s3.drop_last() =~= s2);
    assert(s3.last() == '\n');
    let p3 = words::pieces(s3, None);
    assert(p3 =~= seq![address, d, none]);
    assert(body_of(address, height) =~= s3);
    reveal_with_fuel(words::filled, 4);
    assert(p3.drop_last() =~= p2);
    assert(p2.drop_last() =~= seq![address]);
    assert(seq![address].drop_last() =~= Seq::<Seq<char>>::empty());
    assert(words::filled(p3) =~= seq![address, d]);
}

} // verus!
