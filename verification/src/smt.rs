//! Sparse Merkle tree over consensus state.
//!
//! Every piece of consensus state is a leaf keyed by `sha256(domain|key)`. A write
//! rebuilds one path of `DEPTH` hashes, and a proof for one leaf is its siblings.
//!
//! A position in the tree is a sequence of bits, the root being the empty one. The
//! nodes are kept in a table; a missing node is the root of an empty subtree.

use crate::crypto;
use crate::journal;
use crate::journal::Cell;
use crate::journal::CellV;
use crate::journal::Rows;
use crate::ledger;
use crate::ledger::Ledger;
use crate::text;
use crate::types;
use vstd::prelude::*;
use vstd::string::*;

verus! {

/// Bits of a leaf key that make up its path.
pub const DEPTH: usize = 128;

// ---------------------------------------------------------------- hashes

/// Hash of two children.
pub open spec fn pair(left: Seq<u8>, right: Seq<u8>) -> Seq<u8> {
    crypto::sha256_of(left + right)
}

/// Thirty-two zero bytes.
pub open spec fn zero32() -> Seq<u8> {
    Seq::new(32, |i: int| 0u8)
}

/// Hash of an empty subtree at a depth.
pub open spec fn empty_hash(depth: nat) -> Seq<u8>
    decreases 128 - depth,
{
    if depth >= 128 {
        zero32()
    } else {
        pair(empty_hash(depth + 1), empty_hash(depth + 1))
    }
}

/// Hash of two children.
fn parent(left: &[u8; 32], right: &[u8; 32]) -> (r: [u8; 32])
    ensures
        r@ == pair(left@, right@),
{
    let mut buf = text::copy_bytes(left);
    text::push_bytes(&mut buf, right);
    crypto::sha256(buf.as_slice())
}

/// Hash of an empty subtree at a depth.
pub fn empty_at(depth: usize) -> (r: [u8; 32])
    requires
        depth <= DEPTH,
    ensures
        r@ == empty_hash(depth as nat),
    decreases DEPTH - depth,
{
    if depth == DEPTH {
        let z: [u8; 32] = [0u8; 32];
        assert(z@ =~= zero32());
        z
    } else {
        let e = empty_at(depth + 1);
        parent(&e, &e)
    }
}

/// The hashes of empty subtrees at every depth, the leaf level first.
fn empties() -> (r: Vec<[u8; 32]>)
    ensures
        r@.len() == 129,
        forall|i: int| 0 <= i <= 128 ==> (#[trigger] r@[i])@ == empty_hash((128 - i) as nat),
{
    let mut out: Vec<[u8; 32]> = Vec::new();
    out.push(empty_at(128));
    let mut i: usize = 0;
    while i < 128
        invariant
            i <= 128,
            out@.len() == i + 1,
            forall|j: int| 0 <= j <= i ==> (#[trigger] out@[j])@ == empty_hash((128 - j) as nat),
        decreases 128 - i,
    {
        let e = out[i];
        out.push(parent(&e, &e));
        i = i + 1;
    }
    out
}

/// Key of a leaf: the hash whose first bits are its path.
pub open spec fn leaf_key_of(domain: Seq<char>, key: Seq<u8>) -> Seq<u8> {
    crypto::sha256_of(text::utf8(domain) + seq![124u8] + key)
}

/// Key of a leaf.
pub fn leaf_key(domain: &str, key: &[u8]) -> (r: [u8; 32])
    ensures
        r@ == leaf_key_of(domain@, key@),
{
    let mut buf = text::bytes_of(domain);
    buf.push(124);
    text::push_bytes(&mut buf, key);
    assert(buf@ =~= text::utf8(domain@) + seq![124u8] + key@);
    crypto::sha256(buf.as_slice())
}

/// Hash stored at a leaf: an absent value collapses to the empty hash, so removing a
/// key leaves the same root as never having written it.
pub open spec fn leaf_hash_of(key: Seq<u8>, value: Option<Seq<u8>>) -> Seq<u8> {
    match value {
        None => empty_hash(128),
        Some(v) => crypto::sha256_of(text::utf8("inzleaf|"@) + key + seq![124u8] + v),
    }
}

/// Model of an optional byte string.
pub open spec fn bytes_view(v: Option<&[u8]>) -> Option<Seq<u8>> {
    match v {
        Some(b) => Some(b@),
        None => None,
    }
}

/// Hash stored at a leaf.
pub fn leaf_hash(key: &[u8; 32], value: Option<&[u8]>) -> (r: [u8; 32])
    ensures
        r@ == leaf_hash_of(key@, bytes_view(value)),
{
    match value {
        None => empty_at(DEPTH),
        Some(v) => {
            let mut buf = text::bytes_of("inzleaf|");
            text::push_bytes(&mut buf, key);
            buf.push(124);
            text::push_bytes(&mut buf, v);
            assert(buf@ =~= text::utf8("inzleaf|"@) + key@ + seq![124u8] + v@);
            crypto::sha256(buf.as_slice())
        },
    }
}

// ---------------------------------------------------------------- positions

/// Weight of a bit in its byte, the first bit being the heaviest.
pub open spec fn weight(i: int) -> int {
    if i == 0 {
        128
    } else if i == 1 {
        64
    } else if i == 2 {
        32
    } else if i == 3 {
        16
    } else if i == 4 {
        8
    } else if i == 5 {
        4
    } else if i == 6 {
        2
    } else {
        1
    }
}

/// A bit of a byte string, the first bit of the first byte being number zero.
pub open spec fn bit_at(b: Seq<u8>, i: int) -> bool {
    (b[i / 8] as int / weight(i % 8)) % 2 == 1
}

/// The path of a leaf: the first `DEPTH` bits of its key.
pub open spec fn path_bits(key: Seq<u8>) -> Seq<bool> {
    Seq::new(128, |i: int| bit_at(key, i))
}

/// Eight bits as a byte, the first being the heaviest.
pub open spec fn byte_of(s: Seq<bool>, at: int) -> u8 {
    ((if s[at] {
        128int
    } else {
        0
    }) + (if s[at + 1] {
        64int
    } else {
        0
    }) + (if s[at + 2] {
        32int
    } else {
        0
    }) + (if s[at + 3] {
        16int
    } else {
        0
    }) + (if s[at + 4] {
        8int
    } else {
        0
    }) + (if s[at + 5] {
        4int
    } else {
        0
    }) + (if s[at + 6] {
        2int
    } else {
        0
    }) + (if s[at + 7] {
        1int
    } else {
        0
    })) as u8
}

/// A position followed by zeros, to full length.
pub open spec fn padded(p: Seq<bool>) -> Seq<bool> {
    Seq::new(128, |i: int| i < p.len() && p[i])
}

/// Sixteen bytes of 128 bits.
pub open spec fn packed(s: Seq<bool>) -> Seq<u8> {
    Seq::new(16, |j: int| byte_of(s, 8 * j))
}

/// Key of a node: its depth, then its position padded with zeros.
pub open spec fn node_key(p: Seq<bool>) -> Seq<u8> {
    seq![p.len() as u8] + packed(padded(p))
}

/// The other child of the same parent.
pub open spec fn sibling(p: Seq<bool>) -> Seq<bool> {
    p.drop_last().push(!p.last())
}

proof fn lemma_byte_injective(s: Seq<bool>, t: Seq<bool>, at: int)
    requires
        byte_of(s, at) == byte_of(t, at),
    ensures
        forall|k: int| at <= k < at + 8 ==> s[k] == t[k],
{
    assert(s[at] == t[at]);
    assert(s[at + 1] == t[at + 1]);
    assert(s[at + 2] == t[at + 2]);
    assert(s[at + 3] == t[at + 3]);
    assert(s[at + 4] == t[at + 4]);
    assert(s[at + 5] == t[at + 5]);
    assert(s[at + 6] == t[at + 6]);
    assert(s[at + 7] == t[at + 7]);
    assert forall|k: int| at <= k < at + 8 implies s[k] == t[k] by {
        let d = k - at;
        assert(d == 0 || d == 1 || d == 2 || d == 3 || d == 4 || d == 5 || d == 6 || d == 7);
    }
}

/// Different positions have different keys.
pub proof fn lemma_node_key_injective(p: Seq<bool>, q: Seq<bool>)
    requires
        p.len() <= 128,
        q.len() <= 128,
        node_key(p) == node_key(q),
    ensures
        p == q,
{
    assert(node_key(p)[0] == p.len() as u8);
    assert(node_key(q)[0] == q.len() as u8);
    assert(node_key(p).skip(1) =~= packed(padded(p)));
    assert(node_key(q).skip(1) =~= packed(padded(q)));
    assert forall|i: int| 0 <= i < p.len() implies p[i] == q[i] by {
        let j = i / 8;
        assert(packed(padded(p))[j] == byte_of(padded(p), 8 * j));
        assert(packed(padded(q))[j] == byte_of(padded(q), 8 * j));
        lemma_byte_injective(padded(p), padded(q), 8 * j);
        assert(padded(p)[i] == padded(q)[i]);
    }
    assert(p =~= q);
}

/// One bit of a byte string.
fn bit_exec(b: &[u8], i: usize) -> (r: bool)
    requires
        i < 8 * b@.len(),
    ensures
        r == bit_at(b@, i as int),
{
    let v = b[i / 8];
    let w: u8 = match i % 8 {
        0 => 128,
        1 => 64,
        2 => 32,
        3 => 16,
        4 => 8,
        5 => 4,
        6 => 2,
        _ => 1,
    };
    (v / w) % 2 == 1
}

/// The path of a leaf.
fn path_of(key: &[u8; 32]) -> (r: Vec<bool>)
    ensures
        r@ == path_bits(key@),
{
    let mut out: Vec<bool> = Vec::new();
    let mut i: usize = 0;
    while i < 128
        invariant
            i <= 128,
            out@ == path_bits(key@).take(i as int),
        decreases 128 - i,
    {
        out.push(bit_exec(key, i));
        i = i + 1;
        assert(out@ =~= path_bits(key@).take(i as int));
    }
    assert(path_bits(key@).take(128) =~= path_bits(key@));
    out
}

/// The position made of the first `depth` bits of a path, or of its sibling.
pub open spec fn position(path: Seq<bool>, depth: int, flip: bool) -> Seq<bool> {
    if flip {
        sibling(path.take(depth))
    } else {
        path.take(depth)
    }
}

pub fn weigh(b: bool, w: u8) -> (r: u8)
    ensures
        r == if b {
            w
        } else {
            0
        },
{
    if b {
        w
    } else {
        0
    }
}

/// Bit `i` of a position, zero past its end.
fn pos_bit(path: &Vec<bool>, depth: usize, flip: bool, i: usize) -> (r: bool)
    requires
        path@.len() == 128,
        depth <= 128,
        flip ==> depth > 0,
        i < 128,
    ensures
        r == padded(position(path@, depth as int, flip))[i as int],
{
    if i >= depth {
        false
    } else if flip && i == depth - 1 {
        !path[i]
    } else {
        path[i]
    }
}

/// Key of a node on a path or next to it.
fn node_id(path: &Vec<bool>, depth: usize, flip: bool) -> (r: Vec<u8>)
    requires
        path@.len() == 128,
        depth <= 128,
        flip ==> depth > 0,
    ensures
        r@ == node_key(position(path@, depth as int, flip)),
{
    let ghost p = position(path@, depth as int, flip);
    let mut out: Vec<u8> = Vec::new();
    out.push(depth as u8);
    let mut j: usize = 0;
    assert(out@ =~= seq![p.len() as u8] + packed(padded(p)).take(0));
    while j < 16
        invariant
            j <= 16,
            path@.len() == 128,
            depth <= 128,
            flip ==> depth > 0,
            p == position(path@, depth as int, flip),
            out@ == seq![p.len() as u8] + packed(padded(p)).take(j as int),
        decreases 16 - j,
    {
        let at: usize = 8 * j;
        let b: u8 = if at >= depth {
            proof {
                let s = padded(p);
                assert(!s[at as int] && !s[at + 1] && !s[at + 2] && !s[at + 3] && !s[at + 4]
                    && !s[at + 5] && !s[at + 6] && !s[at + 7]);
            }
            0
        } else {
            weigh(pos_bit(path, depth, flip, at), 128) + weigh(
                pos_bit(path, depth, flip, at + 1),
                64,
            ) + weigh(pos_bit(path, depth, flip, at + 2), 32) + weigh(
                pos_bit(path, depth, flip, at + 3),
                16,
            ) + weigh(pos_bit(path, depth, flip, at + 4), 8) + weigh(
                pos_bit(path, depth, flip, at + 5),
                4,
            ) + weigh(pos_bit(path, depth, flip, at + 6), 2) + weigh(
                pos_bit(path, depth, flip, at + 7),
                1,
            )
        };
        assert(b == byte_of(padded(p), 8 * j));
        out.push(b);
        j = j + 1;
        assert(out@ =~= seq![p.len() as u8] + packed(padded(p)).take(j as int));
    }
    assert(packed(padded(p)).take(16) =~= packed(padded(p)));
    out
}

// ---------------------------------------------------------------- nodes

/// The hash at a position: what the table holds, or that of an empty subtree.
pub open spec fn node(nodes: Rows, p: Seq<bool>) -> Seq<u8> {
    if nodes.contains_key(node_key(p)) {
        match nodes[node_key(p)] {
            CellV::Bytes(h) => if h.len() == 32 {
                h
            } else {
                empty_hash(p.len())
            },
            _ => empty_hash(p.len()),
        }
    } else {
        empty_hash(p.len())
    }
}

/// The table with a hash put at a position. The hash of an empty subtree is left out.
pub open spec fn with_node(nodes: Rows, p: Seq<bool>, h: Seq<u8>) -> Rows {
    if h == empty_hash(p.len()) {
        nodes.remove(node_key(p))
    } else {
        nodes.insert(node_key(p), CellV::Bytes(h))
    }
}

/// Hash of the parent of the node at `p`, when that node's hash is `h`.
pub open spec fn up(nodes: Rows, p: Seq<bool>, h: Seq<u8>) -> Seq<u8> {
    if p.last() {
        pair(node(nodes, sibling(p)), h)
    } else {
        pair(h, node(nodes, sibling(p)))
    }
}

/// The table with the nodes above position `p` rebuilt, when the hash at `p` is `h`.
pub open spec fn climbed(nodes: Rows, p: Seq<bool>, h: Seq<u8>) -> Rows
    decreases p.len(),
{
    if p.len() == 0 {
        nodes
    } else {
        let above = up(nodes, p, h);
        climbed(with_node(nodes, p.drop_last(), above), p.drop_last(), above)
    }
}

/// The table after a leaf hash is written and its path rebuilt.
pub open spec fn with_leaf(nodes: Rows, path: Seq<bool>, h: Seq<u8>) -> Rows {
    climbed(with_node(nodes, path, h), path, h)
}

/// The table after a value is written (or cleared) under a domain.
pub open spec fn smt_set(
    nodes: Rows,
    domain: Seq<char>,
    key: Seq<u8>,
    value: Option<Seq<u8>>,
) -> Rows {
    let lk = leaf_key_of(domain, key);
    with_leaf(nodes, path_bits(lk), leaf_hash_of(lk, value))
}

/// Root hash.
pub open spec fn root_of(nodes: Rows) -> Seq<u8> {
    node(nodes, Seq::empty())
}

fn as_hash(c: Option<&Cell>) -> (r: Option<[u8; 32]>)
    ensures
        match r {
            Some(h) => c matches Some(x) && x@ matches CellV::Bytes(b) && b.len() == 32 && h@ == b,
            None => !(c matches Some(x) && x@ matches CellV::Bytes(b) && b.len() == 32),
        },
{
    match c {
        Some(Cell::Bytes(b)) => {
            if b.len() == 32 {
                Some(crypto::to_array32(b))
            } else {
                None
            }
        },
        _ => None,
    }
}

fn get_node(
    ledger: &Ledger,
    t: usize,
    path: &Vec<bool>,
    depth: usize,
    flip: bool,
    empty: &[u8; 32],
) -> (r: [u8; 32])
    requires
        ledger.wf(),
        t < ledger@.db.len(),
        path@.len() == 128,
        depth <= 128,
        flip ==> depth > 0,
        empty@ == empty_hash(depth as nat),
    ensures
        r@ == node(ledger@.db[t as int], position(path@, depth as int, flip)),
{
    let id = node_id(path, depth, flip);
    match as_hash(ledger.get(t, id.as_slice())) {
        Some(h) => h,
        None => *empty,
    }
}

fn put_node(
    ledger: &mut Ledger,
    t: usize,
    path: &Vec<bool>,
    depth: usize,
    hash: &[u8; 32],
    empty: &[u8; 32],
)
    requires
        old(ledger).wf(),
        t < old(ledger)@.db.len(),
        path@.len() == 128,
        depth <= 128,
        empty@ == empty_hash(depth as nat),
    ensures
        final(ledger).wf(),
        final(ledger)@.saved == old(ledger)@.saved,
        final(ledger)@.db == old(ledger)@.db.update(
            t as int,
            with_node(old(ledger)@.db[t as int], path@.take(depth as int), hash@),
        ),
{
    let id = node_id(path, depth, false);
    if text::same_bytes(hash, empty) {
        ledger.del(t, id.as_slice());
    } else {
        ledger.put(t, id.as_slice(), Cell::Bytes(text::copy_bytes(hash)));
    }
}

/// Writes (or clears) one leaf and rebuilds the path to the root.
pub fn set_leaf(ledger: &mut Ledger, t: usize, domain: &str, key: &[u8], value: Option<&[u8]>)
    requires
        old(ledger).wf(),
        t < old(ledger)@.db.len(),
    ensures
        final(ledger).wf(),
        final(ledger)@.saved == old(ledger)@.saved,
        final(ledger)@.db == old(ledger)@.db.update(
            t as int,
            smt_set(old(ledger)@.db[t as int], domain@, key@, bytes_view(value)),
        ),
{
    let ghost db0 = ledger@.db;
    let lk = leaf_key(domain, key);
    let path = path_of(&lk);
    let empty = empties();
    let mut cur = leaf_hash(&lk, value);
    let mut depth: usize = DEPTH;
    put_node(ledger, t, &path, depth, &cur, &empty[0]);
    let ghost goal = smt_set(db0[t as int], domain@, key@, bytes_view(value));
    assert(path@.take(128) =~= path@);
    assert(ledger@.db =~= db0.update(t as int, ledger@.db[t as int]));
    while depth > 0
        invariant
            depth <= 128,
            path@.len() == 128,
            empty@.len() == 129,
            forall|i: int|
                0 <= i <= 128 ==> (#[trigger] empty@[i])@ == empty_hash((128 - i) as nat),
            ledger.wf(),
            t < db0.len(),
            ledger@.db == db0.update(t as int, ledger@.db[t as int]),
            ledger@.saved == old(ledger)@.saved,
            climbed(ledger@.db[t as int], path@.take(depth as int), cur@) == goal,
        decreases depth,
    {
        let ghost p = path@.take(depth as int);
        let ghost nodes = ledger@.db[t as int];
        let sib = get_node(ledger, t, &path, depth, true, &empty[128 - depth]);
        assert(p.last() == path@[depth - 1]);
        cur = if path[depth - 1] {
            parent(&sib, &cur)
        } else {
            parent(&cur, &sib)
        };
        depth = depth - 1;
        put_node(ledger, t, &path, depth, &cur, &empty[128 - depth]);
        assert(p.drop_last() =~= path@.take(depth as int));
        assert(ledger@.db =~= db0.update(t as int, ledger@.db[t as int]));
    }
    assert(path@.take(0).len() == 0);
}

/// Root hash of the tree in a table.
pub fn root_in(ledger: &Ledger, t: usize) -> (r: [u8; 32])
    requires
        ledger.wf(),
        t < ledger@.db.len(),
    ensures
        r@ == root_of(ledger@.db[t as int]),
{
    let zero: [u8; 32] = [0u8; 32];
    let path = path_of(&zero);
    let e = empty_at(0);
    assert(path@.take(0) =~= Seq::<bool>::empty());
    get_node(ledger, t, &path, 0, false, &e)
}

// ---------------------------------------------------------------- what the root commits to

/// Root of the subtree at `p` when the leaves are given by a function.
pub open spec fn subtree(leaf: spec_fn(Seq<bool>) -> Seq<u8>, p: Seq<bool>) -> Seq<u8>
    decreases 128 - p.len(),
{
    if p.len() >= 128 {
        leaf(p)
    } else {
        pair(subtree(leaf, p.push(false)), subtree(leaf, p.push(true)))
    }
}

/// Every inner node is the hash of its children.
pub open spec fn coherent(nodes: Rows) -> bool {
    forall|p: Seq<bool>|
        p.len() < 128 ==> #[trigger] node(nodes, p) == pair(
            node(nodes, p.push(false)),
            node(nodes, p.push(true)),
        )
}

/// The leaf hashes of a tree.
pub open spec fn leaves(nodes: Rows) -> spec_fn(Seq<bool>) -> Seq<u8> {
    |p: Seq<bool>| node(nodes, p)
}

/// An empty table is a coherent tree.
pub proof fn lemma_empty_coherent()
    ensures
        coherent(Map::<Seq<u8>, CellV>::empty()),
        root_of(Map::<Seq<u8>, CellV>::empty()) == empty_hash(0),
{
    let e = Map::<Seq<u8>, CellV>::empty();
    assert forall|p: Seq<bool>| p.len() < 128 implies #[trigger] node(e, p) == pair(
        node(e, p.push(false)),
        node(e, p.push(true)),
    ) by {}
}

/// In a coherent tree every node is the root of the subtree its leaves make up.
pub proof fn law_nodes_commit_to_leaves(nodes: Rows, p: Seq<bool>)
    requires
        coherent(nodes),
        p.len() <= 128,
    ensures
        node(nodes, p) == subtree(leaves(nodes), p),
    decreases 128 - p.len(),
{
    if p.len() < 128 {
        law_nodes_commit_to_leaves(nodes, p.push(false));
        law_nodes_commit_to_leaves(nodes, p.push(true));
    }
}

/// Trees with the same leaves have the same root.
pub proof fn lemma_subtree_ext(
    a: spec_fn(Seq<bool>) -> Seq<u8>,
    b: spec_fn(Seq<bool>) -> Seq<u8>,
    p: Seq<bool>,
)
    requires
        p.len() <= 128,
        forall|q: Seq<bool>| q.len() == 128 ==> #[trigger] a(q) == b(q),
    ensures
        subtree(a, p) == subtree(b, p),
    decreases 128 - p.len(),
{
    if p.len() < 128 {
        lemma_subtree_ext(a, b, p.push(false));
        lemma_subtree_ext(a, b, p.push(true));
    }
}

/// Reading after writing a node: only that node changed.
proof fn lemma_with_node(nodes: Rows, p: Seq<bool>, h: Seq<u8>, q: Seq<bool>)
    requires
        p.len() <= 128,
        q.len() <= 128,
        h.len() == 32,
    ensures
        node(with_node(nodes, p, h), q) == if q == p {
            h
        } else {
            node(nodes, q)
        },
{
    if q != p && node_key(p) == node_key(q) {
        lemma_node_key_injective(p, q);
    }
}

/// Every inner node that is not on the path to `p` is the hash of its children, and
/// so is every node below `p`.
spec fn coherent_off(nodes: Rows, p: Seq<bool>) -> bool {
    forall|q: Seq<bool>|
        q.len() < 128 && !(q.len() < p.len() && q == p.take(q.len() as int))
            ==> #[trigger] node(nodes, q) == pair(
            node(nodes, q.push(false)),
            node(nodes, q.push(true)),
        )
}

proof fn lemma_climbed(nodes: Rows, p: Seq<bool>, h: Seq<u8>)
    requires
        p.len() <= 128,
        coherent_off(nodes, p),
        node(nodes, p) == h,
        h.len() == 32,
    ensures
        coherent(climbed(nodes, p, h)),
        forall|q: Seq<bool>|
            p.len() <= q.len() <= 128 ==> #[trigger] node(climbed(nodes, p, h), q) == node(
                nodes,
                q,
            ),
    decreases p.len(),
{
    if p.len() == 0 {
        assert forall|q: Seq<bool>| q.len() < 128 implies #[trigger] node(nodes, q) == pair(
            node(nodes, q.push(false)),
            node(nodes, q.push(true)),
        ) by {}
    } else {
        let d = p.drop_last();
        let above = up(nodes, p, h);
        let next = with_node(nodes, d, above);
        assert(above.len() == 32);
        assert forall|q: Seq<bool>|
            q.len() < 128 && !(q.len() < d.len() && q == d.take(q.len() as int)) implies
            #[trigger] node(next, q) == pair(node(next, q.push(false)), node(next, q.push(true))) by {
            lemma_with_node(nodes, d, above, q);
            lemma_with_node(nodes, d, above, q.push(false));
            lemma_with_node(nodes, d, above, q.push(true));
            if q == d {
                assert(d.push(p.last()) =~= p);
                assert(d.push(!p.last()) =~= sibling(p));
                assert(q.push(false).len() > d.len() && q.push(true).len() > d.len());
            } else {
                if q.len() < p.len() && q == p.take(q.len() as int) {
                    if q.len() == d.len() {
                        assert(p.take(q.len() as int) =~= d);
                    } else {
                        assert(p.take(q.len() as int) =~= d.take(q.len() as int));
                    }
                }
                if q.push(false) == d || q.push(true) == d {
                    assert(q =~= d.take(q.len() as int));
                }
            }
        }
        lemma_with_node(nodes, d, above, d);
        lemma_climbed(next, d, above);
        assert forall|q: Seq<bool>| p.len() <= q.len() <= 128 implies #[trigger] node(
            climbed(nodes, p, h),
            q,
        ) == node(nodes, q) by {
            lemma_with_node(nodes, d, above, q);
            assert(node(climbed(next, d, above), q) == node(next, q));
        }
    }
}

/// Writing a leaf keeps the tree coherent and changes no other leaf.
pub proof fn law_write_changes_one_leaf(nodes: Rows, path: Seq<bool>, h: Seq<u8>)
    requires
        coherent(nodes),
        path.len() == 128,
        h.len() == 32,
    ensures
        coherent(with_leaf(nodes, path, h)),
        forall|q: Seq<bool>|
            q.len() == 128 ==> #[trigger] node(with_leaf(nodes, path, h), q) == if q == path {
                h
            } else {
                node(nodes, q)
            },
{
    let first = with_node(nodes, path, h);
    assert forall|q: Seq<bool>|
        q.len() < 128 && !(q.len() < path.len() && q == path.take(q.len() as int)) implies
        #[trigger] node(first, q) == pair(node(first, q.push(false)), node(first, q.push(true))) by {
        lemma_with_node(nodes, path, h, q);
        lemma_with_node(nodes, path, h, q.push(false));
        lemma_with_node(nodes, path, h, q.push(true));
        if q.push(false) == path || q.push(true) == path {
            assert(q =~= path.take(q.len() as int));
        }
        assert(q.len() != path.len());
    }
    lemma_with_node(nodes, path, h, path);
    lemma_climbed(first, path, h);
    assert forall|q: Seq<bool>| q.len() == 128 implies #[trigger] node(
        with_leaf(nodes, path, h),
        q,
    ) == if q == path {
        h
    } else {
        node(nodes, q)
    } by {
        lemma_with_node(nodes, path, h, q);
        assert(node(climbed(first, path, h), q) == node(first, q));
    }
}

/// The root after a write is the root of the leaves with that one leaf replaced.
pub proof fn law_root_after_write(nodes: Rows, path: Seq<bool>, h: Seq<u8>)
    requires
        coherent(nodes),
        path.len() == 128,
        h.len() == 32,
    ensures
        root_of(with_leaf(nodes, path, h)) == subtree(
            |q: Seq<bool>|
                if q == path {
                    h
                } else {
                    node(nodes, q)
                },
            Seq::empty(),
        ),
{
    let after = with_leaf(nodes, path, h);
    law_write_changes_one_leaf(nodes, path, h);
    law_nodes_commit_to_leaves(after, Seq::empty());
    lemma_subtree_ext(
        leaves(after),
        |q: Seq<bool>|
            if q == path {
                h
            } else {
                node(nodes, q)
            },
        Seq::empty(),
    );
}

/// The order of two writes to different leaves does not affect the root.
pub proof fn law_write_order_is_irrelevant(
    nodes: Rows,
    p: Seq<bool>,
    g: Seq<u8>,
    q: Seq<bool>,
    h: Seq<u8>,
)
    requires
        coherent(nodes),
        p.len() == 128,
        q.len() == 128,
        p != q,
        g.len() == 32,
        h.len() == 32,
    ensures
        root_of(with_leaf(with_leaf(nodes, p, g), q, h)) == root_of(
            with_leaf(with_leaf(nodes, q, h), p, g),
        ),
{
    law_write_changes_one_leaf(nodes, p, g);
    law_write_changes_one_leaf(nodes, q, h);
    let a = with_leaf(with_leaf(nodes, p, g), q, h);
    let b = with_leaf(with_leaf(nodes, q, h), p, g);
    law_write_changes_one_leaf(with_leaf(nodes, p, g), q, h);
    law_write_changes_one_leaf(with_leaf(nodes, q, h), p, g);
    law_nodes_commit_to_leaves(a, Seq::empty());
    law_nodes_commit_to_leaves(b, Seq::empty());
    assert forall|r: Seq<bool>| r.len() == 128 implies #[trigger] leaves(a)(r) == leaves(b)(r) by {
        assert(node(a, r) == node(b, r)) by {
            assert(node(with_leaf(nodes, p, g), r) == node(with_leaf(nodes, p, g), r));
            assert(node(with_leaf(nodes, q, h), r) == node(with_leaf(nodes, q, h), r));
        }
    }
    lemma_subtree_ext(leaves(a), leaves(b), Seq::empty());
}

/// Clearing a leaf that was written on top of an empty one gives back the root from
/// before the write.
pub proof fn law_clearing_undoes_a_write(nodes: Rows, path: Seq<bool>, h: Seq<u8>)
    requires
        coherent(nodes),
        path.len() == 128,
        h.len() == 32,
        node(nodes, path) == empty_hash(128),
    ensures
        root_of(with_leaf(with_leaf(nodes, path, h), path, empty_hash(128))) == root_of(nodes),
{
    law_write_changes_one_leaf(nodes, path, h);
    let a = with_leaf(nodes, path, h);
    law_write_changes_one_leaf(a, path, empty_hash(128));
    let b = with_leaf(a, path, empty_hash(128));
    law_nodes_commit_to_leaves(b, Seq::empty());
    law_nodes_commit_to_leaves(nodes, Seq::empty());
    assert forall|r: Seq<bool>| r.len() == 128 implies #[trigger] leaves(b)(r) == leaves(nodes)(
        r,
    ) by {
        assert(node(b, r) == if r == path {
            empty_hash(128)
        } else {
            node(a, r)
        });
        assert(node(a, r) == if r == path {
            h
        } else {
            node(nodes, r)
        });
    }
    lemma_subtree_ext(leaves(b), leaves(nodes), Seq::empty());
}

// ---------------------------------------------------------------- proofs

/// Bit `i` tells whether the sibling met on the way from depth `i + 1` is not empty.
pub open spec fn proof_bits(nodes: Rows, path: Seq<bool>) -> Seq<bool> {
    Seq::new(
        128,
        |i: int| node(nodes, sibling(path.take(i + 1))) != empty_hash((i + 1) as nat),
    )
}

/// The non-empty siblings met from depth `d` up to the root, in that order.
pub open spec fn proof_siblings(nodes: Rows, path: Seq<bool>, d: nat) -> Seq<Seq<u8>>
    decreases d,
{
    if d == 0 {
        Seq::empty()
    } else {
        let s = node(nodes, sibling(path.take(d as int)));
        let rest = proof_siblings(nodes, path, (d - 1) as nat);
        if s != empty_hash(d) {
            seq![s] + rest
        } else {
            rest
        }
    }
}

/// The root a proof leads to from hash `cur` at depth `d`, when every sibling it
/// provides is used up.
pub open spec fn folded(
    bits: Seq<bool>,
    path: Seq<bool>,
    sibs: Seq<Seq<u8>>,
    d: nat,
    cur: Seq<u8>,
) -> Option<Seq<u8>>
    decreases d,
{
    if d == 0 {
        if sibs.len() == 0 {
            Some(cur)
        } else {
            None
        }
    } else if bits[d - 1] && sibs.len() == 0 {
        None
    } else {
        let sib = if bits[d - 1] {
            sibs[0]
        } else {
            empty_hash(d)
        };
        let rest = if bits[d - 1] {
            sibs.skip(1)
        } else {
            sibs
        };
        let next = if path[d - 1] {
            pair(sib, cur)
        } else {
            pair(cur, sib)
        };
        folded(bits, path, rest, (d - 1) as nat, next)
    }
}

/// Hexadecimal texts of a list of hashes.
pub open spec fn hex_list(v: Seq<Seq<u8>>) -> Seq<Seq<char>> {
    v.map_values(|b: Seq<u8>| crypto::hex_text(b))
}

/// The hashes a list of hexadecimal texts denotes, each of 32 bytes.
pub open spec fn unhex_list(v: Seq<Seq<char>>) -> Option<Seq<Seq<u8>>> {
    if forall|i: int|
        0 <= i < v.len() ==> crypto::unhex(#[trigger] v[i]) is Some && crypto::unhex(v[i])->0.len()
            == 32 {
        Some(v.map_values(|s: Seq<char>| crypto::unhex(s)->0))
    } else {
        None
    }
}

/// Whether a proof shows that a leaf holds a value (or is empty) under a root.
pub open spec fn proof_ok(
    root_hex: Seq<char>,
    domain: Seq<char>,
    key: Seq<u8>,
    value: Option<Seq<u8>>,
    siblings_hex: Seq<Seq<char>>,
    bitmap_hex: Seq<char>,
) -> bool {
    let lk = leaf_key_of(domain, key);
    &&& crypto::unhex(bitmap_hex) matches Some(map)
    &&& map.len() == 16
    &&& unhex_list(siblings_hex) matches Some(sibs)
    &&& folded(
        Seq::new(128, |i: int| bit_at(map, i)),
        path_bits(lk),
        sibs,
        128,
        leaf_hash_of(lk, value),
    ) matches Some(root)
    &&& crypto::hex_text(root) == text::ascii_lower_spec(text::strip_0x_spec(root_hex))
}

/// A binary digit of a number, read by division.
proof fn lemma_binary_digit(v: int, w: int, high: int, digit: int, low: int)
    requires
        w > 0,
        v == (2 * high + digit) * w + low,
        0 <= low < w,
        0 <= digit <= 1,
    ensures
        (v / w) % 2 == digit,
{
    vstd::arithmetic::div_mod::lemma_fundamental_div_mod_converse(v, w, 2 * high + digit, low);
}

spec fn bit_int(b: bool) -> int {
    if b {
        1
    } else {
        0
    }
}

/// Reading a bit of packed bits gives the bit.
pub proof fn lemma_packed_bit(bits: Seq<bool>, i: int)
    requires
        bits.len() == 128,
        0 <= i < 128,
    ensures
        bit_at(packed(bits), i) == bits[i],
{
    let j = i / 8;
    let d = i % 8;
    let at = 8 * j;
    let v = byte_of(bits, at) as int;
    assert(packed(bits)[j] == byte_of(bits, at));
    assert(i == at + d);
    let a = bit_int(bits[at]);
    let b = bit_int(bits[at + 1]);
    let c = bit_int(bits[at + 2]);
    let e = bit_int(bits[at + 3]);
    let f = bit_int(bits[at + 4]);
    let g = bit_int(bits[at + 5]);
    let h = bit_int(bits[at + 6]);
    let k = bit_int(bits[at + 7]);
    assert(v == 128 * a + 64 * b + 32 * c + 16 * e + 8 * f + 4 * g + 2 * h + k);
    if d == 0 {
        lemma_binary_digit(v, 128, 0, a, 64 * b + 32 * c + 16 * e + 8 * f + 4 * g + 2 * h + k);
    } else if d == 1 {
        lemma_binary_digit(v, 64, a, b, 32 * c + 16 * e + 8 * f + 4 * g + 2 * h + k);
    } else if d == 2 {
        lemma_binary_digit(v, 32, 2 * a + b, c, 16 * e + 8 * f + 4 * g + 2 * h + k);
    } else if d == 3 {
        lemma_binary_digit(v, 16, 4 * a + 2 * b + c, e, 8 * f + 4 * g + 2 * h + k);
    } else if d == 4 {
        lemma_binary_digit(v, 8, 8 * a + 4 * b + 2 * c + e, f, 4 * g + 2 * h + k);
    } else if d == 5 {
        lemma_binary_digit(v, 4, 16 * a + 8 * b + 4 * c + 2 * e + f, g, 2 * h + k);
    } else if d == 6 {
        lemma_binary_digit(v, 2, 32 * a + 16 * b + 8 * c + 4 * e + 2 * f + g, h, k);
    } else {
        lemma_binary_digit(v, 1, 64 * a + 32 * b + 16 * c + 8 * e + 4 * f + 2 * g + h, k, 0);
    }
}

/// Packs 128 bits into sixteen bytes.
fn pack_bits(bits: &Vec<bool>) -> (r: Vec<u8>)
    requires
        bits@.len() == 128,
    ensures
        r@ == packed(bits@),
{
    let mut out: Vec<u8> = Vec::new();
    let mut j: usize = 0;
    while j < 16
        invariant
            j <= 16,
            bits@.len() == 128,
            out@ == packed(bits@).take(j as int),
        decreases 16 - j,
    {
        let at: usize = 8 * j;
        let b: u8 = weigh(bits[at], 128) + weigh(bits[at + 1], 64) + weigh(bits[at + 2], 32)
            + weigh(bits[at + 3], 16) + weigh(bits[at + 4], 8) + weigh(bits[at + 5], 4) + weigh(
            bits[at + 6],
            2,
        ) + weigh(bits[at + 7], 1);
        assert(b == byte_of(bits@, 8 * j));
        out.push(b);
        j = j + 1;
        assert(out@ =~= packed(bits@).take(j as int));
    }
    assert(packed(bits@).take(16) =~= packed(bits@));
    out
}

/// Siblings from the leaf up to the root, so a light client can recompute the root
/// from one value: the leaf key, the non-empty siblings and the map of where they go.
pub fn proof_in(ledger: &Ledger, t: usize, domain: &str, key: &[u8]) -> (r: (
    String,
    Vec<String>,
    String,
))
    requires
        ledger.wf(),
        t < ledger@.db.len(),
    ensures
        r.0@ == crypto::hex_text(leaf_key_of(domain@, key@)),
        types::texts(r.1@) == hex_list(
            proof_siblings(
                ledger@.db[t as int],
                path_bits(leaf_key_of(domain@, key@)),
                128,
            ),
        ),
        r.2@ == crypto::hex_text(
            packed(proof_bits(ledger@.db[t as int], path_bits(leaf_key_of(domain@, key@)))),
        ),
{
    let lk = leaf_key(domain, key);
    let path = path_of(&lk);
    let empty = empties();
    let ghost nodes = ledger@.db[t as int];
    let ghost all = proof_siblings(nodes, path@, 128);
    let mut bits: Vec<bool> = Vec::new();
    let mut i: usize = 0;
    while i < 128
        invariant
            i <= 128,
            ledger.wf(),
            t < ledger@.db.len(),
            nodes == ledger@.db[t as int],
            path@.len() == 128,
            empty@.len() == 129,
            forall|j: int|
                0 <= j <= 128 ==> (#[trigger] empty@[j])@ == empty_hash((128 - j) as nat),
            bits@ == proof_bits(nodes, path@).take(i as int),
        decreases 128 - i,
    {
        let sib = get_node(ledger, t, &path, i + 1, true, &empty[127 - i]);
        bits.push(!text::same_bytes(&sib, &empty[127 - i]));
        i = i + 1;
        assert(bits@ =~= proof_bits(nodes, path@).take(i as int));
    }
    assert(proof_bits(nodes, path@).take(128) =~= proof_bits(nodes, path@));
    let mut siblings: Vec<String> = Vec::new();
    let mut depth: usize = 128;
    assert(types::texts(siblings@) + hex_list(all) =~= hex_list(all));
    while depth > 0
        invariant
            depth <= 128,
            ledger.wf(),
            t < ledger@.db.len(),
            nodes == ledger@.db[t as int],
            path@.len() == 128,
            bits@ == proof_bits(nodes, path@),
            empty@.len() == 129,
            forall|j: int|
                0 <= j <= 128 ==> (#[trigger] empty@[j])@ == empty_hash((128 - j) as nat),
            types::texts(siblings@) + hex_list(proof_siblings(nodes, path@, depth as nat))
                == hex_list(all),
        decreases depth,
    {
        let ghost before = types::texts(siblings@);
        let ghost rest = hex_list(proof_siblings(nodes, path@, (depth - 1) as nat));
        if bits[depth - 1] {
            let sib = get_node(ledger, t, &path, depth, true, &empty[128 - depth]);
            let h = crypto::to_hex(&sib);
            siblings.push(h);
            assert(types::texts(siblings@) =~= before.push(crypto::hex_text(sib@)));
            assert(hex_list(proof_siblings(nodes, path@, depth as nat)) =~= seq![
                crypto::hex_text(sib@),
            ] + rest);
            assert(types::texts(siblings@) + rest =~= before + (seq![crypto::hex_text(sib@)]
                + rest));
        }
        depth = depth - 1;
    }
    assert(types::texts(siblings@) + hex_list(proof_siblings(nodes, path@, 0)) =~= types::texts(
        siblings@,
    ));
    let map = pack_bits(&bits);
    (crypto::to_hex(&lk), siblings, crypto::to_hex(map.as_slice()))
}

/// Recomputes the root from one leaf and its proof. An absent value shows that the
/// leaf is empty.
pub fn verify_proof(
    root_hex: &str,
    domain: &str,
    key: &[u8],
    value: Option<&[u8]>,
    siblings_hex: &Vec<String>,
    bitmap_hex: &str,
) -> (r: bool)
    ensures
        r == proof_ok(
            root_hex@,
            domain@,
            key@,
            bytes_view(value),
            types::texts(siblings_hex@),
            bitmap_hex@,
        ),
{
    let map = match crypto::from_hex(bitmap_hex) {
        Some(b) => b,
        None => {
            return false;
        },
    };
    if map.len() != 16 {
        return false;
    }
    let ghost texts = types::texts(siblings_hex@);
    let mut sibs: Vec<[u8; 32]> = Vec::new();
    let mut i: usize = 0;
    while i < siblings_hex.len()
        invariant
            i <= siblings_hex@.len(),
            texts == types::texts(siblings_hex@),
            sibs@.len() == i,
            forall|j: int|
                0 <= j < i ==> crypto::unhex(#[trigger] texts[j]) == Some(sibs@[j]@),
        decreases siblings_hex@.len() - i,
    {
        assert(texts[i as int] == siblings_hex@[i as int]@);
        match crypto::from_hex(&siblings_hex[i]) {
            Some(b) => {
                if b.len() != 32 {
                    return false;
                }
                sibs.push(crypto::to_array32(&b));
            },
            None => {
                return false;
            },
        }
        i = i + 1;
    }
    let ghost bits = Seq::new(128, |i: int| bit_at(map@, i));
    let ghost hashes = types::digests(sibs@);
    assert(unhex_list(texts) == Some(hashes)) by {
        assert forall|j: int| 0 <= j < texts.len() implies crypto::unhex(#[trigger] texts[j])
            is Some && crypto::unhex(texts[j])->0.len() == 32 by {
            assert(crypto::unhex(texts[j]) == Some(sibs@[j]@));
        }
        assert(unhex_list(texts)->0 =~= hashes);
    }
    let lk = leaf_key(domain, key);
    let path = path_of(&lk);
    let empty = empties();
    let mut cur = leaf_hash(&lk, value);
    let mut next: usize = 0;
    let mut depth: usize = 128;
    let ghost goal = folded(bits, path@, hashes, 128, cur@);
    assert(hashes.skip(0) =~= hashes);
    while depth > 0
        invariant
            depth <= 128,
            next <= sibs@.len(),
            map@.len() == 16,
            path@.len() == 128,
            empty@.len() == 129,
            forall|j: int|
                0 <= j <= 128 ==> (#[trigger] empty@[j])@ == empty_hash((128 - j) as nat),
            bits == Seq::new(128, |i: int| bit_at(map@, i)),
            hashes == types::digests(sibs@),
            folded(bits, path@, hashes.skip(next as int), depth as nat, cur@) == goal,
            unhex_list(texts) == Some(hashes),
            texts == types::texts(siblings_hex@),
            crypto::unhex(bitmap_hex@) == Some(map@),
            goal == folded(
                bits,
                path_bits(leaf_key_of(domain@, key@)),
                hashes,
                128,
                leaf_hash_of(leaf_key_of(domain@, key@), bytes_view(value)),
            ),
        decreases depth,
    {
        let idx: usize = depth - 1;
        let provided = bit_exec(map.as_slice(), idx);
        assert(provided == bits[idx as int]);
        let sib: [u8; 32] = if provided {
            if next >= sibs.len() {
                return false;
            }
            let s = sibs[next];
            assert(hashes.skip(next as int)[0] == s@);
            assert(hashes.skip(next as int).skip(1) =~= hashes.skip(next + 1));
            next = next + 1;
            s
        } else {
            empty[128 - depth]
        };
        cur = if path[idx] {
            parent(&sib, &cur)
        } else {
            parent(&cur, &sib)
        };
        depth = idx;
    }
    if next != sibs.len() {
        return false;
    }
    let got = crypto::to_hex(&cur);
    let want = text::ascii_lower(&text::strip_0x(root_hex));
    got == want
}

proof fn lemma_folded_proof(nodes: Rows, path: Seq<bool>, d: nat)
    requires
        coherent(nodes),
        path.len() == 128,
        d <= 128,
    ensures
        folded(
            proof_bits(nodes, path),
            path,
            proof_siblings(nodes, path, d),
            d,
            node(nodes, path.take(d as int)),
        ) == Some(root_of(nodes)),
    decreases d,
{
    let bits = proof_bits(nodes, path);
    let sibs = proof_siblings(nodes, path, d);
    if d == 0 {
        assert(path.take(0) =~= Seq::<bool>::empty());
    } else {
        let p = path.take(d as int);
        let up = path.take(d - 1);
        let s = node(nodes, sibling(p));
        assert(p.drop_last() =~= up);
        assert(p.last() == path[d - 1]);
        assert(up.push(p.last()) =~= p);
        assert(node(nodes, up) == pair(node(nodes, up.push(false)), node(nodes, up.push(true))));
        let rest = proof_siblings(nodes, path, (d - 1) as nat);
        assert(bits[d - 1] == (s != empty_hash(d)));
        if bits[d - 1] {
            assert(sibs[0] == s);
            assert(sibs.skip(1) =~= rest);
        }
        lemma_folded_proof(nodes, path, (d - 1) as nat);
    }
}

/// The proof of a leaf is accepted for the value the leaf holds, under the root of
/// the tree; for a leaf that was never written it shows that the leaf is empty.
pub proof fn law_proof_round_trip(
    nodes: Rows,
    domain: Seq<char>,
    key: Seq<u8>,
    value: Option<Seq<u8>>,
)
    requires
        coherent(nodes),
        node(nodes, path_bits(leaf_key_of(domain, key))) == leaf_hash_of(
            leaf_key_of(domain, key),
            value,
        ),
    ensures
        proof_ok(
            crypto::hex_text(root_of(nodes)),
            domain,
            key,
            value,
            hex_list(proof_siblings(nodes, path_bits(leaf_key_of(domain, key)), 128)),
            crypto::hex_text(packed(proof_bits(nodes, path_bits(leaf_key_of(domain, key))))),
        ),
{
    let path = path_bits(leaf_key_of(domain, key));
    let bits = proof_bits(nodes, path);
    let sibs = proof_siblings(nodes, path, 128);
    let map = packed(bits);
    crypto::lemma_unhex_hex(map);
    assert forall|i: int| 0 <= i < 128 implies bit_at(map, i) == bits[i] by {
        lemma_packed_bit(bits, i);
    }
    assert(Seq::new(128, |i: int| bit_at(map, i)) =~= bits);
    lemma_siblings_len(nodes, path, 128);
    let texts = hex_list(sibs);
    assert forall|i: int| 0 <= i < texts.len() implies crypto::unhex(#[trigger] texts[i]) == Some(
        sibs[i],
    ) by {
        crypto::lemma_unhex_hex(sibs[i]);
    }
    assert(unhex_list(texts)->0 =~= sibs);
    assert(path.take(128) =~= path);
    lemma_folded_proof(nodes, path, 128);
    crypto::lemma_hex_is_plain(root_of(nodes));
}

proof fn lemma_siblings_len(nodes: Rows, path: Seq<bool>, d: nat)
    ensures
        forall|i: int|
            0 <= i < proof_siblings(nodes, path, d).len() ==> (#[trigger] proof_siblings(
                nodes,
                path,
                d,
            )[i]).len() == 32,
    decreases d,
{
    if d > 0 {
        lemma_siblings_len(nodes, path, (d - 1) as nat);
        let s = node(nodes, sibling(path.take(d as int)));
        let rest = proof_siblings(nodes, path, (d - 1) as nat);
        lemma_node_len(nodes, sibling(path.take(d as int)));
        let all = proof_siblings(nodes, path, d);
        assert forall|i: int| 0 <= i < all.len() implies (#[trigger] all[i]).len() == 32 by {
            if s != empty_hash(d) && i > 0 {
                assert(all[i] == rest[i - 1]);
            } else if s == empty_hash(d) {
                assert(all[i] == rest[i]);
            }
        }
    }
}

pub proof fn lemma_node_len(nodes: Rows, p: Seq<bool>)
    ensures
        node(nodes, p).len() == 32,
{
}

// ---------------------------------------------------------------- what a proof binds

/// What checking a proof hashes above a leaf.
pub open spec fn hashed_up(
    bits: Seq<bool>,
    path: Seq<bool>,
    sibs: Seq<Seq<u8>>,
    d: nat,
    cur: Seq<u8>,
) -> Set<Seq<u8>>
    decreases d,
{
    if d == 0 || (bits[d - 1] && sibs.len() == 0) {
        Set::empty()
    } else {
        let sib = if bits[d - 1] {
            sibs[0]
        } else {
            empty_hash(d)
        };
        let rest = if bits[d - 1] {
            sibs.skip(1)
        } else {
            sibs
        };
        let both = if path[d - 1] {
            sib + cur
        } else {
            cur + sib
        };
        hashed_up(bits, path, rest, (d - 1) as nat, crypto::sha256_of(both)).insert(both)
    }
}

/// What the nodes of a tree above a leaf are hashes of.
pub open spec fn hashed_down(nodes: Rows, path: Seq<bool>, d: nat) -> Set<Seq<u8>>
    decreases d,
{
    if d == 0 {
        Set::empty()
    } else {
        let up = path.take(d - 1);
        hashed_down(nodes, path, (d - 1) as nat).insert(
            node(nodes, up.push(false)) + node(nodes, up.push(true)),
        )
    }
}

/// What a leaf is a hash of: nothing when it is empty.
pub open spec fn hashed_leaf(key: Seq<u8>, value: Option<Seq<u8>>) -> Set<Seq<u8>> {
    match value {
        None => Set::empty(),
        Some(v) => set![text::utf8("inzleaf|"@) + key + seq![124u8] + v],
    }
}

/// Everything hashed when a leaf of a tree is compared with a proof that it holds a
/// value.
pub open spec fn hashed(
    nodes: Rows,
    domain: Seq<char>,
    key: Seq<u8>,
    held: Option<Seq<u8>>,
    claimed: Option<Seq<u8>>,
    siblings_hex: Seq<Seq<char>>,
    bitmap_hex: Seq<char>,
) -> Set<Seq<u8>> {
    let lk = leaf_key_of(domain, key);
    let map = crypto::unhex(bitmap_hex)->0;
    hashed_leaf(lk, held) + hashed_leaf(lk, claimed) + hashed_down(nodes, path_bits(lk), 128)
        + hashed_up(
        Seq::new(128, |i: int| bit_at(map, i)),
        path_bits(lk),
        unhex_list(siblings_hex)->0,
        128,
        leaf_hash_of(lk, claimed),
    )
}

/// No two messages of a set have the same hash, and none has that of an empty leaf.
pub open spec fn collision_free(messages: Set<Seq<u8>>) -> bool {
    &&& forall|a: Seq<u8>, b: Seq<u8>|
        messages.contains(a) && messages.contains(b) && #[trigger] crypto::sha256_of(a)
            == #[trigger] crypto::sha256_of(b) ==> a == b
    &&& forall|a: Seq<u8>|
        messages.contains(a) ==> #[trigger] crypto::sha256_of(a) != empty_hash(128)
}

pub proof fn lemma_empty_hash_len(d: nat)
    ensures
        empty_hash(d).len() == 32,
{
}

/// Two halves with the same hash are the same.
proof fn lemma_same_half(
    messages: Set<Seq<u8>>,
    cur: Seq<u8>,
    sib: Seq<u8>,
    left: Seq<u8>,
    right: Seq<u8>,
    side: bool,
)
    requires
        collision_free(messages),
        cur.len() == 32,
        sib.len() == 32,
        left.len() == 32,
        right.len() == 32,
        messages.contains(
            if side {
                sib + cur
            } else {
                cur + sib
            },
        ),
        messages.contains(left + right),
        crypto::sha256_of(
            if side {
                sib + cur
            } else {
                cur + sib
            },
        ) == pair(left, right),
    ensures
        cur == if side {
            right
        } else {
            left
        },
{
    let both = if side {
        sib + cur
    } else {
        cur + sib
    };
    assert(both == left + right);
    if side {
        assert(cur =~= both.skip(32));
        assert(right =~= (left + right).skip(32));
    } else {
        assert(cur =~= both.take(32));
        assert(left =~= (left + right).take(32));
    }
}

/// A proof that leads to the root of a tree passes through the nodes of the tree.
proof fn lemma_fold_follows(
    nodes: Rows,
    bits: Seq<bool>,
    path: Seq<bool>,
    sibs: Seq<Seq<u8>>,
    d: nat,
    cur: Seq<u8>,
    messages: Set<Seq<u8>>,
)
    requires
        forall|k: int|
            0 <= k < 128 ==> #[trigger] node(nodes, path.take(k)) == pair(
                node(nodes, path.take(k).push(false)),
                node(nodes, path.take(k).push(true)),
            ),
        path.len() == 128,
        d <= 128,
        cur.len() == 32,
        forall|i: int| 0 <= i < sibs.len() ==> (#[trigger] sibs[i]).len() == 32,
        folded(bits, path, sibs, d, cur) == Some(root_of(nodes)),
        collision_free(messages),
        hashed_up(bits, path, sibs, d, cur).subset_of(messages),
        hashed_down(nodes, path, d).subset_of(messages),
    ensures
        cur == node(nodes, path.take(d as int)),
    decreases d,
{
    if d == 0 {
        assert(path.take(0) =~= Seq::<bool>::empty());
    } else {
        let above = path.take(d - 1);
        let sib = if bits[d - 1] {
            sibs[0]
        } else {
            empty_hash(d)
        };
        let rest = if bits[d - 1] {
            sibs.skip(1)
        } else {
            sibs
        };
        let both = if path[d - 1] {
            sib + cur
        } else {
            cur + sib
        };
        let left = node(nodes, above.push(false));
        let right = node(nodes, above.push(true));
        let next = crypto::sha256_of(both);
        let ups = hashed_up(bits, path, rest, (d - 1) as nat, next);
        let downs = hashed_down(nodes, path, (d - 1) as nat);
        lemma_empty_hash_len(d);
        lemma_node_len(nodes, above.push(false));
        lemma_node_len(nodes, above.push(true));
        assert(hashed_up(bits, path, sibs, d, cur) == ups.insert(both));
        assert(hashed_down(nodes, path, d) == downs.insert(left + right));
        assert(ups.insert(both).contains(both));
        assert(downs.insert(left + right).contains(left + right));
        assert forall|a: Seq<u8>| ups.contains(a) implies messages.contains(a) by {
            assert(ups.insert(both).contains(a));
        }
        assert forall|a: Seq<u8>| downs.contains(a) implies messages.contains(a) by {
            assert(downs.insert(left + right).contains(a));
        }
        assert forall|i: int| 0 <= i < rest.len() implies (#[trigger] rest[i]).len() == 32 by {
            if bits[d - 1] {
                assert(rest[i] == sibs[i + 1]);
            }
        }
        lemma_fold_follows(nodes, bits, path, rest, (d - 1) as nat, next, messages);
        assert(node(nodes, above) == pair(left, right));
        lemma_same_half(messages, cur, sib, left, right, path[d - 1]);
        assert(path.take(d as int) =~= above.push(path[d - 1]));
    }
}

/// A proof cannot be bent: whatever siblings and map come with it, a proof that is
/// accepted under the root of a tree claims the value that the leaf holds, unless two
/// of the messages hashed on the way have the same hash.
pub proof fn law_proof_binds_the_value(
    nodes: Rows,
    domain: Seq<char>,
    key: Seq<u8>,
    held: Option<Seq<u8>>,
    claimed: Option<Seq<u8>>,
    siblings_hex: Seq<Seq<char>>,
    bitmap_hex: Seq<char>,
)
    requires
        coherent(nodes),
        node(nodes, path_bits(leaf_key_of(domain, key))) == leaf_hash_of(
            leaf_key_of(domain, key),
            held,
        ),
        collision_free(hashed(nodes, domain, key, held, claimed, siblings_hex, bitmap_hex)),
        proof_ok(
            crypto::hex_text(root_of(nodes)),
            domain,
            key,
            claimed,
            siblings_hex,
            bitmap_hex,
        ),
    ensures
        claimed == held,
{
    let lk = leaf_key_of(domain, key);
    let path = path_bits(lk);
    let map = crypto::unhex(bitmap_hex)->0;
    let bits = Seq::new(128, |i: int| bit_at(map, i));
    let sibs = unhex_list(siblings_hex)->0;
    let all = hashed(nodes, domain, key, held, claimed, siblings_hex, bitmap_hex);
    let leaf = leaf_hash_of(lk, claimed);
    let root = folded(bits, path, sibs, 128, leaf)->0;
    crypto::lemma_hex_is_plain(root_of(nodes));
    crypto::lemma_unhex_hex(root_of(nodes));
    crypto::lemma_unhex_hex(root);
    lemma_empty_hash_len(128);
    assert forall|k: int| 0 <= k < 128 implies #[trigger] node(nodes, path.take(k)) == pair(
        node(nodes, path.take(k).push(false)),
        node(nodes, path.take(k).push(true)),
    ) by {
        assert(path.take(k).len() < 128);
    }
    lemma_fold_follows(nodes, bits, path, sibs, 128, leaf, all);
    assert(path.take(128) =~= path);
    let head = text::utf8("inzleaf|"@) + lk + seq![124u8];
    match (claimed, held) {
        (Some(v), Some(w)) => {
            assert(all.contains(head + v));
            assert(all.contains(head + w));
            assert(head + v == head + w);
            assert(v =~= (head + v).skip(head.len() as int));
            assert(w =~= (head + w).skip(head.len() as int));
        },
        (Some(v), None) => {
            assert(all.contains(head + v));
        },
        (None, Some(w)) => {
            assert(all.contains(head + w));
        },
        (None, None) => {},
    }
}

/// The proof of a leaf after a write is accepted for the value written and for no other,
/// unless hashes collide.
pub proof fn law_written_value_is_proved(
    nodes: Rows,
    domain: Seq<char>,
    key: Seq<u8>,
    value: Option<Seq<u8>>,
    claimed: Option<Seq<u8>>,
)
    requires
        coherent(nodes),
        ({
            let m = smt_set(nodes, domain, key, value);
            let path = path_bits(leaf_key_of(domain, key));
            collision_free(
                hashed(
                    m,
                    domain,
                    key,
                    value,
                    claimed,
                    hex_list(proof_siblings(m, path, 128)),
                    crypto::hex_text(packed(proof_bits(m, path))),
                ),
            )
        }),
    ensures
        ({
            let m = smt_set(nodes, domain, key, value);
            let path = path_bits(leaf_key_of(domain, key));
            proof_ok(
                crypto::hex_text(root_of(m)),
                domain,
                key,
                claimed,
                hex_list(proof_siblings(m, path, 128)),
                crypto::hex_text(packed(proof_bits(m, path))),
            ) <==> claimed == value
        }),
{
    let lk = leaf_key_of(domain, key);
    let path = path_bits(lk);
    let m = smt_set(nodes, domain, key, value);
    let sibs = hex_list(proof_siblings(m, path, 128));
    let map = crypto::hex_text(packed(proof_bits(m, path)));
    lemma_empty_hash_len(128);
    law_write_changes_one_leaf(nodes, path, leaf_hash_of(lk, value));
    law_proof_round_trip(m, domain, key, value);
    if proof_ok(crypto::hex_text(root_of(m)), domain, key, claimed, sibs, map) {
        law_proof_binds_the_value(m, domain, key, value, claimed, sibs, map);
    }
}

/// A proof is accepted under one root only, given as digits.
pub proof fn law_proof_has_one_root(
    a: Seq<u8>,
    b: Seq<u8>,
    domain: Seq<char>,
    key: Seq<u8>,
    value: Option<Seq<u8>>,
    siblings_hex: Seq<Seq<char>>,
    bitmap_hex: Seq<char>,
)
    requires
        proof_ok(crypto::hex_text(a), domain, key, value, siblings_hex, bitmap_hex),
        proof_ok(crypto::hex_text(b), domain, key, value, siblings_hex, bitmap_hex),
    ensures
        a == b,
{
    crypto::lemma_hex_is_plain(a);
    crypto::lemma_hex_is_plain(b);
    crypto::lemma_unhex_hex(a);
    crypto::lemma_unhex_hex(b);
}

/// Number of siblings a map announces below a depth.
pub open spec fn announced(bits: Seq<bool>, d: nat) -> nat
    decreases d,
{
    if d == 0 {
        0
    } else {
        announced(bits, (d - 1) as nat) + if bits[d - 1] {
            1nat
        } else {
            0
        }
    }
}

proof fn lemma_fold_uses_all(
    bits: Seq<bool>,
    path: Seq<bool>,
    sibs: Seq<Seq<u8>>,
    d: nat,
    cur: Seq<u8>,
)
    requires
        folded(bits, path, sibs, d, cur) is Some,
    ensures
        sibs.len() == announced(bits, d),
    decreases d,
{
    if d > 0 {
        let sib = if bits[d - 1] {
            sibs[0]
        } else {
            empty_hash(d)
        };
        let rest = if bits[d - 1] {
            sibs.skip(1)
        } else {
            sibs
        };
        let next = if path[d - 1] {
            pair(sib, cur)
        } else {
            pair(cur, sib)
        };
        lemma_fold_uses_all(bits, path, rest, (d - 1) as nat, next);
    }
}

/// A proof is accepted only with as many siblings as its map announces: one more or one
/// less is refused.
pub proof fn law_proof_has_all_siblings(
    root_hex: Seq<char>,
    domain: Seq<char>,
    key: Seq<u8>,
    value: Option<Seq<u8>>,
    siblings_hex: Seq<Seq<char>>,
    bitmap_hex: Seq<char>,
)
    requires
        proof_ok(root_hex, domain, key, value, siblings_hex, bitmap_hex),
    ensures
        siblings_hex.len() == announced(
            Seq::new(128, |i: int| bit_at(crypto::unhex(bitmap_hex)->0, i)),
            128,
        ),
{
    let lk = leaf_key_of(domain, key);
    let map = crypto::unhex(bitmap_hex)->0;
    lemma_fold_uses_all(
        Seq::new(128, |i: int| bit_at(map, i)),
        path_bits(lk),
        unhex_list(siblings_hex)->0,
        128,
        leaf_hash_of(lk, value),
    );
}

// ---------------------------------------------------------------- a tree of its own

/// A sparse Merkle tree on its own.
pub struct Smt {
    ledger: Ledger,
}

impl View for Smt {
    type V = Rows;

    closed spec fn view(&self) -> Rows {
        self.ledger@.db[0]
    }
}

impl Smt {
    /// One table, no savepoint, every inner node the hash of its children.
    pub closed spec fn wf(self) -> bool {
        self.ledger.wf() && self.ledger@.db.len() == 1 && coherent(self.ledger@.db[0])
    }

    /// Every inner node of a tree is the hash of its children.
    pub proof fn law_nodes_hash_their_children(self)
        requires
            self.wf(),
        ensures
            coherent(self@),
    {
    }

    /// An empty tree.
    pub fn new() -> (r: Smt)
        ensures
            r.wf(),
            r@ == Map::<Seq<u8>, CellV>::empty(),
    {
        proof {
            lemma_empty_coherent();
        }
        Smt { ledger: Ledger::new(1) }
    }

    /// Writes (or clears) one leaf and rebuilds the path to the root.
    pub fn set(&mut self, domain: &str, key: &[u8], value: Option<&[u8]>)
        requires
            old(self).wf(),
        ensures
            final(self).wf(),
            final(self)@ == smt_set(old(self)@, domain@, key@, bytes_view(value)),
    {
        proof {
            let lk = leaf_key_of(domain@, key@);
            law_write_changes_one_leaf(
                self.ledger@.db[0],
                path_bits(lk),
                leaf_hash_of(lk, bytes_view(value)),
            );
        }
        set_leaf(&mut self.ledger, 0, domain, key, value);
    }

    /// Root hash.
    pub fn root(&self) -> (r: [u8; 32])
        requires
            self.wf(),
        ensures
            r@ == root_of(self@),
    {
        root_in(&self.ledger, 0)
    }

    /// Root hash, hexadecimal.
    pub fn root_hex(&self) -> (r: String)
        requires
            self.wf(),
        ensures
            r@ == crypto::hex_text(root_of(self@)),
    {
        crypto::to_hex(&self.root())
    }

    /// Leaf key, non-empty siblings and the map of where they go.
    pub fn prove(&self, domain: &str, key: &[u8]) -> (r: (String, Vec<String>, String))
        requires
            self.wf(),
        ensures
            r.0@ == crypto::hex_text(leaf_key_of(domain@, key@)),
            types::texts(r.1@) == hex_list(
                proof_siblings(self@, path_bits(leaf_key_of(domain@, key@)), 128),
            ),
            r.2@ == crypto::hex_text(
                packed(proof_bits(self@, path_bits(leaf_key_of(domain@, key@)))),
            ),
    {
        proof_in(&self.ledger, 0, domain, key)
    }

    /// Forgets every leaf.
    pub fn clear(&mut self)
        requires
            old(self).wf(),
        ensures
            final(self).wf(),
            final(self)@ == Map::<Seq<u8>, CellV>::empty(),
    {
        *self = Smt::new();
    }
}

} // verus!
