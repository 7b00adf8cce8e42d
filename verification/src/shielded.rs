//! The shielded pool: notes, commitments, nullifiers and the note commitment tree.
//!
//! Notes live as commitments in an append-only Poseidon Merkle tree of fixed depth;
//! a spend reveals a nullifier, which burns the note without saying which one.

use crate::poseidon;
use crate::poseidon::Fr;
use crate::poseidon::ParamsV;
use crate::poseidon::PoseidonParams;
use crate::text;
use vstd::prelude::*;
use vstd::string::*;

verus! {

/// Depth of the note commitment tree: four billion notes.
pub const TREE_DEPTH: usize = 32;

/// Height from which shielded transactions are accepted unless overridden.
pub const SHIELDED_ACTIVATION_HEIGHT: u64 = u64::MAX;

/// Effective activation height: an override that reads as a number wins over the
/// built-in height.
pub fn activation_height(setting: Option<&str>) -> (r: u64)
    ensures
        r == (match setting {
            Some(s) => match text::parsed_upto(s@, u64::MAX as nat) {
                Some(n) => n,
                None => SHIELDED_ACTIVATION_HEIGHT as nat,
            },
            None => SHIELDED_ACTIVATION_HEIGHT as nat,
        }),
{
    match setting {
        Some(s) => match text::parse_u64(s) {
            Some(n) => n,
            None => SHIELDED_ACTIVATION_HEIGHT,
        },
        None => SHIELDED_ACTIVATION_HEIGHT,
    }
}

/// A note of the pool.
#[derive(Debug)]
pub struct Note {
    /// Owner tag, as hexadecimal text.
    pub owner: String,
    /// Value in the smallest unit.
    pub value: u128,
    /// Randomness that hides the commitment, as hexadecimal text.
    pub rho: String,
}

/// Commitment to an owner, a value and randomness.
pub open spec fn commitment_of(p: ParamsV, owner: nat, value: nat, rho: nat) -> nat {
    poseidon::hash2_of(p, poseidon::hash2_of(p, owner, value), rho)
}

/// What a note commits to, or what is wrong with its text.
pub open spec fn note_commitment_of(
    p: ParamsV,
    owner: Seq<char>,
    value: nat,
    rho: Seq<char>,
) -> Result<nat, Seq<char>> {
    match poseidon::hex_element(owner) {
        None => Err("bad owner field"@),
        Some(o) => match poseidon::hex_element(rho) {
            None => Err("bad rho field"@),
            Some(r) => Ok(commitment_of(p, o, value, r)),
        },
    }
}

impl Note {
    /// The commitment the note adds to the tree.
    pub fn commitment(&self, p: &PoseidonParams) -> (r: Result<Fr, String>)
        requires
            p.wf(),
        ensures
            match r {
                Ok(f) => note_commitment_of(p@, self.owner@, self.value as nat, self.rho@) == Ok::<
                    nat,
                    Seq<char>,
                >(f@),
                Err(e) => note_commitment_of(p@, self.owner@, self.value as nat, self.rho@) == Err::<
                    nat,
                    Seq<char>,
                >(e@),
            },
    {
        match poseidon::fr_from_hex(self.owner.as_str()) {
            None => Err(text::copy("bad owner field")),
            Some(owner) => match poseidon::fr_from_hex(self.rho.as_str()) {
                None => Err(text::copy("bad rho field")),
                Some(rho) => Ok(note_commitment(p, owner, self.value, rho)),
            },
        }
    }
}

/// Commitment to an owner, a value and randomness.
pub fn note_commitment(p: &PoseidonParams, owner: Fr, value: u128, rho: Fr) -> (r: Fr)
    requires
        p.wf(),
    ensures
        r@ == commitment_of(p@, owner@, value as nat, rho@),
{
    poseidon::hash2(p, poseidon::hash2(p, owner, poseidon::fr_u128(value)), rho)
}

/// Owner tag of a spend key.
pub fn owner_tag(p: &PoseidonParams, spend_key: Fr) -> (r: Fr)
    requires
        p.wf(),
    ensures
        r@ == poseidon::hash2_of(p@, spend_key@, 0),
{
    poseidon::hash2(p, spend_key, poseidon::fr_u64(0))
}

/// Nullifier of the note at one leaf position.
pub fn nullifier(p: &PoseidonParams, spend_key: Fr, position: u64) -> (r: Fr)
    requires
        p.wf(),
    ensures
        r@ == poseidon::hash2_of(p@, spend_key@, position as nat),
{
    poseidon::hash2(p, spend_key, poseidon::fr_u64(position))
}

/// Root of an all-zero subtree; depth zero is the zero leaf itself.
pub open spec fn zero_root(p: ParamsV, depth: nat) -> nat
    decreases depth,
{
    if depth == 0 {
        0
    } else {
        let below = zero_root(p, (depth - 1) as nat);
        poseidon::hash2_of(p, below, below)
    }
}

/// Root of an all-zero subtree.
pub fn zero_subtree_root(p: &PoseidonParams, depth: usize) -> (r: Fr)
    requires
        p.wf(),
    ensures
        r@ == zero_root(p@, depth as nat),
{
    let mut z = poseidon::fr_u64(0);
    let mut d: usize = 0;
    while d < depth
        invariant
            d <= depth,
            p.wf(),
            z@ == zero_root(p@, d as nat),
        decreases depth - d,
    {
        z = poseidon::hash2(p, z, z);
        d = d + 1;
    }
    z
}

/// Node `i` of level `d` of the tree over the leaves, padded with zero leaves.
pub open spec fn tree_node(p: ParamsV, leaves: Seq<nat>, d: nat, i: nat) -> nat
    decreases d,
{
    if d == 0 {
        if i < leaves.len() {
            leaves[i as int]
        } else {
            0
        }
    } else {
        poseidon::hash2_of(
            p,
            tree_node(p, leaves, (d - 1) as nat, 2 * i),
            tree_node(p, leaves, (d - 1) as nat, 2 * i + 1),
        )
    }
}

/// Root of the tree over the leaves.
pub open spec fn tree_root(p: ParamsV, leaves: Seq<nat>) -> nat {
    tree_node(p, leaves, 32, 0)
}

/// The parameters with the roots of all-zero subtrees at hand.
pub struct NoteTree {
    params: PoseidonParams,
    zeros: Vec<Fr>,
}

impl NoteTree {
    /// The zero roots are those of the parameters.
    pub closed spec fn wf(self) -> bool {
        &&& self.params.wf()
        &&& self.zeros@.len() == 33
        &&& forall|d: int| 0 <= d < 33 ==> (#[trigger] self.zeros@[d])@ == zero_root(self@, d as nat)
    }

    /// Tree functions over generated parameters.
    pub fn new() -> (r: NoteTree)
        ensures
            r.wf(),
            r.params_spec().generated(),
    {
        let params = poseidon::params();
        let mut zeros: Vec<Fr> = Vec::new();
        let mut z = poseidon::fr_u64(0);
        while zeros.len() <= TREE_DEPTH
            invariant
                params.wf(),
                zeros@.len() <= 33,
                z@ == zero_root(params@, zeros@.len()),
                forall|d: int|
                    0 <= d < zeros@.len() ==> (#[trigger] zeros@[d])@ == zero_root(
                        params@,
                        d as nat,
                    ),
            decreases 33 - zeros@.len(),
        {
            zeros.push(z);
            z = poseidon::hash2(&params, z, z);
        }
        NoteTree { params, zeros }
    }

    /// A copy.
    pub fn copy(&self) -> (r: NoteTree)
        requires
            self.wf(),
        ensures
            r.wf(),
            r@ == self@,
    {
        let r = NoteTree { params: self.params.copy(), zeros: copy_fields(&self.zeros) };
        r
    }

    /// The parameters.
    pub closed spec fn params_spec(self) -> PoseidonParams {
        self.params
    }

    /// The parameters.
    pub fn params(&self) -> (r: &PoseidonParams)
        requires
            self.wf(),
        ensures
            *r == self.params_spec(),
            r.wf(),
            r@ == self@,
    {
        &self.params
    }

    /// Pairs a level into the one above it.
    fn lift(&self, level: &Vec<Fr>, d: usize, Ghost(leaves): Ghost<Seq<nat>>) -> (r: Vec<Fr>)
        requires
            self.wf(),
            d < 32,
            level_of(self@, leaves, d as nat, poseidon::values(level@)),
        ensures
            level_of(self@, leaves, (d + 1) as nat, poseidon::values(r@)),
            r@.len() == (level@.len() + 1) / 2,
    {
        let zero = self.zeros[d];
        let mut next: Vec<Fr> = Vec::new();
        let n: usize = level.len();
        let half: usize = n / 2 + n % 2;
        let mut k: usize = 0;
        let ghost now = poseidon::values(level@);
        while k < half
            invariant
                k <= half,
                n == level@.len(),
                now == poseidon::values(level@),
                half == n / 2 + n % 2,
                next@.len() == k,
                self.wf(),
                d < 32,
                zero@ == zero_root(self@, d as nat),
                level_of(self@, leaves, d as nat, now),
                forall|i: int|
                    0 <= i < k ==> (#[trigger] next@[i])@ == tree_node(
                        self@,
                        leaves,
                        (d + 1) as nat,
                        i as nat,
                    ),
            decreases half - k,
        {
            let left = level[2 * k];
            assert(now[2 * k as int] == left@);
            assert(tree_node(self@, leaves, d as nat, (2 * k) as nat) == left@);
            let right = if 2 * k + 1 < n {
                assert(now[2 * k as int + 1] == level@[2 * k as int + 1]@);
                level[2 * k + 1]
            } else {
                zero
            };
            assert(tree_node(self@, leaves, d as nat, (2 * k + 1) as nat) == right@);
            next.push(poseidon::hash2(&self.params, left, right));
            k = k + 1;
        }
        proof {
            let up = poseidon::values(next@);
            assert forall|i: nat| up.len() <= i implies #[trigger] tree_node(
                self@,
                leaves,
                (d + 1) as nat,
                i,
            ) == zero_root(self@, (d + 1) as nat) by {
                assert(tree_node(self@, leaves, d as nat, 2 * i) == zero_root(self@, d as nat));
                assert(tree_node(self@, leaves, d as nat, 2 * i + 1) == zero_root(self@, d as nat));
            }
            assert forall|i: nat| i < up.len() implies #[trigger] tree_node(
                self@,
                leaves,
                (d + 1) as nat,
                i,
            ) == up[i as int] by {
                assert(up[i as int] == next@[i as int]@);
            }
        }
        next
    }
}

impl View for NoteTree {
    type V = ParamsV;

    closed spec fn view(&self) -> ParamsV {
        self.params@
    }
}

/// A list holds the nodes of level `d`, and every node beyond it is an all-zero
/// subtree.
pub open spec fn level_of(p: ParamsV, leaves: Seq<nat>, d: nat, level: Seq<nat>) -> bool {
    &&& forall|i: nat|
        i < level.len() ==> #[trigger] tree_node(p, leaves, d, i) == level[i as int]
    &&& forall|i: nat|
        level.len() <= i ==> #[trigger] tree_node(p, leaves, d, i) == zero_root(p, d)
}

/// A tree without leaves is all zero subtrees.
proof fn lemma_empty_tree(p: ParamsV, leaves: Seq<nat>, d: nat, i: nat)
    requires
        leaves.len() == 0,
    ensures
        tree_node(p, leaves, d, i) == zero_root(p, d),
    decreases d,
{
    if d > 0 {
        lemma_empty_tree(p, leaves, (d - 1) as nat, 2 * i);
        lemma_empty_tree(p, leaves, (d - 1) as nat, 2 * i + 1);
    }
}

/// Root of the tree over a list of leaves.
pub fn root_from_leaves(tree: &NoteTree, leaves: &Vec<Fr>) -> (r: Fr)
    requires
        tree.wf(),
    ensures
        r@ == tree_root(tree@, poseidon::values(leaves@)),
{
    let ghost all = poseidon::values(leaves@);
    if leaves.len() == 0 {
        proof {
            lemma_empty_tree(tree@, all, 32, 0);
        }
        return tree.zeros[TREE_DEPTH];
    }
    let mut level = copy_fields(leaves);
    let mut d: usize = 0;
    while d < TREE_DEPTH
        invariant
            d <= 32,
            tree.wf(),
            all == poseidon::values(leaves@),
            level_of(tree@, all, d as nat, poseidon::values(level@)),
        decreases 32 - d,
    {
        if level.len() <= 1 {
            let mut cur = if level.len() == 1 {
                assert(poseidon::values(level@)[0] == level@[0]@);
                level[0]
            } else {
                tree.zeros[d]
            };
            assert(cur@ == tree_node(tree@, all, d as nat, 0));
            while d < TREE_DEPTH
                invariant
                    d <= 32,
                    tree.wf(),
                    cur@ == tree_node(tree@, all, d as nat, 0),
                    forall|i: nat|
                        i >= 1 ==> #[trigger] tree_node(tree@, all, d as nat, i) == zero_root(
                            tree@,
                            d as nat,
                        ),
                decreases 32 - d,
            {
                assert(tree_node(tree@, all, d as nat, 1) == zero_root(tree@, d as nat));
                cur = poseidon::hash2(&tree.params, cur, tree.zeros[d]);
                d = d + 1;
                proof {
                    assert forall|i: nat| i >= 1 implies #[trigger] tree_node(
                        tree@,
                        all,
                        d as nat,
                        i,
                    ) == zero_root(tree@, d as nat) by {
                        let e = (d - 1) as nat;
                        assert(tree_node(tree@, all, e, 2 * i) == zero_root(tree@, e));
                        assert(tree_node(tree@, all, e, 2 * i + 1) == zero_root(tree@, e));
                    }
                }
            }
            return cur;
        }
        level = tree.lift(&level, d, Ghost(all));
        d = d + 1;
    }
    if level.len() == 0 {
        return zero_subtree_root(&tree.params, TREE_DEPTH);
    }
    assert(poseidon::values(level@)[0] == level@[0]@);
    level[0]
}

/// Authentication path of the leaf at a position, bottom level first.
pub fn merkle_path(tree: &NoteTree, leaves: &Vec<Fr>, pos: usize) -> (r: Result<Vec<Fr>, String>)
    requires
        tree.wf(),
    ensures
        match r {
            Ok(path) => pos < leaves@.len() && poseidon::values(path@) == path_of(
                tree@,
                poseidon::values(leaves@),
                pos as nat,
            ),
            Err(e) => pos >= leaves@.len() && e@ == "leaf index out of range"@,
        },
{
    if pos >= leaves.len() {
        return Err(text::copy("leaf index out of range"));
    }
    let ghost all = poseidon::values(leaves@);
    let ghost want = path_of(tree@, all, pos as nat);
    let mut level = copy_fields(leaves);
    let mut path: Vec<Fr> = Vec::new();
    let mut idx: usize = pos;
    let mut d: usize = 0;
    while d < TREE_DEPTH
        invariant
            d <= 32,
            tree.wf(),
            path@.len() == d,
            want == path_of(tree@, all, pos as nat),
            idx == ancestor(pos as nat, d as nat),
            idx < level@.len(),
            level_of(tree@, all, d as nat, poseidon::values(level@)),
            forall|k: int| 0 <= k < d ==> (#[trigger] path@[k])@ == want[k],
        decreases 32 - d,
    {
        let ghost now = poseidon::values(level@);
        let n: usize = level.len();
        let sibling = if idx % 2 == 0 {
            if idx + 1 < n {
                assert(now[idx + 1] == level@[idx + 1]@);
                level[idx + 1]
            } else {
                tree.zeros[d]
            }
        } else {
            assert(now[idx - 1] == level@[idx - 1]@);
            level[idx - 1]
        };
        assert(sibling@ == tree_node(tree@, all, d as nat, beside(idx as nat)));
        assert(want[d as int] == tree_node(
            tree@,
            all,
            d as nat,
            beside(ancestor(pos as nat, d as nat)),
        ));
        path.push(sibling);
        level = tree.lift(&level, d, Ghost(all));
        idx = idx / 2;
        d = d + 1;
    }
    assert(poseidon::values(path@) =~= want);
    Ok(path)
}

/// A copy of a list of elements.
pub fn copy_fields(v: &Vec<Fr>) -> (r: Vec<Fr>)
    ensures
        r@ == v@,
{
    let mut out: Vec<Fr> = Vec::new();
    let mut i: usize = 0;
    while i < v.len()
        invariant
            i <= v@.len(),
            out@ == v@.take(i as int),
        decreases v@.len() - i,
    {
        out.push(v[i]);
        i = i + 1;
        assert(out@ =~= v@.take(i as int));
    }
    assert(out@ =~= v@);
    out
}

/// Index of the ancestor of leaf `pos` on level `d`.
pub open spec fn ancestor(pos: nat, d: nat) -> nat
    decreases d,
{
    if d == 0 {
        pos
    } else {
        ancestor(pos, (d - 1) as nat) / 2
    }
}

/// Index of the other child of the same parent.
pub open spec fn beside(i: nat) -> nat {
    if i % 2 == 0 {
        i + 1
    } else {
        (i - 1) as nat
    }
}

/// Authentication path of a leaf, bottom level first.
pub open spec fn path_of(p: ParamsV, leaves: Seq<nat>, pos: nat) -> Seq<nat> {
    Seq::new(
        32,
        |d: int| tree_node(p, leaves, d as nat, beside(ancestor(pos, d as nat))),
    )
}

/// The node reached from a leaf over the first `n` siblings of a path.
pub open spec fn climbed(p: ParamsV, leaf: nat, pos: nat, path: Seq<nat>, n: nat) -> nat
    decreases n,
{
    if n == 0 {
        leaf
    } else {
        let k = (n - 1) as nat;
        let below = climbed(p, leaf, pos, path, k);
        if ancestor(pos, k) % 2 == 1 {
            poseidon::hash2_of(p, path[k as int], below)
        } else {
            poseidon::hash2_of(p, below, path[k as int])
        }
    }
}

/// A path leads from a leaf at a position to a root.
pub open spec fn path_ok(p: ParamsV, leaf: nat, pos: nat, path: Seq<nat>, root: nat) -> bool {
    path.len() == 32 && climbed(p, leaf, pos, path, 32) == root
}

/// Checks a path against a root.
pub fn verify_path(p: &PoseidonParams, leaf: Fr, pos: u64, path: &Vec<Fr>, root: Fr) -> (r: bool)
    requires
        p.wf(),
    ensures
        r == path_ok(p@, leaf@, pos as nat, poseidon::values(path@), root@),
{
    if path.len() != TREE_DEPTH {
        return false;
    }
    let ghost all = poseidon::values(path@);
    let mut cur = leaf;
    let mut idx: u64 = pos;
    let mut d: usize = 0;
    while d < TREE_DEPTH
        invariant
            d <= 32,
            p.wf(),
            path@.len() == 32,
            all == poseidon::values(path@),
            idx == ancestor(pos as nat, d as nat),
            cur@ == climbed(p@, leaf@, pos as nat, all, d as nat),
        decreases 32 - d,
    {
        assert(all[d as int] == path@[d as int]@);
        cur = if idx % 2 == 1 {
            poseidon::hash2(p, path[d], cur)
        } else {
            poseidon::hash2(p, cur, path[d])
        };
        idx = idx / 2;
        d = d + 1;
    }
    cur.same(root)
}

/// The climb along a leaf's own path passes through its ancestors.
proof fn lemma_climb(p: ParamsV, leaves: Seq<nat>, pos: nat, n: nat)
    requires
        pos < leaves.len(),
        n <= 32,
    ensures
        climbed(p, leaves[pos as int], pos, path_of(p, leaves, pos), n) == tree_node(
            p,
            leaves,
            n,
            ancestor(pos, n),
        ),
    decreases n,
{
    if n > 0 {
        let k = (n - 1) as nat;
        lemma_climb(p, leaves, pos, k);
        let a = ancestor(pos, k);
        assert(path_of(p, leaves, pos)[k as int] == tree_node(p, leaves, k, beside(a)));
        if a % 2 == 1 {
            assert(2 * (a / 2) == beside(a));
            assert(2 * (a / 2) + 1 == a);
        } else {
            assert(2 * (a / 2) == a);
            assert(2 * (a / 2) + 1 == beside(a));
        }
    }
}

/// The path the tree gives for a leaf leads from that leaf at that position to the
/// root of the tree, for every leaf a tree of this depth can hold.
pub proof fn law_path_round_trip(p: ParamsV, leaves: Seq<nat>, pos: nat)
    requires
        pos < leaves.len(),
        pos < 0x1_0000_0000,
    ensures
        path_ok(p, leaves[pos as int], pos, path_of(p, leaves, pos), tree_root(p, leaves)),
{
    lemma_climb(p, leaves, pos, 32);
    assert(ancestor(pos, 32) == 0) by {
        reveal_with_fuel(ancestor, 33);
    }
}

} // verus!
