//! The spend relation of the shielded pool (two notes in, two notes out) and the check
//! of proofs of it.
//!
//! A proof shows, without revealing anything else, that each spent note sits in the tree
//! at the public root, that the prover knows the key behind it, that each public
//! nullifier belongs to it, and that value is conserved without wrap-around.
//!
//! The order of the public inputs is part of consensus: root, the two nullifiers, the two
//! new commitments, the amount that leaves the pool.

use crate::crypto;
use crate::poseidon;
use crate::poseidon::Fr;
use crate::poseidon::ParamsV;
use crate::poseidon::PoseidonParams;
use crate::shielded;
use crate::text;
use ark_serialize::CanonicalDeserialize;
use ark_serialize::CanonicalSerialize;
use vstd::prelude::*;
use vstd::string::*;

verus! {

/// A note that is spent.
#[derive(Debug)]
pub struct SpendNote {
    pub spend_key: Fr,
    pub value: u128,
    pub rho: Fr,
    pub position: u64,
    /// Siblings on the way to the root, lowest level first.
    pub path: Vec<Fr>,
}

/// Model of a note that is spent.
#[verifier::ext_equal]
pub struct SpendV {
    pub spend_key: nat,
    pub value: nat,
    pub rho: nat,
    pub position: nat,
    pub path: Seq<nat>,
}

impl View for SpendNote {
    type V = SpendV;

    open spec fn view(&self) -> SpendV {
        SpendV {
            spend_key: self.spend_key@,
            value: self.value as nat,
            rho: self.rho@,
            position: self.position as nat,
            path: poseidon::values(self.path@),
        }
    }
}

/// A note that is created.
#[derive(Clone, Copy, Debug)]
pub struct OutputNote {
    pub owner: Fr,
    pub value: u128,
    pub rho: Fr,
}

/// Model of a note that is created.
#[verifier::ext_equal]
pub struct OutputV {
    pub owner: nat,
    pub value: nat,
    pub rho: nat,
}

impl View for OutputNote {
    type V = OutputV;

    open spec fn view(&self) -> OutputV {
        OutputV { owner: self.owner@, value: self.value as nat, rho: self.rho@ }
    }
}

/// A spend: what is public of it and what only the prover knows. An unused slot holds a
/// note of no value.
#[derive(Debug)]
pub struct SpendCircuit {
    pub anchor: Fr,
    pub nullifiers: [Fr; 2],
    pub out_commitments: [Fr; 2],
    pub public_unshield: u128,
    pub inputs: [SpendNote; 2],
    pub outputs: [OutputNote; 2],
}

/// Model of a spend.
#[verifier::ext_equal]
pub struct SpendCircuitV {
    pub anchor: nat,
    pub nullifiers: (nat, nat),
    pub out_commitments: (nat, nat),
    pub public_unshield: nat,
    pub inputs: (SpendV, SpendV),
    pub outputs: (OutputV, OutputV),
}

impl View for SpendCircuit {
    type V = SpendCircuitV;

    open spec fn view(&self) -> SpendCircuitV {
        SpendCircuitV {
            anchor: self.anchor@,
            nullifiers: (self.nullifiers@[0]@, self.nullifiers@[1]@),
            out_commitments: (self.out_commitments@[0]@, self.out_commitments@[1]@),
            public_unshield: self.public_unshield as nat,
            inputs: (self.inputs@[0]@, self.inputs@[1]@),
            outputs: (self.outputs@[0]@, self.outputs@[1]@),
        }
    }
}

// ---------------------------------------------------------------- the relation

/// Values fit 64 bits.
pub open spec fn in_range(v: nat) -> bool {
    v < 0x1_0000_0000_0000_0000
}

/// What is demanded of a spent note and its public nullifier. A note of no value is not
/// looked for in the tree.
pub open spec fn spend_ok(p: ParamsV, note: SpendV, anchor: nat, nullifier: nat) -> bool {
    let cm = shielded::commitment_of(
        p,
        poseidon::hash2_of(p, note.spend_key, 0),
        note.value,
        note.rho,
    );
    &&& in_range(note.value)
    &&& note.position < 0x1_0000_0000
    &&& note.path.len() == shielded::TREE_DEPTH
    &&& note.value != 0 ==> shielded::path_ok(p, cm, note.position, note.path, anchor)
    &&& poseidon::hash2_of(p, note.spend_key, note.position) == nullifier
}

/// What is demanded of a created note and its public commitment.
pub open spec fn output_ok(p: ParamsV, note: OutputV, commitment: nat) -> bool {
    &&& in_range(note.value)
    &&& shielded::commitment_of(p, note.owner, note.value, note.rho) == commitment
}

/// The relation proofs are about. Values are added in the field.
pub open spec fn satisfied(p: ParamsV, c: SpendCircuitV) -> bool {
    &&& in_range(c.public_unshield)
    &&& spend_ok(p, c.inputs.0, c.anchor, c.nullifiers.0)
    &&& spend_ok(p, c.inputs.1, c.anchor, c.nullifiers.1)
    &&& output_ok(p, c.outputs.0, c.out_commitments.0)
    &&& output_ok(p, c.outputs.1, c.out_commitments.1)
    &&& poseidon::fadd(c.inputs.0.value, c.inputs.1.value) == poseidon::fadd(
        poseidon::fadd(c.public_unshield, c.outputs.0.value),
        c.outputs.1.value,
    )
}

fn check_spend(p: &PoseidonParams, note: &SpendNote, anchor: Fr, nullifier: Fr) -> (r: bool)
    requires
        p.wf(),
    ensures
        r == spend_ok(p@, note@, anchor@, nullifier@),
{
    assert(poseidon::values(note.path@).len() == note.path@.len());
    if note.value > 0xFFFF_FFFF_FFFF_FFFF || note.position > 0xFFFF_FFFF || note.path.len()
        != shielded::TREE_DEPTH {
        return false;
    }
    let owner = shielded::owner_tag(p, note.spend_key);
    let cm = shielded::note_commitment(p, owner, note.value, note.rho);
    if note.value != 0 && !shielded::verify_path(p, cm, note.position, &note.path, anchor) {
        return false;
    }
    shielded::nullifier(p, note.spend_key, note.position).same(nullifier)
}

fn check_output(p: &PoseidonParams, note: &OutputNote, commitment: Fr) -> (r: bool)
    requires
        p.wf(),
    ensures
        r == output_ok(p@, note@, commitment@),
{
    note.value <= 0xFFFF_FFFF_FFFF_FFFF && shielded::note_commitment(
        p,
        note.owner,
        note.value,
        note.rho,
    ).same(commitment)
}

impl SpendCircuit {
    /// Whether a spend satisfies the relation: a prover asks this before it spends time on
    /// a proof that could not verify.
    pub fn is_satisfied(&self, p: &PoseidonParams) -> (r: bool)
        requires
            p.wf(),
        ensures
            r == satisfied(p@, self@),
    {
        let total_in = poseidon::fr_u128(self.inputs[0].value).plus(
            poseidon::fr_u128(self.inputs[1].value),
        );
        let total_out = poseidon::fr_u128(self.public_unshield).plus(
            poseidon::fr_u128(self.outputs[0].value),
        ).plus(poseidon::fr_u128(self.outputs[1].value));
        self.public_unshield <= 0xFFFF_FFFF_FFFF_FFFF && check_spend(
            p,
            &self.inputs[0],
            self.anchor,
            self.nullifiers[0],
        ) && check_spend(p, &self.inputs[1], self.anchor, self.nullifiers[1]) && check_output(
            p,
            &self.outputs[0],
            self.out_commitments[0],
        ) && check_output(p, &self.outputs[1], self.out_commitments[1]) && total_in.same(total_out)
    }
}

/// Value is conserved: what goes in comes out, note by note and in the clear, as numbers
/// and not only in the field. No note is minted by wrap-around.
pub proof fn law_spend_conserves_value(p: ParamsV, c: SpendCircuitV)
    requires
        satisfied(p, c),
    ensures
        c.inputs.0.value + c.inputs.1.value == c.public_unshield + c.outputs.0.value
            + c.outputs.1.value,
{
    lemma_small_sums(c.inputs.0.value, c.inputs.1.value);
    lemma_small_sums(c.public_unshield, c.outputs.0.value);
    lemma_small_sums(c.public_unshield + c.outputs.0.value, c.outputs.1.value);
}

proof fn lemma_small_sums(a: nat, b: nat)
    requires
        a < 0x2_0000_0000_0000_0000,
        b < 0x1_0000_0000_0000_0000,
    ensures
        poseidon::fadd(a, b) == a + b,
{
    reveal(poseidon::fadd);
    assert(a + b < poseidon::modulus());
    assert((a + b) % poseidon::modulus() == a + b) by (nonlinear_arith)
        requires
            0 <= a + b < poseidon::modulus(),
    ;
}

/// A note spent twice shows the same nullifier, whatever else the two spends hold: the
/// nullifier depends on the key and the position alone.
pub proof fn law_nullifier_marks_the_note(p: ParamsV, a: SpendCircuitV, b: SpendCircuitV)
    requires
        satisfied(p, a),
        satisfied(p, b),
        a.inputs.0.spend_key == b.inputs.0.spend_key,
        a.inputs.0.position == b.inputs.0.position,
    ensures
        a.nullifiers.0 == b.nullifiers.0,
{
}

// ---------------------------------------------------------------- proofs

/// The public inputs of a spend, in their order.
pub open spec fn inputs_of(c: SpendCircuitV) -> Seq<nat> {
    seq![
        c.anchor,
        c.nullifiers.0,
        c.nullifiers.1,
        c.out_commitments.0,
        c.out_commitments.1,
        c.public_unshield,
    ]
}

/// Lists the public inputs of a spend.
pub fn public_inputs(c: &SpendCircuit) -> (r: Vec<Fr>)
    ensures
        poseidon::values(r@) == inputs_of(c@),
{
    let mut v: Vec<Fr> = Vec::new();
    v.push(c.anchor);
    v.push(c.nullifiers[0]);
    v.push(c.nullifiers[1]);
    v.push(c.out_commitments[0]);
    v.push(c.out_commitments[1]);
    v.push(poseidon::fr_u128(c.public_unshield));
    assert(poseidon::values(v@) =~= inputs_of(c@));
    v
}

/// Whether a Groth16 proof over BN254 verifies: of the compressed verifying key, the
/// compressed proof and the public inputs.
pub uninterp spec fn groth16_accepts(vk: Seq<u8>, proof: Seq<u8>, inputs: Seq<nat>) -> bool;

/// The compressed form of the proof that bytes start with.
pub uninterp spec fn groth16_proof(raw: Seq<u8>) -> Option<Seq<u8>>;

/// The compressed form of the verifying key that bytes start with.
pub uninterp spec fn groth16_key(raw: Seq<u8>) -> Option<Seq<u8>>;

/// Elements of a list of limbs.
pub open spec fn elements(v: Seq<[u64; 4]>) -> Seq<nat> {
    v.map_values(|l: [u64; 4]| poseidon::element(l@))
}

/// `Groth16::verify_proof` of `ark_groth16` over BN254, with the key prepared by
/// `prepare_verifying_key`: a function of key, proof and public inputs. Bytes that are
/// no key or no proof, and a number of inputs that does not fit the key, are refused.
#[verifier::external_body]
fn ark_verify(vk: &[u8], proof: &[u8], inputs: &Vec<[u64; 4]>) -> (r: bool)
    requires
        forall|i: int| 0 <= i < inputs@.len() ==> poseidon::reduced(#[trigger] inputs@[i]@),
    ensures
        r == groth16_accepts(vk@, proof@, elements(inputs@)),
{
    let key = ark_groth16::VerifyingKey::<ark_bn254::Bn254>::deserialize_compressed(vk);
    let given = ark_groth16::Proof::<ark_bn254::Bn254>::deserialize_compressed(proof);
    let list: Vec<ark_bn254::Fr> =
        inputs.iter().map(|l| ark_bn254::Fr::new_unchecked(ark_ff::BigInt(*l))).collect();
    match (key, given) {
        (Ok(k), Ok(p)) => {
            let ready = ark_groth16::prepare_verifying_key(&k);
            ark_groth16::Groth16::<ark_bn254::Bn254>::verify_proof(&ready, &p, &list).unwrap_or(false)
        },
        _ => false,
    }
}

/// `CanonicalDeserialize::deserialize_compressed` of `ark_serialize` into a proof, and
/// `serialize_compressed` of it: the compressed form of the proof the bytes start with.
#[verifier::external_body]
fn ark_proof(raw: &[u8]) -> (r: Option<Vec<u8>>)
    ensures
        match r {
            Some(b) => groth16_proof(raw@) == Some(b@),
            None => groth16_proof(raw@) is None,
        },
{
    let p = ark_groth16::Proof::<ark_bn254::Bn254>::deserialize_compressed(raw).ok()?;
    let mut b = Vec::new();
    p.serialize_compressed(&mut b).ok()?;
    Some(b)
}

/// `CanonicalDeserialize::deserialize_compressed` of `ark_serialize` into a verifying
/// key, and `serialize_compressed` of it: the compressed form of the key the bytes start
/// with.
#[verifier::external_body]
fn ark_key(raw: &[u8]) -> (r: Option<Vec<u8>>)
    ensures
        match r {
            Some(b) => groth16_key(raw@) == Some(b@),
            None => groth16_key(raw@) is None,
        },
{
    let k = ark_groth16::VerifyingKey::<ark_bn254::Bn254>::deserialize_compressed(raw).ok()?;
    let mut b = Vec::new();
    k.serialize_compressed(&mut b).ok()?;
    Some(b)
}

/// Checks a proof against a verifying key, both compressed, and public inputs.
pub fn verify(vk: &[u8], proof: &[u8], inputs: &Vec<Fr>) -> (r: bool)
    ensures
        r == groth16_accepts(vk@, proof@, poseidon::values(inputs@)),
{
    let mut list: Vec<[u64; 4]> = Vec::new();
    let mut i: usize = 0;
    while i < inputs.len()
        invariant
            i <= inputs@.len(),
            list@.len() == i,
            forall|j: int| 0 <= j < i ==> poseidon::reduced(#[trigger] list@[j]@),
            forall|j: int|
                0 <= j < i ==> poseidon::element(#[trigger] list@[j]@) == inputs@[j]@,
        decreases inputs@.len() - i,
    {
        list.push(inputs[i].parts());
        i = i + 1;
    }
    assert(elements(list@) =~= poseidon::values(inputs@));
    ark_verify(vk, proof, &list)
}

/// The bytes a text of hexadecimal digits holds, blanks around it left out.
pub open spec fn text_bytes(s: Seq<char>) -> Option<Seq<u8>> {
    crypto::unhex(text::trimmed(s))
}

/// Writes a compressed proof as text.
pub fn proof_to_hex(p: &[u8]) -> (r: String)
    ensures
        r@ == crypto::hex_text(p@),
{
    crypto::to_hex(p)
}

/// Reads a proof from text, in its compressed form.
pub fn proof_from_hex(s: &str) -> (r: Option<Vec<u8>>)
    ensures
        match r {
            Some(b) => text_bytes(s@) is Some && groth16_proof(text_bytes(s@)->Some_0) == Some(b@),
            None => text_bytes(s@) is None || groth16_proof(text_bytes(s@)->Some_0) is None,
        },
{
    match crypto::from_hex(text::trim(s).as_str()) {
        Some(raw) => ark_proof(raw.as_slice()),
        None => None,
    }
}

/// Writes a compressed verifying key as text.
pub fn vk_to_hex(vk: &[u8]) -> (r: String)
    ensures
        r@ == crypto::hex_text(vk@),
{
    crypto::to_hex(vk)
}

/// Reads a verifying key from text, in its compressed form.
pub fn vk_from_hex(s: &str) -> (r: Option<Vec<u8>>)
    ensures
        match r {
            Some(b) => text_bytes(s@) is Some && groth16_key(text_bytes(s@)->Some_0) == Some(b@),
            None => text_bytes(s@) is None || groth16_key(text_bytes(s@)->Some_0) is None,
        },
{
    match crypto::from_hex(text::trim(s).as_str()) {
        Some(raw) => ark_key(raw.as_slice()),
        None => None,
    }
}

} // verus!
