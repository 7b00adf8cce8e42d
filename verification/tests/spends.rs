//! Proofs of shielded spends, made with the real prover and checked by the library.

use ark_bn254::Bn254;
use ark_ff::PrimeField;
use ark_groth16::{Groth16, Proof, ProvingKey};
use ark_r1cs_std::boolean::Boolean;
use ark_r1cs_std::eq::EqGadget;
use ark_r1cs_std::fields::fp::FpVar;
use ark_r1cs_std::fields::FieldVar;
use ark_r1cs_std::prelude::AllocVar;
use ark_r1cs_std::select::CondSelectGadget;
use ark_r1cs_std::ToBitsGadget;
use ark_relations::r1cs::{
    ConstraintSynthesizer, ConstraintSystem, ConstraintSystemRef, SynthesisError,
};
use ark_serialize::CanonicalSerialize;
use ark_std::rand::rngs::StdRng;
use ark_std::rand::SeedableRng;
use inazuma::poseidon::{fr_u64, Fr, PoseidonParams, POSEIDON_RF, POSEIDON_RP, POSEIDON_T};
use inazuma::shielded::{
    merkle_path, note_commitment, nullifier, owner_tag, root_from_leaves, NoteTree, TREE_DEPTH,
};
use inazuma::shielded_circuit::{
    proof_from_hex, proof_to_hex, public_inputs, verify, vk_from_hex, vk_to_hex, OutputNote,
    SpendCircuit, SpendNote,
};

type F = ark_bn254::Fr;

fn ark(f: Fr) -> F {
    F::from_be_bytes_mod_order(&f.to_bytes())
}

/// A spend with the constants of the hash, ready for the prover.
struct Prover<'a> {
    p: &'a PoseidonParams,
    c: &'a SpendCircuit,
}

fn hash(p: &PoseidonParams, a: &FpVar<F>, b: &FpVar<F>) -> Result<FpVar<F>, SynthesisError> {
    let mut state: Vec<FpVar<F>> = vec![a.clone(), b.clone(), FpVar::constant(F::from(0u64))];
    let half = POSEIDON_RF / 2;
    for round in 0..(POSEIDON_RF + POSEIDON_RP) {
        for (j, s) in state.iter_mut().enumerate() {
            *s += ark(p.ark[round * POSEIDON_T + j]);
        }
        if round >= half && round < half + POSEIDON_RP {
            state[0] = state[0].pow_by_constant([5u64])?;
        } else {
            for s in state.iter_mut() {
                *s = s.pow_by_constant([5u64])?;
            }
        }
        let old = state.clone();
        for (j, s) in state.iter_mut().enumerate() {
            let mut acc = FpVar::constant(F::from(0u64));
            for (k, o) in old.iter().enumerate() {
                acc += o * ark(p.mds[j][k]);
            }
            *s = acc;
        }
    }
    Ok(state[0].clone())
}

fn below_64_bits(v: &FpVar<F>) -> Result<(), SynthesisError> {
    for b in v.to_bits_le()?.iter().skip(64) {
        b.enforce_equal(&Boolean::FALSE)?;
    }
    Ok(())
}

impl<'a> ConstraintSynthesizer<F> for Prover<'a> {
    fn generate_constraints(self, cs: ConstraintSystemRef<F>) -> Result<(), SynthesisError> {
        let (p, c) = (self.p, self.c);
        let zero = FpVar::constant(F::from(0u64));
        let anchor = FpVar::new_input(cs.clone(), || Ok(ark(c.anchor)))?;
        let mut nf = Vec::new();
        for n in c.nullifiers.iter() {
            nf.push(FpVar::new_input(cs.clone(), || Ok(ark(*n)))?);
        }
        let mut cm_out = Vec::new();
        for m in c.out_commitments.iter() {
            cm_out.push(FpVar::new_input(cs.clone(), || Ok(ark(*m)))?);
        }
        let leaving = FpVar::new_input(cs.clone(), || Ok(F::from(c.public_unshield)))?;
        below_64_bits(&leaving)?;

        let mut total_in = zero.clone();
        for (i, note) in c.inputs.iter().enumerate() {
            let sk = FpVar::new_witness(cs.clone(), || Ok(ark(note.spend_key)))?;
            let value = FpVar::new_witness(cs.clone(), || Ok(F::from(note.value)))?;
            let rho = FpVar::new_witness(cs.clone(), || Ok(ark(note.rho)))?;
            let position = FpVar::new_witness(cs.clone(), || Ok(F::from(note.position)))?;
            below_64_bits(&value)?;
            let owner = hash(p, &sk, &zero)?;
            let cm = hash(p, &hash(p, &owner, &value)?, &rho)?;
            let bits = position.to_bits_le()?;
            for b in bits.iter().skip(TREE_DEPTH) {
                b.enforce_equal(&Boolean::FALSE)?;
            }
            let mut cur = cm;
            for (level, s) in note.path.iter().enumerate() {
                let sibling = FpVar::new_witness(cs.clone(), || Ok(ark(*s)))?;
                let left = FpVar::conditionally_select(&bits[level], &sibling, &cur)?;
                let right = FpVar::conditionally_select(&bits[level], &cur, &sibling)?;
                cur = hash(p, &left, &right)?;
            }
            let one = FpVar::constant(F::from(1u64));
            let enforce = FpVar::conditionally_select(&value.is_zero()?, &zero, &one)?;
            ((cur - &anchor) * enforce).enforce_equal(&zero)?;
            hash(p, &sk, &position)?.enforce_equal(&nf[i])?;
            total_in += value;
        }
        let mut total_out = leaving;
        for (i, note) in c.outputs.iter().enumerate() {
            let owner = FpVar::new_witness(cs.clone(), || Ok(ark(note.owner)))?;
            let value = FpVar::new_witness(cs.clone(), || Ok(F::from(note.value)))?;
            let rho = FpVar::new_witness(cs.clone(), || Ok(ark(note.rho)))?;
            below_64_bits(&value)?;
            hash(p, &hash(p, &owner, &value)?, &rho)?.enforce_equal(&cm_out[i])?;
            total_out += value;
        }
        total_in.enforce_equal(&total_out)
    }
}

/// Whether the constraint system accepts a spend.
fn synthesized(p: &PoseidonParams, c: &SpendCircuit) -> bool {
    let cs = ConstraintSystem::<F>::new_ref();
    Prover { p, c }.generate_constraints(cs.clone()).unwrap();
    cs.is_satisfied().unwrap()
}

fn fixture(tree: &NoteTree) -> SpendCircuit {
    let p = tree.params();
    let sk1 = fr_u64(111);
    let sk2 = fr_u64(222);
    let cm1 = note_commitment(p, owner_tag(p, sk1), 50, fr_u64(1));
    let cm2 = note_commitment(p, owner_tag(p, sk2), 70, fr_u64(2));
    let leaves = vec![cm1, cm2];
    let out1 = OutputNote {
        owner: fr_u64(9),
        value: 90,
        rho: fr_u64(3),
    };
    let out2 = OutputNote {
        owner: fr_u64(8),
        value: 30,
        rho: fr_u64(4),
    };
    SpendCircuit {
        anchor: root_from_leaves(tree, &leaves),
        nullifiers: [nullifier(p, sk1, 0), nullifier(p, sk2, 1)],
        out_commitments: [
            note_commitment(p, out1.owner, out1.value, out1.rho),
            note_commitment(p, out2.owner, out2.value, out2.rho),
        ],
        public_unshield: 0,
        inputs: [
            SpendNote {
                spend_key: sk1,
                value: 50,
                rho: fr_u64(1),
                position: 0,
                path: merkle_path(tree, &leaves, 0).unwrap(),
            },
            SpendNote {
                spend_key: sk2,
                value: 70,
                rho: fr_u64(2),
                position: 1,
                path: merkle_path(tree, &leaves, 1).unwrap(),
            },
        ],
        outputs: [out1, out2],
    }
}

fn setup(p: &PoseidonParams, c: &SpendCircuit) -> (ProvingKey<Bn254>, Vec<u8>) {
    let mut rng = StdRng::seed_from_u64(0x1A42_5113_D3D0_0001);
    let pk =
        Groth16::<Bn254>::generate_random_parameters_with_reduction(Prover { p, c }, &mut rng)
            .unwrap();
    let mut vk = Vec::new();
    pk.vk.serialize_compressed(&mut vk).unwrap();
    (pk, vk)
}

fn prove(pk: &ProvingKey<Bn254>, p: &PoseidonParams, c: &SpendCircuit) -> Vec<u8> {
    let mut rng = StdRng::seed_from_u64(7);
    let proof: Proof<Bn254> =
        Groth16::<Bn254>::create_random_proof_with_reduction(Prover { p, c }, pk, &mut rng)
            .unwrap();
    let mut b = Vec::new();
    proof.serialize_compressed(&mut b).unwrap();
    b
}

#[test]
fn valid_spend_proves_and_verifies() {
    let tree = NoteTree::new();
    let p = tree.params();
    let circuit = fixture(&tree);
    assert!(circuit.is_satisfied(p));
    let (pk, vk) = setup(p, &circuit);
    let inputs = public_inputs(&circuit);
    let proof = prove(&pk, p, &circuit);
    assert!(verify(&vk, &proof, &inputs));

    // The same proof says nothing of other public inputs.
    let mut forged = fixture(&tree);
    forged.outputs[0].value = 999;
    forged.out_commitments[0] =
        note_commitment(p, forged.outputs[0].owner, 999, forged.outputs[0].rho);
    assert!(!verify(&vk, &proof, &public_inputs(&forged)), "forgery verified!");
}

#[test]
fn forged_value_is_rejected() {
    let tree = NoteTree::new();
    let p = tree.params();
    let mut circuit = fixture(&tree);
    circuit.outputs[0].value = 999;
    circuit.out_commitments[0] =
        note_commitment(p, circuit.outputs[0].owner, 999, circuit.outputs[0].rho);
    assert!(!circuit.is_satisfied(p), "money out of thin air");
    assert!(!synthesized(p, &circuit), "forgery has a witness!");
    let honest = fixture(&tree);
    let (pk, vk) = setup(p, &honest);
    let proof = prove(&pk, p, &honest);
    assert!(!verify(&vk, &proof, &public_inputs(&circuit)), "forgery verified!");
}

#[test]
fn wrong_spend_key_is_rejected() {
    let tree = NoteTree::new();
    let p = tree.params();
    let mut circuit = fixture(&tree);
    circuit.inputs[0].spend_key = fr_u64(999);
    assert!(!circuit.is_satisfied(p), "a stranger's key spends the note");
    assert!(!synthesized(p, &circuit), "a stranger's key has a witness");
    circuit.nullifiers[0] = nullifier(p, fr_u64(999), 0);
    assert!(!circuit.is_satisfied(p));
    assert!(!synthesized(p, &circuit));
    let honest = fixture(&tree);
    let (pk, vk) = setup(p, &honest);
    let proof = prove(&pk, p, &honest);
    assert!(!verify(&vk, &proof, &public_inputs(&circuit)));
}

/// The statement and the constraint system agree, on a good spend and on spends with one
/// field changed.
#[test]
fn constraints_agree_with_the_statement() {
    let tree = NoteTree::new();
    let p = tree.params();
    let good = fixture(&tree);
    assert!(good.is_satisfied(p) && synthesized(p, &good));

    let mut cases: Vec<SpendCircuit> = Vec::new();
    for i in 0..10 {
        let mut c = fixture(&tree);
        match i {
            0 => c.anchor = fr_u64(5),
            1 => c.nullifiers[1] = fr_u64(5),
            2 => c.out_commitments[1] = fr_u64(5),
            3 => c.public_unshield = 1,
            4 => c.inputs[0].value = 51,
            5 => c.inputs[0].rho = fr_u64(5),
            6 => c.inputs[1].position = 3,
            7 => c.inputs[1].path[31] = fr_u64(5),
            8 => c.outputs[1].owner = fr_u64(5),
            _ => c.outputs[1].rho = fr_u64(5),
        }
        cases.push(c);
    }
    for c in cases.iter() {
        assert!(!c.is_satisfied(p));
        assert!(!synthesized(p, c));
    }

    // Value may leave the pool in the open.
    let mut out = fixture(&tree);
    out.outputs[1].value = 10;
    out.out_commitments[1] = note_commitment(p, out.outputs[1].owner, 10, out.outputs[1].rho);
    out.public_unshield = 20;
    assert!(out.is_satisfied(p) && synthesized(p, &out));

    // A note without value fills a slot and needs no place in the tree.
    let mut one = fixture(&tree);
    one.inputs[1].value = 0;
    one.inputs[1].path[0] = fr_u64(5);
    one.outputs[0].value = 20;
    one.out_commitments[0] = note_commitment(p, one.outputs[0].owner, 20, one.outputs[0].rho);
    assert!(one.is_satisfied(p) && synthesized(p, &one));

    // Values that do not fit 64 bits are refused, whatever the sums are.
    let mut wide = fixture(&tree);
    wide.outputs[0].value = 1u128 << 64;
    wide.out_commitments[0] =
        note_commitment(p, wide.outputs[0].owner, 1u128 << 64, wide.outputs[0].rho);
    assert!(!wide.is_satisfied(p) && !synthesized(p, &wide));
}

/// Knowledge of a square root of the first public input; the other inputs are free.
struct Root {
    root: u64,
    inputs: Vec<F>,
}

impl ConstraintSynthesizer<F> for Root {
    fn generate_constraints(self, cs: ConstraintSystemRef<F>) -> Result<(), SynthesisError> {
        let w = FpVar::new_witness(cs.clone(), || Ok(F::from(self.root)))?;
        let first = FpVar::new_input(cs.clone(), || Ok(self.inputs[0]))?;
        (&w * &w).enforce_equal(&first)?;
        for x in self.inputs.iter().skip(1) {
            let v = FpVar::new_input(cs.clone(), || Ok(*x))?;
            (&v * &w).enforce_equal(&(&w * &v))?;
        }
        Ok(())
    }
}

#[test]
fn proofs_bind_their_public_inputs() {
    let root = || Root {
        root: 12,
        inputs: vec![F::from(144u64), F::from(5u64)],
    };
    let mut rng = StdRng::seed_from_u64(1);
    let pk = Groth16::<Bn254>::generate_random_parameters_with_reduction(root(), &mut rng).unwrap();
    let proof =
        Groth16::<Bn254>::create_random_proof_with_reduction(root(), &pk, &mut rng).unwrap();
    let mut vk = Vec::new();
    pk.vk.serialize_compressed(&mut vk).unwrap();
    let mut bytes = Vec::new();
    proof.serialize_compressed(&mut bytes).unwrap();

    assert!(verify(&vk, &bytes, &vec![fr_u64(144), fr_u64(5)]));
    assert!(!verify(&vk, &bytes, &vec![fr_u64(143), fr_u64(5)]));
    assert!(!verify(&vk, &bytes, &vec![fr_u64(144)]));
    assert!(!verify(&vk, b"no proof", &vec![fr_u64(144), fr_u64(5)]));
    assert!(!verify(b"no key", &bytes, &vec![fr_u64(144), fr_u64(5)]));

    // Text holds the same proof and key, with blanks around it or bytes behind it.
    assert_eq!(proof_from_hex(&proof_to_hex(&bytes)), Some(bytes.clone()));
    assert_eq!(
        proof_from_hex(&format!(" {}00 ", proof_to_hex(&bytes))),
        Some(bytes)
    );
    assert_eq!(vk_from_hex(&vk_to_hex(&vk)), Some(vk));
    assert_eq!(proof_from_hex("zz"), None);
    assert_eq!(proof_from_hex("00"), None);
    assert_eq!(vk_from_hex("00"), None);
}
