//! Poseidon hash over the scalar field of BN254.
//!
//! The hash behind every commitment of the shielded pool. Parameters come from the
//! Grain LFSR for width 3, S-box `x^5`, 8 full and 57 partial rounds; generation is
//! deterministic, so there is no parameter file to trust.
//!
//! A field element is held as the four Montgomery limbs the field crate works on and
//! modelled as a number below the field's modulus.

use crate::crypto;
use crate::smt;
use crate::text;
use ark_ff::BigInteger;
use ark_ff::Field;
use ark_ff::PrimeField;
use vstd::prelude::*;
use vstd::string::*;

verus! {

pub const POSEIDON_T: usize = 3;

pub const POSEIDON_RF: usize = 8;

/// Partial rounds for 128-bit security at width 3 over a 254-bit field.
pub const POSEIDON_RP: usize = 57;

pub const POSEIDON_ROUNDS: usize = 65;

/// Rejected samples after which the next one is reduced instead.
pub const MAX_REJECTIONS: usize = 256;

// ---------------------------------------------------------------- field elements

/// Modulus of the field.
pub open spec fn modulus() -> nat {
    21888242871839275222246405745257275088548364400416034343698204186575808495617nat
}

/// Inverse of `2^256` modulo the field's modulus: a Montgomery representative times
/// this is the element it stands for.
pub open spec fn montgomery_inverse() -> nat {
    9915499612839321149637521777990102151350674507940716049588462388200839649614nat
}

/// The number four little-endian limbs make up.
pub open spec fn limbs_value(l: Seq<u64>) -> nat {
    (l[0] + l[1] * 0x1_0000_0000_0000_0000int + l[2]
        * 0x1_0000_0000_0000_0000_0000_0000_0000_0000int + l[3]
        * 0x1_0000_0000_0000_0000_0000_0000_0000_0000_0000_0000_0000_0000int) as nat
}

/// The field element Montgomery limbs stand for.
#[verifier::opaque]
pub open spec fn element(l: Seq<u64>) -> nat {
    (limbs_value(l) * montgomery_inverse()) % modulus()
}

/// Limbs of a representative below the modulus.
pub open spec fn reduced(l: Seq<u64>) -> bool {
    l.len() == 4 && limbs_value(l) < modulus()
}

/// Sum in the field.
#[verifier::opaque]
pub open spec fn fadd(a: nat, b: nat) -> nat {
    (a + b) % modulus()
}

/// Product in the field.
#[verifier::opaque]
pub open spec fn fmul(a: nat, b: nat) -> nat {
    (a * b) % modulus()
}

/// Fifth power in the field.
pub open spec fn fpow5(a: nat) -> nat {
    fmul(fmul(fmul(a, a), fmul(a, a)), a)
}

/// `Fp::add` of `ark_ff` on the scalar field of `ark_bn254`: the sum of the elements.
#[verifier::external_body]
fn ark_add(a: [u64; 4], b: [u64; 4]) -> (r: [u64; 4])
    requires
        reduced(a@),
        reduced(b@),
    ensures
        reduced(r@),
        element(r@) == fadd(element(a@), element(b@)),
{
    let x = ark_bn254::Fr::new_unchecked(ark_ff::BigInt(a));
    (x + ark_bn254::Fr::new_unchecked(ark_ff::BigInt(b))).0.0
}

/// `Fp::mul` of `ark_ff` on the scalar field of `ark_bn254`: the product of the
/// elements.
#[verifier::external_body]
fn ark_mul(a: [u64; 4], b: [u64; 4]) -> (r: [u64; 4])
    requires
        reduced(a@),
        reduced(b@),
    ensures
        reduced(r@),
        element(r@) == fmul(element(a@), element(b@)),
{
    let x = ark_bn254::Fr::new_unchecked(ark_ff::BigInt(a));
    (x * ark_bn254::Fr::new_unchecked(ark_ff::BigInt(b))).0.0
}

/// `Field::inverse` of `ark_ff`: the element whose product with the argument is one;
/// zero has none.
#[verifier::external_body]
fn ark_inverse(a: [u64; 4]) -> (r: Option<[u64; 4]>)
    requires
        reduced(a@),
    ensures
        match r {
            Some(x) => reduced(x@) && element(a@) != 0 && fmul(element(a@), element(x@)) == 1,
            None => element(a@) == 0,
        },
{
    ark_bn254::Fr::new_unchecked(ark_ff::BigInt(a)).inverse().map(|x| x.0.0)
}

/// `Fr::from(u128)` of `ark_ff`: the element that is that number.
#[verifier::external_body]
fn ark_from(v: u128) -> (r: [u64; 4])
    ensures
        reduced(r@),
        element(r@) == v,
{
    ark_bn254::Fr::from(v).0.0
}

/// `PrimeField::from_be_bytes_mod_order` of `ark_ff`: the big-endian number the bytes
/// denote, modulo the field's modulus.
#[verifier::external_body]
fn ark_from_be(b: &[u8]) -> (r: [u64; 4])
    ensures
        reduced(r@),
        element(r@) == text::from_be(b@) % modulus(),
{
    ark_bn254::Fr::from_be_bytes_mod_order(b).0.0
}

/// `into_bigint().to_bytes_be()` of `ark_ff`: 32 big-endian bytes that denote the
/// element.
#[verifier::external_body]
fn ark_to_be(a: [u64; 4]) -> (r: Vec<u8>)
    requires
        reduced(a@),
    ensures
        r@.len() == 32,
        text::from_be(r@) == element(a@),
{
    ark_bn254::Fr::new_unchecked(ark_ff::BigInt(a)).into_bigint().to_bytes_be()
}

/// The number 32 bytes denote in little-endian order, without its two highest bits.
#[verifier::opaque]
pub open spec fn shaved(b: Seq<u8>) -> nat {
    text::from_be(b.reverse())
        % 28948022309329048855892746252171976963317496166410141009864396001978282409984nat
}

/// `Field::from_random_bytes` of `ark_ff` on 32 bytes: the little-endian number they
/// denote without its two highest bits, when that is below the modulus.
#[verifier::external_body]
fn ark_from_random(b: &[u8; 32]) -> (r: Option<[u64; 4]>)
    ensures
        match r {
            Some(x) => reduced(x@) && shaved(b@) < modulus() && element(x@) == shaved(b@),
            None => shaved(b@) >= modulus(),
        },
{
    ark_bn254::Fr::from_random_bytes(b).map(|x| x.0.0)
}

/// An element of the field.
#[derive(Clone, Copy, Debug)]
pub struct Fr {
    limbs: [u64; 4],
}

impl View for Fr {
    type V = nat;

    closed spec fn view(&self) -> nat {
        element(self.limbs@)
    }
}

impl Fr {
    /// The limbs are those of a representative below the modulus.
    #[verifier::type_invariant]
    spec fn inv(self) -> bool {
        reduced(self.limbs@)
    }

    /// The element that is a number.
    pub fn from_u128(v: u128) -> (r: Fr)
        ensures
            r@ == v,
    {
        Fr { limbs: ark_from(v) }
    }

    /// Sum.
    pub fn plus(self, other: Fr) -> (r: Fr)
        ensures
            r@ == fadd(self@, other@),
    {
        proof {
            use_type_invariant(&self);
            use_type_invariant(&other);
        }
        Fr { limbs: ark_add(self.limbs, other.limbs) }
    }

    /// Product.
    pub fn times(self, other: Fr) -> (r: Fr)
        ensures
            r@ == fmul(self@, other@),
    {
        proof {
            use_type_invariant(&self);
            use_type_invariant(&other);
        }
        Fr { limbs: ark_mul(self.limbs, other.limbs) }
    }

    /// Fifth power.
    pub fn pow5(self) -> (r: Fr)
        ensures
            r@ == fpow5(self@),
    {
        let square = self.times(self);
        square.times(square).times(self)
    }

    /// The inverse, or zero when there is none.
    pub fn inverse_or_zero(self) -> (r: Fr)
        ensures
            self@ != 0 ==> fmul(self@, r@) == 1,
            self@ == 0 ==> r@ == 0,
    {
        proof {
            use_type_invariant(&self);
        }
        match ark_inverse(self.limbs) {
            Some(x) => Fr { limbs: x },
            None => Fr::from_u128(0),
        }
    }

    /// The 32 big-endian bytes of the element.
    pub fn to_bytes(self) -> (r: Vec<u8>)
        ensures
            r@ == text::be(self@, 32),
            r@.len() == 32,
            self@ < modulus(),
    {
        proof {
            use_type_invariant(&self);
        }
        let b = ark_to_be(self.limbs);
        proof {
            text::lemma_from_be(b@);
            reveal(element);
        }
        b
    }

    /// The limbs an element is held in.
    pub(crate) fn parts(self) -> (r: [u64; 4])
        ensures
            reduced(r@),
            element(r@) == self@,
    {
        proof {
            use_type_invariant(&self);
        }
        self.limbs
    }

    /// Equality.
    pub fn same(self, other: Fr) -> (r: bool)
        ensures
            r == (self@ == other@),
    {
        let a = self.to_bytes();
        let b = other.to_bytes();
        proof {
            text::lemma_from_be(a@);
            text::lemma_from_be(b@);
            lemma_modulus_fits();
            text::lemma_be(self@, 32);
            text::lemma_be(other@, 32);
        }
        text::same_bytes(a.as_slice(), b.as_slice())
    }
}

/// The modulus fits in 32 bytes.
pub proof fn lemma_modulus_fits()
    ensures
        modulus() < text::pow256(32),
{
    reveal_with_fuel(text::pow256, 33);
}

/// The element that is a 64-bit number.
pub fn fr_u64(v: u64) -> (r: Fr)
    ensures
        r@ == v,
{
    Fr::from_u128(v as u128)
}

/// The element that is a 128-bit number.
pub fn fr_u128(v: u128) -> (r: Fr)
    ensures
        r@ == v,
{
    Fr::from_u128(v)
}

/// The element a hexadecimal text of 32 big-endian bytes denotes, modulo the modulus.
pub open spec fn hex_element(s: Seq<char>) -> Option<nat> {
    match crypto::unhex(text::trimmed(s)) {
        Some(raw) => if raw.len() == 32 {
            Some(text::from_be(raw) % modulus())
        } else {
            None
        },
        None => None,
    }
}

/// Reads an element from 64 hexadecimal digits.
pub fn fr_from_hex(s: &str) -> (r: Option<Fr>)
    ensures
        match r {
            Some(f) => hex_element(s@) == Some(f@),
            None => hex_element(s@) is None,
        },
{
    let t = text::trim(s);
    match crypto::from_hex(&t) {
        Some(raw) => if raw.len() == 32 {
            Some(Fr { limbs: ark_from_be(raw.as_slice()) })
        } else {
            None
        },
        None => None,
    }
}

/// Hexadecimal text of an element: 32 big-endian bytes.
pub open spec fn element_hex(f: nat) -> Seq<char> {
    crypto::hex_text(text::be(f, 32))
}

/// Writes an element as 64 hexadecimal digits.
pub fn fr_to_hex(f: &Fr) -> (r: String)
    ensures
        r@ == element_hex(f@),
        f@ < modulus(),
{
    let b = f.to_bytes();
    crypto::to_hex(b.as_slice())
}

/// Every element is read back from its hexadecimal text.
pub proof fn law_hex_round_trip(f: nat)
    requires
        f < modulus(),
    ensures
        hex_element(element_hex(f)) == Some(f),
{
    lemma_modulus_fits();
    text::lemma_be(f, 32);
    crypto::lemma_hex_is_plain(text::be(f, 32));
    crypto::lemma_unhex_hex(text::be(f, 32));
    vstd::arithmetic::div_mod::lemma_small_mod(f, modulus());
}

// ---------------------------------------------------------------- parameter generation

/// The low `n` bits of a number, the heaviest first.
pub open spec fn be_bits(v: nat, n: nat) -> Seq<bool>
    decreases n,
{
    if n == 0 {
        Seq::empty()
    } else {
        be_bits(v / 2, (n - 1) as nat).push(v % 2 == 1)
    }
}

/// The first 80 bits of the generator: prime field, power S-box, field size, width,
/// full and partial rounds, then ones.
pub open spec fn grain_seed() -> Seq<bool> {
    be_bits(1, 2) + be_bits(0, 4) + be_bits(254, 12) + be_bits(3, 12) + be_bits(8, 10) + be_bits(
        57,
        10,
    ) + Seq::new(30, |i: int| true)
}

/// The bit stream of the generator: after the seed, each bit is the sum of six
/// earlier ones.
pub open spec fn grain(n: nat) -> bool
    decreases n,
{
    if n < 80 {
        grain_seed()[n as int]
    } else {
        grain((n - 18) as nat) ^ grain((n - 29) as nat) ^ grain((n - 42) as nat) ^ grain(
            (n - 57) as nat,
        ) ^ grain((n - 67) as nat) ^ grain((n - 80) as nat)
    }
}

/// `q` is the first position from `p` on that holds a one.
pub open spec fn first_one_at(p: nat, q: nat) -> bool {
    &&& p <= q
    &&& grain(q)
    &&& forall|r: nat| p <= r < q ==> !#[trigger] grain(r)
}

/// The first position from `p` on that holds a one.
pub open spec fn first_one(p: nat) -> nat {
    choose|q: nat| first_one_at(p, q)
}

/// `n` filtered bits drawn from position `p` on, and where the next draw starts: a
/// draw skips to the next one and takes the bit behind it.
pub open spec fn draw_bits(p: nat, n: nat) -> (Seq<bool>, nat)
    decreases n,
{
    if n == 0 {
        (Seq::empty(), p)
    } else {
        let (s, q) = draw_bits(p, (n - 1) as nat);
        (s.push(grain(first_one(q) + 1)), first_one(q) + 2)
    }
}

/// The 32 bytes of 254 bits in big-endian order.
pub open spec fn sample_bytes(bits: Seq<bool>) -> Seq<u8> {
    let s = seq![false, false] + bits;
    Seq::new(32, |k: int| smt::byte_of(s, 8 * k))
}

/// An element drawn from position `p` on, and where the next draw starts. A sample
/// not below the modulus is drawn again; after `tries` rejections it is reduced.
#[verifier::opaque]
pub open spec fn draw_element(p: nat, tries: nat) -> (nat, nat)
    decreases tries,
{
    let (bits, q) = draw_bits(p, 254);
    let v = shaved(sample_bytes(bits));
    if v < modulus() {
        (v, q)
    } else if tries == 0 {
        (v % modulus(), q)
    } else {
        draw_element(q, (tries - 1) as nat)
    }
}

/// `n` elements drawn in order from position `p` on, and where the next draw starts.
pub open spec fn draw_elements(p: nat, n: nat) -> (Seq<nat>, nat)
    decreases n,
{
    if n == 0 {
        (Seq::empty(), p)
    } else {
        let (s, q) = draw_elements(p, (n - 1) as nat);
        let (v, r) = draw_element(q, MAX_REJECTIONS as nat);
        (s.push(v), r)
    }
}

/// Six elements, redrawing one that repeats an earlier one at most `tries` times.
pub open spec fn draw_distinct(p: nat, have: Seq<nat>, tries: nat) -> Seq<nat>
    decreases 6 - have.len(), tries,
{
    if have.len() >= 6 {
        have
    } else {
        let (v, q) = draw_element(p, MAX_REJECTIONS as nat);
        if have.contains(v) && tries > 0 {
            draw_distinct(q, have, (tries - 1) as nat)
        } else {
            draw_distinct(q, have.push(v), tries)
        }
    }
}

/// The round constants.
pub open spec fn round_constants() -> Seq<nat> {
    draw_elements(0, 195).0
}

/// The six elements the mixing matrix is made from.
pub open spec fn matrix_points() -> Seq<nat> {
    draw_distinct(draw_elements(0, 195).1, Seq::empty(), MAX_REJECTIONS as nat)
}

/// `m` is the inverse of `x + y`, or zero when that sum is zero.
pub open spec fn cauchy(m: nat, x: nat, y: nat) -> bool {
    if fadd(x, y) == 0 {
        m == 0
    } else {
        fmul(fadd(x, y), m) == 1
    }
}

/// The generator, with the position of its window in the bit stream.
struct GrainLfsr {
    state: Vec<bool>,
    at: Ghost<nat>,
}

impl GrainLfsr {
    spec fn wf(self) -> bool {
        &&& self.state@.len() == 80
        &&& forall|k: int|
            0 <= k < 80 ==> (#[trigger] self.state@[k]) == grain((self.at@ + k) as nat)
        &&& exists|k: int| 0 <= k < 80 && #[trigger] self.state@[k]
    }

    fn new() -> (r: GrainLfsr)
        ensures
            r.wf(),
            r.at@ == 0,
    {
        let mut bits: Vec<bool> = Vec::new();
        push_bits(&mut bits, 1, 2);
        push_bits(&mut bits, 0, 4);
        push_bits(&mut bits, 254, 12);
        push_bits(&mut bits, 3, 12);
        push_bits(&mut bits, 8, 10);
        push_bits(&mut bits, 57, 10);
        let ghost head = bits@;
        assert(head =~= be_bits(1, 2) + be_bits(0, 4) + be_bits(254, 12) + be_bits(3, 12) + be_bits(
            8,
            10,
        ) + be_bits(57, 10));
        let mut i: usize = 0;
        while i < 30
            invariant
                i <= 30,
                bits@ == head + Seq::new(i as nat, |k: int| true),
            decreases 30 - i,
        {
            bits.push(true);
            i = i + 1;
            assert(bits@ =~= head + Seq::new(i as nat, |k: int| true));
        }
        proof {
            lemma_be_bits_len(1, 2);
            lemma_be_bits_len(0, 4);
            lemma_be_bits_len(254, 12);
            lemma_be_bits_len(3, 12);
            lemma_be_bits_len(8, 10);
            lemma_be_bits_len(57, 10);
            assert(bits@ =~= grain_seed());
            assert(bits@[79]);
        }
        GrainLfsr { state: bits, at: Ghost(0) }
    }

    /// The next raw bit.
    fn raw_bit(&mut self) -> (r: bool)
        requires
            old(self).wf(),
        ensures
            final(self).wf(),
            final(self).at@ == old(self).at@ + 1,
            r == grain(old(self).at@),
            r == old(self).state@[0],
            forall|k: int|
                0 <= k < 79 ==> #[trigger] final(self).state@[k] == old(self).state@[k + 1],
    {
        let head = self.state[0];
        let new = self.state[62] ^ self.state[51] ^ self.state[38] ^ self.state[23]
            ^ self.state[13] ^ self.state[0];
        let ghost before = self.state@;
        let ghost p = self.at@;
        let _gone = self.state.remove(0);
        self.state.push(new);
        self.at = Ghost(p + 1);
        proof {
            assert(before[62] == grain(p + 62));
            assert(before[51] == grain(p + 51));
            assert(before[38] == grain(p + 38));
            assert(before[23] == grain(p + 23));
            assert(before[13] == grain(p + 13));
            assert(before[0] == grain(p + 0));
            assert(new == grain(p + 80));
            assert forall|k: int| 0 <= k < 80 implies (#[trigger] self.state@[k]) == grain(
                (self.at@ + k) as nat,
            ) by {
                if k < 79 {
                    assert(self.state@[k] == before[k + 1]);
                    assert(before[k + 1] == grain((p + (k + 1)) as nat));
                }
            }
            let k = choose|k: int| 0 <= k < 80 && #[trigger] before[k];
            if k > 0 {
                assert(self.state@[k - 1]);
            } else if exists|j: int| 1 <= j < 80 && #[trigger] before[j] {
                let j = choose|j: int| 1 <= j < 80 && #[trigger] before[j];
                assert(self.state@[j - 1]);
            } else {
                assert(!before[62] && !before[51] && !before[38] && !before[23] && !before[13]);
                assert(new);
                assert(self.state@[79]);
            }
        }
        head
    }

    /// A filtered bit: skip to the next one, then take the bit behind it.
    fn sampled_bit(&mut self) -> (r: bool)
        requires
            old(self).wf(),
        ensures
            final(self).wf(),
            final(self).at@ == first_one(old(self).at@) + 2,
            r == grain(first_one(old(self).at@) + 1),
    {
        let ghost p = self.at@;
        let mut found = false;
        let ghost mut left: int = choose|k: int| 0 <= k < 80 && #[trigger] self.state@[k];
        while !found
            invariant
                self.wf(),
                p <= self.at@,
                found ==> self.at@ > p && first_one_at(p, (self.at@ - 1) as nat),
                !found ==> (forall|r: nat| p <= r < self.at@ ==> !#[trigger] grain(r)),
                !found ==> 0 <= left < 80 && self.state@[left],
                left >= -1,
            decreases left + 1,
        {
            let ghost before = self.state@;
            let ghost at = self.at@;
            found = self.raw_bit();
            proof {
                if !found {
                    assert(left > 0);
                    assert(self.state@[left - 1] == before[left]);
                    assert forall|r: nat| p <= r < self.at@ implies !#[trigger] grain(r) by {
                        if r == at {
                        }
                    }
                }
                left = left - 1;
            }
        }
        proof {
            let q = (self.at@ - 1) as nat;
            let c = first_one(p);
            assert(first_one_at(p, c));
            if c < q {
                assert(!grain(c));
            }
            if q < c {
                assert(!grain(q));
            }
        }
        self.raw_bit()
    }

    /// One field element.
    fn field_element(&mut self) -> (r: Fr)
        requires
            old(self).wf(),
        ensures
            final(self).wf(),
            (r@, final(self).at@) == draw_element(old(self).at@, MAX_REJECTIONS as nat),
    {
        let ghost goal = draw_element(self.at@, MAX_REJECTIONS as nat);
        let mut tries: usize = MAX_REJECTIONS;
        loop
            invariant
                self.wf(),
                goal == draw_element(old(self).at@, MAX_REJECTIONS as nat),
                draw_element(self.at@, tries as nat) == goal,
            decreases tries,
        {
            proof {
                reveal_with_fuel(draw_element, 2);
            }
            let bytes = self.sample();
            match ark_from_random(&bytes) {
                Some(x) => {
                    return Fr { limbs: x };
                },
                None => {
                    if tries == 0 {
                        return reduce_sample(&bytes);
                    }
                },
            }
            tries = tries - 1;
        }
    }

    /// The bytes of 254 filtered bits.
    fn sample(&mut self) -> (r: [u8; 32])
        requires
            old(self).wf(),
        ensures
            final(self).wf(),
            r@ == sample_bytes(draw_bits(old(self).at@, 254).0),
            final(self).at@ == draw_bits(old(self).at@, 254).1,
    {
        let ghost p = self.at@;
        let mut bits: Vec<bool> = Vec::new();
        bits.push(false);
        bits.push(false);
        let mut i: usize = 0;
        assert(bits@ =~= seq![false, false] + draw_bits(p, 0).0);
        while i < 254
            invariant
                i <= 254,
                self.wf(),
                bits@ == seq![false, false] + draw_bits(p, i as nat).0,
                self.at@ == draw_bits(p, i as nat).1,
            decreases 254 - i,
        {
            let b = self.sampled_bit();
            bits.push(b);
            i = i + 1;
            assert(bits@ =~= seq![false, false] + draw_bits(p, i as nat).0);
        }
        proof {
            lemma_draw_bits_len(p, 254);
        }
        let ghost want = sample_bytes(draw_bits(p, 254).0);
        let mut out: [u8; 32] = [0u8; 32];
        let mut k: usize = 0;
        while k < 32
            invariant
                k <= 32,
                bits@.len() == 256,
                want == Seq::new(32, |j: int| smt::byte_of(bits@, 8 * j)),
                forall|j: int| 0 <= j < k ==> out@[j] == want[j],
            decreases 32 - k,
        {
            let at: usize = 8 * k;
            out[k] = byte_at(&bits, at);
            k = k + 1;
        }
        assert(out@ =~= want);
        out
    }
}

/// Eight bits as a byte, the first being the heaviest.
fn byte_at(bits: &Vec<bool>, at: usize) -> (r: u8)
    requires
        at + 8 <= bits@.len(),
    ensures
        r == smt::byte_of(bits@, at as int),
{
    let n: usize = bits.len();
    assert(at + 8 <= n);
    smt::weigh(bits[at], 128) + smt::weigh(bits[at + 1], 64) + smt::weigh(bits[at + 2], 32)
        + smt::weigh(bits[at + 3], 16) + smt::weigh(bits[at + 4], 8) + smt::weigh(bits[at + 5], 4)
        + smt::weigh(bits[at + 6], 2) + smt::weigh(bits[at + 7], 1)
}

/// The sample's number modulo the modulus.
fn reduce_sample(b: &[u8; 32]) -> (r: Fr)
    ensures
        r@ == shaved(b@) % modulus(),
{
    let mut rev: Vec<u8> = Vec::new();
    rev.push(b[31] % 64);
    let mut i: usize = 1;
    while i < 32
        invariant
            1 <= i <= 32,
            rev@.len() == i,
            rev@[0] == b@[31] % 64,
            forall|j: int| 1 <= j < i ==> rev@[j] == b@[31 - j],
        decreases 32 - i,
    {
        rev.push(b[31 - i]);
        i = i + 1;
    }
    proof {
        assert(rev@ =~= b@.reverse().update(0, (b@[31] % 64) as u8));
        lemma_shave(b@.reverse());
        reveal(shaved);
    }
    Fr { limbs: ark_from_be(rev.as_slice()) }
}

/// Reducing the heaviest byte modulo 64 drops the two highest bits of 256.
proof fn lemma_shave(s: Seq<u8>)
    requires
        s.len() == 32,
    ensures
        text::from_be(s.update(0, (s[0] % 64) as u8)) == text::from_be(s)
            % 28948022309329048855892746252171976963317496166410141009864396001978282409984nat,
{
    reveal_with_fuel(text::pow256, 33);
    let t = s.update(0, (s[0] % 64) as u8);
    lemma_from_be_head(s);
    lemma_from_be_head(t);
    assert(s.skip(1) =~= t.skip(1));
    text::lemma_from_be(s.skip(1));
    let low = text::from_be(s.skip(1));
    let w = text::pow256(31);
    assert(w == 452312848583266388373324160190187140051835877600158453279131187530910662656nat);
    let q = s[0] as nat / 64;
    let m = s[0] as nat % 64;
    assert(text::from_be(s) == (64 * q + m) * w + low);
    assert(text::from_be(t) == m * w + low);
    assert((64 * q + m) * w + low == q * (64 * w) + (m * w + low)) by (nonlinear_arith);
    assert(m * w + low < 64 * w) by (nonlinear_arith)
        requires
            m < 64,
            low < w,
    ;
    vstd::arithmetic::div_mod::lemma_fundamental_div_mod_converse(
        text::from_be(s) as int,
        (64 * w) as int,
        q as int,
        (m * w + low) as int,
    );
}

/// The first byte weighs as many powers of 256 as bytes follow it.
proof fn lemma_from_be_head(s: Seq<u8>)
    requires
        s.len() > 0,
    ensures
        text::from_be(s) == s[0] as nat * text::pow256((s.len() - 1) as nat) + text::from_be(
            s.skip(1),
        ),
    decreases s.len(),
{
    if s.len() == 1 {
        assert(s.skip(1).len() == 0);
        assert(s.drop_last().len() == 0);
        assert(text::from_be(s.drop_last()) == 0);
        assert(text::pow256(0) == 1);
        assert(s[0] as nat * text::pow256(0) == s[0] as nat) by (nonlinear_arith)
            requires
                text::pow256(0) == 1,
        ;
    } else {
        let d = s.drop_last();
        lemma_from_be_head(d);
        assert(d.skip(1) =~= s.skip(1).drop_last());
        assert(s.skip(1).last() == s.last());
        let w = text::pow256((s.len() - 2) as nat);
        assert(text::pow256((s.len() - 1) as nat) == 256 * w);
        assert(d[0] == s[0]);
        assert(d.len() == s.len() - 1);
        assert((s[0] as nat * w + text::from_be(d.skip(1))) * 256 == s[0] as nat * (256 * w)
            + text::from_be(d.skip(1)) * 256) by (nonlinear_arith);
    }
}

proof fn lemma_be_bits_len(v: nat, n: nat)
    ensures
        be_bits(v, n).len() == n,
    decreases n,
{
    if n > 0 {
        lemma_be_bits_len(v / 2, (n - 1) as nat);
    }
}

proof fn lemma_draw_bits_len(p: nat, n: nat)
    ensures
        draw_bits(p, n).0.len() == n,
    decreases n,
{
    if n > 0 {
        lemma_draw_bits_len(p, (n - 1) as nat);
    }
}

/// Appends the low `n` bits of a number, the heaviest first.
fn push_bits(bits: &mut Vec<bool>, v: u64, n: u8)
    ensures
        final(bits)@ == old(bits)@ + be_bits(v as nat, n as nat),
    decreases n,
{
    if n > 0 {
        push_bits(bits, v / 2, n - 1);
        bits.push(v % 2 == 1);
    }
    assert(bits@ =~= old(bits)@ + be_bits(v as nat, n as nat));
}

/// Round constants and mixing matrix, with the roots of all-zero subtrees.
pub struct PoseidonParams {
    /// Constants applied before each round's S-box, three per round.
    pub ark: Vec<Fr>,
    /// The mixing matrix, row by row.
    pub mds: Vec<Vec<Fr>>,
}

/// Model of the parameters.
pub struct ParamsV {
    pub ark: Seq<nat>,
    pub mds: Seq<Seq<nat>>,
}

/// Numbers of a list of elements.
pub open spec fn values(v: Seq<Fr>) -> Seq<nat> {
    v.map_values(|f: Fr| f@)
}

impl View for PoseidonParams {
    type V = ParamsV;

    open spec fn view(&self) -> ParamsV {
        ParamsV {
            ark: values(self.ark@),
            mds: self.mds@.map_values(|row: Vec<Fr>| values(row@)),
        }
    }
}

impl PoseidonParams {
    /// The sizes of the lists.
    pub open spec fn wf(self) -> bool {
        &&& self.ark@.len() == 195
        &&& self.mds@.len() == 3
        &&& forall|i: int| 0 <= i < 3 ==> (#[trigger] self.mds@[i])@.len() == 3
    }

    /// A copy.
    pub fn copy(&self) -> (r: PoseidonParams)
        requires
            self.wf(),
        ensures
            r.wf(),
            r@ == self@,
    {
        let mut ark: Vec<Fr> = Vec::new();
        let mut i: usize = 0;
        while i < self.ark.len()
            invariant
                i <= self.ark@.len(),
                ark@ == self.ark@.take(i as int),
            decreases self.ark@.len() - i,
        {
            ark.push(self.ark[i]);
            i = i + 1;
            assert(ark@ =~= self.ark@.take(i as int));
        }
        assert(ark@ =~= self.ark@);
        let mut mds: Vec<Vec<Fr>> = Vec::new();
        let mut a: usize = 0;
        while a < 3
            invariant
                a <= 3,
                self.wf(),
                mds@.len() == a,
                forall|x: int| 0 <= x < a ==> (#[trigger] mds@[x])@ == self.mds@[x]@,
            decreases 3 - a,
        {
            let mut row: Vec<Fr> = Vec::new();
            row.push(self.mds[a][0]);
            row.push(self.mds[a][1]);
            row.push(self.mds[a][2]);
            assert(row@ =~= self.mds@[a as int]@);
            mds.push(row);
            a = a + 1;
        }
        let r = PoseidonParams { ark, mds };
        assert(r@.mds =~= self@.mds);
        r
    }

    /// The parameters are the ones the generator gives.
    pub open spec fn generated(self) -> bool {
        &&& self.wf()
        &&& self@.ark == round_constants()
        &&& forall|i: int, j: int|
            0 <= i < 3 && 0 <= j < 3 ==> cauchy(
                #[trigger] self@.mds[i][j],
                matrix_points()[i],
                matrix_points()[3 + j],
            )
    }
}

/// Whether a list holds an element.
fn holds(v: &Vec<Fr>, f: Fr) -> (r: bool)
    ensures
        r == values(v@).contains(f@),
{
    let mut i: usize = 0;
    while i < v.len()
        invariant
            i <= v@.len(),
            forall|j: int| 0 <= j < i ==> (#[trigger] v@[j])@ != f@,
        decreases v@.len() - i,
    {
        if v[i].same(f) {
            assert(values(v@)[i as int] == f@);
            return true;
        }
        i = i + 1;
    }
    proof {
        if values(v@).contains(f@) {
            let j = choose|j: int| 0 <= j < values(v@).len() && values(v@)[j] == f@;
            assert(v@[j]@ == f@);
        }
    }
    false
}

/// Generates the parameters.
pub fn generate_params() -> (r: PoseidonParams)
    ensures
        r.generated(),
{
    let mut lfsr = GrainLfsr::new();
    let mut ark: Vec<Fr> = Vec::new();
    let mut i: usize = 0;
    assert(values(ark@) =~= draw_elements(0, 0).0);
    while i < 195
        invariant
            i <= 195,
            lfsr.wf(),
            ark@.len() == i,
            (values(ark@), lfsr.at@) == draw_elements(0, i as nat),
        decreases 195 - i,
    {
        let ghost before = values(ark@);
        let f = lfsr.field_element();
        ark.push(f);
        i = i + 1;
        assert(values(ark@) =~= before.push(f@));
    }
    let mut used: Vec<Fr> = Vec::new();
    let mut tries: usize = MAX_REJECTIONS;
    assert(values(used@) =~= Seq::<nat>::empty());
    while used.len() < 6
        invariant
            used@.len() <= 6,
            lfsr.wf(),
            draw_distinct(lfsr.at@, values(used@), tries as nat) == matrix_points(),
        decreases 6 - used@.len(), tries,
    {
        let ghost before = values(used@);
        let f = lfsr.field_element();
        if holds(&used, f) && tries > 0 {
            tries = tries - 1;
        } else {
            used.push(f);
            assert(values(used@) =~= before.push(f@));
        }
    }
    assert(values(used@) == matrix_points());
    let mut mds: Vec<Vec<Fr>> = Vec::new();
    let mut a: usize = 0;
    while a < 3
        invariant
            a <= 3,
            mds@.len() == a,
            used@.len() == 6,
            values(used@) == matrix_points(),
            forall|x: int| 0 <= x < a ==> (#[trigger] mds@[x])@.len() == 3,
            forall|x: int, y: int|
                0 <= x < a && 0 <= y < 3 ==> cauchy(
                    (#[trigger] mds@[x]@[y])@,
                    matrix_points()[x],
                    matrix_points()[3 + y],
                ),
        decreases 3 - a,
    {
        let mut row: Vec<Fr> = Vec::new();
        let mut b: usize = 0;
        while b < 3
            invariant
                a < 3,
                b <= 3,
                row@.len() == b,
                used@.len() == 6,
                values(used@) == matrix_points(),
                forall|y: int|
                    0 <= y < b ==> cauchy(
                        (#[trigger] row@[y])@,
                        matrix_points()[a as int],
                        matrix_points()[3 + y],
                    ),
            decreases 3 - b,
        {
            let denom = used[a].plus(used[3 + b]);
            assert(values(used@)[a as int] == used@[a as int]@);
            assert(values(used@)[3 + b] == used@[3 + b]@);
            row.push(denom.inverse_or_zero());
            b = b + 1;
        }
        mds.push(row);
        a = a + 1;
    }
    let p = PoseidonParams { ark, mds };
    assert forall|i: int, j: int| 0 <= i < 3 && 0 <= j < 3 implies cauchy(
        #[trigger] p@.mds[i][j],
        matrix_points()[i],
        matrix_points()[3 + j],
    ) by {
        assert(p@.mds[i][j] == mds@[i]@[j]@);
    }
    p
}

/// The parameters of the hash.
pub fn params() -> (r: PoseidonParams)
    ensures
        r.generated(),
{
    generate_params()
}

// ---------------------------------------------------------------- permutation

/// The state with a round's constants added.
pub open spec fn add_constants(p: ParamsV, s: Seq<nat>, round: nat) -> Seq<nat> {
    Seq::new(3, |j: int| fadd(s[j], p.ark[3 * round + j]))
}

/// The S-box layer: every element in a full round, only the first in a partial one.
pub open spec fn substitute(s: Seq<nat>, round: nat) -> Seq<nat> {
    if 4 <= round < 61 {
        s.update(0, fpow5(s[0]))
    } else {
        Seq::new(3, |j: int| fpow5(s[j]))
    }
}

/// The mixing layer: the matrix applied to the state.
pub open spec fn mix(p: ParamsV, s: Seq<nat>) -> Seq<nat> {
    Seq::new(
        3,
        |j: int|
            fadd(
                fadd(fmul(p.mds[j][0], s[0]), fmul(p.mds[j][1], s[1])),
                fmul(p.mds[j][2], s[2]),
            ),
    )
}

/// The state after `n` rounds.
pub open spec fn after_rounds(p: ParamsV, s: Seq<nat>, n: nat) -> Seq<nat>
    decreases n,
{
    if n == 0 {
        s
    } else {
        let round = (n - 1) as nat;
        mix(p, substitute(add_constants(p, after_rounds(p, s, round), round), round))
    }
}

/// Compression of two elements into one.
pub open spec fn hash2_of(p: ParamsV, a: nat, b: nat) -> nat {
    after_rounds(p, seq![a, b, 0nat], 65)[0]
}

/// One Poseidon permutation of a state of three elements.
pub fn permute(p: &PoseidonParams, state: [Fr; 3]) -> (r: [Fr; 3])
    requires
        p.wf(),
    ensures
        values(r@) == after_rounds(p@, values(state@), 65),
{
    let mut a = state[0];
    let mut b = state[1];
    let mut c = state[2];
    let ghost s0 = values(state@);
    assert(seq![a@, b@, c@] =~= s0);
    let mut round: usize = 0;
    while round < POSEIDON_ROUNDS
        invariant
            round <= 65,
            p.wf(),
            seq![a@, b@, c@] == after_rounds(p@, s0, round as nat),
        decreases 65 - round,
    {
        let ghost s = seq![a@, b@, c@];
        a = a.plus(p.ark[3 * round]);
        b = b.plus(p.ark[3 * round + 1]);
        c = c.plus(p.ark[3 * round + 2]);
        assert(seq![a@, b@, c@] =~= add_constants(p@, s, round as nat));
        let ghost s = seq![a@, b@, c@];
        a = a.pow5();
        if !(4 <= round && round < 61) {
            b = b.pow5();
            c = c.pow5();
        }
        assert(seq![a@, b@, c@] =~= substitute(s, round as nat));
        let ghost s = seq![a@, b@, c@];
        let x = mix_row(&p.mds[0], a, b, c);
        let y = mix_row(&p.mds[1], a, b, c);
        let z = mix_row(&p.mds[2], a, b, c);
        proof {
            assert(p@.mds[0] == values(p.mds@[0]@));
            assert(p@.mds[1] == values(p.mds@[1]@));
            assert(p@.mds[2] == values(p.mds@[2]@));
        }
        a = x;
        b = y;
        c = z;
        assert(seq![a@, b@, c@] =~= mix(p@, s));
        round = round + 1;
    }
    let out = [a, b, c];
    assert(values(out@) =~= seq![a@, b@, c@]);
    out
}

/// One row of the mixing layer.
fn mix_row(row: &Vec<Fr>, a: Fr, b: Fr, c: Fr) -> (r: Fr)
    requires
        row@.len() == 3,
    ensures
        r@ == fadd(
            fadd(fmul(values(row@)[0], a@), fmul(values(row@)[1], b@)),
            fmul(values(row@)[2], c@),
        ),
{
    row[0].times(a).plus(row[1].times(b)).plus(row[2].times(c))
}

/// Compression of two elements into one.
pub fn hash2(p: &PoseidonParams, a: Fr, b: Fr) -> (r: Fr)
    requires
        p.wf(),
    ensures
        r@ == hash2_of(p@, a@, b@),
{
    let state = [a, b, Fr::from_u128(0)];
    assert(values(state@) =~= seq![a@, b@, 0nat]);
    let out = permute(p, state);
    assert(values(out@)[0] == out@[0]@);
    out[0]
}

/// Elements compressed one after the other.
pub open spec fn hash_many_of(p: ParamsV, s: Seq<nat>) -> nat
    decreases s.len(),
{
    if s.len() <= 1 {
        s[0]
    } else {
        hash2_of(p, hash_many_of(p, s.drop_last()), s.last())
    }
}

/// Compresses a list of elements one after the other.
pub fn hash_many(p: &PoseidonParams, fields: &Vec<Fr>) -> (r: Fr)
    requires
        p.wf(),
        fields@.len() > 0,
    ensures
        r@ == hash_many_of(p@, values(fields@)),
{
    let mut acc = fields[0];
    let mut i: usize = 1;
    assert(values(fields@).take(1)[0] == acc@);
    while i < fields.len()
        invariant
            1 <= i <= fields@.len(),
            p.wf(),
            acc@ == hash_many_of(p@, values(fields@).take(i as int)),
        decreases fields@.len() - i,
    {
        proof {
            let t = values(fields@).take(i + 1);
            assert(t.drop_last() =~= values(fields@).take(i as int));
            assert(t.last() == fields@[i as int]@);
        }
        acc = hash2(p, acc, fields[i]);
        i = i + 1;
    }
    assert(values(fields@).take(fields@.len() as int) =~= values(fields@));
    acc
}

} // verus!
