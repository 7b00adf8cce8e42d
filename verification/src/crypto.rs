//! Ed25519 keys, addresses and hashing.
//!
//! A key pair is held as its 32-byte seed; everything else is derived from it.

use crate::text;
use ed25519_dalek::Signer;
use ed25519_dalek::Verifier;
use sha2::Digest;
use vstd::prelude::*;
use vstd::string::*;

verus! {

// ---------------------------------------------------------------- outside calls

/// What SHA-256 gives for a message.
pub uninterp spec fn sha256_digest(data: Seq<u8>) -> [u8; 32];

/// The bytes of the SHA-256 digest of a message.
pub open spec fn sha256_of(data: Seq<u8>) -> Seq<u8> {
    sha256_digest(data)@
}

/// `sha2::Sha256::digest`, by name.
#[verifier::external_body]
fn sha2_digest(data: &[u8]) -> (r: [u8; 32])
    ensures
        r@ == sha256_digest(data@)@,
{
    sha2::Sha256::digest(data).into()
}

/// Lower-case hexadecimal digit of a value below 16.
pub open spec fn hex_digit(v: int) -> char {
    if v < 10 {
        (48 + v) as char
    } else {
        (87 + v) as char
    }
}

/// Lower-case hexadecimal text of a byte string, two digits per byte.
pub open spec fn hex_text(b: Seq<u8>) -> Seq<char> {
    Seq::new(
        2 * b.len(),
        |i: int|
            if i % 2 == 0 {
                hex_digit(b[i / 2] as int / 16)
            } else {
                hex_digit(b[i / 2] as int % 16)
            },
    )
}

/// Value of a hexadecimal digit of either case, or -1.
pub open spec fn hex_value(c: char) -> int {
    if '0' <= c <= '9' {
        c as int - 48
    } else if 'a' <= c <= 'f' {
        c as int - 87
    } else if 'A' <= c <= 'F' {
        c as int - 55
    } else {
        -1
    }
}

/// The bytes a hexadecimal text denotes: an even number of digits of either case.
pub open spec fn unhex(s: Seq<char>) -> Option<Seq<u8>> {
    if s.len() % 2 == 0 && (forall|i: int| 0 <= i < s.len() ==> hex_value(#[trigger] s[i]) >= 0) {
        Some(
            Seq::new(
                s.len() / 2,
                |i: int| (hex_value(s[2 * i]) * 16 + hex_value(s[2 * i + 1])) as u8,
            ),
        )
    } else {
        None
    }
}

/// `hex::encode`: two lower-case hexadecimal digits per byte, high half first.
#[verifier::external_body]
fn hex_crate_encode(b: &[u8]) -> (r: String)
    ensures
        r@ == hex_text(b@),
{
    hex::encode(b)
}

/// What `hex` says is wrong with a text that it does not decode.
pub uninterp spec fn hex_fault(s: Seq<char>) -> Seq<char>;

/// `hex::decode`: an even number of hexadecimal digits of either case, anything
/// else is an error. Its message is by name, but for a text of an odd length in bytes.
#[verifier::external_body]
fn hex_crate_decode(s: &str) -> (r: Result<Vec<u8>, String>)
    ensures
        match r {
            Ok(v) => unhex(s@) == Some(v@),
            Err(e) => {
                &&& unhex(s@) is None
                &&& e@ == hex_fault(s@)
                &&& text::utf8(s@).len() % 2 != 0 ==> e@ == "Odd number of digits"@
            },
        },
{
    hex::decode(s).map_err(|e| e.to_string())
}

/// What `bs58` gives when it encodes a byte string with the Bitcoin alphabet.
pub uninterp spec fn base58_of(b: Seq<u8>) -> Seq<char>;

/// What `bs58` gives when it decodes a text with the Bitcoin alphabet.
pub uninterp spec fn unbase58(s: Seq<char>) -> Option<Seq<u8>>;

/// The Bitcoin alphabet: digits and letters without `0`, `O`, `I` and `l`.
pub open spec fn is_base58(c: char) -> bool {
    ('1' <= c <= '9' || 'A' <= c <= 'Z' || 'a' <= c <= 'z') && c != 'O' && c != 'I' && c != 'l'
}

/// `bs58::encode(..).into_string()`, by name. What it returns is made of the Bitcoin
/// alphabet and decodes back to the bytes that went in.
#[verifier::external_body]
fn bs58_encode(b: &[u8]) -> (r: String)
    ensures
        r@ == base58_of(b@),
        unbase58(r@) == Some(b@),
        forall|i: int| 0 <= i < r@.len() ==> is_base58(#[trigger] r@[i]),
{
    bs58::encode(b).into_string()
}

/// `bs58::decode(..).into_vec()`, by name.
#[verifier::external_body]
fn bs58_decode(s: &str) -> (r: Option<Vec<u8>>)
    ensures
        match r {
            Some(v) => unbase58(s@) == Some(v@),
            None => unbase58(s@) is None,
        },
{
    bs58::decode(s).into_vec().ok()
}

/// The Ed25519 public key of a 32-byte seed.
pub uninterp spec fn ed25519_public_key(seed: Seq<u8>) -> [u8; 32];

/// The bytes of the Ed25519 public key of a seed.
pub open spec fn ed25519_public(seed: Seq<u8>) -> Seq<u8> {
    ed25519_public_key(seed)@
}

/// The Ed25519 signature over a message under a seed.
pub uninterp spec fn ed25519_signature(seed: Seq<u8>, msg: Seq<u8>) -> Seq<u8>;

/// Whether a signature over a message verifies under a public key.
pub uninterp spec fn ed25519_accepts(public: Seq<u8>, msg: Seq<u8>, sig: Seq<u8>) -> bool;

/// `SigningKey::from_bytes(..).verifying_key().to_bytes()` of `ed25519_dalek`, by name.
#[verifier::external_body]
fn dalek_public(seed: &[u8; 32]) -> (r: [u8; 32])
    ensures
        r@ == ed25519_public_key(seed@)@,
{
    ed25519_dalek::SigningKey::from_bytes(seed).verifying_key().to_bytes()
}

/// `SigningKey::sign` of `ed25519_dalek`, by name. What it signs verifies under the
/// public key of the same seed.
#[verifier::external_body]
fn dalek_sign(seed: &[u8; 32], msg: &[u8]) -> (r: [u8; 64])
    ensures
        r@ == ed25519_signature(seed@, msg@),
        ed25519_accepts(ed25519_public_key(seed@)@, msg@, r@),
{
    ed25519_dalek::SigningKey::from_bytes(seed).sign(msg).to_bytes()
}

/// `VerifyingKey::from_bytes` followed by `verify` of `ed25519_dalek`, by name; a
/// byte string that is no public key accepts nothing.
#[verifier::external_body]
fn dalek_verify(public: &[u8; 32], msg: &[u8], sig: &[u8; 64]) -> (r: bool)
    ensures
        r == ed25519_accepts(public@, msg@, sig@),
{
    match ed25519_dalek::VerifyingKey::from_bytes(public) {
        Ok(vk) => vk.verify(msg, &ed25519_dalek::Signature::from_bytes(sig)).is_ok(),
        Err(_) => false,
    }
}

/// `getrandom::getrandom` on 32 bytes: nothing is promised of the bytes, and `None`
/// is a failure of the system's generator.
#[verifier::external_body]
fn os_random() -> (r: Option<[u8; 32]>)
{
    let mut seed = [0u8; 32];
    getrandom::getrandom(&mut seed).ok().map(|_| seed)
}

// ---------------------------------------------------------------- hexadecimal

/// Hexadecimal text of a byte string.
pub fn to_hex(b: &[u8]) -> (r: String)
    ensures
        r@ == hex_text(b@),
{
    hex_crate_encode(b)
}

/// The bytes a hexadecimal text denotes.
pub fn from_hex(s: &str) -> (r: Option<Vec<u8>>)
    ensures
        match r {
            Some(v) => unhex(s@) == Some(v@),
            None => unhex(s@) is None,
        },
{
    match hex_crate_decode(s) {
        Ok(v) => Some(v),
        Err(_) => None,
    }
}

/// Decoding the hexadecimal text of a byte string gives the byte string.
pub proof fn lemma_unhex_hex(b: Seq<u8>)
    ensures
        unhex(hex_text(b)) == Some(b),
{
    let s = hex_text(b);
    assert forall|i: int| 0 <= i < s.len() implies hex_value(#[trigger] s[i]) >= 0 by {
        assert(0 <= b[i / 2] as int / 16 < 16);
        assert(0 <= b[i / 2] as int % 16 < 16);
    }
    assert forall|i: int| 0 <= i < b.len() implies (#[trigger] unhex(s)->0[i]) == b[i] by {
        assert((2 * i) / 2 == i && (2 * i) % 2 == 0);
        assert((2 * i + 1) / 2 == i && (2 * i + 1) % 2 == 1);
        assert(hex_value(s[2 * i]) == b[i] as int / 16);
        assert(hex_value(s[2 * i + 1]) == b[i] as int % 16);
    }
    assert(unhex(s)->0 =~= b);
}

/// Hexadecimal text has no capitals and no `0x` to strip.
pub proof fn lemma_hex_is_plain(b: Seq<u8>)
    ensures
        text::strip_0x_spec(hex_text(b)) == hex_text(b),
        text::ascii_lower_spec(hex_text(b)) == hex_text(b),
        text::trimmed(hex_text(b)) == hex_text(b),
{
    let s = hex_text(b);
    assert forall|i: int| 0 <= i < s.len() implies !text::is_space(#[trigger] s[i]) && s[i] != 'x'
        && text::lower_char(s[i]) == s[i] by {
        assert(0 <= b[i / 2] as int / 16 < 16);
        assert(0 <= b[i / 2] as int % 16 < 16);
    }
    assert(text::trim_start(s) == s);
    assert(text::trim_end(s) == s);
    assert(text::strip_0x_spec(s) == s);
    assert(text::ascii_lower_spec(s) =~= s);
}

// ---------------------------------------------------------------- hashing, addresses

/// SHA-256 digest.
pub fn sha256(data: &[u8]) -> (r: [u8; 32])
    ensures
        r@ == sha256_of(data@),
{
    sha2_digest(data)
}

/// Hexadecimal SHA-256 digest.
pub open spec fn hash_text(data: Seq<u8>) -> Seq<char> {
    hex_text(sha256_of(data))
}

/// A digest in hexadecimal has 64 characters.
pub proof fn lemma_hash_text_len(data: Seq<u8>)
    ensures
        hash_text(data).len() == 64,
{
}

/// Hexadecimal SHA-256 digest.
pub fn hash_hex(data: &[u8]) -> (r: String)
    ensures
        r@ == hash_text(data@),
{
    to_hex(&sha256(data))
}

/// The first 32 bytes of a byte string as an array.
pub fn to_array32(v: &Vec<u8>) -> (r: [u8; 32])
    requires
        v@.len() == 32,
    ensures
        r@ == v@,
{
    let mut out: [u8; 32] = [0u8; 32];
    let mut i: usize = 0;
    while i < 32
        invariant
            i <= 32,
            v@.len() == 32,
            forall|j: int| 0 <= j < i ==> out@[j] == v@[j],
        decreases 32 - i,
    {
        out[i] = v[i];
        i = i + 1;
    }
    assert(out@ =~= v@);
    out
}

/// The first 64 bytes of a byte string as an array.
pub fn to_array64(v: &Vec<u8>) -> (r: [u8; 64])
    requires
        v@.len() == 64,
    ensures
        r@ == v@,
{
    let mut out: [u8; 64] = [0u8; 64];
    let mut i: usize = 0;
    while i < 64
        invariant
            i <= 64,
            v@.len() == 64,
            forall|j: int| 0 <= j < i ==> out@[j] == v@[j],
        decreases 64 - i,
    {
        out[i] = v[i];
        i = i + 1;
    }
    assert(out@ =~= v@);
    out
}

/// An address is the base58 encoding of the 32-byte public key: no prefix, case
/// sensitive.
pub fn address_from_pubkey(pubkey: &[u8; 32]) -> (r: String)
    ensures
        r@ == base58_of(pubkey@),
        address_key(r@) == Some(pubkey@),
        valid_address(r@),
{
    let r = bs58_encode(pubkey);
    proof {
        if r@.len() > 0 {
            assert(is_base58(r@[0]) && is_base58(r@[r@.len() - 1]));
        }
        assert(text::trim_start(r@) == r@);
        assert(text::trim_end(r@) == r@);
    }
    r
}

/// The public key an address encodes, when it encodes 32 bytes.
pub open spec fn address_key(addr: Seq<char>) -> Option<Seq<u8>> {
    match unbase58(text::trimmed(addr)) {
        Some(raw) => if raw.len() == 32 {
            Some(raw)
        } else {
            None
        },
        None => None,
    }
}

/// Recovers the raw public key bytes an address encodes.
pub fn pubkey_from_address(addr: &str) -> (r: Option<[u8; 32]>)
    ensures
        match r {
            Some(k) => address_key(addr@) == Some(k@),
            None => address_key(addr@) is None,
        },
{
    let t = text::trim(addr);
    match bs58_decode(&t) {
        Some(raw) => if raw.len() == 32 {
            Some(to_array32(&raw))
        } else {
            None
        },
        None => None,
    }
}

/// Whether a text is a well-formed address.
pub open spec fn valid_address(addr: Seq<char>) -> bool {
    address_key(addr) is Some
}

/// Whether a text is a well-formed address.
pub fn is_valid_address(addr: &str) -> (r: bool)
    ensures
        r == valid_address(addr@),
{
    pubkey_from_address(addr).is_some()
}

/// The address that a hexadecimal public key stands for: exactly 32 bytes.
pub open spec fn address_of_hex(pubkey_hex: Seq<char>) -> Option<Seq<char>> {
    match unhex(pubkey_hex) {
        Some(raw) => if raw.len() == 32 {
            Some(base58_of(raw))
        } else {
            None
        },
        None => None,
    }
}

/// The address that a hexadecimal public key stands for.
pub fn address_from_hex(pubkey_hex: &str) -> (r: Option<String>)
    ensures
        match r {
            Some(a) => address_of_hex(pubkey_hex@) == Some(a@),
            None => address_of_hex(pubkey_hex@) is None,
        },
{
    match from_hex(pubkey_hex) {
        Some(raw) => if raw.len() == 32 {
            Some(address_from_pubkey(&to_array32(&raw)))
        } else {
            None
        },
        None => None,
    }
}

// ---------------------------------------------------------------- keys

/// An Ed25519 key pair, held as its secret seed.
pub struct Keypair {
    pub seed: [u8; 32],
}

/// The digits of a hexadecimal secret; surrounding white space and a leading `0x` are
/// ignored.
pub open spec fn secret_digits(s: Seq<char>) -> Seq<char> {
    text::strip_0x_spec(text::trimmed(s))
}

/// The seed a hexadecimal secret denotes.
pub open spec fn secret_seed(s: Seq<char>) -> Option<Seq<u8>> {
    unhex(secret_digits(s))
}

impl Keypair {
    /// The public key bytes.
    pub open spec fn public(self) -> Seq<u8> {
        ed25519_public(self.seed@)
    }

    /// The address of the pair.
    pub open spec fn address_text(self) -> Seq<char> {
        base58_of(self.public())
    }

    /// The key pair of the bytes that a generator drew, if it drew any.
    pub fn drawn(seed: Option<[u8; 32]>) -> (r: Option<Keypair>)
        ensures
            match seed {
                Some(s) => r == Some(Keypair { seed: s }),
                None => r is None,
            },
    {
        match seed {
            Some(seed) => Some(Keypair { seed }),
            None => None,
        }
    }

    /// A fresh key pair from the operating system's generator; `None` when it fails.
    pub fn generate() -> (r: Option<Keypair>)
    {
        Keypair::drawn(os_random())
    }

    /// The key pair of a hexadecimal secret.
    pub fn from_secret_hex(s: &str) -> (r: Result<Keypair, String>)
        ensures
            match secret_seed(s@) {
                None => r matches Err(e) && e@ == hex_fault(secret_digits(s@)) && (text::utf8(
                    secret_digits(s@),
                ).len() % 2 != 0 ==> e@ == "Odd number of digits"@),
                Some(raw) => if raw.len() == 32 {
                    r matches Ok(k) && k.seed@ == raw
                } else {
                    r matches Err(e) && e@ == "secret key must be 32 bytes"@
                },
            },
    {
        let t = text::trim(s);
        let body = text::strip_0x(&t);
        match hex_crate_decode(&body) {
            Err(e) => Err(e),
            Ok(raw) => if raw.len() != 32 {
                Err(text::copy("secret key must be 32 bytes"))
            } else {
                Ok(Keypair { seed: to_array32(&raw) })
            },
        }
    }

    /// Hexadecimal secret of the pair.
    pub fn secret_hex(&self) -> (r: String)
        ensures
            r@ == hex_text(self.seed@),
    {
        to_hex(&self.seed)
    }

    /// Public key bytes.
    pub fn pubkey_bytes(&self) -> (r: [u8; 32])
        ensures
            r@ == self.public(),
    {
        dalek_public(&self.seed)
    }

    /// Hexadecimal public key.
    pub fn pubkey_hex(&self) -> (r: String)
        ensures
            r@ == hex_text(self.public()),
            self.public().len() == 32,
    {
        let k = self.pubkey_bytes();
        to_hex(&k)
    }

    /// Address of the pair.
    pub fn address(&self) -> (r: String)
        ensures
            r@ == self.address_text(),
            address_key(r@) == Some(self.public()),
            valid_address(r@),
            self.public().len() == 32,
    {
        let k = self.pubkey_bytes();
        address_from_pubkey(&k)
    }

    /// Signature over a message.
    pub fn sign_bytes(&self, msg: &[u8]) -> (r: [u8; 64])
        ensures
            r@ == ed25519_signature(self.seed@, msg@),
            ed25519_accepts(self.public(), msg@, r@),
    {
        dalek_sign(&self.seed, msg)
    }

    /// Hexadecimal signature over a message.
    pub fn sign_hex(&self, msg: &[u8]) -> (r: String)
        ensures
            r@ == hex_text(ed25519_signature(self.seed@, msg@)),
            signature_ok(hex_text(self.public()), msg@, r@),
    {
        let sig = dalek_sign(&self.seed, msg);
        let key = dalek_public(&self.seed);
        proof {
            lemma_unhex_hex(sig@);
            lemma_unhex_hex(key@);
        }
        to_hex(&sig)
    }
}

/// Whether a hexadecimal signature over a message verifies under a hexadecimal key.
pub open spec fn signature_ok(pubkey_hex: Seq<char>, msg: Seq<u8>, sig_hex: Seq<char>) -> bool {
    &&& unhex(pubkey_hex) matches Some(pk)
    &&& unhex(sig_hex) matches Some(sg)
    &&& pk.len() == 32
    &&& sg.len() == 64
    &&& ed25519_accepts(pk, msg, sg)
}

/// Checks a signature over a message under a public key.
pub fn verify_raw(public: &[u8; 32], msg: &[u8], sig: &[u8; 64]) -> (r: bool)
    ensures
        r == ed25519_accepts(public@, msg@, sig@),
{
    dalek_verify(public, msg, sig)
}

/// A fresh secret of 32 bytes from the operating system's generator; `None` when it
/// fails. Nothing is known of the bytes.
pub fn fresh_secret() -> (r: Option<[u8; 32]>) {
    os_random()
}

/// Checks a hexadecimal signature over a message under a hexadecimal public key.
pub fn verify(pubkey_hex: &str, msg: &[u8], sig_hex: &str) -> (r: bool)
    ensures
        r == signature_ok(pubkey_hex@, msg@, sig_hex@),
{
    match from_hex(pubkey_hex) {
        Some(pk) => if pk.len() == 32 {
            match from_hex(sig_hex) {
                Some(sg) => if sg.len() == 64 {
                    dalek_verify(&to_array32(&pk), msg, &to_array64(&sg))
                } else {
                    false
                },
                None => false,
            }
        } else {
            false
        },
        None => false,
    }
}

/// A key pair written out as a hexadecimal secret is read back as the same seed.
pub proof fn law_secret_round_trip(seed: Seq<u8>)
    requires
        seed.len() == 32,
    ensures
        secret_seed(hex_text(seed)) == Some(seed),
{
    lemma_unhex_hex(seed);
    lemma_hex_is_plain(seed);
}

} // verus!
