//! Encrypted, authenticated peer transport ("INSC1").
//!
//! ```text
//! initiator -> "INSC1" || e_i (32)
//! responder -> e_r (32) || nodekey_r (32) || sig_r (64)   over h1
//! initiator -> nodekey_i (32) || sig_i (64)               over h2
//!
//! h1  = SHA256("INSC1" || e_i || e_r)
//! h2  = SHA256(h1 || nodekey_r || "initiator")
//! ikm = X25519(e_i, e_r)
//! k_i2r, k_r2i = HKDF-SHA256(salt = h1, ikm, info = "inazuma/p2p/v1/...")
//! ```
//!
//! Ephemeral keys give forward secrecy; the signature of the node key over the
//! transcript authenticates the peer. Frames are a big-endian length and a
//! ChaCha20-Poly1305 ciphertext under a counter nonce of each direction.

use crate::crypto;
use crate::crypto::Keypair;
use crate::text;
use chacha20poly1305::aead::Aead;
use chacha20poly1305::aead::KeyInit;
use vstd::prelude::*;
use vstd::slice::slice_subrange;
use vstd::string::*;

verus! {

/// What an encrypted session starts with: `INSC1`.
pub const MAGIC: [u8; 5] = [73, 78, 83, 67, 49];

/// Largest frame, in bytes.
pub const MAX_FRAME: usize = 8_388_608;

/// Bytes of a responder's answer.
pub const REPLY_BYTES: usize = 128;

/// Bytes of an initiator's proof.
pub const PROOF_BYTES: usize = 96;

// ---------------------------------------------------------------- outside calls

/// The X25519 public key of a secret.
pub uninterp spec fn x25519_base(secret: Seq<u8>) -> [u8; 32];

/// The X25519 secret two parties share.
pub uninterp spec fn x25519_of(secret: Seq<u8>, public: Seq<u8>) -> [u8; 32];

/// The key HKDF-SHA256 derives.
pub uninterp spec fn hkdf_of(salt: Seq<u8>, ikm: Seq<u8>, info: Seq<char>) -> [u8; 32];

/// What ChaCha20-Poly1305 encrypts a message to.
pub uninterp spec fn aead_sealed(key: Seq<u8>, nonce: Seq<u8>, aad: Seq<u8>, msg: Seq<u8>) -> Option<
    Seq<u8>,
>;

/// What ChaCha20-Poly1305 decrypts a ciphertext to.
pub uninterp spec fn aead_opened(key: Seq<u8>, nonce: Seq<u8>, aad: Seq<u8>, ct: Seq<u8>) -> Option<
    Seq<u8>,
>;

/// A secret exchanges with every other: both sides come to the same shared secret.
pub open spec fn exchanges(secret: Seq<u8>) -> bool {
    forall|o: Seq<u8>|
        o.len() == 32 ==> #[trigger] x25519_of(o, x25519_base(secret)@) == x25519_of(
            secret,
            x25519_base(o)@,
        )
}

/// `PublicKey::from(&StaticSecret::from(..)).to_bytes()` of `x25519_dalek`, by name.
/// The shared secret of another party with this public key is the shared secret of this
/// secret with that party's public key.
#[verifier::external_body]
fn dalek_x25519_public(secret: &[u8; 32]) -> (r: [u8; 32])
    ensures
        r@ == x25519_base(secret@)@,
        forall|o: Seq<u8>|
            o.len() == 32 ==> #[trigger] x25519_of(o, r@) == x25519_of(
                secret@,
                x25519_base(o)@,
            ),
{
    x25519_dalek::PublicKey::from(&x25519_dalek::StaticSecret::from(*secret)).to_bytes()
}

/// `StaticSecret::diffie_hellman` of `x25519_dalek`, by name.
#[verifier::external_body]
fn dalek_x25519_shared(secret: &[u8; 32], public: &[u8; 32]) -> (r: [u8; 32])
    ensures
        r@ == x25519_of(secret@, public@)@,
{
    let secret = x25519_dalek::StaticSecret::from(*secret);
    secret.diffie_hellman(&x25519_dalek::PublicKey::from(*public)).to_bytes()
}

/// `Hkdf::<Sha256>::new(Some(salt), ikm).expand(info, ..)` of `hkdf` into 32 bytes, by
/// name. It fails only for more than 255 times 32 bytes.
#[verifier::external_body]
fn hkdf_expand(salt: &[u8; 32], ikm: &[u8; 32], info: &str) -> (r: [u8; 32])
    ensures
        r@ == hkdf_of(salt@, ikm@, info@)@,
{
    let mut out = [0u8; 32];
    hkdf::Hkdf::<sha2::Sha256>::new(Some(salt), ikm).expand(info.as_bytes(), &mut out).expect("len");
    out
}

/// `ChaCha20Poly1305::encrypt` of `chacha20poly1305`, by name. A ciphertext is 16 bytes
/// longer than its message and decrypts to it under the same key, nonce and associated
/// data; a message below 64 times 4294967295 bytes is always encrypted.
#[verifier::external_body]
fn chacha_encrypt(key: &[u8; 32], nonce: &[u8; 12], aad: &[u8], msg: &[u8]) -> (r: Option<Vec<u8>>)
    ensures
        match r {
            Some(c) => aead_sealed(key@, nonce@, aad@, msg@) == Some(c@) && c@.len() == msg@.len()
                + 16 && aead_opened(key@, nonce@, aad@, c@) == Some(msg@),
            None => aead_sealed(key@, nonce@, aad@, msg@) is None && msg@.len() >= 64
                * 4_294_967_295,
        },
{
    let cipher = chacha20poly1305::ChaCha20Poly1305::new(key.into());
    cipher.encrypt(nonce.into(), chacha20poly1305::aead::Payload { msg, aad }).ok()
}

/// `ChaCha20Poly1305::decrypt` of `chacha20poly1305`, by name.
#[verifier::external_body]
fn chacha_decrypt(key: &[u8; 32], nonce: &[u8; 12], aad: &[u8], ct: &[u8]) -> (r: Option<Vec<u8>>)
    ensures
        match r {
            Some(m) => aead_opened(key@, nonce@, aad@, ct@) == Some(m@),
            None => aead_opened(key@, nonce@, aad@, ct@) is None,
        },
{
    let cipher = chacha20poly1305::ChaCha20Poly1305::new(key.into());
    cipher.decrypt(nonce.into(), chacha20poly1305::aead::Payload { msg: ct, aad }).ok()
}

// ---------------------------------------------------------------- transcripts

/// The transcript both ephemeral keys are bound by.
pub open spec fn transcript1_of(ei: Seq<u8>, er: Seq<u8>) -> Seq<u8> {
    crypto::sha256_of(MAGIC@ + ei + er)
}

/// The transcript the initiator signs.
pub open spec fn transcript2_of(h1: Seq<u8>, responder: Seq<u8>) -> Seq<u8> {
    crypto::sha256_of(h1 + responder + text::utf8("initiator"@))
}

fn transcript1(ei: &[u8; 32], er: &[u8; 32]) -> (r: [u8; 32])
    ensures
        r@ == transcript1_of(ei@, er@),
{
    let magic: [u8; 5] = MAGIC;
    let mut buf: Vec<u8> = Vec::new();
    text::push_bytes(&mut buf, magic.as_slice());
    text::push_bytes(&mut buf, ei.as_slice());
    text::push_bytes(&mut buf, er.as_slice());
    assert(buf@ =~= MAGIC@ + ei@ + er@);
    crypto::sha256(buf.as_slice())
}

fn transcript2(h1: &[u8; 32], responder: &[u8; 32]) -> (r: [u8; 32])
    ensures
        r@ == transcript2_of(h1@, responder@),
{
    let mut buf: Vec<u8> = Vec::new();
    text::push_bytes(&mut buf, h1.as_slice());
    text::push_bytes(&mut buf, responder.as_slice());
    text::push_text(&mut buf, "initiator");
    assert(buf@ =~= h1@ + responder@ + text::utf8("initiator"@));
    crypto::sha256(buf.as_slice())
}

/// 32 bytes of a byte string from a place.
fn array32_at(v: &[u8], at: usize) -> (r: [u8; 32])
    requires
        at + 32 <= v@.len(),
    ensures
        r@ == v@.subrange(at as int, at + 32),
{
    let size: usize = v.len();
    assert(at + 32 <= size);
    let part = text::copy_bytes(slice_subrange(v, at, at + 32));
    crypto::to_array32(&part)
}

/// 64 bytes of a byte string from a place.
fn array64_at(v: &[u8], at: usize) -> (r: [u8; 64])
    requires
        at + 64 <= v@.len(),
    ensures
        r@ == v@.subrange(at as int, at + 64),
{
    let size: usize = v.len();
    assert(at + 64 <= size);
    let part = text::copy_bytes(slice_subrange(v, at, at + 64));
    crypto::to_array64(&part)
}

// ---------------------------------------------------------------- one direction

/// The nonce of a counter: four zero bytes and the counter, low byte first.
pub open spec fn nonce_of(counter: u64) -> Seq<u8> {
    seq![0u8, 0, 0, 0] + text::be(counter as nat, 8).reverse()
}

/// The counter after one more frame.
pub open spec fn next_counter(c: u64) -> u64 {
    if c == u64::MAX {
        0
    } else {
        (c + 1) as u64
    }
}

/// One direction of a session: its key and how many frames went through it.
pub struct Aead2 {
    pub key: [u8; 32],
    pub counter: u64,
}

impl Aead2 {
    /// A direction at its start.
    pub fn new(key: [u8; 32]) -> (r: Aead2)
        ensures
            r.key@ == key@,
            r.counter == 0,
    {
        Aead2 { key, counter: 0 }
    }

    /// The nonce of the next frame.
    fn nonce(&mut self) -> (r: [u8; 12])
        ensures
            r@ == nonce_of(old(self).counter),
            final(self).key == old(self).key,
            final(self).counter == next_counter(old(self).counter),
    {
        let b = text::be8(self.counter);
        let n: [u8; 12] = [0, 0, 0, 0, b[7], b[6], b[5], b[4], b[3], b[2], b[1], b[0]];
        assert(n@ =~= nonce_of(old(self).counter));
        self.counter = if self.counter == u64::MAX {
            0
        } else {
            self.counter + 1
        };
        n
    }

    /// Encrypts the next frame. The other side, at the same count, decrypts it.
    pub fn seal(&mut self, plain: &[u8]) -> (r: Result<Vec<u8>, String>)
        ensures
            final(self).key == old(self).key,
            final(self).counter == next_counter(old(self).counter),
            match r {
                Ok(c) => {
                    &&& aead_sealed(old(self).key@, nonce_of(old(self).counter), MAGIC@, plain@)
                        == Some(c@)
                    &&& c@.len() == plain@.len() + 16
                    &&& aead_opened(old(self).key@, nonce_of(old(self).counter), MAGIC@, c@)
                        == Some(plain@)
                },
                Err(e) => e@ == "seal failed"@ && plain@.len() >= 64 * 4_294_967_295,
            },
    {
        let n = self.nonce();
        let magic: [u8; 5] = MAGIC;
        match chacha_encrypt(&self.key, &n, magic.as_slice(), plain) {
            Some(c) => Ok(c),
            None => Err(text::copy("seal failed")),
        }
    }

    /// Decrypts the next frame. A replay or a reordered frame meets another nonce.
    pub fn open(&mut self, ct: &[u8]) -> (r: Result<Vec<u8>, String>)
        ensures
            final(self).key == old(self).key,
            final(self).counter == next_counter(old(self).counter),
            match r {
                Ok(m) => aead_opened(old(self).key@, nonce_of(old(self).counter), MAGIC@, ct@)
                    == Some(m@),
                Err(e) => e@ == "decrypt failed (wrong key, replay or tampering)"@
                    && aead_opened(old(self).key@, nonce_of(old(self).counter), MAGIC@, ct@)
                    is None,
            },
    {
        let n = self.nonce();
        let magic: [u8; 5] = MAGIC;
        match chacha_decrypt(&self.key, &n, magic.as_slice(), ct) {
            Some(m) => Ok(m),
            None => Err(text::copy("decrypt failed (wrong key, replay or tampering)")),
        }
    }
}

/// Frames of one session never share a nonce before the counter comes round.
pub proof fn law_nonces_differ(a: u64, b: u64)
    requires
        a != b,
    ensures
        nonce_of(a) != nonce_of(b),
        nonce_of(a).len() == 12,
{
    text::lemma_pow256_values();
    text::lemma_be(a as nat, 8);
    text::lemma_be(b as nat, 8);
    let x = text::be(a as nat, 8);
    let y = text::be(b as nat, 8);
    if nonce_of(a) == nonce_of(b) {
        assert(nonce_of(a).subrange(4, 12) =~= x.reverse());
        assert(nonce_of(b).subrange(4, 12) =~= y.reverse());
        assert(x.reverse().reverse() =~= x);
        assert(y.reverse().reverse() =~= y);
    }
}

// ---------------------------------------------------------------- sessions

/// A session: both directions and the proven key of the peer, in hexadecimal.
pub struct Session {
    pub outbound: Aead2,
    pub inbound: Aead2,
    pub peer_id: String,
}

/// The key from initiator to responder.
pub open spec fn key_i2r(h1: Seq<u8>, shared: Seq<u8>) -> Seq<u8> {
    hkdf_of(h1, shared, "inazuma/p2p/v1/i2r"@)@
}

/// The key from responder to initiator.
pub open spec fn key_r2i(h1: Seq<u8>, shared: Seq<u8>) -> Seq<u8> {
    hkdf_of(h1, shared, "inazuma/p2p/v1/r2i"@)@
}

/// A session starts with given keys and a given peer.
pub open spec fn begins(s: Session, outbound: Seq<u8>, inbound: Seq<u8>, peer: Seq<u8>) -> bool {
    &&& s.outbound.key@ == outbound
    &&& s.outbound.counter == 0
    &&& s.inbound.key@ == inbound
    &&& s.inbound.counter == 0
    &&& s.peer_id@ == crypto::hex_text(peer)
}

/// What an initiator sends first.
pub open spec fn hello_of(secret: Seq<u8>) -> Seq<u8> {
    MAGIC@ + x25519_base(secret)@
}

/// Writes what an initiator sends first.
pub fn hello(secret: &[u8; 32]) -> (r: Vec<u8>)
    ensures
        r@ == hello_of(secret@),
        r@.len() == 37,
        exchanges(secret@),
{
    let e = dalek_x25519_public(secret);
    assert(e@ =~= x25519_base(secret@)@);
    let magic: [u8; 5] = MAGIC;
    let mut buf: Vec<u8> = Vec::new();
    text::push_bytes(&mut buf, magic.as_slice());
    text::push_bytes(&mut buf, e.as_slice());
    assert(buf@ =~= hello_of(secret@));
    buf
}

/// An answer is signed by the node key it names, over the transcript of both ephemeral
/// keys.
pub open spec fn answer_signed(ei: Seq<u8>, reply: Seq<u8>) -> bool {
    crypto::ed25519_accepts(
        reply.subrange(32, 64),
        transcript1_of(ei, reply.subrange(0, 32)),
        reply.subrange(64, 128),
    )
}

/// What a responder answers.
pub open spec fn reply_of(seed: Seq<u8>, secret: Seq<u8>, ei: Seq<u8>) -> Seq<u8> {
    let er = x25519_base(secret)@;
    er + crypto::ed25519_public(seed) + crypto::ed25519_signature(seed, transcript1_of(ei, er))
}

/// Writes what a responder answers. It is signed as an initiator demands.
pub fn reply(id: &Keypair, secret: &[u8; 32], ei: &[u8; 32]) -> (r: Vec<u8>)
    ensures
        r@ == reply_of(id.seed@, secret@, ei@),
        r@.len() == REPLY_BYTES,
        answer_signed(ei@, r@),
        exchanges(secret@),
{
    let er = dalek_x25519_public(secret);
    let h1 = transcript1(ei, &er);
    let sig = id.sign_bytes(h1.as_slice());
    let key = id.pubkey_bytes();
    let mut buf: Vec<u8> = Vec::new();
    text::push_bytes(&mut buf, er.as_slice());
    text::push_bytes(&mut buf, key.as_slice());
    text::push_bytes(&mut buf, sig.as_slice());
    proof {
        assert(er@ == x25519_base(secret@)@);
        assert(buf@ =~= reply_of(id.seed@, secret@, ei@));
        assert(buf@.subrange(0, 32) =~= er@);
        assert(buf@.subrange(32, 64) =~= key@);
        assert(buf@.subrange(64, 128) =~= sig@);
    }
    buf
}

/// A proof is signed by the node key it names, over the transcript that binds the
/// responder's key.
pub open spec fn proof_signed(h1: Seq<u8>, responder: Seq<u8>, fin: Seq<u8>) -> bool {
    crypto::ed25519_accepts(
        fin.subrange(0, 32),
        transcript2_of(h1, responder),
        fin.subrange(32, 96),
    )
}

/// What an initiator proves itself with.
pub open spec fn proof_of(seed: Seq<u8>, h1: Seq<u8>, responder: Seq<u8>) -> Seq<u8> {
    crypto::ed25519_public(seed) + crypto::ed25519_signature(seed, transcript2_of(h1, responder))
}

/// The initiator's side of an answer: its proof and the session, or the refusal of a
/// peer that did not authenticate.
pub fn initiate(id: &Keypair, secret: &[u8; 32], res: &[u8]) -> (r: Result<
    (Vec<u8>, Session),
    String,
>)
    requires
        res@.len() == REPLY_BYTES,
    ensures
        ({
            let ei = x25519_base(secret@)@;
            let er = res@.subrange(0, 32);
            let key = res@.subrange(32, 64);
            let h1 = transcript1_of(ei, er);
            let shared = x25519_of(secret@, er)@;
            match r {
                Ok(p) => {
                    &&& answer_signed(ei, res@)
                    &&& p.0@ == proof_of(id.seed@, h1, key)
                    &&& p.0@.len() == PROOF_BYTES
                    &&& proof_signed(h1, key, p.0@)
                    &&& begins(p.1, key_i2r(h1, shared), key_r2i(h1, shared), key)
                },
                Err(e) => !answer_signed(ei, res@) && e@
                    == "peer failed to authenticate (bad handshake signature)"@,
            }
        }),
{
    let ei = dalek_x25519_public(secret);
    let er = array32_at(res, 0);
    let peer_key = array32_at(res, 32);
    let peer_sig = array64_at(res, 64);
    let h1 = transcript1(&ei, &er);
    if !crypto::verify_raw(&peer_key, h1.as_slice(), &peer_sig) {
        return Err(text::copy("peer failed to authenticate (bad handshake signature)"));
    }
    let h2 = transcript2(&h1, &peer_key);
    let sig = id.sign_bytes(h2.as_slice());
    let own = id.pubkey_bytes();
    let mut fin: Vec<u8> = Vec::new();
    text::push_bytes(&mut fin, own.as_slice());
    text::push_bytes(&mut fin, sig.as_slice());
    proof {
        assert(fin@ =~= proof_of(id.seed@, h1@, peer_key@));
        assert(fin@.subrange(0, 32) =~= own@);
        assert(fin@.subrange(32, 96) =~= sig@);
    }
    let shared = dalek_x25519_shared(secret, &er);
    let session = Session {
        outbound: Aead2::new(hkdf_expand(&h1, &shared, "inazuma/p2p/v1/i2r")),
        inbound: Aead2::new(hkdf_expand(&h1, &shared, "inazuma/p2p/v1/r2i")),
        peer_id: crypto::to_hex(peer_key.as_slice()),
    };
    Ok((fin, session))
}

/// The responder's side of a proof: the session, or the refusal of a peer that did not
/// authenticate.
pub fn respond(id: &Keypair, secret: &[u8; 32], ei: &[u8; 32], fin: &[u8]) -> (r: Result<
    Session,
    String,
>)
    requires
        fin@.len() == PROOF_BYTES,
    ensures
        ({
            let h1 = transcript1_of(ei@, x25519_base(secret@)@);
            let shared = x25519_of(secret@, ei@)@;
            let own = crypto::ed25519_public(id.seed@);
            match r {
                Ok(s) => {
                    &&& proof_signed(h1, own, fin@)
                    &&& begins(
                        s,
                        key_r2i(h1, shared),
                        key_i2r(h1, shared),
                        fin@.subrange(0, 32),
                    )
                },
                Err(e) => !proof_signed(h1, own, fin@) && e@
                    == "peer failed to authenticate (bad handshake signature)"@,
            }
        }),
{
    let er = dalek_x25519_public(secret);
    let h1 = transcript1(ei, &er);
    let peer_key = array32_at(fin, 0);
    let peer_sig = array64_at(fin, 32);
    let own = id.pubkey_bytes();
    let h2 = transcript2(&h1, &own);
    if !crypto::verify_raw(&peer_key, h2.as_slice(), &peer_sig) {
        return Err(text::copy("peer failed to authenticate (bad handshake signature)"));
    }
    let shared = dalek_x25519_shared(secret, ei);
    Ok(
        Session {
            outbound: Aead2::new(hkdf_expand(&h1, &shared, "inazuma/p2p/v1/r2i")),
            inbound: Aead2::new(hkdf_expand(&h1, &shared, "inazuma/p2p/v1/i2r")),
            peer_id: crypto::to_hex(peer_key.as_slice()),
        },
    )
}

/// Two parties that finished a handshake with each other share their keys, crosswise:
/// what one sends with, the other receives with, whichever ephemeral secrets they drew
/// and whichever node keys they have.
pub proof fn law_handshake_agrees(
    seed_r: Seq<u8>,
    e_i: Seq<u8>,
    e_r: Seq<u8>,
    i: Session,
    r: Session,
    peer_i: Seq<u8>,
)
    requires
        e_i.len() == 32,
        e_r.len() == 32,
        exchanges(e_r),
        ({
            let res = reply_of(seed_r, e_r, x25519_base(e_i)@);
            let er = res.subrange(0, 32);
            let h1 = transcript1_of(x25519_base(e_i)@, er);
            let shared = x25519_of(e_i, er)@;
            begins(i, key_i2r(h1, shared), key_r2i(h1, shared), res.subrange(32, 64))
        }),
        ({
            let h1 = transcript1_of(x25519_base(e_i)@, x25519_base(e_r)@);
            let shared = x25519_of(e_r, x25519_base(e_i)@)@;
            begins(r, key_r2i(h1, shared), key_i2r(h1, shared), peer_i)
        }),
    ensures
        i.outbound.key@ == r.inbound.key@,
        i.inbound.key@ == r.outbound.key@,
        i.peer_id@ == crypto::hex_text(crypto::ed25519_public(seed_r)),
{
    let res = reply_of(seed_r, e_r, x25519_base(e_i)@);
    assert(res.subrange(0, 32) =~= x25519_base(e_r)@);
    assert(res.subrange(32, 64) =~= crypto::ed25519_public(seed_r));
    assert(x25519_of(e_i, x25519_base(e_r)@) == x25519_of(e_r, x25519_base(e_i)@));
}

// ---------------------------------------------------------------- frames

/// The length a frame announces: some, but not too much.
pub fn frame_len(head: &[u8; 4]) -> (r: Result<usize, String>)
    ensures
        ({
            let n = text::from_be(head@);
            match r {
                Ok(k) => k == n && 0 < n <= MAX_FRAME,
                Err(e) => e@ == "bad frame length"@ && !(0 < n <= MAX_FRAME),
            }
        }),
{
    let n = text::read_be(head.as_slice());
    if n == 0 || n > MAX_FRAME as u128 {
        return Err(text::copy("bad frame length"));
    }
    Ok(n as usize)
}

/// A frame: its length and its ciphertext.
pub open spec fn framed(ct: Seq<u8>) -> Seq<u8> {
    text::be(ct.len(), 4) + ct
}

/// A session after it sent a frame: its nonce moved on.
pub open spec fn sends(s: Session, t: Session) -> bool {
    &&& t.inbound == s.inbound
    &&& t.peer_id == s.peer_id
    &&& t.outbound.key == s.outbound.key
    &&& t.outbound.counter == next_counter(s.outbound.counter)
}

/// A session after it took a frame in: its nonce moved on.
pub open spec fn receives(s: Session, t: Session) -> bool {
    &&& t.outbound == s.outbound
    &&& t.peer_id == s.peer_id
    &&& t.inbound.key == s.inbound.key
    &&& t.inbound.counter == next_counter(s.inbound.counter)
}

/// A frame that carries a body: its length, and the ciphertext under the session's next
/// nonce.
pub open spec fn packed(s: Session, body: Seq<u8>, f: Seq<u8>) -> bool {
    let n = nonce_of(s.outbound.counter);
    &&& f.len() == body.len() + 20
    &&& text::from_be(f.subrange(0, 4)) == body.len() + 16
    &&& aead_sealed(s.outbound.key@, n, MAGIC@, body) == Some(f.skip(4))
    &&& aead_opened(s.outbound.key@, n, MAGIC@, f.skip(4)) == Some(body)
}

/// What a session makes of a ciphertext.
pub open spec fn unpacked(s: Session, ct: Seq<u8>) -> Option<Seq<u8>> {
    aead_opened(s.inbound.key@, nonce_of(s.inbound.counter), MAGIC@, ct)
}

/// Whether what one session sends next is what another expects next.
pub open spec fn in_step(a: Session, b: Session) -> bool {
    a.outbound.key@ == b.inbound.key@ && a.outbound.counter == b.inbound.counter
}

/// What one end packs the other end unpacks, as long as they are in step; and then they
/// stay in step.
pub proof fn law_frames_open_at_the_other_end(
    a: Session,
    a2: Session,
    b: Session,
    b2: Session,
    body: Seq<u8>,
    f: Seq<u8>,
)
    requires
        in_step(a, b),
        packed(a, body, f),
        sends(a, a2),
        receives(b, b2),
    ensures
        unpacked(b, f.skip(4)) == Some(body),
        in_step(a2, b2),
{
}

impl Session {
    /// Packs a message into a frame. The peer's session unpacks it.
    pub fn pack(&mut self, body: &[u8]) -> (r: Result<Vec<u8>, String>)
        ensures
            sends(*old(self), *final(self)),
            match r {
                Ok(f) => body@.len() + 16 <= MAX_FRAME && packed(*old(self), body@, f@),
                Err(e) => body@.len() + 16 > MAX_FRAME && (e@ == "frame too large"@ || e@
                    == "seal failed"@),
            },
    {
        let ct = match self.outbound.seal(body) {
            Ok(c) => c,
            Err(e) => {
                return Err(e);
            },
        };
        if ct.len() > MAX_FRAME {
            return Err(text::copy("frame too large"));
        }
        let mut out: Vec<u8> = Vec::new();
        text::push_be(&mut out, ct.len() as u128, 4);
        text::push_bytes(&mut out, ct.as_slice());
        proof {
            text::lemma_pow256_values();
            text::lemma_be(ct@.len(), 4);
            assert(out@ =~= framed(ct@));
            assert(out@.subrange(0, 4) =~= text::be(ct@.len(), 4));
            assert(out@.skip(4) =~= ct@);
        }
        Ok(out)
    }

    /// Unpacks the ciphertext of a frame.
    pub fn unpack(&mut self, ct: &[u8]) -> (r: Result<Vec<u8>, String>)
        ensures
            receives(*old(self), *final(self)),
            match r {
                Ok(m) => unpacked(*old(self), ct@) == Some(m@),
                Err(e) => e@ == "decrypt failed (wrong key, replay or tampering)"@ && unpacked(
                    *old(self),
                    ct@,
                ) is None,
            },
    {
        self.inbound.open(ct)
    }
}

/// What to do with a line of an unencrypted peer: nothing when it is blank, refuse it
/// when it is too long, else read it.
pub fn decode_line(line: &str) -> (r: Result<Option<String>, String>)
    ensures
        match r {
            Err(e) => text::utf8(line@).len() > MAX_FRAME && e@ == "oversized line"@,
            Ok(None) => text::utf8(line@).len() <= MAX_FRAME && text::trimmed(line@).len() == 0,
            Ok(Some(t)) => text::utf8(line@).len() <= MAX_FRAME && text::trimmed(line@).len() > 0
                && t@ == line@,
        },
{
    let size: usize = text::bytes_of(line).len();
    if size > MAX_FRAME {
        return Err(text::copy("oversized line"));
    }
    if text::trim(line).as_str().is_empty() {
        return Ok(None);
    }
    Ok(Some(text::copy(line)))
}

} // verus!
