//! The WebSocket endpoint: the handshake, RFC 6455 framing and the life of a socket.
//!
//! SHA-1 and base64 exist here only to answer the handshake, which fixes them.

use crate::contracts;
use crate::http;
use crate::http::Gate;
use crate::http::Head;
use crate::http::HeadV;
use crate::journal::Db;
use crate::qos;
use crate::rpcauth;
use crate::rpcauth::ConfigV;
use crate::rpcauth::RpcConfig;
use crate::rpcauth::Tier;
use crate::state::Store;
use crate::text;
use vstd::prelude::*;
use vstd::slice::slice_subrange;
use vstd::string::*;

verus! {

/// Live sockets of the endpoint.
pub const MAX_LIVE_SOCKETS: usize = 2_048;

/// Live sockets of one host.
pub const MAX_SOCKETS_PER_IP: usize = 16;

/// Largest message of a client, in bytes.
pub const MAX_FRAME_BYTES: usize = 2_097_152;

/// Milliseconds of silence after which the server pings.
pub const PING_EVERY_MS: u64 = 20_000;

/// Milliseconds of silence after which a socket is closed.
pub const IDLE_TIMEOUT_MS: u64 = 120_000;

/// Largest handshake, in bytes.
pub const MAX_HANDSHAKE_BYTES: usize = 16_384;

// ---------------------------------------------------------------- SHA-1

/// Working state of SHA-1.
#[derive(Clone, Copy)]
pub struct Sha1State {
    pub a: u32,
    pub b: u32,
    pub c: u32,
    pub d: u32,
    pub e: u32,
}

/// Addition of words.
pub open spec fn wadd(x: u32, y: u32) -> u32 {
    ((x + y) % 0x1_0000_0000) as u32
}

/// A word rotated left by one bit.
pub open spec fn rotl1(x: u32) -> u32 {
    (x << 1u32) | (x >> 31u32)
}

/// A word rotated left by five bits.
pub open spec fn rotl5(x: u32) -> u32 {
    (x << 5u32) | (x >> 27u32)
}

/// A word rotated left by thirty bits.
pub open spec fn rotl30(x: u32) -> u32 {
    (x << 30u32) | (x >> 2u32)
}

/// The initial state.
pub open spec fn sha1_start() -> Sha1State {
    Sha1State {
        a: 0x6745_2301,
        b: 0xEFCD_AB89,
        c: 0x98BA_DCFE,
        d: 0x1032_5476,
        e: 0xC3D2_E1F0,
    }
}

/// A message padded to whole blocks: a one bit, zeros, and its length in bits.
pub open spec fn padded(data: Seq<u8>) -> Seq<u8> {
    data.push(0x80) + Seq::new(zeros_for(data.len()), |i: int| 0u8) + text::be(8 * data.len(), 8)
}

/// The zeros that fill a block up to the length.
pub open spec fn zeros_for(n: nat) -> nat {
    ((119 - n % 64) % 64) as nat
}

/// A word of a block.
pub open spec fn word_at(block: Seq<u8>, i: int) -> u32 {
    text::from_be(block.subrange(4 * i, 4 * i + 4)) as u32
}

/// The first words of the schedule of a block.
pub open spec fn schedule(block: Seq<u8>, n: nat) -> Seq<u32>
    decreases n,
{
    if n == 0 {
        Seq::empty()
    } else {
        let w = schedule(block, (n - 1) as nat);
        let i = n - 1;
        w.push(
            if i < 16 {
                word_at(block, i)
            } else {
                rotl1(w[i - 3] ^ w[i - 8] ^ w[i - 14] ^ w[i - 16])
            },
        )
    }
}

/// The function of a round.
pub open spec fn choice(i: int, b: u32, c: u32, d: u32) -> u32 {
    if i < 20 {
        (b & c) | ((!b) & d)
    } else if 40 <= i < 60 {
        (b & c) | (b & d) | (c & d)
    } else {
        b ^ c ^ d
    }
}

/// The constant of a round.
pub open spec fn constant(i: int) -> u32 {
    if i < 20 {
        0x5A82_7999
    } else if i < 40 {
        0x6ED9_EBA1
    } else if i < 60 {
        0x8F1B_BCDC
    } else {
        0xCA62_C1D6
    }
}

/// One round.
pub open spec fn round(s: Sha1State, i: int, w: u32) -> Sha1State {
    Sha1State {
        a: wadd(
            wadd(wadd(wadd(rotl5(s.a), choice(i, s.b, s.c, s.d)), s.e), constant(i)),
            w,
        ),
        b: s.a,
        c: rotl30(s.b),
        d: s.c,
        e: s.d,
    }
}

/// The first rounds of a block.
pub open spec fn rounds(s: Sha1State, w: Seq<u32>, n: nat) -> Sha1State
    decreases n,
{
    if n == 0 {
        s
    } else {
        round(rounds(s, w, (n - 1) as nat), n - 1, w[n - 1])
    }
}

/// The state after a block.
pub open spec fn absorbed(s: Sha1State, block: Seq<u8>) -> Sha1State {
    let t = rounds(s, schedule(block, 80), 80);
    Sha1State {
        a: wadd(s.a, t.a),
        b: wadd(s.b, t.b),
        c: wadd(s.c, t.c),
        d: wadd(s.d, t.d),
        e: wadd(s.e, t.e),
    }
}

/// The state after the first blocks of a padded message.
pub open spec fn sha1_after(msg: Seq<u8>, n: nat) -> Sha1State
    decreases n,
{
    if n == 0 {
        sha1_start()
    } else {
        absorbed(sha1_after(msg, (n - 1) as nat), msg.subrange(64 * (n - 1), 64 * (n as int)))
    }
}

/// The SHA-1 digest of a message.
pub open spec fn sha1_of(data: Seq<u8>) -> Seq<u8> {
    let m = padded(data);
    let s = sha1_after(m, m.len() / 64);
    text::be(s.a as nat, 4) + text::be(s.b as nat, 4) + text::be(s.c as nat, 4) + text::be(
        s.d as nat,
        4,
    ) + text::be(s.e as nat, 4)
}

fn plus(x: u32, y: u32) -> (r: u32)
    ensures
        r == wadd(x, y),
{
    x.wrapping_add(y)
}

/// Computes the schedule of a block.
fn expand(block: &[u8]) -> (r: Vec<u32>)
    requires
        block@.len() == 64,
    ensures
        r@ == schedule(block@, 80),
        r@.len() == 80,
{
    let mut w: Vec<u32> = Vec::new();
    let mut i: usize = 0;
    while i < 80
        invariant
            i <= 80,
            block@.len() == 64,
            w@.len() == i,
            w@ == schedule(block@, i as nat),
        decreases 80 - i,
    {
        let x: u32 = if i < 16 {
            let part = slice_subrange(block, 4 * i, 4 * i + 4);
            let n = text::read_be(part);
            proof {
                text::lemma_pow256_values();
                text::lemma_from_be(part@);
            }
            n as u32
        } else {
            let m = w[i - 3] ^ w[i - 8] ^ w[i - 14] ^ w[i - 16];
            (m << 1u32) | (m >> 31u32)
        };
        w.push(x);
        i = i + 1;
    }
    w
}

/// One round.
fn turn(s: Sha1State, i: usize, w: u32) -> (r: Sha1State)
    ensures
        r == round(s, i as int, w),
{
    let (b, c, d) = (s.b, s.c, s.d);
    let f: u32 = if i < 20 {
        (b & c) | ((!b) & d)
    } else if 40 <= i && i < 60 {
        (b & c) | (b & d) | (c & d)
    } else {
        b ^ c ^ d
    };
    let k: u32 = if i < 20 {
        0x5A82_7999
    } else if i < 40 {
        0x6ED9_EBA1
    } else if i < 60 {
        0x8F1B_BCDC
    } else {
        0xCA62_C1D6
    };
    let a = s.a;
    let turned: u32 = (a << 5u32) | (a >> 27u32);
    let top: u32 = plus(plus(plus(plus(turned, f), s.e), k), w);
    Sha1State { a: top, b: a, c: (b << 30u32) | (b >> 2u32), d: c, e: d }
}

/// Takes a block in.
fn absorb(s: Sha1State, block: &[u8]) -> (r: Sha1State)
    requires
        block@.len() == 64,
    ensures
        r == absorbed(s, block@),
{
    let w = expand(block);
    let mut t = s;
    let mut i: usize = 0;
    while i < 80
        invariant
            i <= 80,
            w@.len() == 80,
            t == rounds(s, w@, i as nat),
        decreases 80 - i,
    {
        t = turn(t, i, w[i]);
        i = i + 1;
    }
    Sha1State {
        a: plus(s.a, t.a),
        b: plus(s.b, t.b),
        c: plus(s.c, t.c),
        d: plus(s.d, t.d),
        e: plus(s.e, t.e),
    }
}

/// Pads a message to whole blocks.
fn pad(data: &[u8]) -> (r: Vec<u8>)
    requires
        data@.len() <= 0x0FFF_FFFF_FFFF_FFFF,
    ensures
        r@ == padded(data@),
        r@.len() % 64 == 0,
{
    let n: usize = data.len();
    let mut msg = text::copy_bytes(data);
    msg.push(0x80);
    let want: usize = (119 - n % 64) % 64;
    let ghost head = data@.push(0x80);
    let mut i: usize = 0;
    while i < want
        invariant
            i <= want,
            msg@ =~= head + Seq::new(i as nat, |j: int| 0u8),
        decreases want - i,
    {
        msg.push(0);
        i = i + 1;
    }
    text::push_be(&mut msg, n as u128 * 8, 8);
    proof {
        text::lemma_be(8 * data@.len(), 8);
        assert(want == zeros_for(data@.len()));
        assert(msg@ =~= padded(data@));
        assert((n + 1 + want + 8) % 64 == 0);
    }
    msg
}

/// The SHA-1 digest of a message.
pub fn sha1(data: &[u8]) -> (r: Vec<u8>)
    requires
        data@.len() <= 0x0FFF_FFFF_FFFF_FFFF,
    ensures
        r@ == sha1_of(data@),
{
    let msg = pad(data);
    let size: usize = msg.len();
    let blocks: usize = size / 64;
    let mut s = Sha1State {
        a: 0x6745_2301,
        b: 0xEFCD_AB89,
        c: 0x98BA_DCFE,
        d: 0x1032_5476,
        e: 0xC3D2_E1F0,
    };
    let mut i: usize = 0;
    while i < blocks
        invariant
            i <= blocks,
            size == msg@.len(),
            64 * blocks == size,
            s == sha1_after(msg@, i as nat),
        decreases blocks - i,
    {
        let from: usize = 64 * i;
        let block = slice_subrange(msg.as_slice(), from, from + 64);
        assert(block@ =~= msg@.subrange(64 * i, 64 * (i + 1)));
        s = absorb(s, block);
        i = i + 1;
    }
    let mut out: Vec<u8> = Vec::new();
    text::push_be(&mut out, s.a as u128, 4);
    text::push_be(&mut out, s.b as u128, 4);
    text::push_be(&mut out, s.c as u128, 4);
    text::push_be(&mut out, s.d as u128, 4);
    text::push_be(&mut out, s.e as u128, 4);
    assert(out@ =~= sha1_of(data@));
    out
}

// ---------------------------------------------------------------- base64

/// The character of six bits.
pub open spec fn sextet(v: int) -> char {
    if v < 26 {
        (65 + v) as char
    } else if v < 52 {
        (71 + v) as char
    } else if v < 62 {
        (v - 4) as char
    } else if v == 62 {
        '+'
    } else {
        '/'
    }
}

/// The four characters of up to three bytes.
pub open spec fn quartet(g: Seq<u8>) -> Seq<char> {
    let x = g[0] as int;
    let y = if g.len() > 1 {
        g[1] as int
    } else {
        0
    };
    let z = if g.len() > 2 {
        g[2] as int
    } else {
        0
    };
    seq![
        sextet(x / 4),
        sextet(16 * (x % 4) + y / 16),
        if g.len() > 1 {
            sextet(4 * (y % 16) + z / 64)
        } else {
            '='
        },
        if g.len() > 2 {
            sextet(z % 64)
        } else {
            '='
        },
    ]
}

/// Base64 of a byte string.
pub open spec fn b64_of(data: Seq<u8>) -> Seq<char>
    decreases data.len(),
{
    if data.len() == 0 {
        Seq::empty()
    } else if data.len() <= 3 {
        quartet(data)
    } else {
        quartet(data.take(3)) + b64_of(data.skip(3))
    }
}

fn six(v: u8) -> (r: char)
    requires
        v < 64,
    ensures
        r == sextet(v as int),
{
    if v < 26 {
        (65 + v) as char
    } else if v < 52 {
        (71 + v) as char
    } else if v < 62 {
        (v - 4) as char
    } else if v == 62 {
        '+'
    } else {
        '/'
    }
}

/// Base64 of a byte string.
pub fn b64(data: &[u8]) -> (r: String)
    ensures
        r@ == b64_of(data@),
{
    let n: usize = data.len();
    let mut out = String::new();
    let mut i: usize = 0;
    proof {
        assert(data@.skip(0) =~= data@);
        assert(out@ + b64_of(data@) =~= b64_of(data@));
    }
    while i < n
        invariant
            i <= n,
            n == data@.len(),
            out@ + b64_of(data@.skip(i as int)) =~= b64_of(data@),
        decreases n - i,
    {
        let ghost rest = data@.skip(i as int);
        let ghost was = out@;
        let left: usize = n - i;
        let x: u8 = data[i];
        let y: u8 = if left > 1 {
            data[i + 1]
        } else {
            0
        };
        let z: u8 = if left > 2 {
            data[i + 2]
        } else {
            0
        };
        let c0 = six(x / 4);
        let c1 = six(16 * (x % 4) + y / 16);
        let c2 = if left > 1 {
            six(4 * (y % 16) + z / 64)
        } else {
            '='
        };
        let c3 = if left > 2 {
            six(z % 64)
        } else {
            '='
        };
        out.push(c0);
        out.push(c1);
        out.push(c2);
        out.push(c3);
        let ghost four = seq![c0, c1, c2, c3];
        assert(out@ =~= was + four);
        if left <= 3 {
            proof {
                assert(quartet(rest) =~= four);
                assert(data@.skip(n as int) =~= Seq::<u8>::empty());
                assert(was + b64_of(rest) =~= out@);
            }
            i = n;
        } else {
            proof {
                let g = rest.take(3);
                assert(g[0] == x && g[1] == y && g[2] == z);
                assert(quartet(g) =~= four);
                assert(rest.skip(3) =~= data@.skip(i + 3));
                assert(was + (four + b64_of(rest.skip(3))) =~= (was + four) + b64_of(
                    rest.skip(3),
                ));
            }
            i = i + 3;
        }
    }
    assert(b64_of(data@.skip(n as int)) =~= Seq::<char>::empty());
    out
}

/// Base64 comes in groups of four characters, one for every three bytes begun.
pub proof fn law_base64_length(data: Seq<u8>)
    ensures
        b64_of(data).len() == 4 * ((data.len() + 2) / 3),
    decreases data.len(),
{
    if data.len() > 3 {
        law_base64_length(data.skip(3));
    }
}

// ---------------------------------------------------------------- handshake

/// What a server answers to a handshake key.
pub open spec fn accept_of(key: Seq<char>) -> Seq<char> {
    b64_of(
        sha1_of(text::utf8(text::trimmed(key) + "258EAFA5-E914-47DA-95CA-C5AB0DC85B11"@)),
    )
}

/// Answers a handshake key.
pub fn accept_key(key: &str) -> (r: String)
    requires
        text::utf8(text::trimmed(key@) + "258EAFA5-E914-47DA-95CA-C5AB0DC85B11"@).len()
            <= 0x0FFF_FFFF_FFFF_FFFF,
    ensures
        r@ == accept_of(key@),
{
    let mut t = text::trim(key);
    t.append("258EAFA5-E914-47DA-95CA-C5AB0DC85B11");
    let raw = text::bytes_of(t.as_str());
    b64(sha1(raw.as_slice()).as_slice())
}

/// What becomes of a handshake.
pub enum Upgrade {
    /// No key: not a WebSocket handshake.
    NotASocket,
    /// The endpoint is closed to unknown callers.
    NeedsKey,
    /// Accepted, with the answer, the tier and the credential of the caller.
    Accepted(String, Tier, Option<String>),
}

/// Model of what becomes of a handshake.
pub enum UpgradeV {
    NotASocket,
    NeedsKey,
    Accepted(Seq<char>, Tier, Option<Seq<char>>),
}

impl View for Upgrade {
    type V = UpgradeV;

    open spec fn view(&self) -> UpgradeV {
        match self {
            Upgrade::NotASocket => UpgradeV::NotASocket,
            Upgrade::NeedsKey => UpgradeV::NeedsKey,
            Upgrade::Accepted(a, t, c) => UpgradeV::Accepted(
                a@,
                *t,
                contracts::text_view(*c),
            ),
        }
    }
}

/// What becomes of a handshake.
pub open spec fn upgraded(c: ConfigV, h: HeadV) -> UpgradeV {
    match h.socket_key {
        None => UpgradeV::NotASocket,
        Some(key) => {
            let credential = http::socket_credential(h);
            let tier = rpcauth::tier_of(c.keys, credential);
            if c.require_auth && tier == Tier::Anonymous {
                UpgradeV::NeedsKey
            } else {
                UpgradeV::Accepted(
                    "HTTP/1.1 101 Switching Protocols\r\nUpgrade: websocket\r\nConnection: Upgrade\r\nSec-WebSocket-Accept: "@
                        + accept_of(key) + "\r\n\r\n"@,
                    tier,
                    credential,
                )
            }
        },
    }
}

/// Decides a handshake.
pub fn upgrade(cfg: &RpcConfig, head: &Head) -> (r: Upgrade)
    requires
        cfg.wf(),
        head@.socket_key matches Some(k) ==> text::utf8(
            text::trimmed(k) + "258EAFA5-E914-47DA-95CA-C5AB0DC85B11"@,
        ).len() <= 0x0FFF_FFFF_FFFF_FFFF,
    ensures
        r@ == upgraded(cfg@, head@),
{
    let key = match &head.socket_key {
        None => {
            return Upgrade::NotASocket;
        },
        Some(k) => k,
    };
    let credential = http::read_socket_credential(head);
    let tier = cfg.tier_for(
        match &credential {
            Some(c) => Some(c.as_str()),
            None => None,
        },
    );
    if cfg.require_auth && tier == Tier::Anonymous {
        return Upgrade::NeedsKey;
    }
    let mut m = text::copy(
        "HTTP/1.1 101 Switching Protocols\r\nUpgrade: websocket\r\nConnection: Upgrade\r\nSec-WebSocket-Accept: ",
    );
    m.append(accept_key(key.as_str()).as_str());
    m.append("\r\n\r\n");
    Upgrade::Accepted(m, tier, credential)
}

/// What becomes of a call over a socket: it is charged first, and an operator's method
/// is refused to everyone else.
pub open spec fn socket_gate(
    c: ConfigV,
    db: Db,
    ip: Seq<char>,
    tier: Tier,
    credential: Option<Seq<char>>,
    method: Seq<char>,
    items: Option<usize>,
    now: u64,
) -> (Gate, ConfigV) {
    let cost = rpcauth::cost_of(method, items);
    let (ok, d) = rpcauth::charged_weighted(c, db, ip, tier, credential, cost, now);
    if !ok {
        (Gate::Limited(Some(cost)), d)
    } else if !rpcauth::permitted(method, tier) {
        (Gate::NeedsAdmin, d)
    } else {
        (Gate::Call, d)
    }
}

/// Decides what becomes of a call over a socket.
pub fn pass_socket(
    cfg: &mut RpcConfig,
    store: &Store,
    ip: &str,
    tier: Tier,
    credential: Option<&str>,
    method: &str,
    items: Option<usize>,
    now: u64,
) -> (r: Gate)
    requires
        old(cfg).wf(),
        store.wf(),
    ensures
        final(cfg).wf(),
        (r, final(cfg)@) == socket_gate(
            old(cfg)@,
            store@.db,
            ip@,
            tier,
            qos::cred_view(credential),
            method@,
            items,
            now,
        ),
{
    let cost = rpcauth::method_cost(method, items);
    if !cfg.charge_weighted(store, ip, tier, credential, cost, now) {
        return Gate::Limited(Some(cost));
    }
    if rpcauth::is_privileged(method) && tier != Tier::Admin {
        return Gate::NeedsAdmin;
    }
    Gate::Call
}

// ---------------------------------------------------------------- frames

/// The first two bytes of a frame.
#[derive(Clone, Copy, PartialEq, Eq, Structural, Debug)]
pub struct FrameHead {
    pub fin: bool,
    pub opcode: u8,
    pub masked: bool,
    pub short: u8,
}

/// Reads the first two bytes of a frame.
pub fn frame_head(b0: u8, b1: u8) -> (r: FrameHead)
    ensures
        r == (FrameHead {
            fin: b0 >= 128,
            opcode: (b0 % 16) as u8,
            masked: b1 >= 128,
            short: (b1 % 128) as u8,
        }),
{
    FrameHead { fin: b0 >= 128, opcode: b0 % 16, masked: b1 >= 128, short: b1 % 128 }
}

/// Bytes of the length that follow.
pub fn length_bytes(h: FrameHead) -> (r: usize)
    ensures
        r == if h.short == 126 {
            2
        } else if h.short == 127 {
            8int
        } else {
            0
        },
{
    if h.short == 126 {
        2
    } else if h.short == 127 {
        8
    } else {
        0
    }
}

/// The length a frame announces.
pub open spec fn announced(h: FrameHead, ext: Seq<u8>) -> nat {
    if h.short == 126 || h.short == 127 {
        text::from_be(ext)
    } else {
        h.short as nat
    }
}

/// The length of a frame's payload, or why the frame is refused: it is too large, or a
/// client sent it unmasked.
pub fn frame_size(h: FrameHead, ext: &[u8]) -> (r: Result<usize, String>)
    requires
        ext@.len() <= 8,
    ensures
        ({
            let n = announced(h, ext@);
            match r {
                Ok(k) => k == n && n <= MAX_FRAME_BYTES && h.masked,
                Err(e) => if n > MAX_FRAME_BYTES {
                    e@ == "frame too large"@
                } else {
                    !h.masked && e@ == "client frames must be masked"@
                },
            }
        }),
{
    let n: u128 = if h.short == 126 || h.short == 127 {
        text::read_be(ext)
    } else {
        h.short as u128
    };
    if n > MAX_FRAME_BYTES as u128 {
        return Err(text::copy("frame too large"));
    }
    if !h.masked {
        return Err(text::copy("client frames must be masked"));
    }
    Ok(n as usize)
}

/// A payload with its mask removed, or put on.
pub open spec fn masked_with(payload: Seq<u8>, mask: Seq<u8>) -> Seq<u8> {
    Seq::new(payload.len(), |i: int| payload[i] ^ mask[i % 4])
}

/// Removes the mask of a payload.
pub fn unmask(payload: &[u8], mask: &[u8]) -> (r: Vec<u8>)
    requires
        mask@.len() == 4,
    ensures
        r@ == masked_with(payload@, mask@),
{
    let mut out: Vec<u8> = Vec::new();
    let mut i: usize = 0;
    while i < payload.len()
        invariant
            i <= payload@.len(),
            mask@.len() == 4,
            out@ =~= masked_with(payload@, mask@).take(i as int),
        decreases payload@.len() - i,
    {
        out.push(payload[i] ^ mask[i % 4]);
        i = i + 1;
    }
    assert(out@ =~= masked_with(payload@, mask@));
    out
}

/// Masking twice gives the payload back.
pub proof fn law_mask_is_its_own_inverse(payload: Seq<u8>, mask: Seq<u8>)
    requires
        mask.len() == 4,
    ensures
        masked_with(masked_with(payload, mask), mask) == payload,
{
    let once = masked_with(payload, mask);
    let twice = masked_with(once, mask);
    assert forall|i: int| 0 <= i < payload.len() implies twice[i] == payload[i] by {
        let p = payload[i];
        let m = mask[i % 4];
        assert((p ^ m) ^ m == p) by (bit_vector);
    }
    assert(twice =~= payload);
}

/// A frame of the server.
pub open spec fn frame_of(opcode: u8, payload: Seq<u8>) -> Seq<u8> {
    let n = payload.len();
    let head = if n < 126 {
        seq![(128 + opcode) as u8, n as u8]
    } else if n <= 65_535 {
        seq![(128 + opcode) as u8, 126u8] + text::be(n, 2)
    } else {
        seq![(128 + opcode) as u8, 127u8] + text::be(n, 8)
    };
    head + payload
}

/// Writes a frame of the server.
pub fn frame(opcode: u8, payload: &[u8]) -> (r: Vec<u8>)
    requires
        opcode < 16,
    ensures
        r@ == frame_of(opcode, payload@),
{
    let n: usize = payload.len();
    let mut out: Vec<u8> = Vec::new();
    out.push(128 + opcode);
    if n < 126 {
        out.push(n as u8);
    } else if n <= 65_535 {
        out.push(126);
        text::push_be(&mut out, n as u128, 2);
    } else {
        out.push(127);
        text::push_be(&mut out, n as u128, 8);
    }
    text::push_bytes(&mut out, payload);
    assert(out@ =~= frame_of(opcode, payload@));
    out
}

/// The head of a frame of the server announces its payload, whole and unmasked.
pub proof fn law_frames_announce_their_length(opcode: u8, payload: Seq<u8>)
    requires
        opcode < 16,
        payload.len() <= u64::MAX,
    ensures
        ({
            let f = frame_of(opcode, payload);
            let short = (f[1] % 128) as u8;
            let k: int = if short == 126 {
                2
            } else if short == 127 {
                8
            } else {
                0
            };
            let h = FrameHead {
                fin: f[0] >= 128,
                opcode: (f[0] % 16) as u8,
                masked: f[1] >= 128,
                short,
            };
            &&& h.fin
            &&& !h.masked
            &&& h.opcode == opcode
            &&& announced(h, f.subrange(2, 2 + k)) == payload.len()
            &&& f.skip(2 + k) == payload
        }),
{
    let n = payload.len();
    let f = frame_of(opcode, payload);
    text::lemma_pow256_values();
    reveal_with_fuel(text::pow256, 3);
    assert(text::pow256(2) == 65_536);
    text::lemma_be(n, 2);
    text::lemma_be(n, 8);
    assert(f[0] == 128 + opcode);
    assert(f[0] % 16 == opcode);
    if n < 126 {
        assert(f[1] == n);
        assert(f.skip(2) =~= payload);
    } else if n <= 65_535 {
        assert(f[1] == 126);
        assert(f.subrange(2, 4) =~= text::be(n, 2));
        assert(f.skip(4) =~= payload);
    } else {
        assert(f[1] == 127);
        assert(f.subrange(2, 10) =~= text::be(n, 8));
        assert(f.skip(10) =~= payload);
    }
}

// ---------------------------------------------------------------- the life of a socket

/// What a socket does next.
pub enum Step {
    /// The client closes.
    Close,
    /// A ping is answered with its payload.
    Pong(Vec<u8>),
    /// Nothing to do.
    Wait,
    /// The client broke the protocol.
    Fail(String),
    /// A whole message arrived.
    Message(Vec<u8>),
}

/// Model of what a socket does next.
pub enum StepV {
    Close,
    Pong(Seq<u8>),
    Wait,
    Fail(Seq<char>),
    Message(Seq<u8>),
}

impl View for Step {
    type V = StepV;

    open spec fn view(&self) -> StepV {
        match self {
            Step::Close => StepV::Close,
            Step::Pong(p) => StepV::Pong(p@),
            Step::Wait => StepV::Wait,
            Step::Fail(m) => StepV::Fail(m@),
            Step::Message(p) => StepV::Message(p@),
        }
    }
}

/// What a socket that holds the start of a message does with a frame, and what it holds
/// after.
pub open spec fn stepped(held: Seq<u8>, opcode: u8, payload: Seq<u8>, fin: bool) -> (
    StepV,
    Seq<u8>,
) {
    if opcode == 8 {
        (StepV::Close, held)
    } else if opcode == 9 {
        (StepV::Pong(payload), held)
    } else if opcode == 10 {
        (StepV::Wait, held)
    } else if opcode == 2 {
        (StepV::Fail("binary frames are not accepted"@), held)
    } else if opcode <= 1 {
        let all = held + payload;
        if all.len() > MAX_FRAME_BYTES {
            (StepV::Fail("message too large"@), all)
        } else if !fin {
            (StepV::Wait, all)
        } else {
            (StepV::Message(all), Seq::empty())
        }
    } else {
        (StepV::Fail("unsupported frame"@), held)
    }
}

/// A message that arrives in pieces.
pub struct Assembly {
    pub held: Vec<u8>,
}

impl Assembly {
    /// Nothing arrived yet.
    pub fn new() -> (r: Assembly)
        ensures
            r.held@ == Seq::<u8>::empty(),
    {
        Assembly { held: Vec::new() }
    }

    /// Takes a frame in.
    pub fn on_frame(&mut self, opcode: u8, payload: Vec<u8>, fin: bool) -> (r: Step)
        ensures
            (r@, final(self).held@) == stepped(old(self).held@, opcode, payload@, fin),
    {
        if opcode == 8 {
            return Step::Close;
        }
        if opcode == 9 {
            return Step::Pong(payload);
        }
        if opcode == 10 {
            return Step::Wait;
        }
        if opcode == 2 {
            return Step::Fail(text::copy("binary frames are not accepted"));
        }
        if opcode > 1 {
            return Step::Fail(text::copy("unsupported frame"));
        }
        text::push_bytes(&mut self.held, payload.as_slice());
        if self.held.len() > MAX_FRAME_BYTES {
            return Step::Fail(text::copy("message too large"));
        }
        if !fin {
            return Step::Wait;
        }
        let mut all: Vec<u8> = Vec::new();
        std::mem::swap(&mut all, &mut self.held);
        Step::Message(all)
    }
}

/// Whether a socket was silent for too long.
pub fn timed_out(last_seen: u64, now: u64) -> (r: bool)
    ensures
        r == (now > last_seen + IDLE_TIMEOUT_MS),
{
    now > last_seen && now - last_seen > IDLE_TIMEOUT_MS
}

/// A socket never holds more of a message than the limit and one frame.
pub proof fn law_held_message_is_bounded(held: Seq<u8>, opcode: u8, payload: Seq<u8>, fin: bool)
    requires
        held.len() <= MAX_FRAME_BYTES,
    ensures
        ({
            let (s, after) = stepped(held, opcode, payload, fin);
            &&& s !is Fail ==> after.len() <= MAX_FRAME_BYTES
            &&& s matches StepV::Message(m) ==> m.len() <= MAX_FRAME_BYTES
        }),
{
}

} // verus!
