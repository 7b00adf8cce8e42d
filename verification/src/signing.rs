//! Signed preimages determine what was signed.
//!
//! The canonical preimage does so for every transaction; the legacy one, whose
//! fields are joined with `|`, for transactions whose fields are free of `|`.

use crate::text;
use crate::types;
use crate::types::PayloadV;
use crate::types::ShieldedV;
use crate::types::TxKind;
use crate::types::TxV;
use vstd::prelude::*;

verus! {

// ---------------------------------------------------------------- prefixes

/// Concatenation is associative.
pub proof fn lemma_assoc<A>(a: Seq<A>, b: Seq<A>, c: Seq<A>)
    ensures
        a + b + c == a + (b + c),
{
    assert(a + b + c =~= a + (b + c));
}

/// Prefixes of equal length of equal sequences are equal, and so are the rests.
pub proof fn lemma_cut<A>(p: Seq<A>, x: Seq<A>, q: Seq<A>, y: Seq<A>)
    requires
        p + x == q + y,
        p.len() == q.len(),
    ensures
        p == q,
        x == y,
{
    let s = p + x;
    assert(s.take(p.len() as int) =~= p);
    assert((q + y).take(p.len() as int) =~= q);
    assert(s.skip(p.len() as int) =~= x);
    assert((q + y).skip(p.len() as int) =~= y);
}

/// Big-endian numbers of a fixed width can be read off the front.
proof fn lemma_cut_be(a: nat, x: Seq<u8>, b: nat, y: Seq<u8>, k: nat)
    requires
        text::be(a, k) + x == text::be(b, k) + y,
        a < text::pow256(k),
        b < text::pow256(k),
    ensures
        a == b,
        x == y,
{
    text::lemma_be(a, k);
    text::lemma_be(b, k);
    lemma_cut(text::be(a, k), x, text::be(b, k), y);
}

/// Length-prefixed fields can be read off the front.
proof fn lemma_cut_field(a: Seq<u8>, x: Seq<u8>, b: Seq<u8>, y: Seq<u8>)
    requires
        types::field(a) + x == types::field(b) + y,
        a.len() < 0x1_0000_0000,
        b.len() < 0x1_0000_0000,
    ensures
        a == b,
        x == y,
{
    text::lemma_pow256_values();
    let la = text::be((a.len() % 0x1_0000_0000) as nat, 4);
    let lb = text::be((b.len() % 0x1_0000_0000) as nat, 4);
    lemma_assoc(la, a, x);
    lemma_assoc(lb, b, y);
    lemma_cut_be(a.len(), a + x, b.len(), b + y, 4);
    lemma_cut(a, x, b, y);
}

/// A text short enough for a 32-bit length.
pub open spec fn short_text(s: Seq<char>) -> bool {
    text::utf8(s).len() < 0x1_0000_0000
}

/// Text fields can be read off the front.
proof fn lemma_cut_text(a: Seq<char>, x: Seq<u8>, b: Seq<char>, y: Seq<u8>)
    requires
        types::text_field(a) + x == types::text_field(b) + y,
        short_text(a),
        short_text(b),
    ensures
        a == b,
        x == y,
{
    lemma_cut_field(text::utf8(a), x, text::utf8(b), y);
    text::lemma_utf8_injective(a, b);
}

/// A list of fields starts with its first element.
proof fn lemma_fields_front(v: Seq<Seq<char>>)
    requires
        v.len() > 0,
    ensures
        types::fields_of(v) == types::text_field(v[0]) + types::fields_of(v.skip(1)),
    decreases v.len(),
{
    if v.len() == 1 {
        assert(v.drop_last() =~= Seq::<Seq<char>>::empty());
        assert(v.skip(1) =~= Seq::<Seq<char>>::empty());
        assert(types::fields_of(v) =~= types::text_field(v[0]) + types::fields_of(v.skip(1)));
    } else {
        let d = v.drop_last();
        lemma_fields_front(d);
        assert(d.skip(1) =~= v.skip(1).drop_last());
        assert(v.skip(1).last() == v.last());
        lemma_assoc(
            types::text_field(v[0]),
            types::fields_of(d.skip(1)),
            types::text_field(v.last()),
        );
    }
}

/// Every text of a list is short.
pub open spec fn short_list(v: Seq<Seq<char>>) -> bool {
    v.len() < 0x1_0000_0000 && forall|i: int| 0 <= i < v.len() ==> short_text(#[trigger] v[i])
}

proof fn lemma_cut_fields(a: Seq<Seq<char>>, x: Seq<u8>, b: Seq<Seq<char>>, y: Seq<u8>)
    requires
        types::fields_of(a) + x == types::fields_of(b) + y,
        a.len() == b.len(),
        short_list(a),
        short_list(b),
    ensures
        a == b,
        x == y,
    decreases a.len(),
{
    if a.len() == 0 {
        assert(types::fields_of(a) + x =~= x);
        assert(types::fields_of(b) + y =~= y);
        assert(a =~= b);
    } else {
        lemma_fields_front(a);
        lemma_fields_front(b);
        lemma_assoc(types::text_field(a[0]), types::fields_of(a.skip(1)), x);
        lemma_assoc(types::text_field(b[0]), types::fields_of(b.skip(1)), y);
        assert(short_text(a[0]) && short_text(b[0]));
        lemma_cut_text(
            a[0],
            types::fields_of(a.skip(1)) + x,
            b[0],
            types::fields_of(b.skip(1)) + y,
        );
        assert forall|i: int| 0 <= i < a.skip(1).len() implies short_text(
            #[trigger] a.skip(1)[i],
        ) by {
            assert(short_text(a[i + 1]));
        }
        assert forall|i: int| 0 <= i < b.skip(1).len() implies short_text(
            #[trigger] b.skip(1)[i],
        ) by {
            assert(short_text(b[i + 1]));
        }
        lemma_cut_fields(a.skip(1), x, b.skip(1), y);
        assert(a =~= seq![a[0]] + a.skip(1));
        assert(b =~= seq![b[0]] + b.skip(1));
    }
}

/// Counted lists can be read off the front.
proof fn lemma_cut_list(a: Seq<Seq<char>>, x: Seq<u8>, b: Seq<Seq<char>>, y: Seq<u8>)
    requires
        types::list_field(a) + x == types::list_field(b) + y,
        short_list(a),
        short_list(b),
    ensures
        a == b,
        x == y,
{
    text::lemma_pow256_values();
    let la = text::be((a.len() % 0x1_0000_0000) as nat, 4);
    let lb = text::be((b.len() % 0x1_0000_0000) as nat, 4);
    lemma_assoc(la, types::fields_of(a), x);
    lemma_assoc(lb, types::fields_of(b), y);
    lemma_cut_be(
        a.len(),
        types::fields_of(a) + x,
        b.len(),
        types::fields_of(b) + y,
        4,
    );
    lemma_cut_fields(a, x, b, y);
}

// ---------------------------------------------------------------- canonical preimage

/// The fields of a payload are short.
pub open spec fn short_payload(p: Option<PayloadV>) -> bool {
    match p {
        None => true,
        Some(x) => short_text(x.token) && short_text(x.symbol) && short_text(x.name)
            && short_text(x.code) && short_text(x.args),
    }
}

/// The fields of a shielded part are short.
pub open spec fn short_shielded(p: Option<ShieldedV>) -> bool {
    match p {
        None => true,
        Some(x) => short_text(x.anchor) && short_list(x.nullifiers) && short_list(x.commitments)
            && short_text(x.proof) && short_text(x.public_unshield),
    }
}

/// Every field of a transaction has a 32-bit length.
pub open spec fn short_tx(t: TxV) -> bool {
    short_text(t.from_pubkey) && short_text(t.to) && short_payload(t.payload) && short_shielded(
        t.shielded,
    )
}

spec fn payload_tail(p: PayloadV, x: Seq<u8>) -> Seq<u8> {
    types::text_field(p.token) + (types::text_field(p.symbol) + (types::text_field(p.name) + (seq![
        p.decimals,
    ] + (seq![
        if p.mintable {
            1u8
        } else {
            0u8
        },
    ] + (types::text_field(p.code) + (types::text_field(p.args) + x))))))
}

proof fn lemma_payload_tail(p: PayloadV, x: Seq<u8>)
    ensures
        types::payload_bytes(Some(p)) + x == seq![1u8] + payload_tail(p, x),
{
    let one = seq![1u8];
    let a = types::text_field(p.token);
    let b = types::text_field(p.symbol);
    let c = types::text_field(p.name);
    let d = seq![p.decimals];
    let e = seq![
        if p.mintable {
            1u8
        } else {
            0u8
        },
    ];
    let f = types::text_field(p.code);
    let g = types::text_field(p.args);
    lemma_assoc(one + a + b + c + d + e + f, g, x);
    lemma_assoc(one + a + b + c + d + e, f, g + x);
    lemma_assoc(one + a + b + c + d, e, f + (g + x));
    lemma_assoc(one + a + b + c, d, e + (f + (g + x)));
    lemma_assoc(one + a + b, c, d + (e + (f + (g + x))));
    lemma_assoc(one + a, b, c + (d + (e + (f + (g + x)))));
    lemma_assoc(one, a, b + (c + (d + (e + (f + (g + x))))));
}

proof fn lemma_cut_payload(a: Option<PayloadV>, x: Seq<u8>, b: Option<PayloadV>, y: Seq<u8>)
    requires
        types::payload_bytes(a) + x == types::payload_bytes(b) + y,
        short_payload(a),
        short_payload(b),
    ensures
        a == b,
        x == y,
{
    match (a, b) {
        (None, None) => {
            lemma_cut(seq![0u8], x, seq![0u8], y);
        },
        (Some(p), Some(q)) => {
            lemma_payload_tail(p, x);
            lemma_payload_tail(q, y);
            lemma_cut(seq![1u8], payload_tail(p, x), seq![1u8], payload_tail(q, y));
            let pg = types::text_field(p.args) + x;
            let qg = types::text_field(q.args) + y;
            let pf = types::text_field(p.code) + pg;
            let qf = types::text_field(q.code) + qg;
            let pm = seq![
                if p.mintable {
                    1u8
                } else {
                    0u8
                },
            ];
            let qm = seq![
                if q.mintable {
                    1u8
                } else {
                    0u8
                },
            ];
            let pc = types::text_field(p.name) + (seq![p.decimals] + (pm + pf));
            let qc = types::text_field(q.name) + (seq![q.decimals] + (qm + qf));
            lemma_cut_text(
                p.token,
                types::text_field(p.symbol) + pc,
                q.token,
                types::text_field(q.symbol) + qc,
            );
            lemma_cut_text(p.symbol, pc, q.symbol, qc);
            lemma_cut_text(
                p.name,
                seq![p.decimals] + (pm + pf),
                q.name,
                seq![q.decimals] + (qm + qf),
            );
            lemma_cut(seq![p.decimals], pm + pf, seq![q.decimals], qm + qf);
            assert(seq![p.decimals][0] == seq![q.decimals][0]);
            lemma_cut(pm, pf, qm, qf);
            assert(pm[0] == qm[0]);
            lemma_cut_text(p.code, pg, q.code, qg);
            lemma_cut_text(p.args, x, q.args, y);
            assert(p =~= q);
        },
        (None, Some(q)) => {
            lemma_payload_tail(q, y);
            assert((seq![0u8] + x)[0] == 0u8);
            assert((seq![1u8] + payload_tail(q, y))[0] == 1u8);
        },
        (Some(p), None) => {
            lemma_payload_tail(p, x);
            assert((seq![0u8] + y)[0] == 0u8);
            assert((seq![1u8] + payload_tail(p, x))[0] == 1u8);
        },
    }
}

spec fn shielded_tail(p: ShieldedV, x: Seq<u8>) -> Seq<u8> {
    types::text_field(p.anchor) + (types::list_field(p.nullifiers) + (types::list_field(
        p.commitments,
    ) + (types::text_field(p.proof) + (types::text_field(p.public_unshield) + x))))
}

proof fn lemma_shielded_tail(p: ShieldedV, x: Seq<u8>)
    ensures
        types::shielded_bytes(Some(p)) + x == seq![1u8] + shielded_tail(p, x),
{
    let one = seq![1u8];
    let a = types::text_field(p.anchor);
    let b = types::list_field(p.nullifiers);
    let c = types::list_field(p.commitments);
    let d = types::text_field(p.proof);
    let e = types::text_field(p.public_unshield);
    lemma_assoc(one + a + b + c + d, e, x);
    lemma_assoc(one + a + b + c, d, e + x);
    lemma_assoc(one + a + b, c, d + (e + x));
    lemma_assoc(one + a, b, c + (d + (e + x)));
    lemma_assoc(one, a, b + (c + (d + (e + x))));
}

proof fn lemma_cut_shielded(a: Option<ShieldedV>, b: Option<ShieldedV>)
    requires
        types::shielded_bytes(a) == types::shielded_bytes(b),
        short_shielded(a),
        short_shielded(b),
    ensures
        a == b,
{
    let x = Seq::<u8>::empty();
    match (a, b) {
        (None, None) => {},
        (Some(p), Some(q)) => {
            assert(types::shielded_bytes(a) + x =~= types::shielded_bytes(a));
            assert(types::shielded_bytes(b) + x =~= types::shielded_bytes(b));
            lemma_shielded_tail(p, x);
            lemma_shielded_tail(q, x);
            lemma_cut(seq![1u8], shielded_tail(p, x), seq![1u8], shielded_tail(q, x));
            let pe = types::text_field(p.public_unshield) + x;
            let qe = types::text_field(q.public_unshield) + x;
            let pd = types::text_field(p.proof) + pe;
            let qd = types::text_field(q.proof) + qe;
            let pc = types::list_field(p.commitments) + pd;
            let qc = types::list_field(q.commitments) + qd;
            lemma_cut_text(
                p.anchor,
                types::list_field(p.nullifiers) + pc,
                q.anchor,
                types::list_field(q.nullifiers) + qc,
            );
            lemma_cut_list(p.nullifiers, pc, q.nullifiers, qc);
            lemma_cut_list(p.commitments, pd, q.commitments, qd);
            lemma_cut_text(p.proof, pe, q.proof, qe);
            lemma_cut_text(p.public_unshield, x, q.public_unshield, x);
            assert(p =~= q);
        },
        (None, Some(q)) => {
            assert(types::shielded_bytes(b) + x =~= types::shielded_bytes(b));
            lemma_shielded_tail(q, x);
            assert((seq![1u8] + shielded_tail(q, x))[0] == 1u8);
            assert(seq![0u8][0] == 0u8);
        },
        (Some(p), None) => {
            assert(types::shielded_bytes(a) + x =~= types::shielded_bytes(a));
            lemma_shielded_tail(p, x);
            assert((seq![1u8] + shielded_tail(p, x))[0] == 1u8);
            assert(seq![0u8][0] == 0u8);
        },
    }
}

/// Different kinds have different tags, and no tag holds a `|`.
pub proof fn lemma_kind_tags(a: TxKind, b: TxKind)
    ensures
        types::kind_tag(a) == types::kind_tag(b) ==> a == b,
        types::bar_free(types::kind_tag(a)),
        short_text(types::kind_tag(a)),
{
    reveal_strlit("transfer");
    reveal_strlit("stake");
    reveal_strlit("unstake");
    reveal_strlit("reportequivocation");
    reveal_strlit("unjail");
    reveal_strlit("createtoken");
    reveal_strlit("minttoken");
    reveal_strlit("tokentransfer");
    reveal_strlit("burntoken");
    reveal_strlit("deploycontract");
    reveal_strlit("callcontract");
    reveal_strlit("shield");
    reveal_strlit("privatetransfer");
    reveal_strlit("unshield");
    let t = types::kind_tag(a);
    let u = types::kind_tag(b);
    if t == u {
        assert(t.len() == u.len());
        assert(t[0] == u[0]);
    }
    text::lemma_ascii_utf8_len(t);
}

spec fn tx_tail(t: TxV) -> Seq<u8> {
    text::be(t.chain_id as nat, 8) + (types::text_field(types::kind_tag(t.kind)) + (
    types::text_field(t.from_pubkey) + (types::text_field(t.to) + (text::be(t.amount as nat, 16) + (
    text::be(t.fee as nat, 16) + (text::be(t.nonce as nat, 8) + (types::payload_bytes(t.payload)
        + types::shielded_bytes(t.shielded))))))))
}

proof fn lemma_tx_tail(t: TxV)
    ensures
        t.canonical() == types::text_field(types::TX_DOMAIN_V2@) + tx_tail(t),
{
    let z = types::text_field(types::TX_DOMAIN_V2@);
    let a = text::be(t.chain_id as nat, 8);
    let b = types::text_field(types::kind_tag(t.kind));
    let c = types::text_field(t.from_pubkey);
    let d = types::text_field(t.to);
    let e = text::be(t.amount as nat, 16);
    let f = text::be(t.fee as nat, 16);
    let g = text::be(t.nonce as nat, 8);
    let h = types::payload_bytes(t.payload);
    let i = types::shielded_bytes(t.shielded);
    lemma_assoc(z + a + b + c + d + e + f + g, h, i);
    lemma_assoc(z + a + b + c + d + e + f, g, h + i);
    lemma_assoc(z + a + b + c + d + e, f, g + (h + i));
    lemma_assoc(z + a + b + c + d, e, f + (g + (h + i)));
    lemma_assoc(z + a + b + c, d, e + (f + (g + (h + i))));
    lemma_assoc(z + a + b, c, d + (e + (f + (g + (h + i)))));
    lemma_assoc(z + a, b, c + (d + (e + (f + (g + (h + i))))));
    lemma_assoc(z, a, b + (c + (d + (e + (f + (g + (h + i)))))));
}

/// Two transactions with the same canonical preimage are the same transaction, up
/// to the signature itself: no field content can shift another field's boundary,
/// whatever characters it holds.
pub proof fn law_canonical_injective(s: TxV, t: TxV)
    requires
        short_tx(s),
        short_tx(t),
        s.canonical() == t.canonical(),
    ensures
        s == (TxV { signature: s.signature, ..t }),
{
    text::lemma_pow256_values();
    lemma_tx_tail(s);
    lemma_tx_tail(t);
    let z = types::text_field(types::TX_DOMAIN_V2@);
    lemma_cut(z, tx_tail(s), z, tx_tail(t));
    let s8 = types::payload_bytes(s.payload) + types::shielded_bytes(s.shielded);
    let t8 = types::payload_bytes(t.payload) + types::shielded_bytes(t.shielded);
    let s7 = text::be(s.nonce as nat, 8) + s8;
    let t7 = text::be(t.nonce as nat, 8) + t8;
    let s6 = text::be(s.fee as nat, 16) + s7;
    let t6 = text::be(t.fee as nat, 16) + t7;
    let s5 = text::be(s.amount as nat, 16) + s6;
    let t5 = text::be(t.amount as nat, 16) + t6;
    let s4 = types::text_field(s.to) + s5;
    let t4 = types::text_field(t.to) + t5;
    let s3 = types::text_field(s.from_pubkey) + s4;
    let t3 = types::text_field(t.from_pubkey) + t4;
    let s2 = types::text_field(types::kind_tag(s.kind)) + s3;
    let t2 = types::text_field(types::kind_tag(t.kind)) + t3;
    lemma_cut_be(s.chain_id as nat, s2, t.chain_id as nat, t2, 8);
    lemma_kind_tags(s.kind, t.kind);
    lemma_kind_tags(t.kind, s.kind);
    lemma_cut_text(types::kind_tag(s.kind), s3, types::kind_tag(t.kind), t3);
    lemma_cut_text(s.from_pubkey, s4, t.from_pubkey, t4);
    lemma_cut_text(s.to, s5, t.to, t5);
    lemma_cut_be(s.amount as nat, s6, t.amount as nat, t6, 16);
    lemma_cut_be(s.fee as nat, s7, t.fee as nat, t7, 16);
    lemma_cut_be(s.nonce as nat, s8, t.nonce as nat, t8, 8);
    lemma_cut_payload(
        s.payload,
        types::shielded_bytes(s.shielded),
        t.payload,
        types::shielded_bytes(t.shielded),
    );
    lemma_cut_shielded(s.shielded, t.shielded);
}

// ---------------------------------------------------------------- legacy preimage

/// Texts free of `|` can be read off the front up to the first `|`.
proof fn lemma_cut_bar(a: Seq<char>, x: Seq<char>, b: Seq<char>, y: Seq<char>)
    requires
        a + ("|"@ + x) == b + ("|"@ + y),
        types::bar_free(a),
        types::bar_free(b),
    ensures
        a == b,
        x == y,
{
    reveal_strlit("|");
    let s = a + ("|"@ + x);
    let r = b + ("|"@ + y);
    if a.len() < b.len() {
        assert(s[a.len() as int] == '|');
        assert(r[a.len() as int] == b[a.len() as int]);
        assert(b.contains('|'));
    }
    if b.len() < a.len() {
        assert(r[b.len() as int] == '|');
        assert(s[b.len() as int] == a[b.len() as int]);
        assert(a.contains('|'));
    }
    lemma_cut(a, "|"@ + x, b, "|"@ + y);
    lemma_cut("|"@, x, "|"@, y);
}

/// A text free of `|` is not one that continues after a `|`.
proof fn lemma_no_bar(a: Seq<char>, b: Seq<char>, y: Seq<char>)
    requires
        types::bar_free(a),
    ensures
        a != b + ("|"@ + y),
{
    reveal_strlit("|");
    let r = b + ("|"@ + y);
    assert(r[b.len() as int] == '|');
}

/// Decimal text holds no `|`.
pub proof fn lemma_dec_bar_free(n: nat)
    ensures
        types::bar_free(text::dec(n)),
{
    text::lemma_dec_digits(n);
    if text::dec(n).contains('|') {
        let i = choose|i: int| 0 <= i < text::dec(n).len() && text::dec(n)[i] == '|';
        assert(text::is_digit(text::dec(n)[i]));
    }
}

proof fn lemma_bools(a: bool, b: bool)
    ensures
        types::bar_free(types::bool_text(a)),
        types::bool_text(a) == types::bool_text(b) ==> a == b,
{
    reveal_strlit("true");
    reveal_strlit("false");
    assert("true"@.len() == 4);
    assert("false"@.len() == 5);
}

spec fn payload_plain(p: PayloadV) -> bool {
    p.code.len() == 0 && p.args.len() == 0
}

spec fn payload_end(p: PayloadV) -> Seq<char> {
    if payload_plain(p) {
        types::bool_text(p.mintable)
    } else {
        types::bool_text(p.mintable) + ("|"@ + (p.code + ("|"@ + p.args)))
    }
}

spec fn payload_text(p: PayloadV) -> Seq<char> {
    p.token + ("|"@ + (p.symbol + ("|"@ + (p.name + ("|"@ + (text::dec(p.decimals as nat) + ("|"@
        + payload_end(p))))))))
}

proof fn lemma_payload_text(p: PayloadV)
    ensures
        p.signing_text() == payload_text(p),
{
    let r = "|"@;
    let a = p.token;
    let b = p.symbol;
    let c = p.name;
    let d = text::dec(p.decimals as nat);
    let e = types::bool_text(p.mintable);
    let h = a + r + b + r + c + r + d;
    if !payload_plain(p) {
        lemma_assoc(h + r + e + r + p.code, r, p.args);
        lemma_assoc(h + r + e + r, p.code, r + p.args);
        lemma_assoc(h + r + e, r, p.code + (r + p.args));
        lemma_assoc(h + r, e, r + (p.code + (r + p.args)));
    }
    let z = payload_end(p);
    lemma_assoc(h, r, z);
    lemma_assoc(a + r + b + r + c + r, d, r + z);
    lemma_assoc(a + r + b + r + c, r, d + (r + z));
    lemma_assoc(a + r + b + r, c, r + (d + (r + z)));
    lemma_assoc(a + r + b, r, c + (r + (d + (r + z))));
    lemma_assoc(a + r, b, r + (c + (r + (d + (r + z)))));
    lemma_assoc(a, r, b + (r + (c + (r + (d + (r + z))))));
}

spec fn bar_free_payload(p: PayloadV) -> bool {
    types::bar_free(p.token) && types::bar_free(p.symbol) && types::bar_free(p.name)
        && types::bar_free(p.code) && types::bar_free(p.args)
}

proof fn lemma_payload_text_injective(p: PayloadV, q: PayloadV)
    requires
        p.signing_text() == q.signing_text(),
        bar_free_payload(p),
        bar_free_payload(q),
    ensures
        p == q,
{
    lemma_payload_text(p);
    lemma_payload_text(q);
    let dp = text::dec(p.decimals as nat);
    let dq = text::dec(q.decimals as nat);
    lemma_dec_bar_free(p.decimals as nat);
    lemma_dec_bar_free(q.decimals as nat);
    lemma_bools(p.mintable, q.mintable);
    lemma_bools(q.mintable, p.mintable);
    let p3 = dp + ("|"@ + payload_end(p));
    let q3 = dq + ("|"@ + payload_end(q));
    let p2 = p.name + ("|"@ + p3);
    let q2 = q.name + ("|"@ + q3);
    lemma_cut_bar(p.token, p.symbol + ("|"@ + p2), q.token, q.symbol + ("|"@ + q2));
    lemma_cut_bar(p.symbol, p2, q.symbol, q2);
    lemma_cut_bar(p.name, p3, q.name, q3);
    lemma_cut_bar(dp, payload_end(p), dq, payload_end(q));
    text::lemma_dec_injective(p.decimals as nat, q.decimals as nat);
    let bp = types::bool_text(p.mintable);
    let bq = types::bool_text(q.mintable);
    if payload_plain(p) && payload_plain(q) {
        assert(p.code =~= q.code);
        assert(p.args =~= q.args);
    } else if payload_plain(p) {
        lemma_no_bar(bp, bq, q.code + ("|"@ + q.args));
    } else if payload_plain(q) {
        lemma_no_bar(bq, bp, p.code + ("|"@ + p.args));
    } else {
        lemma_cut_bar(bp, p.code + ("|"@ + p.args), bq, q.code + ("|"@ + q.args));
        lemma_cut_bar(p.code, p.args, q.code, q.args);
    }
    assert(p =~= q);
}

spec fn tx_end(t: TxV) -> Seq<char> {
    match t.payload {
        None => text::dec(t.nonce as nat),
        Some(p) => text::dec(t.nonce as nat) + ("|"@ + p.signing_text()),
    }
}

spec fn tx_text(t: TxV) -> Seq<char> {
    text::dec(t.chain_id as nat) + ("|"@ + (types::kind_tag(t.kind) + ("|"@ + (t.from_pubkey + (
    "|"@ + (t.to + ("|"@ + (text::dec(t.amount as nat) + ("|"@ + (text::dec(t.fee as nat) + ("|"@
        + tx_end(t))))))))))))
}

proof fn lemma_tx_text(t: TxV)
    ensures
        t.signing_text() == "inazuma-tx|"@ + tx_text(t),
{
    let r = "|"@;
    let z = "inazuma-tx|"@;
    let a = text::dec(t.chain_id as nat);
    let b = types::kind_tag(t.kind);
    let c = t.from_pubkey;
    let d = t.to;
    let e = text::dec(t.amount as nat);
    let f = text::dec(t.fee as nat);
    let g = text::dec(t.nonce as nat);
    let hf = z + a + r + b + r + c + r + d + r + e + r + f;
    if t.payload is Some {
        let p = t.payload->0.signing_text();
        lemma_assoc(hf + r + g, r, p);
        lemma_assoc(hf + r, g, r + p);
    }
    let x = tx_end(t);
    lemma_assoc(hf, r, x);
    let he = z + a + r + b + r + c + r + d + r + e;
    lemma_assoc(he + r, f, r + x);
    lemma_assoc(he, r, f + (r + x));
    let x1 = f + (r + x);
    let hd = z + a + r + b + r + c + r + d;
    lemma_assoc(hd + r, e, r + x1);
    lemma_assoc(hd, r, e + (r + x1));
    let x2 = e + (r + x1);
    let hc = z + a + r + b + r + c;
    lemma_assoc(hc + r, d, r + x2);
    lemma_assoc(hc, r, d + (r + x2));
    let x3 = d + (r + x2);
    let hb = z + a + r + b;
    lemma_assoc(hb + r, c, r + x3);
    lemma_assoc(hb, r, c + (r + x3));
    let x4 = c + (r + x3);
    lemma_assoc(z + a + r, b, r + x4);
    lemma_assoc(z + a, r, b + (r + x4));
    lemma_assoc(z, a, r + (b + (r + x4)));
}

/// Two transactions whose fields are free of `|` and that share a legacy preimage
/// agree in every field the preimage covers: all but the shielded part, which the
/// legacy preimage does not sign, and the signature.
pub proof fn law_legacy_injective(s: TxV, t: TxV)
    requires
        s.unambiguous(),
        t.unambiguous(),
        s.signing_text() == t.signing_text(),
    ensures
        s == (TxV { signature: s.signature, shielded: s.shielded, ..t }),
{
    lemma_tx_text(s);
    lemma_tx_text(t);
    lemma_cut("inazuma-tx|"@, tx_text(s), "inazuma-tx|"@, tx_text(t));
    lemma_dec_bar_free(s.chain_id as nat);
    lemma_dec_bar_free(t.chain_id as nat);
    lemma_dec_bar_free(s.amount as nat);
    lemma_dec_bar_free(t.amount as nat);
    lemma_dec_bar_free(s.fee as nat);
    lemma_dec_bar_free(t.fee as nat);
    lemma_dec_bar_free(s.nonce as nat);
    lemma_dec_bar_free(t.nonce as nat);
    lemma_kind_tags(s.kind, t.kind);
    lemma_kind_tags(t.kind, s.kind);
    let s6 = text::dec(s.fee as nat) + ("|"@ + tx_end(s));
    let t6 = text::dec(t.fee as nat) + ("|"@ + tx_end(t));
    let s5 = text::dec(s.amount as nat) + ("|"@ + s6);
    let t5 = text::dec(t.amount as nat) + ("|"@ + t6);
    let s4 = s.to + ("|"@ + s5);
    let t4 = t.to + ("|"@ + t5);
    let s3 = s.from_pubkey + ("|"@ + s4);
    let t3 = t.from_pubkey + ("|"@ + t4);
    let s2 = types::kind_tag(s.kind) + ("|"@ + s3);
    let t2 = types::kind_tag(t.kind) + ("|"@ + t3);
    lemma_cut_bar(text::dec(s.chain_id as nat), s2, text::dec(t.chain_id as nat), t2);
    text::lemma_dec_injective(s.chain_id as nat, t.chain_id as nat);
    lemma_cut_bar(types::kind_tag(s.kind), s3, types::kind_tag(t.kind), t3);
    lemma_cut_bar(s.from_pubkey, s4, t.from_pubkey, t4);
    lemma_cut_bar(s.to, s5, t.to, t5);
    lemma_cut_bar(text::dec(s.amount as nat), s6, text::dec(t.amount as nat), t6);
    text::lemma_dec_injective(s.amount as nat, t.amount as nat);
    lemma_cut_bar(text::dec(s.fee as nat), tx_end(s), text::dec(t.fee as nat), tx_end(t));
    text::lemma_dec_injective(s.fee as nat, t.fee as nat);
    let ns = text::dec(s.nonce as nat);
    let nt = text::dec(t.nonce as nat);
    match (s.payload, t.payload) {
        (None, None) => {},
        (Some(p), Some(q)) => {
            lemma_cut_bar(ns, p.signing_text(), nt, q.signing_text());
            lemma_payload_text_injective(p, q);
        },
        (None, Some(q)) => {
            lemma_no_bar(ns, nt, q.signing_text());
        },
        (Some(p), None) => {
            lemma_no_bar(nt, ns, p.signing_text());
        },
    }
    text::lemma_dec_injective(s.nonce as nat, t.nonce as nat);
}

} // verus!
