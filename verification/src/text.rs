//! Text and byte helpers: decimal numbers, trimming, splitting and ordering.
//!
//! Text is modelled as a sequence of characters; its bytes are the UTF-8 encoding
//! of that sequence.

use vstd::prelude::*;
use vstd::string::*;
use vstd::utf8::*;

verus! {

/// `String::push` of std: appends one character.
pub assume_specification[ String::push ](s: &mut String, c: char)
    ensures
        final(s)@ == old(s)@.push(c),
;

/// `String::from_utf8` of std: succeeds exactly on valid UTF-8 and then holds the
/// decoded characters.
#[verifier::external_body]
fn std_from_utf8(v: Vec<u8>) -> (r: Option<String>)
    ensures
        match r {
            Some(s) => valid_utf8(v@) && s@ == decode_utf8(v@),
            None => !valid_utf8(v@),
        },
{
    String::from_utf8(v).ok()
}

/// What `String::from_utf8_lossy` of std makes of bytes that are not valid UTF-8.
pub uninterp spec fn replaced_text(v: Seq<u8>) -> Seq<char>;

/// The text `String::from_utf8_lossy` of std gives: the decoded text of valid UTF-8,
/// and otherwise a text with replacement characters.
pub open spec fn lossy(v: Seq<u8>) -> Seq<char> {
    if valid_utf8(v) {
        decode_utf8(v)
    } else {
        replaced_text(v)
    }
}

/// `String::from_utf8_lossy` of std: valid UTF-8 decodes unchanged; of other bytes
/// only that the result depends on them alone is claimed.
#[verifier::external_body]
pub(crate) fn std_from_utf8_lossy(v: &[u8]) -> (r: String)
    ensures
        r@ == lossy(v@),
        !valid_utf8(v@) ==> r@ == replaced_text(v@),
{
    String::from_utf8_lossy(v).into_owned()
}

// ---------------------------------------------------------------- characters

/// The UTF-8 bytes of a text.
pub open spec fn utf8(s: Seq<char>) -> Seq<u8> {
    encode_utf8(s)
}

/// Two texts with the same bytes are the same text.
pub proof fn lemma_utf8_injective(a: Seq<char>, b: Seq<char>)
    requires
        utf8(a) == utf8(b),
    ensures
        a == b,
{
    encode_utf8_decode_utf8(a);
    encode_utf8_decode_utf8(b);
}

/// The bytes of a text decode back to it.
pub proof fn lemma_utf8_round_trip(a: Seq<char>)
    ensures
        valid_utf8(utf8(a)),
        decode_utf8(utf8(a)) == a,
{
    encode_utf8_valid_utf8(a);
    encode_utf8_decode_utf8(a);
}

/// The bytes of a text read back leniently are the text.
pub proof fn lemma_lossy_round_trip(a: Seq<char>)
    ensures
        lossy(utf8(a)) == a,
{
    lemma_utf8_round_trip(a);
}

/// The characters of a text, one element each.
pub fn chars_of(s: &str) -> (r: Vec<char>)
    ensures
        r@ == s@,
{
    let mut out: Vec<char> = Vec::new();
    for c in it: s.chars()
        invariant
            it.seq() == s@,
            out@ == s@.take(it.index() as int),
    {
        out.push(c);
        assert(out@ =~= s@.take(it.index() + 1));
    }
    assert(s@.take(s@.len() as int) =~= s@);
    out
}

/// The text made of `v[from..to]`.
pub fn text_range(v: &Vec<char>, from: usize, to: usize) -> (r: String)
    requires
        from <= to <= v@.len(),
    ensures
        r@ == v@.subrange(from as int, to as int),
{
    let mut s = String::new();
    let mut i: usize = from;
    while i < to
        invariant
            from <= i <= to <= v@.len(),
            s@ == v@.subrange(from as int, i as int),
        decreases to - i,
    {
        s.push(v[i]);
        i = i + 1;
        assert(s@ =~= v@.subrange(from as int, i as int));
    }
    s
}

/// A copy of a text.
pub fn copy(s: &str) -> (r: String)
    ensures
        r@ == s@,
{
    String::from_str(s)
}

/// Equality of two texts.
pub fn same(a: &str, b: &str) -> (r: bool)
    ensures
        r == (a@ == b@),
{
    let x: String = String::from_str(a);
    let y: String = String::from_str(b);
    x == y
}

/// The UTF-8 bytes of a text, owned.
pub fn bytes_of(s: &str) -> (r: Vec<u8>)
    ensures
        r@ == utf8(s@),
{
    s.as_bytes_vec()
}

/// The text whose UTF-8 encoding is `v`, when there is one.
pub fn from_utf8(v: &Vec<u8>) -> (r: Option<String>)
    ensures
        match r {
            Some(s) => valid_utf8(v@) && s@ == decode_utf8(v@),
            None => !valid_utf8(v@),
        },
{
    let c = copy_bytes(v.as_slice());
    std_from_utf8(c)
}

/// A character with ASCII capitals made small.
pub open spec fn lower_char(c: char) -> char {
    if 'A' <= c <= 'Z' {
        (c as u32 + 32) as char
    } else {
        c
    }
}

/// A text with ASCII capitals made small.
pub open spec fn ascii_lower_spec(s: Seq<char>) -> Seq<char> {
    s.map_values(|c: char| lower_char(c))
}

/// Makes ASCII capitals small.
pub fn ascii_lower(s: &str) -> (r: String)
    ensures
        r@ == ascii_lower_spec(s@),
{
    let v = chars_of(s);
    let mut out = String::new();
    let mut i: usize = 0;
    while i < v.len()
        invariant
            i <= v@.len(),
            v@ == s@,
            out@ == ascii_lower_spec(s@).take(i as int),
        decreases v@.len() - i,
    {
        let c = v[i];
        if 'A' <= c && c <= 'Z' {
            let b: u8 = c as u8;
            out.push((b + 32) as char);
        } else {
            out.push(c);
        }
        i = i + 1;
        assert(out@ =~= ascii_lower_spec(s@).take(i as int));
    }
    assert(ascii_lower_spec(s@).take(s@.len() as int) =~= ascii_lower_spec(s@));
    out
}

/// A character with small ASCII letters made capital.
pub open spec fn upper_char(c: char) -> char {
    if 'a' <= c <= 'z' {
        (c as u32 - 32) as char
    } else {
        c
    }
}

/// A text with small ASCII letters made capital.
pub open spec fn ascii_upper_spec(s: Seq<char>) -> Seq<char> {
    s.map_values(|c: char| upper_char(c))
}

/// Makes small ASCII letters capital.
pub fn ascii_upper(s: &str) -> (r: String)
    ensures
        r@ == ascii_upper_spec(s@),
{
    let v = chars_of(s);
    let mut out = String::new();
    let mut i: usize = 0;
    while i < v.len()
        invariant
            i <= v@.len(),
            v@ == s@,
            out@ == ascii_upper_spec(s@).take(i as int),
        decreases v@.len() - i,
    {
        let c = v[i];
        if 'a' <= c && c <= 'z' {
            let b: u8 = c as u8;
            out.push((b - 32) as char);
        } else {
            out.push(c);
        }
        i = i + 1;
        assert(out@ =~= ascii_upper_spec(s@).take(i as int));
    }
    assert(ascii_upper_spec(s@).take(s@.len() as int) =~= ascii_upper_spec(s@));
    out
}

/// An ASCII letter or digit.
pub open spec fn is_alnum(c: char) -> bool {
    'a' <= c <= 'z' || 'A' <= c <= 'Z' || '0' <= c <= '9'
}

/// Only ASCII letters and digits.
pub open spec fn all_alnum(s: Seq<char>) -> bool {
    forall|i: int| 0 <= i < s.len() ==> is_alnum(#[trigger] s[i])
}

/// Whether a text holds only ASCII letters and digits.
pub fn only_alnum(s: &str) -> (r: bool)
    ensures
        r == all_alnum(s@),
{
    let v = chars_of(s);
    let mut i: usize = 0;
    while i < v.len()
        invariant
            i <= v@.len(),
            v@ == s@,
            forall|j: int| 0 <= j < i ==> is_alnum(#[trigger] s@[j]),
        decreases v@.len() - i,
    {
        let c = v[i];
        if !(('a' <= c && c <= 'z') || ('A' <= c && c <= 'Z') || ('0' <= c && c <= '9')) {
            assert(!is_alnum(s@[i as int]));
            return false;
        }
        i = i + 1;
    }
    true
}

/// A copy of a byte string.
pub fn copy_bytes(s: &[u8]) -> (r: Vec<u8>)
    ensures
        r@ == s@,
{
    let mut out: Vec<u8> = Vec::new();
    push_bytes(&mut out, s);
    out
}

/// Appends bytes to a buffer.
pub fn push_bytes(buf: &mut Vec<u8>, s: &[u8])
    ensures
        final(buf)@ == old(buf)@ + s@,
{
    let mut i: usize = 0;
    while i < s.len()
        invariant
            i <= s@.len(),
            buf@ == old(buf)@ + s@.take(i as int),
        decreases s@.len() - i,
    {
        buf.push(s[i]);
        i = i + 1;
        assert(buf@ =~= old(buf)@ + s@.take(i as int));
    }
    assert(s@.take(s@.len() as int) =~= s@);
}

/// Appends the bytes of a text to a buffer.
pub fn push_text(buf: &mut Vec<u8>, s: &str)
    ensures
        final(buf)@ == old(buf)@ + utf8(s@),
{
    push_bytes(buf, s.as_bytes());
}

/// Equality of two byte strings.
pub fn same_bytes(a: &[u8], b: &[u8]) -> (r: bool)
    ensures
        r == (a@ == b@),
{
    if a.len() != b.len() {
        return false;
    }
    let mut i: usize = 0;
    while i < a.len()
        invariant
            i <= a@.len(),
            a@.len() == b@.len(),
            forall|j: int| 0 <= j < i ==> a@[j] == b@[j],
        decreases a@.len() - i,
    {
        if a[i] != b[i] {
            return false;
        }
        i = i + 1;
    }
    assert(a@ =~= b@);
    true
}

// ---------------------------------------------------------------- decimals

/// The character of one decimal digit.
pub open spec fn digit(d: int) -> char {
    (48 + d) as char
}

/// Decimal text of a natural number: no sign, no leading zero.
pub open spec fn dec(n: nat) -> Seq<char>
    decreases n,
{
    if n < 10 {
        seq![digit(n as int)]
    } else {
        dec(n / 10).push(digit((n % 10) as int))
    }
}

/// Whether a character is an ASCII decimal digit.
pub open spec fn is_digit(c: char) -> bool {
    '0' <= c <= '9'
}

/// Number denoted by a run of decimal digits.
pub open spec fn digits_value(s: Seq<char>) -> nat
    decreases s.len(),
{
    if s.len() == 0 {
        0
    } else {
        digits_value(s.drop_last()) * 10 + (s.last() as nat - 48) as nat
    }
}

/// Every character is a decimal digit.
pub open spec fn all_digits(s: Seq<char>) -> bool {
    forall|i: int| 0 <= i < s.len() ==> is_digit(#[trigger] s[i])
}

/// The digits of a written number: a single leading `+` is allowed.
pub open spec fn number_body(s: Seq<char>) -> Seq<char> {
    if s.len() > 0 && s[0] == '+' {
        s.skip(1)
    } else {
        s
    }
}

/// The number a text denotes: an optional `+` and at least one decimal digit.
pub open spec fn parsed(s: Seq<char>) -> Option<nat> {
    let body = number_body(s);
    if body.len() > 0 && all_digits(body) {
        Some(digits_value(body))
    } else {
        None
    }
}

/// The number a text denotes, when it does not exceed `max`.
pub open spec fn parsed_upto(s: Seq<char>, max: nat) -> Option<nat> {
    match parsed(s) {
        Some(n) => if n <= max {
            Some(n)
        } else {
            None
        },
        None => None,
    }
}

/// Decimal text is made of digits only, and its first digit is zero only for zero.
pub proof fn lemma_dec_digits(n: nat)
    ensures
        dec(n).len() > 0,
        all_digits(dec(n)),
        n >= 10 ==> dec(n).len() > 1,
        n > 0 ==> dec(n)[0] != '0',
        digits_value(dec(n)) == n,
    decreases n,
{
    if n < 10 {
        assert(dec(n) =~= seq![digit(n as int)]);
        assert(seq![digit(n as int)].drop_last() =~= Seq::<char>::empty());
        assert(digits_value(Seq::<char>::empty()) == 0);
    } else {
        lemma_dec_digits(n / 10);
        let p = dec(n / 10);
        assert(dec(n).drop_last() =~= p);
        assert(dec(n).last() == digit((n % 10) as int));
        assert forall|i: int| 0 <= i < dec(n).len() implies is_digit(#[trigger] dec(n)[i]) by {
            if i < p.len() {
                assert(dec(n)[i] == p[i]);
            }
        }
        assert(dec(n)[0] == p[0]);
    }
}

/// Reading back the decimal text of a number gives the number.
pub proof fn lemma_parsed_dec(n: nat)
    ensures
        parsed(dec(n)) == Some(n),
{
    lemma_dec_digits(n);
    assert(is_digit(dec(n)[0]));
    assert(number_body(dec(n)) == dec(n));
}

/// Different numbers have different decimal texts.
pub proof fn lemma_dec_injective(a: nat, b: nat)
    requires
        dec(a) == dec(b),
    ensures
        a == b,
{
    lemma_parsed_dec(a);
    lemma_parsed_dec(b);
}

/// The value of a run of digits grows with every digit appended.
pub proof fn lemma_digits_value_prefix(s: Seq<char>, k: int)
    requires
        all_digits(s),
        0 <= k <= s.len(),
    ensures
        digits_value(s.take(k)) <= digits_value(s),
    decreases s.len(),
{
    if k == s.len() {
        assert(s.take(k) =~= s);
    } else {
        let t = s.drop_last();
        assert(t.take(k) =~= s.take(k));
        assert(is_digit(s[s.len() - 1]));
        assert forall|i: int| 0 <= i < t.len() implies is_digit(#[trigger] t[i]) by {
            assert(t[i] == s[i]);
        }
        lemma_digits_value_prefix(t, k);
    }
}

/// Appends the decimal text of `n`.
pub fn push_dec(s: &mut String, n: u128)
    ensures
        final(s)@ == old(s)@ + dec(n as nat),
    decreases n,
{
    if n < 10 {
        let c: char = ((n as u8) + 48u8) as char;
        s.push(c);
        assert(s@ =~= old(s)@ + dec(n as nat));
    } else {
        push_dec(s, n / 10);
        let c: char = (((n % 10) as u8) + 48u8) as char;
        s.push(c);
        assert(s@ =~= old(s)@ + dec(n as nat));
    }
}

/// Decimal text of `n`.
pub fn decimal(n: u128) -> (r: String)
    ensures
        r@ == dec(n as nat),
{
    let mut s = String::new();
    push_dec(&mut s, n);
    assert(s@ =~= dec(n as nat));
    s
}

/// Value of the digits `v[from..]`, when it fits in 128 bits.
fn parse_digits(v: &Vec<char>, from: usize) -> (r: Option<u128>)
    requires
        from <= v@.len(),
    ensures
        match r {
            Some(n) => v@.len() > from && all_digits(v@.skip(from as int)) && n == digits_value(
                v@.skip(from as int),
            ),
            None => !(v@.len() > from && all_digits(v@.skip(from as int)) && digits_value(
                v@.skip(from as int),
            ) <= u128::MAX),
        },
{
    let ghost body = v@.skip(from as int);
    if from == v.len() {
        return None;
    }
    let mut acc: u128 = 0;
    let mut i: usize = from;
    while i < v.len()
        invariant
            from <= i <= v@.len(),
            body == v@.skip(from as int),
            all_digits(body.take(i - from)),
            acc == digits_value(body.take(i - from)),
        decreases v@.len() - i,
    {
        let c = v[i];
        assert(c == body[i - from]);
        if !('0' <= c && c <= '9') {
            return None;
        }
        let d: u128 = (c as u32 - 48) as u128;
        proof {
            let next = body.take(i - from + 1);
            assert(next.drop_last() =~= body.take(i - from));
            assert(next.last() == c);
            assert(digits_value(next) == digits_value(body.take(i - from)) * 10 + d);
            assert forall|j: int| 0 <= j < next.len() implies is_digit(#[trigger] next[j]) by {
                if j < i - from {
                    assert(next[j] == body.take(i - from)[j]);
                }
            }
            if all_digits(body) {
                lemma_digits_value_prefix(body, i - from + 1);
            }
        }
        match acc.checked_mul(10) {
            None => {
                return None;
            },
            Some(m) => match m.checked_add(d) {
                None => {
                    return None;
                },
                Some(t) => {
                    acc = t;
                },
            },
        }
        i = i + 1;
    }
    assert(body.take(body.len() as int) =~= body);
    Some(acc)
}

/// Reads an unsigned decimal number: an optional `+`, then digits.
pub fn parse_u128(s: &str) -> (r: Option<u128>)
    ensures
        match r {
            Some(n) => parsed_upto(s@, u128::MAX as nat) == Some(n as nat),
            None => parsed_upto(s@, u128::MAX as nat) is None,
        },
{
    let v = chars_of(s);
    if v.len() > 0 && v[0] == '+' {
        parse_digits(&v, 1)
    } else {
        assert(v@.skip(0) =~= v@);
        parse_digits(&v, 0)
    }
}

/// Reads an unsigned decimal number that fits in 64 bits.
pub fn parse_u64(s: &str) -> (r: Option<u64>)
    ensures
        match r {
            Some(n) => parsed_upto(s@, u64::MAX as nat) == Some(n as nat),
            None => parsed_upto(s@, u64::MAX as nat) is None,
        },
{
    match parse_u128(s) {
        Some(n) => if n <= u64::MAX as u128 {
            Some(n as u64)
        } else {
            None
        },
        None => None,
    }
}

// ---------------------------------------------------------------- trimming, splitting

/// Characters with the Unicode `White_Space` property.
pub open spec fn is_space(c: char) -> bool {
    let u = c as u32;
    9 <= u <= 13 || u == 32 || u == 0x85 || u == 0xA0 || u == 0x1680 || 0x2000 <= u <= 0x200A || u
        == 0x2028 || u == 0x2029 || u == 0x202F || u == 0x205F || u == 0x3000
}

pub fn is_space_exec(c: char) -> (r: bool)
    ensures
        r == is_space(c),
{
    let u: u32 = c as u32;
    (9 <= u && u <= 13) || u == 32 || u == 0x85 || u == 0xA0 || u == 0x1680 || (0x2000 <= u && u
        <= 0x200A) || u == 0x2028 || u == 0x2029 || u == 0x202F || u == 0x205F || u == 0x3000
}

/// The text without its leading white space.
pub open spec fn trim_start(s: Seq<char>) -> Seq<char>
    decreases s.len(),
{
    if s.len() > 0 && is_space(s[0]) {
        trim_start(s.skip(1))
    } else {
        s
    }
}

/// The text without its trailing white space.
pub open spec fn trim_end(s: Seq<char>) -> Seq<char>
    decreases s.len(),
{
    if s.len() > 0 && is_space(s.last()) {
        trim_end(s.drop_last())
    } else {
        s
    }
}

/// The text without leading and trailing white space.
pub open spec fn trimmed(s: Seq<char>) -> Seq<char> {
    trim_end(trim_start(s))
}

/// Removes leading and trailing white space.
pub fn trim(s: &str) -> (r: String)
    ensures
        r@ == trimmed(s@),
{
    let v = chars_of(s);
    let mut i: usize = 0;
    assert(v@.skip(0) =~= v@);
    while i < v.len() && is_space_exec(v[i])
        invariant
            i <= v@.len(),
            trim_start(v@) == trim_start(v@.skip(i as int)),
        decreases v@.len() - i,
    {
        assert(v@.skip(i as int).skip(1) =~= v@.skip(i + 1));
        i = i + 1;
    }
    let mut j: usize = v.len();
    let ghost body = v@.skip(i as int);
    assert(trim_start(v@) == body);
    assert(v@.subrange(i as int, j as int) =~= body);
    while j > i && is_space_exec(v[j - 1])
        invariant
            i <= j <= v@.len(),
            body == v@.skip(i as int),
            trim_end(body) == trim_end(v@.subrange(i as int, j as int)),
        decreases j - i,
    {
        let ghost cur = v@.subrange(i as int, j as int);
        assert(cur.last() == v@[j - 1]);
        assert(cur.drop_last() =~= v@.subrange(i as int, j - 1));
        j = j - 1;
    }
    proof {
        let cur = v@.subrange(i as int, j as int);
        if cur.len() > 0 {
            assert(cur.last() == v@[j - 1]);
        }
        assert(trim_end(cur) == cur);
    }
    text_range(&v, i, j)
}

/// The text without any leading repetitions of `0x`.
pub open spec fn strip_0x_spec(s: Seq<char>) -> Seq<char>
    decreases s.len(),
{
    if s.len() >= 2 && s[0] == '0' && s[1] == 'x' {
        strip_0x_spec(s.skip(2))
    } else {
        s
    }
}

/// Removes every leading `0x`.
pub fn strip_0x(s: &str) -> (r: String)
    ensures
        r@ == strip_0x_spec(s@),
{
    let v = chars_of(s);
    let mut i: usize = 0;
    assert(v@.skip(0) =~= v@);
    while v.len() - i >= 2 && v[i] == '0' && v[i + 1] == 'x'
        invariant
            i <= v@.len(),
            strip_0x_spec(v@) == strip_0x_spec(v@.skip(i as int)),
        decreases v@.len() - i,
    {
        assert(v@.skip(i as int)[0] == v@[i as int]);
        assert(v@.skip(i as int)[1] == v@[i + 1]);
        assert(v@.skip(i as int).skip(2) =~= v@.skip(i + 2));
        i = i + 2;
    }
    proof {
        let rest = v@.skip(i as int);
        if rest.len() >= 2 {
            assert(rest[0] == v@[i as int] && rest[1] == v@[i + 1]);
        }
        assert(v@.subrange(i as int, v@.len() as int) =~= rest);
    }
    text_range(&v, i, v.len())
}

/// Whether `c` occurs in the text.
pub fn has_char(s: &str, c: char) -> (r: bool)
    ensures
        r == s@.contains(c),
{
    let v = chars_of(s);
    find_char(&v, 0, c) < v.len()
}

/// First position of `c` at or after `from`, or the length when there is none.
pub fn find_char(v: &Vec<char>, from: usize, c: char) -> (r: usize)
    requires
        from <= v@.len(),
    ensures
        from <= r <= v@.len(),
        r < v@.len() ==> v@[r as int] == c,
        forall|i: int| from <= i < r ==> v@[i] != c,
        from == 0 ==> (r < v@.len() <==> v@.contains(c)),
        from == 0 && r < v@.len() ==> r == v@.index_of_first(c)->0,
{
    let mut i: usize = from;
    while i < v.len() && v[i] != c
        invariant
            from <= i <= v@.len(),
            forall|j: int| from <= j < i ==> v@[j] != c,
        decreases v@.len() - i,
    {
        i = i + 1;
    }
    proof {
        if from == 0 {
            if i < v@.len() {
                assert(v@.contains(c));
                v@.index_of_first_ensures(c);
            }
        }
    }
    i
}

/// The parts of a text before and after the first `c`.
pub open spec fn split_once_spec(s: Seq<char>, c: char) -> Option<(Seq<char>, Seq<char>)> {
    match s.index_of_first(c) {
        Some(i) => Some((s.take(i), s.skip(i + 1))),
        None => None,
    }
}

/// Splits a text at the first `c`.
pub fn split_once(s: &str, c: char) -> (r: Option<(String, String)>)
    ensures
        match r {
            Some(p) => split_once_spec(s@, c) == Some((p.0@, p.1@)),
            None => split_once_spec(s@, c) is None,
        },
{
    let v = chars_of(s);
    let i: usize = find_char(&v, 0, c);
    proof {
        v@.index_of_first_ensures(c);
    }
    if i < v.len() {
        assert(v@.subrange(0, i as int) =~= v@.take(i as int));
        assert(v@.subrange(i + 1, v@.len() as int) =~= v@.skip(i + 1));
        Some((text_range(&v, 0, i), text_range(&v, i + 1, v.len())))
    } else {
        None
    }
}

// ---------------------------------------------------------------- byte order

/// Lexicographic order on byte strings.
pub open spec fn lex_lt(a: Seq<u8>, b: Seq<u8>) -> bool
    decreases a.len(),
{
    if b.len() == 0 {
        false
    } else if a.len() == 0 {
        true
    } else if a[0] != b[0] {
        a[0] < b[0]
    } else {
        lex_lt(a.skip(1), b.skip(1))
    }
}

/// Outcome of comparing two byte strings.
#[derive(Clone, Copy, PartialEq, Eq, Structural)]
pub enum Rank {
    Less,
    Equal,
    Greater,
}

/// No byte string precedes itself.
pub proof fn lemma_lex_irreflexive(a: Seq<u8>)
    ensures
        !lex_lt(a, a),
    decreases a.len(),
{
    if a.len() > 0 {
        lemma_lex_irreflexive(a.skip(1));
    }
}

/// The order is transitive.
pub proof fn lemma_lex_transitive(a: Seq<u8>, b: Seq<u8>, c: Seq<u8>)
    requires
        lex_lt(a, b),
        lex_lt(b, c),
    ensures
        lex_lt(a, c),
    decreases a.len(),
{
    if a.len() > 0 && a[0] == b[0] && b[0] == c[0] {
        lemma_lex_transitive(a.skip(1), b.skip(1), c.skip(1));
    }
}

/// Two different byte strings are ordered one way or the other.
pub proof fn lemma_lex_total(a: Seq<u8>, b: Seq<u8>)
    ensures
        a == b || lex_lt(a, b) || lex_lt(b, a),
    decreases a.len(),
{
    if a.len() == 0 || b.len() == 0 {
        if a.len() == 0 && b.len() == 0 {
            assert(a =~= b);
        }
    } else if a[0] == b[0] {
        lemma_lex_total(a.skip(1), b.skip(1));
        if a.skip(1) == b.skip(1) {
            assert forall|i: int| 0 <= i < a.len() implies a[i] == b[i] by {
                if i > 0 {
                    assert(a.skip(1)[i - 1] == b.skip(1)[i - 1]);
                }
            }
            assert(a.skip(1).len() == b.skip(1).len());
            assert(a =~= b);
        }
    }
}

/// A common prefix does not affect the order.
proof fn lemma_lex_prefix(a: Seq<u8>, b: Seq<u8>, k: int)
    requires
        0 <= k <= a.len(),
        k <= b.len(),
        forall|i: int| 0 <= i < k ==> a[i] == b[i],
    ensures
        lex_lt(a, b) == lex_lt(a.skip(k), b.skip(k)),
    decreases k,
{
    if k == 0 {
        assert(a.skip(0) =~= a);
        assert(b.skip(0) =~= b);
    } else {
        assert forall|i: int| 0 <= i < k - 1 implies a.skip(1)[i] == b.skip(1)[i] by {
            assert(a[i + 1] == b[i + 1]);
        }
        lemma_lex_prefix(a.skip(1), b.skip(1), k - 1);
        assert(a.skip(1).skip(k - 1) =~= a.skip(k));
        assert(b.skip(1).skip(k - 1) =~= b.skip(k));
    }
}

/// Compares two byte strings lexicographically.
pub fn rank_bytes(a: &[u8], b: &[u8]) -> (r: Rank)
    ensures
        match r {
            Rank::Less => lex_lt(a@, b@),
            Rank::Equal => a@ == b@,
            Rank::Greater => lex_lt(b@, a@),
        },
{
    let mut i: usize = 0;
    while i < a.len() && i < b.len() && a[i] == b[i]
        invariant
            i <= a@.len(),
            i <= b@.len(),
            forall|j: int| 0 <= j < i ==> a@[j] == b@[j],
        decreases a@.len() - i,
    {
        i = i + 1;
    }
    proof {
        lemma_lex_prefix(a@, b@, i as int);
        lemma_lex_prefix(b@, a@, i as int);
        if i < a@.len() {
            assert(a@.skip(i as int)[0] == a@[i as int]);
        }
        if i < b@.len() {
            assert(b@.skip(i as int)[0] == b@[i as int]);
        }
    }
    if i == b.len() {
        if i == a.len() {
            assert(a@ =~= b@);
            Rank::Equal
        } else {
            Rank::Greater
        }
    } else if i == a.len() {
        Rank::Less
    } else if a[i] < b[i] {
        Rank::Less
    } else {
        Rank::Greater
    }
}

/// Whether one text sorts before another, byte by byte.
pub fn before(a: &str, b: &str) -> (r: bool)
    ensures
        r == lex_lt(utf8(a@), utf8(b@)),
{
    match rank_bytes(a.as_bytes(), b.as_bytes()) {
        Rank::Less => true,
        Rank::Equal => {
            proof {
                lemma_lex_irreflexive(utf8(a@));
            }
            false
        },
        Rank::Greater => {
            proof {
                if lex_lt(utf8(a@), utf8(b@)) {
                    lemma_lex_transitive(utf8(a@), utf8(b@), utf8(a@));
                    lemma_lex_irreflexive(utf8(a@));
                }
            }
            false
        },
    }
}

// ---------------------------------------------------------------- fixed-point numbers

/// Powers of ten.
pub open spec fn pow10(k: nat) -> nat
    decreases k,
{
    if k == 0 {
        1
    } else {
        10 * pow10((k - 1) as nat)
    }
}

/// The last `w` decimal digits of `n`, zero padded on the left.
pub open spec fn dec_pad(n: nat, w: nat) -> Seq<char>
    decreases w,
{
    if w == 0 {
        Seq::empty()
    } else {
        dec_pad(n / 10, (w - 1) as nat).push(digit((n % 10) as int))
    }
}

/// `n` zeros.
pub open spec fn zeros(n: nat) -> Seq<char> {
    Seq::new(n, |i: int| '0')
}

/// A number of `10^-d` units written with a decimal point and exactly `d` decimals
/// (no point when `d` is zero).
pub open spec fn fixed_text(n: nat, d: nat) -> Seq<char> {
    if d == 0 {
        dec(n)
    } else {
        dec(n / pow10(d)) + "."@ + dec_pad(n % pow10(d), d)
    }
}

/// The whole and fractional digits of a written amount.
pub open spec fn amount_parts(s: Seq<char>) -> (Seq<char>, Seq<char>) {
    let t = trimmed(s);
    match split_once_spec(t, '.') {
        Some(p) => p,
        None => (t, Seq::empty()),
    }
}

/// The number of `10^-d` units a written amount denotes, or what is wrong with it.
/// An amount that does not fit in 128 bits is a bad amount.
pub open spec fn fixed_value(s: Seq<char>, d: nat) -> Result<nat, Seq<char>> {
    let (w, f) = amount_parts(s);
    let max = u128::MAX as nat;
    match parsed_upto(w, max) {
        None => Err("bad amount"@),
        Some(whole) => if utf8(f).len() > d {
            Err("max "@ + dec(d) + " decimals"@)
        } else {
            let padded = f + zeros((d - utf8(f).len()) as nat);
            let frac = if padded.len() == 0 {
                Some(0nat)
            } else {
                parsed_upto(padded, max)
            };
            match frac {
                None => Err("bad amount"@),
                Some(k) => if whole * pow10(d) + k <= max {
                    Ok(whole * pow10(d) + k)
                } else {
                    Err("bad amount"@)
                },
            }
        },
    }
}

/// Powers of ten grow.
proof fn lemma_pow10_monotone(a: nat, b: nat)
    requires
        a <= b,
    ensures
        0 < pow10(a) <= pow10(b),
    decreases b,
{
    if b > 0 && a < b {
        lemma_pow10_monotone(a, (b - 1) as nat);
    } else if a > 0 {
        lemma_pow10_monotone((a - 1) as nat, (b - 1) as nat);
    }
}

/// Powers of ten up to 38 fit in 128 bits.
proof fn lemma_pow10_bound(k: nat)
    requires
        k <= 38,
    ensures
        0 < pow10(k) <= 100_000_000_000_000_000_000_000_000_000_000_000_000,
{
    lemma_pow10_monotone(k, 38);
    reveal_with_fuel(pow10, 20);
    assert(pow10(19) == 10_000_000_000_000_000_000);
    assert(pow10(38) == 100_000_000_000_000_000_000_000_000_000_000_000_000);
}

/// Ten to the power `k`.
fn ten_to(k: u8) -> (r: u128)
    requires
        k <= 38,
    ensures
        r == pow10(k as nat),
        r > 0,
    decreases k,
{
    proof {
        lemma_pow10_bound(k as nat);
    }
    if k == 0 {
        1
    } else {
        let p = ten_to(k - 1);
        10 * p
    }
}

/// Appends the last `w` decimal digits of `n`.
fn push_pad(s: &mut String, n: u128, w: u8)
    ensures
        final(s)@ == old(s)@ + dec_pad(n as nat, w as nat),
    decreases w,
{
    if w > 0 {
        push_pad(s, n / 10, w - 1);
        let c: char = (((n % 10) as u8) + 48u8) as char;
        s.push(c);
    }
    assert(s@ =~= old(s)@ + dec_pad(n as nat, w as nat));
}

/// Writes `n` units of `10^-d` with `d` decimals.
pub fn format_fixed(n: u128, d: u8) -> (r: String)
    requires
        d <= 38,
    ensures
        r@ == fixed_text(n as nat, d as nat),
{
    if d == 0 {
        return decimal(n);
    }
    let scale = ten_to(d);
    let mut s = decimal(n / scale);
    s.append(".");
    push_pad(&mut s, n % scale, d);
    s
}

/// Reads an amount with at most `d` decimals as a number of `10^-d` units.
pub fn parse_fixed(s: &str, d: u8) -> (r: Result<u128, String>)
    ensures
        match fixed_value(s@, d as nat) {
            Ok(n) => r matches Ok(v) && v == n,
            Err(m) => r matches Err(e) && e@ == m,
        },
{
    let t = trim(s);
    let (w, f) = match split_once(&t, '.') {
        Some(p) => p,
        None => (t, String::new()),
    };
    assert((w@, f@) == amount_parts(s@));
    let whole = match parse_u128(&w) {
        Some(n) => n,
        None => {
            return Err(copy("bad amount"));
        },
    };
    let flen: usize = f.as_str().as_bytes().len();
    if flen > d as usize {
        let mut e = copy("max ");
        push_dec(&mut e, d as u128);
        e.append(" decimals");
        return Err(e);
    }
    let mut padded = f;
    let ghost f0 = padded@;
    let mut have: usize = flen;
    while have < d as usize
        invariant
            flen <= have <= d,
            padded@ == f0 + zeros((have - flen) as nat),
        decreases d - have,
    {
        padded.push('0');
        have = have + 1;
        assert(padded@ =~= f0 + zeros((have - flen) as nat));
    }
    proof {
        if have == flen {
            assert(padded@ =~= f0 + zeros(0));
        }
    }
    let frac: u128 = if padded.as_str().is_empty() {
        0
    } else {
        match parse_u128(&padded) {
            Some(n) => n,
            None => {
                return Err(copy("bad amount"));
            },
        }
    };
    if d > 38 {
        proof {
            lemma_pow10_bound(38);
            lemma_pow10_monotone(39, d as nat);
            assert(pow10(39) == 10 * pow10(38));
            assert(pow10(39) > u128::MAX) by {
                reveal_with_fuel(pow10, 20);
                assert(pow10(19) == 10_000_000_000_000_000_000);
                assert(pow10(38) == 100_000_000_000_000_000_000_000_000_000_000_000_000);
            }
            assert(whole > 0 ==> whole * pow10(d as nat) >= pow10(d as nat)) by (nonlinear_arith);
            assert(0 * pow10(d as nat) == 0) by (nonlinear_arith);
        }
        return if whole == 0 {
            Ok(frac)
        } else {
            Err(copy("bad amount"))
        };
    }
    let scale = ten_to(d);
    match whole.checked_mul(scale) {
        None => {
            assert(whole * pow10(d as nat) > u128::MAX) by (nonlinear_arith)
                requires
                    whole * scale > u128::MAX,
                    scale == pow10(d as nat),
            ;
            Err(copy("bad amount"))
        },
        Some(m) => {
            assert(m == whole as nat * pow10(d as nat)) by (nonlinear_arith)
                requires
                    m == whole * scale,
                    scale == pow10(d as nat),
            ;
            match m.checked_add(frac) {
                None => Err(copy("bad amount")),
                Some(v) => Ok(v),
            }
        },
    }
}

/// Padded digits denote the number they pad, and there are exactly `w` of them.
proof fn lemma_dec_pad(n: nat, w: nat)
    requires
        n < pow10(w),
    ensures
        dec_pad(n, w).len() == w,
        all_digits(dec_pad(n, w)),
        digits_value(dec_pad(n, w)) == n,
    decreases w,
{
    let s = dec_pad(n, w);
    if w > 0 {
        lemma_dec_pad(n / 10, (w - 1) as nat);
        let p = dec_pad(n / 10, (w - 1) as nat);
        assert(s.drop_last() =~= p);
        assert forall|i: int| 0 <= i < s.len() implies is_digit(#[trigger] s[i]) by {
            if i < p.len() {
                assert(s[i] == p[i]);
            }
        }
    }
}

/// ASCII text has one byte per character.
pub proof fn lemma_ascii_utf8_len(s: Seq<char>)
    requires
        is_ascii_chars(s),
    ensures
        utf8(s).len() == s.len(),
{
    is_ascii_chars_encode_utf8(s);
}

/// Every amount that fits in 128 bits is read back from its written form.
pub proof fn law_fixed_round_trip(n: nat, d: nat)
    requires
        n <= u128::MAX,
        d <= 38,
    ensures
        fixed_value(fixed_text(n, d), d) == Ok::<nat, Seq<char>>(n),
{
    reveal_strlit(".");
    let t = fixed_text(n, d);
    let whole = n / pow10(d);
    let k = n % pow10(d);
    lemma_pow10_monotone(0, d);
    assert(pow10(0) == 1);
    vstd::arithmetic::div_mod::lemma_fundamental_div_mod(n as int, pow10(d) as int);
    vstd::arithmetic::div_mod::lemma_mod_bound(n as int, pow10(d) as int);
    assert(whole * pow10(d) + k == n) by (nonlinear_arith)
        requires
            n == pow10(d) * whole + k,
    ;
    assert(whole <= n) by (nonlinear_arith)
        requires
            whole * pow10(d) + k == n,
            pow10(d) >= 1,
    ;
    lemma_parsed_dec(whole);
    lemma_dec_digits(whole);
    lemma_dec_pad(k, d);
    lemma_parsed_dec(n);
    lemma_dec_digits(n);
    let w = dec(whole);
    let f = dec_pad(k, d);
    assert forall|i: int| 0 <= i < t.len() implies !is_space(#[trigger] t[i]) by {
        if d == 0 {
            assert(is_digit(dec(n)[i]));
        } else if i < w.len() {
            assert(t[i] == w[i]);
        } else if i > w.len() {
            assert(t[i] == f[i - w.len() - 1]);
        }
    }
    assert(trimmed(t) == t);
    if d == 0 {
        if t.contains('.') {
            let i = choose|i: int| 0 <= i < t.len() && t[i] == '.';
            assert(is_digit(t[i]));
        }
        t.index_of_first_ensures('.');
        assert(amount_parts(t) == (t, Seq::<char>::empty()));
        lemma_ascii_utf8_len(Seq::<char>::empty());
        assert(Seq::<char>::empty() + zeros(0) =~= Seq::<char>::empty());
        assert(pow10(0) == 1);
    } else {
        assert(t[w.len() as int] == '.');
        assert(t.contains('.'));
        t.index_of_first_ensures('.');
        let i = t.index_of_first('.')->0;
        if i < w.len() {
            assert(t[i] == w[i]);
            assert(is_digit(w[i]));
        }
        assert(t.take(i) =~= w);
        assert(t.skip(i + 1) =~= f);
        assert(amount_parts(t) == (w, f));
        assert forall|j: int| 0 <= j < f.len() implies '\0' <= #[trigger] f[j] <= '\u{7f}' by {
            assert(is_digit(f[j]));
        }
        lemma_ascii_utf8_len(f);
        assert(f + zeros(0) =~= f);
        assert(is_digit(f[0]));
        assert(number_body(f) == f);
    }
}

// ---------------------------------------------------------------- big-endian integers

/// The low `k` bytes of `n`, most significant first.
pub open spec fn be(n: nat, k: nat) -> Seq<u8>
    decreases k,
{
    if k == 0 {
        Seq::empty()
    } else {
        be(n / 256, (k - 1) as nat).push((n % 256) as u8)
    }
}

/// The number a big-endian byte string denotes.
pub open spec fn from_be(s: Seq<u8>) -> nat
    decreases s.len(),
{
    if s.len() == 0 {
        0
    } else {
        from_be(s.drop_last()) * 256 + s.last() as nat
    }
}

/// Powers of 256.
pub open spec fn pow256(k: nat) -> nat
    decreases k,
{
    if k == 0 {
        1
    } else {
        256 * pow256((k - 1) as nat)
    }
}

/// `be` writes exactly `k` bytes and they denote the number, when it fits.
pub proof fn lemma_be(n: nat, k: nat)
    ensures
        be(n, k).len() == k,
        n < pow256(k) ==> from_be(be(n, k)) == n,
    decreases k,
{
    if k > 0 {
        lemma_be(n / 256, (k - 1) as nat);
        assert(be(n, k).drop_last() =~= be(n / 256, (k - 1) as nat));
        assert(be(n, k).last() == (n % 256) as u8);
    }
}

/// A byte string of length `k` denotes a number below `256^k`, and `be` writes it back.
pub proof fn lemma_from_be(s: Seq<u8>)
    ensures
        from_be(s) < pow256(s.len()),
        be(from_be(s), s.len()) == s,
    decreases s.len(),
{
    if s.len() > 0 {
        lemma_from_be(s.drop_last());
        let n = from_be(s);
        assert(n / 256 == from_be(s.drop_last()));
        assert(n % 256 == s.last() as nat);
        assert(be(n, s.len()) =~= s.drop_last().push(s.last()));
        assert(s.drop_last().push(s.last()) =~= s);
    } else {
        assert(be(0, 0) =~= s);
    }
}

/// Eight bytes hold 64 bits and sixteen hold 128 bits.
pub proof fn lemma_pow256_values()
    ensures
        pow256(4) == 0x1_0000_0000,
        pow256(8) == 0x1_0000_0000_0000_0000,
        pow256(16) == u128::MAX + 1,
{
    reveal_with_fuel(pow256, 17);
}

/// Appends the low `k` bytes of `n`, most significant first.
pub fn push_be(buf: &mut Vec<u8>, n: u128, k: u8)
    ensures
        final(buf)@ == old(buf)@ + be(n as nat, k as nat),
    decreases k,
{
    if k > 0 {
        push_be(buf, n / 256, k - 1);
        buf.push((n % 256) as u8);
    }
    assert(buf@ =~= old(buf)@ + be(n as nat, k as nat));
}

/// The eight-byte key of a height.
pub fn be8(n: u64) -> (r: Vec<u8>)
    ensures
        r@ == be(n as nat, 8),
        r@.len() == 8,
{
    let mut b: Vec<u8> = Vec::new();
    push_be(&mut b, n as u128, 8);
    proof {
        lemma_be(n as nat, 8);
    }
    assert(b@ =~= be(n as nat, 8));
    b
}

/// Reads a big-endian number of at most sixteen bytes.
pub fn read_be(s: &[u8]) -> (r: u128)
    requires
        s@.len() <= 16,
    ensures
        r == from_be(s@),
{
    let mut acc: u128 = 0;
    let mut i: usize = 0;
    proof {
        lemma_pow256_values();
    }
    assert(s@.take(0) =~= Seq::<u8>::empty());
    while i < s.len()
        invariant
            i <= s@.len() <= 16,
            acc == from_be(s@.take(i as int)),
            pow256(16) == u128::MAX + 1,
        decreases s@.len() - i,
    {
        proof {
            let t = s@.take(i + 1);
            assert(t.drop_last() =~= s@.take(i as int));
            assert(t.last() == s@[i as int]);
            lemma_from_be(t);
            lemma_pow256_monotone((i + 1) as nat, 16);
        }
        acc = acc * 256 + s[i] as u128;
        i = i + 1;
    }
    assert(s@.take(s@.len() as int) =~= s@);
    acc
}

proof fn lemma_pow256_monotone(a: nat, b: nat)
    requires
        a <= b,
    ensures
        0 < pow256(a) <= pow256(b),
    decreases b,
{
    if b > 0 && a < b {
        lemma_pow256_monotone(a, (b - 1) as nat);
    } else if a > 0 {
        lemma_pow256_monotone((a - 1) as nat, (b - 1) as nat);
    }
}

/// The number written in exactly eight bytes, when there are eight.
pub open spec fn height_of(b: Seq<u8>) -> Option<nat> {
    if b.len() == 8 {
        Some(from_be(b))
    } else {
        None
    }
}

/// Reads a number written in exactly eight bytes.
pub fn read_height(b: &[u8]) -> (r: Option<u64>)
    ensures
        match r {
            Some(h) => height_of(b@) == Some(h as nat),
            None => height_of(b@) is None,
        },
{
    if b.len() == 8 {
        let n = read_be(b);
        proof {
            lemma_from_be(b@);
            lemma_pow256_values();
        }
        Some(n as u64)
    } else {
        None
    }
}

// ---------------------------------------------------------------- searching

/// Whether a text stands in another at a place.
pub open spec fn stands_at(s: Seq<char>, t: Seq<char>, i: int) -> bool {
    0 <= i && i + t.len() <= s.len() && s.subrange(i, i + t.len()) == t
}

/// Whether a text holds another.
pub open spec fn holds_text(s: Seq<char>, t: Seq<char>) -> bool {
    exists|i: int| stands_at(s, t, i)
}

/// Whether a text holds another.
pub fn has_text(s: &str, t: &str) -> (r: bool)
    ensures
        r == holds_text(s@, t@),
{
    let a = chars_of(s);
    let b = chars_of(t);
    let n: usize = a.len();
    let m: usize = b.len();
    if m == 0 {
        assert(s@.subrange(0, 0) =~= t@);
        assert(stands_at(s@, t@, 0));
        return true;
    }
    let mut i: usize = 0;
    while i < n
        invariant
            a@ == s@,
            b@ == t@,
            n == a@.len(),
            m == b@.len(),
            m > 0,
            i <= n,
            forall|j: int| 0 <= j < i ==> !stands_at(s@, t@, j),
        decreases n - i,
    {
        let mut k: usize = 0;
        while k < m && k < n - i && a[i + k] == b[k]
            invariant
                k <= m,
                i < n,
                k <= n - i,
                n == a@.len(),
                m == b@.len(),
                forall|j: int| 0 <= j < k ==> a@[i + j] == b@[j],
            decreases m - k,
        {
            k = k + 1;
        }
        if k == m {
            assert(s@.subrange(i as int, i + t@.len()) =~= t@);
            assert(stands_at(s@, t@, i as int));
            return true;
        }
        proof {
            if stands_at(s@, t@, i as int) {
                assert(s@.subrange(i as int, i + t@.len())[k as int] == t@[k as int]);
            }
        }
        i = i + 1;
    }
    proof {
        assert forall|j: int| !stands_at(s@, t@, j) by {}
    }
    false
}

/// The first characters of a text, all of it when it is shorter.
pub fn prefix(s: &str, n: usize) -> (r: String)
    ensures
        r@ == if s@.len() < n {
            s@
        } else {
            s@.take(n as int)
        },
{
    let v = chars_of(s);
    let to: usize = if v.len() < n {
        v.len()
    } else {
        n
    };
    let r = text_range(&v, 0, to);
    assert(r@ =~= if s@.len() < n {
        s@
    } else {
        s@.take(n as int)
    });
    r
}

} // verus!
