//! The command line: flags, wallet files, and the transactions commands build.

use crate::chain;
use crate::chain::Node;
use crate::chain::NodeV;
use crate::contracts;
use crate::crypto;
use crate::crypto::Keypair;
use crate::json;
use crate::slashing;
use crate::staking;
use crate::state;
use crate::text;
use crate::tokens;
use crate::types;
use crate::types::Payload;
use crate::types::PayloadV;
use crate::types::Transaction;
use crate::types::TxKind;
use crate::types::TxV;
use crate::words;
use vstd::prelude::*;
use vstd::string::*;

verus! {

// ---------------------------------------------------------------- flags

/// A command with its flags.
pub struct Args {
    pub cmd: String,
    pub flags: Vec<(String, String)>,
}

/// Models of flags.
pub open spec fn flag_views(v: Seq<(String, String)>) -> Seq<(Seq<char>, Seq<char>)> {
    v.map_values(|f: (String, String)| (f.0@, f.1@))
}

/// The flags from a place of the arguments on. A switch has no value: the next argument
/// is taken as one only when it is no flag itself.
pub open spec fn scanned(raw: Seq<Seq<char>>, i: nat) -> Seq<(Seq<char>, Seq<char>)>
    decreases raw.len() - i,
{
    if i >= raw.len() {
        Seq::empty()
    } else if !words::starts(raw[i as int], "--"@) {
        scanned(raw, i + 1)
    } else if i + 1 < raw.len() && !words::starts(raw[i as int + 1], "--"@) {
        seq![(raw[i as int].skip(2), raw[i as int + 1])] + scanned(raw, i + 2)
    } else {
        seq![(raw[i as int].skip(2), ""@)] + scanned(raw, i + 1)
    }
}

/// The value a name was given last.
pub open spec fn flag_value(f: Seq<(Seq<char>, Seq<char>)>, name: Seq<char>) -> Option<Seq<char>>
    decreases f.len(),
{
    if f.len() == 0 {
        None
    } else if f.last().0 == name {
        Some(f.last().1)
    } else {
        flag_value(f.drop_last(), name)
    }
}

/// Reads the arguments of the program, its own name left out.
pub fn parse_args(raw: &Vec<String>) -> (r: Args)
    ensures
        r.cmd@ == if raw@.len() > 0 {
            raw@[0]@
        } else {
            "help"@
        },
        flag_views(r.flags@) == scanned(types::texts(raw@), 1),
{
    let ghost all = types::texts(raw@);
    let cmd = if raw.len() > 0 {
        raw[0].clone()
    } else {
        text::copy("help")
    };
    let mut flags: Vec<(String, String)> = Vec::new();
    let mut i: usize = 1;
    proof {
        reveal_strlit("--");
        assert(flag_views(flags@) + scanned(all, 1) =~= scanned(all, 1));
    }
    while i < raw.len()
        invariant
            i >= 1,
            "--"@.len() == 2,
            all == types::texts(raw@),
            flag_views(flags@) + scanned(all, i as nat) =~= scanned(all, 1),
        decreases raw@.len() - i,
    {
        let ghost was = flag_views(flags@);
        assert(all[i as int] == raw@[i as int]@);
        match words::after(raw[i].as_str(), "--") {
            Some(name) => {
                let ghost nv = name@;
                let size: usize = raw.len();
                let takes = if size - i > 1 {
                    assert(all[i + 1] == raw@[i + 1]@);
                    words::after(raw[i + 1].as_str(), "--").is_none()
                } else {
                    false
                };
                if takes {
                    let value = raw[i + 1].clone();
                    let ghost vv = value@;
                    flags.push((name, value));
                    proof {
                        assert(flag_views(flags@) =~= was.push((nv, vv)));
                        let rest = scanned(all, (i + 2) as nat);
                        assert(was + (seq![(nv, vv)] + rest) =~= was.push((nv, vv)) + rest);
                    }
                    i = i + 2;
                } else {
                    let value = text::copy("");
                    let ghost vv = value@;
                    flags.push((name, value));
                    proof {
                        assert(flag_views(flags@) =~= was.push((nv, vv)));
                        let rest = scanned(all, (i + 1) as nat);
                        assert(was + (seq![(nv, vv)] + rest) =~= was.push((nv, vv)) + rest);
                    }
                    i = i + 1;
                }
            },
            None => {
                i = i + 1;
            },
        }
    }
    Args { cmd, flags }
}

impl Args {
    /// The value of a flag.
    pub open spec fn value(self, name: Seq<char>) -> Option<Seq<char>> {
        flag_value(flag_views(self.flags@), name)
    }

    /// Reads the value of a flag.
    pub fn get(&self, name: &str) -> (r: Option<String>)
        ensures
            match r {
                Some(v) => self.value(name@) == Some(v@),
                None => self.value(name@) is None,
            },
    {
        let ghost all = flag_views(self.flags@);
        let mut i: usize = self.flags.len();
        assert(all.take(i as int) =~= all);
        while i > 0
            invariant
                i <= self.flags@.len(),
                all == flag_views(self.flags@),
                flag_value(all, name@) == flag_value(all.take(i as int), name@),
            decreases i,
        {
            proof {
                assert(all.take(i as int).drop_last() =~= all.take(i - 1));
                assert(all.take(i as int).last() == all[i - 1]);
            }
            i = i - 1;
            if text::same(self.flags[i].0.as_str(), name) {
                return Some(self.flags[i].1.clone());
            }
        }
        assert(all.take(0) =~= Seq::<(Seq<char>, Seq<char>)>::empty());
        None
    }

    /// Whether a flag was given.
    pub fn has_flag(&self, name: &str) -> (r: bool)
        ensures
            r == self.value(name@) is Some,
    {
        self.get(name).is_some()
    }

    /// The value of a flag, or a default.
    pub fn get_or(&self, name: &str, default: &str) -> (r: String)
        ensures
            r@ == match self.value(name@) {
                Some(v) => v,
                None => default@,
            },
    {
        match self.get(name) {
            Some(v) => v,
            None => text::copy(default),
        }
    }

    /// The value of a flag, or the error that it is required.
    pub fn required(&self, name: &str, error: &str) -> (r: Result<String, String>)
        ensures
            match self.value(name@) {
                Some(v) => r matches Ok(x) && x@ == v,
                None => r matches Err(e) && e@ == error@,
            },
    {
        match self.get(name) {
            Some(v) => Ok(v),
            None => Err(text::copy(error)),
        }
    }

    /// The number a flag holds, or a default when it holds none.
    pub fn number_or(&self, name: &str, default: u64) -> (r: u64)
        ensures
            r == match self.value(name@) {
                Some(v) => match text::parsed_upto(v, u64::MAX as nat) {
                    Some(n) => n as u64,
                    None => default,
                },
                None => default,
            },
    {
        match self.get(name) {
            Some(v) => match text::parse_u64(v.as_str()) {
                Some(n) => n,
                None => default,
            },
            None => default,
        }
    }
}

/// Entries of a list of peer identities: trimmed, in small letters, 64 bytes long.
pub open spec fn peer_ids_of(p: Seq<Seq<char>>) -> Seq<Seq<char>>
    decreases p.len(),
{
    if p.len() == 0 {
        Seq::empty()
    } else {
        let k = text::ascii_lower_spec(p.last());
        if text::utf8(k).len() == 64 {
            peer_ids_of(p.drop_last()).push(k)
        } else {
            peer_ids_of(p.drop_last())
        }
    }
}

/// Reads a comma-separated list of peer identities.
pub fn parse_peer_ids(s: &str) -> (r: Vec<String>)
    ensures
        types::texts(r@) == peer_ids_of(words::listed(s@)),
{
    let list = words::split_list(s);
    let ghost all = types::texts(list@);
    let mut out: Vec<String> = Vec::new();
    let mut i: usize = 0;
    proof {
        assert(all.take(0) =~= Seq::<Seq<char>>::empty());
        assert(types::texts(out@) =~= Seq::<Seq<char>>::empty());
    }
    while i < list.len()
        invariant
            i <= list@.len(),
            all == types::texts(list@),
            types::texts(out@) =~= peer_ids_of(all.take(i as int)),
        decreases list@.len() - i,
    {
        let ghost was = types::texts(out@);
        proof {
            assert(all.take(i + 1).drop_last() =~= all.take(i as int));
            assert(all.take(i + 1).last() == list@[i as int]@);
        }
        let k = text::ascii_lower(list[i].as_str());
        let n: usize = text::bytes_of(k.as_str()).len();
        if n == 64 {
            let ghost kv = k@;
            out.push(k);
            assert(types::texts(out@) =~= was.push(kv));
        }
        i = i + 1;
    }
    assert(all.take(all.len() as int) =~= all);
    out
}

/// Where calls to a node go: an address without a scheme is reached over HTTP.
pub open spec fn endpoint_of(url: Seq<char>) -> Seq<char> {
    if words::starts(url, "http://"@) || words::starts(url, "https://"@) {
        url
    } else {
        "http://"@ + url
    }
}

/// Where calls to a node go.
pub fn endpoint(url: &str) -> (r: String)
    ensures
        r@ == endpoint_of(url@),
{
    if words::after(url, "http://").is_some() || words::after(url, "https://").is_some() {
        text::copy(url)
    } else {
        let mut e = text::copy("http://");
        e.append(url);
        e
    }
}

// ---------------------------------------------------------------- wallets

/// A text without `export ` in front, however often it stands there.
pub open spec fn unexported(s: Seq<char>) -> Seq<char>
    decreases s.len(),
{
    if s.len() >= 7 && words::starts(s, "export "@) {
        unexported(s.skip(7))
    } else {
        s
    }
}

/// What stands behind the last `=` or `:`.
pub open spec fn last_part(s: Seq<char>) -> Seq<char>
    decreases s.len(),
{
    if s.len() == 0 || s.last() == '=' || s.last() == ':' {
        Seq::empty()
    } else {
        last_part(s.drop_last()).push(s.last())
    }
}

/// Quotes and blanks.
pub open spec fn is_quote(c: char) -> bool {
    c == '\'' || c == '"' || c == ' '
}

/// Without quotes and blanks in front.
pub open spec fn unquoted_start(s: Seq<char>) -> Seq<char>
    decreases s.len(),
{
    if s.len() > 0 && is_quote(s[0]) {
        unquoted_start(s.skip(1))
    } else {
        s
    }
}

/// Without quotes and blanks at the end.
pub open spec fn unquoted_end(s: Seq<char>) -> Seq<char>
    decreases s.len(),
{
    if s.len() > 0 && is_quote(s.last()) {
        unquoted_end(s.drop_last())
    } else {
        s
    }
}

/// What a line of a wallet file may hold as a key.
pub open spec fn cleaned(line: Seq<char>) -> Seq<char> {
    unquoted_end(
        unquoted_start(text::trimmed(last_part(unexported(text::trimmed(line))))),
    )
}

/// Hexadecimal digits.
pub open spec fn is_hex(c: char) -> bool {
    '0' <= c <= '9' || 'a' <= c <= 'f' || 'A' <= c <= 'F'
}

/// The key of a line, when it holds one: 64 hexadecimal digits.
pub open spec fn line_key(line: Seq<char>) -> Option<Seq<char>> {
    let k = cleaned(line);
    if k.len() == 64 && forall|i: int| 0 <= i < k.len() ==> is_hex(#[trigger] k[i]) {
        Some(text::ascii_lower_spec(k))
    } else {
        None
    }
}

/// The first key of some lines.
pub open spec fn first_key(lines: Seq<Seq<char>>) -> Option<Seq<char>>
    decreases lines.len(),
{
    if lines.len() == 0 {
        None
    } else {
        match line_key(lines[0]) {
            Some(k) => Some(k),
            None => first_key(lines.drop_first()),
        }
    }
}

fn strip_exports(v: &Vec<char>) -> (r: usize)
    ensures
        r <= v@.len(),
        unexported(v@) == v@.skip(r as int),
{
    let size: usize = v.len();
    let mut from: usize = 0;
    proof {
        reveal_strlit("export ");
        assert(v@.skip(0) =~= v@);
    }
    while size - from >= 7 && words::after(
        text::text_range(v, from, size).as_str(),
        "export ",
    ).is_some()
        invariant
            from <= size,
            size == v@.len(),
            "export "@.len() == 7,
            unexported(v@) == unexported(v@.skip(from as int)),
        decreases size - from,
    {
        proof {
            assert(v@.subrange(from as int, size as int) =~= v@.skip(from as int));
            assert(v@.skip(from as int).skip(7) =~= v@.skip(from + 7));
        }
        from = from + 7;
    }
    assert(v@.subrange(from as int, size as int) =~= v@.skip(from as int));
    from
}

fn find_last_part(v: &Vec<char>) -> (r: usize)
    ensures
        r <= v@.len(),
        last_part(v@) == v@.skip(r as int),
{
    let size: usize = v.len();
    let mut i: usize = size;
    proof {
        assert(v@.take(size as int) =~= v@);
        assert(last_part(v@) =~= last_part(v@) + v@.skip(size as int));
    }
    while i > 0 && v[i - 1] != '=' && v[i - 1] != ':'
        invariant
            i <= size,
            size == v@.len(),
            last_part(v@) == last_part(v@.take(i as int)) + v@.skip(i as int),
        decreases i,
    {
        proof {
            assert(v@.take(i as int).drop_last() =~= v@.take(i - 1));
            let h = last_part(v@.take(i - 1));
            assert(h.push(v@[i - 1]) + v@.skip(i as int) =~= h + v@.skip(i - 1));
        }
        i = i - 1;
    }
    assert(last_part(v@.take(i as int)) =~= Seq::<char>::empty());
    assert(last_part(v@) =~= v@.skip(i as int));
    i
}

fn quote(c: char) -> (r: bool)
    ensures
        r == is_quote(c),
{
    c == '\'' || c == '"' || c == ' '
}

fn strip_quotes(s: &str) -> (r: String)
    ensures
        r@ == unquoted_end(unquoted_start(s@)),
{
    let v = text::chars_of(s);
    let size: usize = v.len();
    let mut a: usize = 0;
    assert(v@.skip(0) =~= v@);
    while a < size && quote(v[a])
        invariant
            a <= size,
            size == v@.len(),
            unquoted_start(v@) == unquoted_start(v@.skip(a as int)),
        decreases size - a,
    {
        assert(v@.skip(a as int).skip(1) =~= v@.skip(a + 1));
        a = a + 1;
    }
    let ghost t = v@.skip(a as int);
    let mut b: usize = size;
    assert(t.take(size - a) =~= t);
    while b > a && quote(v[b - 1])
        invariant
            a <= b <= size,
            size == v@.len(),
            t == v@.skip(a as int),
            unquoted_end(t) == unquoted_end(t.take(b - a)),
        decreases b,
    {
        assert(t.take(b - a).drop_last() =~= t.take(b - a - 1));
        assert(t.take(b - a).last() == v@[b - 1]);
        b = b - 1;
    }
    assert(t.take(b - a) =~= v@.subrange(a as int, b as int));
    text::text_range(&v, a, b)
}

fn clean(line: &str) -> (r: String)
    ensures
        r@ == cleaned(line@),
{
    let v = text::chars_of(text::trim(line).as_str());
    let a = strip_exports(&v);
    let rest = text::text_range(&v, a, v.len());
    assert(v@.subrange(a as int, v@.len() as int) =~= v@.skip(a as int));
    let w = text::chars_of(rest.as_str());
    let b = find_last_part(&w);
    let part = text::text_range(&w, b, w.len());
    assert(w@.subrange(b as int, w@.len() as int) =~= w@.skip(b as int));
    strip_quotes(text::trim(part.as_str()).as_str())
}

fn read_line_key(line: &str) -> (r: Option<String>)
    ensures
        match r {
            Some(k) => line_key(line@) == Some(k@),
            None => line_key(line@) is None,
        },
{
    let k = clean(line);
    let v = text::chars_of(k.as_str());
    if v.len() != 64 {
        return None;
    }
    let mut i: usize = 0;
    while i < v.len()
        invariant
            i <= v@.len(),
            v@ == cleaned(line@),
            v@.len() == 64,
            forall|j: int| 0 <= j < i ==> is_hex(#[trigger] v@[j]),
        decreases v@.len() - i,
    {
        let c = v[i];
        if !(('0' <= c && c <= '9') || ('a' <= c && c <= 'f') || ('A' <= c && c <= 'F')) {
            assert(!is_hex(cleaned(line@)[i as int]));
            return None;
        }
        i = i + 1;
    }
    Some(text::ascii_lower(k.as_str()))
}

/// Reads the secret of a wallet file. The file is read with tolerance:
/// `export INAZ_KEY='hex'`, `INAZ_KEY=hex`, `secret key: hex` and a bare line all work.
pub fn wallet_secret(body: &str) -> (r: Option<String>)
    ensures
        match r {
            Some(k) => first_key(words::pieces(body@, Some('\n'))) == Some(k@),
            None => first_key(words::pieces(body@, Some('\n'))) is None,
        },
{
    let lines = words::split(body, Some('\n'));
    let ghost all = types::texts(lines@);
    let mut i: usize = 0;
    assert(all.skip(0) =~= all);
    while i < lines.len()
        invariant
            i <= lines@.len(),
            all == types::texts(lines@),
            all == words::pieces(body@, Some('\n')),
            first_key(all) == first_key(all.skip(i as int)),
        decreases lines@.len() - i,
    {
        proof {
            assert(all.skip(i as int)[0] == lines@[i as int]@);
            assert(all.skip(i as int).drop_first() =~= all.skip(i + 1));
        }
        match read_line_key(lines[i].as_str()) {
            Some(k) => {
                return Some(k);
            },
            None => {},
        }
        i = i + 1;
    }
    None
}

/// A wallet file.
pub open spec fn wallet_text(secret: Seq<char>, address: Seq<char>) -> Seq<char> {
    "# Inazuma validator wallet \u{2014} keep this file private\nexport INAZ_KEY='"@ + secret
        + "'\nexport INAZ_ADDRESS='"@ + address + "'\n"@
}

/// Writes a wallet file in the one format every command understands.
pub fn wallet_body(kp: &Keypair) -> (r: String)
    ensures
        r@ == wallet_text(crypto::hex_text(kp.seed@), kp.address_text()),
{
    let mut b = text::copy(
        "# Inazuma validator wallet \u{2014} keep this file private\nexport INAZ_KEY='",
    );
    b.append(kp.secret_hex().as_str());
    b.append("'\nexport INAZ_ADDRESS='");
    b.append(kp.address().as_str());
    b.append("'\n");
    b
}

/// A line is its own only piece.
proof fn lemma_one_piece(a: Seq<char>)
    requires
        forall|i: int| 0 <= i < a.len() ==> #[trigger] a[i] != '\n',
    ensures
        words::pieces(a, Some('\n')) == seq![a],
    decreases a.len(),
{
    if a.len() > 0 {
        let d = a.drop_last();
        assert forall|i: int| 0 <= i < d.len() implies #[trigger] d[i] != '\n' by {
            assert(d[i] == a[i]);
        }
        lemma_one_piece(d);
        let p = words::pieces(d, Some('\n'));
        assert(a.last() == a[a.len() - 1]);
        assert(d.push(a.last()) =~= a);
        assert(p.drop_last().push(p.last().push(a.last())) =~= seq![a]);
    } else {
        assert(a =~= Seq::<char>::empty());
    }
}

/// The first line of a text comes first, the lines of the rest follow.
proof fn lemma_line_first(a: Seq<char>, b: Seq<char>)
    requires
        forall|i: int| 0 <= i < a.len() ==> #[trigger] a[i] != '\n',
    ensures
        words::pieces(a + seq!['\n'] + b, Some('\n')) == seq![a] + words::pieces(b, Some('\n')),
    decreases b.len(),
{
    let s = a + seq!['\n'] + b;
    if b.len() == 0 {
        assert(s.drop_last() =~= a);
        assert(s.last() == '\n');
        lemma_one_piece(a);
        assert(seq![a].push(Seq::<char>::empty()) =~= seq![a] + words::pieces(b, Some('\n')));
    } else {
        let d = b.drop_last();
        lemma_line_first(a, d);
        assert(s.drop_last() =~= a + seq!['\n'] + d);
        assert(s.last() == b.last());
        let p = words::pieces(d, Some('\n'));
        lemma_pieces_some(d);
        if b.last() == '\n' {
            assert((seq![a] + p).push(Seq::<char>::empty()) =~= seq![a] + p.push(
                Seq::<char>::empty(),
            ));
        } else {
            let q = seq![a] + p;
            assert(q.last() == p.last());
            assert(q.drop_last().push(q.last().push(b.last())) =~= seq![a] + p.drop_last().push(
                p.last().push(b.last()),
            ));
        }
    }
}

/// There is always a piece.
proof fn lemma_pieces_some(s: Seq<char>)
    ensures
        words::pieces(s, Some('\n')).len() > 0,
    decreases s.len(),
{
    if s.len() > 0 {
        lemma_pieces_some(s.drop_last());
    }
}

/// Behind the last `=` or `:` stands everything when there is none.
proof fn lemma_undivided(a: Seq<char>, s: Seq<char>)
    requires
        a.len() == 0 || a.last() == '=' || a.last() == ':',
        forall|i: int| 0 <= i < s.len() ==> #[trigger] s[i] != '=' && s[i] != ':',
    ensures
        last_part(a + s) == s,
    decreases s.len(),
{
    if s.len() == 0 {
        assert(a + s =~= a);
        assert(s =~= Seq::<char>::empty());
    } else {
        let d = s.drop_last();
        assert forall|i: int| 0 <= i < d.len() implies #[trigger] d[i] != '=' && d[i] != ':' by {
            assert(d[i] == s[i]);
        }
        lemma_undivided(a, d);
        assert((a + s).drop_last() =~= a + d);
        assert((a + s).last() == s[s.len() - 1]);
        assert(d.push(s.last()) =~= s);
    }
}

/// A text that starts and ends with something is trimmed.
proof fn lemma_trimmed(s: Seq<char>)
    requires
        s.len() > 0,
        !text::is_space(s[0]),
        !text::is_space(s.last()),
    ensures
        text::trimmed(s) == s,
{
    assert(text::trim_start(s) == s);
    assert(text::trim_end(s) == s);
}

/// The heading of a wallet file holds no key.
proof fn lemma_heading_holds_no_key()
    ensures
        line_key("# Inazuma validator wallet \u{2014} keep this file private"@) is None,
{
    let s = "# Inazuma validator wallet \u{2014} keep this file private"@;
    reveal_strlit("# Inazuma validator wallet \u{2014} keep this file private");
    reveal_strlit("export ");
    assert(s.len() == 51);
    lemma_trimmed(s);
    assert(s[0] == '#');
    assert("export "@[0] == 'e');
    assert(unexported(s) == s);
    assert forall|i: int| 0 <= i < s.len() implies #[trigger] s[i] != '=' && s[i] != ':' by {}
    lemma_undivided(Seq::empty(), s);
    assert(Seq::<char>::empty() + s =~= s);
    assert(unquoted_start(s) == s);
    assert(unquoted_end(s) == s);
}

/// The line of a wallet file with its key holds the key.
proof fn lemma_key_line(seed: Seq<u8>)
    requires
        seed.len() == 32,
    ensures
        line_key("export INAZ_KEY='"@ + crypto::hex_text(seed) + "'"@) == Some(
            crypto::hex_text(seed),
        ),
{
    reveal_strlit("export INAZ_KEY='");
    reveal_strlit("export ");
    reveal_strlit("'");
    let k = crypto::hex_text(seed);
    let s = "export INAZ_KEY='"@ + k + "'"@;
    assert forall|i: int| 0 <= i < k.len() implies is_hex(#[trigger] k[i]) by {
        assert(0 <= seed[i / 2] as int / 16 < 16);
        assert(0 <= seed[i / 2] as int % 16 < 16);
    }
    assert(s[0] == 'e' && s.last() == '\'');
    lemma_trimmed(s);
    let t = s.skip(7);
    assert(s.take(7) =~= "export "@);
    assert(t.take(7)[0] == 'I' && "export "@[0] == 'e');
    assert(unexported(t) == t);
    assert(unexported(s) == t);
    let q = "'"@ + k + "'"@;
    let head = s.subrange(7, 16);
    assert(head.last() == '=');
    assert(t =~= head + q);
    assert forall|i: int| 0 <= i < q.len() implies #[trigger] q[i] != '=' && q[i] != ':' by {
        if 0 < i < 65 {
            assert(q[i] == k[i - 1]);
        }
    }
    lemma_undivided(head, q);
    assert(q[0] == '\'' && q.last() == '\'');
    lemma_trimmed(q);
    let r = k + "'"@;
    assert(q.skip(1) =~= r);
    assert(r[0] == k[0]);
    assert(unquoted_start(r) == r);
    assert(unquoted_start(q) == r);
    assert(r.drop_last() =~= k);
    assert(k.last() == k[63]);
    assert(unquoted_end(k) == k);
    assert(unquoted_end(r) == k);
    crypto::lemma_hex_is_plain(seed);
}

/// A wallet file that was written is read back: its secret is the one it was written from.
pub proof fn law_wallet_round_trip(seed: Seq<u8>, address: Seq<char>)
    requires
        seed.len() == 32,
    ensures
        first_key(words::pieces(wallet_text(crypto::hex_text(seed), address), Some('\n'))) == Some(
            crypto::hex_text(seed),
        ),
{
    let k = crypto::hex_text(seed);
    let a = "# Inazuma validator wallet \u{2014} keep this file private"@;
    let b = "export INAZ_KEY='"@ + k + "'"@;
    let c = "export INAZ_ADDRESS='"@ + address + "'\n"@;
    reveal_strlit("# Inazuma validator wallet \u{2014} keep this file private");
    reveal_strlit(
        "# Inazuma validator wallet \u{2014} keep this file private\nexport INAZ_KEY='",
    );
    reveal_strlit("export INAZ_KEY='");
    reveal_strlit("'");
    reveal_strlit("'\nexport INAZ_ADDRESS='");
    reveal_strlit("export INAZ_ADDRESS='");
    let s = wallet_text(k, address);
    let rest = b + seq!['\n'] + c;
    assert(s =~= a + seq!['\n'] + rest);
    assert forall|i: int| 0 <= i < a.len() implies #[trigger] a[i] != '\n' by {}
    assert forall|i: int| 0 <= i < b.len() implies #[trigger] b[i] != '\n' by {
        if 17 <= i < 17 + k.len() {
            assert(b[i] == k[i - 17]);
            assert(0 <= seed[(i - 17) / 2] as int / 16 < 16);
            assert(0 <= seed[(i - 17) / 2] as int % 16 < 16);
        }
    }
    lemma_line_first(a, rest);
    lemma_line_first(b, c);
    let all = words::pieces(s, Some('\n'));
    let after = words::pieces(rest, Some('\n'));
    assert(all[0] == a);
    assert(all.drop_first() =~= after);
    assert(after[0] == b);
    lemma_heading_holds_no_key();
    lemma_key_line(seed);
    assert(first_key(after) == Some(k));
}

// ---------------------------------------------------------------- transactions

/// A transaction before its nonce and signature.
pub struct Draft {
    pub kind: TxKind,
    pub to: String,
    pub amount: u128,
    pub fee: u128,
    pub payload: Option<Payload>,
}

/// Model of a draft.
#[verifier::ext_equal]
pub struct DraftV {
    pub kind: TxKind,
    pub to: Seq<char>,
    pub amount: nat,
    pub fee: nat,
    pub payload: Option<PayloadV>,
}

impl View for Draft {
    type V = DraftV;

    open spec fn view(&self) -> DraftV {
        DraftV {
            kind: self.kind,
            to: self.to@,
            amount: self.amount as nat,
            fee: self.fee as nat,
            payload: types::payload_view(self.payload),
        }
    }
}

/// Whether a result agrees with its model.
pub open spec fn agrees(r: Result<Draft, String>, m: Result<DraftV, Seq<char>>) -> bool {
    match (r, m) {
        (Ok(d), Ok(v)) => d@ == v,
        (Err(e), Err(t)) => e@ == t,
        _ => false,
    }
}

/// An amount of INAZ under a flag, or a default when there is no such flag.
pub open spec fn amount_or(a: Args, name: Seq<char>, default: nat) -> Result<nat, Seq<char>> {
    match a.value(name) {
        Some(v) => text::fixed_value(v, 9),
        None => Ok(default),
    }
}

fn read_amount_or(a: &Args, name: &str, default: u128) -> (r: Result<u128, String>)
    ensures
        match (r, amount_or(*a, name@, default as nat)) {
            (Ok(n), Ok(v)) => n == v,
            (Err(e), Err(t)) => e@ == t,
            _ => false,
        },
{
    match a.get(name) {
        Some(v) => types::parse_inaz(v.as_str()),
        None => Ok(default),
    }
}

/// What `send`, `stake` and `unstake` build.
pub open spec fn moved(a: Args, own: Seq<char>) -> Result<DraftV, Seq<char>> {
    match a.value("amount"@) {
        None => Err("--amount required"@),
        Some(v) => match text::fixed_value(v, 9) {
            Err(e) => Err(e),
            Ok(amount) => if a.cmd@ == "send"@ && a.value("to"@) is None {
                Err("--to required"@)
            } else {
                match amount_or(a, "fee"@, types::MIN_FEE as nat) {
                    Err(e) => Err(e),
                    Ok(fee) => Ok(
                        DraftV {
                            kind: if a.cmd@ == "stake"@ {
                                TxKind::Stake
                            } else if a.cmd@ == "unstake"@ {
                                TxKind::Unstake
                            } else {
                                TxKind::Transfer
                            },
                            to: if a.cmd@ == "send"@ {
                                a.value("to"@)->Some_0
                            } else {
                                own
                            },
                            amount,
                            fee,
                            payload: None,
                        },
                    ),
                }
            },
        },
    }
}

/// Builds what `send`, `stake` and `unstake` submit.
pub fn draft_move(a: &Args, own: &str) -> (r: Result<Draft, String>)
    ensures
        agrees(r, moved(*a, own@)),
{
    let v = match a.required("amount", "--amount required") {
        Ok(v) => v,
        Err(e) => {
            return Err(e);
        },
    };
    let amount = match types::parse_inaz(v.as_str()) {
        Ok(n) => n,
        Err(e) => {
            return Err(e);
        },
    };
    let to = if text::same(a.cmd.as_str(), "send") {
        match a.required("to", "--to required") {
            Ok(t) => t,
            Err(e) => {
                return Err(e);
            },
        }
    } else {
        text::copy(own)
    };
    let fee = match read_amount_or(a, "fee", types::MIN_FEE) {
        Ok(n) => n,
        Err(e) => {
            return Err(e);
        },
    };
    let kind = if text::same(a.cmd.as_str(), "stake") {
        TxKind::Stake
    } else if text::same(a.cmd.as_str(), "unstake") {
        TxKind::Unstake
    } else {
        TxKind::Transfer
    };
    Ok(Draft { kind, to, amount, fee, payload: None })
}

/// Builds what `unjail` submits.
pub fn draft_unjail(a: &Args, own: &str) -> (r: Result<Draft, String>)
    ensures
        agrees(
            r,
            match amount_or(*a, "fee"@, types::MIN_FEE as nat) {
                Err(e) => Err(e),
                Ok(fee) => Ok(
                    (DraftV { kind: TxKind::Unjail, to: own@, amount: 0, fee, payload: None }),
                ),
            },
        ),
{
    let fee = match read_amount_or(a, "fee", types::MIN_FEE) {
        Ok(n) => n,
        Err(e) => {
            return Err(e);
        },
    };
    Ok(Draft { kind: TxKind::Unjail, to: text::copy(own), amount: 0, fee, payload: None })
}

/// Builds what `exit` submits: the whole stake is unbonded at once.
pub fn draft_exit(staked: u128, own: &str) -> (r: Result<Draft, String>)
    ensures
        agrees(
            r,
            if staked == 0 {
                Err("nothing staked on this account"@)
            } else {
                Ok(
                    (DraftV {
                        kind: TxKind::Unstake,
                        to: own@,
                        amount: staked as nat,
                        fee: types::MIN_FEE as nat,
                        payload: None,
                    }),
                )
            },
        ),
{
    if staked == 0 {
        return Err(text::copy("nothing staked on this account"));
    }
    Ok(
        Draft {
            kind: TxKind::Unstake,
            to: text::copy(own),
            amount: staked,
            fee: types::MIN_FEE,
            payload: None,
        },
    )
}

/// A payload with nothing in it.
pub open spec fn blank() -> PayloadV {
    PayloadV {
        token: Seq::empty(),
        symbol: Seq::empty(),
        name: Seq::empty(),
        decimals: 0,
        mintable: false,
        code: Seq::empty(),
        args: Seq::empty(),
    }
}

/// Decimals of a token to be created: nine unless a flag holds a number that fits.
pub open spec fn decimals_of(a: Args) -> u8 {
    match a.value("decimals"@) {
        Some(v) => match text::parsed_upto(v, u8::MAX as nat) {
            Some(n) => n as u8,
            None => 9,
        },
        None => 9,
    }
}

/// Reads the decimals of a token to be created.
pub fn token_decimals(a: &Args) -> (r: u8)
    ensures
        r == decimals_of(*a),
{
    match a.get("decimals") {
        Some(v) => match text::parse_u64(v.as_str()) {
            Some(n) => if n <= 255 {
                n as u8
            } else {
                9
            },
            None => 9,
        },
        None => 9,
    }
}

/// What `token-create` builds.
pub open spec fn created(a: Args, own: Seq<char>) -> Result<DraftV, Seq<char>> {
    match amount_or(a, "fee"@, types::MIN_FEE as nat) {
        Err(e) => Err(e),
        Ok(fee) => match a.value("symbol"@) {
            None => Err("--symbol required"@),
            Some(raw) => match tokens::symbol_of(raw) {
                Err(e) => Err(e),
                Ok(symbol) => match text::fixed_value(
                    match a.value("supply"@) {
                        Some(s) => s,
                        None => "0"@,
                    },
                    decimals_of(a) as nat,
                ) {
                    Err(e) => Err(e),
                    Ok(supply) => Ok(
                        DraftV {
                            kind: TxKind::CreateToken,
                            to: own,
                            amount: supply,
                            fee,
                            payload: Some(
                                PayloadV {
                                    symbol,
                                    name: match a.value("name"@) {
                                        Some(n) => n,
                                        None => symbol,
                                    },
                                    decimals: decimals_of(a),
                                    mintable: a.value("mintable"@) is Some && a.value("mintable"@)
                                        != Some("false"@),
                                    ..blank()
                                },
                            ),
                        },
                    ),
                },
            },
        },
    }
}

/// Builds what `token-create` submits.
pub fn draft_token_create(a: &Args, own: &str) -> (r: Result<Draft, String>)
    ensures
        agrees(r, created(*a, own@)),
{
    let fee = match read_amount_or(a, "fee", types::MIN_FEE) {
        Ok(n) => n,
        Err(e) => {
            return Err(e);
        },
    };
    let raw = match a.required("symbol", "--symbol required") {
        Ok(s) => s,
        Err(e) => {
            return Err(e);
        },
    };
    let symbol = match tokens::normalize_symbol(raw.as_str()) {
        Ok(s) => s,
        Err(e) => {
            return Err(e);
        },
    };
    let decimals = token_decimals(a);
    let supply_text = a.get_or("supply", "0");
    let supply = match tokens::parse_units(supply_text.as_str(), decimals) {
        Ok(n) => n,
        Err(e) => {
            return Err(e);
        },
    };
    let name = match a.get("name") {
        Some(n) => n,
        None => symbol.clone(),
    };
    let mintable = match a.get("mintable") {
        Some(v) => !text::same(v.as_str(), "false"),
        None => false,
    };
    let blank_payload = Payload::default();
    let p = Payload {
        token: blank_payload.token,
        symbol,
        name,
        decimals,
        mintable,
        code: blank_payload.code,
        args: blank_payload.args,
    };
    Ok(
        Draft {
            kind: TxKind::CreateToken,
            to: text::copy(own),
            amount: supply,
            fee,
            payload: Some(p),
        },
    )
}

/// What `token-mint`, `token-send` and `token-burn` build, given the decimals of the token.
pub open spec fn token_moved(a: Args, own: Seq<char>, decimals: nat) -> Result<
    DraftV,
    Seq<char>,
> {
    match amount_or(a, "fee"@, types::MIN_FEE as nat) {
        Err(e) => Err(e),
        Ok(fee) => match (a.value("token"@), a.value("amount"@)) {
            (None, _) => Err("--token required"@),
            (_, None) => Err("--amount required"@),
            (Some(token), Some(v)) => match text::fixed_value(v, decimals) {
                Err(e) => Err(e),
                Ok(amount) => if a.cmd@ != "token-burn"@ && a.value("to"@) is None {
                    Err("--to required"@)
                } else {
                    Ok(
                        DraftV {
                            kind: if a.cmd@ == "token-mint"@ {
                                TxKind::MintToken
                            } else if a.cmd@ == "token-burn"@ {
                                TxKind::BurnToken
                            } else {
                                TxKind::TokenTransfer
                            },
                            to: if a.cmd@ == "token-burn"@ {
                                own
                            } else {
                                a.value("to"@)->Some_0
                            },
                            amount,
                            fee,
                            payload: Some(PayloadV { token, ..blank() }),
                        },
                    )
                },
            },
        },
    }
}

/// Builds what `token-mint`, `token-send` and `token-burn` submit.
pub fn draft_token_move(a: &Args, own: &str, decimals: u8) -> (r: Result<Draft, String>)
    ensures
        agrees(r, token_moved(*a, own@, decimals as nat)),
{
    let fee = match read_amount_or(a, "fee", types::MIN_FEE) {
        Ok(n) => n,
        Err(e) => {
            return Err(e);
        },
    };
    let token = match a.required("token", "--token required") {
        Ok(t) => t,
        Err(e) => {
            return Err(e);
        },
    };
    let v = match a.required("amount", "--amount required") {
        Ok(v) => v,
        Err(e) => {
            return Err(e);
        },
    };
    let amount = match tokens::parse_units(v.as_str(), decimals) {
        Ok(n) => n,
        Err(e) => {
            return Err(e);
        },
    };
    let burn = text::same(a.cmd.as_str(), "token-burn");
    let to = if burn {
        text::copy(own)
    } else {
        match a.required("to", "--to required") {
            Ok(t) => t,
            Err(e) => {
                return Err(e);
            },
        }
    };
    let kind = if text::same(a.cmd.as_str(), "token-mint") {
        TxKind::MintToken
    } else if burn {
        TxKind::BurnToken
    } else {
        TxKind::TokenTransfer
    };
    let blank_payload = Payload::default();
    let p = Payload {
        token,
        symbol: blank_payload.symbol,
        name: blank_payload.name,
        decimals: 0,
        mintable: false,
        code: blank_payload.code,
        args: blank_payload.args,
    };
    Ok(Draft { kind, to, amount, fee, payload: Some(p) })
}

/// Fee of a contract transaction unless a flag says otherwise.
pub const CONTRACT_FEE: u128 = types::MIN_FEE * 200;

/// What `deploy`, with bytecode, and `call`, without, build.
pub open spec fn contracted(a: Args, own: Seq<char>, code: Option<Seq<u8>>) -> Result<
    DraftV,
    Seq<char>,
> {
    match (amount_or(a, "value"@, 0), amount_or(a, "fee"@, CONTRACT_FEE as nat)) {
        (Err(e), _) => Err(e),
        (_, Err(e)) => Err(e),
        (Ok(amount), Ok(fee)) => match code {
            Some(c) => Ok(
                DraftV {
                    kind: TxKind::DeployContract,
                    to: own,
                    amount,
                    fee,
                    payload: Some(PayloadV { code: crypto::hex_text(c), ..blank() }),
                },
            ),
            None => match a.value("contract"@) {
                None => Err("--contract ADDR required"@),
                Some(to) => Ok(
                    DraftV {
                        kind: TxKind::CallContract,
                        to,
                        amount,
                        fee,
                        payload: Some(
                            PayloadV {
                                args: match a.value("args"@) {
                                    Some(x) => x,
                                    None => ""@,
                                },
                                ..blank()
                            },
                        ),
                    },
                ),
            },
        },
    }
}

/// Builds what `deploy`, with bytecode, and `call`, without, submit.
pub fn draft_contract(a: &Args, own: &str, code: Option<Vec<u8>>) -> (r: Result<Draft, String>)
    ensures
        agrees(
            r,
            contracted(
                *a,
                own@,
                match code {
                    Some(c) => Some(c@),
                    None => None,
                },
            ),
        ),
{
    let amount = match read_amount_or(a, "value", 0) {
        Ok(n) => n,
        Err(e) => {
            return Err(e);
        },
    };
    let fee = match read_amount_or(a, "fee", CONTRACT_FEE) {
        Ok(n) => n,
        Err(e) => {
            return Err(e);
        },
    };
    let mut p = Payload::default();
    match code {
        Some(c) => {
            p.code = crypto::to_hex(c.as_slice());
            Ok(
                Draft {
                    kind: TxKind::DeployContract,
                    to: text::copy(own),
                    amount,
                    fee,
                    payload: Some(p),
                },
            )
        },
        None => {
            let to = match a.required("contract", "--contract ADDR required") {
                Ok(t) => t,
                Err(e) => {
                    return Err(e);
                },
            };
            p.args = a.get_or("args", "");
            Ok(Draft { kind: TxKind::CallContract, to, amount, fee, payload: Some(p) })
        },
    }
}

/// A draft with a nonce, before it is signed.
pub open spec fn unsigned(d: DraftV, public: Seq<u8>, nonce: u64, chain_id: u64) -> TxV {
    TxV {
        kind: d.kind,
        from_pubkey: crypto::hex_text(public),
        to: d.to,
        amount: d.amount as u128,
        fee: d.fee as u128,
        nonce,
        chain_id,
        payload: d.payload,
        shielded: None,
        signature: ""@,
    }
}

/// Signs a draft.
pub fn sign_draft(kp: &Keypair, d: Draft, nonce: u64, chain_id: u64) -> (r: Transaction)
    ensures
        ({
            let t = unsigned(d@, kp.public(), nonce, chain_id);
            r@ == (TxV {
                signature: crypto::hex_text(
                    crypto::ed25519_signature(kp.seed@, text::utf8(t.signing_text())),
                ),
                ..t
            })
        }),
        r@.unambiguous() && !r@.kind.of_pool() ==> r@.signed(),
{
    let ghost dv = d@;
    let mut tx = Transaction {
        kind: d.kind,
        from_pubkey: kp.pubkey_hex(),
        to: d.to,
        amount: d.amount,
        fee: d.fee,
        nonce,
        chain_id,
        payload: d.payload,
        shielded: None,
        signature: text::copy(""),
    };
    let ghost t = tx@;
    assert(t =~= unsigned(dv, kp.public(), nonce, chain_id));
    let bytes = tx.signing_bytes();
    tx.signature = kp.sign_hex(bytes.as_slice());
    assert(tx@ =~= TxV { signature: tx.signature@, ..t });
    assert(tx@.signing_text() == t.signing_text());
    tx
}

// ---------------------------------------------------------------- contract files

/// What `wat` makes of the bytes of a contract file: bytecode, or what is wrong with them.
pub uninterp spec fn wat_of(raw: Seq<u8>) -> Result<Seq<u8>, Seq<char>>;

/// Bytes that begin as bytecode does.
pub open spec fn is_bytecode(raw: Seq<u8>) -> bool {
    raw.len() >= 4 && raw.take(4) == seq![0u8, 97, 115, 109]
}

/// `wat::parse_bytes`, by name: the bytecode of a module in its text form, or the message
/// of the error. Bytes that begin as bytecode does are handed back.
#[verifier::external_body]
fn wat_parse(raw: &[u8]) -> (r: Result<Vec<u8>, String>)
    ensures
        contracts::agrees_bytes(r, wat_of(raw@)),
        is_bytecode(raw@) ==> contracts::agrees_bytes(r, Ok(raw@)),
{
    wat::parse_bytes(raw).map(|b| b.to_vec()).map_err(|e| e.to_string())
}

/// The bytecode of an assembled contract, or what was wrong with its text.
pub open spec fn assembled(made: Result<Seq<u8>, Seq<char>>) -> Result<Seq<u8>, Seq<char>> {
    match made {
        Ok(b) => Ok(b),
        Err(e) => Err("bad wat: "@ + e),
    }
}

/// The bytecode in a contract file: a file whose name says that it is text is assembled.
pub open spec fn code_of(path: Seq<char>, raw: Seq<u8>) -> Result<Seq<u8>, Seq<char>> {
    if words::ends(path, ".wat"@) {
        assembled(wat_of(raw))
    } else {
        Ok(raw)
    }
}

/// Reports what came of assembling a contract.
pub fn assembly(made: Result<Vec<u8>, String>) -> (r: Result<Vec<u8>, String>)
    ensures
        contracts::agrees_bytes(
            r,
            assembled(
                match made {
                    Ok(b) => Ok(b@),
                    Err(e) => Err(e@),
                },
            ),
        ),
{
    match made {
        Ok(b) => Ok(b),
        Err(e) => {
            let mut m = text::copy("bad wat: ");
            m.append(e.as_str());
            Err(m)
        },
    }
}

/// Reads the bytecode in a contract file. Text is assembled here, so only bytecode is ever
/// submitted.
pub fn bytecode(path: &str, raw: Vec<u8>) -> (r: Result<Vec<u8>, String>)
    ensures
        contracts::agrees_bytes(r, code_of(path@, raw@)),
{
    if words::ends_with(path, ".wat") {
        assembly(wat_parse(raw.as_slice()))
    } else {
        Ok(raw)
    }
}

// ---------------------------------------------------------------- replies of a node

/// The error a reply reports, if it reports one.
pub open spec fn reported_error(raw: Seq<u8>) -> Option<Seq<char>> {
    if json::json_present(raw, "/error"@) {
        match json::json_text_at(raw, "/error/message"@) {
            Some(m) => Some(m),
            None => Some("rpc error"@),
        }
    } else {
        None
    }
}

/// Reads the error a reply reports, if it reports one.
pub fn reply_error(raw: &[u8]) -> (r: Option<String>)
    ensures
        match r {
            Some(e) => reported_error(raw@) == Some(e@),
            None => reported_error(raw@) is None,
        },
{
    if json::present_at(raw, "/error") {
        match json::text_at(raw, "/error/message") {
            Some(m) => Some(m),
            None => Some(text::copy("rpc error")),
        }
    } else {
        None
    }
}

/// Verdict on a reply: it has to be a document that reports no error.
pub open spec fn reply_verdict(endpoint: Seq<char>, raw: Seq<u8>) -> Result<(), Seq<char>> {
    match json::json_fault(raw) {
        Some(e) => Err("bad JSON response from "@ + endpoint + ": "@ + e),
        None => match reported_error(raw) {
            Some(e) => Err(e),
            None => Ok(()),
        },
    }
}

/// Checks a reply of a node.
pub fn check_reply(endpoint: &str, raw: &[u8]) -> (r: Result<(), String>)
    ensures
        state::agrees(r, reply_verdict(endpoint@, raw@)),
{
    match json::fault_in(raw) {
        Some(e) => {
            let mut m = text::copy("bad JSON response from ");
            m.append(endpoint);
            m.append(": ");
            m.append(e.as_str());
            Err(m)
        },
        None => match reply_error(raw) {
            Some(e) => Err(e),
            None => Ok(()),
        },
    }
}

/// The decimals of a reported token, as many as fit a byte.
pub open spec fn reported_decimals(raw: Seq<u8>) -> u8 {
    match json::json_number_at(raw, "/result/decimals"@) {
        Some(n) => (n % 256) as u8,
        None => 9,
    }
}

/// Reads the decimals of a reported token from the answer of a node.
pub fn reply_decimals(raw: &[u8]) -> (r: u8)
    ensures
        r == reported_decimals(raw@),
{
    match json::number_at(raw, "/result/decimals") {
        Some(n) => (n % 256) as u8,
        None => 9,
    }
}

/// Checks that a file with evidence is a document.
pub fn check_evidence_file(raw: &[u8]) -> (r: Result<(), String>)
    ensures
        match json::json_fault(raw@) {
            Some(e) => r matches Err(m) && m@ == "bad evidence file: "@ + e,
            None => r is Ok,
        },
{
    match json::fault_in(raw) {
        Some(e) => {
            let mut m = text::copy("bad evidence file: ");
            m.append(e.as_str());
            Err(m)
        },
        None => Ok(()),
    }
}

/// The nonce a reported account uses next.
pub open spec fn reported_nonce(raw: Seq<u8>) -> u64 {
    match json::json_number_at(raw, "/result/pendingNonce"@) {
        Some(n) => n,
        None => match json::json_number_at(raw, "/result/nonce"@) {
            Some(n) => n,
            None => 0,
        },
    }
}

/// Reads the nonce a reported account uses next from the answer of a node.
pub fn account_nonce(raw: &[u8]) -> (r: u64)
    ensures
        r == reported_nonce(raw@),
{
    match json::number_at(raw, "/result/pendingNonce") {
        Some(n) => n,
        None => match json::number_at(raw, "/result/nonce") {
            Some(n) => n,
            None => 0,
        },
    }
}

/// The stake of a reported account, a number or a text of digits.
pub open spec fn reported_stake(raw: Seq<u8>) -> nat {
    match json::json_number_at(raw, "/result/staked"@) {
        Some(n) => n as nat,
        None => match json::json_text_at(raw, "/result/staked"@) {
            Some(t) => match text::parsed_upto(t, u128::MAX as nat) {
                Some(n) => n,
                None => 0,
            },
            None => 0,
        },
    }
}

/// Reads the stake of a reported account from the answer of a node.
pub fn account_stake(raw: &[u8]) -> (r: u128)
    ensures
        r == reported_stake(raw@),
{
    match json::number_at(raw, "/result/staked") {
        Some(n) => n as u128,
        None => match json::text_at(raw, "/result/staked") {
            Some(t) => match text::parse_u128(t.as_str()) {
                Some(n) => n,
                None => 0,
            },
            None => 0,
        },
    }
}

/// The transaction by which a node's own validator leaves a jail that is over.
pub open spec fn rejoining(n: NodeV) -> Option<TxV> {
    let h = staking::next_height(n.db);
    if slashing::unjailed(n.db, h, n.address()) is Ok {
        let t = unsigned(
            DraftV {
                kind: TxKind::Unjail,
                to: n.address(),
                amount: 0,
                fee: n.floor(),
                payload: None,
            },
            n.public(),
            chain::own_nonce(n),
            n.chain_id,
        );
        Some(
            TxV {
                signature: crypto::hex_text(
                    crypto::ed25519_signature(n.seed, text::utf8(t.signing_text())),
                ),
                ..t
            },
        )
    } else {
        None
    }
}

/// Builds the transaction by which a node's own validator leaves a jail that is over.
pub fn self_unjail(node: &Node) -> (r: Option<Transaction>)
    requires
        node.wf(),
    ensures
        match r {
            Some(t) => rejoining(node@) == Some(t@),
            None => rejoining(node@) is None,
        },
{
    let own = node.producer.address();
    let height = staking::upcoming(&node.store);
    let account = node.store.account(own.as_str());
    if account.penalties.tombstoned || account.penalties.jailed_until == 0
        || account.penalties.jailed_until > height {
        return None;
    }
    let nonce = node.pending_nonce(own.as_str());
    let d = Draft {
        kind: TxKind::Unjail,
        to: own,
        amount: 0,
        fee: node.fee_floor(),
        payload: None,
    };
    Some(sign_draft(&node.producer, d, nonce, node.genesis.chain_id))
}

// ---------------------------------------------------------------- where keys come from

/// A secret given by a variable: 64 bytes but for white space around them.
pub open spec fn given_secret(v: Seq<char>) -> Option<Seq<char>> {
    if text::utf8(text::trimmed(v)).len() == 64 {
        Some(text::trimmed(v))
    } else {
        None
    }
}

/// Reads a secret given by a variable.
pub fn variable_secret(v: &str) -> (r: Option<String>)
    ensures
        contracts::text_view(r) == given_secret(v@),
{
    let t = text::trim(v);
    let n: usize = text::bytes_of(t.as_str()).len();
    if n == 64 {
        Some(t)
    } else {
        None
    }
}

/// Where the operator's wallet lies: where a variable says, else in the home directory.
pub fn wallet_path(variable: Option<String>, home: Option<String>) -> (r: String)
    ensures
        r@ == match (variable, home) {
            (Some(p), _) => p@,
            (None, Some(h)) => h@ + "/.inazuma/validator.env"@,
            (None, None) => "."@ + "/.inazuma/validator.env"@,
        },
{
    match variable {
        Some(p) => p,
        None => {
            let mut p = match home {
                Some(h) => h,
                None => text::copy("."),
            };
            p.append("/.inazuma/validator.env");
            p
        },
    }
}

/// Where the key of a node lies: beside its data directory.
pub fn nodekey_path(data: &str) -> (r: String)
    ensures
        r@ == words::end_stripped(data@, '/') + ".nodekey"@,
{
    let mut p = words::strip_end(data, '/');
    p.append(".nodekey");
    p
}

/// The key a node produces with, of those it was given: a flag, the wallet, a variable.
/// Empty flags and blank variables give none.
pub open spec fn chosen_key(
    flag: Option<Seq<char>>,
    wallet: Option<Seq<char>>,
    variable: Option<Seq<char>>,
) -> Option<Seq<char>> {
    if flag is Some && flag->Some_0.len() > 0 {
        flag
    } else if wallet is Some {
        wallet
    } else if variable is Some && text::trimmed(variable->Some_0).len() > 0 {
        variable
    } else {
        None
    }
}

/// Chooses the key a node produces with. Without any the node has one of its own.
pub fn choose_key(
    flag: Option<String>,
    wallet: Option<String>,
    variable: Option<String>,
) -> (r: Option<String>)
    ensures
        contracts::text_view(r) == chosen_key(
            contracts::text_view(flag),
            contracts::text_view(wallet),
            contracts::text_view(variable),
        ),
{
    match flag {
        Some(k) => {
            if text::chars_of(k.as_str()).len() > 0 {
                return Some(k);
            }
        },
        None => {},
    }
    match wallet {
        Some(k) => {
            return Some(k);
        },
        None => {},
    }
    match variable {
        Some(k) => {
            if text::chars_of(text::trim(k.as_str()).as_str()).len() > 0 {
                Some(k)
            } else {
                None
            }
        },
        None => None,
    }
}

// ---------------------------------------------------------------- comparing with the network

/// The public endpoint of the network.
pub const PUBLIC_RPC: &'static str = "https://rpc.inazuma.network";

/// The endpoint a node's height is compared with. Asking it tells it that the node exists,
/// so nothing is asked unless a flag or a variable says so.
pub open spec fn compared_with(
    flag: Option<Seq<char>>,
    variable: Option<Seq<char>>,
) -> Option<Seq<char>> {
    if flag is Some || (variable is Some && variable->Some_0 != "0"@) {
        Some(
            if flag is Some && words::starts(flag->Some_0, "http"@) {
                flag->Some_0
            } else {
                PUBLIC_RPC@
            },
        )
    } else {
        None
    }
}

/// Decides which endpoint a node's height is compared with, if any.
pub fn compare_with(a: &Args, variable: Option<&str>) -> (r: Option<String>)
    ensures
        contracts::text_view(r) == compared_with(
            a.value("compare"@),
            match variable {
                Some(v) => Some(v@),
                None => None,
            },
        ),
{
    let asked = match variable {
        Some(v) => !text::same(v, "0"),
        None => false,
    };
    match a.get("compare") {
        Some(v) => {
            if words::after(v.as_str(), "http").is_some() {
                Some(v)
            } else {
                Some(text::copy(PUBLIC_RPC))
            }
        },
        None => {
            if asked {
                Some(text::copy(PUBLIC_RPC))
            } else {
                None
            }
        },
    }
}

/// How far a node is behind another that is not itself and has blocks.
pub open spec fn lag_of(url: Seq<char>, remote: Seq<char>, tip: u64, height: u64) -> Option<u64> {
    if tip == 0 || words::holds(url, words::start_stripped(remote, "https://"@)) {
        None
    } else if tip > height {
        Some((tip - height) as u64)
    } else {
        Some(0)
    }
}

/// Tells how far a node is behind another.
pub fn network_lag(url: &str, remote: &str, tip: u64, height: u64) -> (r: Option<u64>)
    ensures
        r == lag_of(url@, remote@, tip, height),
{
    proof {
        reveal_strlit("https://");
    }
    let host = words::strip_start(remote, "https://");
    if tip == 0 || words::contains(url, host.as_str()) {
        None
    } else {
        Some(tip.saturating_sub(height))
    }
}

// ---------------------------------------------------------------- throughput

/// How many transactions of a measurement were executed, once it is over: everything
/// accepted is on chain and nothing waits, or its time is up.
pub open spec fn measured(
    before: u64,
    total: u64,
    accepted: u64,
    queued: u64,
    late: bool,
) -> Option<u64> {
    let done = if total > before {
        (total - before) as u64
    } else {
        0
    };
    if (done >= accepted && queued == 0) || late {
        Some(done)
    } else {
        None
    }
}

/// Tells whether a measurement is over, and what it came to.
pub fn measure(before: u64, total: u64, accepted: u64, queued: u64, late: bool) -> (r: Option<u64>)
    ensures
        r == measured(before, total, accepted, queued, late),
{
    let done = total.saturating_sub(before);
    if (done >= accepted && queued == 0) || late {
        Some(done)
    } else {
        None
    }
}

} // verus!
