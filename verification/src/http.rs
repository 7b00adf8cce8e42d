//! The request side of the HTTP and WebSocket endpoints: heads, credentials, the admission
//! of calls, and response heads.

use crate::contracts;
use crate::journal::Db;
use crate::qos;
use crate::rpcauth;
use crate::rpcauth::ConfigV;
use crate::rpcauth::RpcConfig;
use crate::rpcauth::Tier;
use crate::state::Store;
use crate::text;
use crate::types;
use crate::words;
use vstd::prelude::*;
use vstd::string::*;

verus! {

/// Live connections of the endpoint.
pub const RPC_MAX_LIVE_CONNS: usize = 512;

/// Live connections of one host.
pub const RPC_MAX_CONNS_PER_IP: usize = 32;

/// Largest request, in bytes.
pub const RPC_MAX_BODY: usize = 4_194_304;

/// A head ends at a place: an empty line.
pub open spec fn ends_at(buf: Seq<u8>, i: int) -> bool {
    &&& 0 <= i
    &&& i + 4 <= buf.len()
    &&& buf[i] == 13
    &&& buf[i + 1] == 10
    &&& buf[i + 2] == 13
    &&& buf[i + 3] == 10
}

/// Where the head of a request ends: before the first empty line.
pub fn find_header_end(buf: &[u8]) -> (r: Option<usize>)
    ensures
        match r {
            Some(i) => ends_at(buf@, i as int) && forall|j: int|
                0 <= j < i ==> !#[trigger] ends_at(buf@, j),
            None => forall|j: int| !#[trigger] ends_at(buf@, j),
        },
{
    let n: usize = buf.len();
    if n < 4 {
        return None;
    }
    let mut i: usize = 0;
    while i <= n - 4
        invariant
            n == buf@.len(),
            n >= 4,
            i <= n - 3,
            forall|j: int| 0 <= j < i ==> !#[trigger] ends_at(buf@, j),
        decreases n - i,
    {
        if buf[i] == 13 && buf[i + 1] == 10 && buf[i + 2] == 13 && buf[i + 3] == 10 {
            return Some(i);
        }
        i = i + 1;
    }
    None
}

// ---------------------------------------------------------------- header lines

/// What a header line says.
pub enum Header {
    Length(u64),
    Credential(String),
    Forwarded(String),
    SocketKey(String),
    Other,
}

/// Model of what a header line says.
pub enum HeaderV {
    Length(u64),
    Credential(Seq<char>),
    Forwarded(Seq<char>),
    SocketKey(Seq<char>),
    Other,
}

impl View for Header {
    type V = HeaderV;

    open spec fn view(&self) -> HeaderV {
        match self {
            Header::Length(n) => HeaderV::Length(*n),
            Header::Credential(t) => HeaderV::Credential(t@),
            Header::Forwarded(t) => HeaderV::Forwarded(t@),
            Header::SocketKey(t) => HeaderV::SocketKey(t@),
            Header::Other => HeaderV::Other,
        }
    }
}

/// The value of a header line: what stands behind the first colon.
pub open spec fn value_of(line: Seq<char>) -> Seq<char> {
    match text::split_once_spec(line, ':') {
        Some((_, v)) => text::trimmed(v),
        None => text::trimmed(line),
    }
}

/// A token without the word it is introduced by.
pub open spec fn bearer(v: Seq<char>) -> Seq<char> {
    if words::starts(v, "Bearer "@) {
        v.skip("Bearer "@.len() as int)
    } else if words::starts(v, "bearer "@) {
        v.skip("bearer "@.len() as int)
    } else {
        v
    }
}

/// What a header line says. Names are read without case, values with it; the forwarding
/// header counts only when the proxy is trusted.
pub open spec fn header_of(line: Seq<char>, trust_proxy: bool) -> HeaderV {
    let lower = text::ascii_lower_spec(line);
    if words::starts(lower, "content-length:"@) {
        HeaderV::Length(
            match text::parsed_upto(
                text::trimmed(lower.skip("content-length:"@.len() as int)),
                u64::MAX as nat,
            ) {
                Some(n) => n as u64,
                None => 0,
            },
        )
    } else if words::starts(lower, "authorization:"@) {
        if bearer(value_of(line)).len() == 0 {
            HeaderV::Other
        } else {
            HeaderV::Credential(bearer(value_of(line)))
        }
    } else if words::starts(lower, "x-api-key:"@) {
        if value_of(line).len() == 0 {
            HeaderV::Other
        } else {
            HeaderV::Credential(value_of(line))
        }
    } else if words::starts(lower, "x-forwarded-for:"@) && trust_proxy {
        HeaderV::Forwarded(text::trimmed(words::pieces(value_of(line), Some(','))[0]))
    } else if words::starts(lower, "sec-websocket-key:"@) {
        HeaderV::SocketKey(value_of(line))
    } else {
        HeaderV::Other
    }
}

fn read_value(line: &str) -> (r: String)
    ensures
        r@ == value_of(line@),
{
    match text::split_once(line, ':') {
        Some((_, v)) => text::trim(v.as_str()),
        None => text::trim(line),
    }
}

fn read_bearer(v: String) -> (r: String)
    ensures
        r@ == bearer(v@),
{
    match words::after(v.as_str(), "Bearer ") {
        Some(t) => t,
        None => match words::after(v.as_str(), "bearer ") {
            Some(t) => t,
            None => v,
        },
    }
}

/// Reads a header line.
pub fn read_header(line: &str, trust_proxy: bool) -> (r: Header)
    ensures
        r@ == header_of(line@, trust_proxy),
{
    let lower = text::ascii_lower(line);
    match words::after(lower.as_str(), "content-length:") {
        Some(v) => {
            let t = text::trim(v.as_str());
            return Header::Length(
                match text::parse_u64(t.as_str()) {
                    Some(n) => n,
                    None => 0,
                },
            );
        },
        None => {},
    }
    if words::after(lower.as_str(), "authorization:").is_some() {
        let t = read_bearer(read_value(line));
        if t.as_str().is_empty() {
            return Header::Other;
        }
        return Header::Credential(t);
    }
    if words::after(lower.as_str(), "x-api-key:").is_some() {
        let t = read_value(line);
        if t.as_str().is_empty() {
            return Header::Other;
        }
        return Header::Credential(t);
    }
    if words::after(lower.as_str(), "x-forwarded-for:").is_some() && trust_proxy {
        let v = read_value(line);
        let parts = words::split(v.as_str(), Some(','));
        proof {
            words::lemma_pieces_some(v@, Some(','));
            assert(types::texts(parts@)[0] == parts@[0]@);
        }
        return Header::Forwarded(text::trim(parts[0].as_str()));
    }
    if words::after(lower.as_str(), "sec-websocket-key:").is_some() {
        return Header::SocketKey(read_value(line));
    }
    Header::Other
}

// ---------------------------------------------------------------- heads

/// The head of a request.
pub struct Head {
    pub method: String,
    pub path: String,
    pub content_length: u64,
    pub credential: Option<String>,
    /// The host a trusted proxy named.
    pub forwarded: Option<String>,
    /// The key of a WebSocket handshake.
    pub socket_key: Option<String>,
}

/// Model of the head of a request.
#[verifier::ext_equal]
pub struct HeadV {
    pub method: Seq<char>,
    pub path: Seq<char>,
    pub content_length: u64,
    pub credential: Option<Seq<char>>,
    pub forwarded: Option<Seq<char>>,
    pub socket_key: Option<Seq<char>>,
}

impl View for Head {
    type V = HeadV;

    open spec fn view(&self) -> HeadV {
        HeadV {
            method: self.method@,
            path: self.path@,
            content_length: self.content_length,
            credential: contracts::text_view(self.credential),
            forwarded: contracts::text_view(self.forwarded),
            socket_key: contracts::text_view(self.socket_key),
        }
    }
}

/// A line without the carriage return at its end.
pub open spec fn line_of(p: Seq<char>) -> Seq<char> {
    if p.len() > 0 && p.last() == '\r' {
        p.drop_last()
    } else {
        p
    }
}

/// The head a request line starts.
pub open spec fn opened(line: Seq<char>) -> HeadV {
    let w = words::words(line);
    HeadV {
        method: if w.len() > 0 {
            w[0]
        } else {
            ""@
        },
        path: if w.len() > 1 {
            w[1]
        } else {
            "/"@
        },
        content_length: 0,
        credential: None,
        forwarded: None,
        socket_key: None,
    }
}

/// A head with one more header line.
pub open spec fn continued(h: HeadV, line: Seq<char>, trust_proxy: bool) -> HeadV {
    match header_of(line, trust_proxy) {
        HeaderV::Length(n) => HeadV { content_length: n, ..h },
        HeaderV::Credential(t) => HeadV { credential: Some(t), ..h },
        HeaderV::Forwarded(t) => HeadV { forwarded: Some(t), ..h },
        HeaderV::SocketKey(t) => HeadV { socket_key: Some(t), ..h },
        HeaderV::Other => h,
    }
}

/// The head lines make up: the request line, then header lines; a later one wins.
pub open spec fn head_of(lines: Seq<Seq<char>>, trust_proxy: bool) -> HeadV
    decreases lines.len(),
{
    if lines.len() <= 1 {
        opened(
            if lines.len() == 1 {
                line_of(lines[0])
            } else {
                ""@
            },
        )
    } else {
        continued(head_of(lines.drop_last(), trust_proxy), line_of(lines.last()), trust_proxy)
    }
}

fn cut_line(p: &String) -> (r: String)
    ensures
        r@ == line_of(p@),
{
    let v = text::chars_of(p.as_str());
    let n: usize = v.len();
    if n > 0 && v[n - 1] == '\r' {
        let r = text::text_range(&v, 0, n - 1);
        assert(r@ =~= p@.drop_last());
        r
    } else {
        p.clone()
    }
}

fn open_head(line: &str) -> (r: Head)
    ensures
        r@ == opened(line@),
{
    let mut w = words::split_words(line);
    let ghost ws = types::texts(w@);
    let path = if w.len() > 1 {
        assert(ws[1] == w@[1]@);
        w[1].clone()
    } else {
        text::copy("/")
    };
    let method = if w.len() > 0 {
        assert(ws[0] == w@[0]@);
        w[0].clone()
    } else {
        text::copy("")
    };
    let h = Head {
        method,
        path,
        content_length: 0,
        credential: None,
        forwarded: None,
        socket_key: None,
    };
    assert(h@ =~= opened(line@));
    h
}

/// Reads the head of a request.
pub fn read_head(head: &str, trust_proxy: bool) -> (r: Head)
    ensures
        r@ == head_of(words::pieces(head@, Some('\n')), trust_proxy),
{
    let lines = words::split(head, Some('\n'));
    let ghost all = words::pieces(head@, Some('\n'));
    proof {
        words::lemma_pieces_some(head@, Some('\n'));
        assert(all[0] == lines@[0]@);
    }
    let first = cut_line(&lines[0]);
    let mut h = open_head(first.as_str());
    let mut i: usize = 1;
    assert(all.take(1)[0] == all[0]);
    while i < lines.len()
        invariant
            1 <= i <= lines@.len(),
            all == types::texts(lines@),
            h@ == head_of(all.take(i as int), trust_proxy),
        decreases lines@.len() - i,
    {
        proof {
            assert(all.take(i + 1).drop_last() =~= all.take(i as int));
            assert(all.take(i + 1).last() == lines@[i as int]@);
        }
        let ghost before = h@;
        let line = cut_line(&lines[i]);
        match read_header(line.as_str(), trust_proxy) {
            Header::Length(n) => {
                h.content_length = n;
            },
            Header::Credential(t) => {
                h.credential = Some(t);
            },
            Header::Forwarded(t) => {
                h.forwarded = Some(t);
            },
            Header::SocketKey(t) => {
                h.socket_key = Some(t);
            },
            Header::Other => {},
        }
        assert(h@ =~= continued(before, line@, trust_proxy));
        i = i + 1;
    }
    assert(all.take(all.len() as int) =~= all);
    h
}

/// The credential parts of a query name: a later one wins.
pub open spec fn query_key(parts: Seq<Seq<char>>) -> Option<Seq<char>>
    decreases parts.len(),
{
    if parts.len() == 0 {
        None
    } else {
        let p = parts.last();
        if words::starts(p, "key="@) && p.len() > "key="@.len() {
            Some(p.skip("key="@.len() as int))
        } else if words::starts(p, "apikey="@) && p.len() > "apikey="@.len() {
            Some(p.skip("apikey="@.len() as int))
        } else {
            query_key(parts.drop_last())
        }
    }
}

/// The credential of a WebSocket handshake: from a header, or from the query, since a
/// browser cannot set headers on a socket.
pub open spec fn socket_credential(h: HeadV) -> Option<Seq<char>> {
    match h.credential {
        Some(c) => Some(c),
        None => match text::split_once_spec(h.path, '?') {
            None => None,
            Some((_, q)) => query_key(words::pieces(q, Some('&'))),
        },
    }
}

/// Reads the credential of a WebSocket handshake.
pub fn read_socket_credential(h: &Head) -> (r: Option<String>)
    ensures
        contracts::text_view(r) == socket_credential(h@),
{
    match &h.credential {
        Some(c) => {
            return Some(c.clone());
        },
        None => {},
    }
    let query = match text::split_once(h.path.as_str(), '?') {
        None => {
            return None;
        },
        Some((_, q)) => q,
    };
    let parts = words::split(query.as_str(), Some('&'));
    let ghost all = words::pieces(query@, Some('&'));
    let mut found: Option<String> = None;
    let mut i: usize = 0;
    assert(all.take(0) =~= Seq::<Seq<char>>::empty());
    while i < parts.len()
        invariant
            i <= parts@.len(),
            all == types::texts(parts@),
            contracts::text_view(found) == query_key(all.take(i as int)),
        decreases parts@.len() - i,
    {
        proof {
            assert(all.take(i + 1).drop_last() =~= all.take(i as int));
            assert(all.take(i + 1).last() == parts@[i as int]@);
            reveal_strlit("key=");
            reveal_strlit("apikey=");
            let p = parts@[i as int]@;
            if words::starts(p, "key="@) && words::starts(p, "apikey="@) {
                assert(p.take("key="@.len() as int)[0] == 'k');
                assert(p.take("apikey="@.len() as int)[0] == 'a');
            }
        }
        match words::after(parts[i].as_str(), "key=") {
            Some(t) => {
                if !t.as_str().is_empty() {
                    found = Some(t);
                }
            },
            None => match words::after(parts[i].as_str(), "apikey=") {
                Some(t) => {
                    if !t.as_str().is_empty() {
                        found = Some(t);
                    }
                },
                None => {},
            },
        }
        i = i + 1;
    }
    assert(all.take(all.len() as int) =~= all);
    found
}

// ---------------------------------------------------------------- admission of calls

/// What becomes of a request.
#[derive(Clone, Copy, PartialEq, Eq, Structural, Debug)]
pub enum Gate {
    /// The body it announces is too large.
    TooLarge,
    /// A question about what the endpoint accepts.
    Options,
    /// The caller used its share. The cost is given for a call.
    Limited(Option<u64>),
    /// A question whether the node is healthy.
    Health,
    /// A question about the endpoint itself.
    Discovery,
    /// The endpoint is closed to unknown callers.
    NeedsKey,
    /// The method is for operators.
    NeedsAdmin,
    /// A call to be answered.
    Call,
}

/// What becomes of a call: who calls, may they, have they used their share.
pub open spec fn call_gate(
    c: ConfigV,
    db: Db,
    credential: Option<Seq<char>>,
    ip: Seq<char>,
    method: Seq<char>,
    items: Option<usize>,
    now: u64,
) -> (Gate, ConfigV) {
    let tier = rpcauth::tier_of(c.keys, credential);
    if c.require_auth && tier == Tier::Anonymous {
        (Gate::NeedsKey, c)
    } else if !rpcauth::permitted(method, tier) {
        (Gate::NeedsAdmin, c)
    } else {
        let cost = rpcauth::cost_of(method, items);
        let (ok, d) = rpcauth::charged_weighted(c, db, ip, tier, credential, cost, now);
        if ok {
            (Gate::Call, d)
        } else {
            (Gate::Limited(Some(cost)), d)
        }
    }
}

/// What becomes of a request.
pub open spec fn gated(
    c: ConfigV,
    db: Db,
    h: HeadV,
    ip: Seq<char>,
    method: Seq<char>,
    items: Option<usize>,
    now: u64,
) -> (Gate, ConfigV) {
    if h.content_length > RPC_MAX_BODY {
        (Gate::TooLarge, c)
    } else if h.method == "OPTIONS"@ {
        (Gate::Options, c)
    } else if h.method == "GET"@ {
        let tier = rpcauth::tier_of(c.keys, h.credential);
        let (ok, d) = rpcauth::charged(c, ip, tier, h.credential, 1_000, now);
        if !ok {
            (Gate::Limited(None), d)
        } else if h.path == "/health"@ {
            (Gate::Health, d)
        } else {
            (Gate::Discovery, d)
        }
    } else {
        call_gate(c, db, h.credential, ip, method, items, now)
    }
}

/// The text of an optional text.
fn borrowed(t: &Option<String>) -> (r: Option<&str>)
    ensures
        qos::cred_view(r) == contracts::text_view(*t),
{
    match t {
        Some(s) => Some(s.as_str()),
        None => None,
    }
}

/// Decides what becomes of a call.
pub fn pass_call(
    cfg: &mut RpcConfig,
    store: &Store,
    credential: Option<&str>,
    ip: &str,
    method: &str,
    items: Option<usize>,
    now: u64,
) -> (r: Gate)
    requires
        old(cfg).wf(),
        store.wf(),
    ensures
        final(cfg).wf(),
        (r, final(cfg)@) == call_gate(
            old(cfg)@,
            store@.db,
            qos::cred_view(credential),
            ip@,
            method@,
            items,
            now,
        ),
{
    let tier = cfg.tier_for(credential);
    if cfg.require_auth && tier == Tier::Anonymous {
        return Gate::NeedsKey;
    }
    if rpcauth::is_privileged(method) && tier != Tier::Admin {
        return Gate::NeedsAdmin;
    }
    let cost = rpcauth::method_cost(method, items);
    if cfg.charge_weighted(store, ip, tier, credential, cost, now) {
        Gate::Call
    } else {
        Gate::Limited(Some(cost))
    }
}

/// Decides what becomes of a request.
pub fn pass(
    cfg: &mut RpcConfig,
    store: &Store,
    head: &Head,
    ip: &str,
    method: &str,
    items: Option<usize>,
    now: u64,
) -> (r: Gate)
    requires
        old(cfg).wf(),
        store.wf(),
    ensures
        final(cfg).wf(),
        (r, final(cfg)@) == gated(old(cfg)@, store@.db, head@, ip@, method@, items, now),
{
    if head.content_length > RPC_MAX_BODY as u64 {
        return Gate::TooLarge;
    }
    if text::same(head.method.as_str(), "OPTIONS") {
        return Gate::Options;
    }
    let credential = borrowed(&head.credential);
    if text::same(head.method.as_str(), "GET") {
        let tier = cfg.tier_for(credential);
        if !cfg.charge(ip, tier, credential, 1_000, now) {
            return Gate::Limited(None);
        }
        if text::same(head.path.as_str(), "/health") {
            return Gate::Health;
        }
        return Gate::Discovery;
    }
    pass_call(cfg, store, credential, ip, method, items, now)
}

/// An operator's method is never answered to anyone else, whatever is configured, and a
/// refused call spends nothing.
pub proof fn law_privileged_calls_need_an_operator(
    c: ConfigV,
    db: Db,
    credential: Option<Seq<char>>,
    ip: Seq<char>,
    method: Seq<char>,
    items: Option<usize>,
    now: u64,
)
    requires
        rpcauth::privileged(method),
        rpcauth::tier_of(c.keys, credential) != Tier::Admin,
    ensures
        ({
            let (g, d) = call_gate(c, db, credential, ip, method, items, now);
            &&& g != Gate::Call
            &&& d == c
        }),
{
}

// ---------------------------------------------------------------- responses

/// Status of what becomes of a request.
pub open spec fn status_of(g: Gate) -> u64 {
    match g {
        Gate::TooLarge => 413,
        Gate::Options => 204,
        Gate::Limited(_) => 429,
        Gate::NeedsKey => 401,
        Gate::NeedsAdmin => 403,
        _ => 200,
    }
}

/// Status of what becomes of a request.
pub fn status(g: Gate) -> (r: u64)
    ensures
        r == status_of(g),
{
    match g {
        Gate::TooLarge => 413,
        Gate::Options => 204,
        Gate::Limited(_) => 429,
        Gate::NeedsKey => 401,
        Gate::NeedsAdmin => 403,
        _ => 200,
    }
}

/// Words of a status.
pub open spec fn reason_of(status: u64) -> Seq<char> {
    if status == 200 {
        "OK"@
    } else if status == 204 {
        "No Content"@
    } else if status == 413 {
        "Payload Too Large"@
    } else if status == 429 {
        "Too Many Requests"@
    } else {
        "Error"@
    }
}

/// The head of a response with a body of a length.
pub open spec fn response_of(status: u64, length: nat) -> Seq<char> {
    "HTTP/1.1 "@ + text::dec(status as nat) + " "@ + reason_of(status)
        + "\r\nContent-Type: application/json\r\nContent-Length: "@ + text::dec(length)
        + "\r\nAccess-Control-Allow-Origin: *\r\nAccess-Control-Allow-Headers: *\r\nAccess-Control-Allow-Methods: POST, GET, OPTIONS\r\nConnection: close\r\n\r\n"@
}

/// Writes the head of a response.
pub fn response_head(status: u64, length: usize) -> (r: String)
    ensures
        r@ == response_of(status, length as nat),
{
    let mut m = text::copy("HTTP/1.1 ");
    text::push_dec(&mut m, status as u128);
    m.append(" ");
    if status == 200 {
        m.append("OK");
    } else if status == 204 {
        m.append("No Content");
    } else if status == 413 {
        m.append("Payload Too Large");
    } else if status == 429 {
        m.append("Too Many Requests");
    } else {
        m.append("Error");
    }
    m.append("\r\nContent-Type: application/json\r\nContent-Length: ");
    text::push_dec(&mut m, length as u128);
    m.append(
        "\r\nAccess-Control-Allow-Origin: *\r\nAccess-Control-Allow-Headers: *\r\nAccess-Control-Allow-Methods: POST, GET, OPTIONS\r\nConnection: close\r\n\r\n",
    );
    m
}

} // verus!
