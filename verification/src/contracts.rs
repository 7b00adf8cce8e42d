//! WASM smart contracts: deployment rules, the host interface and call outcomes.
//!
//! Contracts are plain WebAssembly modules. They live at their own base58 address,
//! hold INAZ like any account, keep key/value storage inside consensus state, and
//! are metered with fuel bought by the transaction fee.

use crate::crypto;
use crate::journal::Db;
use crate::state;
use crate::state::Store;
use crate::table::Table;
use crate::text;
use crate::types;
use crate::types::Payload;
use crate::types::PayloadV;
use vstd::prelude::*;
use vstd::string::*;

verus! {

/// One-off INAZ paid into the reward pool for putting code on chain: 5 INAZ.
pub const DEPLOY_FEE: u128 = 5_000_000_000;

pub const MAX_CODE_BYTES: usize = 262_144;

pub const MAX_INPUT_BYTES: usize = 16_384;

pub const MAX_KEY_BYTES: usize = 128;

pub const MAX_VALUE_BYTES: usize = 8_192;

pub const MAX_WRITES: usize = 512;

pub const MAX_TRANSFERS: usize = 32;

pub const MAX_LOGS: usize = 64;

pub const MAX_RETURN_BYTES: usize = 8_192;

/// Fuel bought per rai of fee.
pub const FUEL_PER_RAI: u64 = 400;

/// Ceiling any single call may burn.
pub const MAX_FUEL: u64 = 2_000_000_000;

/// Fuel granted to read-only queries.
pub const QUERY_FUEL: u64 = 50_000_000;

/// A deployed contract.
#[derive(Debug)]
pub struct Contract {
    pub address: String,
    pub code_hash: String,
    pub code_size: usize,
    pub creator: String,
    pub created_height: u64,
    pub calls: u64,
}

/// Model of a deployed contract.
#[verifier::ext_equal]
pub struct ContractV {
    pub address: Seq<char>,
    pub code_hash: Seq<char>,
    pub code_size: usize,
    pub creator: Seq<char>,
    pub created_height: u64,
    pub calls: u64,
}

impl View for Contract {
    type V = ContractV;

    open spec fn view(&self) -> ContractV {
        ContractV {
            address: self.address@,
            code_hash: self.code_hash@,
            code_size: self.code_size,
            creator: self.creator@,
            created_height: self.created_height,
            calls: self.calls,
        }
    }
}

impl Clone for Contract {
    fn clone(&self) -> (r: Contract)
        ensures
            r@ == self@,
    {
        Contract {
            address: self.address.clone(),
            code_hash: self.code_hash.clone(),
            code_size: self.code_size,
            creator: self.creator.clone(),
            created_height: self.created_height,
            calls: self.calls,
        }
    }
}

/// What a contract call left behind for explorers.
#[derive(Debug)]
pub struct Receipt {
    pub contract: String,
    pub caller: String,
    pub ok: bool,
    pub fuel_used: u64,
    pub height: u64,
    pub return_hex: String,
    pub logs: Vec<String>,
    pub error: Option<String>,
}

/// Model of a receipt.
#[verifier::ext_equal]
pub struct ReceiptV {
    pub contract: Seq<char>,
    pub caller: Seq<char>,
    pub ok: bool,
    pub fuel_used: u64,
    pub height: u64,
    pub return_hex: Seq<char>,
    pub logs: Seq<Seq<char>>,
    pub error: Option<Seq<char>>,
}

/// Model of an optional text.
pub open spec fn text_view(t: Option<String>) -> Option<Seq<char>> {
    match t {
        Some(s) => Some(s@),
        None => None,
    }
}

/// A copy of an optional text.
pub fn copy_opt(t: &Option<String>) -> (r: Option<String>)
    ensures
        text_view(r) == text_view(*t),
{
    match t {
        Some(s) => Some(s.clone()),
        None => None,
    }
}

impl View for Receipt {
    type V = ReceiptV;

    open spec fn view(&self) -> ReceiptV {
        ReceiptV {
            contract: self.contract@,
            caller: self.caller@,
            ok: self.ok,
            fuel_used: self.fuel_used,
            height: self.height,
            return_hex: self.return_hex@,
            logs: types::texts(self.logs@),
            error: text_view(self.error),
        }
    }
}

impl Clone for Receipt {
    fn clone(&self) -> (r: Receipt)
        ensures
            r@ == self@,
    {
        Receipt {
            contract: self.contract.clone(),
            caller: self.caller.clone(),
            ok: self.ok,
            fuel_used: self.fuel_used,
            height: self.height,
            return_hex: self.return_hex.clone(),
            logs: types::copy_texts(&self.logs),
            error: copy_opt(&self.error),
        }
    }
}

// ---------------------------------------------------------------- addresses and code

/// Contract address: base58 of a digest over creator, nonce and code hash.
pub open spec fn contract_address_of(creator: Seq<char>, nonce: nat, code_hash: Seq<char>) -> Seq<
    char,
> {
    crypto::base58_of(
        crypto::sha256_of(
            text::utf8(
                "inazuma-contract|"@ + creator + "|"@ + text::dec(nonce) + "|"@ + code_hash,
            ),
        ),
    )
}

/// Deterministic contract address: base58 of a 32-byte tag over creator and nonce.
pub fn contract_address(creator: &str, nonce: u64, code_hash: &str) -> (r: String)
    ensures
        r@ == contract_address_of(creator@, nonce as nat, code_hash@),
{
    let mut tag = text::copy("inazuma-contract|");
    tag.append(creator);
    tag.append("|");
    text::push_dec(&mut tag, nonce as u128);
    tag.append("|");
    tag.append(code_hash);
    assert(tag@ =~= "inazuma-contract|"@ + creator@ + "|"@ + text::dec(nonce as nat) + "|"@
        + code_hash@);
    let digest = crypto::sha256(tag.as_str().as_bytes());
    crypto::address_from_pubkey(&digest)
}

/// Hash that names bytecode.
pub fn code_hash(code: &[u8]) -> (r: String)
    ensures
        r@ == crypto::hash_text(code@),
{
    crypto::hash_hex(code)
}

/// The hexadecimal digits of a field: trimmed, without leading `0x`.
pub open spec fn bare_hex(s: Seq<char>) -> Seq<char> {
    text::strip_0x_spec(text::trimmed(s))
}

/// The bytes every WebAssembly module starts with.
pub open spec fn has_wasm_magic(raw: Seq<u8>) -> bool {
    raw.len() >= 8 && raw[0] == 0 && raw[1] == 0x61 && raw[2] == 0x73 && raw[3] == 0x6d
}

/// The bytecode a deployment carries.
pub open spec fn code_in(p: Option<PayloadV>) -> Result<Seq<u8>, Seq<char>> {
    match p {
        None => Err("missing contract payload"@),
        Some(p) => match crypto::unhex(bare_hex(p.code)) {
            None => Err("code must be hex-encoded wasm"@),
            Some(raw) => if raw.len() == 0 {
                Err("empty contract code"@)
            } else if raw.len() > MAX_CODE_BYTES {
                Err("code too large (max "@ + text::dec(MAX_CODE_BYTES as nat) + " bytes)"@)
            } else if !has_wasm_magic(raw) {
                Err("not a wasm module"@)
            } else {
                Ok(raw)
            },
        },
    }
}

/// The arguments a call carries; none at all are the empty input.
pub open spec fn args_in(p: Option<PayloadV>) -> Result<Seq<u8>, Seq<char>> {
    let args = match p {
        Some(p) => bare_hex(p.args),
        None => Seq::empty(),
    };
    if args.len() == 0 {
        Ok(Seq::empty())
    } else {
        match crypto::unhex(args) {
            None => Err("args must be hex"@),
            Some(raw) => if raw.len() > MAX_INPUT_BYTES {
                Err("args too large"@)
            } else {
                Ok(raw)
            },
        }
    }
}

/// A result of bytes is what a model says.
pub open spec fn agrees_bytes(r: Result<Vec<u8>, String>, v: Result<Seq<u8>, Seq<char>>) -> bool {
    match r {
        Ok(b) => v == Ok::<Seq<u8>, Seq<char>>(b@),
        Err(e) => v == Err::<Seq<u8>, Seq<char>>(e@),
    }
}

/// The bytecode a deployment carries.
pub fn decode_code(p: &Option<Payload>) -> (r: Result<Vec<u8>, String>)
    ensures
        agrees_bytes(r, code_in(types::payload_view(*p))),
{
    match p {
        None => Err(text::copy("missing contract payload")),
        Some(p) => {
            let t = text::trim(p.code.as_str());
            let h = text::strip_0x(t.as_str());
            match crypto::from_hex(h.as_str()) {
                None => Err(text::copy("code must be hex-encoded wasm")),
                Some(raw) => {
                    if raw.len() == 0 {
                        return Err(text::copy("empty contract code"));
                    }
                    if raw.len() > MAX_CODE_BYTES {
                        let mut e = text::copy("code too large (max ");
                        text::push_dec(&mut e, MAX_CODE_BYTES as u128);
                        e.append(" bytes)");
                        return Err(e);
                    }
                    if !(raw.len() >= 8 && raw[0] == 0 && raw[1] == 0x61 && raw[2] == 0x73
                        && raw[3] == 0x6d) {
                        return Err(text::copy("not a wasm module"));
                    }
                    Ok(raw)
                },
            }
        },
    }
}

/// The arguments a call carries.
pub fn decode_args(p: &Option<Payload>) -> (r: Result<Vec<u8>, String>)
    ensures
        agrees_bytes(r, args_in(types::payload_view(*p))),
{
    match p {
        None => {
            let r: Vec<u8> = Vec::new();
            assert(r@ =~= Seq::<u8>::empty());
            Ok(r)
        },
        Some(p) => {
            let t = text::trim(p.args.as_str());
            let h = text::strip_0x(t.as_str());
            if h.as_str().is_empty() {
                let r: Vec<u8> = Vec::new();
                assert(r@ =~= Seq::<u8>::empty());
                return Ok(r);
            }
            match crypto::from_hex(h.as_str()) {
                None => Err(text::copy("args must be hex")),
                Some(raw) => {
                    if raw.len() > MAX_INPUT_BYTES {
                        Err(text::copy("args too large"))
                    } else {
                        Ok(raw)
                    }
                },
            }
        },
    }
}

/// Fuel a fee buys: so much per rai, capped, and never below what a call needs to
/// start.
pub open spec fn fuel_of(fee: nat) -> nat {
    let raw = if fee * FUEL_PER_RAI > MAX_FUEL {
        MAX_FUEL as nat
    } else {
        fee * FUEL_PER_RAI as nat
    };
    if raw < 1_000_000 {
        1_000_000
    } else {
        raw
    }
}

/// Fuel a call may burn, bought with the transaction fee.
pub fn fuel_for_fee(fee: u128) -> (r: u64)
    ensures
        r == fuel_of(fee as nat),
{
    let raw: u128 = match fee.checked_mul(400) {
        Some(f) => if f > MAX_FUEL as u128 {
            MAX_FUEL as u128
        } else {
            f
        },
        None => MAX_FUEL as u128,
    };
    if raw < 1_000_000 {
        1_000_000
    } else {
        raw as u64
    }
}

/// Fuel is capped and grows with the fee.
pub proof fn law_fuel_is_capped_and_monotone(a: nat, b: nat)
    requires
        a <= b,
    ensures
        0 < fuel_of(a) <= fuel_of(b) <= MAX_FUEL,
{
    assert(a * FUEL_PER_RAI <= b * FUEL_PER_RAI) by (nonlinear_arith)
        requires
            a <= b,
    ;
}

// ---------------------------------------------------------------- the machine

/// Features of the WebAssembly machine.
#[derive(Clone, Copy)]
pub struct Features {
    pub fuel: bool,
    pub bulk_memory: bool,
    pub multi_value: bool,
    pub mutable_global: bool,
    pub sign_extension: bool,
    pub saturating_float_to_int: bool,
    pub floats: bool,
}

/// The deterministic feature set: metered, and no floating point.
pub open spec fn chain_features() -> Features {
    Features {
        fuel: true,
        bulk_memory: true,
        multi_value: false,
        mutable_global: true,
        sign_extension: true,
        saturating_float_to_int: true,
        floats: false,
    }
}

/// The deterministic feature set.
pub fn features() -> (r: Features)
    ensures
        r == chain_features(),
{
    Features {
        fuel: true,
        bulk_memory: true,
        multi_value: false,
        mutable_global: true,
        sign_extension: true,
        saturating_float_to_int: true,
        floats: false,
    }
}

#[verifier::external_type_specification]
#[verifier::external_body]
pub struct ExEngine(wasmi::Engine);

#[verifier::external_type_specification]
#[verifier::external_body]
pub struct ExModule(wasmi::Module);

#[verifier::external_type_specification]
#[verifier::external_body]
#[verifier::reject_recursive_types(T)]
pub struct ExLinker<T>(wasmi::Linker<T>);

/// The features an engine was made with.
pub uninterp spec fn engine_features(e: wasmi::Engine) -> Features;

/// The engine a module was translated for.
pub uninterp spec fn module_engine(m: wasmi::Module) -> wasmi::Engine;

/// The bytes a module was read from.
pub uninterp spec fn module_code(m: wasmi::Module) -> Seq<u8>;

/// What is wrong with bytes as a module, if anything.
pub uninterp spec fn module_error(f: Features, code: Seq<u8>) -> Option<Seq<char>>;

/// The engine a linker was made for.
pub uninterp spec fn linker_engine(l: wasmi::Linker<Host>) -> wasmi::Engine;

/// The names a linker defines in the module `env`.
pub uninterp spec fn linked(l: wasmi::Linker<Host>) -> Set<Seq<char>>;

/// What running a module leaves: linked against some imports, with a host and fuel.
pub uninterp spec fn run_of(
    f: Features,
    code: Seq<u8>,
    imports: Set<Seq<char>>,
    host: HostV,
    fuel: u64,
) -> RunV;

/// `wasmi::Engine::new` over a `wasmi::Config` with every feature switched as given.
#[verifier::external_body]
fn wasm_engine(f: Features) -> (r: wasmi::Engine)
    ensures
        engine_features(r) == f,
{
    let mut cfg = wasmi::Config::default();
    cfg.consume_fuel(f.fuel);
    cfg.wasm_bulk_memory(f.bulk_memory);
    cfg.wasm_multi_value(f.multi_value);
    cfg.wasm_mutable_global(f.mutable_global);
    cfg.wasm_sign_extension(f.sign_extension);
    cfg.wasm_saturating_float_to_int(f.saturating_float_to_int);
    cfg.floats(f.floats);
    wasmi::Engine::new(&cfg)
}

/// `wasmi::Module::new`: reads, validates and translates a module for an engine.
/// Whether it succeeds, and the text of the error, depend on the engine's features and
/// the bytes alone; the module remembers both.
#[verifier::external_body]
fn wasm_module(engine: &wasmi::Engine, code: &[u8]) -> (r: Result<wasmi::Module, String>)
    ensures
        match r {
            Ok(m) => module_error(engine_features(*engine), code@) is None && module_engine(m)
                == *engine && module_code(m) == code@,
            Err(e) => module_error(engine_features(*engine), code@) == Some(e@),
        },
{
    wasmi::Module::new(engine, code).map_err(|e| e.to_string())
}

/// `wasmi::Linker::new`: a linker of an engine that defines nothing yet.
#[verifier::external_body]
fn wasm_linker<'a>(engine: &wasmi::Engine) -> (r: wasmi::Linker<Host<'a>>)
    ensures
        linker_engine(r) == *engine,
        linked(r) == Set::<Seq<char>>::empty(),
{
    wasmi::Linker::new(engine)
}

/// How a run ended.
pub enum Ending {
    /// No fuel could be added.
    Unfueled,
    /// The module could not be linked or started.
    Unstarted(String),
    /// The module has no `invoke`.
    Uncallable,
    /// `invoke` returned.
    Returned(i32),
    /// `invoke` trapped.
    Trapped(String),
}

/// Model of how a run ended.
#[verifier::ext_equal]
pub enum EndingV {
    Unfueled,
    Unstarted(Seq<char>),
    Uncallable,
    Returned(i32),
    Trapped(Seq<char>),
}

impl View for Ending {
    type V = EndingV;

    open spec fn view(&self) -> EndingV {
        match self {
            Ending::Unfueled => EndingV::Unfueled,
            Ending::Unstarted(e) => EndingV::Unstarted(e@),
            Ending::Uncallable => EndingV::Uncallable,
            Ending::Returned(n) => EndingV::Returned(*n),
            Ending::Trapped(e) => EndingV::Trapped(e@),
        }
    }
}

/// What a run left.
pub struct Run<'a> {
    pub host: Host<'a>,
    pub ending: Ending,
    pub used: u64,
}

/// Model of what a run left.
#[verifier::ext_equal]
pub struct RunV {
    pub host: HostV,
    pub ending: EndingV,
    pub used: u64,
}

impl<'a> View for Run<'a> {
    type V = RunV;

    open spec fn view(&self) -> RunV {
        RunV { host: self.host@, ending: self.ending@, used: self.used }
    }
}

/// Runs a module: `wasmi::Store::new` over the host, `Store::add_fuel`,
/// `Linker::instantiate` and `InstancePre::start`, `Instance::get_typed_func` for
/// `invoke` and `TypedFunc::call`, then `Store::fuel_consumed` and `Store::into_data`.
/// The interpreter is deterministic, so what is left depends on the features, the
/// bytes, the imports, the host and the fuel alone. A guest reaches the host only
/// through the linked functions, so whatever each of them keeps the run keeps. A run
/// stops before it uses more than the fuel it was given.
#[verifier::external_body]
fn wasm_run<'a>(
    engine: &wasmi::Engine,
    linker: &wasmi::Linker<Host<'a>>,
    module: &wasmi::Module,
    host: Host<'a>,
    fuel: u64,
) -> (r: Run<'a>)
    requires
        linker_engine(*linker) == *engine,
        module_engine(*module) == *engine,
        host.wf(),
    ensures
        r@ == run_of(
            engine_features(*engine),
            module_code(*module),
            linked(*linker),
            host@,
            fuel,
        ),
        r.host.wf(),
        grows(host@, r.host@),
        r.used <= fuel,
{
    let mut ws = wasmi::Store::new(engine, host);
    let ending = match ws.add_fuel(fuel) {
        Err(_) => Ending::Unfueled,
        Ok(()) => match linker.instantiate(&mut ws, module).and_then(|i| i.start(&mut ws)) {
            Err(e) => Ending::Unstarted(e.to_string()),
            Ok(i) => match i.get_typed_func::<(), i32>(&ws, "invoke") {
                Err(_) => Ending::Uncallable,
                Ok(f) => f.call(&mut ws, ()).map_or_else(
                    |t| Ending::Trapped(t.to_string()), Ending::Returned),
            },
        },
    };
    let used = ws.fuel_consumed().unwrap_or(0);
    Run { host: ws.into_data(), ending, used }
}

// ---------------------------------------------------------------- the host

/// Model of an optional byte string.
pub open spec fn value_view(v: Option<Vec<u8>>) -> Option<Seq<u8>> {
    match v {
        Some(b) => Some(b@),
        None => None,
    }
}

/// Model of pending writes.
pub open spec fn overlay_view(m: Map<Seq<u8>, Option<Vec<u8>>>) -> Map<Seq<u8>, Option<Seq<u8>>> {
    Map::new(|k: Seq<u8>| m.contains_key(k), |k: Seq<u8>| value_view(m[k]))
}

/// Model of outgoing moves.
pub open spec fn moves_view(v: Seq<(String, u128)>) -> Seq<(Seq<char>, u128)> {
    v.map_values(|e: (String, u128)| (e.0@, e.1))
}

/// What a running contract sees of the chain, and what it asked for so far.
pub struct Host<'a> {
    store: &'a Store,
    contract: String,
    caller: String,
    value: u128,
    height: u64,
    input: Vec<u8>,
    overlay: Table<Option<Vec<u8>>>,
    order: Vec<String>,
    logs: Vec<String>,
    ret: Vec<u8>,
    transfers: Vec<(String, u128)>,
    /// INAZ the contract may still send out during this call.
    spendable: u128,
}

/// Model of a host.
#[verifier::ext_equal]
pub struct HostV {
    pub db: Db,
    pub contract: Seq<char>,
    pub caller: Seq<char>,
    pub value: u128,
    pub height: u64,
    pub input: Seq<u8>,
    pub overlay: Map<Seq<u8>, Option<Seq<u8>>>,
    pub order: Seq<Seq<char>>,
    pub logs: Seq<Seq<char>>,
    pub ret: Seq<u8>,
    pub transfers: Seq<(Seq<char>, u128)>,
    pub spendable: u128,
}

impl<'a> View for Host<'a> {
    type V = HostV;

    closed spec fn view(&self) -> HostV {
        HostV {
            db: self.store@.db,
            contract: self.contract@,
            caller: self.caller@,
            value: self.value,
            height: self.height,
            input: self.input@,
            overlay: overlay_view(self.overlay@),
            order: types::texts(self.order@),
            logs: types::texts(self.logs@),
            ret: self.ret@,
            transfers: moves_view(self.transfers@),
            spendable: self.spendable,
        }
    }
}

/// Everything outgoing moves send.
pub open spec fn sent(s: Seq<(Seq<char>, u128)>) -> nat
    decreases s.len(),
{
    if s.len() == 0 {
        0
    } else {
        sent(s.drop_last()) + s.last().1 as nat
    }
}

/// A host within the limits of a call: bounded writes, moves, logs and return data,
/// and every key in order has its pending value.
pub open spec fn fair(h: HostV) -> bool {
    &&& h.order.len() <= MAX_WRITES
    &&& h.transfers.len() <= MAX_TRANSFERS
    &&& h.logs.len() <= MAX_LOGS
    &&& h.ret.len() <= MAX_RETURN_BYTES
    &&& forall|i: int|
        0 <= i < h.order.len() ==> h.overlay.contains_key(text::utf8(#[trigger] h.order[i]))
    &&& forall|i: int|
        0 <= i < h.transfers.len() ==> crypto::valid_address((#[trigger] h.transfers[i]).0)
}

/// What a guest can do to its host: the chain stays as it was, what can be spent and
/// what was sent sum up the same, and the limits keep holding.
pub open spec fn grows(a: HostV, b: HostV) -> bool {
    &&& b.db == a.db
    &&& b.contract == a.contract
    &&& b.caller == a.caller
    &&& b.value == a.value
    &&& b.height == a.height
    &&& b.input == a.input
    &&& b.spendable + sent(b.transfers) == a.spendable + sent(a.transfers)
    &&& fair(a) ==> fair(b)
}

/// What a guest can do in two steps it can do in one.
pub proof fn law_growing_is_transitive(a: HostV, b: HostV, c: HostV)
    requires
        grows(a, b),
        grows(b, c),
    ensures
        grows(a, c),
        grows(a, a),
{
}

/// A fresh host of a call: the attached value is already on the contract's account.
pub open spec fn host_of(
    db: Db,
    contract: Seq<char>,
    caller: Seq<char>,
    input: Seq<u8>,
    value: u128,
    height: u64,
) -> HostV {
    HostV {
        db,
        contract,
        caller,
        value,
        height,
        input,
        overlay: Map::empty(),
        order: Seq::empty(),
        logs: Seq::empty(),
        ret: Seq::empty(),
        transfers: Seq::empty(),
        spendable: state::account_of(db, contract).balance,
    }
}

/// Bytes of guest memory.
pub open spec fn peeked(mapped: bool, mem: Seq<u8>, ptr: i32, len: i32, max: nat) -> Result<
    Seq<u8>,
    Seq<char>,
> {
    if len < 0 || len > max {
        Err("bad length"@)
    } else if !mapped {
        Err("contract exports no memory"@)
    } else if ptr < 0 || ptr + len > mem.len() {
        Err("memory read out of bounds"@)
    } else {
        Ok(mem.subrange(ptr as int, ptr + len))
    }
}

/// Reads guest memory.
fn peek(mapped: bool, mem: &[u8], ptr: i32, len: i32, max: usize) -> (r: Result<Vec<u8>, String>)
    requires
        max <= 0x10000,
    ensures
        agrees_bytes(r, peeked(mapped, mem@, ptr, len, max as nat)),
{
    if len < 0 || len as usize > max {
        return Err(text::copy("bad length"));
    }
    if !mapped {
        return Err(text::copy("contract exports no memory"));
    }
    let n: usize = len as usize;
    let total: usize = mem.len();
    if ptr < 0 || total < n || ptr as usize > total - n {
        return Err(text::copy("memory read out of bounds"));
    }
    let from: usize = ptr as usize;
    let mut out: Vec<u8> = Vec::new();
    let mut i: usize = 0;
    while i < n
        invariant
            i <= n,
            from + n <= total,
            total == mem@.len(),
            out@ =~= mem@.subrange(from as int, from + i),
        decreases n - i,
    {
        out.push(mem[from + i]);
        i = i + 1;
    }
    Ok(out)
}

/// Guest memory with bytes written at a place.
pub open spec fn patched(mem: Seq<u8>, at: int, data: Seq<u8>) -> Seq<u8> {
    mem.subrange(0, at) + data + mem.subrange(at + data.len(), mem.len() as int)
}

/// What handing bytes to a guest answers, and its memory afterwards. When there is not
/// enough room the answer is the room needed and nothing is written.
pub open spec fn handed(mapped: bool, mem: Seq<u8>, ptr: i32, cap: i32, data: Seq<u8>) -> (
    Result<i32, Seq<char>>,
    Seq<u8>,
) {
    if cap < 0 {
        (Err("bad capacity"@), mem)
    } else if data.len() > cap {
        (Ok(data.len() as i32), mem)
    } else if !mapped {
        (Err("contract exports no memory"@), mem)
    } else if ptr < 0 || ptr + data.len() > mem.len() {
        (Err("memory write out of bounds"@), mem)
    } else {
        (Ok(data.len() as i32), patched(mem, ptr as int, data))
    }
}

/// An answer to a guest is what a model says.
pub open spec fn answers(r: Result<i32, String>, v: Result<i32, Seq<char>>) -> bool {
    match r {
        Ok(n) => v == Ok::<i32, Seq<char>>(n),
        Err(e) => v == Err::<i32, Seq<char>>(e@),
    }
}

/// Hands bytes to a guest.
fn hand(mapped: bool, mem: &mut [u8], ptr: i32, cap: i32, data: &[u8]) -> (r: Result<i32, String>)
    ensures
        answers(r, handed(mapped, old(mem)@, ptr, cap, data@).0),
        final(mem)@ == handed(mapped, old(mem)@, ptr, cap, data@).1,
{
    let n: usize = data.len();
    if cap < 0 {
        return Err(text::copy("bad capacity"));
    }
    if n > cap as usize {
        return Ok(n as i32);
    }
    if !mapped {
        return Err(text::copy("contract exports no memory"));
    }
    let total: usize = mem.len();
    if ptr < 0 || total < n || ptr as usize > total - n {
        return Err(text::copy("memory write out of bounds"));
    }
    let at: usize = ptr as usize;
    let ghost was = mem@;
    let mut i: usize = 0;
    assert(mem@ =~= patched(was, at as int, data@.take(0)));
    while i < n
        invariant
            i <= n,
            n == data@.len(),
            at + n <= total,
            total == was.len(),
            mem@ =~= patched(was, at as int, data@.take(i as int)),
        decreases n - i,
    {
        mem[at + i] = data[i];
        i = i + 1;
    }
    assert(data@.take(n as int) =~= data@);
    Ok(n as i32)
}


/// The value a contract reads under a key: a pending write, else its storage.
pub open spec fn read_key_of(h: HostV, key: Seq<char>) -> Option<Seq<u8>> {
    if h.overlay.contains_key(text::utf8(key)) {
        h.overlay[text::utf8(key)]
    } else {
        state::storage_of(h.db, h.contract, key)
    }
}

impl<'a> Host<'a> {
    /// The store and the pending writes are well formed.
    pub closed spec fn wf(self) -> bool {
        self.store.wf() && self.overlay.wf()
    }

    /// A fresh host of a call.
    pub fn new(
        store: &'a Store,
        contract: &str,
        caller: &str,
        input: Vec<u8>,
        value: u128,
        height: u64,
    ) -> (r: Host<'a>)
        requires
            store.wf(),
        ensures
            r.wf(),
            r@ == host_of(store@.db, contract@, caller@, input@, value, height),
            fair(r@),
    {
        let spendable: u128 = store.account(contract).balance;
        let r = Host {
            store,
            contract: text::copy(contract),
            caller: text::copy(caller),
            value,
            height,
            input,
            overlay: Table::new(),
            order: Vec::new(),
            logs: Vec::new(),
            ret: Vec::new(),
            transfers: Vec::new(),
            spendable,
        };
        assert(r@ =~= host_of(store@.db, contract@, caller@, r.input@, value, height));
        r
    }

    /// The value the contract reads under a key.
    fn read_key(&self, key: &str) -> (r: Option<Vec<u8>>)
        requires
            self.wf(),
        ensures
            value_view(r) == read_key_of(self@, key@),
    {
        match self.overlay.get(key.as_bytes()) {
            Some(Some(v)) => Some(text::copy_bytes(v.as_slice())),
            Some(None) => None,
            None => self.store.contract_storage(self.contract.as_str(), key),
        }
    }
}

/// The part of a number a guest can hold.
pub open spec fn guest_number(n: u128) -> i64 {
    if n > i64::MAX {
        i64::MAX
    } else {
        n as i64
    }
}

/// Numbers a guest may ask for.
#[derive(Clone, Copy)]
pub enum Number {
    Value,
    Height,
    Balance,
}

/// Byte strings a guest may ask for.
#[derive(Clone, Copy)]
pub enum Bytes {
    Input,
    Caller,
    This,
}

/// Where a guest may put bytes.
#[derive(Clone, Copy)]
pub enum Sink {
    Return,
    Log,
}

/// What a guest may do to its storage.
#[derive(Clone, Copy)]
pub enum Access {
    Read,
    Write,
}

/// Import name of a number.
pub open spec fn number_name(n: Number) -> Seq<char> {
    match n {
        Number::Value => "inz_value"@,
        Number::Height => "inz_height"@,
        Number::Balance => "inz_balance"@,
    }
}

/// Import name of a byte string.
pub open spec fn bytes_name(b: Bytes) -> Seq<char> {
    match b {
        Bytes::Input => "inz_input"@,
        Bytes::Caller => "inz_caller"@,
        Bytes::This => "inz_self"@,
    }
}

/// Import name of a sink.
pub open spec fn sink_name(s: Sink) -> Seq<char> {
    match s {
        Sink::Return => "inz_return"@,
        Sink::Log => "inz_log"@,
    }
}

/// Import name of a storage access.
pub open spec fn access_name(a: Access) -> Seq<char> {
    match a {
        Access::Read => "inz_read"@,
        Access::Write => "inz_write"@,
    }
}

/// Answers how long the input is.
pub fn on_input_len(host: &Host) -> (r: i32)
    ensures
        r == host@.input.len() as i32,
{
    host.input.len() as i32
}

/// A number the guest asked for.
pub open spec fn number_of(which: Number, h: HostV) -> i64 {
    match which {
        Number::Value => guest_number(h.value),
        Number::Height => h.height as i64,
        Number::Balance => guest_number(state::account_of(h.db, h.contract).balance),
    }
}

/// Answers a number.
pub fn on_number(which: Number, host: &Host) -> (r: i64)
    requires
        host.wf(),
    ensures
        r == number_of(which, host@),
{
    let n: u128 = match which {
        Number::Value => host.value,
        Number::Height => {
            return host.height as i64;
        },
        Number::Balance => host.store.account(host.contract.as_str()).balance,
    };
    if n > i64::MAX as u128 {
        i64::MAX
    } else {
        n as i64
    }
}

/// The byte string a guest asked for.
pub open spec fn bytes_asked(which: Bytes, h: HostV) -> Seq<u8> {
    match which {
        Bytes::Input => h.input,
        Bytes::Caller => text::utf8(h.caller),
        Bytes::This => text::utf8(h.contract),
    }
}

/// Hands the guest a byte string.
pub fn on_bytes(
    which: Bytes,
    host: &Host,
    mapped: bool,
    mem: &mut [u8],
    ptr: i32,
    cap: i32,
) -> (r: Result<i32, String>)
    ensures
        answers(r, handed(mapped, old(mem)@, ptr, cap, bytes_asked(which, host@)).0),
        final(mem)@ == handed(mapped, old(mem)@, ptr, cap, bytes_asked(which, host@)).1,
{
    match which {
        Bytes::Input => hand(mapped, mem, ptr, cap, host.input.as_slice()),
        Bytes::Caller => hand(mapped, mem, ptr, cap, host.caller.as_str().as_bytes()),
        Bytes::This => hand(mapped, mem, ptr, cap, host.contract.as_str().as_bytes()),
    }
}

/// What bytes the guest put out do.
pub open spec fn sunk(which: Sink, h: HostV, mapped: bool, mem: Seq<u8>, ptr: i32, len: i32) -> (
    Result<(), Seq<char>>,
    HostV,
) {
    match which {
        Sink::Return => match peeked(mapped, mem, ptr, len, MAX_RETURN_BYTES as nat) {
            Err(e) => (Err(e), h),
            Ok(b) => (Ok(()), HostV { ret: b, ..h }),
        },
        Sink::Log => match peeked(mapped, mem, ptr, len, 1024) {
            Err(e) => (Err(e), h),
            Ok(b) => (
                Ok(()),
                if h.logs.len() < MAX_LOGS {
                    HostV { logs: h.logs.push(text::lossy(b)), ..h }
                } else {
                    h
                },
            ),
        },
    }
}

/// Takes bytes the guest put out.
pub fn on_sink(which: Sink, host: &mut Host, mapped: bool, mem: &[u8], ptr: i32, len: i32) -> (r:
    Result<(), String>)
    requires
        old(host).wf(),
    ensures
        final(host).wf(),
        state::agrees(r, sunk(which, old(host)@, mapped, mem@, ptr, len).0),
        final(host)@ == sunk(which, old(host)@, mapped, mem@, ptr, len).1,
        grows(old(host)@, final(host)@),
{
    match which {
        Sink::Return => match peek(mapped, mem, ptr, len, MAX_RETURN_BYTES) {
            Err(e) => Err(e),
            Ok(b) => {
                host.ret = b;
                assert(host@ =~= HostV { ret: b@, ..old(host)@ });
                Ok(())
            },
        },
        Sink::Log => match peek(mapped, mem, ptr, len, 1024) {
            Err(e) => Err(e),
            Ok(b) => {
                if host.logs.len() < MAX_LOGS {
                    let line = text::std_from_utf8_lossy(b.as_slice());
                    let ghost was = types::texts(host.logs@);
                    host.logs.push(line);
                    proof {
                        assert(types::texts(host.logs@) =~= was.push(line@));
                        assert(host@ =~= HostV { logs: was.push(line@), ..old(host)@ });
                    }
                }
                Ok(())
            },
        },
    }
}

/// What a guest reads under a key.
pub open spec fn looked_up(
    h: HostV,
    mapped: bool,
    mem: Seq<u8>,
    kptr: i32,
    klen: i32,
    ptr: i32,
    cap: i32,
) -> (Result<i32, Seq<char>>, Seq<u8>) {
    match peeked(mapped, mem, kptr, klen, MAX_KEY_BYTES as nat) {
        Err(e) => (Err(e), mem),
        Ok(k) => match read_key_of(h, text::lossy(k)) {
            None => (Ok(-1i32), mem),
            Some(v) => handed(mapped, mem, ptr, cap, v),
        },
    }
}

/// The value of a write; one of no length clears the key.
pub open spec fn value_written(mapped: bool, mem: Seq<u8>, vptr: i32, vlen: i32) -> Result<
    Option<Seq<u8>>,
    Seq<char>,
> {
    if vlen == 0 {
        Ok(None)
    } else {
        match peeked(mapped, mem, vptr, vlen, MAX_VALUE_BYTES as nat) {
            Err(e) => Err(e),
            Ok(v) => if v.len() == 0 {
                Ok(None)
            } else {
                Ok(Some(v))
            },
        }
    }
}

/// What a guest writes under a key.
pub open spec fn noted(
    h: HostV,
    mapped: bool,
    mem: Seq<u8>,
    kptr: i32,
    klen: i32,
    vptr: i32,
    vlen: i32,
) -> (Result<i32, Seq<char>>, HostV) {
    match peeked(mapped, mem, kptr, klen, MAX_KEY_BYTES as nat) {
        Err(e) => (Err(e), h),
        Ok(k) => {
            let key = text::lossy(k);
            if key.len() == 0 {
                (Err("empty storage key"@), h)
            } else {
                match value_written(mapped, mem, vptr, vlen) {
                    Err(e) => (Err(e), h),
                    Ok(v) => if h.overlay.contains_key(text::utf8(key)) {
                        (
                            Ok(0i32),
                            HostV { overlay: h.overlay.insert(text::utf8(key), v), ..h },
                        )
                    } else if h.order.len() >= MAX_WRITES {
                        (Err("too many storage writes"@), h)
                    } else {
                        (
                            Ok(0i32),
                            HostV {
                                overlay: h.overlay.insert(text::utf8(key), v),
                                order: h.order.push(key),
                                ..h
                            },
                        )
                    },
                }
            }
        },
    }
}

/// Serves a storage access of a guest.
pub fn on_access(
    which: Access,
    host: &mut Host,
    mapped: bool,
    mem: &mut [u8],
    kptr: i32,
    klen: i32,
    ptr: i32,
    len: i32,
) -> (r: Result<i32, String>)
    requires
        old(host).wf(),
    ensures
        final(host).wf(),
        match which {
            Access::Read => {
                let v = looked_up(old(host)@, mapped, old(mem)@, kptr, klen, ptr, len);
                answers(r, v.0) && final(mem)@ == v.1 && final(host)@ == old(host)@
            },
            Access::Write => {
                let v = noted(old(host)@, mapped, old(mem)@, kptr, klen, ptr, len);
                answers(r, v.0) && final(mem)@ == old(mem)@ && final(host)@ == v.1
            },
        },
        grows(old(host)@, final(host)@),
{
    let raw = match peek(mapped, mem, kptr, klen, MAX_KEY_BYTES) {
        Err(e) => {
            return Err(e);
        },
        Ok(b) => b,
    };
    let key = text::std_from_utf8_lossy(raw.as_slice());
    match which {
        Access::Read => match host.read_key(key.as_str()) {
            None => Ok(-1),
            Some(v) => hand(mapped, mem, ptr, len, v.as_slice()),
        },
        Access::Write => {
            if key.as_str().is_empty() {
                return Err(text::copy("empty storage key"));
            }
            let value: Option<Vec<u8>> = if len == 0 {
                None
            } else {
                match peek(mapped, mem, ptr, len, MAX_VALUE_BYTES) {
                    Err(e) => {
                        return Err(e);
                    },
                    Ok(v) => if v.len() == 0 {
                        None
                    } else {
                        Some(v)
                    },
                }
            };
            host.note(key, value)
        },
    }
}

impl<'a> Host<'a> {
    /// Remembers a write.
    fn note(&mut self, key: String, value: Option<Vec<u8>>) -> (r: Result<i32, String>)
        requires
            old(self).wf(),
        ensures
            final(self).wf(),
            ({
                let h = old(self)@;
                let o = h.overlay.insert(text::utf8(key@), value_view(value));
                if h.overlay.contains_key(text::utf8(key@)) {
                    answers(r, Ok(0i32)) && final(self)@ == (HostV { overlay: o, ..h })
                } else if h.order.len() >= MAX_WRITES {
                    answers(r, Err("too many storage writes"@)) && final(self)@ == h
                } else {
                    answers(r, Ok(0i32)) && final(self)@ == (HostV {
                        overlay: o,
                        order: h.order.push(key@),
                        ..h
                    })
                }
            }),
            grows(old(self)@, final(self)@),
    {
        let ghost h = self@;
        if !self.overlay.has(key.as_str().as_bytes()) {
            if self.order.len() >= MAX_WRITES {
                return Err(text::copy("too many storage writes"));
            }
            let ghost was = types::texts(self.order@);
            self.order.push(key.clone());
            assert(types::texts(self.order@) =~= was.push(key@));
        }
        self.overlay.insert(text::bytes_of(key.as_str()), value);
        proof {
            let o = h.overlay.insert(text::utf8(key@), value_view(value));
            assert(self@.overlay =~= o);
            if fair(h) {
                assert forall|i: int| 0 <= i < self@.order.len() implies self@.overlay.contains_key(
                    text::utf8(#[trigger] self@.order[i]),
                ) by {
                    if i < h.order.len() {
                        assert(self@.order[i] == h.order[i]);
                    }
                }
            }
        }
        Ok(0)
    }
}

/// What a guest sending INAZ out does.
pub open spec fn sent_out(
    h: HostV,
    mapped: bool,
    mem: Seq<u8>,
    aptr: i32,
    alen: i32,
    amount: i64,
) -> (Result<i32, Seq<char>>, HostV) {
    if amount < 0 {
        (Err("negative amount"@), h)
    } else {
        match peeked(mapped, mem, aptr, alen, 64) {
            Err(e) => (Err(e), h),
            Ok(b) => {
                let to = text::lossy(b);
                if !crypto::valid_address(to) {
                    (Ok(-1i32), h)
                } else if h.transfers.len() >= MAX_TRANSFERS {
                    (Err("too many transfers"@), h)
                } else if amount > h.spendable {
                    (Ok(-2i32), h)
                } else {
                    (
                        Ok(0i32),
                        HostV {
                            spendable: (h.spendable - amount) as u128,
                            transfers: h.transfers.push((to, amount as u128)),
                            ..h
                        },
                    )
                }
            },
        }
    }
}

/// Serves a guest sending INAZ out.
pub fn on_transfer(host: &mut Host, mapped: bool, mem: &[u8], aptr: i32, alen: i32, amount: i64) -> (r:
    Result<i32, String>)
    requires
        old(host).wf(),
    ensures
        final(host).wf(),
        answers(r, sent_out(old(host)@, mapped, mem@, aptr, alen, amount).0),
        final(host)@ == sent_out(old(host)@, mapped, mem@, aptr, alen, amount).1,
        grows(old(host)@, final(host)@),
{
    if amount < 0 {
        return Err(text::copy("negative amount"));
    }
    let raw = match peek(mapped, mem, aptr, alen, 64) {
        Err(e) => {
            return Err(e);
        },
        Ok(b) => b,
    };
    let to = text::std_from_utf8_lossy(raw.as_slice());
    if !crypto::is_valid_address(to.as_str()) {
        return Ok(-1);
    }
    if host.transfers.len() >= MAX_TRANSFERS {
        return Err(text::copy("too many transfers"));
    }
    let n: u128 = amount as u128;
    if n > host.spendable {
        return Ok(-2);
    }
    let ghost h = host@;
    host.spendable = host.spendable - n;
    host.transfers.push((to, n));
    proof {
        let want = h.transfers.push((to@, n));
        assert(host@.transfers =~= want);
        assert(want.drop_last() =~= h.transfers);
        if fair(h) {
            assert forall|i: int| 0 <= i < host@.transfers.len() implies crypto::valid_address(
                (#[trigger] host@.transfers[i]).0,
            ) by {
                if i < h.transfers.len() {
                    assert(host@.transfers[i] == h.transfers[i]);
                }
            }
        }
    }
    Ok(0)
}

// ---------------------------------------------------------------- linking

/// A definition was added to a linker, or refused because its name was taken.
pub open spec fn defines(
    before: wasmi::Linker<Host>,
    after: wasmi::Linker<Host>,
    name: Seq<char>,
    r: Result<(), String>,
) -> bool {
    &&& linker_engine(after) == linker_engine(before)
    &&& linked(after) == linked(before).insert(name)
    &&& r is Ok <==> !linked(before).contains(name)
}

/// `wasmi::Linker::func_wrap` for the length of the input: the name is defined unless
/// it was already.
#[verifier::external_body]
fn link_input_len(linker: &mut wasmi::Linker<Host>, name: &str) -> (r: Result<(), String>)
    requires
        name@ == "inz_input_len"@,
    ensures
        defines(*old(linker), *final(linker), name@, r),
{
    linker.func_wrap("env", name, |c: wasmi::Caller<'_, Host>| -> i32 {
        on_input_len(c.data())
    }).map(|_| ()).map_err(|e| e.to_string())
}

/// `wasmi::Linker::func_wrap` for a number.
#[verifier::external_body]
fn link_number(linker: &mut wasmi::Linker<Host>, name: &str, which: Number) -> (r: Result<
    (),
    String,
>)
    requires
        name@ == number_name(which),
    ensures
        defines(*old(linker), *final(linker), name@, r),
{
    linker.func_wrap("env", name, move |c: wasmi::Caller<'_, Host>| -> i64 {
        on_number(which, c.data())
    }).map(|_| ()).map_err(|e| e.to_string())
}

/// `wasmi::Linker::func_wrap` for a byte string handed to the guest. The closure gives
/// the guest's exported memory and the host, borrowed together by
/// `Memory::data_and_store_mut`, to the function that serves the call.
#[verifier::external_body]
fn link_bytes(linker: &mut wasmi::Linker<Host>, name: &str, which: Bytes) -> (r: Result<
    (),
    String,
>)
    requires
        name@ == bytes_name(which),
    ensures
        defines(*old(linker), *final(linker), name@, r),
{
    linker.func_wrap("env", name, move |mut c: wasmi::Caller<'_, Host>, p: i32, n: i32| {
        match c.get_export("memory").and_then(wasmi::Extern::into_memory) {
            Some(m) => {
                let (mem, host) = m.data_and_store_mut(&mut c);
                on_bytes(which, host, true, mem, p, n)
            },
            None => on_bytes(which, c.data(), false, &mut [], p, n),
        }.map_err(wasmi::core::Trap::new)
    }).map(|_| ()).map_err(|e| e.to_string())
}

/// `wasmi::Linker::func_wrap` for bytes the guest puts out.
#[verifier::external_body]
fn link_sink(linker: &mut wasmi::Linker<Host>, name: &str, which: Sink) -> (r: Result<
    (),
    String,
>)
    requires
        name@ == sink_name(which),
    ensures
        defines(*old(linker), *final(linker), name@, r),
{
    linker.func_wrap("env", name, move |mut c: wasmi::Caller<'_, Host>, p: i32, n: i32| {
        match c.get_export("memory").and_then(wasmi::Extern::into_memory) {
            Some(m) => {
                let (mem, host) = m.data_and_store_mut(&mut c);
                on_sink(which, host, true, mem, p, n)
            },
            None => on_sink(which, c.data_mut(), false, &[], p, n),
        }.map_err(wasmi::core::Trap::new)
    }).map(|_| ()).map_err(|e| e.to_string())
}

/// `wasmi::Linker::func_wrap` for a storage access.
#[verifier::external_body]
fn link_access(linker: &mut wasmi::Linker<Host>, name: &str, which: Access) -> (r: Result<
    (),
    String,
>)
    requires
        name@ == access_name(which),
    ensures
        defines(*old(linker), *final(linker), name@, r),
{
    linker.func_wrap("env", name,
        move |mut c: wasmi::Caller<'_, Host>, k: i32, kn: i32, p: i32, n: i32| {
        match c.get_export("memory").and_then(wasmi::Extern::into_memory) {
            Some(m) => {
                let (mem, host) = m.data_and_store_mut(&mut c);
                on_access(which, host, true, mem, k, kn, p, n)
            },
            None => on_access(which, c.data_mut(), false, &mut [], k, kn, p, n),
        }.map_err(wasmi::core::Trap::new)
    }).map(|_| ()).map_err(|e| e.to_string())
}

/// `wasmi::Linker::func_wrap` for sending INAZ out.
#[verifier::external_body]
fn link_transfer(linker: &mut wasmi::Linker<Host>, name: &str) -> (r: Result<(), String>)
    requires
        name@ == "inz_transfer"@,
    ensures
        defines(*old(linker), *final(linker), name@, r),
{
    linker.func_wrap("env", name, |mut c: wasmi::Caller<'_, Host>, p: i32, n: i32, v: i64| {
        match c.get_export("memory").and_then(wasmi::Extern::into_memory) {
            Some(m) => {
                let (mem, host) = m.data_and_store_mut(&mut c);
                on_transfer(host, true, mem, p, n, v)
            },
            None => on_transfer(c.data_mut(), false, &[], p, n, v),
        }.map_err(wasmi::core::Trap::new)
    }).map(|_| ()).map_err(|e| e.to_string())
}

/// The imports a contract may use.
pub open spec fn host_imports() -> Set<Seq<char>> {
    set![
        "inz_input_len"@,
        "inz_input"@,
        "inz_return"@,
        "inz_log"@,
        "inz_caller"@,
        "inz_self"@,
        "inz_value"@,
        "inz_height"@,
        "inz_balance"@,
        "inz_read"@,
        "inz_write"@,
        "inz_transfer"@,
    ]
}

/// Defines the host functions. On a linker that defines nothing this succeeds.
fn link_host(linker: &mut wasmi::Linker<Host>) -> (r: Result<(), String>)
    ensures
        linker_engine(*final(linker)) == linker_engine(*old(linker)),
        linked(*old(linker)) == Set::<Seq<char>>::empty() ==> r is Ok,
        r is Ok ==> linked(*final(linker)) == linked(*old(linker)).union(host_imports()),
{
    proof {
        reveal_strlit("inz_input_len");
        reveal_strlit("inz_input");
        reveal_strlit("inz_return");
        reveal_strlit("inz_log");
        reveal_strlit("inz_caller");
        reveal_strlit("inz_self");
        reveal_strlit("inz_value");
        reveal_strlit("inz_height");
        reveal_strlit("inz_balance");
        reveal_strlit("inz_read");
        reveal_strlit("inz_write");
        reveal_strlit("inz_transfer");
        assert("inz_input_len"@.len() == 13 && "inz_input_len"@[4] == 'i');
        assert("inz_input"@.len() == 9 && "inz_input"@[4] == 'i');
        assert("inz_return"@.len() == 10 && "inz_return"@[4] == 'r');
        assert("inz_log"@.len() == 7 && "inz_log"@[4] == 'l');
        assert("inz_caller"@.len() == 10 && "inz_caller"@[4] == 'c');
        assert("inz_self"@.len() == 8 && "inz_self"@[4] == 's');
        assert("inz_value"@.len() == 9 && "inz_value"@[4] == 'v');
        assert("inz_height"@.len() == 10 && "inz_height"@[4] == 'h');
        assert("inz_balance"@.len() == 11 && "inz_balance"@[4] == 'b');
        assert("inz_read"@.len() == 8 && "inz_read"@[4] == 'r');
        assert("inz_write"@.len() == 9 && "inz_write"@[4] == 'w');
        assert("inz_transfer"@.len() == 12 && "inz_transfer"@[4] == 't');
    }
    let ghost s0 = linked(*linker);
    link_input_len(linker, "inz_input_len")?;
    link_bytes(linker, "inz_input", Bytes::Input)?;
    link_sink(linker, "inz_return", Sink::Return)?;
    link_sink(linker, "inz_log", Sink::Log)?;
    link_bytes(linker, "inz_caller", Bytes::Caller)?;
    link_bytes(linker, "inz_self", Bytes::This)?;
    link_number(linker, "inz_value", Number::Value)?;
    link_number(linker, "inz_height", Number::Height)?;
    link_number(linker, "inz_balance", Number::Balance)?;
    link_access(linker, "inz_read", Access::Read)?;
    link_access(linker, "inz_write", Access::Write)?;
    link_transfer(linker, "inz_transfer")?;
    assert(linked(*linker) =~= s0.union(host_imports()));
    Ok(())
}


// ---------------------------------------------------------------- validation

/// Whether bytes are a module the chain accepts, and if not why.
pub open spec fn deployable(code: Seq<u8>) -> Result<(), Seq<char>> {
    match module_error(chain_features(), code) {
        Some(e) => Err("invalid wasm: "@ + e),
        None => Ok(()),
    }
}

/// Checks that bytes are a module the chain accepts.
pub fn check_deploy(code: &[u8]) -> (r: Result<(), String>)
    ensures
        state::agrees(r, deployable(code@)),
{
    let engine = wasm_engine(features());
    match wasm_module(&engine, code) {
        Ok(_) => Ok(()),
        Err(e) => {
            let mut m = text::copy("invalid wasm: ");
            m.append(e.as_str());
            Err(m)
        },
    }
}

/// The contract a call is for.
pub open spec fn callable(db: Db, address: Seq<char>) -> Result<ContractV, Seq<char>> {
    if !crypto::valid_address(address) {
        Err("invalid contract address"@)
    } else {
        match state::contract_of(db, address) {
            None => Err("no contract at address"@),
            Some(c) => Ok(c),
        }
    }
}

/// The contract a call is for.
pub fn check_call(store: &Store, address: &str) -> (r: Result<Contract, String>)
    requires
        store.wf(),
    ensures
        match r {
            Ok(c) => callable(store@.db, address@) == Ok::<ContractV, Seq<char>>(c@),
            Err(e) => callable(store@.db, address@) == Err::<ContractV, Seq<char>>(e@),
        },
{
    if !crypto::is_valid_address(address) {
        return Err(text::copy("invalid contract address"));
    }
    match store.contract(address) {
        Some(c) => Ok(c),
        None => Err(text::copy("no contract at address")),
    }
}

// ---------------------------------------------------------------- execution

/// What a call came to.
pub struct Outcome {
    pub ok: bool,
    pub ret: Vec<u8>,
    pub logs: Vec<String>,
    pub fuel_used: u64,
    pub error: Option<String>,
    /// Storage mutations, applied only when `ok`.
    pub writes: Vec<(String, Option<Vec<u8>>)>,
    /// Outgoing INAZ moves, applied only when `ok`.
    pub transfers: Vec<(String, u128)>,
}

/// Model of what a call came to.
#[verifier::ext_equal]
pub struct OutcomeV {
    pub ok: bool,
    pub ret: Seq<u8>,
    pub logs: Seq<Seq<char>>,
    pub fuel_used: u64,
    pub error: Option<Seq<char>>,
    pub writes: Seq<(Seq<char>, Option<Seq<u8>>)>,
    pub transfers: Seq<(Seq<char>, u128)>,
}

/// Model of storage mutations.
pub open spec fn writes_view(v: Seq<(String, Option<Vec<u8>>)>) -> Seq<
    (Seq<char>, Option<Seq<u8>>),
> {
    v.map_values(|e: (String, Option<Vec<u8>>)| (e.0@, value_view(e.1)))
}

impl View for Outcome {
    type V = OutcomeV;

    open spec fn view(&self) -> OutcomeV {
        OutcomeV {
            ok: self.ok,
            ret: self.ret@,
            logs: types::texts(self.logs@),
            fuel_used: self.fuel_used,
            error: text_view(self.error),
            writes: writes_view(self.writes@),
            transfers: moves_view(self.transfers@),
        }
    }
}

/// A call that failed with a message.
pub open spec fn failed(message: Seq<char>, fuel_used: u64) -> OutcomeV {
    OutcomeV {
        ok: false,
        ret: Seq::empty(),
        logs: Seq::empty(),
        fuel_used,
        error: Some(message),
        writes: Seq::empty(),
        transfers: Seq::empty(),
    }
}

/// The receipt of a call.
pub open spec fn receipt_for(o: OutcomeV, contract: Seq<char>, caller: Seq<char>, height: u64) -> ReceiptV {
    ReceiptV {
        contract,
        caller,
        ok: o.ok,
        fuel_used: o.fuel_used,
        height,
        return_hex: crypto::hex_text(o.ret),
        logs: o.logs,
        error: o.error,
    }
}

impl Outcome {
    /// A call that failed with a message.
    fn failed(message: String, fuel_used: u64) -> (r: Outcome)
        ensures
            r@ == failed(message@, fuel_used),
    {
        let r = Outcome {
            ok: false,
            ret: Vec::new(),
            logs: Vec::new(),
            fuel_used,
            error: Some(message),
            writes: Vec::new(),
            transfers: Vec::new(),
        };
        assert(r@ =~= failed(message@, fuel_used));
        r
    }

    /// The receipt of a call.
    pub fn receipt(&self, contract: &str, caller: &str, height: u64) -> (r: Receipt)
        ensures
            r@ == receipt_for(self@, contract@, caller@, height),
    {
        Receipt {
            contract: text::copy(contract),
            caller: text::copy(caller),
            ok: self.ok,
            fuel_used: self.fuel_used,
            height,
            return_hex: crypto::to_hex(self.ret.as_slice()),
            logs: types::copy_texts(&self.logs),
            error: copy_opt(&self.error),
        }
    }
}

/// The message of a trap: running out of fuel says what to do about it.
pub open spec fn trap_text(e: Seq<char>) -> Seq<char> {
    if text::holds_text(e, "fuel"@) {
        "out of fuel: raise the fee"@
    } else {
        e
    }
}

/// A signed number in decimal.
pub open spec fn signed_text(n: i32) -> Seq<char> {
    if n < 0 {
        "-"@ + text::dec((-n) as nat)
    } else {
        text::dec(n as nat)
    }
}

/// The pending writes, in the order their keys were first written.
pub open spec fn pending_writes(order: Seq<Seq<char>>, overlay: Map<Seq<u8>, Option<Seq<u8>>>) -> Seq<
    (Seq<char>, Option<Seq<u8>>),
>
    decreases order.len(),
{
    if order.len() == 0 {
        Seq::empty()
    } else {
        let w = pending_writes(order.drop_last(), overlay);
        let k = order.last();
        if overlay.contains_key(text::utf8(k)) {
            w.push((k, overlay[text::utf8(k)]))
        } else {
            w
        }
    }
}

/// What a run comes to. A contract that returns zero succeeded; any other return
/// reverts; a trap reverts and keeps nothing but the logs.
pub open spec fn concluded(r: RunV) -> OutcomeV {
    let h = r.host;
    match r.ending {
        EndingV::Unfueled => failed("fuel setup failed"@, 0),
        EndingV::Unstarted(e) => failed("instantiate failed: "@ + e, r.used),
        EndingV::Uncallable => failed("contract exports no invoke()"@, 0),
        EndingV::Returned(n) => if n == 0 {
            OutcomeV {
                ok: true,
                ret: h.ret,
                logs: h.logs,
                fuel_used: r.used,
                error: None,
                writes: pending_writes(h.order, h.overlay),
                transfers: h.transfers,
            }
        } else {
            OutcomeV {
                ret: h.ret,
                logs: h.logs,
                ..failed("contract reverted with code "@ + signed_text(n), r.used)
            }
        },
        EndingV::Trapped(e) => OutcomeV { logs: h.logs, ..failed(trap_text(e), r.used) },
    }
}

/// A call that fails changes nothing: no write and no move leaves it.
pub proof fn law_failed_call_changes_nothing(r: RunV)
    requires
        !concluded(r).ok,
    ensures
        concluded(r).writes == Seq::<(Seq<char>, Option<Seq<u8>>)>::empty(),
        concluded(r).transfers == Seq::<(Seq<char>, u128)>::empty(),
        concluded(r).error is Some,
{
}

proof fn lemma_pending_len(order: Seq<Seq<char>>, overlay: Map<Seq<u8>, Option<Seq<u8>>>)
    ensures
        pending_writes(order, overlay).len() <= order.len(),
    decreases order.len(),
{
    if order.len() > 0 {
        lemma_pending_len(order.drop_last(), overlay);
    }
}

/// What the guest can do keeps every call within its limits: it sends out no more than
/// the contract held, and writes, moves, logs and return data are bounded.
pub proof fn law_call_is_bounded(start: HostV, r: RunV)
    requires
        start.transfers == Seq::<(Seq<char>, u128)>::empty(),
        fair(start),
        grows(start, r.host),
    ensures
        sent(concluded(r).transfers) <= start.spendable,
        concluded(r).writes.len() <= MAX_WRITES,
        concluded(r).transfers.len() <= MAX_TRANSFERS,
        concluded(r).logs.len() <= MAX_LOGS,
        concluded(r).ret.len() <= MAX_RETURN_BYTES,
{
    lemma_pending_len(r.host.order, r.host.overlay);
}

/// Works out what a run comes to.
pub fn conclude(run: Run) -> (r: Outcome)
    requires
        run.host.wf(),
    ensures
        r@ == concluded(run@),
{
    let Run { host, ending, used } = run;
    match ending {
        Ending::Unfueled => Outcome::failed(text::copy("fuel setup failed"), 0),
        Ending::Unstarted(e) => {
            let mut m = text::copy("instantiate failed: ");
            m.append(e.as_str());
            Outcome::failed(m, used)
        },
        Ending::Uncallable => Outcome::failed(text::copy("contract exports no invoke()"), 0),
        Ending::Returned(n) => {
            if n == 0 {
                let writes = host.pending();
                let Host { ret, logs, transfers, .. } = host;
                let r = Outcome {
                    ok: true,
                    ret,
                    logs,
                    fuel_used: used,
                    error: None,
                    writes,
                    transfers,
                };
                r
            } else {
                let mut m = text::copy("contract reverted with code ");
                if n < 0 {
                    m.append("-");
                    let wide: i64 = n as i64;
                    text::push_dec(&mut m, (-wide) as u128);
                } else {
                    text::push_dec(&mut m, n as u128);
                }
                assert(m@ =~= "contract reverted with code "@ + signed_text(n));
                let mut r = Outcome::failed(m, used);
                let Host { ret, logs, .. } = host;
                r.ret = ret;
                r.logs = logs;
                r
            }
        },
        Ending::Trapped(e) => {
            let m = if text::has_text(e.as_str(), "fuel") {
                text::copy("out of fuel: raise the fee")
            } else {
                e
            };
            let mut r = Outcome::failed(m, used);
            let Host { logs, .. } = host;
            r.logs = logs;
            r
        },
    }
}

impl<'a> Host<'a> {
    /// The pending writes, in the order their keys were first written.
    fn pending(&self) -> (r: Vec<(String, Option<Vec<u8>>)>)
        requires
            self.wf(),
        ensures
            writes_view(r@) == pending_writes(self@.order, self@.overlay),
    {
        let ghost order = self@.order;
        let ghost overlay = self@.overlay;
        let mut out: Vec<(String, Option<Vec<u8>>)> = Vec::new();
        let mut i: usize = 0;
        proof {
            assert(order.take(0) =~= Seq::<Seq<char>>::empty());
            assert(writes_view(out@) =~= pending_writes(order.take(0), overlay));
        }
        while i < self.order.len()
            invariant
                i <= self.order@.len(),
                self.wf(),
                order == self@.order,
                overlay == self@.overlay,
                order.len() == self.order@.len(),
                writes_view(out@) == pending_writes(order.take(i as int), overlay),
            decreases self.order@.len() - i,
        {
            proof {
                assert(order.take(i + 1).drop_last() =~= order.take(i as int));
                assert(order.take(i + 1).last() == self.order@[i as int]@);
            }
            let ghost was = writes_view(out@);
            let ghost k = self.order@[i as int]@;
            match self.overlay.get(self.order[i].as_str().as_bytes()) {
                Some(Some(v)) => {
                    out.push((self.order[i].clone(), Some(text::copy_bytes(v.as_slice()))));
                    assert(writes_view(out@) =~= was.push((k, overlay[text::utf8(k)])));
                },
                Some(None) => {
                    out.push((self.order[i].clone(), None));
                    assert(writes_view(out@) =~= was.push((k, overlay[text::utf8(k)])));
                },
                None => {},
            }
            i = i + 1;
        }
        assert(order.take(order.len() as int) =~= order);
        out
    }
}

/// What a call comes to, before anything of it is written.
pub open spec fn executed(
    db: Db,
    contract: Seq<char>,
    caller: Seq<char>,
    code: Seq<u8>,
    input: Seq<u8>,
    value: u128,
    height: u64,
    fuel: u64,
) -> OutcomeV {
    match module_error(chain_features(), code) {
        Some(e) => failed("invalid wasm: "@ + e, 0),
        None => concluded(
            run_of(
                chain_features(),
                code,
                host_imports(),
                host_of(db, contract, caller, input, value, height),
                fuel,
            ),
        ),
    }
}

/// Runs a contract call. Nothing is written to the store: mutations come back in the
/// outcome, so the caller commits them only on success. A contract never sends out more
/// than its account holds.
pub fn execute(
    store: &Store,
    contract: &str,
    caller_addr: &str,
    code: &[u8],
    input: Vec<u8>,
    value: u128,
    height: u64,
    fuel: u64,
) -> (r: Outcome)
    requires
        store.wf(),
    ensures
        r@ == executed(
            store@.db,
            contract@,
            caller_addr@,
            code@,
            input@,
            value,
            height,
            fuel,
        ),
        sent(r@.transfers) <= state::account_of(store@.db, contract@).balance,
        r@.writes.len() <= MAX_WRITES,
        r@.transfers.len() <= MAX_TRANSFERS,
        r@.fuel_used <= fuel,
{
    let engine = wasm_engine(features());
    let module = match wasm_module(&engine, code) {
        Ok(m) => m,
        Err(e) => {
            let mut m = text::copy("invalid wasm: ");
            m.append(e.as_str());
            return Outcome::failed(m, 0);
        },
    };
    let host = Host::new(store, contract, caller_addr, input, value, height);
    let ghost start = host@;
    let mut linker = wasm_linker(&engine);
    match link_host(&mut linker) {
        Ok(()) => {},
        Err(e) => {
            return Outcome::failed(e, 0);
        },
    }
    proof {
        assert(linked(linker) =~= host_imports());
    }
    let run = wasm_run(&engine, &linker, &module, host, fuel);
    proof {
        law_call_is_bounded(start, run@);
    }
    conclude(run)
}

} // verus!
