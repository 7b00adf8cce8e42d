//! Native tokens: fungible assets as a first-class part of the state machine.
//!
//! Every token is created by an account, has its own id, supply and holder set, and
//! moves with the same signed transaction format as INAZ. Fees are always paid in
//! INAZ.

use crate::crypto;
use crate::journal::Db;
use crate::state;
use crate::state::Store;
use crate::text;
use crate::types;
use crate::types::Payload;
use crate::types::PayloadV;
use vstd::prelude::*;
use vstd::string::*;

verus! {

/// INAZ paid into the validator reward pool for creating a token: 10 INAZ.
pub const TOKEN_CREATION_FEE: u128 = 10_000_000_000;

pub const MAX_DECIMALS: u8 = 18;

pub const MAX_SYMBOL_LEN: usize = 10;

pub const MAX_NAME_LEN: usize = 40;

/// A native token.
#[derive(Debug)]
pub struct Token {
    pub id: String,
    pub symbol: String,
    pub name: String,
    pub decimals: u8,
    pub supply: u128,
    pub creator: String,
    /// When false the supply is fixed for ever at creation.
    pub mintable: bool,
    pub created_height: u64,
    pub holders: u64,
}

/// Model of a token.
#[verifier::ext_equal]
pub struct TokenV {
    pub id: Seq<char>,
    pub symbol: Seq<char>,
    pub name: Seq<char>,
    pub decimals: u8,
    pub supply: u128,
    pub creator: Seq<char>,
    pub mintable: bool,
    pub created_height: u64,
    pub holders: u64,
}

impl View for Token {
    type V = TokenV;

    open spec fn view(&self) -> TokenV {
        TokenV {
            id: self.id@,
            symbol: self.symbol@,
            name: self.name@,
            decimals: self.decimals,
            supply: self.supply,
            creator: self.creator@,
            mintable: self.mintable,
            created_height: self.created_height,
            holders: self.holders,
        }
    }
}

impl Clone for Token {
    fn clone(&self) -> (r: Token)
        ensures
            r@ == self@,
    {
        Token {
            id: self.id.clone(),
            symbol: self.symbol.clone(),
            name: self.name.clone(),
            decimals: self.decimals,
            supply: self.supply,
            creator: self.creator.clone(),
            mintable: self.mintable,
            created_height: self.created_height,
            holders: self.holders,
        }
    }
}


/// Deterministic token id: derived from creator, nonce and symbol.
pub open spec fn token_id_of(creator: Seq<char>, nonce: nat, symbol: Seq<char>) -> Seq<char> {
    "tk"@ + crypto::hex_text(
        crypto::sha256_of(
            text::utf8(
                "inazuma-token|"@ + creator + "|"@ + text::dec(nonce) + "|"@ + symbol,
            ),
        ).take(8),
    )
}

/// Deterministic token id: derived from creator, nonce and symbol.
pub fn token_id(creator: &str, nonce: u64, symbol: &str) -> (r: String)
    ensures
        r@ == token_id_of(creator@, nonce as nat, symbol@),
{
    let mut s = text::copy("inazuma-token|");
    s.append(creator);
    s.append("|");
    text::push_dec(&mut s, nonce as u128);
    s.append("|");
    s.append(symbol);
    let h = crypto::sha256(s.as_str().as_bytes());
    let head = vstd::slice::slice_subrange(&h, 0, 8);
    assert(head@ =~= h@.take(8));
    let mut id = text::copy("tk");
    id.append(crypto::to_hex(head).as_str());
    id
}

/// A ticker in its normal form, or what is wrong with it.
pub open spec fn symbol_of(raw: Seq<char>) -> Result<Seq<char>, Seq<char>> {
    let s = text::ascii_upper_spec(text::trimmed(raw));
    if text::utf8(s).len() < 2 || text::utf8(s).len() > MAX_SYMBOL_LEN {
        Err("symbol must be 2-10 characters"@)
    } else if !text::all_alnum(s) {
        Err("symbol must be letters and digits only"@)
    } else {
        Ok(s)
    }
}

/// A text result agrees with its model.
pub open spec fn agrees_text(r: Result<String, String>, v: Result<Seq<char>, Seq<char>>) -> bool {
    match r {
        Ok(s) => v == Ok::<Seq<char>, Seq<char>>(s@),
        Err(e) => v == Err::<Seq<char>, Seq<char>>(e@),
    }
}

/// Brings a ticker to its normal form.
pub fn normalize_symbol(raw: &str) -> (r: Result<String, String>)
    ensures
        agrees_text(r, symbol_of(raw@)),
{
    let t = text::trim(raw);
    let s = text::ascii_upper(t.as_str());
    let n: usize = s.as_str().as_bytes().len();
    if n < 2 || n > MAX_SYMBOL_LEN {
        return Err(text::copy("symbol must be 2-10 characters"));
    }
    if !text::only_alnum(s.as_str()) {
        return Err(text::copy("symbol must be letters and digits only"));
    }
    Ok(s)
}

/// Writes an amount of a token with its decimals.
pub fn format_units(amount: u128, decimals: u8) -> (r: String)
    requires
        decimals <= 38,
    ensures
        r@ == text::fixed_text(amount as nat, decimals as nat),
{
    text::format_fixed(amount, decimals)
}

/// Reads an amount of a token with at most its decimals.
pub fn parse_units(s: &str, decimals: u8) -> (r: Result<u128, String>)
    ensures
        match text::fixed_value(s@, decimals as nat) {
            Ok(n) => r matches Ok(v) && v == n,
            Err(m) => r matches Err(e) && e@ == m,
        },
{
    text::parse_fixed(s, decimals)
}

/// Every amount is read back from its written form, for every number of decimals a
/// token may have.
pub proof fn law_units_round_trip(amount: u128, decimals: u8)
    requires
        decimals <= MAX_DECIMALS,
    ensures
        text::fixed_value(text::fixed_text(amount as nat, decimals as nat), decimals as nat) == Ok::<
            nat,
            Seq<char>,
        >(amount as nat),
{
    text::law_fixed_round_trip(amount as nat, decimals as nat);
}

// ---------------------------------------------------------------- rules without writes

/// Verdict on creating a token.
pub open spec fn may_create(
    db: Db,
    sender: Seq<char>,
    nonce: nat,
    p: Option<PayloadV>,
) -> Result<(), Seq<char>> {
    match p {
        None => Err("token transaction missing payload"@),
        Some(p) => match symbol_of(p.symbol) {
            Err(e) => Err(e),
            Ok(symbol) => if text::trimmed(p.name).len() == 0 || text::utf8(p.name).len()
                > MAX_NAME_LEN {
                Err("name must be 1-40 characters"@)
            } else if p.decimals > MAX_DECIMALS {
                Err("decimals must be 0-18"@)
            } else if state::token_of(db, token_id_of(sender, nonce, symbol)) is Some {
                Err("token already exists"@)
            } else {
                Ok(())
            },
        },
    }
}

/// Verdict on minting more of a token.
pub open spec fn may_mint(
    db: Db,
    sender: Seq<char>,
    to: Seq<char>,
    amount: nat,
    p: Option<PayloadV>,
) -> Result<(), Seq<char>> {
    match p {
        None => Err("token transaction missing payload"@),
        Some(p) => match state::token_of(db, p.token) {
            None => Err("unknown token"@),
            Some(t) => if t.creator != sender {
                Err("only the token creator can mint"@)
            } else if !t.mintable {
                Err("token supply is fixed"@)
            } else if amount == 0 {
                Err("mint amount must be positive"@)
            } else if !crypto::valid_address(to) {
                Err("invalid recipient address"@)
            } else {
                Ok(())
            },
        },
    }
}

/// Verdict on moving units of a token.
pub open spec fn may_transfer(
    db: Db,
    sender: Seq<char>,
    to: Seq<char>,
    amount: nat,
    p: Option<PayloadV>,
) -> Result<(), Seq<char>> {
    match p {
        None => Err("token transaction missing payload"@),
        Some(p) => match state::token_of(db, p.token) {
            None => Err("unknown token"@),
            Some(t) => if amount == 0 {
                Err("amount must be positive"@)
            } else if !crypto::valid_address(to) {
                Err("invalid recipient address"@)
            } else if state::token_balance_of(db, t.id, sender) < amount {
                Err("insufficient token balance"@)
            } else {
                Ok(())
            },
        },
    }
}

/// Verdict on destroying units of a token.
pub open spec fn may_burn(
    db: Db,
    sender: Seq<char>,
    amount: nat,
    p: Option<PayloadV>,
) -> Result<(), Seq<char>> {
    match p {
        None => Err("token transaction missing payload"@),
        Some(p) => match state::token_of(db, p.token) {
            None => Err("unknown token"@),
            Some(t) => if amount == 0 {
                Err("amount must be positive"@)
            } else if state::token_balance_of(db, t.id, sender) < amount {
                Err("insufficient token balance"@)
            } else {
                Ok(())
            },
        },
    }
}

/// Checks the creation of a token without writing anything.
pub fn check_create(store: &Store, sender: &str, nonce: u64, p: &Option<Payload>) -> (r: Result<
    (),
    String,
>)
    requires
        store.wf(),
    ensures
        state::agrees(r, may_create(store@.db, sender@, nonce as nat, types::payload_view(*p))),
{
    match p {
        None => Err(text::copy("token transaction missing payload")),
        Some(p) => match normalize_symbol(p.symbol.as_str()) {
            Err(e) => Err(e),
            Ok(symbol) => {
                let name = text::trim(p.name.as_str());
                if name.as_str().is_empty() || p.name.as_str().as_bytes().len() > MAX_NAME_LEN {
                    return Err(text::copy("name must be 1-40 characters"));
                }
                if p.decimals > MAX_DECIMALS {
                    return Err(text::copy("decimals must be 0-18"));
                }
                if store.token(token_id(sender, nonce, symbol.as_str()).as_str()).is_some() {
                    return Err(text::copy("token already exists"));
                }
                Ok(())
            },
        },
    }
}

/// Checks a mint without writing anything.
pub fn check_mint(
    store: &Store,
    sender: &str,
    to: &str,
    amount: u128,
    p: &Option<Payload>,
) -> (r: Result<(), String>)
    requires
        store.wf(),
    ensures
        state::agrees(
            r,
            may_mint(store@.db, sender@, to@, amount as nat, types::payload_view(*p)),
        ),
{
    match p {
        None => Err(text::copy("token transaction missing payload")),
        Some(p) => match store.token(p.token.as_str()) {
            None => Err(text::copy("unknown token")),
            Some(t) => {
                if !text::same(t.creator.as_str(), sender) {
                    return Err(text::copy("only the token creator can mint"));
                }
                if !t.mintable {
                    return Err(text::copy("token supply is fixed"));
                }
                if amount == 0 {
                    return Err(text::copy("mint amount must be positive"));
                }
                if !crypto::is_valid_address(to) {
                    return Err(text::copy("invalid recipient address"));
                }
                Ok(())
            },
        },
    }
}

/// Checks a token transfer without writing anything.
pub fn check_token_transfer(
    store: &Store,
    sender: &str,
    to: &str,
    amount: u128,
    p: &Option<Payload>,
) -> (r: Result<(), String>)
    requires
        store.wf(),
    ensures
        state::agrees(
            r,
            may_transfer(store@.db, sender@, to@, amount as nat, types::payload_view(*p)),
        ),
{
    match p {
        None => Err(text::copy("token transaction missing payload")),
        Some(p) => match store.token(p.token.as_str()) {
            None => Err(text::copy("unknown token")),
            Some(t) => {
                if amount == 0 {
                    return Err(text::copy("amount must be positive"));
                }
                if !crypto::is_valid_address(to) {
                    return Err(text::copy("invalid recipient address"));
                }
                if store.token_balance(t.id.as_str(), sender) < amount {
                    return Err(text::copy("insufficient token balance"));
                }
                Ok(())
            },
        },
    }
}

/// Checks a burn without writing anything.
pub fn check_burn(store: &Store, sender: &str, amount: u128, p: &Option<Payload>) -> (r: Result<
    (),
    String,
>)
    requires
        store.wf(),
    ensures
        state::agrees(r, may_burn(store@.db, sender@, amount as nat, types::payload_view(*p))),
{
    match p {
        None => Err(text::copy("token transaction missing payload")),
        Some(p) => match store.token(p.token.as_str()) {
            None => Err(text::copy("unknown token")),
            Some(t) => {
                if amount == 0 {
                    return Err(text::copy("amount must be positive"));
                }
                if store.token_balance(t.id.as_str(), sender) < amount {
                    return Err(text::copy("insufficient token balance"));
                }
                Ok(())
            },
        },
    }
}

// ---------------------------------------------------------------- execution

/// The token a creation registers, before its initial supply.
pub open spec fn fresh_token(
    sender: Seq<char>,
    nonce: nat,
    symbol: Seq<char>,
    height: u64,
    p: PayloadV,
) -> TokenV {
    TokenV {
        id: token_id_of(sender, nonce, symbol),
        symbol,
        name: text::trimmed(p.name),
        decimals: p.decimals,
        supply: 0,
        creator: sender,
        mintable: p.mintable,
        created_height: height,
        holders: 0,
    }
}

/// Outcome of creating a token: its id and the database afterwards.
pub open spec fn created(
    db: Db,
    sender: Seq<char>,
    nonce: nat,
    supply: nat,
    height: u64,
    p: Option<PayloadV>,
) -> Result<(Seq<char>, Db), Seq<char>> {
    match p {
        None => Err("token transaction missing payload"@),
        Some(p) => match symbol_of(p.symbol) {
            Err(e) => Err(e),
            Ok(symbol) => {
                let t = fresh_token(sender, nonce, symbol, height, p);
                if p.decimals > MAX_DECIMALS {
                    Err("decimals too large"@)
                } else if state::token_of(db, t.id) is Some {
                    Err("token already exists"@)
                } else if supply == 0 {
                    Ok((t.id, state::with_token(db, t)))
                } else {
                    let (r, d) = state::credited(state::with_token(db, t), t.id, sender, supply);
                    match r {
                        Ok(_) => Ok((t.id, d)),
                        Err(e) => Err(e),
                    }
                }
            },
        },
    }
}

/// Outcome of minting more of a token.
pub open spec fn minted(
    db: Db,
    sender: Seq<char>,
    to: Seq<char>,
    amount: nat,
    p: Option<PayloadV>,
) -> Result<Db, Seq<char>> {
    match p {
        None => Err("token transaction missing payload"@),
        Some(p) => match state::token_of(db, p.token) {
            None => Err("unknown token"@),
            Some(t) => if t.creator != sender || !t.mintable {
                Err("not allowed to mint this token"@)
            } else {
                let (r, d) = state::credited(db, t.id, to, amount);
                match r {
                    Ok(_) => Ok(d),
                    Err(e) => Err(e),
                }
            },
        },
    }
}

/// Outcome of moving units of a token.
pub open spec fn transferred(
    db: Db,
    sender: Seq<char>,
    to: Seq<char>,
    amount: nat,
    p: Option<PayloadV>,
) -> Result<Db, Seq<char>> {
    match p {
        None => Err("token transaction missing payload"@),
        Some(p) => match state::token_of(db, p.token) {
            None => Err("unknown token"@),
            Some(t) => if sender == to {
                Ok(db)
            } else {
                let (r, d) = state::debited(db, t.id, sender, amount);
                match r {
                    Err(e) => Err(e),
                    Ok(_) => {
                        let (s, e) = state::credited(d, t.id, to, amount);
                        match s {
                            Ok(_) => Ok(e),
                            Err(m) => Err(m),
                        }
                    },
                }
            },
        },
    }
}

/// Outcome of destroying units of a token.
pub open spec fn burnt(
    db: Db,
    sender: Seq<char>,
    amount: nat,
    p: Option<PayloadV>,
) -> Result<Db, Seq<char>> {
    match p {
        None => Err("token transaction missing payload"@),
        Some(p) => match state::token_of(db, p.token) {
            None => Err("unknown token"@),
            Some(t) => {
                let (r, d) = state::debited(db, t.id, sender, amount);
                match r {
                    Ok(_) => Ok(d),
                    Err(e) => Err(e),
                }
            },
        },
    }
}

/// A write that may fail did what its model says.
pub open spec fn wrote(r: Result<(), String>, v: Result<Db, Seq<char>>, db: Db) -> bool {
    match r {
        Ok(_) => v == Ok::<Db, Seq<char>>(db),
        Err(e) => v == Err::<Db, Seq<char>>(e@),
    }
}

/// Creates a token and mints the initial supply to the creator.
pub fn apply_create(
    store: &mut Store,
    sender: &str,
    nonce: u64,
    initial_supply: u128,
    height: u64,
    p: &Option<Payload>,
) -> (r: Result<String, String>)
    requires
        old(store).wf(),
    ensures
        state::follows(*old(store), *final(store)),
        ({
            let v = created(
                old(store)@.db,
                sender@,
                nonce as nat,
                initial_supply as nat,
                height,
                types::payload_view(*p),
            );
            match r {
                Ok(id) => v == Ok::<(Seq<char>, Db), Seq<char>>((id@, final(store)@.db)),
                Err(e) => v == Err::<(Seq<char>, Db), Seq<char>>(e@),
            }
        }),
{
    match p {
        None => Err(text::copy("token transaction missing payload")),
        Some(p) => match normalize_symbol(p.symbol.as_str()) {
            Err(e) => Err(e),
            Ok(symbol) => {
                if p.decimals > MAX_DECIMALS {
                    return Err(text::copy("decimals too large"));
                }
                let id = token_id(sender, nonce, symbol.as_str());
                if store.token(id.as_str()).is_some() {
                    return Err(text::copy("token already exists"));
                }
                let token = Token {
                    id: id.clone(),
                    symbol,
                    name: text::trim(p.name.as_str()),
                    decimals: p.decimals,
                    supply: 0,
                    creator: text::copy(sender),
                    mintable: p.mintable,
                    created_height: height,
                    holders: 0,
                };
                store.set_token(&token);
                if initial_supply > 0 {
                    match store.credit_token(id.as_str(), sender, initial_supply) {
                        Ok(_) => {},
                        Err(e) => {
                            return Err(e);
                        },
                    }
                }
                Ok(id)
            },
        },
    }
}

/// Mints units of a token to an address.
pub fn apply_mint(
    store: &mut Store,
    sender: &str,
    to: &str,
    amount: u128,
    p: &Option<Payload>,
) -> (r: Result<(), String>)
    requires
        old(store).wf(),
    ensures
        state::follows(*old(store), *final(store)),
        wrote(
            r,
            minted(old(store)@.db, sender@, to@, amount as nat, types::payload_view(*p)),
            final(store)@.db,
        ),
{
    match p {
        None => Err(text::copy("token transaction missing payload")),
        Some(p) => match store.token(p.token.as_str()) {
            None => Err(text::copy("unknown token")),
            Some(t) => {
                if !text::same(t.creator.as_str(), sender) || !t.mintable {
                    return Err(text::copy("not allowed to mint this token"));
                }
                store.credit_token(t.id.as_str(), to, amount)
            },
        },
    }
}

/// Moves units of a token between accounts.
pub fn apply_token_transfer(
    store: &mut Store,
    sender: &str,
    to: &str,
    amount: u128,
    p: &Option<Payload>,
) -> (r: Result<(), String>)
    requires
        old(store).wf(),
    ensures
        state::follows(*old(store), *final(store)),
        wrote(
            r,
            transferred(old(store)@.db, sender@, to@, amount as nat, types::payload_view(*p)),
            final(store)@.db,
        ),
{
    match p {
        None => Err(text::copy("token transaction missing payload")),
        Some(p) => match store.token(p.token.as_str()) {
            None => Err(text::copy("unknown token")),
            Some(t) => {
                if text::same(sender, to) {
                    return Ok(());
                }
                match store.debit_token(t.id.as_str(), sender, amount) {
                    Err(e) => Err(e),
                    Ok(_) => store.credit_token(t.id.as_str(), to, amount),
                }
            },
        },
    }
}

/// Destroys units of a token held by the sender.
pub fn apply_burn(store: &mut Store, sender: &str, amount: u128, p: &Option<Payload>) -> (r:
    Result<(), String>)
    requires
        old(store).wf(),
    ensures
        state::follows(*old(store), *final(store)),
        wrote(
            r,
            burnt(old(store)@.db, sender@, amount as nat, types::payload_view(*p)),
            final(store)@.db,
        ),
{
    match p {
        None => Err(text::copy("token transaction missing payload")),
        Some(p) => match store.token(p.token.as_str()) {
            None => Err(text::copy("unknown token")),
            Some(t) => store.debit_token(t.id.as_str(), sender, amount),
        },
    }
}

} // verus!
