//! Core types: accounts, transactions, blocks and genesis.

use crate::crypto;
use crate::text;
use vstd::prelude::*;
use vstd::string::*;

verus! {

/// Smallest unit of INAZ. 1 INAZ = 1_000_000_000 rai (9 decimals).
pub const RAI_PER_INAZ: u128 = 1_000_000_000;

pub const CHAIN_ID: u64 = 7777;

/// 0.000001 INAZ.
pub const MIN_FEE: u128 = 1_000;

/// Stake required for an account to enter the validator set: 1,000 INAZ.
pub const MIN_STAKE: u128 = 1_000_000_000_000;

/// Blocks an unstaked amount stays locked before it is spendable again.
pub const UNBONDING_BLOCKS: u64 = 300;

/// Height at which downtime accounting and jailing switch on, unless genesis names
/// another one.
pub const SLASHING_ACTIVATION_HEIGHT: u64 = 130_000;

/// Floor burn for signing two conflicting blocks or votes at the same height.
pub const EQUIVOCATION_MIN_BURN_PCT: u128 = 5;

/// Correlation multiplier: the burn scales with the offender's share of total stake.
pub const EQUIVOCATION_CORRELATION_FACTOR: u128 = 3;

/// Cut of the burn paid to whoever submitted the proof.
pub const REPORTER_BOUNTY_PCT: u128 = 10;

/// Consecutive missed slots before a validator is jailed for downtime.
pub const DOWNTIME_JAIL_STREAK: u64 = 50;

/// Blocks a downtime jail lasts before `unjail` is accepted.
pub const DOWNTIME_JAIL_BLOCKS: u64 = 10_000;

/// Burn applied on a repeat downtime jail, in basis points of stake (0.1%).
pub const DOWNTIME_REPEAT_BURN_BPS: u128 = 10;

/// Evidence older than this many blocks is rejected.
pub const EVIDENCE_MAX_AGE_BLOCKS: u64 = 100_000;

/// Sentinel jail height for a permanently removed (tombstoned) validator.
pub const TOMBSTONE_HEIGHT: u64 = u64::MAX;

/// Height at which downtime jailing is retired. From here on missing slots only
/// costs rewards, and an existing downtime jail is inert; provable faults still
/// tombstone.
pub const NO_DOWNTIME_JAIL_HEIGHT: u64 = 1_400_000;

/// Height the retirement of downtime jails reached the public network.
pub const RETRO_FORK_DEPLOY_HEIGHT: u64 = 1_403_733;

/// Height the inactivity leak activates: from here a validator that keeps missing
/// slots has its bond decayed per missed slot until it falls out of the set.
pub const INACTIVITY_LEAK_ACTIVATION_HEIGHT: u64 = 2_000_000;

/// Consecutive missed slots before the leak starts biting.
pub const INACTIVITY_LEAK_STREAK: u64 = 50;

/// Bond decay per missed slot once leaking, in basis points (0.05%).
pub const INACTIVITY_LEAK_BPS: u128 = 5;

/// How far behind the best known peer this node may be and still produce.
pub const PRODUCE_LAG_TOLERANCE: u64 = 2;

// ---------------------------------------------------------------- chain parameters

/// Chain identity that comes from genesis and never changes at run time.
#[derive(Clone, Copy, Debug, PartialEq, Eq, Structural)]
pub struct ChainParams {
    /// Height from which missed slots are charged.
    pub slashing_activation: u64,
}

/// Fixes the slashing activation height. Called once at boot, from genesis.
pub fn set_slashing_activation(params: &mut ChainParams, h: u64)
    ensures
        *final(params) == (ChainParams { slashing_activation: h }),
{
    params.slashing_activation = h;
}

/// The slashing activation height in force.
pub fn slashing_activation(params: &ChainParams) -> (r: u64)
    ensures
        r == params.slashing_activation,
{
    params.slashing_activation
}

/// True while downtime still jails.
pub fn downtime_jail_enabled(height: u64) -> (r: bool)
    ensures
        r == (height < NO_DOWNTIME_JAIL_HEIGHT),
{
    height < NO_DOWNTIME_JAIL_HEIGHT
}

/// True once the inactivity leak replaces downtime jailing as the liveness cost.
pub fn inactivity_leak_enabled(height: u64) -> (r: bool)
    ensures
        r == (height >= INACTIVITY_LEAK_ACTIVATION_HEIGHT),
{
    height >= INACTIVITY_LEAK_ACTIVATION_HEIGHT
}

/// What this node knows of its peers' progress.
#[derive(Clone, Copy, Debug, PartialEq, Eq, Structural)]
pub struct SyncView {
    /// Highest block height any peer has reported.
    pub best_peer_height: u64,
}

/// Remembers a height a peer reported, if it is the highest so far.
pub fn note_peer_height(sync: &mut SyncView, height: u64)
    ensures
        final(sync).best_peer_height == if height > old(sync).best_peer_height {
            height
        } else {
            old(sync).best_peer_height
        },
{
    if height > sync.best_peer_height {
        sync.best_peer_height = height;
    }
}

/// Highest height any peer has reported.
pub fn best_peer_height(sync: &SyncView) -> (r: u64)
    ensures
        r == sync.best_peer_height,
{
    sync.best_peer_height
}

// ---------------------------------------------------------------- amounts

/// Writes an amount of rai in INAZ with nine decimals.
pub fn format_inaz(rai: u128) -> (r: String)
    ensures
        r@ == text::fixed_text(rai as nat, 9),
{
    text::format_fixed(rai, 9)
}

/// Reads an amount of INAZ with at most nine decimals as rai.
pub fn parse_inaz(s: &str) -> (r: Result<u128, String>)
    ensures
        match text::fixed_value(s@, 9) {
            Ok(n) => r matches Ok(v) && v == n,
            Err(m) => r matches Err(e) && e@ == m,
        },
{
    text::parse_fixed(s, 9)
}

/// Every amount is read back from its written form.
pub proof fn law_inaz_round_trip(rai: u128)
    ensures
        text::fixed_value(text::fixed_text(rai as nat, 9), 9) == Ok::<nat, Seq<char>>(rai as nat),
{
    text::law_fixed_round_trip(rai as nat, 9);
}

// ---------------------------------------------------------------- accounts

/// An amount unstaked but still locked.
#[derive(Clone, Copy, Debug, PartialEq, Eq, Structural)]
pub struct Unbond {
    pub amount: u128,
    pub release_height: u64,
}

/// Slashing and liveness bookkeeping kept on the account. It stays out of the state
/// root: it is derived from block history.
#[derive(Clone, Copy, Debug, PartialEq, Eq, Structural)]
pub struct Penalties {
    /// Height the validator becomes electable again. `TOMBSTONE_HEIGHT` = never.
    pub jailed_until: u64,
    /// Permanently removed for equivocation.
    pub tombstoned: bool,
    /// Lifetime rai burned by slashing.
    pub slashed: u128,
    /// Lifetime slots this validator was elected for and did not seal.
    pub missed_slots: u64,
    /// Consecutive missed slots; reset whenever the validator seals a block.
    pub missed_streak: u64,
    /// How many times this validator has been jailed for downtime.
    pub downtime_jails: u64,
    /// True when `jailed_until` was set by a provable fault, not by downtime.
    pub jail_fault: bool,
    /// Lifetime bond decayed by the inactivity leak.
    pub leaked: u128,
}

/// No penalty at all.
pub open spec fn no_penalties() -> Penalties {
    Penalties {
        jailed_until: 0,
        tombstoned: false,
        slashed: 0,
        missed_slots: 0,
        missed_streak: 0,
        downtime_jails: 0,
        jail_fault: false,
        leaked: 0,
    }
}

impl Default for Penalties {
    fn default() -> (r: Penalties)
        ensures
            r == no_penalties(),
    {
        Penalties {
            jailed_until: 0,
            tombstoned: false,
            slashed: 0,
            missed_slots: 0,
            missed_streak: 0,
            downtime_jails: 0,
            jail_fault: false,
            leaked: 0,
        }
    }
}

/// One account of the ledger.
#[derive(Debug)]
pub struct Account {
    pub balance: u128,
    pub nonce: u64,
    pub staked: u128,
    /// Amounts unstaked but still locked, each with the height it unlocks at.
    pub unbonding: Vec<Unbond>,
    /// Lifetime staking rewards credited to this account.
    pub rewards: u128,
    /// Blocks this account has produced as elected leader.
    pub blocks_produced: u64,
    /// Liveness and slashing record of this validator.
    pub penalties: Penalties,
}

/// Mathematical model of an account.
#[verifier::ext_equal]
pub struct AccountV {
    pub balance: u128,
    pub nonce: u64,
    pub staked: u128,
    pub unbonding: Seq<Unbond>,
    pub rewards: u128,
    pub blocks_produced: u64,
    pub penalties: Penalties,
}

/// Sum of locked amounts.
pub open spec fn unbond_sum(s: Seq<Unbond>) -> nat
    decreases s.len(),
{
    if s.len() == 0 {
        0
    } else {
        unbond_sum(s.drop_last()) + s.last().amount as nat
    }
}

/// `n`, or the largest 128-bit number when `n` does not fit.
pub open spec fn cap128(n: nat) -> u128 {
    if n <= u128::MAX {
        n as u128
    } else {
        u128::MAX
    }
}

impl View for Account {
    type V = AccountV;

    open spec fn view(&self) -> AccountV {
        AccountV {
            balance: self.balance,
            nonce: self.nonce,
            staked: self.staked,
            unbonding: self.unbonding@,
            rewards: self.rewards,
            blocks_produced: self.blocks_produced,
            penalties: self.penalties,
        }
    }
}

/// The account an address has before anything touched it.
pub open spec fn blank_account() -> AccountV {
    AccountV {
        balance: 0,
        nonce: 0,
        staked: 0,
        unbonding: Seq::empty(),
        rewards: 0,
        blocks_produced: 0,
        penalties: no_penalties(),
    }
}

impl AccountV {
    /// Everything still locked after unstaking.
    pub open spec fn locked(self) -> nat {
        unbond_sum(self.unbonding)
    }

    /// Everything the account owns: spendable, bonded and locked.
    pub open spec fn worth(self) -> nat {
        self.balance as nat + self.staked as nat + self.locked()
    }

    /// Bonded with at least the minimum.
    pub open spec fn validating(self) -> bool {
        self.staked >= MIN_STAKE
    }

    /// A jail that still counts at `height`: once downtime jails are retired only one
    /// that a provable fault set.
    pub open spec fn held(self, height: u64) -> bool {
        &&& self.penalties.jailed_until > height
        &&& self.penalties.jail_fault || height < NO_DOWNTIME_JAIL_HEIGHT
    }

    /// Bonded, not jailed and not tombstoned at `height`.
    pub open spec fn active(self, height: u64) -> bool {
        &&& self.validating()
        &&& !self.penalties.tombstoned
        &&& height < NO_DOWNTIME_JAIL_HEIGHT || self.penalties.jailed_until
            != TOMBSTONE_HEIGHT
        &&& !self.held(height)
    }

    /// Serving a jail at `height`, or removed for good.
    pub open spec fn jailed(self, height: u64) -> bool {
        ||| self.penalties.tombstoned
        ||| self.penalties.jailed_until == TOMBSTONE_HEIGHT
        ||| self.held(height)
    }
}

impl Default for Account {
    fn default() -> (r: Account)
        ensures
            r@ == blank_account(),
    {
        let a = Account {
            balance: 0,
            nonce: 0,
            staked: 0,
            unbonding: Vec::new(),
            rewards: 0,
            blocks_produced: 0,
            penalties: Penalties::default(),
        };
        assert(a@ =~= blank_account());
        a
    }
}

impl Clone for Account {
    fn clone(&self) -> (r: Account)
        ensures
            r@ == self@,
    {
        let a = Account {
            balance: self.balance,
            nonce: self.nonce,
            staked: self.staked,
            unbonding: vstd::slice::slice_to_vec(self.unbonding.as_slice()),
            rewards: self.rewards,
            blocks_produced: self.blocks_produced,
            penalties: self.penalties,
        };
        assert(a@ =~= self@);
        a
    }
}

impl Account {
    /// Everything still locked after unstaking, capped at the largest amount.
    pub fn unbonding_total(&self) -> (r: u128)
        ensures
            r == cap128(self@.locked()),
    {
        let mut total: u128 = 0;
        let mut i: usize = 0;
        assert(self.unbonding@.take(0) =~= Seq::<Unbond>::empty());
        while i < self.unbonding.len()
            invariant
                i <= self.unbonding@.len(),
                total == cap128(unbond_sum(self.unbonding@.take(i as int))),
            decreases self.unbonding@.len() - i,
        {
            proof {
                let t = self.unbonding@.take(i + 1);
                assert(t.drop_last() =~= self.unbonding@.take(i as int));
                assert(t.last() == self.unbonding@[i as int]);
            }
            total = total.saturating_add(self.unbonding[i].amount);
            i = i + 1;
        }
        assert(self.unbonding@.take(self.unbonding@.len() as int) =~= self.unbonding@);
        total
    }

    /// Bonded with at least the minimum.
    pub fn is_validator(&self) -> (r: bool)
        ensures
            r == self@.validating(),
    {
        self.staked >= MIN_STAKE
    }

    /// Bonded, not jailed and not tombstoned at `height`.
    pub fn is_active_validator(&self, height: u64) -> (r: bool)
        ensures
            r == self@.active(height),
    {
        if !self.is_validator() || self.penalties.tombstoned {
            return false;
        }
        if !downtime_jail_enabled(height) && self.penalties.jailed_until == TOMBSTONE_HEIGHT {
            return false;
        }
        !self.is_held(height)
    }

    /// A jail that still counts at `height`.
    fn is_held(&self, height: u64) -> (r: bool)
        ensures
            r == self@.held(height),
    {
        self.penalties.jailed_until > height && (self.penalties.jail_fault
            || downtime_jail_enabled(height))
    }

    /// Serving a jail at `height`, or removed for good.
    pub fn is_jailed(&self, height: u64) -> (r: bool)
        ensures
            r == self@.jailed(height),
    {
        if self.penalties.tombstoned || self.penalties.jailed_until == TOMBSTONE_HEIGHT {
            return true;
        }
        self.is_held(height)
    }
}

/// A bonded account is active exactly when it is not jailed.
pub proof fn law_active_iff_not_jailed(a: AccountV, height: u64)
    requires
        a.validating(),
    ensures
        a.active(height) == !a.jailed(height),
{
}

/// A jail that a provable fault set is served to its end, at whatever height the
/// downtime rules end.
pub proof fn law_fault_jail_is_served(a: AccountV, height: u64)
    requires
        a.penalties.jail_fault,
        height < a.penalties.jailed_until,
    ensures
        a.jailed(height),
        !a.active(height),
{
}

/// A tombstone is for ever: no height makes the account active again.
pub proof fn law_tombstone_is_permanent(a: AccountV, height: u64)
    requires
        a.penalties.tombstoned,
    ensures
        !a.active(height),
        a.jailed(height),
{
}

// ---------------------------------------------------------------- transactions

/// What a transaction asks for.
#[derive(Clone, Copy, Debug, PartialEq, Eq, Structural)]
pub enum TxKind {
    Transfer,
    Stake,
    Unstake,
    /// Submit proof that a validator signed two conflicting blocks or votes.
    ReportEquivocation,
    /// Ask to leave a downtime jail once the jail period has passed.
    Unjail,
    /// Create a new native token.
    CreateToken,
    /// Mint more of a mintable token to an address.
    MintToken,
    /// Move native token units between accounts.
    TokenTransfer,
    /// Permanently destroy token units held by the sender.
    BurnToken,
    /// Put a WASM contract on chain.
    DeployContract,
    /// Execute a deployed contract.
    CallContract,
    /// Move public INAZ into the shielded pool, creating private notes.
    Shield,
    /// Move value between shielded notes.
    PrivateTransfer,
    /// Exit the shielded pool: burn notes, credit a public address.
    Unshield,
}

/// The word that stands for a kind in signed bytes.
pub open spec fn kind_tag(k: TxKind) -> Seq<char> {
    match k {
        TxKind::Transfer => "transfer"@,
        TxKind::Stake => "stake"@,
        TxKind::Unstake => "unstake"@,
        TxKind::ReportEquivocation => "reportequivocation"@,
        TxKind::Unjail => "unjail"@,
        TxKind::CreateToken => "createtoken"@,
        TxKind::MintToken => "minttoken"@,
        TxKind::TokenTransfer => "tokentransfer"@,
        TxKind::BurnToken => "burntoken"@,
        TxKind::DeployContract => "deploycontract"@,
        TxKind::CallContract => "callcontract"@,
        TxKind::Shield => "shield"@,
        TxKind::PrivateTransfer => "privatetransfer"@,
        TxKind::Unshield => "unshield"@,
    }
}

impl TxKind {
    /// The word that stands for the kind in signed bytes.
    pub fn tag(&self) -> (r: &'static str)
        ensures
            r@ == kind_tag(*self),
    {
        match self {
            TxKind::Transfer => "transfer",
            TxKind::Stake => "stake",
            TxKind::Unstake => "unstake",
            TxKind::ReportEquivocation => "reportequivocation",
            TxKind::Unjail => "unjail",
            TxKind::CreateToken => "createtoken",
            TxKind::MintToken => "minttoken",
            TxKind::TokenTransfer => "tokentransfer",
            TxKind::BurnToken => "burntoken",
            TxKind::DeployContract => "deploycontract",
            TxKind::CallContract => "callcontract",
            TxKind::Shield => "shield",
            TxKind::PrivateTransfer => "privatetransfer",
            TxKind::Unshield => "unshield",
        }
    }

    /// The word shown for the kind.
    pub fn label(&self) -> (r: &'static str)
        ensures
            r@ == kind_tag(*self),
    {
        self.tag()
    }

    /// Moves native tokens.
    pub open spec fn of_token(self) -> bool {
        self is CreateToken || self is MintToken || self is TokenTransfer || self is BurnToken
    }

    /// Moves native tokens.
    pub fn is_token(&self) -> (r: bool)
        ensures
            r == self.of_token(),
    {
        matches!(
            self,
            TxKind::CreateToken | TxKind::MintToken | TxKind::TokenTransfer | TxKind::BurnToken
        )
    }

    /// Deploys or calls a contract.
    pub open spec fn of_contract(self) -> bool {
        self is DeployContract || self is CallContract
    }

    /// Deploys or calls a contract.
    pub fn is_contract(&self) -> (r: bool)
        ensures
            r == self.of_contract(),
    {
        matches!(self, TxKind::DeployContract | TxKind::CallContract)
    }

    /// Touches the shielded pool.
    pub open spec fn of_pool(self) -> bool {
        self is Shield || self is PrivateTransfer || self is Unshield
    }

    /// Touches the shielded pool.
    pub fn is_shielded(&self) -> (r: bool)
        ensures
            r == self.of_pool(),
    {
        matches!(self, TxKind::Shield | TxKind::PrivateTransfer | TxKind::Unshield)
    }
}

/// Shielded part of a transaction: hexadecimal field elements and decimal amounts.
#[derive(Debug)]
pub struct ShieldedData {
    /// Commitment-tree root the spend proof anchors to.
    pub anchor: String,
    /// Revealed nullifiers of the spent notes.
    pub nullifiers: Vec<String>,
    /// Commitments of the notes created by this transaction.
    pub commitments: Vec<String>,
    /// Groth16 proof, hexadecimal. Empty for a shield.
    pub proof: String,
    /// Public value leaving the pool, in rai, decimal.
    pub public_unshield: String,
}

/// Model of the shielded part.
#[verifier::ext_equal]
pub struct ShieldedV {
    pub anchor: Seq<char>,
    pub nullifiers: Seq<Seq<char>>,
    pub commitments: Seq<Seq<char>>,
    pub proof: Seq<char>,
    pub public_unshield: Seq<char>,
}

/// The texts of a list of strings.
pub open spec fn texts(v: Seq<String>) -> Seq<Seq<char>> {
    v.map_values(|s: String| s@)
}

/// A copy of a list of strings.
pub fn copy_texts(v: &Vec<String>) -> (r: Vec<String>)
    ensures
        texts(r@) == texts(v@),
        r@.len() == v@.len(),
{
    let mut out: Vec<String> = Vec::new();
    let mut i: usize = 0;
    while i < v.len()
        invariant
            i <= v@.len(),
            out@.len() == i,
            forall|j: int| 0 <= j < i ==> (#[trigger] out@[j])@ == v@[j]@,
        decreases v@.len() - i,
    {
        out.push(v[i].clone());
        i = i + 1;
    }
    assert(texts(out@) =~= texts(v@));
    out
}

impl View for ShieldedData {
    type V = ShieldedV;

    open spec fn view(&self) -> ShieldedV {
        ShieldedV {
            anchor: self.anchor@,
            nullifiers: texts(self.nullifiers@),
            commitments: texts(self.commitments@),
            proof: self.proof@,
            public_unshield: self.public_unshield@,
        }
    }
}

impl Default for ShieldedData {
    fn default() -> (r: ShieldedData)
        ensures
            r@ == (ShieldedV {
                anchor: Seq::empty(),
                nullifiers: Seq::empty(),
                commitments: Seq::empty(),
                proof: Seq::empty(),
                public_unshield: Seq::empty(),
            }),
    {
        let s = ShieldedData {
            anchor: String::new(),
            nullifiers: Vec::new(),
            commitments: Vec::new(),
            proof: String::new(),
            public_unshield: String::new(),
        };
        assert(texts(s.nullifiers@) =~= Seq::empty());
        assert(texts(s.commitments@) =~= Seq::empty());
        s
    }
}

impl Clone for ShieldedData {
    fn clone(&self) -> (r: ShieldedData)
        ensures
            r@ == self@,
    {
        ShieldedData {
            anchor: self.anchor.clone(),
            nullifiers: copy_texts(&self.nullifiers),
            commitments: copy_texts(&self.commitments),
            proof: self.proof.clone(),
            public_unshield: self.public_unshield.clone(),
        }
    }
}

/// Extra fields carried by token and contract transactions. Part of the signed
/// bytes, so a payload can never be altered in flight.
#[derive(Debug)]
pub struct Payload {
    /// Token id, for mint / transfer / burn.
    pub token: String,
    /// Ticker, for creation.
    pub symbol: String,
    pub name: String,
    pub decimals: u8,
    pub mintable: bool,
    /// Hexadecimal WASM bytecode, deploy only.
    pub code: String,
    /// Hexadecimal call input handed to the contract.
    pub args: String,
}

/// Model of a payload.
#[verifier::ext_equal]
pub struct PayloadV {
    pub token: Seq<char>,
    pub symbol: Seq<char>,
    pub name: Seq<char>,
    pub decimals: u8,
    pub mintable: bool,
    pub code: Seq<char>,
    pub args: Seq<char>,
}

impl View for Payload {
    type V = PayloadV;

    open spec fn view(&self) -> PayloadV {
        PayloadV {
            token: self.token@,
            symbol: self.symbol@,
            name: self.name@,
            decimals: self.decimals,
            mintable: self.mintable,
            code: self.code@,
            args: self.args@,
        }
    }
}

impl Default for Payload {
    fn default() -> (r: Payload)
        ensures
            r@ == (PayloadV {
                token: Seq::empty(),
                symbol: Seq::empty(),
                name: Seq::empty(),
                decimals: 0,
                mintable: false,
                code: Seq::empty(),
                args: Seq::empty(),
            }),
    {
        Payload {
            token: String::new(),
            symbol: String::new(),
            name: String::new(),
            decimals: 0,
            mintable: false,
            code: String::new(),
            args: String::new(),
        }
    }
}

impl Clone for Payload {
    fn clone(&self) -> (r: Payload)
        ensures
            r@ == self@,
    {
        Payload {
            token: self.token.clone(),
            symbol: self.symbol.clone(),
            name: self.name.clone(),
            decimals: self.decimals,
            mintable: self.mintable,
            code: self.code.clone(),
            args: self.args.clone(),
        }
    }
}

/// `true` or `false`.
pub open spec fn bool_text(b: bool) -> Seq<char> {
    if b {
        "true"@
    } else {
        "false"@
    }
}

impl PayloadV {
    /// The part of the legacy preimage a payload contributes. Contract fields only
    /// extend it when present.
    pub open spec fn signing_text(self) -> Seq<char> {
        let base = self.token + "|"@ + self.symbol + "|"@ + self.name + "|"@ + text::dec(
            self.decimals as nat,
        ) + "|"@ + bool_text(self.mintable);
        if self.code.len() == 0 && self.args.len() == 0 {
            base
        } else {
            base + "|"@ + self.code + "|"@ + self.args
        }
    }
}

impl Payload {
    /// The part of the legacy preimage a payload contributes.
    pub fn signing_part(&self) -> (r: String)
        ensures
            r@ == self@.signing_text(),
    {
        let mut s = text::copy(&self.token);
        s.append("|");
        s.append(&self.symbol);
        s.append("|");
        s.append(&self.name);
        s.append("|");
        text::push_dec(&mut s, self.decimals as u128);
        s.append("|");
        if self.mintable {
            s.append("true");
        } else {
            s.append("false");
        }
        if !(self.code.as_str().is_empty() && self.args.as_str().is_empty()) {
            s.append("|");
            s.append(&self.code);
            s.append("|");
            s.append(&self.args);
        }
        s
    }
}

/// No `|` in a text.
pub open spec fn bar_free(s: Seq<char>) -> bool {
    !s.contains('|')
}

/// The legacy preimage joins fields with `|`; every signed string field has to be
/// free of it before a signature is trusted.
pub fn delimiter_free(s: &str) -> (r: bool)
    ensures
        r == bar_free(s@),
{
    !text::has_char(s, '|')
}

/// A field of the canonical encoding: its byte length (32 bits, big endian), then
/// its bytes.
pub open spec fn field(b: Seq<u8>) -> Seq<u8> {
    text::be((b.len() % 0x1_0000_0000) as nat, 4) + b
}

/// Appends a length-prefixed field.
pub fn push_field(buf: &mut Vec<u8>, bytes: &[u8])
    ensures
        final(buf)@ == old(buf)@ + field(bytes@),
{
    let n: u64 = bytes.len() as u64;
    text::push_be(buf, (n % 0x1_0000_0000) as u128, 4);
    text::push_bytes(buf, bytes);
    assert(buf@ =~= old(buf)@ + field(bytes@));
}

fn push_str(buf: &mut Vec<u8>, s: &str)
    ensures
        final(buf)@ == old(buf)@ + field(text::utf8(s@)),
{
    push_field(buf, s.as_bytes());
}

/// Domain tag of the canonical transaction preimage.
pub const TX_DOMAIN_V2: &'static str = "inazuma-tx-v2";

/// A transaction.
#[derive(Debug)]
pub struct Transaction {
    pub kind: TxKind,
    /// Sender public key, hexadecimal. The sender address is derived from it.
    pub from_pubkey: String,
    pub to: String,
    pub amount: u128,
    pub fee: u128,
    pub nonce: u64,
    pub chain_id: u64,
    /// Only present on token and contract transactions.
    pub payload: Option<Payload>,
    /// Only present on shielded transactions.
    pub shielded: Option<ShieldedData>,
    pub signature: String,
}

/// Model of a transaction.
#[verifier::ext_equal]
pub struct TxV {
    pub kind: TxKind,
    pub from_pubkey: Seq<char>,
    pub to: Seq<char>,
    pub amount: u128,
    pub fee: u128,
    pub nonce: u64,
    pub chain_id: u64,
    pub payload: Option<PayloadV>,
    pub shielded: Option<ShieldedV>,
    pub signature: Seq<char>,
}

/// Model of an optional payload.
pub open spec fn payload_view(p: Option<Payload>) -> Option<PayloadV> {
    match p {
        Some(x) => Some(x@),
        None => None,
    }
}

/// Model of an optional shielded part.
pub open spec fn shielded_view(p: Option<ShieldedData>) -> Option<ShieldedV> {
    match p {
        Some(x) => Some(x@),
        None => None,
    }
}

impl View for Transaction {
    type V = TxV;

    open spec fn view(&self) -> TxV {
        TxV {
            kind: self.kind,
            from_pubkey: self.from_pubkey@,
            to: self.to@,
            amount: self.amount,
            fee: self.fee,
            nonce: self.nonce,
            chain_id: self.chain_id,
            payload: payload_view(self.payload),
            shielded: shielded_view(self.shielded),
            signature: self.signature@,
        }
    }
}

/// A copy of an optional payload.
pub fn copy_payload(p: &Option<Payload>) -> (r: Option<Payload>)
    ensures
        payload_view(r) == payload_view(*p),
{
    match p {
        Some(x) => Some(x.clone()),
        None => None,
    }
}

impl Clone for Transaction {
    fn clone(&self) -> (r: Transaction)
        ensures
            r@ == self@,
    {
        Transaction {
            kind: self.kind,
            from_pubkey: self.from_pubkey.clone(),
            to: self.to.clone(),
            amount: self.amount,
            fee: self.fee,
            nonce: self.nonce,
            chain_id: self.chain_id,
            payload: copy_payload(&self.payload),
            shielded: match &self.shielded {
                Some(s) => Some(s.clone()),
                None => None,
            },
            signature: self.signature.clone(),
        }
    }
}

/// Canonical encoding of a list of texts: a count, then each text as a field.
pub open spec fn fields_of(v: Seq<Seq<char>>) -> Seq<u8>
    decreases v.len(),
{
    if v.len() == 0 {
        Seq::empty()
    } else {
        fields_of(v.drop_last()) + field(text::utf8(v.last()))
    }
}

/// A field holding a text.
pub open spec fn text_field(s: Seq<char>) -> Seq<u8> {
    field(text::utf8(s))
}

/// A counted list of text fields.
pub open spec fn list_field(v: Seq<Seq<char>>) -> Seq<u8> {
    text::be((v.len() % 0x1_0000_0000) as nat, 4) + fields_of(v)
}

/// Canonical encoding of an optional payload: a presence byte, then its fields.
pub open spec fn payload_bytes(p: Option<PayloadV>) -> Seq<u8> {
    match p {
        None => seq![0u8],
        Some(x) => seq![1u8] + text_field(x.token) + text_field(x.symbol) + text_field(x.name)
            + seq![x.decimals] + seq![
            if x.mintable {
                1u8
            } else {
                0u8
            },
        ] + text_field(x.code) + text_field(x.args),
    }
}

/// Canonical encoding of an optional shielded part.
pub open spec fn shielded_bytes(p: Option<ShieldedV>) -> Seq<u8> {
    match p {
        None => seq![0u8],
        Some(x) => seq![1u8] + text_field(x.anchor) + list_field(x.nullifiers) + list_field(
            x.commitments,
        ) + text_field(x.proof) + text_field(x.public_unshield),
    }
}

impl TxV {
    /// The legacy preimage: fields joined with `|`.
    pub open spec fn signing_text(self) -> Seq<char> {
        let base = "inazuma-tx|"@ + text::dec(self.chain_id as nat) + "|"@ + kind_tag(self.kind)
            + "|"@ + self.from_pubkey + "|"@ + self.to + "|"@ + text::dec(self.amount as nat)
            + "|"@ + text::dec(self.fee as nat) + "|"@ + text::dec(self.nonce as nat);
        match self.payload {
            None => base,
            Some(p) => base + "|"@ + p.signing_text(),
        }
    }

    /// The canonical preimage: domain tag plus every field, lengths included.
    pub open spec fn canonical(self) -> Seq<u8> {
        text_field(TX_DOMAIN_V2@) + text::be(self.chain_id as nat, 8) + text_field(
            kind_tag(self.kind),
        ) + text_field(self.from_pubkey) + text_field(self.to) + text::be(self.amount as nat, 16)
            + text::be(self.fee as nat, 16) + text::be(self.nonce as nat, 8) + payload_bytes(
            self.payload,
        ) + shielded_bytes(self.shielded)
    }

    /// No signed field can shift the boundaries of the legacy preimage.
    pub open spec fn unambiguous(self) -> bool {
        &&& bar_free(self.from_pubkey)
        &&& bar_free(self.to)
        &&& match self.payload {
            None => true,
            Some(p) => bar_free(p.token) && bar_free(p.symbol) && bar_free(p.name) && bar_free(
                p.code,
            ) && bar_free(p.args),
        }
    }

    /// Hash that identifies the transaction.
    pub open spec fn hash_text(self) -> Seq<char> {
        crypto::hash_text(text::utf8(self.signing_text()) + text::utf8(self.signature))
    }

    /// Address of the sender.
    pub open spec fn sender(self) -> Option<Seq<char>> {
        crypto::address_of_hex(self.from_pubkey)
    }

    /// Whether the signature is accepted: over the canonical preimage always, over
    /// the legacy one only outside the shielded pool and when it is unambiguous.
    pub open spec fn signed(self) -> bool {
        ||| crypto::signature_ok(self.from_pubkey, self.canonical(), self.signature)
        ||| !self.kind.of_pool() && self.unambiguous() && crypto::signature_ok(
            self.from_pubkey,
            text::utf8(self.signing_text()),
            self.signature,
        )
    }
}

impl Transaction {
    /// True when no signed field can shift the preimage's field boundaries.
    pub fn fields_unambiguous(&self) -> (r: bool)
        ensures
            r == self@.unambiguous(),
    {
        if !delimiter_free(&self.from_pubkey) || !delimiter_free(&self.to) {
            return false;
        }
        match &self.payload {
            None => true,
            Some(p) => delimiter_free(&p.token) && delimiter_free(&p.symbol) && delimiter_free(
                &p.name,
            ) && delimiter_free(&p.code) && delimiter_free(&p.args),
        }
    }

    /// The legacy preimage.
    pub fn signing_bytes(&self) -> (r: Vec<u8>)
        ensures
            r@ == text::utf8(self@.signing_text()),
    {
        let mut s = text::copy("inazuma-tx|");
        text::push_dec(&mut s, self.chain_id as u128);
        s.append("|");
        s.append(self.kind.tag());
        s.append("|");
        s.append(&self.from_pubkey);
        s.append("|");
        s.append(&self.to);
        s.append("|");
        text::push_dec(&mut s, self.amount);
        s.append("|");
        text::push_dec(&mut s, self.fee);
        s.append("|");
        text::push_dec(&mut s, self.nonce as u128);
        match &self.payload {
            None => {},
            Some(p) => {
                s.append("|");
                let part = p.signing_part();
                s.append(&part);
            },
        }
        text::bytes_of(&s)
    }

    /// The canonical preimage.
    pub fn canonical_signing_bytes(&self) -> (r: Vec<u8>)
        ensures
            r@ == self@.canonical(),
    {
        let mut b: Vec<u8> = Vec::new();
        push_str(&mut b, TX_DOMAIN_V2);
        assert(b@ =~= text_field(TX_DOMAIN_V2@));
        text::push_be(&mut b, self.chain_id as u128, 8);
        push_str(&mut b, self.kind.tag());
        push_str(&mut b, &self.from_pubkey);
        push_str(&mut b, &self.to);
        text::push_be(&mut b, self.amount, 16);
        text::push_be(&mut b, self.fee, 16);
        text::push_be(&mut b, self.nonce as u128, 8);
        let p = encode_payload(&self.payload);
        text::push_bytes(&mut b, p.as_slice());
        let s = encode_shielded(&self.shielded);
        text::push_bytes(&mut b, s.as_slice());
        b
    }

    /// Hash that identifies the transaction.
    pub fn hash(&self) -> (r: String)
        ensures
            r@ == self@.hash_text(),
    {
        let mut b = self.signing_bytes();
        text::push_text(&mut b, &self.signature);
        crypto::hash_hex(b.as_slice())
    }

    /// Address of the sender, when the public key is 32 hexadecimal bytes.
    pub fn sender(&self) -> (r: Option<String>)
        ensures
            match r {
                Some(a) => self@.sender() == Some(a@),
                None => self@.sender() is None,
            },
    {
        crypto::address_from_hex(&self.from_pubkey)
    }

    /// Whether the signature is accepted.
    pub fn verify_signature(&self) -> (r: bool)
        ensures
            r == self@.signed(),
    {
        let canonical = self.canonical_signing_bytes();
        if crypto::verify(&self.from_pubkey, canonical.as_slice(), &self.signature) {
            return true;
        }
        if self.kind.is_shielded() {
            return false;
        }
        let legacy = self.signing_bytes();
        self.fields_unambiguous() && crypto::verify(
            &self.from_pubkey,
            legacy.as_slice(),
            &self.signature,
        )
    }
}

/// Canonical encoding of an optional payload.
fn encode_payload(payload: &Option<Payload>) -> (r: Vec<u8>)
    ensures
        r@ == payload_bytes(payload_view(*payload)),
{
    let mut b: Vec<u8> = Vec::new();
    match payload {
        None => {
            b.push(0);
            assert(b@ =~= seq![0u8]);
        },
        Some(p) => {
            b.push(1);
            assert(b@ =~= seq![1u8]);
            push_str(&mut b, &p.token);
            push_str(&mut b, &p.symbol);
            push_str(&mut b, &p.name);
            let ghost head = b@;
            b.push(p.decimals);
            assert(b@ =~= head + seq![p.decimals]);
            let m: u8 = if p.mintable {
                1
            } else {
                0
            };
            let ghost head = b@;
            b.push(m);
            assert(b@ =~= head + seq![m]);
            push_str(&mut b, &p.code);
            push_str(&mut b, &p.args);
        },
    }
    b
}

/// Canonical encoding of an optional shielded part.
fn encode_shielded(shielded: &Option<ShieldedData>) -> (r: Vec<u8>)
    ensures
        r@ == shielded_bytes(shielded_view(*shielded)),
{
    let mut b: Vec<u8> = Vec::new();
    match shielded {
        None => {
            b.push(0);
            assert(b@ =~= seq![0u8]);
        },
        Some(s) => {
            b.push(1);
            assert(b@ =~= seq![1u8]);
            push_str(&mut b, &s.anchor);
            push_list(&mut b, &s.nullifiers);
            push_list(&mut b, &s.commitments);
            push_str(&mut b, &s.proof);
            push_str(&mut b, &s.public_unshield);
        },
    }
    b
}

/// Appends a counted list of text fields.
fn push_list(buf: &mut Vec<u8>, v: &Vec<String>)
    ensures
        final(buf)@ == old(buf)@ + list_field(texts(v@)),
{
    let n: u64 = v.len() as u64;
    text::push_be(buf, (n % 0x1_0000_0000) as u128, 4);
    let ghost head = buf@;
    let mut i: usize = 0;
    assert(texts(v@).take(0) =~= Seq::<Seq<char>>::empty());
    assert(buf@ =~= head + fields_of(texts(v@).take(0)));
    while i < v.len()
        invariant
            i <= v@.len(),
            buf@ == head + fields_of(texts(v@).take(i as int)),
        decreases v@.len() - i,
    {
        push_str(buf, &v[i]);
        proof {
            let t = texts(v@).take(i + 1);
            assert(t.drop_last() =~= texts(v@).take(i as int));
            assert(t.last() == v@[i as int]@);
            assert(buf@ =~= head + fields_of(t));
        }
        i = i + 1;
    }
    assert(texts(v@).take(v@.len() as int) =~= texts(v@));
    assert(buf@ =~= old(buf)@ + list_field(texts(v@)));
}

// ---------------------------------------------------------------- blocks

/// A sealed block.
#[derive(Debug)]
pub struct Block {
    pub height: u64,
    pub parent_hash: String,
    pub timestamp_ms: u128,
    pub state_root: String,
    pub txs_root: String,
    pub producer: String,
    /// Producer's public key, hexadecimal; `producer` has to derive from it.
    pub producer_pubkey: String,
    pub transactions: Vec<Transaction>,
    pub signature: String,
    pub hash: String,
}

/// Model of a block.
#[verifier::ext_equal]
pub struct BlockV {
    pub height: u64,
    pub parent_hash: Seq<char>,
    pub timestamp_ms: u128,
    pub state_root: Seq<char>,
    pub txs_root: Seq<char>,
    pub producer: Seq<char>,
    pub producer_pubkey: Seq<char>,
    pub transactions: Seq<TxV>,
    pub signature: Seq<char>,
    pub hash: Seq<char>,
}

/// Models of a list of transactions.
pub open spec fn txs_view(v: Seq<Transaction>) -> Seq<TxV> {
    v.map_values(|t: Transaction| t@)
}

/// A copy of a list of transactions.
pub fn copy_txs(v: &Vec<Transaction>) -> (r: Vec<Transaction>)
    ensures
        txs_view(r@) == txs_view(v@),
        r@.len() == v@.len(),
{
    let mut out: Vec<Transaction> = Vec::new();
    let mut i: usize = 0;
    while i < v.len()
        invariant
            i <= v@.len(),
            out@.len() == i,
            forall|j: int| 0 <= j < i ==> (#[trigger] out@[j])@ == v@[j]@,
        decreases v@.len() - i,
    {
        out.push(v[i].clone());
        i = i + 1;
    }
    assert(txs_view(out@) =~= txs_view(v@));
    out
}

impl View for Block {
    type V = BlockV;

    open spec fn view(&self) -> BlockV {
        BlockV {
            height: self.height,
            parent_hash: self.parent_hash@,
            timestamp_ms: self.timestamp_ms,
            state_root: self.state_root@,
            txs_root: self.txs_root@,
            producer: self.producer@,
            producer_pubkey: self.producer_pubkey@,
            transactions: txs_view(self.transactions@),
            signature: self.signature@,
            hash: self.hash@,
        }
    }
}

impl Clone for Block {
    fn clone(&self) -> (r: Block)
        ensures
            r@ == self@,
    {
        Block {
            height: self.height,
            parent_hash: self.parent_hash.clone(),
            timestamp_ms: self.timestamp_ms,
            state_root: self.state_root.clone(),
            txs_root: self.txs_root.clone(),
            producer: self.producer.clone(),
            producer_pubkey: self.producer_pubkey.clone(),
            transactions: copy_txs(&self.transactions),
            signature: self.signature.clone(),
            hash: self.hash.clone(),
        }
    }
}

/// One level up in a binary hash tree: neighbours are hashed together, a last odd
/// node with itself.
pub open spec fn merkle_up(level: Seq<Seq<u8>>) -> Seq<Seq<u8>> {
    Seq::new(
        ((level.len() + 1) / 2) as nat,
        |i: int|
            crypto::sha256_of(
                level[2 * i] + if 2 * i + 1 < level.len() {
                    level[2 * i + 1]
                } else {
                    level[2 * i]
                },
            ),
    )
}

/// Root of a binary hash tree over its lowest level.
pub open spec fn merkle_top(level: Seq<Seq<u8>>) -> Seq<u8>
    recommends
        level.len() > 0,
    decreases level.len(),
{
    if level.len() <= 1 {
        level[0]
    } else {
        merkle_top(merkle_up(level))
    }
}

/// The root a list of transactions commits to.
pub open spec fn txs_root_of(txs: Seq<TxV>) -> Seq<char> {
    if txs.len() == 0 {
        crypto::hash_text(text::utf8("inazuma-empty"@))
    } else {
        crypto::hex_text(
            merkle_top(
                txs.map_values(|t: TxV| crypto::sha256_of(text::utf8(t.hash_text()))),
            ),
        )
    }
}

/// Byte views of a list of digests.
pub open spec fn digests(v: Seq<[u8; 32]>) -> Seq<Seq<u8>> {
    v.map_values(|d: [u8; 32]| d@)
}

/// The root a list of transactions commits to.
pub fn txs_root(txs: &Vec<Transaction>) -> (r: String)
    ensures
        r@ == txs_root_of(txs_view(txs@)),
{
    if txs.len() == 0 {
        return crypto::hash_hex("inazuma-empty".as_bytes());
    }
    let ghost leaves = txs_view(txs@).map_values(
        |t: TxV| crypto::sha256_of(text::utf8(t.hash_text())),
    );
    let mut level: Vec<[u8; 32]> = Vec::new();
    let mut i: usize = 0;
    while i < txs.len()
        invariant
            i <= txs@.len(),
            level@.len() == i,
            leaves == txs_view(txs@).map_values(
                |t: TxV| crypto::sha256_of(text::utf8(t.hash_text())),
            ),
            forall|j: int| 0 <= j < i ==> (#[trigger] level@[j])@ == leaves[j],
        decreases txs@.len() - i,
    {
        let h = txs[i].hash();
        level.push(crypto::sha256(h.as_str().as_bytes()));
        i = i + 1;
    }
    assert(digests(level@) =~= leaves);
    while level.len() > 1
        invariant
            level@.len() > 0,
            leaves.len() > 0,
            merkle_top(digests(level@)) == merkle_top(leaves),
        decreases level@.len(),
    {
        let mut next: Vec<[u8; 32]> = Vec::new();
        let n: usize = level.len();
        let half: usize = n / 2 + n % 2;
        let mut p: usize = 0;
        while p < half
            invariant
                n == level@.len(),
                n > 1,
                half == (n + 1) / 2,
                p <= half,
                next@.len() == p,
                forall|j: int|
                    0 <= j < p ==> (#[trigger] next@[j])@ == merkle_up(digests(level@))[j],
            decreases half - p,
        {
            let k: usize = 2 * p;
            let mut buf = text::copy_bytes(&level[k]);
            let other: usize = if level.len() - k > 1 {
                k + 1
            } else {
                k
            };
            text::push_bytes(&mut buf, &level[other]);
            next.push(crypto::sha256(buf.as_slice()));
            p = p + 1;
        }
        assert(digests(next@) =~= merkle_up(digests(level@)));
        level = next;
    }
    let top = level[0];
    assert(digests(level@)[0] == top@);
    crypto::to_hex(&top)
}

impl BlockV {
    /// The signed header.
    pub open spec fn header_text(self) -> Seq<char> {
        "inazuma-block|"@ + text::dec(CHAIN_ID as nat) + "|"@ + text::dec(self.height as nat)
            + "|"@ + self.parent_hash + "|"@ + text::dec(self.timestamp_ms as nat) + "|"@
            + self.state_root + "|"@ + self.txs_root + "|"@ + self.producer + "|"@
            + self.producer_pubkey
    }

    /// The block hash: header and signature.
    pub open spec fn hash_text(self) -> Seq<char> {
        crypto::hash_text(text::utf8(self.header_text()) + text::utf8(self.signature))
    }

    /// The producer signed this exact header and owns the producer address.
    pub open spec fn produced(self) -> bool {
        &&& crypto::address_of_hex(self.producer_pubkey) == Some(self.producer)
        &&& self.hash == self.hash_text()
        &&& crypto::signature_ok(
            self.producer_pubkey,
            text::utf8(self.header_text()),
            self.signature,
        )
    }
}

/// The signed header made of its fields.
pub fn header_bytes_of(
    height: u64,
    parent_hash: &str,
    timestamp_ms: u128,
    state_root: &str,
    txs_root: &str,
    producer: &str,
    producer_pubkey: &str,
) -> (r: Vec<u8>)
    ensures
        r@ == text::utf8(
            "inazuma-block|"@ + text::dec(CHAIN_ID as nat) + "|"@ + text::dec(height as nat)
                + "|"@ + parent_hash@ + "|"@ + text::dec(timestamp_ms as nat) + "|"@ + state_root@
                + "|"@ + txs_root@ + "|"@ + producer@ + "|"@ + producer_pubkey@,
        ),
{
    let mut s = text::copy("inazuma-block|");
    text::push_dec(&mut s, CHAIN_ID as u128);
    s.append("|");
    text::push_dec(&mut s, height as u128);
    s.append("|");
    s.append(parent_hash);
    s.append("|");
    text::push_dec(&mut s, timestamp_ms);
    s.append("|");
    s.append(state_root);
    s.append("|");
    s.append(txs_root);
    s.append("|");
    s.append(producer);
    s.append("|");
    s.append(producer_pubkey);
    text::bytes_of(&s)
}

impl Block {
    /// The signed header.
    pub fn header_bytes(&self) -> (r: Vec<u8>)
        ensures
            r@ == text::utf8(self@.header_text()),
    {
        header_bytes_of(
            self.height,
            &self.parent_hash,
            self.timestamp_ms,
            &self.state_root,
            &self.txs_root,
            &self.producer,
            &self.producer_pubkey,
        )
    }

    /// The block hash.
    pub fn compute_hash(&self) -> (r: String)
        ensures
            r@ == self@.hash_text(),
    {
        let mut b = self.header_bytes();
        text::push_text(&mut b, &self.signature);
        crypto::hash_hex(b.as_slice())
    }

    /// The producer signed this exact header and owns the producer address.
    pub fn verify_producer(&self) -> (r: bool)
        ensures
            r == self@.produced(),
    {
        match crypto::address_from_hex(&self.producer_pubkey) {
            None => false,
            Some(a) => {
                if a != self.producer {
                    return false;
                }
                let h = self.compute_hash();
                if self.hash != h {
                    return false;
                }
                let header = self.header_bytes();
                crypto::verify(&self.producer_pubkey, header.as_slice(), &self.signature)
            },
        }
    }
}

// ---------------------------------------------------------------- genesis

/// One funded account of genesis.
#[derive(Debug)]
pub struct GenesisAlloc {
    pub address: String,
    /// INAZ amount, e.g. "1000000".
    pub balance: String,
    /// Optional INAZ bonded at genesis, so the chain boots with a validator set.
    pub stake: Option<String>,
}

/// What every node of a chain starts from.
#[derive(Debug)]
pub struct Genesis {
    pub chain_id: u64,
    pub chain_name: String,
    pub symbol: String,
    pub decimals: u8,
    pub block_time_ms: u64,
    pub alloc: Vec<GenesisAlloc>,
    /// Height from which missed slots are charged, when it is not the usual one.
    pub slashing_activation_height: Option<u64>,
}

impl Clone for GenesisAlloc {
    fn clone(&self) -> (r: GenesisAlloc)
        ensures
            r.address@ == self.address@,
            r.balance@ == self.balance@,
            match self.stake {
                Some(s) => r.stake matches Some(t) && t@ == s@,
                None => r.stake is None,
            },
    {
        GenesisAlloc {
            address: self.address.clone(),
            balance: self.balance.clone(),
            stake: match &self.stake {
                Some(s) => Some(s.clone()),
                None => None,
            },
        }
    }
}

/// Model of one funded account of genesis.
#[verifier::ext_equal]
pub struct AllocV {
    pub address: Seq<char>,
    pub balance: Seq<char>,
    pub stake: Option<Seq<char>>,
}

impl View for GenesisAlloc {
    type V = AllocV;

    open spec fn view(&self) -> AllocV {
        AllocV {
            address: self.address@,
            balance: self.balance@,
            stake: match self.stake {
                Some(s) => Some(s@),
                None => None,
            },
        }
    }
}

/// Models of the funded accounts of genesis.
pub open spec fn allocs(v: Seq<GenesisAlloc>) -> Seq<AllocV> {
    v.map_values(|a: GenesisAlloc| a@)
}

impl Clone for Genesis {
    fn clone(&self) -> (r: Genesis)
        ensures
            r.chain_id == self.chain_id,
            r.chain_name@ == self.chain_name@,
            r.symbol@ == self.symbol@,
            r.decimals == self.decimals,
            r.block_time_ms == self.block_time_ms,
            r.slashing_activation_height == self.slashing_activation_height,
            allocs(r.alloc@) == allocs(self.alloc@),
    {
        let mut alloc: Vec<GenesisAlloc> = Vec::new();
        let mut i: usize = 0;
        while i < self.alloc.len()
            invariant
                i <= self.alloc@.len(),
                allocs(alloc@) =~= allocs(self.alloc@).take(i as int),
            decreases self.alloc@.len() - i,
        {
            let ghost was = allocs(alloc@);
            let a = self.alloc[i].clone();
            let ghost av = a@;
            alloc.push(a);
            assert(allocs(alloc@) =~= was.push(av));
            assert(av =~= self.alloc@[i as int]@);
            i = i + 1;
        }
        assert(allocs(self.alloc@).take(self.alloc@.len() as int) =~= allocs(self.alloc@));
        Genesis {
            chain_id: self.chain_id,
            chain_name: self.chain_name.clone(),
            symbol: self.symbol.clone(),
            decimals: self.decimals,
            block_time_ms: self.block_time_ms,
            alloc,
            slashing_activation_height: self.slashing_activation_height,
        }
    }
}

impl Genesis {
    /// The parameters this genesis fixes.
    pub fn params(&self) -> (r: ChainParams)
        ensures
            r.slashing_activation == match self.slashing_activation_height {
                Some(h) => h,
                None => SLASHING_ACTIVATION_HEIGHT,
            },
    {
        match self.slashing_activation_height {
            Some(h) => ChainParams { slashing_activation: h },
            None => ChainParams { slashing_activation: SLASHING_ACTIVATION_HEIGHT },
        }
    }

    /// The development network: one million INAZ to the administrator.
    pub fn default_devnet(admin: &str) -> (r: Genesis)
        ensures
            r.chain_id == CHAIN_ID,
            r.chain_name@ == "Inazuma"@,
            r.symbol@ == "INAZ"@,
            r.decimals == 9,
            r.block_time_ms == 400,
            r.slashing_activation_height is None,
            r.alloc@.len() == 1,
            r.alloc@[0].address@ == admin@,
            r.alloc@[0].balance@ == "1000000"@,
            r.alloc@[0].stake is None,
    {
        let mut alloc: Vec<GenesisAlloc> = Vec::new();
        alloc.push(
            GenesisAlloc {
                address: text::copy(admin),
                balance: text::copy("1000000"),
                stake: None,
            },
        );
        Genesis {
            chain_id: CHAIN_ID,
            chain_name: text::copy("Inazuma"),
            symbol: text::copy("INAZ"),
            decimals: 9,
            block_time_ms: 400,
            alloc,
            slashing_activation_height: None,
        }
    }
}

} // verus!
