//! Access control of the RPC endpoint: API keys, tiers, method classes and throttling.
//!
//! Every request answers three questions before it reaches the node: who is calling,
//! how expensive is the call, and has this caller used its share. Costs count in
//! thousandths of a token.

use crate::journal::Db;
use crate::limits;
use crate::limits::KeyedLimiter;
use crate::limits::LimiterV;
use crate::limits::RateLimiter;
use crate::limits::TOKEN;
use crate::qos;
use crate::qos::QosV;
use crate::qos::StakeQos;
use crate::state::Store;
use crate::table;
use crate::table::Table;
use crate::text;
use crate::types;
use vstd::prelude::*;

verus! {

/// Requests per second of a caller without a key.
pub const ANON_RATE: u64 = 25;

/// Slack of a caller without a key, in requests.
pub const ANON_BURST: u64 = 100;

/// Requests per second of a caller with a valid key.
pub const KEY_RATE: u64 = 300;

/// Slack of a caller with a valid key, in requests.
pub const KEY_BURST: u64 = 1_200;

/// Transactions per second of one sender.
pub const ACCOUNT_TX_RATE: u64 = 50;

/// Slack of one sender, in transactions.
pub const ACCOUNT_TX_BURST: u64 = 200;

/// Who is calling.
#[derive(Clone, Copy, PartialEq, Eq, Structural, Debug)]
pub enum Tier {
    /// No key presented.
    Anonymous,
    /// A valid API key: a larger budget, still limited.
    Key,
    /// An operator key: a larger budget and the privileged methods.
    Admin,
}

impl Tier {
    /// Name of a tier.
    pub open spec fn name(self) -> Seq<char> {
        match self {
            Tier::Anonymous => "anon"@,
            Tier::Key => "key"@,
            Tier::Admin => "admin"@,
        }
    }

    /// Name of a tier.
    pub fn label(&self) -> (r: &'static str)
        ensures
            r@ == self.name(),
    {
        match self {
            Tier::Anonymous => "anon",
            Tier::Key => "key",
            Tier::Admin => "admin",
        }
    }
}

/// Methods only an operator key may call: they expose peer topology or the node's own
/// view of the network rather than public chain data.
pub open spec fn privileged(method: Seq<char>) -> bool {
    method == "inaz_netInfo"@ || method == "inaz_rpcLimits"@
}

/// Whether only an operator key may call a method.
pub fn is_privileged(method: &str) -> (r: bool)
    ensures
        r == privileged(method@),
{
    text::same(method, "inaz_netInfo") || text::same(method, "inaz_rpcLimits")
}

/// Cost of a number of items, from a base, as far as it fits.
pub open spec fn base_and(base: u64, each: u64, n: nat) -> u64 {
    let c = base + each * n;
    if c <= u64::MAX {
        c as u64
    } else {
        u64::MAX
    }
}

/// What a method spends of a caller's budget. Reads of one key are cheap; walks, proofs
/// and bulk submits are not. `items` is the length of the list a bulk method carries.
pub open spec fn cost_of(method: Seq<char>, items: Option<usize>) -> u64 {
    let n = match items {
        Some(k) => k as nat,
        None => 1,
    };
    if method == "inaz_sendTransactions"@ {
        base_and(2_000, 20, n)
    } else if method == "inaz_getProof"@ || method == "inaz_verifyProof"@ {
        5_000
    } else if method == "inaz_simulateTransaction"@ {
        3_000
    } else if method == "inaz_signatureStatuses"@ {
        base_and(1_000, 40, n)
    } else if method == "inaz_subscribe"@ {
        2_000
    } else if method == "inaz_tokenHoldings"@ || method == "inaz_contracts"@ || method
        == "inaz_contractStorage"@ || method == "inaz_tokens"@ {
        4_000
    } else if method == "inaz_query"@ || method == "inaz_latestBlocks"@ || method
        == "inaz_validators"@ || method == "inaz_slashing"@ {
        3_000
    } else if method == "inaz_sendTransaction"@ || method == "inaz_reportEquivocation"@ {
        2_000
    } else {
        1_000
    }
}

fn base_plus(base: u64, each: u64, n: usize) -> (r: u64)
    requires
        each < 1_000,
    ensures
        r == base_and(base, each, n as nat),
{
    assert(0 <= each * n <= 1_000 * n) by (nonlinear_arith)
        requires
            0 <= each < 1_000,
            0 <= n,
    ;
    let c: u128 = base as u128 + each as u128 * n as u128;
    if c <= u64::MAX as u128 {
        c as u64
    } else {
        u64::MAX
    }
}

/// What a method spends of a caller's budget.
pub fn method_cost(method: &str, items: Option<usize>) -> (r: u64)
    ensures
        r == cost_of(method@, items),
{
    let n: usize = match items {
        Some(k) => k,
        None => 1,
    };
    if text::same(method, "inaz_sendTransactions") {
        base_plus(2_000, 20, n)
    } else if text::same(method, "inaz_getProof") || text::same(method, "inaz_verifyProof") {
        5_000
    } else if text::same(method, "inaz_simulateTransaction") {
        3_000
    } else if text::same(method, "inaz_signatureStatuses") {
        base_plus(1_000, 40, n)
    } else if text::same(method, "inaz_subscribe") {
        2_000
    } else if text::same(method, "inaz_tokenHoldings") || text::same(method, "inaz_contracts")
        || text::same(method, "inaz_contractStorage") || text::same(method, "inaz_tokens") {
        4_000
    } else if text::same(method, "inaz_query") || text::same(method, "inaz_latestBlocks")
        || text::same(method, "inaz_validators") || text::same(method, "inaz_slashing") {
        3_000
    } else if text::same(method, "inaz_sendTransaction") || text::same(
        method,
        "inaz_reportEquivocation",
    ) {
        2_000
    } else {
        1_000
    }
}

/// Access control of an endpoint.
pub struct RpcConfig {
    /// Keys with their tiers.
    pub keys: Table<Tier>,
    /// Whether a request without a valid key is refused.
    pub require_auth: bool,
    /// Whether the forwarding header of a proxy is believed.
    pub trust_proxy: bool,
    pub anon: RateLimiter,
    pub keyed: KeyedLimiter,
    pub accounts: KeyedLimiter,
    /// Keys bound to bonded accounts.
    pub qos: StakeQos,
}

/// Model of the access control.
#[verifier::ext_equal]
pub struct ConfigV {
    pub keys: Map<Seq<u8>, Tier>,
    pub require_auth: bool,
    pub trust_proxy: bool,
    pub anon: LimiterV,
    pub keyed: LimiterV,
    pub accounts: LimiterV,
    pub qos: QosV,
}

impl View for RpcConfig {
    type V = ConfigV;

    open spec fn view(&self) -> ConfigV {
        ConfigV {
            keys: self.keys@,
            require_auth: self.require_auth,
            trust_proxy: self.trust_proxy,
            anon: self.anon@,
            keyed: self.keyed@,
            accounts: self.accounts@,
            qos: self.qos@,
        }
    }
}

/// Keys of a tier added; keys that are too short are ignored.
pub open spec fn with_keys(m: Map<Seq<u8>, Tier>, keys: Seq<Seq<char>>, tier: Tier) -> Map<
    Seq<u8>,
    Tier,
>
    decreases keys.len(),
{
    if keys.len() == 0 {
        m
    } else {
        let rest = with_keys(m, keys.drop_last(), tier);
        let k = text::utf8(keys.last());
        if k.len() >= qos::MIN_KEY_BYTES {
            rest.insert(k, tier)
        } else {
            rest
        }
    }
}

/// A fresh limiter.
pub open spec fn limiter(rate: u64, burst: u64) -> LimiterV {
    LimiterV {
        rate,
        burst: (burst * TOKEN) as u64,
        buckets: Map::<Seq<u8>, limits::Bucket>::empty(),
    }
}

/// Access control as configured. Requiring a key with no key configured would lock
/// everyone out, so it is ignored.
pub open spec fn configured(
    keys: Seq<Seq<char>>,
    admins: Seq<Seq<char>>,
    require_auth: bool,
    trust_proxy: bool,
    q: QosV,
) -> ConfigV {
    let m = with_keys(
        with_keys(Map::<Seq<u8>, Tier>::empty(), keys, Tier::Key),
        admins,
        Tier::Admin,
    );
    ConfigV {
        keys: m,
        require_auth: require_auth && table::ordered(m).len() > 0,
        trust_proxy,
        anon: limiter(ANON_RATE, ANON_BURST),
        keyed: limiter(KEY_RATE, KEY_BURST),
        accounts: limiter(ACCOUNT_TX_RATE, ACCOUNT_TX_BURST),
        qos: q,
    }
}

/// The tier of a presented credential.
pub open spec fn tier_of(keys: Map<Seq<u8>, Tier>, presented: Option<Seq<char>>) -> Tier {
    match presented {
        None => Tier::Anonymous,
        Some(p) => if keys.contains_key(text::utf8(p)) {
            keys[text::utf8(p)]
        } else {
            Tier::Anonymous
        },
    }
}

/// Outcome of charging a request: callers with a key have a bucket of their own, all
/// others share the one of their host.
pub open spec fn charged(
    c: ConfigV,
    ip: Seq<char>,
    tier: Tier,
    credential: Option<Seq<char>>,
    cost: u64,
    now: u64,
) -> (bool, ConfigV) {
    if tier != Tier::Anonymous && credential is Some {
        let (ok, l) = limits::spent(
            c.keyed,
            text::utf8(credential->Some_0),
            cost,
            now,
            limits::KEYED_CAP as nat,
            limits::KEYED_IDLE_MS as nat,
        );
        (ok, ConfigV { keyed: l, ..c })
    } else {
        let (ok, l) = limits::spent(
            c.anon,
            text::utf8(ip),
            cost,
            now,
            limits::HOST_CAP as nat,
            limits::HOST_IDLE_MS as nat,
        );
        (ok, ConfigV { anon: l, ..c })
    }
}

/// A cost divided by a multiplier in thousandths, rounded up.
pub open spec fn eased(cost: u64, multiplier: u64) -> u64 {
    ((cost * 1_000 + multiplier - 1) / multiplier as int) as u64
}

/// The multiplier of a credential.
pub open spec fn multiplier_of(q: QosV, db: Db, credential: Option<Seq<char>>, now: u64) -> u64 {
    match qos::backer(q, credential) {
        Some(a) => qos::weight(qos::stake_behind(db, a), qos::stake_known(q, db, now) as nat),
        None => qos::BASE_MULTIPLIER,
    }
}

/// Outcome of charging a request by stake: a key bound to a bonded account spends its
/// budget more slowly.
pub open spec fn charged_weighted(
    c: ConfigV,
    db: Db,
    ip: Seq<char>,
    tier: Tier,
    credential: Option<Seq<char>>,
    cost: u64,
    now: u64,
) -> (bool, ConfigV) {
    if tier == Tier::Anonymous {
        charged(c, ip, tier, credential, cost, now)
    } else {
        let q = if qos::backer(c.qos, credential) is Some {
            qos::looked(c.qos, db, now)
        } else {
            c.qos
        };
        charged(
            ConfigV { qos: q, ..c },
            ip,
            tier,
            credential,
            eased(cost, multiplier_of(c.qos, db, credential, now)),
            now,
        )
    }
}

/// Cost of a number of transactions, at least one.
pub open spec fn submit_cost(txs: nat) -> u64 {
    let n = if txs == 0 {
        1
    } else {
        txs
    };
    if n * TOKEN <= u64::MAX {
        (n * TOKEN) as u64
    } else {
        u64::MAX
    }
}

/// Outcome of charging a sender for transactions.
pub open spec fn charged_account(c: ConfigV, address: Seq<char>, txs: nat, now: u64) -> (
    bool,
    ConfigV,
) {
    let (ok, l) = limits::spent(
        c.accounts,
        text::utf8(address),
        submit_cost(txs),
        now,
        limits::KEYED_CAP as nat,
        limits::KEYED_IDLE_MS as nat,
    );
    (ok, ConfigV { accounts: l, ..c })
}

/// Adds keys of a tier.
fn add_keys(t: &mut Table<Tier>, keys: &Vec<String>, tier: Tier)
    requires
        old(t).wf(),
    ensures
        final(t).wf(),
        final(t)@ == with_keys(old(t)@, types::texts(keys@), tier),
{
    let ghost all = types::texts(keys@);
    let ghost m = t@;
    let mut i: usize = 0;
    assert(all.take(0) =~= Seq::<Seq<char>>::empty());
    while i < keys.len()
        invariant
            i <= keys@.len(),
            all == types::texts(keys@),
            t.wf(),
            t@ == with_keys(m, all.take(i as int), tier),
        decreases keys@.len() - i,
    {
        proof {
            assert(all.take(i + 1).drop_last() =~= all.take(i as int));
            assert(all.take(i + 1).last() == keys@[i as int]@);
        }
        let k = text::bytes_of(keys[i].as_str());
        if k.len() >= qos::MIN_KEY_BYTES {
            t.insert(k, tier);
        }
        i = i + 1;
    }
    assert(all.take(all.len() as int) =~= all);
}

impl RpcConfig {
    /// Everything the access control holds is well formed.
    pub open spec fn wf(self) -> bool {
        &&& self.keys.wf()
        &&& self.anon.wf()
        &&& self.keyed.wf()
        &&& self.keyed.sweeps_above() == limits::KEYED_CAP
        &&& self.keyed.sweeps_after() == limits::KEYED_IDLE_MS
        &&& self.accounts.wf()
        &&& self.accounts.sweeps_above() == limits::KEYED_CAP
        &&& self.accounts.sweeps_after() == limits::KEYED_IDLE_MS
        &&& self.qos.wf()
    }

    /// Access control without stake-weighted keys.
    pub fn new(
        keys: Vec<String>,
        admin_keys: Vec<String>,
        require_auth: bool,
        trust_proxy: bool,
    ) -> (r: RpcConfig)
        ensures
            r.wf(),
            r@ == configured(
                types::texts(keys@),
                types::texts(admin_keys@),
                require_auth,
                trust_proxy,
                qos::bindings_of(Seq::empty()),
            ),
    {
        let none: Vec<String> = Vec::new();
        assert(types::texts(none@) =~= Seq::<Seq<char>>::empty());
        RpcConfig::with_qos(keys, admin_keys, require_auth, trust_proxy, StakeQos::new(none))
    }

    /// Access control with keys bound to accounts.
    pub fn with_qos(
        keys: Vec<String>,
        admin_keys: Vec<String>,
        require_auth: bool,
        trust_proxy: bool,
        qos: StakeQos,
    ) -> (r: RpcConfig)
        requires
            qos.wf(),
        ensures
            r.wf(),
            r@ == configured(
                types::texts(keys@),
                types::texts(admin_keys@),
                require_auth,
                trust_proxy,
                qos@,
            ),
    {
        let mut map: Table<Tier> = Table::new();
        add_keys(&mut map, &keys, Tier::Key);
        add_keys(&mut map, &admin_keys, Tier::Admin);
        proof {
            table::lemma_ordered(map.entries());
        }
        let some = map.len() > 0;
        let c = RpcConfig {
            keys: map,
            require_auth: require_auth && some,
            trust_proxy,
            anon: RateLimiter::new(ANON_RATE, ANON_BURST),
            keyed: KeyedLimiter::new(KEY_RATE, KEY_BURST),
            accounts: KeyedLimiter::new(ACCOUNT_TX_RATE, ACCOUNT_TX_BURST),
            qos,
        };
        assert(c@ =~= configured(
            types::texts(keys@),
            types::texts(admin_keys@),
            require_auth,
            trust_proxy,
            c.qos@,
        ));
        c
    }

    /// A fully public endpoint.
    pub fn public() -> (r: RpcConfig)
        ensures
            r.wf(),
            r@ == configured(
                Seq::empty(),
                Seq::empty(),
                false,
                false,
                qos::bindings_of(Seq::empty()),
            ),
    {
        let a: Vec<String> = Vec::new();
        let b: Vec<String> = Vec::new();
        assert(types::texts(a@) =~= Seq::<Seq<char>>::empty());
        assert(types::texts(b@) =~= Seq::<Seq<char>>::empty());
        RpcConfig::new(a, b, false, false)
    }

    /// Number of keys.
    pub fn key_count(&self) -> (r: usize)
        requires
            self.wf(),
        ensures
            r == table::ordered(self@.keys).len(),
    {
        proof {
            table::lemma_ordered(self.keys.entries());
        }
        self.keys.len()
    }

    /// Whether any key is configured.
    pub fn auth_enabled(&self) -> (r: bool)
        requires
            self.wf(),
        ensures
            r == (table::ordered(self@.keys).len() > 0),
    {
        self.key_count() > 0
    }

    /// The tier of a presented credential, compared with every key.
    pub fn tier_for(&self, presented: Option<&str>) -> (r: Tier)
        requires
            self.wf(),
        ensures
            r == tier_of(self@.keys, qos::cred_view(presented)),
    {
        let p = match presented {
            None => {
                return Tier::Anonymous;
            },
            Some(p) => text::bytes_of(p),
        };
        let mut found = Tier::Anonymous;
        let n: usize = self.keys.len();
        let ghost es = self.keys.entries();
        let mut i: usize = 0;
        let ghost mut hit: int = -1;
        while i < n
            invariant
                i <= n,
                n == es.len(),
                es == self.keys.entries(),
                self.wf(),
                hit == -1 ==> found == Tier::Anonymous && (forall|j: int|
                    0 <= j < i ==> (#[trigger] es[j]).0 != p@),
                hit != -1 ==> 0 <= hit < i && es[hit].0 == p@ && found == es[hit].1,
            decreases n - i,
        {
            if limits::secret_same(self.keys.key_at(i).as_slice(), p.as_slice()) {
                found = *self.keys.val_at(i);
                proof {
                    hit = i as int;
                }
            }
            i = i + 1;
        }
        proof {
            table::lemma_map_of_dom(es, p@);
            if hit != -1 {
                table::lemma_map_of_at(es, hit);
            }
        }
        found
    }

    /// Charges one request.
    pub fn charge(
        &mut self,
        ip: &str,
        tier: Tier,
        credential: Option<&str>,
        cost: u64,
        now: u64,
    ) -> (r: bool)
        requires
            old(self).wf(),
        ensures
            final(self).wf(),
            (r, final(self)@) == charged(
                old(self)@,
                ip@,
                tier,
                qos::cred_view(credential),
                cost,
                now,
            ),
    {
        let ghost want = charged(self@, ip@, tier, qos::cred_view(credential), cost, now).1;
        if tier == Tier::Anonymous {
            let ok = self.anon.allow_cost(ip, cost, now);
            assert(self@ =~= want);
            return ok;
        }
        let ok = match credential {
            Some(c) => self.keyed.allow_cost(c, cost, now),
            None => self.anon.allow_cost(ip, cost, now),
        };
        assert(self@ =~= want);
        ok
    }

    /// Charges one request by stake. Priority has to be backed by coins; volume alone
    /// takes nothing.
    pub fn charge_weighted(
        &mut self,
        store: &Store,
        ip: &str,
        tier: Tier,
        credential: Option<&str>,
        cost: u64,
        now: u64,
    ) -> (r: bool)
        requires
            old(self).wf(),
            store.wf(),
        ensures
            final(self).wf(),
            (r, final(self)@) == charged_weighted(
                old(self)@,
                store@.db,
                ip@,
                tier,
                qos::cred_view(credential),
                cost,
                now,
            ),
    {
        if tier == Tier::Anonymous {
            return self.charge(ip, tier, credential, cost, now);
        }
        let ghost c0 = self@;
        let m = self.qos.multiplier(store, credential, now);
        let wide: u128 = cost as u128 * 1_000 + (m as u128 - 1);
        let quotient: u128 = wide / m as u128;
        proof {
            let w = cost * 1_000 + m - 1;
            assert(w / m as int <= cost) by (nonlinear_arith)
                requires
                    w == cost * 1_000 + m - 1,
                    m >= 1_000,
                    cost >= 0,
            ;
            assert(0 <= w / m as int) by (nonlinear_arith)
                requires
                    w >= 0,
                    m >= 1_000,
            ;
            let q = if qos::backer(c0.qos, qos::cred_view(credential)) is Some {
                qos::looked(c0.qos, store@.db, now)
            } else {
                c0.qos
            };
            assert(self@ =~= ConfigV { qos: q, ..c0 });
        }
        self.charge(ip, tier, credential, quotient as u64, now)
    }

    /// Charges a sender for transactions.
    pub fn charge_account(&mut self, address: &str, txs: usize, now: u64) -> (r: bool)
        requires
            old(self).wf(),
        ensures
            final(self).wf(),
            (r, final(self)@) == charged_account(old(self)@, address@, txs as nat, now),
    {
        let ghost want = charged_account(self@, address@, txs as nat, now).1;
        let n: u64 = if txs == 0 {
            1
        } else {
            txs as u64
        };
        let cost: u64 = match n.checked_mul(TOKEN) {
            Some(c) => c,
            None => u64::MAX,
        };
        let ok = self.accounts.allow_cost(address, cost, now);
        assert(self@ =~= want);
        ok
    }
}

/// Who may call a method: everyone, but a privileged one only an operator. With no
/// operator key configured such a method is unavailable, not public.
pub open spec fn permitted(method: Seq<char>, tier: Tier) -> bool {
    privileged(method) ==> tier == Tier::Admin
}

/// An unknown credential never has more than an anonymous caller, and no operator
/// exists without an operator key.
pub proof fn law_no_tier_without_a_key(
    keys: Seq<Seq<char>>,
    admins: Seq<Seq<char>>,
    presented: Option<Seq<char>>,
)
    ensures
        ({
            let m = with_keys(
                with_keys(Map::<Seq<u8>, Tier>::empty(), keys, Tier::Key),
                admins,
                Tier::Admin,
            );
            &&& tier_of(m, presented) == Tier::Admin ==> presented is Some && admins.contains(
                presented->Some_0,
            )
            &&& tier_of(m, presented) == Tier::Key ==> presented is Some && keys.contains(
                presented->Some_0,
            )
        }),
{
    let none = Map::<Seq<u8>, Tier>::empty();
    let base = with_keys(none, keys, Tier::Key);
    match presented {
        Some(p) => {
            lemma_keys_of(none, keys, Tier::Key, p);
            lemma_keys_of(base, admins, Tier::Admin, p);
        },
        None => {},
    }
}

proof fn lemma_keys_of(m: Map<Seq<u8>, Tier>, keys: Seq<Seq<char>>, tier: Tier, p: Seq<char>)
    ensures
        ({
            let r = with_keys(m, keys, tier);
            let k = text::utf8(p);
            r.contains_key(k) ==> (keys.contains(p) && r[k] == tier) || (m.contains_key(k) && r[k]
                == m[k])
        }),
    decreases keys.len(),
{
    if keys.len() > 0 {
        lemma_keys_of(m, keys.drop_last(), tier, p);
        if text::utf8(keys.last()) == text::utf8(p) {
            text::lemma_utf8_injective(keys.last(), p);
            assert(keys[keys.len() - 1] == p);
        }
        if keys.drop_last().contains(p) {
            let i = keys.drop_last().index_of(p);
            assert(keys[i] == p);
        }
    }
}

} // verus!
