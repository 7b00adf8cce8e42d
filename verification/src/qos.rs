//! Stake-weighted quality of service.
//!
//! An API key can be bound to an account, and the share of the bonded stake behind that
//! account becomes its share of the endpoint's capacity. A bound key is never worse off
//! than an unbound one, and no key can drain the node: the advantage is capped.

use crate::contracts;
use crate::crypto;
use crate::journal::Db;
use crate::limits;
use crate::state;
use crate::state::Store;
use crate::text;
use crate::types;
use vstd::prelude::*;

verus! {

/// A budget multiplier of one, in thousandths.
pub const BASE_MULTIPLIER: u64 = 1_000;

/// Ceiling on the advantage stake can buy, in thousandths of the base budget.
pub const MAX_STAKE_MULTIPLIER: u64 = 8_000;

/// How much the whole stake would add to the multiplier, in thousandths.
pub const SHARE_GAIN: u64 = 20_000;

/// Milliseconds for which the total stake is remembered.
pub const CACHE_TTL_MS: u64 = 5_000;

/// Bytes an API key has at least.
pub const MIN_KEY_BYTES: usize = 16;

/// Bindings of API keys to the accounts whose stake backs them.
pub struct StakeQos {
    keys: Vec<String>,
    addresses: Vec<String>,
    cache: Option<(u128, u64)>,
}

/// Model of the bindings.
#[verifier::ext_equal]
pub struct QosV {
    pub keys: Seq<Seq<char>>,
    pub addresses: Seq<Seq<char>>,
    pub cache: Option<(u128, u64)>,
}

impl View for StakeQos {
    type V = QosV;

    closed spec fn view(&self) -> QosV {
        QosV {
            keys: types::texts(self.keys@),
            addresses: types::texts(self.addresses@),
            cache: self.cache,
        }
    }
}

/// The binding a `key:address` text denotes, when it is well formed.
pub open spec fn binding_of(pair: Seq<char>) -> Option<(Seq<char>, Seq<char>)> {
    match text::split_once_spec(pair, ':') {
        None => None,
        Some((k, a)) => {
            let key = text::trimmed(k);
            let address = text::trimmed(a);
            if text::utf8(key).len() >= MIN_KEY_BYTES && crypto::valid_address(address) {
                Some((key, address))
            } else {
                None
            }
        },
    }
}

/// Bindings with one more; a key bound again is bound anew.
pub open spec fn bound(q: QosV, key: Seq<char>, address: Seq<char>) -> QosV {
    let i = q.keys.index_of(key);
    if q.keys.contains(key) {
        QosV { addresses: q.addresses.update(i, address), ..q }
    } else {
        QosV { keys: q.keys.push(key), addresses: q.addresses.push(address), ..q }
    }
}

/// The bindings of a list of texts; malformed ones are ignored.
pub open spec fn bindings_of(pairs: Seq<Seq<char>>) -> QosV
    decreases pairs.len(),
{
    if pairs.len() == 0 {
        QosV { keys: Seq::empty(), addresses: Seq::empty(), cache: None }
    } else {
        let q = bindings_of(pairs.drop_last());
        match binding_of(pairs.last()) {
            Some((k, a)) => bound(q, k, a),
            None => q,
        }
    }
}

/// The account behind a key.
pub open spec fn address_of(q: QosV, credential: Seq<char>) -> Option<Seq<char>> {
    if q.keys.contains(credential) {
        Some(q.addresses[q.keys.index_of(credential)])
    } else {
        None
    }
}

/// The total stake a node goes by: remembered for a while.
pub open spec fn stake_known(q: QosV, db: Db, now: u64) -> u128 {
    match q.cache {
        Some((total, at)) => if at <= now && now - at < CACHE_TTL_MS {
            total
        } else {
            types::cap128(state::staked_of(state::stakers_of(db)))
        },
        None => types::cap128(state::staked_of(state::stakers_of(db))),
    }
}

/// The bindings after the total stake was looked up.
pub open spec fn looked(q: QosV, db: Db, now: u64) -> QosV {
    match q.cache {
        Some((total, at)) => if at <= now && now - at < CACHE_TTL_MS {
            q
        } else {
            QosV { cache: Some((types::cap128(state::staked_of(state::stakers_of(db))), now)), ..q }
        },
        None => QosV { cache: Some((types::cap128(state::staked_of(state::stakers_of(db))), now)), ..q },
    }
}

/// Budget multiplier of a stake, in thousandths: from one to the ceiling, by its share.
pub open spec fn weight(staked: nat, total: nat) -> u64 {
    if total == 0 || staked == 0 {
        BASE_MULTIPLIER
    } else {
        let n = BASE_MULTIPLIER as nat + staked * (SHARE_GAIN as nat) / total;
        if n < MAX_STAKE_MULTIPLIER {
            n as u64
        } else {
            MAX_STAKE_MULTIPLIER
        }
    }
}

/// Share of a stake, in hundredths of a percent.
pub open spec fn share(staked: nat, total: nat) -> nat {
    if total == 0 {
        0
    } else {
        staked * 10_000 / total
    }
}

/// The account behind an optional credential.
pub open spec fn backer(q: QosV, credential: Option<Seq<char>>) -> Option<Seq<char>> {
    match credential {
        Some(c) => address_of(q, c),
        None => None,
    }
}

/// The stake behind an account.
pub open spec fn stake_behind(db: Db, address: Seq<char>) -> nat {
    state::account_of(db, address).staked as nat
}

/// `a * b / c`, as far as it fits.
fn scaled(a: u128, b: u64, c: u128) -> (r: u128)
    requires
        c > 0,
        b > 0,
        a <= c,
    ensures
        r == a * b / c as int,
        r <= b,
{
    proof {
        assert(a * b / c as int <= b) by (nonlinear_arith)
            requires
                0 <= a <= c,
                0 < c,
                0 < b,
        ;
    }
    match a.checked_mul(b as u128) {
        Some(n) => n / c,
        None => long_scaled(a, b, c),
    }
}

/// `a * b / c` when the product is too wide: long multiplication by halving.
fn long_scaled(a: u128, b: u64, c: u128) -> (r: u128)
    requires
        c > 0,
        b > 0,
        a <= c,
    ensures
        r == a * b / c as int,
{
    let mut q: u128 = 0;
    let mut rest: u128 = 0;
    let mut i: u64 = 0;
    proof {
        assert(a * 0 == 0) by (nonlinear_arith);
    }
    while i < b
        invariant
            i <= b,
            a <= c,
            c > 0,
            rest < c,
            q <= i,
            a * i == q * c + rest,
        decreases b - i,
    {
        assert(a * (i + 1) == a * i + a) by (nonlinear_arith);
        assert((q + 1) * c == q * c + c) by (nonlinear_arith);
        if rest >= c - a {
            if a == c {
                q = q + 1;
            } else {
                rest = rest - (c - a);
                q = q + 1;
            }
        } else {
            rest = rest + a;
        }
        i = i + 1;
    }
    proof {
        let n = a * b;
        let ci = c as int;
        assert(n / ci == q) by (nonlinear_arith)
            requires
                n == q * ci + rest,
                0 <= rest < ci,
        ;
    }
    q
}

impl StakeQos {
    /// Every key has an address, and no key stands twice.
    pub closed spec fn wf(self) -> bool {
        &&& self.keys@.len() == self.addresses@.len()
        &&& self@.keys.no_duplicates()
    }

    /// Bindings from `key:address` texts. Malformed and short keys are ignored rather
    /// than granting priority to a typo.
    pub fn new(pairs: Vec<String>) -> (r: StakeQos)
        ensures
            r.wf(),
            r@ == bindings_of(types::texts(pairs@)),
    {
        let ghost all = types::texts(pairs@);
        let mut q = StakeQos { keys: Vec::new(), addresses: Vec::new(), cache: None };
        let mut i: usize = 0;
        proof {
            assert(all.take(0) =~= Seq::<Seq<char>>::empty());
            assert(q@ =~= bindings_of(all.take(0)));
        }
        while i < pairs.len()
            invariant
                i <= pairs@.len(),
                all == types::texts(pairs@),
                q.wf(),
                q@ == bindings_of(all.take(i as int)),
            decreases pairs@.len() - i,
        {
            proof {
                assert(all.take(i + 1).drop_last() =~= all.take(i as int));
                assert(all.take(i + 1).last() == pairs@[i as int]@);
            }
            match text::split_once(pairs[i].as_str(), ':') {
                None => {},
                Some((k, a)) => {
                    let key = text::trim(k.as_str());
                    let address = text::trim(a.as_str());
                    let size: usize = text::bytes_of(key.as_str()).len();
                    if size >= MIN_KEY_BYTES && crypto::is_valid_address(address.as_str()) {
                        q.bind(key, address);
                    }
                },
            }
            i = i + 1;
        }
        assert(all.take(all.len() as int) =~= all);
        q
    }

    /// Place of a key.
    fn place(&self, key: &str) -> (r: Option<usize>)
        requires
            self.wf(),
        ensures
            match r {
                Some(i) => i < self.keys@.len() && self@.keys.contains(key@)
                    && self@.keys.index_of(key@) == i && self@.keys[i as int] == key@,
                None => !self@.keys.contains(key@),
            },
    {
        let mut i: usize = 0;
        let mut found: Option<usize> = None;
        while i < self.keys.len()
            invariant
                i <= self.keys@.len(),
                self.wf(),
                match found {
                    Some(j) => j < i && self@.keys[j as int] == key@,
                    None => forall|j: int| 0 <= j < i ==> #[trigger] self@.keys[j] != key@,
                },
            decreases self.keys@.len() - i,
        {
            assert(self@.keys[i as int] == self.keys@[i as int]@);
            if limits::secret_eq(self.keys[i].as_str(), key) {
                found = Some(i);
            }
            i = i + 1;
        }
        proof {
            match found {
                Some(j) => {
                    assert(self@.keys[j as int] == key@);
                    assert(self@.keys.contains(key@));
                    let k = self@.keys.index_of(key@);
                    assert(self@.keys[k] == key@);
                    assert(k == j);
                },
                None => {},
            }
        }
        found
    }

    /// Binds a key.
    fn bind(&mut self, key: String, address: String)
        requires
            old(self).wf(),
        ensures
            final(self).wf(),
            final(self)@ == bound(old(self)@, key@, address@),
    {
        let ghost q = self@;
        let ghost k = key@;
        let ghost a = address@;
        match self.place(key.as_str()) {
            Some(i) => {
                self.addresses.set(i, address);
                proof {
                    assert(self@.keys =~= q.keys);
                    assert(self@.addresses =~= q.addresses.update(i as int, a));
                }
            },
            None => {
                self.keys.push(key);
                self.addresses.push(address);
                proof {
                    assert(self@.keys =~= q.keys.push(k));
                    assert(self@.addresses =~= q.addresses.push(a));
                    assert forall|i: int, j: int|
                        0 <= i < self@.keys.len() && 0 <= j < self@.keys.len() && i
                            != j implies self@.keys[i] != self@.keys[j] by {
                        if i < q.keys.len() && j < q.keys.len() {
                            assert(q.keys[i] != q.keys[j]);
                        } else if i < q.keys.len() {
                            assert(q.keys.contains(q.keys[i]));
                        } else if j < q.keys.len() {
                            assert(q.keys.contains(q.keys[j]));
                        }
                    }
                }
            },
        }
    }

    /// Whether nothing is bound.
    pub fn is_empty(&self) -> (r: bool)
        ensures
            r == (self@.keys.len() == 0),
    {
        self.keys.len() == 0
    }

    /// Number of bound keys.
    pub fn len(&self) -> (r: usize)
        ensures
            r == self@.keys.len(),
    {
        self.keys.len()
    }

    /// The account behind a key.
    pub fn address_for(&self, credential: &str) -> (r: Option<String>)
        requires
            self.wf(),
        ensures
            contracts::text_view(r) == address_of(self@, credential@),
    {
        match self.place(credential) {
            Some(i) => {
                assert(self@.addresses[i as int] == self.addresses@[i as int]@);
                Some(self.addresses[i].clone())
            },
            None => None,
        }
    }

    /// The total stake, looked up at most every few seconds.
    fn total_staked(&mut self, store: &Store, now: u64) -> (r: u128)
        requires
            old(self).wf(),
            store.wf(),
        ensures
            final(self).wf(),
            r == stake_known(old(self)@, store@.db, now),
            final(self)@ == looked(old(self)@, store@.db, now),
    {
        let ghost q = self@;
        match self.cache {
            Some((total, at)) => {
                if at <= now && now - at < CACHE_TTL_MS {
                    return total;
                }
            },
            None => {},
        }
        let total = store.total_staked();
        self.cache = Some((total, now));
        assert(self@ =~= looked(q, store@.db, now));
        total
    }

    /// Budget multiplier of a credential, in thousandths.
    pub fn multiplier(&mut self, store: &Store, credential: Option<&str>, now: u64) -> (r: u64)
        requires
            old(self).wf(),
            store.wf(),
        ensures
            final(self).wf(),
            BASE_MULTIPLIER <= r <= MAX_STAKE_MULTIPLIER,
            r == match backer(old(self)@, cred_view(credential)) {
                Some(a) => weight(
                    stake_behind(store@.db, a),
                    stake_known(old(self)@, store@.db, now) as nat,
                ),
                None => BASE_MULTIPLIER,
            },
            final(self)@ == if backer(old(self)@, cred_view(credential)) is Some {
                looked(old(self)@, store@.db, now)
            } else {
                old(self)@
            },
    {
        let address = match credential {
            None => {
                return BASE_MULTIPLIER;
            },
            Some(c) => match self.address_for(c) {
                None => {
                    return BASE_MULTIPLIER;
                },
                Some(a) => a,
            },
        };
        let total = self.total_staked(store, now);
        let staked = store.account(address.as_str()).staked;
        if total == 0 || staked == 0 {
            return BASE_MULTIPLIER;
        }
        if staked >= total {
            proof {
                let t = total as nat;
                let k = staked as nat;
                let g = SHARE_GAIN as nat;
                assert(k * g / t >= g) by (nonlinear_arith)
                    requires
                        k >= t,
                        t > 0,
                ;
            }
            return MAX_STAKE_MULTIPLIER;
        }
        let gain = scaled(staked, SHARE_GAIN, total);
        let n: u64 = BASE_MULTIPLIER + gain as u64;
        if n < MAX_STAKE_MULTIPLIER {
            n
        } else {
            MAX_STAKE_MULTIPLIER
        }
    }

    /// Share of the stake behind a credential, in hundredths of a percent.
    pub fn share_pct(&mut self, store: &Store, credential: Option<&str>, now: u64) -> (r: u128)
        requires
            old(self).wf(),
            store.wf(),
        ensures
            final(self).wf(),
            r == match backer(old(self)@, cred_view(credential)) {
                Some(a) => types::cap128(
                    share(
                        stake_behind(store@.db, a),
                        stake_known(old(self)@, store@.db, now) as nat,
                    ),
                ),
                None => 0,
            },
            final(self)@ == if backer(old(self)@, cred_view(credential)) is Some {
                looked(old(self)@, store@.db, now)
            } else {
                old(self)@
            },
    {
        let address = match credential {
            None => {
                return 0;
            },
            Some(c) => match self.address_for(c) {
                None => {
                    return 0;
                },
                Some(a) => a,
            },
        };
        let total = self.total_staked(store, now);
        let staked = store.account(address.as_str()).staked;
        if total == 0 {
            return 0;
        }
        basis_points(staked, total)
    }
}

/// A part of a whole in hundredths of a percent, as far as it fits.
pub fn basis_points(part: u128, whole: u128) -> (r: u128)
    requires
        whole > 0,
    ensures
        r == types::cap128(share(part as nat, whole as nat)),
{
    let times: u128 = part / whole;
    let rest: u128 = part % whole;
    let low = scaled(rest, 10_000, whole);
    proof {
        let p = part as int;
        let w = whole as int;
        let t = times as int;
        let m = rest as int;
        assert(p == t * w + m) by (nonlinear_arith)
            requires
                t == p / w,
                m == p % w,
                w > 0,
        ;
        assert(p * 10_000 / w == t * 10_000 + m * 10_000 / w) by (nonlinear_arith)
            requires
                p == t * w + m,
                w > 0,
        ;
    }
    match times.checked_mul(10_000) {
        Some(high) => high.saturating_add(low),
        None => u128::MAX,
    }
}

/// Model of an optional text.
pub open spec fn cred_view(c: Option<&str>) -> Option<Seq<char>> {
    match c {
        Some(t) => Some(t@),
        None => None,
    }
}

/// A bound key is never worse off than an unbound one, whatever it is backed by, and
/// even the whole stake buys a bounded advantage.
pub proof fn law_weight_is_bounded(staked: nat, total: nat)
    ensures
        BASE_MULTIPLIER <= weight(staked, total) <= MAX_STAKE_MULTIPLIER,
{
    if total > 0 {
        let g = SHARE_GAIN as nat;
        assert(staked * g / total >= 0) by (nonlinear_arith)
            requires
                total > 0,
        ;
    }
}

/// More stake never weighs less.
pub proof fn law_weight_follows_stake(a: nat, b: nat, total: nat)
    requires
        a <= b,
    ensures
        weight(a, total) <= weight(b, total),
{
    if total > 0 {
        let g = SHARE_GAIN as nat;
        assert(a * g / total <= b * g / total) by (nonlinear_arith)
            requires
                a <= b,
                total > 0,
        ;
        assert(a * g / total >= 0) by (nonlinear_arith)
            requires
                total > 0,
        ;
    }
}

} // verus!
