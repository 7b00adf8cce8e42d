//! The state tree holds what the tables hold.
//!
//! Every account, token, token balance, contract and storage row is a leaf, and so are the
//! three figures of the shielded pool once they are folded in. The place of a leaf is a
//! hash of its domain and key, so everything here holds as long as no two leaves that are
//! in use have the same place.

use crate::crypto;
use crate::journal::CellV;
use crate::journal::Db;
use crate::journal::Rows;
use crate::ledger;
use crate::poseidon::ParamsV;
use crate::smt;
use crate::state;
use crate::state::FixedV;
use crate::supply;
use crate::table;
use crate::text;
use crate::tokens::TokenV;
use crate::contracts::ContractV;
use crate::types::AccountV;
use vstd::prelude::*;
use vstd::string::*;

verus! {

// ---------------------------------------------------------------- leaves

/// The name of a leaf.
#[verifier::ext_equal]
pub struct LeafV {
    pub domain: Seq<char>,
    pub key: Seq<u8>,
}

impl LeafV {
    /// Hash of the name.
    pub open spec fn id(self) -> Seq<u8> {
        smt::leaf_key_of(self.domain, self.key)
    }

    /// Place in the tree.
    pub open spec fn place(self) -> Seq<bool> {
        smt::path_bits(self.id())
    }
}

/// What the pool contributes to the tree: the root of its notes, its balance and the digest
/// of its nullifiers.
pub open spec fn pool_leaf_of(notes: ParamsV, db: Db, key: Seq<u8>) -> Option<Seq<u8>> {
    if key == text::utf8("root"@) {
        Some(text::utf8(state::note_root_of(notes, db)))
    } else if key == text::utf8("pool"@) {
        Some(text::utf8(text::dec(state::pool_of(db))))
    } else if key == text::utf8("nulls"@) {
        Some(text::utf8(state::nulls_digest_of(db)))
    } else {
        None
    }
}

/// The value of a leaf. The pool has leaves once it was folded into the tree.
pub open spec fn value_at(pool: Option<ParamsV>, db: Db, x: LeafV) -> Option<Seq<u8>> {
    if x.domain == "shielded"@ {
        match pool {
            Some(notes) => pool_leaf_of(notes, db, x.key),
            None => None,
        }
    } else {
        state::leaf_value_of(db, x.domain, x.key)
    }
}

/// All leaves of a database with their values.
pub open spec fn leaves_of(pool: Option<ParamsV>, db: Db) -> Map<LeafV, Seq<u8>> {
    Map::new(|x: LeafV| value_at(pool, db, x) is Some, |x: LeafV| value_at(pool, db, x)->Some_0)
}

/// The leaves of a database that are in use.
pub open spec fn in_use(pool: Option<ParamsV>, db: Db) -> Set<LeafV> {
    leaves_of(pool, db).dom()
}

/// No two leaves of a set have the same place.
pub open spec fn apart(s: Set<LeafV>) -> bool {
    forall|x: LeafV, y: LeafV|
        s.contains(x) && s.contains(y) && #[trigger] x.place() == #[trigger] y.place() ==> x == y
}

/// No leaf of a set has a place.
pub open spec fn vacant(s: Set<LeafV>, p: Seq<bool>) -> bool {
    forall|x: LeafV| s.contains(x) ==> #[trigger] x.place() != p
}

/// The value a map gives a leaf.
pub open spec fn given(m: Map<LeafV, Seq<u8>>, x: LeafV) -> Option<Seq<u8>> {
    if m.contains_key(x) {
        Some(m[x])
    } else {
        None
    }
}

/// A tree holds given leaves and no others: each leaf of a set is at its place with the
/// value it was given, or empty, and every other place is empty.
pub open spec fn reflects(nodes: Rows, m: Map<LeafV, Seq<u8>>, s: Set<LeafV>) -> bool {
    &&& smt::coherent(nodes)
    &&& m.dom().subset_of(s)
    &&& forall|x: LeafV|
        s.contains(x) ==> smt::node(nodes, #[trigger] x.place()) == smt::leaf_hash_of(
            x.id(),
            given(m, x),
        )
    &&& forall|p: Seq<bool>|
        p.len() == 128 && vacant(s, p) ==> #[trigger] smt::node(nodes, p) == smt::empty_hash(128)
}

/// The tree of a database holds exactly what its tables hold.
pub open spec fn mirrored(pool: Option<ParamsV>, db: Db) -> bool {
    &&& db.len() == 16
    &&& reflects(db[12], leaves_of(pool, db), in_use(pool, db))
}

/// The same with a set of leaves that may hold unused ones.
pub open spec fn mirrored_in(pool: Option<ParamsV>, db: Db, s: Set<LeafV>) -> bool {
    &&& db.len() == 16
    &&& reflects(db[12], leaves_of(pool, db), s)
}

/// Unused leaves at places of their own may be added to what a tree is held against, and
/// left out again.
pub proof fn lemma_reflects_widen(
    nodes: Rows,
    m: Map<LeafV, Seq<u8>>,
    s: Set<LeafV>,
    t: Set<LeafV>,
)
    requires
        reflects(nodes, m, s),
        s.subset_of(t),
        apart(t),
    ensures
        reflects(nodes, m, t),
{
    assert forall|x: LeafV| t.contains(x) implies smt::node(nodes, #[trigger] x.place())
        == smt::leaf_hash_of(x.id(), given(m, x)) by {
        if !s.contains(x) {
            assert(vacant(s, x.place())) by {
                assert forall|y: LeafV| s.contains(y) implies #[trigger] y.place() != x.place() by {
                    assert(t.contains(y));
                }
            }
        }
    }
    assert forall|p: Seq<bool>| p.len() == 128 && vacant(t, p) implies #[trigger] smt::node(nodes, p)
        == smt::empty_hash(128) by {
        assert(vacant(s, p)) by {
            assert forall|y: LeafV| s.contains(y) implies #[trigger] y.place() != p by {
                assert(t.contains(y));
            }
        }
    }
}

pub proof fn lemma_reflects_narrow(
    nodes: Rows,
    m: Map<LeafV, Seq<u8>>,
    s: Set<LeafV>,
    t: Set<LeafV>,
)
    requires
        reflects(nodes, m, t),
        s.subset_of(t),
        m.dom().subset_of(s),
    ensures
        reflects(nodes, m, s),
{
    assert forall|p: Seq<bool>| p.len() == 128 && vacant(s, p) implies #[trigger] smt::node(nodes, p)
        == smt::empty_hash(128) by {
        if !vacant(t, p) {
            let y = choose|y: LeafV| t.contains(y) && #[trigger] y.place() == p;
            assert(!s.contains(y));
            assert(!m.dom().contains(y));
            assert(smt::node(nodes, y.place()) == smt::leaf_hash_of(y.id(), given(m, y)));
        }
    }
}

/// Writing a leaf of the set changes what the tree holds in that leaf alone.
pub proof fn lemma_reflects_set(
    nodes: Rows,
    m: Map<LeafV, Seq<u8>>,
    s: Set<LeafV>,
    x: LeafV,
    v: Option<Seq<u8>>,
)
    requires
        reflects(nodes, m, s),
        apart(s),
        s.contains(x),
    ensures
        reflects(
            smt::smt_set(nodes, x.domain, x.key, v),
            match v {
                Some(b) => m.insert(x, b),
                None => m.remove(x),
            },
            s,
        ),
{
    let h = smt::leaf_hash_of(x.id(), v);
    let after = smt::smt_set(nodes, x.domain, x.key, v);
    let n = match v {
        Some(b) => m.insert(x, b),
        None => m.remove(x),
    };
    smt::lemma_empty_hash_len(128);
    assert(h.len() == 32);
    smt::law_write_changes_one_leaf(nodes, x.place(), h);
    assert forall|y: LeafV| s.contains(y) implies smt::node(after, #[trigger] y.place())
        == smt::leaf_hash_of(y.id(), given(n, y)) by {
        assert(y.place().len() == 128);
        if y != x {
            assert(y.place() != x.place());
            assert(given(n, y) == given(m, y));
        }
    }
    assert forall|p: Seq<bool>| p.len() == 128 && vacant(s, p) implies #[trigger] smt::node(after, p)
        == smt::empty_hash(128) by {
        assert(x.place() != p);
    }
}

/// An empty tree holds nothing.
pub proof fn lemma_reflects_nothing(s: Set<LeafV>)
    ensures
        reflects(Map::<Seq<u8>, CellV>::empty(), Map::<LeafV, Seq<u8>>::empty(), s),
{
    smt::lemma_empty_coherent();
}

/// The names of the domains differ.
pub proof fn lemma_domains()
    ensures
        "acct"@ != "token"@,
        "acct"@ != "tokenbal"@,
        "acct"@ != "contract"@,
        "acct"@ != "cstorage"@,
        "acct"@ != "shielded"@,
        "token"@ != "tokenbal"@,
        "token"@ != "contract"@,
        "token"@ != "cstorage"@,
        "token"@ != "shielded"@,
        "tokenbal"@ != "contract"@,
        "tokenbal"@ != "cstorage"@,
        "tokenbal"@ != "shielded"@,
        "contract"@ != "cstorage"@,
        "contract"@ != "shielded"@,
        "cstorage"@ != "shielded"@,
{
    reveal_strlit("acct");
    reveal_strlit("token");
    reveal_strlit("tokenbal");
    reveal_strlit("contract");
    reveal_strlit("cstorage");
    reveal_strlit("shielded");
    assert("acct"@.len() == 4);
    assert("token"@.len() == 5);
    assert("tokenbal"@[0] == 't');
    assert("contract"@[0] == 'c' && "contract"@[1] == 'o');
    assert("cstorage"@[0] == 'c' && "cstorage"@[1] == 's');
    assert("shielded"@[0] == 's');
}

// ---------------------------------------------------------------- writers

/// The leaf of an account.
pub open spec fn account_name(address: Seq<char>) -> LeafV {
    LeafV { domain: "acct"@, key: text::utf8(address) }
}

/// The leaf of a token.
pub open spec fn token_name(id: Seq<char>) -> LeafV {
    LeafV { domain: "token"@, key: text::utf8(id) }
}

/// The leaf of a token balance.
pub open spec fn balance_name(token: Seq<char>, address: Seq<char>) -> LeafV {
    LeafV { domain: "tokenbal"@, key: text::utf8(state::joined(token, address)) }
}

/// The leaf of a contract.
pub open spec fn contract_name(address: Seq<char>) -> LeafV {
    LeafV { domain: "contract"@, key: text::utf8(address) }
}

/// The leaf of a storage row.
pub open spec fn storage_name(address: Seq<char>, key: Seq<char>) -> LeafV {
    LeafV { domain: "cstorage"@, key: text::utf8(state::joined(address, key)) }
}

/// One leaf was written: the tree rebuilt its path, and the tables changed in it alone.
pub open spec fn wrote_leaf(
    pool: Option<ParamsV>,
    db: Db,
    d: Db,
    x: LeafV,
    v: Option<Seq<u8>>,
) -> bool {
    &&& d.len() == 16
    &&& d[12] == smt::smt_set(db[12], x.domain, x.key, v)
    &&& leaves_of(pool, d) == match v {
        Some(b) => leaves_of(pool, db).insert(x, b),
        None => leaves_of(pool, db).remove(x),
    }
}

/// Databases whose figures of the pool agree.
spec fn same_pool(a: Db, b: Db) -> bool {
    &&& a[3] == b[3]
    &&& a[13] == b[13]
    &&& a[14] == b[14]
}

proof fn lemma_same_pool(pool: Option<ParamsV>, a: Db, b: Db, x: LeafV)
    requires
        same_pool(a, b),
        x.domain == "shielded"@,
    ensures
        value_at(pool, a, x) == value_at(pool, b, x),
{
}

/// Values that agree but for one leaf make up maps that do.
proof fn lemma_one_value(pool: Option<ParamsV>, db: Db, d: Db, x: LeafV, v: Option<Seq<u8>>)
    requires
        value_at(pool, d, x) == v,
        forall|y: LeafV| y != x ==> #[trigger] value_at(pool, d, y) == value_at(pool, db, y),
    ensures
        leaves_of(pool, d) == match v {
            Some(b) => leaves_of(pool, db).insert(x, b),
            None => leaves_of(pool, db).remove(x),
        },
{
    let m = leaves_of(pool, d);
    let n = match v {
        Some(b) => leaves_of(pool, db).insert(x, b),
        None => leaves_of(pool, db).remove(x),
    };
    assert forall|y: LeafV| m.contains_key(y) <==> n.contains_key(y) by {
        if y != x {
            assert(value_at(pool, d, y) == value_at(pool, db, y));
        }
    }
    assert forall|y: LeafV| m.contains_key(y) implies m[y] == n[y] by {
        if y != x {
            assert(value_at(pool, d, y) == value_at(pool, db, y));
        }
    }
    assert(m =~= n);
}

/// Writing an account writes its leaf.
pub proof fn lemma_account_leaf(pool: Option<ParamsV>, db: Db, a: Seq<char>, v: AccountV)
    requires
        db.len() == 16,
    ensures
        wrote_leaf(
            pool,
            db,
            state::with_account(db, a, v),
            account_name(a),
            Some(text::utf8(state::account_leaf_of(v))),
        ),
{
    let d = state::with_account(db, a, v);
    let x = account_name(a);
    lemma_domains();
    supply::lemma_account_frame(db, a, v);
    assert(same_pool(d, db));
    assert(d[5] == db[5] && d[6] == db[6] && d[7] == db[7] && d[9] == db[9]);
    assert(d[0] == db[0].insert(x.key, CellV::Account(v)));
    assert forall|y: LeafV| y != x implies #[trigger] value_at(pool, d, y) == value_at(
        pool,
        db,
        y,
    ) by {
        if y.domain == "shielded"@ {
            lemma_same_pool(pool, d, db, y);
        } else if y.domain == "acct"@ {
            assert(y.key != x.key);
        }
    }
    lemma_one_value(pool, db, d, x, Some(text::utf8(state::account_leaf_of(v))));
}

/// Writing a token writes its leaf.
pub proof fn lemma_token_leaf(pool: Option<ParamsV>, db: Db, t: TokenV)
    requires
        db.len() == 16,
    ensures
        wrote_leaf(
            pool,
            db,
            state::with_token(db, t),
            token_name(t.id),
            Some(text::utf8(state::token_leaf_of(t))),
        ),
{
    let d = state::with_token(db, t);
    let x = token_name(t.id);
    lemma_domains();
    assert(same_pool(d, db));
    assert forall|y: LeafV| y != x implies #[trigger] value_at(pool, d, y) == value_at(
        pool,
        db,
        y,
    ) by {
        if y.domain == "shielded"@ {
            lemma_same_pool(pool, d, db, y);
        } else if y.domain == "token"@ {
            assert(y.key != x.key);
        }
    }
    lemma_one_value(pool, db, d, x, Some(text::utf8(state::token_leaf_of(t))));
}

/// Writing a token balance writes its leaf, and clears it with the balance.
pub proof fn lemma_balance_leaf(
    pool: Option<ParamsV>,
    db: Db,
    token: Seq<char>,
    address: Seq<char>,
    amount: nat,
)
    requires
        db.len() == 16,
    ensures
        wrote_leaf(
            pool,
            db,
            state::with_token_balance(db, token, address, amount),
            balance_name(token, address),
            if amount == 0 {
                None
            } else {
                Some(text::utf8(text::dec(amount)))
            },
        ),
{
    let d = state::with_token_balance(db, token, address, amount);
    let x = balance_name(token, address);
    let v = if amount == 0 {
        None
    } else {
        Some(text::utf8(text::dec(amount)))
    };
    lemma_domains();
    assert(same_pool(d, db));
    assert forall|y: LeafV| y != x implies #[trigger] value_at(pool, d, y) == value_at(
        pool,
        db,
        y,
    ) by {
        if y.domain == "shielded"@ {
            lemma_same_pool(pool, d, db, y);
        } else if y.domain == "tokenbal"@ {
            assert(y.key != x.key);
        }
    }
    lemma_one_value(pool, db, d, x, v);
}

/// Writing a contract writes its leaf.
pub proof fn lemma_contract_leaf(pool: Option<ParamsV>, db: Db, c: ContractV)
    requires
        db.len() == 16,
    ensures
        wrote_leaf(
            pool,
            db,
            state::with_contract(db, c),
            contract_name(c.address),
            Some(text::utf8(state::contract_leaf_of(c))),
        ),
{
    let d = state::with_contract(db, c);
    let x = contract_name(c.address);
    lemma_domains();
    assert(same_pool(d, db));
    assert forall|y: LeafV| y != x implies #[trigger] value_at(pool, d, y) == value_at(
        pool,
        db,
        y,
    ) by {
        if y.domain == "shielded"@ {
            lemma_same_pool(pool, d, db, y);
        } else if y.domain == "contract"@ {
            assert(y.key != x.key);
        }
    }
    lemma_one_value(pool, db, d, x, Some(text::utf8(state::contract_leaf_of(c))));
}

/// Writing a storage row writes its leaf, and clears it with the row.
pub proof fn lemma_storage_leaf(
    pool: Option<ParamsV>,
    db: Db,
    address: Seq<char>,
    key: Seq<char>,
    value: Option<Seq<u8>>,
)
    requires
        db.len() == 16,
    ensures
        wrote_leaf(
            pool,
            db,
            state::with_storage(db, address, key, value),
            storage_name(address, key),
            value,
        ),
{
    let d = state::with_storage(db, address, key, value);
    let x = storage_name(address, key);
    lemma_domains();
    assert(same_pool(d, db));
    assert forall|y: LeafV| y != x implies #[trigger] value_at(pool, d, y) == value_at(
        pool,
        db,
        y,
    ) by {
        if y.domain == "shielded"@ {
            lemma_same_pool(pool, d, db, y);
        } else if y.domain == "cstorage"@ {
            assert(y.key != x.key);
        }
    }
    lemma_one_value(pool, db, d, x, value);
}

/// One leaf written within a set of leaves keeps tree and tables alike.
pub proof fn lemma_written_in(
    pool: Option<ParamsV>,
    db: Db,
    d: Db,
    x: LeafV,
    v: Option<Seq<u8>>,
    s: Set<LeafV>,
)
    requires
        mirrored_in(pool, db, s),
        apart(s),
        s.contains(x),
        wrote_leaf(pool, db, d, x, v),
    ensures
        mirrored_in(pool, d, s),
{
    lemma_reflects_set(db[12], leaves_of(pool, db), s, x, v);
}

/// One leaf written whose place no other leaf has keeps tree and tables alike. This is so
/// of every account, token, token balance, contract and storage row that is written, and of
/// every balance and row that is removed.
pub proof fn law_write_is_mirrored(
    pool: Option<ParamsV>,
    db: Db,
    d: Db,
    x: LeafV,
    v: Option<Seq<u8>>,
)
    requires
        mirrored(pool, db),
        apart(in_use(pool, db).insert(x)),
        wrote_leaf(pool, db, d, x, v),
    ensures
        mirrored(pool, d),
{
    let s = in_use(pool, db).insert(x);
    lemma_reflects_widen(db[12], leaves_of(pool, db), in_use(pool, db), s);
    lemma_written_in(pool, db, d, x, v, s);
    assert(in_use(pool, d).subset_of(s));
    lemma_reflects_narrow(d[12], leaves_of(pool, d), in_use(pool, d), s);
}

/// Every writer of the state keeps tree and tables alike.
pub proof fn law_writers_are_mirrored(
    pool: Option<ParamsV>,
    db: Db,
    address: Seq<char>,
    account: AccountV,
    token: TokenV,
    amount: nat,
    contract: ContractV,
    key: Seq<char>,
    value: Option<Seq<u8>>,
)
    requires
        mirrored(pool, db),
    ensures
        apart(in_use(pool, db).insert(account_name(address))) ==> mirrored(
            pool,
            state::with_account(db, address, account),
        ),
        apart(in_use(pool, db).insert(token_name(token.id))) ==> mirrored(
            pool,
            state::with_token(db, token),
        ),
        apart(in_use(pool, db).insert(balance_name(token.id, address))) ==> mirrored(
            pool,
            state::with_token_balance(db, token.id, address, amount),
        ),
        apart(in_use(pool, db).insert(contract_name(contract.address))) ==> mirrored(
            pool,
            state::with_contract(db, contract),
        ),
        apart(in_use(pool, db).insert(storage_name(address, key))) ==> mirrored(
            pool,
            state::with_storage(db, address, key, value),
        ),
{
    lemma_account_leaf(pool, db, address, account);
    lemma_token_leaf(pool, db, token);
    lemma_balance_leaf(pool, db, token.id, address, amount);
    lemma_contract_leaf(pool, db, contract);
    lemma_storage_leaf(pool, db, address, key, value);
    if apart(in_use(pool, db).insert(account_name(address))) {
        law_write_is_mirrored(
            pool,
            db,
            state::with_account(db, address, account),
            account_name(address),
            Some(text::utf8(state::account_leaf_of(account))),
        );
    }
    if apart(in_use(pool, db).insert(token_name(token.id))) {
        law_write_is_mirrored(
            pool,
            db,
            state::with_token(db, token),
            token_name(token.id),
            Some(text::utf8(state::token_leaf_of(token))),
        );
    }
    if apart(in_use(pool, db).insert(balance_name(token.id, address))) {
        law_write_is_mirrored(
            pool,
            db,
            state::with_token_balance(db, token.id, address, amount),
            balance_name(token.id, address),
            if amount == 0 {
                None
            } else {
                Some(text::utf8(text::dec(amount)))
            },
        );
    }
    if apart(in_use(pool, db).insert(contract_name(contract.address))) {
        law_write_is_mirrored(
            pool,
            db,
            state::with_contract(db, contract),
            contract_name(contract.address),
            Some(text::utf8(state::contract_leaf_of(contract))),
        );
    }
    if apart(in_use(pool, db).insert(storage_name(address, key))) {
        law_write_is_mirrored(
            pool,
            db,
            state::with_storage(db, address, key, value),
            storage_name(address, key),
            value,
        );
    }
}

/// Databases that agree on the tables and the pool have the same leaves.
pub proof fn lemma_same_leaves(pool: Option<ParamsV>, db: Db, d: Db)
    requires
        d[0] == db[0],
        d[5] == db[5],
        d[6] == db[6],
        d[7] == db[7],
        d[9] == db[9],
        d[13] == db[13],
        d[14] == db[14],
        state::meta(d, "shielded_pool"@) == state::meta(db, "shielded_pool"@),
    ensures
        leaves_of(pool, d) == leaves_of(pool, db),
{
    assert(state::pool_of(d) == state::pool_of(db));
    assert forall|y: LeafV| #[trigger] value_at(pool, d, y) == value_at(pool, db, y) by {
        if y.domain == "shielded"@ && pool is Some {
            let notes = pool->Some_0;
            assert(state::note_root_of(notes, d) == state::note_root_of(notes, db));
            assert(state::nulls_digest_of(d) == state::nulls_digest_of(db));
        }
    }
    assert(leaves_of(pool, d) =~= leaves_of(pool, db));
}

/// Writes that touch neither the tree nor what it holds keep them alike: blocks, index,
/// receipts, slashes, bytecode, stakers, and names of the meta table but the pool's.
pub proof fn lemma_aside(pool: Option<ParamsV>, db: Db, d: Db)
    requires
        d.len() == 16,
        d[0] == db[0],
        d[5] == db[5],
        d[6] == db[6],
        d[7] == db[7],
        d[9] == db[9],
        d[12] == db[12],
        d[13] == db[13],
        d[14] == db[14],
        state::meta(d, "shielded_pool"@) == state::meta(db, "shielded_pool"@),
    ensures
        leaves_of(pool, d) == leaves_of(pool, db),
        mirrored(pool, db) ==> mirrored(pool, d),
{
    lemma_same_leaves(pool, db, d);
}

// ---------------------------------------------------------------- where trees start

/// An empty database mirrors itself.
pub proof fn law_empty_store_is_mirrored(db: Db)
    requires
        db.len() == 16,
        db[0] == Map::<Seq<u8>, CellV>::empty(),
        db[5] == Map::<Seq<u8>, CellV>::empty(),
        db[6] == Map::<Seq<u8>, CellV>::empty(),
        db[7] == Map::<Seq<u8>, CellV>::empty(),
        db[9] == Map::<Seq<u8>, CellV>::empty(),
        db[12] == Map::<Seq<u8>, CellV>::empty(),
    ensures
        mirrored(None, db),
        leaves_of(None, db) == Map::<LeafV, Seq<u8>>::empty(),
{
    assert forall|x: LeafV| #[trigger] value_at(None, db, x) is None by {}
    assert(leaves_of(None, db) =~= Map::<LeafV, Seq<u8>>::empty());
    lemma_reflects_nothing(in_use(None, db));
}

/// Leaves with those of the rows of a table added, in order.
spec fn with_rows(
    m: Map<LeafV, Seq<u8>>,
    domain: Seq<char>,
    t: int,
    rows: Seq<(Seq<u8>, CellV)>,
) -> Map<LeafV, Seq<u8>>
    decreases rows.len(),
{
    if rows.len() == 0 {
        m
    } else {
        let r = with_rows(m, domain, t, rows.drop_last());
        match state::table_leaf(t, rows.last().1) {
            Some(v) => r.insert(LeafV { domain, key: rows.last().0 }, v),
            None => r,
        }
    }
}

/// The leaf value of a row of a map, or none.
spec fn row_value(t: int, m: Rows, key: Seq<u8>) -> Option<Seq<u8>> {
    if m.contains_key(key) {
        state::table_leaf(t, m[key])
    } else {
        None
    }
}

proof fn lemma_with_rows(
    m: Map<LeafV, Seq<u8>>,
    domain: Seq<char>,
    t: int,
    rows: Seq<(Seq<u8>, CellV)>,
    x: LeafV,
)
    requires
        table::increasing(rows),
        x.domain == domain ==> !m.contains_key(x),
    ensures
        given(with_rows(m, domain, t, rows), x) == if x.domain == domain {
            row_value(t, table::map_of(rows), x.key)
        } else {
            given(m, x)
        },
    decreases rows.len(),
{
    if rows.len() > 0 {
        let d = rows.drop_last();
        table::lemma_increasing_drop_last(rows);
        lemma_with_rows(m, domain, t, d, x);
        if x.domain == domain && x.key == rows.last().0 {
            assert(!table::map_of(d).contains_key(x.key));
            assert(x == LeafV { domain, key: rows.last().0 });
        }
    }
}

/// Writing the leaves of rows puts them into the tree.
proof fn lemma_all_merkled_reflects(
    db: Db,
    domain: Seq<char>,
    t: int,
    rows: Seq<(Seq<u8>, CellV)>,
    m: Map<LeafV, Seq<u8>>,
    s: Set<LeafV>,
)
    requires
        db.len() == 16,
        reflects(db[12], m, s),
        apart(s),
        with_rows(m, domain, t, rows).dom().subset_of(s),
    ensures
        ({
            let d = state::all_merkled(db, domain, t, rows);
            &&& d.len() == 16
            &&& reflects(d[12], with_rows(m, domain, t, rows), s)
            &&& forall|i: int| 0 <= i < 16 && i != 12 ==> #[trigger] d[i] == db[i]
        }),
    decreases rows.len(),
{
    if rows.len() > 0 {
        let p = rows.drop_last();
        let r = with_rows(m, domain, t, p);
        let all = with_rows(m, domain, t, rows);
        assert forall|x: LeafV| r.dom().contains(x) implies s.contains(x) by {
            assert(all.dom().contains(x));
        }
        lemma_all_merkled_reflects(db, domain, t, p, m, s);
        let d = state::all_merkled(db, domain, t, p);
        match state::table_leaf(t, rows.last().1) {
            Some(v) => {
                let x = LeafV { domain, key: rows.last().0 };
                assert(all.dom().contains(x));
                lemma_reflects_set(d[12], r, s, x, Some(v));
            },
            None => {},
        }
    }
}

/// The pool that a rebuilt tree holds at a height.
pub open spec fn pool_at(f: FixedV, height: nat) -> Option<ParamsV> {
    if height >= f.shielded_from {
        Some(f.notes)
    } else {
        None
    }
}

/// The leaves of the five tables, table by table.
spec fn table_leaves(db: Db) -> Map<LeafV, Seq<u8>> {
    let a = with_rows(Map::empty(), "acct"@, 0, table::ordered(db[0]));
    let b = with_rows(a, "token"@, 5, table::ordered(db[5]));
    let c = with_rows(b, "tokenbal"@, 6, table::ordered(db[6]));
    let d = with_rows(c, "contract"@, 7, table::ordered(db[7]));
    with_rows(d, "cstorage"@, 9, table::ordered(db[9]))
}

/// Tables whose rows can be walked.
pub open spec fn walkable(db: Db) -> bool {
    &&& db.len() == 16
    &&& table::tabular(db[0])
    &&& table::tabular(db[5])
    &&& table::tabular(db[6])
    &&& table::tabular(db[7])
    &&& table::tabular(db[9])
}

proof fn lemma_table_leaves_at(db: Db, x: LeafV)
    requires
        walkable(db),
    ensures
        given(table_leaves(db), x) == value_at(None, db, x),
{
    lemma_domains();
    table::lemma_tabular(db[0]);
    table::lemma_tabular(db[5]);
    table::lemma_tabular(db[6]);
    table::lemma_tabular(db[7]);
    table::lemma_tabular(db[9]);
    let e = Map::<LeafV, Seq<u8>>::empty();
    let a = with_rows(e, "acct"@, 0, table::ordered(db[0]));
    let b = with_rows(a, "token"@, 5, table::ordered(db[5]));
    let c = with_rows(b, "tokenbal"@, 6, table::ordered(db[6]));
    let d = with_rows(c, "contract"@, 7, table::ordered(db[7]));
    lemma_with_rows(e, "acct"@, 0, table::ordered(db[0]), x);
    assert(x.domain != "acct"@ ==> given(a, x) is None);
    lemma_with_rows(a, "token"@, 5, table::ordered(db[5]), x);
    assert(x.domain != "acct"@ && x.domain != "token"@ ==> given(b, x) is None);
    lemma_with_rows(b, "tokenbal"@, 6, table::ordered(db[6]), x);
    assert(x.domain == "contract"@ || x.domain == "cstorage"@ ==> given(c, x) is None);
    lemma_with_rows(c, "contract"@, 7, table::ordered(db[7]), x);
    assert(x.domain == "cstorage"@ ==> given(d, x) is None);
    lemma_with_rows(d, "cstorage"@, 9, table::ordered(db[9]), x);
}

proof fn lemma_table_leaves(db: Db)
    requires
        walkable(db),
    ensures
        table_leaves(db) == leaves_of(None, db),
{
    let m = table_leaves(db);
    let n = leaves_of(None, db);
    assert forall|x: LeafV| m.contains_key(x) <==> n.contains_key(x) by {
        lemma_table_leaves_at(db, x);
    }
    assert forall|x: LeafV| m.contains_key(x) implies m[x] == n[x] by {
        lemma_table_leaves_at(db, x);
    }
    assert(m =~= n);
}

/// The five tables of a database put into an empty tree.
spec fn tables_merkled(db: Db) -> Db {
    let a = state::all_merkled(state::emptied(db, 12), "acct"@, 0, table::ordered(db[0]));
    let b = state::all_merkled(a, "token"@, 5, table::ordered(db[5]));
    let c = state::all_merkled(b, "tokenbal"@, 6, table::ordered(db[6]));
    let d = state::all_merkled(c, "contract"@, 7, table::ordered(db[7]));
    state::all_merkled(d, "cstorage"@, 9, table::ordered(db[9]))
}

/// Adding rows leaves out nothing.
proof fn lemma_with_rows_grows(
    m: Map<LeafV, Seq<u8>>,
    domain: Seq<char>,
    t: int,
    rows: Seq<(Seq<u8>, CellV)>,
)
    ensures
        m.dom().subset_of(with_rows(m, domain, t, rows).dom()),
    decreases rows.len(),
{
    if rows.len() > 0 {
        lemma_with_rows_grows(m, domain, t, rows.drop_last());
    }
}

proof fn lemma_tables_merkled(db: Db, s: Set<LeafV>)
    requires
        walkable(db),
        apart(s),
        in_use(None, db).subset_of(s),
    ensures
        ({
            let d = tables_merkled(db);
            &&& d.len() == 16
            &&& reflects(d[12], leaves_of(None, db), s)
            &&& forall|i: int| 0 <= i < 16 && i != 12 ==> #[trigger] d[i] == db[i]
        }),
{
    lemma_table_leaves(db);
    let m0 = Map::<LeafV, Seq<u8>>::empty();
    let m1 = with_rows(m0, "acct"@, 0, table::ordered(db[0]));
    let m2 = with_rows(m1, "token"@, 5, table::ordered(db[5]));
    let m3 = with_rows(m2, "tokenbal"@, 6, table::ordered(db[6]));
    let m4 = with_rows(m3, "contract"@, 7, table::ordered(db[7]));
    let m5 = with_rows(m4, "cstorage"@, 9, table::ordered(db[9]));
    lemma_with_rows_grows(m1, "token"@, 5, table::ordered(db[5]));
    lemma_with_rows_grows(m2, "tokenbal"@, 6, table::ordered(db[6]));
    lemma_with_rows_grows(m3, "contract"@, 7, table::ordered(db[7]));
    lemma_with_rows_grows(m4, "cstorage"@, 9, table::ordered(db[9]));
    let d0 = state::emptied(db, 12);
    lemma_reflects_nothing(s);
    lemma_all_merkled_reflects(d0, "acct"@, 0, table::ordered(db[0]), m0, s);
    let d1 = state::all_merkled(d0, "acct"@, 0, table::ordered(db[0]));
    lemma_all_merkled_reflects(d1, "token"@, 5, table::ordered(db[5]), m1, s);
    let d2 = state::all_merkled(d1, "token"@, 5, table::ordered(db[5]));
    lemma_all_merkled_reflects(d2, "tokenbal"@, 6, table::ordered(db[6]), m2, s);
    let d3 = state::all_merkled(d2, "tokenbal"@, 6, table::ordered(db[6]));
    lemma_all_merkled_reflects(d3, "contract"@, 7, table::ordered(db[7]), m3, s);
    let d4 = state::all_merkled(d3, "contract"@, 7, table::ordered(db[7]));
    lemma_all_merkled_reflects(d4, "cstorage"@, 9, table::ordered(db[9]), m4, s);
    let d5 = state::all_merkled(d4, "cstorage"@, 9, table::ordered(db[9]));
    assert forall|i: int| 0 <= i < 16 && i != 12 implies #[trigger] d5[i] == db[i] by {
        assert(d5[i] == d4[i]);
        assert(d4[i] == d3[i]);
        assert(d3[i] == d2[i]);
        assert(d2[i] == d1[i]);
        assert(d1[i] == d0[i]);
        assert(d0[i] == db[i]);
    }
}

/// A name of a figure of the pool.
spec fn pool_name(name: Seq<char>) -> LeafV {
    LeafV { domain: "shielded"@, key: text::utf8(name) }
}

/// The names of the pool's figures differ.
proof fn lemma_pool_names()
    ensures
        text::utf8("root"@) != text::utf8("pool"@),
        text::utf8("root"@) != text::utf8("nulls"@),
        text::utf8("pool"@) != text::utf8("nulls"@),
{
    reveal_strlit("root");
    reveal_strlit("pool");
    reveal_strlit("nulls");
    assert("root"@[0] == 'r' && "pool"@[0] == 'p' && "nulls"@[0] == 'n');
    if text::utf8("root"@) == text::utf8("pool"@) {
        text::lemma_utf8_injective("root"@, "pool"@);
    }
    if text::utf8("root"@) == text::utf8("nulls"@) {
        text::lemma_utf8_injective("root"@, "nulls"@);
    }
    if text::utf8("pool"@) == text::utf8("nulls"@) {
        text::lemma_utf8_injective("pool"@, "nulls"@);
    }
}

/// The leaves with the pool are those without it and the pool's three.
proof fn lemma_pool_leaves(notes: ParamsV, db: Db)
    ensures
        leaves_of(Some(notes), db) == leaves_of(None, db).insert(
            pool_name("root"@),
            text::utf8(state::note_root_of(notes, db)),
        ).insert(pool_name("pool"@), text::utf8(text::dec(state::pool_of(db)))).insert(
            pool_name("nulls"@),
            text::utf8(state::nulls_digest_of(db)),
        ),
{
    lemma_pool_names();
    let m = leaves_of(Some(notes), db);
    let n = leaves_of(None, db).insert(
        pool_name("root"@),
        text::utf8(state::note_root_of(notes, db)),
    ).insert(pool_name("pool"@), text::utf8(text::dec(state::pool_of(db)))).insert(
        pool_name("nulls"@),
        text::utf8(state::nulls_digest_of(db)),
    );
    assert forall|x: LeafV| m.contains_key(x) <==> n.contains_key(x) by {
        if x.domain == "shielded"@ {
            if x.key == text::utf8("root"@) {
                assert(x == pool_name("root"@));
            } else if x.key == text::utf8("pool"@) {
                assert(x == pool_name("pool"@));
            } else if x.key == text::utf8("nulls"@) {
                assert(x == pool_name("nulls"@));
            }
        } else {
            assert(value_at(Some(notes), db, x) == value_at(None, db, x));
        }
    }
    assert forall|x: LeafV| m.contains_key(x) implies m[x] == n[x] by {
        if x.domain == "shielded"@ {
            if x.key == text::utf8("root"@) {
                assert(x == pool_name("root"@));
            } else if x.key == text::utf8("pool"@) {
                assert(x == pool_name("pool"@));
            } else if x.key == text::utf8("nulls"@) {
                assert(x == pool_name("nulls"@));
            }
        } else {
            assert(value_at(Some(notes), db, x) == value_at(None, db, x));
        }
    }
    assert(m =~= n);
}

/// Folding the pool into a tree without it writes the pool's leaves.
pub proof fn law_sealed_pool_is_mirrored(notes: ParamsV, db: Db)
    requires
        mirrored_in(None, db, in_use(Some(notes), db)),
        apart(in_use(Some(notes), db)),
    ensures
        ({
            let d = state::pool_merkled(db, state::note_root_of(notes, db));
            &&& mirrored(Some(notes), d)
            &&& leaves_of(Some(notes), d) == leaves_of(Some(notes), db)
            &&& d.len() == 16
            &&& forall|i: int| 0 <= i < 16 && i != 12 ==> #[trigger] d[i] == db[i]
        }),
{
    let s = in_use(Some(notes), db);
    let root = text::utf8(state::note_root_of(notes, db));
    let m = leaves_of(None, db);
    lemma_pool_leaves(notes, db);
    let x = pool_name("root"@);
    let y = pool_name("pool"@);
    let z = pool_name("nulls"@);
    let a = state::merkled(db, "shielded"@, text::utf8("root"@), Some(root));
    assert(a[3] == db[3]);
    assert(state::pool_of(a) == state::pool_of(db));
    let v = text::utf8(text::dec(state::pool_of(db)));
    let b = state::merkled(a, "shielded"@, text::utf8("pool"@), Some(v));
    assert(b[14] == db[14]);
    assert(state::nulls_digest_of(b) == state::nulls_digest_of(db));
    let w = text::utf8(state::nulls_digest_of(db));
    let d = state::pool_merkled(db, state::note_root_of(notes, db));
    let full = m.insert(x, root).insert(y, v).insert(z, w);
    assert(full.dom().contains(x) && full.dom().contains(y) && full.dom().contains(z));
    lemma_reflects_set(db[12], m, s, x, Some(root));
    lemma_reflects_set(a[12], m.insert(x, root), s, y, Some(v));
    lemma_reflects_set(b[12], m.insert(x, root).insert(y, v), s, z, Some(w));
    assert(d[3] == db[3] && d[13] == db[13] && d[14] == db[14]);
    assert forall|q: LeafV| #[trigger] value_at(Some(notes), d, q) == value_at(
        Some(notes),
        db,
        q,
    ) by {
        if q.domain == "shielded"@ {
            assert(same_pool(d, db));
            lemma_same_pool(Some(notes), d, db, q);
        }
    }
    assert(leaves_of(Some(notes), d) =~= leaves_of(Some(notes), db));
}

/// A rebuilt tree holds exactly what the tables hold, and the pool from its height on.
pub proof fn law_rebuilt_is_mirrored(f: FixedV, db: Db, height: nat)
    requires
        walkable(db),
        apart(in_use(pool_at(f, height), db)),
    ensures
        mirrored(pool_at(f, height), state::rebuilt(f, db, height)),
        leaves_of(pool_at(f, height), state::rebuilt(f, db, height)) == leaves_of(
            pool_at(f, height),
            db,
        ),
{
    let pool = pool_at(f, height);
    let s = in_use(pool, db);
    assert forall|x: LeafV| in_use(None, db).contains(x) implies s.contains(x) by {
        assert(value_at(None, db, x) is Some);
        assert(value_at(pool, db, x) == value_at(None, db, x));
    }
    lemma_tables_merkled(db, s);
    let e = tables_merkled(db);
    assert(e[3] == db[3] && e[13] == db[13] && e[14] == db[14] && e[0] == db[0] && e[5] == db[5]
        && e[6] == db[6] && e[7] == db[7] && e[9] == db[9]);
    assert(same_pool(e, db));
    assert forall|q: LeafV| #[trigger] value_at(pool, e, q) == value_at(pool, db, q) by {
        if q.domain == "shielded"@ {
            lemma_same_pool(pool, e, db, q);
        }
    }
    assert(leaves_of(pool, e) =~= leaves_of(pool, db));
    assert forall|q: LeafV| #[trigger] value_at(None, e, q) == value_at(None, db, q) by {}
    assert(leaves_of(None, e) =~= leaves_of(None, db));
    let g = if height >= f.shielded_from {
        state::pool_merkled(e, state::note_root_of(f.notes, e))
    } else {
        e
    };
    if height >= f.shielded_from {
        law_sealed_pool_is_mirrored(f.notes, e);
    }
    assert(mirrored(pool, g));
    assert(leaves_of(pool, g) == leaves_of(pool, db));
    let v = text::utf8("1"@);
    assert("smt_version"@ != "shielded_pool"@) by {
        reveal_strlit("smt_version");
        reveal_strlit("shielded_pool");
        assert("smt_version"@.len() == 11);
        assert("shielded_pool"@.len() == 13);
    }
    supply::lemma_meta_after(g, "smt_version"@, v, "shielded_pool"@);
    let r = state::rebuilt(f, db, height);
    assert(r == state::with_meta(g, "smt_version"@, v));
    lemma_aside(pool, g, r);
}

// ---------------------------------------------------------------- what it is good for

/// Trees that hold the same leaves have the same root.
pub proof fn law_same_state_same_root(pa: Option<ParamsV>, a: Db, pb: Option<ParamsV>, b: Db)
    requires
        mirrored(pa, a),
        mirrored(pb, b),
        leaves_of(pa, a) == leaves_of(pb, b),
    ensures
        state::merkle_root_of(a) == state::merkle_root_of(b),
{
    let s = in_use(pa, a);
    assert forall|p: Seq<bool>| p.len() == 128 implies #[trigger] smt::leaves(a[12])(p)
        == smt::leaves(b[12])(p) by {
        if vacant(s, p) {
            assert(smt::node(a[12], p) == smt::empty_hash(128));
            assert(smt::node(b[12], p) == smt::empty_hash(128));
        } else {
            let x = choose|x: LeafV| s.contains(x) && #[trigger] x.place() == p;
            assert(smt::node(a[12], x.place()) == smt::node(b[12], x.place()));
        }
    }
    smt::law_nodes_commit_to_leaves(a[12], Seq::empty());
    smt::law_nodes_commit_to_leaves(b[12], Seq::empty());
    smt::lemma_subtree_ext(smt::leaves(a[12]), smt::leaves(b[12]), Seq::empty());
}

/// What a node serves for a leaf verifies: its proof, checked against its root, shows the
/// value its tables hold, or that they hold none. This is so of every domain but the pool's,
/// whose figures the tables hold otherwise.
pub proof fn law_served_proof_verifies(
    pool: Option<ParamsV>,
    db: Db,
    domain: Seq<char>,
    key: Seq<char>,
)
    requires
        mirrored(pool, db),
        domain != "shielded"@,
        apart(in_use(pool, db).insert(LeafV { domain, key: text::utf8(key) })),
    ensures
        ({
            let path = smt::path_bits(smt::leaf_key_of(domain, text::utf8(key)));
            smt::proof_ok(
                state::merkle_root_of(db),
                domain,
                text::utf8(key),
                state::leaf_value_of(db, domain, text::utf8(key)),
                smt::hex_list(smt::proof_siblings(db[12], path, 128)),
                crypto::hex_text(smt::packed(smt::proof_bits(db[12], path))),
            )
        }),
{
    let x = LeafV { domain, key: text::utf8(key) };
    let s = in_use(pool, db).insert(x);
    lemma_reflects_widen(db[12], leaves_of(pool, db), in_use(pool, db), s);
    assert(smt::node(db[12], x.place()) == smt::leaf_hash_of(
        x.id(),
        given(leaves_of(pool, db), x),
    ));
    smt::law_proof_round_trip(
        db[12],
        domain,
        text::utf8(key),
        state::leaf_value_of(db, domain, text::utf8(key)),
    );
}

/// And it shows nothing else: whatever siblings and map come with it, a proof that is
/// accepted under a node's root claims the value the node's tables hold, unless hashes
/// collide.
pub proof fn law_proof_shows_the_tables(
    pool: Option<ParamsV>,
    db: Db,
    domain: Seq<char>,
    key: Seq<char>,
    claimed: Option<Seq<u8>>,
    siblings_hex: Seq<Seq<char>>,
    bitmap_hex: Seq<char>,
)
    requires
        mirrored(pool, db),
        domain != "shielded"@,
        apart(in_use(pool, db).insert(LeafV { domain, key: text::utf8(key) })),
        smt::collision_free(
            smt::hashed(
                db[12],
                domain,
                text::utf8(key),
                state::leaf_value_of(db, domain, text::utf8(key)),
                claimed,
                siblings_hex,
                bitmap_hex,
            ),
        ),
        smt::proof_ok(
            state::merkle_root_of(db),
            domain,
            text::utf8(key),
            claimed,
            siblings_hex,
            bitmap_hex,
        ),
    ensures
        claimed == state::leaf_value_of(db, domain, text::utf8(key)),
{
    let x = LeafV { domain, key: text::utf8(key) };
    let s = in_use(pool, db).insert(x);
    lemma_reflects_widen(db[12], leaves_of(pool, db), in_use(pool, db), s);
    assert(smt::node(db[12], x.place()) == smt::leaf_hash_of(
        x.id(),
        given(leaves_of(pool, db), x),
    ));
    smt::law_proof_binds_the_value(
        db[12],
        domain,
        text::utf8(key),
        state::leaf_value_of(db, domain, text::utf8(key)),
        claimed,
        siblings_hex,
        bitmap_hex,
    );
}

/// Everything hashed on the way from the roots of two trees to a leaf.
pub open spec fn hashed_to(a: Rows, b: Rows, x: LeafV, v: Option<Seq<u8>>, w: Option<Seq<u8>>) -> Set<
    Seq<u8>,
> {
    smt::hashed_leaf(x.id(), v) + smt::hashed_leaf(x.id(), w) + smt::hashed_down(a, x.place(), 128)
        + smt::hashed_down(b, x.place(), 128)
}

/// The nodes along a path are the hashes of their children.
spec fn coherent_along(nodes: Rows, path: Seq<bool>) -> bool {
    forall|k: int|
        0 <= k < 128 ==> #[trigger] smt::node(nodes, path.take(k)) == smt::pair(
            smt::node(nodes, path.take(k).push(false)),
            smt::node(nodes, path.take(k).push(true)),
        )
}

proof fn lemma_coherent_along(nodes: Rows, path: Seq<bool>)
    requires
        smt::coherent(nodes),
        path.len() == 128,
    ensures
        coherent_along(nodes, path),
{
    assert forall|k: int| 0 <= k < 128 implies #[trigger] smt::node(nodes, path.take(k))
        == smt::pair(
        smt::node(nodes, path.take(k).push(false)),
        smt::node(nodes, path.take(k).push(true)),
    ) by {
        assert(path.take(k).len() < 128);
    }
}

/// Trees with the same root have the same nodes along a path.
proof fn lemma_same_nodes(a: Rows, b: Rows, path: Seq<bool>, d: nat, messages: Set<Seq<u8>>)
    requires
        coherent_along(a, path),
        coherent_along(b, path),
        smt::root_of(a) == smt::root_of(b),
        path.len() == 128,
        d <= 128,
        smt::collision_free(messages),
        smt::hashed_down(a, path, d).subset_of(messages),
        smt::hashed_down(b, path, d).subset_of(messages),
    ensures
        smt::node(a, path.take(d as int)) == smt::node(b, path.take(d as int)),
    decreases d,
{
    if d == 0 {
        assert(path.take(0) =~= Seq::<bool>::empty());
    } else {
        let up = path.take(d - 1);
        let al = smt::node(a, up.push(false));
        let ar = smt::node(a, up.push(true));
        let bl = smt::node(b, up.push(false));
        let br = smt::node(b, up.push(true));
        let da = smt::hashed_down(a, path, (d - 1) as nat);
        let db = smt::hashed_down(b, path, (d - 1) as nat);
        assert(smt::hashed_down(a, path, d) == da.insert(al + ar));
        assert(smt::hashed_down(b, path, d) == db.insert(bl + br));
        assert(da.insert(al + ar).contains(al + ar));
        assert(db.insert(bl + br).contains(bl + br));
        assert forall|m: Seq<u8>| da.contains(m) implies messages.contains(m) by {
            assert(da.insert(al + ar).contains(m));
        }
        assert forall|m: Seq<u8>| db.contains(m) implies messages.contains(m) by {
            assert(db.insert(bl + br).contains(m));
        }
        lemma_same_nodes(a, b, path, (d - 1) as nat, messages);
        assert(smt::node(a, up) == smt::pair(al, ar));
        assert(smt::node(b, up) == smt::pair(bl, br));
        assert(al + ar == bl + br);
        smt::lemma_node_len(a, up.push(false));
        smt::lemma_node_len(b, up.push(false));
        assert(al =~= (al + ar).take(32));
        assert(bl =~= (bl + br).take(32));
        assert(ar =~= (al + ar).skip(32));
        assert(br =~= (bl + br).skip(32));
        assert(path.take(d as int) =~= up.push(path[d - 1]));
    }
}

/// Trees with the same root hold the same value in a leaf.
proof fn lemma_same_value(a: Rows, b: Rows, x: LeafV, v: Option<Seq<u8>>, w: Option<Seq<u8>>)
    requires
        coherent_along(a, x.place()),
        coherent_along(b, x.place()),
        smt::root_of(a) == smt::root_of(b),
        smt::node(a, x.place()) == smt::leaf_hash_of(x.id(), v),
        smt::node(b, x.place()) == smt::leaf_hash_of(x.id(), w),
        smt::collision_free(hashed_to(a, b, x, v, w)),
    ensures
        v == w,
{
    let all = hashed_to(a, b, x, v, w);
    lemma_same_nodes(a, b, x.place(), 128, all);
    assert(x.place().take(128) =~= x.place());
    let head = text::utf8("inzleaf|"@) + x.id() + seq![124u8];
    match (v, w) {
        (Some(m), Some(n)) => {
            assert(all.contains(head + m));
            assert(all.contains(head + n));
            assert(head + m == head + n);
            assert(m =~= (head + m).skip(head.len() as int));
            assert(n =~= (head + n).skip(head.len() as int));
        },
        (Some(m), None) => {
            assert(all.contains(head + m));
        },
        (None, Some(n)) => {
            assert(all.contains(head + n));
        },
        (None, None) => {},
    }
}

/// A leaf of a set is at its place.
proof fn lemma_at_its_place(pool: Option<ParamsV>, db: Db, s: Set<LeafV>, x: LeafV)
    requires
        mirrored(pool, db),
        in_use(pool, db).subset_of(s),
        apart(s),
        s.contains(x),
    ensures
        coherent_along(db[12], x.place()),
        smt::node(db[12], x.place()) == smt::leaf_hash_of(x.id(), value_at(pool, db, x)),
{
    lemma_reflects_widen(db[12], leaves_of(pool, db), in_use(pool, db), s);
    assert(smt::node(db[12], x.place()) == smt::leaf_hash_of(
        x.id(),
        given(leaves_of(pool, db), x),
    ));
    lemma_coherent_along(db[12], x.place());
}

/// The root fixes the state: two databases with the same root hold the same under every
/// leaf, unless hashes collide.
pub proof fn law_root_fixes_state(
    pa: Option<ParamsV>,
    a: Db,
    pb: Option<ParamsV>,
    b: Db,
    x: LeafV,
)
    requires
        mirrored(pa, a),
        mirrored(pb, b),
        state::merkle_root_of(a) == state::merkle_root_of(b),
        apart(in_use(pa, a) + in_use(pb, b)),
        smt::collision_free(
            hashed_to(a[12], b[12], x, value_at(pa, a, x), value_at(pb, b, x)),
        ),
    ensures
        value_at(pa, a, x) == value_at(pb, b, x),
{
    let s = in_use(pa, a) + in_use(pb, b);
    let v = value_at(pa, a, x);
    let w = value_at(pb, b, x);
    if v is Some || w is Some {
        assert(in_use(pa, a).contains(x) || in_use(pb, b).contains(x));
        lemma_at_its_place(pa, a, s, x);
        lemma_at_its_place(pb, b, s, x);
        crypto::lemma_unhex_hex(smt::root_of(a[12]));
        crypto::lemma_unhex_hex(smt::root_of(b[12]));
        lemma_same_value(a[12], b[12], x, v, w);
    }
}

} // verus!
