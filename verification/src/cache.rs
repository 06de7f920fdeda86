//! The bounded cache of transactions, least recently used out first.
//!
//! The cache itself is `lru::LruCache`. What it holds is modelled as a
//! sequence of entries, the most recently used first; the contracts of the
//! calls into it are stated over that sequence.

use vstd::prelude::*;
use lru::LruCache;
use crate::hash::Hash256;
use crate::model::{Transaction, TxModel};

verus! {

/// The key of a cache entry: the four limbs of a transaction id.
pub type CacheKey = (u64, u64, u64, u64);

/// `lru::LruCache`, a map bounded in size that drops the entry least
/// recently used. Nothing inside it is visible to proofs.
#[verifier::external_type_specification]
#[verifier::external_body]
#[verifier::reject_recursive_types(K)]
#[verifier::reject_recursive_types(V)]
#[verifier::reject_recursive_types(S)]
pub struct ExLruCache<K, V, S>(LruCache<K, V, S>);

/// `lru::DefaultHasher`, the hasher of a cache that was given none.
#[verifier::external_type_specification]
#[verifier::external_body]
pub struct ExDefaultHasher(lru::DefaultHasher);

/// The entries that an `LruCache` holds, the most recently used first.
pub uninterp spec fn lru_entries(c: LruCache<(u64, u64, u64, u64), Transaction>) -> Seq<
    ((u64, u64, u64, u64), TxModel),
>;

/// The number of entries that an `LruCache` was made to hold at most.
pub uninterp spec fn lru_limit(c: LruCache<(u64, u64, u64, u64), Transaction>) -> nat;

/// Whether the entries hold the key.
pub open spec fn holds(s: Seq<(CacheKey, TxModel)>, k: CacheKey) -> bool {
    exists|i: int| 0 <= i < s.len() && (#[trigger] s[i]).0 == k
}

/// The first place at which the entries hold the key.
pub open spec fn place(s: Seq<(CacheKey, TxModel)>, k: CacheKey) -> int {
    choose|i: int| 0 <= i < s.len() && (#[trigger] s[i]).0 == k && forall|j: int|
        0 <= j < i ==> (#[trigger] s[j]).0 != k
}

/// Whether no two entries share a key.
pub open spec fn distinct_keys(s: Seq<(CacheKey, TxModel)>) -> bool {
    forall|i: int, j: int| 0 <= i < j < s.len() ==> (#[trigger] s[i]).0 != (#[trigger] s[j]).0
}

/// The entries after the key was used: its entry moves to the front.
pub open spec fn touched(s: Seq<(CacheKey, TxModel)>, k: CacheKey) -> Seq<(CacheKey, TxModel)> {
    if holds(s, k) {
        seq![s[place(s, k)]] + s.remove(place(s, k))
    } else {
        s
    }
}

/// The entries after a value was put under the key, in a cache that holds
/// at most `limit` entries: the entry stands at the front; an entry that
/// the key had is replaced; else, where the cache was full, the entry
/// least recently used, the last, is dropped.
pub open spec fn put_entries(
    s: Seq<(CacheKey, TxModel)>,
    limit: nat,
    k: CacheKey,
    v: TxModel,
) -> Seq<
    (CacheKey, TxModel),
> {
    if holds(s, k) {
        seq![(k, v)] + s.remove(place(s, k))
    } else if s.len() == limit {
        seq![(k, v)] + s.drop_last()
    } else {
        seq![(k, v)] + s
    }
}

/// Makes an empty cache with `LruCache::sparse`, which allocates nothing
/// ahead. The contract claims that the new cache holds no entry and has the
/// limit it was given.
#[verifier::external_body]
fn lru_new(limit: usize) -> (c: LruCache<CacheKey, Transaction>)
    requires
        limit > 0,
    ensures
        lru_entries(c) == Seq::<(CacheKey, TxModel)>::empty(),
        lru_limit(c) == limit,
{
    LruCache::sparse(std::num::NonZeroUsize::new(limit).unwrap())
}

/// Calls `LruCache::put`. The contract claims what the method's source
/// shows: the entry is put at the front; it takes the place of the entry
/// that the key had; else, in a full cache, the last entry is dropped. The
/// limit stays.
#[verifier::external_body]
fn lru_put(c: &mut LruCache<CacheKey, Transaction>, k: CacheKey, v: Transaction)
    ensures
        lru_entries(*final(c)) == put_entries(lru_entries(*old(c)), lru_limit(*old(c)), k, v@),
        lru_limit(*final(c)) == lru_limit(*old(c)),
{
    c.put(k, v);
}

/// Calls `LruCache::get`. The contract claims what the method's source
/// shows: where the key has an entry, the entry moves to the front and its
/// value is returned; else nothing changes and nothing is returned. The
/// limit stays.
#[verifier::external_body]
fn lru_get<'a>(c: &'a mut LruCache<CacheKey, Transaction>, k: &CacheKey) -> (r: Option<
    &'a Transaction,
>)
    ensures
        lru_entries(*final(c)) == touched(lru_entries(*old(c)), *k),
        lru_limit(*final(c)) == lru_limit(*old(c)),
        match r {
            Some(tx) => holds(lru_entries(*old(c)), *k) && tx@ == lru_entries(*old(c))[place(
                lru_entries(*old(c)),
                *k,
            )].1,
            None => !holds(lru_entries(*old(c)), *k),
        },
{
    c.get(k)
}

/// Calls `LruCache::contains`, which says whether the key has an entry and
/// changes nothing, not even the order of use.
#[verifier::external_body]
fn lru_contains(c: &LruCache<CacheKey, Transaction>, k: &CacheKey) -> (b: bool)
    ensures
        b == holds(lru_entries(*c), *k),
{
    c.contains(k)
}

/// Calls `LruCache::len`: the number of entries held.
#[verifier::external_body]
fn lru_len(c: &LruCache<CacheKey, Transaction>) -> (n: usize)
    ensures
        n == lru_entries(*c).len(),
{
    c.len()
}

/// The key that stands for a transaction id.
pub open spec fn key_of(txid: Hash256) -> CacheKey {
    (txid.w0, txid.w1, txid.w2, txid.w3)
}

/// Putting an entry keeps keys distinct and the cache within its limit.
pub proof fn lemma_put_bounded(s: Seq<(CacheKey, TxModel)>, limit: nat, k: CacheKey, v: TxModel)
    requires
        distinct_keys(s),
        s.len() <= limit,
        limit > 0,
    ensures
        distinct_keys(put_entries(s, limit, k, v)),
        put_entries(s, limit, k, v).len() <= limit,
        put_entries(s, limit, k, v)[0] == (k, v),
{
    let r = put_entries(s, limit, k, v);
    if holds(s, k) {
        let p = place(s, k);
        let rest = s.remove(p);
        assert forall|i: int, j: int| 0 <= i < j < r.len() implies (#[trigger] r[i]).0 != (
        #[trigger] r[j]).0 by {
            let oj = if j - 1 < p { j - 1 } else { j };
            assert(r[j] == s[oj]);
            if i > 0 {
                let oi = if i - 1 < p { i - 1 } else { i };
                assert(r[i] == s[oi]);
            } else {
                assert(s[p].0 == k);
                if oj < p {
                    assert(s[oj].0 != s[p].0);
                } else {
                    assert(s[p].0 != s[oj].0);
                }
            }
        }
    } else {
        let rest = if s.len() == limit { s.drop_last() } else { s };
        assert forall|i: int, j: int| 0 <= i < j < r.len() implies (#[trigger] r[i]).0 != (
        #[trigger] r[j]).0 by {
            assert(r[j] == s[j - 1]);
            if i > 0 {
                assert(r[i] == s[i - 1]);
            }
        }
    }
}

/// Using a key keeps keys distinct and the number of entries.
pub proof fn lemma_touch_bounded(s: Seq<(CacheKey, TxModel)>, k: CacheKey)
    requires
        distinct_keys(s),
    ensures
        distinct_keys(touched(s, k)),
        touched(s, k).len() == s.len(),
        forall|x: CacheKey| holds(touched(s, k), x) == holds(s, x),
{
    let r = touched(s, k);
    if holds(s, k) {
        let p = place(s, k);
        assert forall|i: int, j: int| 0 <= i < j < r.len() implies (#[trigger] r[i]).0 != (
        #[trigger] r[j]).0 by {
            let oj = if j - 1 < p { j - 1 } else { j };
            assert(r[j] == s[oj]);
            if i > 0 {
                let oi = if i - 1 < p { i - 1 } else { i };
                assert(r[i] == s[oi]);
            } else {
                assert(r[0] == s[p]);
                if oj < p {
                    assert(s[oj].0 != s[p].0);
                } else {
                    assert(s[p].0 != s[oj].0);
                }
            }
        }
        assert forall|x: CacheKey| holds(r, x) == holds(s, x) by {
            if holds(r, x) {
                let i = choose|i: int| 0 <= i < r.len() && (#[trigger] r[i]).0 == x;
                if i == 0 {
                    assert(s[p].0 == x);
                } else {
                    let oi = if i - 1 < p { i - 1 } else { i };
                    assert(r[i] == s[oi]);
                    assert(s[oi].0 == x);
                }
            }
            if holds(s, x) {
                let i = choose|i: int| 0 <= i < s.len() && (#[trigger] s[i]).0 == x;
                if i == p {
                    assert(r[0].0 == x);
                } else {
                    let ni = if i < p { i + 1 } else { i };
                    assert(r[ni] == s[i]);
                    assert(r[ni].0 == x);
                }
            }
        }
    }
}

/// In a full cache, putting an entry under a new key drops the entry least
/// recently used, the last one, and no other.
pub proof fn lemma_put_evicts_lru(s: Seq<(CacheKey, TxModel)>, limit: nat, k: CacheKey, v: TxModel)
    requires
        distinct_keys(s),
        s.len() == limit,
        limit > 0,
        !holds(s, k),
    ensures
        !holds(put_entries(s, limit, k, v), s.last().0),
        forall|i: int|
            0 <= i < s.len() - 1 ==> put_entries(s, limit, k, v)[i + 1] == #[trigger] s[i],
        put_entries(s, limit, k, v).len() == limit,
{
    let r = put_entries(s, limit, k, v);
    if holds(r, s.last().0) {
        let i = choose|i: int| 0 <= i < r.len() && (#[trigger] r[i]).0 == s.last().0;
        if i == 0 {
            assert(s[s.len() - 1].0 == k);
        } else {
            assert(r[i] == s[i - 1]);
            assert(s[i - 1].0 != s[s.len() - 1].0);
        }
    }
}

/// The cache of transactions by id. It holds at most as many as it was
/// made for; a cache made for none holds none.
pub struct TxCache {
    inner: Option<LruCache<CacheKey, Transaction>>,
}

impl View for TxCache {
    type V = Seq<(CacheKey, TxModel)>;

    closed spec fn view(&self) -> Seq<(CacheKey, TxModel)> {
        match self.inner {
            Some(c) => lru_entries(c),
            None => Seq::empty(),
        }
    }
}

impl TxCache {
    /// The greatest number of entries the cache holds.
    pub closed spec fn capacity(&self) -> nat {
        match self.inner {
            Some(c) => lru_limit(c),
            None => 0,
        }
    }

    /// The cache's invariant: no two entries share a key, and there are no
    /// more entries than the cache was made for.
    pub closed spec fn wf(&self) -> bool {
        &&& distinct_keys(self@)
        &&& self@.len() <= self.capacity()
        &&& (self.inner is Some ==> self.capacity() > 0)
    }

    /// The cache never holds more than it was made for.
    pub proof fn lemma_bounded(&self)
        requires
            self.wf(),
        ensures
            self@.len() <= self.capacity(),
            distinct_keys(self@),
    {
    }

    /// An empty cache for at most `tx_cache_size` transactions.
    pub fn new(tx_cache_size: usize) -> (c: TxCache)
        ensures
            c.wf(),
            c@ == Seq::<(CacheKey, TxModel)>::empty(),
            c.capacity() == tx_cache_size,
    {
        if tx_cache_size == 0 {
            TxCache { inner: None }
        } else {
            TxCache { inner: Some(lru_new(tx_cache_size)) }
        }
    }

    /// The number of transactions held.
    pub fn len(&self) -> (n: usize)
        ensures
            n == self@.len(),
    {
        match &self.inner {
            Some(c) => lru_len(c),
            None => 0,
        }
    }

    /// Whether the cache holds the transaction with the given id. Asking
    /// does not count as use.
    pub fn contains(&self, txid: &Hash256) -> (b: bool)
        ensures
            b == holds(self@, key_of(*txid)),
    {
        let key = (txid.w0, txid.w1, txid.w2, txid.w3);
        match &self.inner {
            Some(c) => lru_contains(c, &key),
            None => {
                assert(!holds(self@, key));
                false
            },
        }
    }

    /// The transaction with the given id, if the cache holds it. It then
    /// counts as the most recently used.
    pub fn get(&mut self, txid: &Hash256) -> (r: Option<Transaction>)
        requires
            old(self).wf(),
        ensures
            final(self).wf(),
            final(self).capacity() == old(self).capacity(),
            final(self)@ == touched(old(self)@, key_of(*txid)),
            match r {
                Some(tx) => holds(old(self)@, key_of(*txid)) && tx@ == old(self)@[place(
                    old(self)@,
                    key_of(*txid),
                )].1,
                None => !holds(old(self)@, key_of(*txid)),
            },
    {
        let key = (txid.w0, txid.w1, txid.w2, txid.w3);
        proof {
            lemma_touch_bounded(self@, key);
        }
        match &mut self.inner {
            Some(c) => {
                match lru_get(c, &key) {
                    Some(tx) => Some(tx.duplicate()),
                    None => None,
                }
            },
            None => None,
        }
    }

    /// Puts a transaction into the cache as the most recently used. Where
    /// the cache is full and does not hold the id, the transaction least
    /// recently used leaves. A cache made for no transaction stays empty.
    pub fn put(&mut self, tx: Transaction)
        requires
            old(self).wf(),
        ensures
            final(self).wf(),
            final(self).capacity() == old(self).capacity(),
            final(self)@.len() <= final(self).capacity(),
            old(self).capacity() > 0 ==> final(self)@ == put_entries(
                old(self)@,
                old(self).capacity(),
                key_of(tx.txid),
                tx@,
            ),
            old(self).capacity() == 0 ==> final(self)@ == old(self)@,
    {
        let key = (tx.txid.w0, tx.txid.w1, tx.txid.w2, tx.txid.w3);
        proof {
            if self.capacity() > 0 {
                lemma_put_bounded(self@, self.capacity(), key, tx@);
            }
        }
        match &mut self.inner {
            Some(c) => {
                lru_put(c, key, tx);
            },
            None => {},
        }
    }
}

} // verus!
