//! Answers about a script fingerprint, from the store and the unconfirmed
//! transactions together: what was paid to it, what of that is unspent, and
//! which transactions touched it.
//!
//! A transaction that the store has confirmed is never counted as
//! unconfirmed, even while the mirror of the daemon's pool still holds it.

use vstd::prelude::*;
use crate::hash::Hash256;
use crate::cache::{holds, key_of, place, put_entries, touched, CacheKey, TxCache};
use crate::mempool::{pool_holds, Mempool};
use crate::model::{OutPoint, Transaction, TxModel, TxOut};
use crate::rows::{
    lemma_funding_prefix, lemma_key_order_total, lemma_key_order_transitive, Key, Row, RowModel,
};
use crate::store::{keyed, lists, Store};

verus! {

/// An output paid to a fingerprint: where it is, its amount, and the height
/// at which it was confirmed, if it was.
#[derive(Clone, Copy, Debug, PartialEq, Eq, Structural)]
pub struct Utxo {
    pub outpoint: OutPoint,
    pub value: u64,
    pub height: Option<u32>,
}

/// Whether a key is one of a fingerprint's funding keys.
pub open spec fn funding_key_of(k: Key, fingerprint: Hash256) -> bool {
    k matches Key::Funding { fingerprint: f, .. } && f == fingerprint
}

/// The output that a funding row records.
pub open spec fn funding_output(row: RowModel) -> Utxo {
    match row {
        RowModel::Funding { height, vout, txid, value, .. } => Utxo {
            outpoint: OutPoint { txid, vout },
            value,
            height: Some(height),
        },
        _ => arbitrary(),
    }
}

/// Whether the transaction at a place in the pool counts as unconfirmed:
/// the store has no row for it.
pub open spec fn live(m: Map<Key, RowModel>, pool: Seq<TxModel>, i: int) -> bool {
    0 <= i < pool.len() && !m.contains_key(Key::Tx(pool[i].txid))
}

/// Whether `u` is an output that a confirmed transaction paid to the fingerprint.
pub open spec fn confirmed_output(m: Map<Key, RowModel>, fingerprint: Hash256, u: Utxo) -> bool {
    exists|k: Key|
        #[trigger] m.contains_key(k) && funding_key_of(k, fingerprint) && m[k] is Funding
            && funding_output(m[k]) == u
}

/// Output `v` of an unconfirmed transaction.
pub open spec fn output_at(tx: TxModel, v: int) -> Utxo {
    Utxo {
        outpoint: OutPoint { txid: tx.txid, vout: v as u32 },
        value: tx.outputs[v].value,
        height: None,
    }
}

/// Whether output `v` of a transaction pays the fingerprint. Outputs are
/// numbered in 32 bits; one beyond that cannot be referred to.
pub open spec fn pays_at(tx: TxModel, fingerprint: Hash256, v: int) -> bool {
    0 <= v < tx.outputs.len() && v <= 0xffff_ffff && tx.outputs[v].fingerprint == fingerprint
}

/// Whether `u` is an output that an unconfirmed transaction pays to the fingerprint.
pub open spec fn unconfirmed_output(
    m: Map<Key, RowModel>,
    pool: Seq<TxModel>,
    fingerprint: Hash256,
    u: Utxo,
) -> bool {
    exists|i: int, v: int|
        live(m, pool, i) && #[trigger] pays_at(pool[i], fingerprint, v) && output_at(pool[i], v)
            == u
}

/// The outputs among the first `k` of an unconfirmed transaction that pay
/// the fingerprint, in the transaction's order.
pub open spec fn tx_outputs(tx: TxModel, fingerprint: Hash256, k: nat) -> Seq<Utxo>
    decreases k,
{
    if k == 0 {
        Seq::empty()
    } else {
        let rest = tx_outputs(tx, fingerprint, (k - 1) as nat);
        if pays_at(tx, fingerprint, k - 1) {
            rest.push(output_at(tx, k - 1))
        } else {
            rest
        }
    }
}

/// The number of outputs of a transaction that can be referred to.
pub open spec fn numbered_outputs(tx: TxModel) -> nat {
    if tx.outputs.len() <= 0x1_0000_0000 {
        tx.outputs.len()
    } else {
        0x1_0000_0000
    }
}

/// The outputs that the first `n` transactions of the pool pay to the
/// fingerprint, those that count as unconfirmed, in the pool's order.
pub open spec fn pool_outputs(
    m: Map<Key, RowModel>,
    pool: Seq<TxModel>,
    fingerprint: Hash256,
    n: nat,
) -> Seq<Utxo>
    decreases n,
{
    if n == 0 {
        Seq::empty()
    } else {
        let rest = pool_outputs(m, pool, fingerprint, (n - 1) as nat);
        if live(m, pool, n - 1) {
            rest + tx_outputs(pool[n - 1], fingerprint, numbered_outputs(pool[n - 1]))
        } else {
            rest
        }
    }
}

/// The outputs that the fingerprint's funding rows among the first `n` rows
/// record, in the rows' order.
pub open spec fn funding_outputs(s: Seq<RowModel>, fingerprint: Hash256, n: nat) -> Seq<Utxo>
    decreases n,
{
    if n == 0 {
        Seq::empty()
    } else {
        let rest = funding_outputs(s, fingerprint, (n - 1) as nat);
        if funding_key_of(s[n - 1].key(), fingerprint) {
            rest.push(funding_output(s[n - 1]))
        } else {
            rest
        }
    }
}

/// Every output paid to the fingerprint: those that the store's rows
/// record, in key order, which is chain order; then the unconfirmed ones.
pub open spec fn all_outputs(
    s: Seq<RowModel>,
    m: Map<Key, RowModel>,
    pool: Seq<TxModel>,
    fingerprint: Hash256,
) -> Seq<Utxo> {
    funding_outputs(s, fingerprint, s.len()) + pool_outputs(m, pool, fingerprint, pool.len())
}

/// Rows without a funding row of the fingerprint add no output.
pub proof fn lemma_funding_outputs_skip(s: Seq<RowModel>, fingerprint: Hash256, from: nat, n: nat)
    requires
        from <= n <= s.len(),
        forall|j: int| from <= j < n ==> !funding_key_of((#[trigger] s[j]).key(), fingerprint),
    ensures
        funding_outputs(s, fingerprint, n) == funding_outputs(s, fingerprint, from),
    decreases n,
{
    if from < n {
        assert(!funding_key_of(s[n - 1].key(), fingerprint));
        lemma_funding_outputs_skip(s, fingerprint, from, (n - 1) as nat);
    }
}

/// Whether `u` is an output paid to the fingerprint, confirmed or not.
pub open spec fn output_to(
    m: Map<Key, RowModel>,
    pool: Seq<TxModel>,
    fingerprint: Hash256,
    u: Utxo,
) -> bool {
    confirmed_output(m, fingerprint, u) || unconfirmed_output(m, pool, fingerprint, u)
}

/// Whether some unconfirmed transaction spends the output.
pub open spec fn spent_in_pool(
    m: Map<Key, RowModel>,
    pool: Seq<TxModel>,
    outpoint: OutPoint,
) -> bool {
    exists|i: int| #[trigger] live(m, pool, i) && pool[i].spends(outpoint)
}

/// Whether some input spends the output. The spending of a confirmed
/// output by a confirmed transaction is what the store records under the
/// output; an unconfirmed transaction may spend any output.
pub open spec fn spent(m: Map<Key, RowModel>, pool: Seq<TxModel>, u: Utxo) -> bool {
    (u.height is Some && m.contains_key(
        Key::Spend { txid: u.outpoint.txid, vout: u.outpoint.vout },
    )) || spent_in_pool(m, pool, u.outpoint)
}

/// Whether `u` is an output paid to the fingerprint that no input spends.
pub open spec fn unspent_output(
    m: Map<Key, RowModel>,
    pool: Seq<TxModel>,
    fingerprint: Hash256,
    u: Utxo,
) -> bool {
    output_to(m, pool, fingerprint, u) && !spent(m, pool, u)
}

/// The stretch of the store that holds a fingerprint's funding rows.
pub fn funding_range(store: &Store, fingerprint: &Hash256) -> (r: (usize, usize))
    requires
        store.wf(),
    ensures
        r.0 <= r.1 <= store.ordered().len(),
        forall|j: int|
            0 <= j < store.ordered().len() ==> ((r.0 <= j < r.1) <==> funding_key_of(
                (#[trigger] store.ordered()[j]).key(),
                *fingerprint,
            )),
{
    let lo = Key::funding_first(*fingerprint);
    let hi = Key::funding_last(*fingerprint);
    let start = store.bound(&lo, false);
    let end = store.bound(&hi, true);
    proof {
        let s = store.ordered();
        lemma_funding_prefix(*fingerprint, lo);
        assert forall|j: int| 0 <= j < s.len() implies ((start <= j < end) <==> funding_key_of(
            (#[trigger] s[j]).key(),
            *fingerprint,
        )) by {
            lemma_funding_prefix(*fingerprint, s[j].key());
            lemma_key_order_total(s[j].key(), lo);
            lemma_key_order_total(s[j].key(), hi);
        }
        if end < start {
            let k = s[end as int].key();
            assert(k.lt(lo));
            lemma_key_order_total(lo, hi);
            if lo != hi {
                lemma_key_order_transitive(k, lo, hi);
            }
        }
    }
    (start, end)
}

/// Whether some unconfirmed transaction spends the output.
fn pool_spends(store: &Store, pool: &Mempool, outpoint: &OutPoint) -> (b: bool)
    requires
        store.wf(),
    ensures
        b == spent_in_pool(store@, pool@, *outpoint),
{
    let mut i: usize = 0;
    while i < pool.len()
        invariant
            i <= pool@.len(),
            store.wf(),
            forall|k: int| 0 <= k < i ==> !(#[trigger] live(store@, pool@, k) && pool@[k].spends(*outpoint)),
        decreases pool@.len() - i,
    {
        let tx = pool.tx_at(i);
        if !store.contains(&Key::Tx(tx.txid)) && tx.consumes(outpoint) {
            assert(live(store@, pool@, i as int) && pool@[i as int].spends(*outpoint));
            return true;
        }
        i += 1;
    }
    false
}

/// Whether some input spends the output.
pub fn is_spent(store: &Store, pool: &Mempool, u: &Utxo) -> (b: bool)
    requires
        store.wf(),
    ensures
        b == spent(store@, pool@, *u),
{
    if u.height.is_some() && store.contains(
        &Key::Spend { txid: u.outpoint.txid, vout: u.outpoint.vout },
    ) {
        true
    } else {
        pool_spends(store, pool, &u.outpoint)
    }
}

/// Every output paid to the fingerprint: the confirmed ones in chain order,
/// then the unconfirmed ones.
pub fn outputs_to(store: &Store, pool: &Mempool, fingerprint: &Hash256) -> (r: Vec<Utxo>)
    requires
        store.wf(),
    ensures
        r@ == all_outputs(store.ordered(), store@, pool@, *fingerprint),
        forall|u: Utxo|
            #![trigger r@.contains(u)]
            r@.contains(u) <==> output_to(store@, pool@, *fingerprint, u),
{
    let ghost s = store.ordered();
    let ghost m = store@;
    let ghost p = pool@;
    proof {
        store.lemma_ordered();
    }
    let (start, end) = funding_range(store, fingerprint);
    let mut r: Vec<Utxo> = Vec::new();
    let mut i: usize = start;
    proof {
        lemma_funding_outputs_skip(s, *fingerprint, 0, start as nat);
    }
    while i < end
        invariant
            start <= i <= end <= s.len(),
            s == store.ordered(),
            lists(s, m),
            forall|j: int|
                0 <= j < s.len() ==> ((start <= j < end) <==> funding_key_of(
                    (#[trigger] s[j]).key(),
                    *fingerprint,
                )),
            r@ == funding_outputs(s, *fingerprint, i as nat),
            forall|u: Utxo|
                #![trigger r@.contains(u)]
                r@.contains(u) <==> exists|j: int|
                    start <= j < i && funding_output(#[trigger] s[j]) == u,
        decreases end - i,
    {
        let row = store.row_at(i);
        assert(funding_key_of(s[i as int].key(), *fingerprint));
        match row {
            Row::Funding { height, vout, txid, value, .. } => {
                let ghost before = r@;
                let u = Utxo {
                    outpoint: OutPoint { txid: *txid, vout: *vout },
                    value: *value,
                    height: Some(*height),
                };
                r.push(u);
                assert(funding_output(s[i as int]) == u);
                assert forall|x: Utxo|
                    #![trigger r@.contains(x)]
                    r@.contains(x) <==> exists|j: int|
                        start <= j < i + 1 && funding_output(#[trigger] s[j]) == x by {
                    if r@.contains(x) {
                        let a = choose|a: int| 0 <= a < r@.len() && r@[a] == x;
                        if a < before.len() {
                            assert(before[a] == x);
                            assert(before.contains(x));
                        }
                    }
                    if exists|j: int| start <= j < i + 1 && funding_output(#[trigger] s[j]) == x {
                        let j = choose|j: int|
                            start <= j < i + 1 && funding_output(#[trigger] s[j]) == x;
                        if j < i {
                            assert(before.contains(x));
                            let a = choose|a: int| 0 <= a < before.len() && before[a] == x;
                            assert(r@[a] == x);
                        } else {
                            assert(r@[before.len() as int] == x);
                        }
                    }
                }
            },
            _ => {},
        }
        i += 1;
    }
    proof {
        assert forall|u: Utxo|
            #![trigger r@.contains(u)]
            r@.contains(u) <==> confirmed_output(m, *fingerprint, u) by {
            if r@.contains(u) {
                let j = choose|j: int| start <= j < end && funding_output(#[trigger] s[j]) == u;
                assert(m.contains_key(s[j].key()) && m[s[j].key()] == s[j]);
            }
            if confirmed_output(m, *fingerprint, u) {
                let k = choose|k: Key|
                    #[trigger] m.contains_key(k) && funding_key_of(k, *fingerprint) && m[k] is Funding
                        && funding_output(m[k]) == u;
                let j = choose|j: int| 0 <= j < s.len() && (#[trigger] s[j]).key() == k;
                assert(m[s[j].key()] == s[j]);
            }
        }
    }
    let ghost confirmed = r@;
    proof {
        lemma_funding_outputs_skip(s, *fingerprint, end as nat, s.len());
    }
    let n = pool.len();
    let mut t: usize = 0;
    while t < n
        invariant
            t <= n,
            n == p.len(),
            p == pool@,
            m == store@,
            store.wf(),
            r@ == confirmed + pool_outputs(m, p, *fingerprint, t as nat),
            forall|u: Utxo|
                #![trigger r@.contains(u)]
                r@.contains(u) <==> (confirmed.contains(u) || exists|i: int, v: int|
                    0 <= i < t && live(m, p, i) && #[trigger] pays_at(p[i], *fingerprint, v)
                        && output_at(p[i], v) == u),
        decreases n - t,
    {
        let tx = pool.tx_at(t);
        let ghost outer = r@;
        if !store.contains(&Key::Tx(tx.txid)) {
            push_outputs(&mut r, tx, fingerprint);
        }
        assert forall|u: Utxo|
            #![trigger r@.contains(u)]
            r@.contains(u) <==> (confirmed.contains(u) || exists|i: int, v: int|
                0 <= i < t + 1 && live(m, p, i) && #[trigger] pays_at(p[i], *fingerprint, v)
                    && output_at(p[i], v) == u) by {
            let here = exists|w: int|
                #[trigger] pays_at(p[t as int], *fingerprint, w) && output_at(p[t as int], w) == u;
            let earlier = exists|i: int, v: int|
                0 <= i < t && live(m, p, i) && #[trigger] pays_at(p[i], *fingerprint, v)
                    && output_at(p[i], v) == u;
            let upto = exists|i: int, v: int|
                0 <= i < t + 1 && live(m, p, i) && #[trigger] pays_at(p[i], *fingerprint, v)
                    && output_at(p[i], v) == u;
            assert(outer.contains(u) <==> (confirmed.contains(u) || earlier));
            assert(r@.contains(u) <==> (outer.contains(u) || (live(m, p, t as int) && here)));
            if earlier {
                let (i, v) = choose|i: int, v: int|
                    0 <= i < t && live(m, p, i) && #[trigger] pays_at(p[i], *fingerprint, v)
                        && output_at(p[i], v) == u;
                assert(pays_at(p[i], *fingerprint, v));
            }
            if live(m, p, t as int) && here {
                let w = choose|w: int|
                    #[trigger] pays_at(p[t as int], *fingerprint, w) && output_at(p[t as int], w)
                        == u;
                assert(pays_at(p[t as int], *fingerprint, w));
            }
            if upto {
                let (i, v) = choose|i: int, v: int|
                    0 <= i < t + 1 && live(m, p, i) && #[trigger] pays_at(p[i], *fingerprint, v)
                        && output_at(p[i], v) == u;
                if i < t {
                    assert(pays_at(p[i], *fingerprint, v));
                    assert(earlier);
                } else {
                    assert(pays_at(p[t as int], *fingerprint, v));
                    assert(here);
                }
            }
        }
        t += 1;
    }
    r
}

/// An element is in a sequence with one more element if it is that element
/// or was in the sequence.
pub proof fn lemma_push_contains<T>(s: Seq<T>, x: T, y: T)
    ensures
        s.push(x).contains(y) <==> (s.contains(y) || y == x),
{
    if s.push(x).contains(y) {
        let a = choose|a: int| 0 <= a < s.push(x).len() && s.push(x)[a] == y;
        if a < s.len() {
            assert(s[a] == y);
        }
    }
    if s.contains(y) {
        let a = choose|a: int| 0 <= a < s.len() && s[a] == y;
        assert(s.push(x)[a] == y);
    }
    if y == x {
        assert(s.push(x)[s.len() as int] == y);
    }
}

/// Adds the outputs of an unconfirmed transaction that pay the fingerprint.
fn push_outputs(r: &mut Vec<Utxo>, tx: &Transaction, fingerprint: &Hash256)
    ensures
        final(r)@ == old(r)@ + tx_outputs(tx@, *fingerprint, numbered_outputs(tx@)),
        forall|u: Utxo|
            #![trigger final(r)@.contains(u)]
            final(r)@.contains(u) <==> (old(r)@.contains(u) || exists|w: int|
                #[trigger] pays_at(tx@, *fingerprint, w) && output_at(tx@, w) == u),
{
    let ghost outer = r@;
    let mut v: usize = 0;
    while v < tx.outputs.len() && v <= 0xffff_ffff
        invariant
            v <= tx.outputs@.len(),
            v <= 0x1_0000_0000,
            r@ == outer + tx_outputs(tx@, *fingerprint, v as nat),
            forall|u: Utxo|
                #![trigger r@.contains(u)]
                r@.contains(u) <==> (outer.contains(u) || exists|w: int|
                    0 <= w < v && #[trigger] pays_at(tx@, *fingerprint, w) && output_at(tx@, w)
                        == u),
        decreases tx.outputs@.len() - v,
    {
        let ghost before = r@;
        let ghost hit = pays_at(tx@, *fingerprint, v as int);
        if tx.outputs[v].fingerprint == *fingerprint {
            let u = Utxo {
                outpoint: OutPoint { txid: tx.txid, vout: v as u32 },
                value: tx.outputs[v].value,
                height: None,
            };
            r.push(u);
            assert(output_at(tx@, v as int) == u);
        }
        assert(r@ =~= outer + tx_outputs(tx@, *fingerprint, (v + 1) as nat));
        assert forall|x: Utxo|
            #![trigger r@.contains(x)]
            r@.contains(x) <==> (outer.contains(x) || exists|w: int|
                0 <= w < v + 1 && #[trigger] pays_at(tx@, *fingerprint, w) && output_at(tx@, w)
                    == x) by {
            let upto = exists|w: int|
                0 <= w < v && #[trigger] pays_at(tx@, *fingerprint, w) && output_at(tx@, w) == x;
            let next = exists|w: int|
                0 <= w < v + 1 && #[trigger] pays_at(tx@, *fingerprint, w) && output_at(tx@, w)
                    == x;
            assert(before.contains(x) <==> (outer.contains(x) || upto));
            if hit {
                lemma_push_contains(before, output_at(tx@, v as int), x);
            }
            if upto {
                let w = choose|w: int|
                    0 <= w < v && #[trigger] pays_at(tx@, *fingerprint, w) && output_at(tx@, w)
                        == x;
                assert(pays_at(tx@, *fingerprint, w));
                assert(next);
            }
            if next {
                let w = choose|w: int|
                    0 <= w < v + 1 && #[trigger] pays_at(tx@, *fingerprint, w) && output_at(
                        tx@,
                        w,
                    ) == x;
                if w < v {
                    assert(pays_at(tx@, *fingerprint, w));
                    assert(upto);
                }
            }
            if hit && x == output_at(tx@, v as int) {
                assert(pays_at(tx@, *fingerprint, v as int));
                assert(next);
            }
        }
        v += 1;
    }
    assert forall|u: Utxo|
        #![trigger r@.contains(u)]
        r@.contains(u) <==> (outer.contains(u) || exists|w: int|
            #[trigger] pays_at(tx@, *fingerprint, w) && output_at(tx@, w) == u) by {
        if exists|w: int| #[trigger] pays_at(tx@, *fingerprint, w) && output_at(tx@, w) == u {
            let w = choose|w: int|
                #[trigger] pays_at(tx@, *fingerprint, w) && output_at(tx@, w) == u;
            assert(0 <= w < v);
            assert(pays_at(tx@, *fingerprint, w));
        }
        if exists|w: int|
            0 <= w < v && #[trigger] pays_at(tx@, *fingerprint, w) && output_at(tx@, w) == u {
            let w = choose|w: int|
                0 <= w < v && #[trigger] pays_at(tx@, *fingerprint, w) && output_at(tx@, w) == u;
            assert(pays_at(tx@, *fingerprint, w));
        }
    }
}

/// The unspent outputs of a fingerprint: every output paid to it, confirmed
/// or not, that no input of a confirmed or unconfirmed transaction spends.
/// A fingerprint that was never seen has none.
pub fn utxos(store: &Store, pool: &Mempool, fingerprint: &Hash256) -> (r: Vec<Utxo>)
    requires
        store.wf(),
    ensures
        r@ == all_outputs(store.ordered(), store@, pool@, *fingerprint).filter(
            |u: Utxo| !spent(store@, pool@, u),
        ),
        forall|u: Utxo|
            #![trigger r@.contains(u)]
            r@.contains(u) <==> unspent_output(store@, pool@, *fingerprint, u),
{
    let all = outputs_to(store, pool, fingerprint);
    let ghost unspent = |u: Utxo| !spent(store@, pool@, u);
    let mut r: Vec<Utxo> = Vec::new();
    let mut i: usize = 0;
    proof {
        reveal(Seq::filter);
        assert(all@.take(0).filter(unspent) =~= Seq::<Utxo>::empty());
    }
    while i < all.len()
        invariant
            i <= all@.len(),
            store.wf(),
            unspent == |u: Utxo| !spent(store@, pool@, u),
            r@ == all@.take(i as int).filter(unspent),
            forall|u: Utxo|
                #![trigger r@.contains(u)]
                r@.contains(u) <==> (exists|j: int| 0 <= j < i && all@[j] == u) && !spent(
                    store@,
                    pool@,
                    u,
                ),
        decreases all@.len() - i,
    {
        let u = all[i];
        let ghost before = r@;
        let gone = is_spent(store, pool, &u);
        if !gone {
            r.push(u);
        }
        proof {
            assert(all@.take(i + 1) =~= all@.take(i as int).push(u));
            all@.take(i as int).lemma_filter_push(u, unspent);
        }
        assert forall|x: Utxo|
            #![trigger r@.contains(x)]
            r@.contains(x) <==> (exists|j: int| 0 <= j < i + 1 && all@[j] == x) && !spent(
                store@,
                pool@,
                x,
            ) by {
            if r@.contains(x) {
                let a = choose|a: int| 0 <= a < r@.len() && r@[a] == x;
                if a < before.len() {
                    assert(before[a] == x);
                    assert(before.contains(x));
                    let j = choose|j: int| 0 <= j < i && all@[j] == x;
                    assert(all@[j] == x);
                } else {
                    assert(all@[i as int] == x);
                }
            }
            if (exists|j: int| 0 <= j < i + 1 && all@[j] == x) && !spent(store@, pool@, x) {
                let j = choose|j: int| 0 <= j < i + 1 && all@[j] == x;
                if j < i {
                    assert(before.contains(x));
                    let a = choose|a: int| 0 <= a < before.len() && before[a] == x;
                    assert(r@[a] == x);
                } else {
                    assert(r@[before.len() as int] == x);
                }
            }
        }
        i += 1;
    }
    proof {
        assert(all@.take(i as int) =~= all@);
        assert forall|u: Utxo| #![trigger r@.contains(u)] r@.contains(u) <==> unspent_output(
            store@,
            pool@,
            *fingerprint,
            u,
        ) by {
            if all@.contains(u) {
                let j = choose|j: int| 0 <= j < all@.len() && all@[j] == u;
                assert(all@[j] == u);
            }
        }
    }
    r
}

/// The fact that a transaction touched a fingerprint: at a height and a
/// position in that height's block, or unconfirmed.
#[derive(Clone, Copy, Debug, PartialEq, Eq, Structural)]
pub struct HistoryEntry {
    pub fingerprint: Hash256,
    pub txid: Hash256,
    pub height: Option<u32>,
    pub position: u32,
}

/// The history of a fingerprint: the confirmed entries in chain order, then
/// the unconfirmed ones. `confirmed` is the number of confirmed entries.
#[derive(Clone, Debug, PartialEq, Eq)]
pub struct History {
    pub entries: Vec<HistoryEntry>,
    pub confirmed: usize,
}

/// The entry of the transaction that a funding row names.
pub open spec fn funding_entry(fingerprint: Hash256, row: RowModel) -> HistoryEntry {
    match row {
        RowModel::Funding { height, position, txid, .. } => HistoryEntry {
            fingerprint,
            txid,
            height: Some(height),
            position,
        },
        _ => arbitrary(),
    }
}

/// The entry of the transaction that a spend row names as the spender.
pub open spec fn spend_entry(fingerprint: Hash256, row: RowModel) -> HistoryEntry {
    match row {
        RowModel::Spend { height, position, spender, .. } => HistoryEntry {
            fingerprint,
            txid: spender,
            height: Some(height),
            position,
        },
        _ => arbitrary(),
    }
}

/// The key under which the spending of a funding row's output is filed.
pub open spec fn spend_key(row: RowModel) -> Key {
    match row {
        RowModel::Funding { vout, txid, .. } => Key::Spend { txid, vout },
        _ => arbitrary(),
    }
}

/// Whether a funding row gives rise to the entry: as the entry of the
/// transaction that created the output, or of the one that spent it.
pub open spec fn row_gives(
    m: Map<Key, RowModel>,
    fingerprint: Hash256,
    row: RowModel,
    e: HistoryEntry,
) -> bool {
    row is Funding && (funding_entry(fingerprint, row) == e || (m.contains_key(spend_key(row))
        && m[spend_key(row)] is Spend && spend_entry(fingerprint, m[spend_key(row)]) == e))
}

/// Whether `e` is a confirmed entry of the fingerprint's history: the entry
/// of a transaction that paid it, or of one that spent what was paid to it.
pub open spec fn confirmed_entry(
    m: Map<Key, RowModel>,
    fingerprint: Hash256,
    e: HistoryEntry,
) -> bool {
    exists|k: Key|
        #[trigger] m.contains_key(k) && funding_key_of(k, fingerprint) && row_gives(
            m,
            fingerprint,
            m[k],
            e,
        )
}

/// The height by which entries are ordered: unconfirmed entries come after
/// every confirmed one.
pub open spec fn order_height(e: HistoryEntry) -> int {
    match e.height {
        Some(h) => h as int,
        None => 0x1_0000_0000,
    }
}

/// The strict chain order of entries: by height, then by position in the
/// block, then by id.
pub open spec fn chain_lt(a: HistoryEntry, b: HistoryEntry) -> bool {
    order_height(a) < order_height(b) || (order_height(a) == order_height(b) && (a.position
        < b.position || (a.position == b.position && a.txid.lt(b.txid))))
}

/// Whether entries come in strictly ascending chain order.
pub open spec fn chain_sorted(s: Seq<HistoryEntry>) -> bool {
    forall|i: int, j: int| 0 <= i < j < s.len() ==> chain_lt(#[trigger] s[i], #[trigger] s[j])
}

/// Whether every entry is a confirmed one of the fingerprint.
pub open spec fn all_confirmed(s: Seq<HistoryEntry>, fingerprint: Hash256) -> bool {
    forall|i: int|
        0 <= i < s.len() ==> (#[trigger] s[i]).fingerprint == fingerprint && s[i].height is Some
}

/// Whether an unconfirmed transaction spends an output paid to the fingerprint.
pub open spec fn spends_output_of(
    m: Map<Key, RowModel>,
    pool: Seq<TxModel>,
    fingerprint: Hash256,
    tx: TxModel,
) -> bool {
    exists|u: Utxo| #[trigger] output_to(m, pool, fingerprint, u) && tx.spends(u.outpoint)
}

/// Whether an unconfirmed transaction touches the fingerprint: it pays it,
/// or spends what was paid to it.
pub open spec fn touches(
    m: Map<Key, RowModel>,
    pool: Seq<TxModel>,
    fingerprint: Hash256,
    tx: TxModel,
) -> bool {
    tx.funds(fingerprint) || spends_output_of(m, pool, fingerprint, tx)
}

/// The entry of an unconfirmed transaction.
pub open spec fn pool_entry(fingerprint: Hash256, tx: TxModel) -> HistoryEntry {
    HistoryEntry { fingerprint, txid: tx.txid, height: None, position: 0 }
}

/// The entries of the first `n` transactions of the pool: one for each that
/// counts as unconfirmed and touches the fingerprint, in the pool's order.
pub open spec fn unconfirmed_entries(
    m: Map<Key, RowModel>,
    pool: Seq<TxModel>,
    fingerprint: Hash256,
    n: nat,
) -> Seq<HistoryEntry>
    decreases n,
{
    if n == 0 {
        Seq::empty()
    } else {
        let rest = unconfirmed_entries(m, pool, fingerprint, (n - 1) as nat);
        if live(m, pool, n - 1) && touches(m, pool, fingerprint, pool[n - 1]) {
            rest.push(pool_entry(fingerprint, pool[n - 1]))
        } else {
            rest
        }
    }
}

/// Whether `entries`, of which the first `confirmed` are confirmed, is the
/// history of the fingerprint.
pub open spec fn is_history(
    m: Map<Key, RowModel>,
    pool: Seq<TxModel>,
    fingerprint: Hash256,
    entries: Seq<HistoryEntry>,
    confirmed: int,
) -> bool {
    &&& 0 <= confirmed <= entries.len()
    &&& chain_sorted(entries.take(confirmed))
    &&& all_confirmed(entries.take(confirmed), fingerprint)
    &&& forall|e: HistoryEntry|
        #![trigger entries.take(confirmed).contains(e)]
        entries.take(confirmed).contains(e) <==> confirmed_entry(m, fingerprint, e)
    &&& entries.skip(confirmed) == unconfirmed_entries(m, pool, fingerprint, pool.len())
}

/// `a` may stand before `b` in a history: a confirmed entry before an
/// unconfirmed one, and of two confirmed entries the one that is not later
/// in the chain.
pub open spec fn entry_le(a: HistoryEntry, b: HistoryEntry) -> bool {
    match (a.height, b.height) {
        (Some(x), Some(y)) => x < y || (x == y && a.position <= b.position),
        (Some(_), None) => true,
        (None, Some(_)) => false,
        (None, None) => true,
    }
}

/// Whether no entry stands before one that must precede it.
pub open spec fn history_ordered(s: Seq<HistoryEntry>) -> bool {
    forall|i: int, j: int| 0 <= i < j < s.len() ==> entry_le(#[trigger] s[i], #[trigger] s[j])
}

/// Every unconfirmed entry is marked as such.
pub proof fn lemma_unconfirmed_entries(
    m: Map<Key, RowModel>,
    pool: Seq<TxModel>,
    fingerprint: Hash256,
    n: nat,
)
    ensures
        forall|i: int|
            0 <= i < unconfirmed_entries(m, pool, fingerprint, n).len() ==> (
            #[trigger] unconfirmed_entries(m, pool, fingerprint, n)[i]).height is None,
    decreases n,
{
    if n > 0 {
        lemma_unconfirmed_entries(m, pool, fingerprint, (n - 1) as nat);
    }
}

/// A history never decreases in height and position in the block, and its
/// unconfirmed entries follow all its confirmed ones.
pub proof fn lemma_history_ordered(
    m: Map<Key, RowModel>,
    pool: Seq<TxModel>,
    fingerprint: Hash256,
    entries: Seq<HistoryEntry>,
    confirmed: int,
)
    requires
        is_history(m, pool, fingerprint, entries, confirmed),
    ensures
        history_ordered(entries),
        forall|i: int| 0 <= i < entries.len() ==> ((#[trigger] entries[i]).height is Some <==> i < confirmed),
{
    lemma_unconfirmed_entries(m, pool, fingerprint, pool.len());
    let head = entries.take(confirmed);
    let tail = entries.skip(confirmed);
    assert forall|i: int| 0 <= i < entries.len() implies ((#[trigger] entries[i]).height is Some <==> i
        < confirmed) by {
        if i < confirmed {
            assert(head[i] == entries[i]);
        } else {
            assert(tail[i - confirmed] == entries[i]);
        }
    }
    assert forall|i: int, j: int| 0 <= i < j < entries.len() implies entry_le(
        #[trigger] entries[i],
        #[trigger] entries[j],
    ) by {
        if j < confirmed {
            assert(head[i] == entries[i] && head[j] == entries[j]);
            assert(chain_lt(head[i], head[j]));
        }
    }
}

/// The chain order of entries is transitive, and of two different entries
/// of one fingerprint one comes before the other.
pub proof fn lemma_chain_order(a: HistoryEntry, b: HistoryEntry, c: HistoryEntry)
    ensures
        chain_lt(a, b) && chain_lt(b, c) ==> chain_lt(a, c),
        !chain_lt(a, a),
        a.fingerprint == b.fingerprint && a.height is Some && b.height is Some ==> (chain_lt(a, b)
            || chain_lt(b, a) || a == b),
{
}

/// Whether `a` comes before `b` in chain order.
fn chain_before(a: &HistoryEntry, b: &HistoryEntry) -> (r: bool)
    ensures
        r == chain_lt(*a, *b),
{
    let ha: u64 = match a.height {
        Some(h) => h as u64,
        None => 0x1_0000_0000,
    };
    let hb: u64 = match b.height {
        Some(h) => h as u64,
        None => 0x1_0000_0000,
    };
    if ha != hb {
        ha < hb
    } else if a.position != b.position {
        a.position < b.position
    } else {
        a.txid.precedes(&b.txid)
    }
}

/// Puts a confirmed entry at its place in chain order, unless it is there.
fn insert_entry(v: &mut Vec<HistoryEntry>, e: HistoryEntry)
    requires
        chain_sorted(old(v)@),
        all_confirmed(old(v)@, e.fingerprint),
        e.height is Some,
    ensures
        chain_sorted(final(v)@),
        all_confirmed(final(v)@, e.fingerprint),
        forall|x: HistoryEntry|
            #![trigger final(v)@.contains(x)]
            final(v)@.contains(x) <==> (old(v)@.contains(x) || x == e),
{
    let ghost s = v@;
    let mut pos: usize = v.len();
    while pos > 0 && chain_before(&e, &v[pos - 1])
        invariant
            pos <= v@.len(),
            v@ == s,
            forall|j: int| pos <= j < s.len() ==> chain_lt(e, #[trigger] s[j]),
        decreases pos,
    {
        pos -= 1;
    }
    if pos > 0 && v[pos - 1] == e {
        assert(s.contains(e));
        return ;
    }
    proof {
        assert forall|j: int| 0 <= j < pos implies chain_lt(#[trigger] s[j], e) by {
            let last = s[pos - 1];
            lemma_chain_order(last, e, e);
            if j < pos - 1 {
                assert(chain_lt(s[j], last));
                lemma_chain_order(s[j], last, e);
            }
        }
    }
    v.insert(pos, e);
    proof {
        let s2 = v@;
        assert(s2 == s.insert(pos as int, e));
        assert forall|i: int, j: int| 0 <= i < j < s2.len() implies chain_lt(
            #[trigger] s2[i],
            #[trigger] s2[j],
        ) by {
            let oi = if i < pos { i } else { i - 1 };
            let oj = if j < pos { j } else { j - 1 };
            if i != pos && j != pos {
                assert(s2[i] == s[oi] && s2[j] == s[oj]);
            } else if i == pos {
                assert(s2[j] == s[oj]);
            } else {
                assert(s2[i] == s[oi]);
            }
        }
        assert forall|i: int| 0 <= i < s2.len() implies (#[trigger] s2[i]).fingerprint
            == e.fingerprint && s2[i].height is Some by {
            let oi = if i < pos { i } else { i - 1 };
            if i != pos {
                assert(s2[i] == s[oi]);
            }
        }
        assert forall|x: HistoryEntry| #![trigger s2.contains(x)] s2.contains(x) <==> (s.contains(x)
            || x == e) by {
            if s2.contains(x) {
                let a = choose|a: int| 0 <= a < s2.len() && s2[a] == x;
                if a != pos {
                    let oa = if a < pos { a } else { a - 1 };
                    assert(s[oa] == x);
                }
            }
            if s.contains(x) {
                let a = choose|a: int| 0 <= a < s.len() && s[a] == x;
                let na = if a < pos { a } else { a + 1 };
                assert(s2[na] == x);
            }
            if x == e {
                assert(s2[pos as int] == x);
            }
        }
    }
}

/// Whether a transaction spends one of the given outputs.
fn spends_any(tx: &Transaction, outputs: &Vec<Utxo>) -> (b: bool)
    ensures
        b == exists|u: Utxo| #[trigger] outputs@.contains(u) && tx@.spends(u.outpoint),
{
    let mut i: usize = 0;
    while i < outputs.len()
        invariant
            i <= outputs@.len(),
            forall|k: int| 0 <= k < i ==> !tx@.spends((#[trigger] outputs@[k]).outpoint),
        decreases outputs@.len() - i,
    {
        if tx.consumes(&outputs[i].outpoint) {
            assert(outputs@.contains(outputs@[i as int]));
            return true;
        }
        i += 1;
    }
    proof {
        if exists|u: Utxo| #[trigger] outputs@.contains(u) && tx@.spends(u.outpoint) {
            let u = choose|u: Utxo| #[trigger] outputs@.contains(u) && tx@.spends(u.outpoint);
            let k = choose|k: int| 0 <= k < outputs@.len() && outputs@[k] == u;
            assert(!tx@.spends(outputs@[k].outpoint));
        }
    }
    false
}

/// The history of a fingerprint: the transactions that paid it or spent
/// what was paid to it. Confirmed entries come first, in chain order, each
/// transaction once; the unconfirmed ones follow. A fingerprint that was
/// never seen has an empty history.
pub fn history(store: &Store, pool: &Mempool, fingerprint: &Hash256) -> (r: History)
    requires
        store.wf(),
    ensures
        is_history(store@, pool@, *fingerprint, r.entries@, r.confirmed as int),
        history_ordered(r.entries@),
{
    let ghost s = store.ordered();
    let ghost m = store@;
    let ghost p = pool@;
    proof {
        store.lemma_ordered();
    }
    let (start, end) = funding_range(store, fingerprint);
    let mut entries: Vec<HistoryEntry> = Vec::new();
    let mut i: usize = start;
    while i < end
        invariant
            start <= i <= end <= s.len(),
            s == store.ordered(),
            m == store@,
            store.wf(),
            lists(s, m),
            chain_sorted(entries@),
            all_confirmed(entries@, *fingerprint),
            forall|e: HistoryEntry|
                #![trigger entries@.contains(e)]
                entries@.contains(e) <==> exists|j: int|
                    start <= j < i && row_gives(m, *fingerprint, #[trigger] s[j], e),
        decreases end - i,
    {
        let row = store.row_at(i);
        let ghost before = entries@;
        let ghost model = s[i as int];
        match row {
            Row::Funding { height, position, vout, txid, .. } => {
                let first = HistoryEntry {
                    fingerprint: *fingerprint,
                    txid: *txid,
                    height: Some(*height),
                    position: *position,
                };
                insert_entry(&mut entries, first);
                let ghost mid = entries@;
                let spend = store.get(&Key::Spend { txid: *txid, vout: *vout });
                let ghost mut second: Option<HistoryEntry> = None;
                match spend {
                    Some(Row::Spend { height: h, position: q, spender, .. }) => {
                        let e2 = HistoryEntry {
                            fingerprint: *fingerprint,
                            txid: *spender,
                            height: Some(*h),
                            position: *q,
                        };
                        insert_entry(&mut entries, e2);
                        proof {
                            second = Some(e2);
                        }
                    },
                    _ => {},
                }
                assert forall|e: HistoryEntry|
                    #![trigger entries@.contains(e)]
                    entries@.contains(e) <==> exists|j: int|
                        start <= j < i + 1 && row_gives(m, *fingerprint, #[trigger] s[j], e) by {
                    let earlier = exists|j: int|
                        start <= j < i && row_gives(m, *fingerprint, #[trigger] s[j], e);
                    assert(before.contains(e) <==> earlier);
                    assert(mid.contains(e) <==> (before.contains(e) || e == first));
                    assert(entries@.contains(e) <==> (mid.contains(e) || second == Some(e)));
                    assert(row_gives(m, *fingerprint, model, e) <==> (e == first || second == Some(
                        e,
                    )));
                    if earlier {
                        let j = choose|j: int|
                            start <= j < i && row_gives(m, *fingerprint, #[trigger] s[j], e);
                        assert(row_gives(m, *fingerprint, s[j], e));
                    }
                    if exists|j: int|
                        start <= j < i + 1 && row_gives(m, *fingerprint, #[trigger] s[j], e) {
                        let j = choose|j: int|
                            start <= j < i + 1 && row_gives(m, *fingerprint, #[trigger] s[j], e);
                        if j < i {
                            assert(row_gives(m, *fingerprint, s[j], e));
                            assert(earlier);
                        }
                    }
                }
            },
            _ => {
                assert forall|e: HistoryEntry|
                    #![trigger entries@.contains(e)]
                    entries@.contains(e) <==> exists|j: int|
                        start <= j < i + 1 && row_gives(m, *fingerprint, #[trigger] s[j], e) by {
                    let earlier = exists|j: int|
                        start <= j < i && row_gives(m, *fingerprint, #[trigger] s[j], e);
                    assert(before.contains(e) <==> earlier);
                    assert(!row_gives(m, *fingerprint, model, e));
                    if earlier {
                        let j = choose|j: int|
                            start <= j < i && row_gives(m, *fingerprint, #[trigger] s[j], e);
                        assert(row_gives(m, *fingerprint, s[j], e));
                    }
                    if exists|j: int|
                        start <= j < i + 1 && row_gives(m, *fingerprint, #[trigger] s[j], e) {
                        let j = choose|j: int|
                            start <= j < i + 1 && row_gives(m, *fingerprint, #[trigger] s[j], e);
                        assert(row_gives(m, *fingerprint, s[j], e));
                        assert(earlier);
                    }
                }
            },
        }
        i += 1;
    }
    let confirmed = entries.len();
    let ghost head = entries@;
    proof {
        assert forall|e: HistoryEntry| #![trigger head.contains(e)] head.contains(e) <==> confirmed_entry(
            m,
            *fingerprint,
            e,
        ) by {
            if head.contains(e) {
                let j = choose|j: int|
                    start <= j < end && row_gives(m, *fingerprint, #[trigger] s[j], e);
                assert(m.contains_key(s[j].key()) && m[s[j].key()] == s[j]);
            }
            if confirmed_entry(m, *fingerprint, e) {
                let k = choose|k: Key|
                    #[trigger] m.contains_key(k) && funding_key_of(k, *fingerprint) && row_gives(
                        m,
                        *fingerprint,
                        m[k],
                        e,
                    );
                let j = choose|j: int| 0 <= j < s.len() && (#[trigger] s[j]).key() == k;
                assert(m[s[j].key()] == s[j]);
                assert(row_gives(m, *fingerprint, s[j], e));
            }
        }
    }
    let candidates = outputs_to(store, pool, fingerprint);
    let n = pool.len();
    let mut t: usize = 0;
    while t < n
        invariant
            t <= n,
            n == p.len(),
            p == pool@,
            m == store@,
            store.wf(),
            confirmed == head.len(),
            forall|u: Utxo|
                #![trigger candidates@.contains(u)]
                candidates@.contains(u) <==> output_to(m, p, *fingerprint, u),
            entries@ == head + unconfirmed_entries(m, p, *fingerprint, t as nat),
        decreases n - t,
    {
        let tx = pool.tx_at(t);
        let is_live = !store.contains(&Key::Tx(tx.txid));
        if is_live {
            let pays = tx.pays(fingerprint);
            let spends = spends_any(tx, &candidates);
            proof {
                if spends {
                    let u = choose|u: Utxo|
                        #[trigger] candidates@.contains(u) && tx@.spends(u.outpoint);
                    assert(output_to(m, p, *fingerprint, u));
                }
                if spends_output_of(m, p, *fingerprint, tx@) {
                    let u = choose|u: Utxo|
                        #[trigger] output_to(m, p, *fingerprint, u) && tx@.spends(u.outpoint);
                    assert(candidates@.contains(u));
                }
                assert(spends == spends_output_of(m, p, *fingerprint, tx@));
            }
            if pays || spends {
                entries.push(
                    HistoryEntry { fingerprint: *fingerprint, txid: tx.txid, height: None, position: 0 },
                );
            }
        }
        assert(entries@ =~= head + unconfirmed_entries(m, p, *fingerprint, (t + 1) as nat));
        t += 1;
    }
    proof {
        assert(entries@.take(confirmed as int) =~= head);
        assert(entries@.skip(confirmed as int) =~= unconfirmed_entries(
            m,
            p,
            *fingerprint,
            p.len(),
        ));
        lemma_history_ordered(m, p, *fingerprint, entries@, confirmed as int);
    }
    History { entries, confirmed }
}

/// Whether an input that the fingerprint's history shows consumes the
/// output: the input of a confirmed transaction that the store records
/// under one of the fingerprint's confirmed outputs, or the input of an
/// unconfirmed transaction that touches the fingerprint.
pub open spec fn consumed_in_history(
    m: Map<Key, RowModel>,
    pool: Seq<TxModel>,
    fingerprint: Hash256,
    u: Utxo,
) -> bool {
    (exists|k: Key|
        #[trigger] m.contains_key(k) && funding_key_of(k, fingerprint) && m[k] is Funding
            && funding_output(m[k]) == u && m.contains_key(spend_key(m[k]))) || (exists|i: int|
        #[trigger] live(m, pool, i) && touches(m, pool, fingerprint, pool[i]) && pool[i].spends(
            u.outpoint,
        ))
}

/// The unspent outputs of a fingerprint are the outputs paid to it, less
/// those that an input shown in its history consumes.
pub proof fn lemma_utxos_consistent(
    m: Map<Key, RowModel>,
    pool: Seq<TxModel>,
    fingerprint: Hash256,
    u: Utxo,
)
    ensures
        unspent_output(m, pool, fingerprint, u) <==> (output_to(m, pool, fingerprint, u)
            && !consumed_in_history(m, pool, fingerprint, u)),
{
    if output_to(m, pool, fingerprint, u) {
        if spent(m, pool, u) {
            if spent_in_pool(m, pool, u.outpoint) {
                let i = choose|i: int| #[trigger] live(m, pool, i) && pool[i].spends(u.outpoint);
                assert(spends_output_of(m, pool, fingerprint, pool[i]));
                assert(live(m, pool, i) && touches(m, pool, fingerprint, pool[i]));
            } else {
                if unconfirmed_output(m, pool, fingerprint, u) {
                    let (i, v) = choose|i: int, v: int|
                        live(m, pool, i) && #[trigger] pays_at(pool[i], fingerprint, v)
                            && output_at(pool[i], v) == u;
                    assert(u.height is None);
                }
                let k = choose|k: Key|
                    #[trigger] m.contains_key(k) && funding_key_of(k, fingerprint) && m[k] is Funding
                        && funding_output(m[k]) == u;
                assert(m.contains_key(spend_key(m[k])));
            }
        }
        if consumed_in_history(m, pool, fingerprint, u) {
            if exists|i: int|
                #[trigger] live(m, pool, i) && touches(m, pool, fingerprint, pool[i])
                    && pool[i].spends(u.outpoint) {
                let i = choose|i: int|
                    #[trigger] live(m, pool, i) && touches(m, pool, fingerprint, pool[i])
                        && pool[i].spends(u.outpoint);
                assert(live(m, pool, i) && pool[i].spends(u.outpoint));
            } else {
                let k = choose|k: Key|
                    #[trigger] m.contains_key(k) && funding_key_of(k, fingerprint) && m[k] is Funding
                        && funding_output(m[k]) == u && m.contains_key(spend_key(m[k]));
                assert(u.height is Some);
            }
        }
    }
}

/// Every unconfirmed transaction that touches the fingerprint has its
/// entry among the unconfirmed entries.
pub proof fn lemma_unconfirmed_entry_present(
    m: Map<Key, RowModel>,
    pool: Seq<TxModel>,
    fingerprint: Hash256,
    n: nat,
    i: int,
)
    requires
        0 <= i < n <= pool.len(),
        live(m, pool, i),
        touches(m, pool, fingerprint, pool[i]),
    ensures
        unconfirmed_entries(m, pool, fingerprint, n).contains(pool_entry(fingerprint, pool[i])),
    decreases n,
{
    let rest = unconfirmed_entries(m, pool, fingerprint, (n - 1) as nat);
    let all = unconfirmed_entries(m, pool, fingerprint, n);
    if i == n - 1 {
        assert(all[rest.len() as int] == pool_entry(fingerprint, pool[i]));
    } else {
        lemma_unconfirmed_entry_present(m, pool, fingerprint, (n - 1) as nat, i);
        let a = choose|a: int| 0 <= a < rest.len() && rest[a] == pool_entry(fingerprint, pool[i]);
        assert(all[a] == pool_entry(fingerprint, pool[i]));
    }
}

/// A transaction that spends an output paid to the fingerprint is in the
/// fingerprint's history: a confirmed spender of a confirmed output among
/// the confirmed entries, an unconfirmed spender among the unconfirmed ones.
pub proof fn lemma_spender_in_history(
    m: Map<Key, RowModel>,
    pool: Seq<TxModel>,
    fingerprint: Hash256,
    u: Utxo,
    entries: Seq<HistoryEntry>,
    confirmed: int,
)
    requires
        keyed(m),
        is_history(m, pool, fingerprint, entries, confirmed),
        output_to(m, pool, fingerprint, u),
    ensures
        u.height is Some && m.contains_key(Key::Spend { txid: u.outpoint.txid, vout: u.outpoint.vout })
            ==> entries.take(confirmed).contains(
            spend_entry(
                fingerprint,
                m[Key::Spend { txid: u.outpoint.txid, vout: u.outpoint.vout }],
            ),
        ),
        forall|i: int|
            #[trigger] live(m, pool, i) && pool[i].spends(u.outpoint) ==> entries.skip(
                confirmed,
            ).contains(pool_entry(fingerprint, pool[i])),
{
    let sk = Key::Spend { txid: u.outpoint.txid, vout: u.outpoint.vout };
    if u.height is Some && m.contains_key(sk) {
        if unconfirmed_output(m, pool, fingerprint, u) {
            let (i, v) = choose|i: int, v: int|
                live(m, pool, i) && #[trigger] pays_at(pool[i], fingerprint, v) && output_at(
                    pool[i],
                    v,
                ) == u;
            assert(u.height is None);
        }
        let k = choose|k: Key|
            #[trigger] m.contains_key(k) && funding_key_of(k, fingerprint) && m[k] is Funding
                && funding_output(m[k]) == u;
        assert(spend_key(m[k]) == sk);
        assert(m[sk].key() == sk);
        let e = spend_entry(fingerprint, m[sk]);
        assert(row_gives(m, fingerprint, m[k], e));
        assert(confirmed_entry(m, fingerprint, e));
    }
    assert forall|i: int| #[trigger] live(m, pool, i) && pool[i].spends(u.outpoint) implies entries.skip(
        confirmed,
    ).contains(pool_entry(fingerprint, pool[i])) by {
        assert(spends_output_of(m, pool, fingerprint, pool[i]));
        lemma_unconfirmed_entry_present(m, pool, fingerprint, pool.len(), i);
    }
}

/// The transaction with the given id that the pool holds, if any.
pub open spec fn pool_tx(pool: Seq<TxModel>, txid: Hash256) -> Option<TxModel> {
    if pool_holds(pool, txid) {
        Some(pool[choose|i: int| 0 <= i < pool.len() && (#[trigger] pool[i]).txid == txid])
    } else {
        None
    }
}

/// The transaction with the given id that the store holds, if any.
pub open spec fn stored_tx(m: Map<Key, RowModel>, txid: Hash256) -> Option<TxModel> {
    if m.contains_key(Key::Tx(txid)) {
        match m[Key::Tx(txid)] {
            RowModel::Tx { body, .. } => Some(body),
            _ => None,
        }
    } else {
        None
    }
}

/// The transaction with the given id outside the cache: the pool's, else the store's.
pub open spec fn source_tx(
    m: Map<Key, RowModel>,
    pool: Seq<TxModel>,
    txid: Hash256,
) -> Option<TxModel> {
    match pool_tx(pool, txid) {
        Some(tx) => Some(tx),
        None => stored_tx(m, txid),
    }
}

/// The transaction with the given id, as a lookup finds it: in the cache,
/// else in the pool, else in the store.
pub open spec fn found_tx(
    cache: Seq<(CacheKey, TxModel)>,
    m: Map<Key, RowModel>,
    pool: Seq<TxModel>,
    txid: Hash256,
) -> Option<TxModel> {
    if holds(cache, key_of(txid)) {
        Some(cache[place(cache, key_of(txid))].1)
    } else {
        source_tx(m, pool, txid)
    }
}

/// The cache after a lookup: an entry that was found in it moves to the
/// front; what the pool or the store gave on a miss is put into it.
pub open spec fn cache_after(
    cache: Seq<(CacheKey, TxModel)>,
    capacity: nat,
    m: Map<Key, RowModel>,
    pool: Seq<TxModel>,
    txid: Hash256,
) -> Seq<(CacheKey, TxModel)> {
    if holds(cache, key_of(txid)) {
        touched(cache, key_of(txid))
    } else if capacity > 0 && source_tx(m, pool, txid) is Some {
        put_entries(
            cache,
            capacity,
            key_of(source_tx(m, pool, txid)->0.txid),
            source_tx(m, pool, txid)->0,
        )
    } else {
        cache
    }
}

/// The transaction with the given id outside the cache: the pool's, else the store's.
pub fn fetch_tx(store: &Store, pool: &Mempool, txid: &Hash256) -> (r: Option<Transaction>)
    requires
        store.wf(),
        pool.wf(),
    ensures
        match r {
            Some(tx) => source_tx(store@, pool@, *txid) == Some(tx@),
            None => source_tx(store@, pool@, *txid) is None,
        },
{
    match pool.position(txid) {
        Some(i) => {
            proof {
                pool.lemma_distinct();
                let p = pool@;
                let c = choose|c: int| 0 <= c < p.len() && (#[trigger] p[c]).txid == *txid;
                if c < i {
                    assert(p[c].txid != p[i as int].txid);
                } else if i < c {
                    assert(p[i as int].txid != p[c].txid);
                }
            }
            Some(pool.tx_at(i).duplicate())
        },
        None => match store.get(&Key::Tx(*txid)) {
            Some(Row::Tx { body, .. }) => Some(body.duplicate()),
            _ => None,
        },
    }
}

/// The transaction with the given id. The cache is asked first; on a miss
/// the pool, then the store, and what they give enters the cache. An id
/// that was never seen gives nothing.
pub fn transaction(cache: &mut TxCache, store: &Store, pool: &Mempool, txid: &Hash256) -> (r: Option<
    Transaction,
>)
    requires
        old(cache).wf(),
        store.wf(),
        pool.wf(),
    ensures
        final(cache).wf(),
        final(cache).capacity() == old(cache).capacity(),
        match r {
            Some(tx) => found_tx(old(cache)@, store@, pool@, *txid) == Some(tx@),
            None => found_tx(old(cache)@, store@, pool@, *txid) is None,
        },
        final(cache)@ == cache_after(old(cache)@, old(cache).capacity(), store@, pool@, *txid),
{
    match cache.get(txid) {
        Some(tx) => Some(tx),
        None => {
            match fetch_tx(store, pool, txid) {
                Some(tx) => {
                    cache.put(tx.duplicate());
                    Some(tx)
                },
                None => None,
            }
        },
    }
}

/// The output that an input spends, where the pool or the store holds the
/// transaction that created it.
pub open spec fn prevout(
    m: Map<Key, RowModel>,
    pool: Seq<TxModel>,
    input: OutPoint,
) -> Option<TxOut> {
    match source_tx(m, pool, input.txid) {
        Some(tx) => if input.vout < tx.outputs.len() {
            Some(tx.outputs[input.vout as int])
        } else {
            None
        },
        None => None,
    }
}

/// For each input of a transaction, the output it spends. With
/// `prevout_enabled` off nothing is looked up, and no input is resolved.
pub fn prevouts(store: &Store, pool: &Mempool, tx: &Transaction, prevout_enabled: bool) -> (r: Vec<
    Option<TxOut>,
>)
    requires
        store.wf(),
        pool.wf(),
    ensures
        r@.len() == tx@.inputs.len(),
        forall|i: int|
            0 <= i < r@.len() ==> #[trigger] r@[i] == if prevout_enabled {
                prevout(store@, pool@, tx@.inputs[i])
            } else {
                None
            },
{
    let mut r: Vec<Option<TxOut>> = Vec::new();
    let mut i: usize = 0;
    while i < tx.inputs.len()
        invariant
            i <= tx.inputs@.len(),
            r@.len() == i,
            store.wf(),
            pool.wf(),
            forall|k: int|
                0 <= k < i ==> #[trigger] r@[k] == if prevout_enabled {
                    prevout(store@, pool@, tx@.inputs[k])
                } else {
                    None
                },
        decreases tx.inputs@.len() - i,
    {
        let mut found: Option<TxOut> = None;
        if prevout_enabled {
            let input = tx.inputs[i];
            match fetch_tx(store, pool, &input.txid) {
                Some(prev) => {
                    let v = input.vout as usize;
                    if v < prev.outputs.len() {
                        found = Some(prev.outputs[v]);
                    }
                },
                None => {},
            }
        }
        r.push(found);
        i += 1;
    }
    r
}

} // verus!
