//! The unconfirmed transactions, as a mirror of the daemon's pool.
//!
//! The mirror is refreshed from the daemon's list of ids: what the list no
//! longer names is dropped, what it newly names is fetched and added. When a
//! block is indexed the transactions it confirms leave at once, and the
//! mirror counts as stale until the next refresh.

use vstd::prelude::*;
use crate::hash::Hash256;
use crate::model::{Block, BlockModel, Transaction, TxModel, tx_models};

verus! {

/// Whether a pool holds a transaction with the given id.
pub open spec fn pool_holds(pool: Seq<TxModel>, txid: Hash256) -> bool {
    exists|i: int| 0 <= i < pool.len() && (#[trigger] pool[i]).txid == txid
}

/// Whether a block holds a transaction with the given id.
pub open spec fn block_holds(block: BlockModel, txid: Hash256) -> bool {
    exists|i: int| 0 <= i < block.txs.len() && (#[trigger] block.txs[i]).txid == txid
}

/// Whether no two transactions of a pool share an id.
pub open spec fn distinct_ids(pool: Seq<TxModel>) -> bool {
    forall|i: int, j: int|
        0 <= i < j < pool.len() ==> (#[trigger] pool[i]).txid != (#[trigger] pool[j]).txid
}

/// The pool without the transactions that a block confirms.
pub open spec fn without_confirmed(pool: Seq<TxModel>, block: BlockModel) -> Seq<TxModel> {
    pool.filter(|t: TxModel| !block_holds(block, t.txid))
}

/// The pool without the transactions that a list of ids no longer names.
pub open spec fn still_listed(pool: Seq<TxModel>, ids: Seq<Hash256>) -> Seq<TxModel> {
    pool.filter(|t: TxModel| ids.contains(t.txid))
}

/// The ids of a list that the pool does not hold, each once, in the list's order.
pub open spec fn fresh_ids(pool: Seq<TxModel>, ids: Seq<Hash256>) -> Seq<Hash256>
    decreases ids.len(),
{
    if ids.len() == 0 {
        Seq::empty()
    } else {
        let rest = fresh_ids(pool, ids.drop_last());
        if !pool_holds(pool, ids.last()) && !rest.contains(ids.last()) {
            rest.push(ids.last())
        } else {
            rest
        }
    }
}

/// The pool after one more transaction was offered: added at the end,
/// unless the pool holds its id already.
pub open spec fn accepted(pool: Seq<TxModel>, tx: TxModel) -> Seq<TxModel> {
    if pool_holds(pool, tx.txid) {
        pool
    } else {
        pool.push(tx)
    }
}

/// The pool after the listed ones of the fetched transactions were offered in order.
pub open spec fn accepted_all(pool: Seq<TxModel>, fetched: Seq<TxModel>, ids: Seq<Hash256>) -> Seq<
    TxModel,
>
    decreases fetched.len(),
{
    if fetched.len() == 0 {
        pool
    } else {
        let rest = accepted_all(pool, fetched.drop_last(), ids);
        if ids.contains(fetched.last().txid) {
            accepted(rest, fetched.last())
        } else {
            rest
        }
    }
}

/// The pool after a refresh against the daemon's list of ids.
pub open spec fn refreshed(pool: Seq<TxModel>, ids: Seq<Hash256>, fetched: Seq<TxModel>) -> Seq<
    TxModel,
> {
    accepted_all(still_listed(pool, ids), fetched, ids)
}

/// A filtered pool holds an id exactly if the pool holds it and it passes.
pub proof fn lemma_filter_holds(pool: Seq<TxModel>, pred: spec_fn(TxModel) -> bool, txid: Hash256)
    requires
        forall|a: TxModel, b: TxModel| a.txid == b.txid ==> pred(a) == pred(b),
    ensures
        pool_holds(pool.filter(pred), txid) <==> exists|i: int|
            0 <= i < pool.len() && (#[trigger] pool[i]).txid == txid && pred(pool[i]),
{
    let f = pool.filter(pred);
    if pool_holds(f, txid) {
        let i = choose|i: int| 0 <= i < f.len() && (#[trigger] f[i]).txid == txid;
        pool.lemma_filter_pred(pred, i);
        assert(f.contains(f[i]));
        pool.lemma_filter_contains_rev(pred, f[i]);
        let j = choose|j: int| 0 <= j < pool.len() && pool[j] == f[i];
        assert(pool[j].txid == txid && pred(pool[j]));
    }
    if exists|i: int| 0 <= i < pool.len() && (#[trigger] pool[i]).txid == txid && pred(pool[i]) {
        let i = choose|i: int|
            0 <= i < pool.len() && (#[trigger] pool[i]).txid == txid && pred(pool[i]);
        pool.lemma_filter_contains(pred, i);
        let j = choose|j: int| 0 <= j < f.len() && f[j] == pool[i];
        assert(f[j].txid == txid);
    }
}

/// Filtering keeps ids distinct.
pub proof fn lemma_filter_distinct(pool: Seq<TxModel>, pred: spec_fn(TxModel) -> bool)
    requires
        distinct_ids(pool),
    ensures
        distinct_ids(pool.filter(pred)),
    decreases pool.len(),
{
    reveal(Seq::filter);
    if pool.len() > 0 {
        let rest = pool.drop_last();
        lemma_filter_distinct(rest, pred);
        let f = rest.filter(pred);
        if pred(pool.last()) {
            assert forall|i: int, j: int| 0 <= i < j < f.push(pool.last()).len() implies (
            #[trigger] f.push(pool.last())[i]).txid != (#[trigger] f.push(pool.last())[j]).txid by {
                if j == f.len() {
                    assert(f.contains(f[i]));
                    rest.lemma_filter_contains_rev(pred, f[i]);
                    let x = choose|x: int| 0 <= x < rest.len() && rest[x] == f[i];
                    assert(pool[x].txid != pool[pool.len() - 1].txid);
                }
            }
        }
    }
}

/// A transaction that a block confirms is gone from the pool once the
/// block's transactions were taken out, whatever the pool held.
pub proof fn lemma_confirmed_leave(pool: Seq<TxModel>, block: BlockModel, txid: Hash256)
    requires
        block_holds(block, txid),
    ensures
        !pool_holds(without_confirmed(pool, block), txid),
{
    let pred = |t: TxModel| !block_holds(block, t.txid);
    lemma_filter_holds(pool, pred, txid);
}

/// A transaction that no block confirmation touches stays in the pool.
pub proof fn lemma_unconfirmed_stay(pool: Seq<TxModel>, block: BlockModel, txid: Hash256)
    requires
        !block_holds(block, txid),
    ensures
        pool_holds(without_confirmed(pool, block), txid) == pool_holds(pool, txid),
{
    let pred = |t: TxModel| !block_holds(block, t.txid);
    lemma_filter_holds(pool, pred, txid);
}

/// The mirror of the daemon's pool of unconfirmed transactions.
pub struct Mempool {
    txs: Vec<Transaction>,
    stale: bool,
}

impl View for Mempool {
    type V = Seq<TxModel>;

    closed spec fn view(&self) -> Seq<TxModel> {
        tx_models(self.txs@)
    }
}

impl Mempool {
    /// The mirror's invariant: no two of its transactions share an id.
    pub closed spec fn wf(&self) -> bool {
        distinct_ids(self@)
    }

    /// Whether a block was indexed since the last refresh.
    pub closed spec fn stale(&self) -> bool {
        self.stale
    }

    /// No two transactions of the mirror share an id.
    pub proof fn lemma_distinct(&self)
        requires
            self.wf(),
        ensures
            distinct_ids(self@),
    {
    }

    /// An empty mirror. It is stale until it was refreshed once.
    pub fn new() -> (m: Mempool)
        ensures
            m.wf(),
            m@ == Seq::<TxModel>::empty(),
            m.stale(),
    {
        let m = Mempool { txs: Vec::new(), stale: true };
        assert(m@ =~= Seq::<TxModel>::empty());
        m
    }

    /// The number of transactions held.
    pub fn len(&self) -> (n: usize)
        ensures
            n == self@.len(),
    {
        self.txs.len()
    }

    /// Whether a block was indexed since the last refresh.
    pub fn is_stale(&self) -> (b: bool)
        ensures
            b == self.stale(),
    {
        self.stale
    }

    /// The transaction at a place in the mirror.
    pub fn tx_at(&self, i: usize) -> (tx: &Transaction)
        requires
            i < self@.len(),
        ensures
            tx@ == self@[i as int],
    {
        &self.txs[i]
    }

    /// The place of the transaction with the given id, if it is held.
    pub fn position(&self, txid: &Hash256) -> (r: Option<usize>)
        ensures
            match r {
                Some(i) => i < self@.len() && self@[i as int].txid == *txid,
                None => !pool_holds(self@, *txid),
            },
    {
        let mut i: usize = 0;
        while i < self.txs.len()
            invariant
                i <= self.txs.len(),
                forall|k: int| 0 <= k < i ==> (#[trigger] self@[k]).txid != *txid,
            decreases self.txs.len() - i,
        {
            if self.txs[i].txid == *txid {
                assert(self@[i as int].txid == *txid);
                return Some(i);
            }
            i += 1;
        }
        None
    }

    /// The transaction with the given id, if it is held.
    pub fn get(&self, txid: &Hash256) -> (r: Option<&Transaction>)
        ensures
            match r {
                Some(tx) => tx@.txid == *txid && self@.contains(tx@),
                None => !pool_holds(self@, *txid),
            },
    {
        match self.position(txid) {
            Some(i) => {
                assert(self@[i as int] == self.txs@[i as int]@);
                Some(&self.txs[i])
            },
            None => None,
        }
    }

    /// Whether a transaction with the given id is held.
    pub fn contains(&self, txid: &Hash256) -> (b: bool)
        ensures
            b == pool_holds(self@, *txid),
    {
        self.position(txid).is_some()
    }

    /// Adds a transaction at the end, unless one with its id is held.
    /// Returns whether it was added.
    pub fn accept(&mut self, tx: Transaction) -> (added: bool)
        requires
            old(self).wf(),
        ensures
            final(self).wf(),
            final(self)@ == accepted(old(self)@, tx@),
            final(self).stale() == old(self).stale(),
            added == !pool_holds(old(self)@, tx@.txid),
    {
        if self.contains(&tx.txid) {
            false
        } else {
            let ghost before = self@;
            let ghost model = tx@;
            self.txs.push(tx);
            assert(self@ =~= before.push(model));
            true
        }
    }

    /// Drops the transactions that a newly indexed block confirms, and marks
    /// the mirror stale.
    pub fn confirm(&mut self, block: &Block)
        requires
            old(self).wf(),
        ensures
            final(self).wf(),
            final(self)@ == without_confirmed(old(self)@, block@),
            final(self).stale(),
            forall|txid: Hash256| block_holds(block@, txid) ==> !pool_holds(final(self)@, txid),
    {
        let ghost all = self@;
        let ghost pred = |t: TxModel| !block_holds(block@, t.txid);
        let mut i: usize = 0;
        let ghost mut k: int = 0;
        proof {
            reveal(Seq::filter);
            assert(all.take(0).filter(pred) =~= Seq::<TxModel>::empty());
            assert(all.skip(0) =~= all);
        }
        while i < self.txs.len()
            invariant
                0 <= k <= all.len(),
                i == all.take(k).filter(pred).len(),
                self@ == all.take(k).filter(pred) + all.skip(k),
                pred == |t: TxModel| !block_holds(block@, t.txid),
            decreases all.len() - k,
        {
            proof {
                assert(self@.len() == i + all.skip(k).len());
                assert(k < all.len());
                assert(all.take(k + 1) =~= all.take(k).push(all[k]));
                all.take(k).lemma_filter_push(all[k], pred);
                assert(self@[i as int] == all.skip(k)[0]);
            }
            let confirmed = block.holds(&self.txs[i].txid);
            if confirmed {
                let ghost before = self@;
                self.txs.remove(i);
                proof {
                    assert(self@ =~= before.remove(i as int));
                    assert(self@ =~= all.take(k + 1).filter(pred) + all.skip(k + 1));
                    k = k + 1;
                }
            } else {
                proof {
                    assert(self@ =~= all.take(k + 1).filter(pred) + all.skip(k + 1));
                    k = k + 1;
                }
                i += 1;
            }
        }
        self.stale = true;
        proof {
            assert(self@.len() == i + all.skip(k).len());
            assert(k == all.len());
            assert(all.take(k) =~= all);
            assert(self@ =~= all.filter(pred));
            lemma_filter_distinct(all, pred);
            assert forall|txid: Hash256| block_holds(block@, txid) implies !pool_holds(
                self@,
                txid,
            ) by {
                lemma_confirmed_leave(all, block@, txid);
            }
        }
    }

    /// Drops the transactions that the daemon's list no longer names, and
    /// returns the ids that it newly names: those to fetch.
    pub fn retain_listed(&mut self, ids: &Vec<Hash256>) -> (fresh: Vec<Hash256>)
        requires
            old(self).wf(),
        ensures
            final(self).wf(),
            final(self)@ == still_listed(old(self)@, ids@),
            final(self).stale() == old(self).stale(),
            fresh@ == fresh_ids(old(self)@, ids@),
    {
        let ghost all = self@;
        let ghost pred = |t: TxModel| ids@.contains(t.txid);
        let mut fresh: Vec<Hash256> = Vec::new();
        let mut n: usize = 0;
        while n < ids.len()
            invariant
                n <= ids.len(),
                self@ == all,
                fresh@ == fresh_ids(all, ids@.take(n as int)),
            decreases ids.len() - n,
        {
            proof {
                assert(ids@.take(n + 1).drop_last() =~= ids@.take(n as int));
            }
            let id = ids[n];
            if !self.contains(&id) && !list_holds(&fresh, &id) {
                fresh.push(id);
            }
            n += 1;
        }
        assert(ids@.take(n as int) =~= ids@);
        let mut i: usize = 0;
        let ghost mut k: int = 0;
        proof {
            reveal(Seq::filter);
            assert(all.take(0).filter(pred) =~= Seq::<TxModel>::empty());
            assert(all.skip(0) =~= all);
        }
        while i < self.txs.len()
            invariant
                0 <= k <= all.len(),
                i == all.take(k).filter(pred).len(),
                self@ == all.take(k).filter(pred) + all.skip(k),
                pred == |t: TxModel| ids@.contains(t.txid),
                self.stale() == old(self).stale(),
            decreases all.len() - k,
        {
            proof {
                assert(self@.len() == i + all.skip(k).len());
                assert(k < all.len());
                assert(all.take(k + 1) =~= all.take(k).push(all[k]));
                all.take(k).lemma_filter_push(all[k], pred);
                assert(self@[i as int] == all.skip(k)[0]);
            }
            let listed = list_holds(ids, &self.txs[i].txid);
            if !listed {
                let ghost before = self@;
                self.txs.remove(i);
                proof {
                    assert(self@ =~= before.remove(i as int));
                    assert(self@ =~= all.take(k + 1).filter(pred) + all.skip(k + 1));
                    k = k + 1;
                }
            } else {
                proof {
                    assert(self@ =~= all.take(k + 1).filter(pred) + all.skip(k + 1));
                    k = k + 1;
                }
                i += 1;
            }
        }
        proof {
            assert(self@.len() == i + all.skip(k).len());
            assert(k == all.len());
            assert(all.take(k) =~= all);
            assert(self@ =~= all.filter(pred));
            lemma_filter_distinct(all, pred);
        }
        fresh
    }

    /// Ends a refresh: the mirror is no longer stale.
    pub fn mark_fresh(&mut self)
        ensures
            final(self)@ == old(self)@,
            final(self).wf() == old(self).wf(),
            !final(self).stale(),
    {
        self.stale = false;
    }

    /// Refreshes the mirror against the daemon's list of ids and the
    /// transactions fetched for the ids it newly names. Fetched transactions
    /// that the list does not name are ignored.
    pub fn refresh(&mut self, ids: &Vec<Hash256>, fetched: Vec<Transaction>)
        requires
            old(self).wf(),
        ensures
            final(self).wf(),
            final(self)@ == refreshed(old(self)@, ids@, tx_models(fetched@)),
            !final(self).stale(),
    {
        let _ = self.retain_listed(ids);
        let ghost base = self@;
        let ghost all = tx_models(fetched@);
        let ghost n = all.len();
        let mut rest = turned(fetched);
        while rest.len() > 0
            invariant
                rest@.len() <= n,
                n == all.len(),
                self.wf(),
                forall|j: int| 0 <= j < rest@.len() ==> (#[trigger] rest@[j])@ == all[n - 1 - j],
                self@ == accepted_all(base, all.take(n - rest@.len()), ids@),
            decreases rest.len(),
        {
            let ghost done = n - rest@.len();
            let tx = rest.pop().unwrap();
            assert(tx@ == all[done]);
            proof {
                assert(all.take(done + 1).drop_last() =~= all.take(done));
            }
            if list_holds(ids, &tx.txid) {
                self.accept(tx);
            }
        }
        assert(all.take(n as int) =~= all);
        self.stale = false;
    }
}

/// Whether a list of ids names the given one.
pub fn list_holds(ids: &Vec<Hash256>, id: &Hash256) -> (b: bool)
    ensures
        b == ids@.contains(*id),
{
    let mut i: usize = 0;
    while i < ids.len()
        invariant
            i <= ids.len(),
            forall|k: int| 0 <= k < i ==> ids@[k] != *id,
        decreases ids.len() - i,
    {
        if ids[i] == *id {
            return true;
        }
        i += 1;
    }
    false
}

/// The transactions in the opposite order.
fn turned(txs: Vec<Transaction>) -> (r: Vec<Transaction>)
    ensures
        r@.len() == txs@.len(),
        forall|j: int| 0 <= j < r@.len() ==> (#[trigger] r@[j])@ == tx_models(txs@)[txs@.len() - 1 - j],
{
    let ghost all = tx_models(txs@);
    let ghost n = txs@.len();
    let mut txs = txs;
    let mut r: Vec<Transaction> = Vec::new();
    while txs.len() > 0
        invariant
            txs@.len() + r@.len() == n,
            n == all.len(),
            forall|j: int| 0 <= j < txs@.len() ==> (#[trigger] txs@[j])@ == all[j],
            forall|j: int| 0 <= j < r@.len() ==> (#[trigger] r@[j])@ == all[n - 1 - j],
        decreases txs.len(),
    {
        let tx = txs.pop().unwrap();
        r.push(tx);
    }
    r
}

} // verus!
