//! The engine as one value: the store, the local chain and its tracker,
//! the mirror of the unconfirmed transactions, and the transaction cache,
//! kept in step with each other; and the counters that it keeps of its work.

use vstd::prelude::*;
use crate::cache::{holds, key_of, CacheKey, TxCache};
use crate::chain::{
    chain_order, confirm_all, headers_of, in_step, observed, offered, reorganized, restorable,
    ChainTip, Header, Step, Tracker,
};
use crate::daemon::Failure;
use crate::hash::Hash256;
use crate::mempool::{refreshed, Mempool};
use crate::model::{block_models, tx_models, Block, Transaction, TxModel, TxOut};
use crate::query::{
    all_outputs, cache_after, found_tx, history, history_ordered, is_history, prevout, prevouts,
    spent, transaction, utxos, History, Utxo,
};
use crate::rows::{Key, RowModel};
use crate::store::Store;

verus! {

/// Counters of the engine's work. Each stops at its greatest value.
#[derive(Clone, Copy, Debug, PartialEq, Eq, Structural)]
pub struct Counters {
    /// Batches written to the store: one for each block indexed or taken back.
    pub batches_committed: u64,
    /// The greatest number of blocks that one reorganisation took back.
    pub reorg_depth: u64,
    /// Lookups of a transaction that the cache answered.
    pub cache_hits: u64,
    /// Lookups of a transaction that the cache did not answer.
    pub cache_misses: u64,
}

/// A count after `n` more, stopping at the greatest value.
pub open spec fn counted(count: u64, n: nat) -> u64 {
    if count + n > u64::MAX {
        u64::MAX
    } else {
        (count + n) as u64
    }
}

/// A count after `n` more.
fn count_up(count: u64, n: usize) -> (r: u64)
    ensures
        r == counted(count, n as nat),
{
    let m: u64 = n as u64;
    if m > u64::MAX - count {
        u64::MAX
    } else {
        count + m
    }
}

/// The engine.
pub struct Engine {
    pub store: Store,
    pub pool: Mempool,
    pub cache: TxCache,
    pub tracker: Tracker,
    pub prevout_enabled: bool,
    pub counters: Counters,
}

impl Engine {
    /// The engine's invariant: each part is sound, and the store and the
    /// local chain agree.
    pub open spec fn wf(&self) -> bool {
        &&& self.store.wf()
        &&& self.pool.wf()
        &&& self.cache.wf()
        &&& self.tracker.wf()
        &&& in_step(self.store@, self.tracker.chain())
    }

    /// An engine that has indexed nothing: with a cache for `tx_cache_size`
    /// transactions, following branches at most `max_reorg_depth` blocks
    /// back, and resolving the outputs that inputs spend if `prevout_enabled`.
    pub fn new(tx_cache_size: usize, max_reorg_depth: usize, prevout_enabled: bool) -> (e: Engine)
        ensures
            e.wf(),
            e.store@ == Map::<Key, RowModel>::empty(),
            e.pool@ == Seq::<TxModel>::empty(),
            e.cache@ == Seq::<(CacheKey, TxModel)>::empty(),
            e.cache.capacity() == tx_cache_size,
            e.tracker.chain() == Seq::<Header>::empty(),
            e.tracker.depth() == max_reorg_depth,
            e.prevout_enabled == prevout_enabled,
            e.counters == (Counters {
                batches_committed: 0,
                reorg_depth: 0,
                cache_hits: 0,
                cache_misses: 0,
            }),
    {
        Engine {
            store: Store::new(),
            pool: Mempool::new(),
            cache: TxCache::new(tx_cache_size),
            tracker: Tracker::new(max_reorg_depth),
            prevout_enabled,
            counters: Counters { batches_committed: 0, reorg_depth: 0, cache_hits: 0, cache_misses: 0 },
        }
    }

    /// An engine on a store that was filled before: by an earlier run, or
    /// by indexing in bulk. Its local chain is the one that the store
    /// holds. A store that holds no chain is a failure of the store.
    pub fn restore(
        store: Store,
        tx_cache_size: usize,
        max_reorg_depth: usize,
        prevout_enabled: bool,
    ) -> (r: Result<Engine, Failure>)
        requires
            store.wf(),
        ensures
            match r {
                Ok(e) => {
                    &&& e.wf()
                    &&& e.store@ == store@
                    &&& restorable(store@, e.tracker.chain())
                    &&& e.pool@ == Seq::<TxModel>::empty()
                    &&& e.cache@ == Seq::<(CacheKey, TxModel)>::empty()
                    &&& e.cache.capacity() == tx_cache_size
                    &&& e.tracker.depth() == max_reorg_depth
                    &&& e.prevout_enabled == prevout_enabled
                },
                Err(f) => f == Failure::Store && forall|headers: Seq<Header>|
                    !restorable(store@, headers),
            },
    {
        match Tracker::restore(&store, max_reorg_depth) {
            Some(tracker) => Ok(
                Engine {
                    store,
                    pool: Mempool::new(),
                    cache: TxCache::new(tx_cache_size),
                    tracker,
                    prevout_enabled,
                    counters: Counters {
                        batches_committed: 0,
                        reorg_depth: 0,
                        cache_hits: 0,
                        cache_misses: 0,
                    },
                },
            ),
            None => Err(Failure::Store),
        }
    }

    /// The best block indexed, if any.
    pub fn tip(&self) -> (r: Option<ChainTip>)
        requires
            self.wf(),
        ensures
            match r {
                Some(t) => self.tracker.chain().len() > 0 && t.hash
                    == self.tracker.chain().last().hash && t.height == self.tracker.chain().len()
                    - 1,
                None => self.tracker.chain().len() == 0,
            },
    {
        self.tracker.tip()
    }

    /// The number of unconfirmed transactions held.
    pub fn pending(&self) -> (n: usize)
        ensures
            n == self.pool@.len(),
    {
        self.pool.len()
    }

    /// The history of a fingerprint.
    pub fn history(&self, fingerprint: &Hash256) -> (r: History)
        requires
            self.wf(),
        ensures
            is_history(self.store@, self.pool@, *fingerprint, r.entries@, r.confirmed as int),
            history_ordered(r.entries@),
    {
        history(&self.store, &self.pool, fingerprint)
    }

    /// The unspent outputs of a fingerprint.
    pub fn utxos(&self, fingerprint: &Hash256) -> (r: Vec<Utxo>)
        requires
            self.wf(),
        ensures
            r@ == all_outputs(self.store.ordered(), self.store@, self.pool@, *fingerprint).filter(
                |u: Utxo| !spent(self.store@, self.pool@, u),
            ),
    {
        utxos(&self.store, &self.pool, fingerprint)
    }

    /// The transaction with the given id, from the cache, the pool or the
    /// store. The lookup is counted as a hit or a miss of the cache.
    pub fn transaction(&mut self, txid: &Hash256) -> (r: Option<Transaction>)
        requires
            old(self).wf(),
        ensures
            final(self).wf(),
            final(self).store@ == old(self).store@,
            final(self).pool@ == old(self).pool@,
            final(self).tracker == old(self).tracker,
            final(self).prevout_enabled == old(self).prevout_enabled,
            match r {
                Some(tx) => found_tx(old(self).cache@, old(self).store@, old(self).pool@, *txid)
                    == Some(tx@),
                None => found_tx(old(self).cache@, old(self).store@, old(self).pool@, *txid) is None,
            },
            final(self).cache.capacity() == old(self).cache.capacity(),
            final(self).cache@ == cache_after(
                old(self).cache@,
                old(self).cache.capacity(),
                old(self).store@,
                old(self).pool@,
                *txid,
            ),
            final(self).counters == if holds(old(self).cache@, key_of(*txid)) {
                Counters {
                    cache_hits: counted(old(self).counters.cache_hits, 1),
                    ..old(self).counters
                }
            } else {
                Counters {
                    cache_misses: counted(old(self).counters.cache_misses, 1),
                    ..old(self).counters
                }
            },
    {
        let hit = self.cache.contains(txid);
        if hit {
            self.counters.cache_hits = count_up(self.counters.cache_hits, 1);
        } else {
            self.counters.cache_misses = count_up(self.counters.cache_misses, 1);
        }
        transaction(&mut self.cache, &self.store, &self.pool, txid)
    }

    /// For each input of a transaction the output it spends, if the engine
    /// resolves them; else nothing for each.
    pub fn prevouts(&self, tx: &Transaction) -> (r: Vec<Option<TxOut>>)
        requires
            self.wf(),
        ensures
            r@.len() == tx@.inputs.len(),
            forall|i: int|
                0 <= i < r@.len() ==> #[trigger] r@[i] == if self.prevout_enabled {
                    prevout(self.store@, self.pool@, tx@.inputs[i])
                } else {
                    None
                },
    {
        prevouts(&self.store, &self.pool, tx, self.prevout_enabled)
    }

    /// Refreshes the mirror of the daemon's pool.
    pub fn refresh_pool(&mut self, ids: &Vec<Hash256>, fetched: Vec<Transaction>)
        requires
            old(self).wf(),
        ensures
            final(self).wf(),
            final(self).pool@ == refreshed(old(self).pool@, ids@, tx_models(fetched@)),
            !final(self).pool.stale(),
            final(self).store@ == old(self).store@,
            final(self).tracker == old(self).tracker,
            final(self).cache == old(self).cache,
            final(self).counters == old(self).counters,
            final(self).prevout_enabled == old(self).prevout_enabled,
    {
        self.pool.refresh(ids, fetched);
    }

    /// Starts a round of following the daemon with its best block's hash.
    pub fn observe(&mut self, best: Hash256) -> (step: Step)
        requires
            old(self).wf(),
        ensures
            final(self).wf(),
            observed(old(self).tracker, best, final(self).tracker, step),
            final(self).store == old(self).store,
            final(self).pool == old(self).pool,
            final(self).cache == old(self).cache,
            final(self).counters == old(self).counters,
            final(self).prevout_enabled == old(self).prevout_enabled,
    {
        self.tracker.observe(best)
    }

    /// Takes a block that the tracker asked for.
    pub fn offer(&mut self, block: Block) -> (step: Step)
        requires
            old(self).wf(),
        ensures
            final(self).wf(),
            offered(old(self).tracker, block, final(self).tracker, step),
            final(self).store == old(self).store,
            final(self).pool == old(self).pool,
            final(self).cache == old(self).cache,
            final(self).counters == old(self).counters,
            final(self).prevout_enabled == old(self).prevout_enabled,
    {
        self.tracker.offer(block)
    }

    /// Brings the store, the chain and the pool in step with the branch
    /// that was fetched, if the way to it is known; else nothing changes.
    /// Returns how many blocks were taken back and how many indexed.
    pub fn apply(&mut self) -> (r: Option<(usize, usize)>)
        requires
            old(self).wf(),
        ensures
            final(self).wf(),
            final(self).prevout_enabled == old(self).prevout_enabled,
            match r {
                None => old(self).tracker.fork() is None && final(self).store@ == old(self).store@
                    && final(self).pool@ == old(self).pool@ && final(self).tracker.chain() == old(
                    self,
                ).tracker.chain() && final(self).counters == old(self).counters,
                Some((back, on)) => {
                    &&& old(self).tracker.fork() matches Some(keep)
                    &&& back == old(self).tracker.chain().len() - keep
                    &&& on == old(self).tracker.fetched().len()
                    &&& final(self).store@ == reorganized(
                        old(self).store@,
                        old(self).tracker.chain(),
                        keep as nat,
                        chain_order(block_models(old(self).tracker.fetched())),
                    )
                    &&& final(self).tracker.chain() == old(self).tracker.chain().take(keep as int)
                        + headers_of(chain_order(block_models(old(self).tracker.fetched())))
                    &&& final(self).pool@ == confirm_all(
                        old(self).pool@,
                        chain_order(block_models(old(self).tracker.fetched())),
                    )
                    &&& (on > 0 ==> final(self).pool.stale())
                    &&& final(self).counters == (Counters {
                        batches_committed: counted(
                            counted(old(self).counters.batches_committed, back as nat),
                            on as nat,
                        ),
                        reorg_depth: if back > old(self).counters.reorg_depth {
                            back as u64
                        } else {
                            old(self).counters.reorg_depth
                        },
                        ..old(self).counters
                    })
                },
            },
    {
        if !self.tracker.is_ready() {
            return None;
        }
        let (back, on) = self.tracker.apply(&mut self.store, &mut self.pool);
        self.counters.batches_committed = count_up(
            count_up(self.counters.batches_committed, back),
            on,
        );
        if back as u64 > self.counters.reorg_depth {
            self.counters.reorg_depth = back as u64;
        }
        Some((back, on))
    }
}

} // verus!
