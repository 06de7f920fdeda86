use chain_index::bulk::{index_chunk, plan_chunks, Writer};
use chain_index::chain::{ChainTip, Step};
use chain_index::daemon::Failure;
use chain_index::engine::{Counters, Engine};
use chain_index::hash::Hash256;
use chain_index::model::{Block, OutPoint, Transaction, TxOut};
use chain_index::query::Utxo;
use chain_index::rows::{Key, Row};
use chain_index::store::Store;

fn eb(n: u64) -> Hash256 {
    Hash256 { w0: 1, w1: 2, w2: 0, w3: n }
}

fn et(n: u64) -> Hash256 {
    Hash256 { w0: 2, w1: 2, w2: 0, w3: n }
}

fn ef(n: u64) -> Hash256 {
    Hash256 { w0: 3, w1: 2, w2: 0, w3: n }
}

fn eblock(hash: u64, prev: Hash256, txid: u64, to: u64, value: u64) -> Block {
    Block {
        hash: eb(hash),
        prev,
        txs: vec![Transaction {
            txid: et(txid),
            inputs: vec![],
            outputs: vec![TxOut { value, fingerprint: ef(to) }],
        }],
    }
}

fn feed(engine: &mut Engine, blocks: &[Block]) -> (usize, usize) {
    let mut step = engine.observe(blocks.last().unwrap().hash);
    loop {
        match step {
            Step::Fetch(hash) => {
                let block = blocks.iter().find(|b| b.hash == hash).expect("unknown block").clone();
                step = engine.offer(block);
            }
            Step::Apply => return engine.apply().expect("nothing to apply"),
            other => panic!("unexpected step {:?}", other),
        }
    }
}

fn use_bulk_store(check: impl FnOnce(Store)) {
    let blocks = chain_of_three();
    let chunks = plan_chunks(blocks.len() as u64, 2);
    let mut store = Store::new();
    let mut writer = Writer::new(chunks.len());
    for (n, chunk) in chunks.iter().enumerate().rev() {
        let from = chunk.start as usize;
        let part = blocks[from..from + chunk.len as usize].to_vec();
        assert!(writer.offer(&mut store, n, index_chunk(&part, chunk.start as u32)));
    }
    assert!(writer.finished(chunks.len()));
    check(store);
}

fn chain_of_three() -> Vec<Block> {
    vec![
        eblock(0, Hash256::zero(), 100, 50, 1),
        eblock(1, eb(0), 101, 51, 2),
        eblock(2, eb(1), 102, 60, 5),
    ]
}

#[test]
fn a_new_engine_has_nothing() {
    let mut engine = Engine::new(10, 100, true);
    assert_eq!(engine.tip(), None);
    assert_eq!(engine.pending(), 0);
    assert_eq!(engine.history(&ef(1)).entries, vec![]);
    assert_eq!(engine.utxos(&ef(1)), vec![]);
    assert_eq!(engine.transaction(&et(1)), None);
    assert_eq!(engine.apply(), None);
    assert_eq!(
        engine.counters,
        Counters { batches_committed: 0, reorg_depth: 0, cache_hits: 0, cache_misses: 1 }
    );
}

#[test]
fn three_blocks_then_a_replacement_of_the_last() {
    let mut engine = Engine::new(10, 100, true);
    assert_eq!(feed(&mut engine, &chain_of_three()), (0, 3));
    assert_eq!(engine.tip(), Some(ChainTip { hash: eb(2), height: 2 }));
    let h = engine.history(&ef(60));
    assert_eq!(h.entries.len(), 1);
    assert_eq!(h.entries[0].height, Some(2));
    assert_eq!(h.entries[0].txid, et(102));
    let u = engine.utxos(&ef(60));
    assert_eq!(u.len(), 1);
    assert_eq!(u[0].value, 5);

    assert_eq!(feed(&mut engine, &[eblock(32, eb(1), 132, 61, 5)]), (1, 1));
    assert_eq!(engine.tip(), Some(ChainTip { hash: eb(32), height: 2 }));
    assert_eq!(engine.history(&ef(60)).entries, vec![]);
    assert_eq!(engine.utxos(&ef(60)), vec![]);
    assert_eq!(
        engine.utxos(&ef(61)),
        vec![Utxo { outpoint: OutPoint { txid: et(132), vout: 0 }, value: 5, height: Some(2) }]
    );
    assert_eq!(engine.counters.batches_committed, 5);
    assert_eq!(engine.counters.reorg_depth, 1);
}

#[test]
fn lookups_are_counted_as_hits_and_misses() {
    let mut engine = Engine::new(10, 100, true);
    feed(&mut engine, &chain_of_three());
    assert_eq!(engine.transaction(&et(101)).map(|t| t.txid), Some(et(101)));
    assert_eq!(engine.transaction(&et(101)).map(|t| t.txid), Some(et(101)));
    assert_eq!(engine.transaction(&et(999)), None);
    assert_eq!(engine.counters.cache_hits, 1);
    assert_eq!(engine.counters.cache_misses, 2);
    assert!(engine.cache.contains(&et(101)));
    assert!(!engine.cache.contains(&et(999)));
}

#[test]
fn prevouts_follow_the_engines_setting() {
    let spender = Transaction {
        txid: et(200),
        inputs: vec![OutPoint { txid: et(102), vout: 0 }],
        outputs: vec![],
    };
    let mut on = Engine::new(10, 100, true);
    feed(&mut on, &chain_of_three());
    assert_eq!(on.prevouts(&spender), vec![Some(TxOut { value: 5, fingerprint: ef(60) })]);
    let mut off = Engine::new(10, 100, false);
    feed(&mut off, &chain_of_three());
    assert_eq!(off.prevouts(&spender), vec![None]);
}

#[test]
fn the_pool_is_refreshed_and_emptied_by_confirmation() {
    let mut engine = Engine::new(10, 100, true);
    feed(&mut engine, &chain_of_three());
    let tx = Transaction {
        txid: et(300),
        inputs: vec![OutPoint { txid: et(102), vout: 0 }],
        outputs: vec![TxOut { value: 4, fingerprint: ef(70) }],
    };
    engine.refresh_pool(&vec![et(300)], vec![tx.clone()]);
    assert_eq!(engine.pending(), 1);
    assert!(!engine.pool.is_stale());
    assert_eq!(engine.utxos(&ef(60)), vec![]);
    assert_eq!(engine.history(&ef(60)).entries.len(), 2);
    let block = Block { hash: eb(3), prev: eb(2), txs: vec![tx] };
    assert_eq!(feed(&mut engine, &[block]), (0, 1));
    assert_eq!(engine.pending(), 0);
    assert!(engine.pool.is_stale());
    let h = engine.history(&ef(60));
    assert_eq!(h.confirmed, 2);
    assert_eq!(h.entries.len(), 2);
}

#[test]
fn the_deepest_reorganisation_is_remembered() {
    let mut engine = Engine::new(0, 100, true);
    feed(&mut engine, &chain_of_three());
    let branch = vec![eblock(41, eb(0), 141, 1, 1), eblock(42, eb(41), 142, 1, 1), eblock(43, eb(42), 143, 1, 1)];
    assert_eq!(feed(&mut engine, &branch), (2, 3));
    assert_eq!(feed(&mut engine, &[eblock(53, eb(42), 153, 1, 1)]), (1, 1));
    assert_eq!(engine.counters.reorg_depth, 2);
    assert_eq!(engine.counters.batches_committed, 3 + 5 + 2);
    assert_eq!(engine.transaction(&et(153)).map(|t| t.txid), Some(et(153)));
    assert_eq!(engine.cache.len(), 0);
}

#[test]
fn an_engine_is_restored_from_a_store_indexed_in_bulk() {
    use_bulk_store(|store| {
        let mut engine = Engine::restore(store, 10, 100, true).expect("store holds a chain");
        assert_eq!(engine.tip(), Some(ChainTip { hash: eb(2), height: 2 }));
        assert_eq!(engine.tracker.height(), 3);
        assert_eq!(engine.utxos(&ef(60)).len(), 1);
        assert_eq!(engine.observe(eb(2)), Step::Idle);
        assert_eq!(feed(&mut engine, &[eblock(3, eb(2), 103, 60, 1)]), (0, 1));
        assert_eq!(feed(&mut engine, &[eblock(13, eb(1), 113, 61, 1)]), (2, 1));
        assert_eq!(engine.tip(), Some(ChainTip { hash: eb(13), height: 2 }));
    });
}

#[test]
fn an_empty_store_restores_to_an_empty_chain() {
    let engine = Engine::restore(Store::new(), 10, 100, true).expect("empty store");
    assert_eq!(engine.tip(), None);
}

#[test]
fn a_store_without_a_chain_is_a_store_failure() {
    use_bulk_store(|mut store| {
        store.delete(&Key::Block(eb(1)));
        assert_eq!(Engine::restore(store, 10, 100, true).err(), Some(Failure::Store));
    });
    use_bulk_store(|mut store| {
        store.put(Row::Block { hash: eb(9), height: 3, prev: eb(2) });
        assert_eq!(Engine::restore(store, 10, 100, true).err(), Some(Failure::Store));
    });
    use_bulk_store(|mut store| {
        store.put(Row::Block { hash: eb(1), height: 2, prev: eb(0) });
        assert_eq!(Engine::restore(store, 10, 100, true).err(), Some(Failure::Store));
    });
    use_bulk_store(|mut store| {
        store.delete(&Key::Tip);
        assert_eq!(Engine::restore(store, 10, 100, true).err(), Some(Failure::Store));
    });
    use_bulk_store(|mut store| {
        store.put(Row::Tip { hash: eb(2), height: u32::MAX });
        assert_eq!(Engine::restore(store, 10, 100, true).err(), Some(Failure::Store));
    });
}
