use chain_index::bulk::{index_chunk, plan_chunks, should_index_in_bulk, Chunk, Writer};
use chain_index::hash::Hash256;
use chain_index::index::index_block;
use chain_index::model::{Block, Transaction, TxOut};
use chain_index::rows::{Key, Row};
use chain_index::store::Store;

fn bid(n: u64) -> Hash256 {
    Hash256 { w0: 0, w1: 0, w2: 7, w3: n }
}

fn bblock(n: u64) -> Block {
    Block {
        hash: bid(100 + n),
        prev: if n == 0 { Hash256 { w0: 0, w1: 0, w2: 0, w3: 0 } } else { bid(100 + n - 1) },
        txs: vec![Transaction {
            txid: bid(200 + n),
            inputs: vec![],
            outputs: vec![TxOut { value: 50, fingerprint: bid(300 + n) }],
        }],
    }
}

fn tip_height(store: &Store) -> Option<u32> {
    match store.get(&Key::Tip) {
        Some(Row::Tip { height, .. }) => Some(*height),
        _ => None,
    }
}

#[test]
fn chunks_cut_the_range_evenly_with_a_remainder() {
    assert_eq!(
        plan_chunks(250, 100),
        vec![
            Chunk { start: 0, len: 100 },
            Chunk { start: 100, len: 100 },
            Chunk { start: 200, len: 50 }
        ]
    );
}

#[test]
fn chunks_of_an_exact_multiple_are_all_full() {
    assert_eq!(plan_chunks(6, 3), vec![Chunk { start: 0, len: 3 }, Chunk { start: 3, len: 3 }]);
}

#[test]
fn chunks_of_nothing_are_none() {
    assert_eq!(plan_chunks(0, 5), vec![]);
}

#[test]
fn one_chunk_holds_a_short_range() {
    assert_eq!(plan_chunks(3, 100), vec![Chunk { start: 0, len: 3 }]);
    assert_eq!(plan_chunks(1, 1), vec![Chunk { start: 0, len: 1 }]);
}

#[test]
fn a_chunk_batch_is_its_blocks_batches_in_order() {
    let blocks = vec![bblock(4), bblock(5)];
    let batch = index_chunk(&blocks, 4);
    let mut expected = index_block(&blocks[0], 4).puts;
    expected.extend(index_block(&blocks[1], 5).puts);
    assert!(batch.deletes.is_empty());
    assert_eq!(batch.puts, expected);
}

#[test]
fn writer_commits_in_order_of_arrival_when_in_order() {
    let mut store = Store::new();
    let mut writer = Writer::new(4);
    assert!(writer.offer(&mut store, 0, index_chunk(&vec![bblock(0)], 0)));
    assert_eq!(writer.committed(), 1);
    assert_eq!(tip_height(&store), Some(0));
    assert!(writer.offer(&mut store, 1, index_chunk(&vec![bblock(1)], 1)));
    assert_eq!(writer.committed(), 2);
    assert_eq!(writer.backlog(), 0);
    assert_eq!(tip_height(&store), Some(1));
}

#[test]
fn writer_holds_back_a_batch_that_arrives_early() {
    let mut store = Store::new();
    let mut writer = Writer::new(4);
    assert!(writer.offer(&mut store, 2, index_chunk(&vec![bblock(2)], 2)));
    assert!(writer.offer(&mut store, 1, index_chunk(&vec![bblock(1)], 1)));
    assert_eq!(writer.committed(), 0);
    assert_eq!(writer.backlog(), 2);
    assert_eq!(store.len(), 0);
    assert!(writer.offer(&mut store, 0, index_chunk(&vec![bblock(0)], 0)));
    assert_eq!(writer.committed(), 3);
    assert_eq!(writer.backlog(), 0);
    assert_eq!(tip_height(&store), Some(2));
    assert!(store.contains(&Key::Block(bid(100))));
    assert!(store.contains(&Key::Block(bid(101))));
    assert!(store.contains(&Key::Block(bid(102))));
}

#[test]
fn writer_refuses_what_is_written_waiting_or_too_far_ahead() {
    let mut store = Store::new();
    let mut writer = Writer::new(2);
    assert!(writer.accepts(0));
    assert!(writer.accepts(1));
    assert!(!writer.accepts(2));
    assert!(writer.offer(&mut store, 1, index_chunk(&vec![bblock(1)], 1)));
    assert!(!writer.offer(&mut store, 1, index_chunk(&vec![bblock(1)], 1)));
    assert!(!writer.offer(&mut store, 2, index_chunk(&vec![bblock(2)], 2)));
    assert!(writer.offer(&mut store, 0, index_chunk(&vec![bblock(0)], 0)));
    assert_eq!(writer.committed(), 2);
    assert!(!writer.offer(&mut store, 0, index_chunk(&vec![bblock(0)], 0)));
    assert!(!writer.offer(&mut store, usize::MAX, index_chunk(&vec![], 0)));
    assert!(writer.offer(&mut store, 2, index_chunk(&vec![bblock(2)], 2)));
    assert_eq!(writer.committed(), 3);
}

#[test]
fn out_of_order_arrival_gives_the_same_store_as_in_order() {
    let mut a = Store::new();
    let mut wa = Writer::new(8);
    for n in 0..4u64 {
        assert!(wa.offer(&mut a, n as usize, index_chunk(&vec![bblock(n)], n as u32)));
    }
    let mut b = Store::new();
    let mut wb = Writer::new(8);
    for n in [3u64, 1, 0, 2] {
        assert!(wb.offer(&mut b, n as usize, index_chunk(&vec![bblock(n)], n as u32)));
    }
    assert_eq!(a.len(), b.len());
    for i in 0..a.len() {
        assert_eq!(a.row_at(i), b.row_at(i));
    }
}

#[test]
fn a_chunk_size_of_zero_plans_nothing() {
    assert_eq!(plan_chunks(10, 0), vec![]);
    assert_eq!(plan_chunks(0, 0), vec![]);
}

#[test]
fn a_chunk_size_beyond_the_range_gives_one_chunk() {
    assert_eq!(plan_chunks(5, usize::MAX), vec![Chunk { start: 0, len: 5 }]);
    assert_eq!(plan_chunks(0x1_0000_0000, 0x8000_0000).len(), 2);
}

#[test]
fn bulk_indexing_is_for_an_empty_or_far_behind_index() {
    assert!(should_index_in_bulk(0, 1, 10));
    assert!(should_index_in_bulk(0, 500_000, 10));
    assert!(!should_index_in_bulk(0, 0, 10));
    assert!(should_index_in_bulk(100, 111, 10));
    assert!(!should_index_in_bulk(100, 110, 10));
    assert!(!should_index_in_bulk(100, 100, 0));
    assert!(!should_index_in_bulk(100, 90, 0));
    assert!(should_index_in_bulk(1, u64::MAX, u64::MAX - 2));
}
