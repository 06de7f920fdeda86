use chain_index::hash::Hash256;
use chain_index::index::{index_block, retraction_batch};
use chain_index::model::{Block, OutPoint, Transaction, TxOut};
use chain_index::rows::{Key, Row};
use chain_index::store::Store;

fn nid(n: u64) -> Hash256 {
    Hash256 { w0: 9, w1: 0, w2: 0, w3: n }
}

fn sample_block() -> Block {
    Block {
        hash: nid(10),
        prev: nid(9),
        txs: vec![
            Transaction {
                txid: nid(20),
                inputs: vec![],
                outputs: vec![TxOut { value: 50, fingerprint: nid(30) }],
            },
            Transaction {
                txid: nid(21),
                inputs: vec![OutPoint { txid: nid(5), vout: 1 }],
                outputs: vec![
                    TxOut { value: 7, fingerprint: nid(31) },
                    TxOut { value: 8, fingerprint: nid(30) },
                ],
            },
        ],
    }
}

fn all_rows(store: &Store) -> Vec<Row> {
    let mut rows = Vec::new();
    for i in 0..store.len() {
        rows.push(store.row_at(i).clone());
    }
    rows
}

#[test]
fn a_block_gives_its_rows_in_block_order() {
    let block = sample_block();
    let batch = index_block(&block, 4);
    assert!(batch.deletes.is_empty());
    assert_eq!(
        batch.puts,
        vec![
            Row::Block { hash: nid(10), height: 4, prev: nid(9) },
            Row::Tx { txid: nid(20), height: 4, position: 0, body: block.txs[0].clone() },
            Row::Funding { fingerprint: nid(30), height: 4, position: 0, vout: 0, txid: nid(20), value: 50 },
            Row::Tx { txid: nid(21), height: 4, position: 1, body: block.txs[1].clone() },
            Row::Funding { fingerprint: nid(31), height: 4, position: 1, vout: 0, txid: nid(21), value: 7 },
            Row::Funding { fingerprint: nid(30), height: 4, position: 1, vout: 1, txid: nid(21), value: 8 },
            Row::Spend { txid: nid(5), vout: 1, height: 4, position: 1, spender: nid(21) },
            Row::Tip { hash: nid(10), height: 4 },
        ]
    );
}

#[test]
fn an_empty_block_gives_its_own_row_and_the_tip() {
    let block = Block { hash: nid(1), prev: nid(0), txs: vec![] };
    let batch = index_block(&block, 0);
    assert_eq!(
        batch.puts,
        vec![Row::Block { hash: nid(1), height: 0, prev: nid(0) }, Row::Tip { hash: nid(1), height: 0 }]
    );
}

#[test]
fn indexing_a_block_again_changes_nothing() {
    let block = sample_block();
    let mut store = Store::new();
    store.write(index_block(&block, 4));
    let once = all_rows(&store);
    assert_eq!(once.len(), 8);
    store.write(index_block(&block, 4));
    assert_eq!(all_rows(&store), once);
    store.write(index_block(&block, 4));
    assert_eq!(all_rows(&store), once);
}

#[test]
fn retraction_removes_the_rows_of_one_height_only() {
    let mut store = Store::new();
    let first = Block {
        hash: nid(9),
        prev: nid(8),
        txs: vec![Transaction {
            txid: nid(5),
            inputs: vec![],
            outputs: vec![TxOut { value: 1, fingerprint: nid(30) }, TxOut { value: 2, fingerprint: nid(30) }],
        }],
    };
    store.write(index_block(&first, 3));
    let before = all_rows(&store);
    store.write(index_block(&sample_block(), 4));
    assert_eq!(store.len(), before.len() + 7);
    let batch = retraction_batch(&store, 4, Some((nid(9), 3)));
    store.write(batch);
    assert_eq!(all_rows(&store), before);
}

#[test]
fn retraction_to_nothing_removes_the_tip() {
    let mut store = Store::new();
    store.write(index_block(&sample_block(), 0));
    let batch = retraction_batch(&store, 0, None);
    store.write(batch);
    assert_eq!(store.len(), 0);
    assert!(!store.contains(&Key::Tip));
}

#[test]
fn retraction_of_an_absent_height_moves_only_the_tip() {
    let mut store = Store::new();
    store.write(index_block(&sample_block(), 4));
    let batch = retraction_batch(&store, 9, Some((nid(77), 1)));
    assert_eq!(batch.deletes, vec![]);
    store.write(batch);
    assert_eq!(store.len(), 8);
    assert_eq!(store.get(&Key::Tip), Some(&Row::Tip { hash: nid(77), height: 1 }));
}
