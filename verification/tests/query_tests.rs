use chain_index::cache::TxCache;
use chain_index::chain::{connect, Header};
use chain_index::hash::Hash256;
use chain_index::mempool::Mempool;
use chain_index::model::{Block, OutPoint, Transaction, TxOut};
use chain_index::query::{
    fetch_tx, history, is_spent, outputs_to, prevouts, transaction, utxos, HistoryEntry, Utxo,
};
use chain_index::store::Store;

fn qb(n: u64) -> Hash256 {
    Hash256 { w0: 1, w1: 1, w2: 0, w3: n }
}

fn qt(n: u64) -> Hash256 {
    Hash256 { w0: 2, w1: 1, w2: 0, w3: n }
}

fn qf(n: u64) -> Hash256 {
    Hash256 { w0: 3, w1: 1, w2: 0, w3: n }
}

fn out(value: u64, to: u64) -> TxOut {
    TxOut { value, fingerprint: qf(to) }
}

fn spend(txid: u64, vout: u32) -> OutPoint {
    OutPoint { txid: qt(txid), vout }
}

fn entry(to: u64, txid: u64, height: Option<u32>, position: u32) -> HistoryEntry {
    HistoryEntry { fingerprint: qf(to), txid: qt(txid), height, position }
}

/// Heights 0..=3. Fingerprint 1 is paid at heights 0, 1 (twice in one
/// transaction) and 3; its first output is spent at height 2.
fn small_chain() -> (Store, Mempool) {
    let mut store = Store::new();
    let mut pool = Mempool::new();
    let mut headers: Vec<Header> = Vec::new();
    let blocks = vec![
        Block {
            hash: qb(0),
            prev: Hash256::zero(),
            txs: vec![Transaction { txid: qt(10), inputs: vec![], outputs: vec![out(50, 1)] }],
        },
        Block {
            hash: qb(1),
            prev: qb(0),
            txs: vec![
                Transaction { txid: qt(11), inputs: vec![], outputs: vec![out(50, 2)] },
                Transaction { txid: qt(12), inputs: vec![spend(11, 0)], outputs: vec![out(20, 1), out(30, 1)] },
            ],
        },
        Block {
            hash: qb(2),
            prev: qb(1),
            txs: vec![
                Transaction { txid: qt(13), inputs: vec![], outputs: vec![out(50, 3)] },
                Transaction { txid: qt(14), inputs: vec![spend(10, 0)], outputs: vec![out(49, 4)] },
            ],
        },
        Block {
            hash: qb(3),
            prev: qb(2),
            txs: vec![Transaction { txid: qt(15), inputs: vec![spend(13, 0)], outputs: vec![out(5, 1)] }],
        },
    ];
    for block in &blocks {
        connect(&mut headers, &mut store, &mut pool, block);
    }
    pool.mark_fresh();
    (store, pool)
}

#[test]
fn history_is_in_chain_order_with_each_transaction_once() {
    let (store, pool) = small_chain();
    let h = history(&store, &pool, &qf(1));
    assert_eq!(
        h.entries,
        vec![
            entry(1, 10, Some(0), 0),
            entry(1, 12, Some(1), 1),
            entry(1, 14, Some(2), 1),
            entry(1, 15, Some(3), 0),
        ]
    );
    assert_eq!(h.confirmed, 4);
}

#[test]
fn history_of_an_unknown_fingerprint_is_empty() {
    let (store, pool) = small_chain();
    let h = history(&store, &pool, &qf(99));
    assert_eq!(h.entries, vec![]);
    assert_eq!(h.confirmed, 0);
    assert_eq!(utxos(&store, &pool, &qf(99)), vec![]);
    let empty = Store::new();
    assert_eq!(history(&empty, &Mempool::new(), &qf(1)).entries, vec![]);
}

#[test]
fn history_shows_the_spender_of_a_fingerprints_output() {
    let (store, pool) = small_chain();
    let h = history(&store, &pool, &qf(2));
    assert_eq!(h.entries, vec![entry(2, 11, Some(1), 0), entry(2, 12, Some(1), 1)]);
    let h = history(&store, &pool, &qf(3));
    assert_eq!(h.entries, vec![entry(3, 13, Some(2), 0), entry(3, 15, Some(3), 0)]);
}

#[test]
fn unconfirmed_entries_follow_the_confirmed_ones() {
    let (store, mut pool) = small_chain();
    pool.accept(Transaction { txid: qt(30), inputs: vec![spend(12, 1)], outputs: vec![out(29, 5)] });
    pool.accept(Transaction { txid: qt(31), inputs: vec![], outputs: vec![out(1, 6)] });
    pool.accept(Transaction { txid: qt(32), inputs: vec![spend(31, 0)], outputs: vec![out(1, 1)] });
    let h = history(&store, &pool, &qf(1));
    assert_eq!(h.confirmed, 4);
    assert_eq!(
        h.entries[4..].to_vec(),
        vec![entry(1, 30, None, 0), entry(1, 32, None, 0)]
    );
    for pair in h.entries.windows(2) {
        let (a, b) = (pair[0], pair[1]);
        match (a.height, b.height) {
            (Some(x), Some(y)) => assert!((x, a.position) <= (y, b.position)),
            (None, Some(_)) => panic!("unconfirmed entry before a confirmed one"),
            _ => {}
        }
    }
    let h = history(&store, &pool, &qf(6));
    assert_eq!(h.entries, vec![entry(6, 31, None, 0), entry(6, 32, None, 0)]);
    assert_eq!(h.confirmed, 0);
}

#[test]
fn utxos_are_the_outputs_less_the_spent_ones() {
    let (store, pool) = small_chain();
    let all = outputs_to(&store, &pool, &qf(1));
    assert_eq!(
        all,
        vec![
            Utxo { outpoint: spend(10, 0), value: 50, height: Some(0) },
            Utxo { outpoint: spend(12, 0), value: 20, height: Some(1) },
            Utxo { outpoint: spend(12, 1), value: 30, height: Some(1) },
            Utxo { outpoint: spend(15, 0), value: 5, height: Some(3) },
        ]
    );
    let unspent = utxos(&store, &pool, &qf(1));
    assert_eq!(unspent, all[1..].to_vec());
    let expected: Vec<Utxo> = all.iter().filter(|u| !is_spent(&store, &pool, u)).cloned().collect();
    assert_eq!(unspent, expected);
    assert!(is_spent(&store, &pool, &all[0]));
    assert_eq!(utxos(&store, &pool, &qf(3)), vec![]);
    assert_eq!(utxos(&store, &pool, &qf(4)), vec![Utxo { outpoint: spend(14, 0), value: 49, height: Some(2) }]);
}

#[test]
fn unconfirmed_spends_and_outputs_count_for_utxos() {
    let (store, mut pool) = small_chain();
    pool.accept(Transaction { txid: qt(30), inputs: vec![spend(12, 1)], outputs: vec![out(29, 1), out(1, 7)] });
    let unspent = utxos(&store, &pool, &qf(1));
    assert_eq!(
        unspent,
        vec![
            Utxo { outpoint: spend(12, 0), value: 20, height: Some(1) },
            Utxo { outpoint: spend(15, 0), value: 5, height: Some(3) },
            Utxo { outpoint: spend(30, 0), value: 29, height: None },
        ]
    );
    pool.accept(Transaction { txid: qt(33), inputs: vec![spend(30, 0)], outputs: vec![] });
    assert_eq!(utxos(&store, &pool, &qf(1)).len(), 2);
    assert_eq!(utxos(&store, &pool, &qf(7)), vec![Utxo { outpoint: spend(30, 1), value: 1, height: None }]);
}

#[test]
fn a_transaction_both_confirmed_and_in_the_pool_counts_once() {
    let (store, mut pool) = small_chain();
    pool.accept(Transaction { txid: qt(15), inputs: vec![spend(13, 0)], outputs: vec![out(5, 1)] });
    let h = history(&store, &pool, &qf(1));
    assert_eq!(h.confirmed, 4);
    assert_eq!(h.entries.len(), 4);
    assert_eq!(utxos(&store, &pool, &qf(1)).len(), 3);
    assert_eq!(outputs_to(&store, &pool, &qf(1)).len(), 4);
}

#[test]
fn transaction_lookup_fills_the_cache() {
    let (store, mut pool) = small_chain();
    let unconfirmed = Transaction { txid: qt(40), inputs: vec![], outputs: vec![out(3, 8)] };
    pool.accept(unconfirmed.clone());
    let mut cache = TxCache::new(2);
    let confirmed = transaction(&mut cache, &store, &pool, &qt(12)).unwrap();
    assert_eq!(confirmed.txid, qt(12));
    assert_eq!(confirmed.outputs, vec![out(20, 1), out(30, 1)]);
    assert_eq!(cache.len(), 1);
    assert_eq!(transaction(&mut cache, &store, &pool, &qt(40)), Some(unconfirmed.clone()));
    assert_eq!(cache.len(), 2);
    assert_eq!(transaction(&mut cache, &store, &pool, &qt(999)), None);
    assert_eq!(cache.len(), 2);

    let empty_store = Store::new();
    let empty_pool = Mempool::new();
    assert_eq!(transaction(&mut cache, &empty_store, &empty_pool, &qt(12)), Some(confirmed));
    assert_eq!(transaction(&mut cache, &empty_store, &empty_pool, &qt(40)), Some(unconfirmed));
    assert_eq!(transaction(&mut cache, &store, &pool, &qt(10)).map(|t| t.txid), Some(qt(10)));
    assert_eq!(transaction(&mut cache, &empty_store, &empty_pool, &qt(12)), None);
    assert_eq!(cache.len(), 2);
}

#[test]
fn the_pool_is_asked_before_the_store() {
    let (store, mut pool) = small_chain();
    let shadow = Transaction { txid: qt(12), inputs: vec![], outputs: vec![out(1, 9)] };
    pool.accept(shadow.clone());
    assert_eq!(fetch_tx(&store, &pool, &qt(12)), Some(shadow));
    assert_eq!(fetch_tx(&store, &pool, &qt(11)).map(|t| t.outputs), Some(vec![out(50, 2)]));
    assert_eq!(fetch_tx(&store, &pool, &qt(77)), None);
}

#[test]
fn prevouts_are_resolved_only_when_enabled() {
    let (store, mut pool) = small_chain();
    pool.accept(Transaction { txid: qt(40), inputs: vec![], outputs: vec![out(3, 8)] });
    let tx = Transaction {
        txid: qt(41),
        inputs: vec![spend(12, 1), spend(40, 0), spend(12, 2), spend(500, 0)],
        outputs: vec![],
    };
    assert_eq!(
        prevouts(&store, &pool, &tx, true),
        vec![Some(out(30, 1)), Some(out(3, 8)), None, None]
    );
    assert_eq!(prevouts(&store, &pool, &tx, false), vec![None, None, None, None]);
    let coinbase = Transaction { txid: qt(42), inputs: vec![], outputs: vec![] };
    assert_eq!(prevouts(&store, &pool, &coinbase, true), vec![]);
}

#[test]
fn transaction_predicates() {
    let tx = Transaction { txid: qt(1), inputs: vec![spend(5, 2)], outputs: vec![out(1, 1), out(2, 2)] };
    assert!(tx.pays(&qf(2)));
    assert!(!tx.pays(&qf(3)));
    assert!(tx.consumes(&spend(5, 2)));
    assert!(!tx.consumes(&spend(5, 1)));
    assert_eq!(tx.duplicate(), tx);
    let block = Block { hash: qb(1), prev: qb(0), txs: vec![tx] };
    assert!(block.is_indexable());
}
