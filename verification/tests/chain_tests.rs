use chain_index::chain::{connect, retract_tip, ChainTip, Header, Step, Tracker};
use chain_index::hash::Hash256;
use chain_index::mempool::Mempool;
use chain_index::model::{Block, OutPoint, Transaction, TxOut};
use chain_index::query::{history, utxos, HistoryEntry, Utxo};
use chain_index::rows::{Key, Row};
use chain_index::store::Store;

fn zero() -> Hash256 {
    Hash256 { w0: 0, w1: 0, w2: 0, w3: 0 }
}

fn bh(n: u64) -> Hash256 {
    Hash256 { w0: 1, w1: 0, w2: 0, w3: n }
}

fn tx_id(n: u64) -> Hash256 {
    Hash256 { w0: 2, w1: 0, w2: 0, w3: n }
}

fn fp(n: u64) -> Hash256 {
    Hash256 { w0: 3, w1: 0, w2: 0, w3: n }
}

fn paying(hash: u64, prev: Hash256, txid: u64, to: u64, value: u64) -> Block {
    Block {
        hash: bh(hash),
        prev,
        txs: vec![Transaction {
            txid: tx_id(txid),
            inputs: vec![],
            outputs: vec![TxOut { value, fingerprint: fp(to) }],
        }],
    }
}

fn follow(tracker: &mut Tracker, store: &mut Store, pool: &mut Mempool, blocks: &[Block]) -> (usize, usize) {
    let best = blocks.last().unwrap().hash;
    let mut step = tracker.observe(best);
    loop {
        match step {
            Step::Fetch(hash) => {
                let block = blocks.iter().find(|b| b.hash == hash).expect("unknown block").clone();
                step = tracker.offer(block);
            }
            Step::Apply => return tracker.apply(store, pool),
            other => panic!("unexpected step {:?}", other),
        }
    }
}

fn three_blocks() -> Vec<Block> {
    vec![
        paying(0, zero(), 100, 50, 1),
        paying(1, bh(0), 101, 51, 2),
        paying(2, bh(1), 102, 60, 5),
    ]
}

#[test]
fn chain_is_followed_from_the_first_block() {
    let mut tracker = Tracker::new(100);
    let mut store = Store::new();
    let mut pool = Mempool::new();
    assert_eq!(tracker.tip(), None);
    let r = follow(&mut tracker, &mut store, &mut pool, &three_blocks());
    assert_eq!(r, (0, 3));
    assert_eq!(tracker.height(), 3);
    assert_eq!(tracker.tip(), Some(ChainTip { hash: bh(2), height: 2 }));
    assert_eq!(store.get(&Key::Tip), Some(&Row::Tip { hash: bh(2), height: 2 }));
}

#[test]
fn reorg_replaces_the_orphaned_block() {
    let mut tracker = Tracker::new(100);
    let mut store = Store::new();
    let mut pool = Mempool::new();
    let blocks = three_blocks();
    follow(&mut tracker, &mut store, &mut pool, &blocks);

    let h = history(&store, &pool, &fp(60));
    assert_eq!(
        h.entries,
        vec![HistoryEntry { fingerprint: fp(60), txid: tx_id(102), height: Some(2), position: 0 }]
    );
    assert_eq!(h.confirmed, 1);
    assert_eq!(
        utxos(&store, &pool, &fp(60)),
        vec![Utxo { outpoint: OutPoint { txid: tx_id(102), vout: 0 }, value: 5, height: Some(2) }]
    );

    let replacement = paying(22, bh(1), 122, 61, 6);
    let r = follow(&mut tracker, &mut store, &mut pool, &[replacement]);
    assert_eq!(r, (1, 1));
    assert_eq!(tracker.tip(), Some(ChainTip { hash: bh(22), height: 2 }));
    assert_eq!(store.get(&Key::Tip), Some(&Row::Tip { hash: bh(22), height: 2 }));

    let h = history(&store, &pool, &fp(60));
    assert_eq!(h.entries, vec![]);
    assert_eq!(h.confirmed, 0);
    assert_eq!(utxos(&store, &pool, &fp(60)), vec![]);
    assert_eq!(
        utxos(&store, &pool, &fp(61)),
        vec![Utxo { outpoint: OutPoint { txid: tx_id(122), vout: 0 }, value: 6, height: Some(2) }]
    );
    assert!(!store.contains(&Key::Block(bh(2))));
    assert!(!store.contains(&Key::Tx(tx_id(102))));
    assert!(store.contains(&Key::Block(bh(1))));
    assert!(store.contains(&Key::Tx(tx_id(101))));
}

#[test]
fn deeper_reorg_keeps_only_the_new_branch_above_the_fork() {
    let mut tracker = Tracker::new(100);
    let mut store = Store::new();
    let mut pool = Mempool::new();
    let mut blocks = three_blocks();
    blocks.push(paying(3, bh(2), 103, 60, 9));
    follow(&mut tracker, &mut store, &mut pool, &blocks);
    assert_eq!(tracker.height(), 4);

    let branch = vec![
        paying(11, bh(0), 111, 70, 1),
        paying(12, bh(11), 112, 70, 2),
        paying(13, bh(12), 113, 70, 3),
        paying(14, bh(13), 114, 70, 4),
    ];
    let r = follow(&mut tracker, &mut store, &mut pool, &branch);
    assert_eq!(r, (3, 4));
    assert_eq!(tracker.tip(), Some(ChainTip { hash: bh(14), height: 4 }));
    for i in 0..store.len() {
        let row = store.row_at(i);
        if let Some(height) = row.block_height() {
            if height >= 1 {
                let from_branch = match row {
                    Row::Block { hash, .. } => branch.iter().any(|b| b.hash == *hash),
                    Row::Tx { txid, .. } => branch.iter().any(|b| b.txs[0].txid == *txid),
                    Row::Funding { fingerprint, .. } => *fingerprint == fp(70),
                    _ => false,
                };
                assert!(from_branch, "row {:?} is not of the new branch", row);
            }
        }
    }
    assert_eq!(history(&store, &pool, &fp(60)).entries, vec![]);
    assert_eq!(history(&store, &pool, &fp(51)).entries, vec![]);
    assert_eq!(history(&store, &pool, &fp(50)).entries.len(), 1);
    let h = history(&store, &pool, &fp(70));
    let heights: Vec<Option<u32>> = h.entries.iter().map(|e| e.height).collect();
    assert_eq!(heights, vec![Some(1), Some(2), Some(3), Some(4)]);
}

#[test]
fn a_new_block_on_the_tip_extends_the_chain() {
    let mut tracker = Tracker::new(100);
    let mut store = Store::new();
    let mut pool = Mempool::new();
    follow(&mut tracker, &mut store, &mut pool, &three_blocks());
    let next = paying(3, bh(2), 103, 60, 4);
    assert_eq!(tracker.observe(bh(3)), Step::Fetch(bh(3)));
    assert_eq!(tracker.offer(next), Step::Apply);
    assert_eq!(tracker.apply(&mut store, &mut pool), (0, 1));
    assert_eq!(tracker.tip(), Some(ChainTip { hash: bh(3), height: 3 }));
    assert_eq!(history(&store, &pool, &fp(60)).entries.len(), 2);
}

#[test]
fn the_local_tip_as_best_block_means_idle() {
    let mut tracker = Tracker::new(100);
    let mut store = Store::new();
    let mut pool = Mempool::new();
    follow(&mut tracker, &mut store, &mut pool, &three_blocks());
    let rows = store.len();
    assert_eq!(tracker.observe(bh(2)), Step::Idle);
    assert_eq!(store.len(), rows);
    assert_eq!(tracker.height(), 3);
}

#[test]
fn a_best_block_below_the_tip_cuts_the_chain_back() {
    let mut tracker = Tracker::new(100);
    let mut store = Store::new();
    let mut pool = Mempool::new();
    follow(&mut tracker, &mut store, &mut pool, &three_blocks());
    assert_eq!(tracker.observe(bh(0)), Step::Apply);
    assert_eq!(tracker.apply(&mut store, &mut pool), (2, 0));
    assert_eq!(tracker.tip(), Some(ChainTip { hash: bh(0), height: 0 }));
    assert_eq!(store.get(&Key::Tip), Some(&Row::Tip { hash: bh(0), height: 0 }));
    assert!(!store.contains(&Key::Block(bh(1))));
}

#[test]
fn a_block_that_was_not_asked_for_ends_the_round() {
    let mut tracker = Tracker::new(100);
    let mut store = Store::new();
    let mut pool = Mempool::new();
    follow(&mut tracker, &mut store, &mut pool, &three_blocks());
    assert_eq!(tracker.observe(bh(3)), Step::Fetch(bh(3)));
    assert_eq!(tracker.offer(paying(4, bh(2), 104, 60, 1)), Step::Retry);
    assert_eq!(tracker.offer(paying(3, bh(2), 103, 60, 1)), Step::Retry);
    assert_eq!(tracker.height(), 3);
    assert_eq!(tracker.observe(bh(3)), Step::Fetch(bh(3)));
    assert_eq!(tracker.offer(paying(3, bh(2), 103, 60, 1)), Step::Apply);
}

#[test]
fn a_branch_that_forks_too_far_back_is_not_followed() {
    let mut tracker = Tracker::new(2);
    let mut store = Store::new();
    let mut pool = Mempool::new();
    let mut headers: Vec<Header> = Vec::new();
    for block in three_blocks() {
        connect(&mut headers, &mut store, &mut pool, &block);
    }
    assert_eq!(headers.len(), 3);
    let mut deep = Tracker::new(2);
    assert_eq!(deep.observe(bh(43)), Step::Fetch(bh(43)));
    assert_eq!(deep.offer(paying(43, bh(42), 143, 1, 1)), Step::Fetch(bh(42)));
    assert_eq!(deep.offer(paying(42, bh(41), 142, 1, 1)), Step::TooDeep);
    assert_eq!(deep.offer(paying(41, bh(40), 141, 1, 1)), Step::Retry);
    assert_eq!(tracker.find_local(&bh(0)), None);
}

#[test]
fn lookup_in_the_local_chain_is_bounded_by_the_depth() {
    let mut tracker = Tracker::new(1);
    let mut store = Store::new();
    let mut pool = Mempool::new();
    let blocks = three_blocks();
    assert_eq!(tracker.observe(bh(0)), Step::Fetch(bh(0)));
    assert_eq!(tracker.offer(blocks[0].clone()), Step::Apply);
    tracker.apply(&mut store, &mut pool);
    for b in &blocks[1..] {
        assert_eq!(tracker.observe(b.hash), Step::Fetch(b.hash));
        assert_eq!(tracker.offer(b.clone()), Step::Apply);
        assert_eq!(tracker.apply(&mut store, &mut pool), (0, 1));
    }
    assert_eq!(tracker.find_local(&bh(2)), Some(2));
    assert_eq!(tracker.find_local(&bh(1)), Some(1));
    assert_eq!(tracker.find_local(&bh(0)), None);
    assert_eq!(tracker.find_local(&bh(9)), None);
}

#[test]
fn retracting_the_tip_undoes_connecting_it() {
    let mut store = Store::new();
    let mut pool = Mempool::new();
    let mut headers: Vec<Header> = Vec::new();
    let blocks = three_blocks();
    connect(&mut headers, &mut store, &mut pool, &blocks[0]);
    connect(&mut headers, &mut store, &mut pool, &blocks[1]);
    let before: Vec<Row> = (0..store.len()).map(|i| store.row_at(i).clone()).collect();
    connect(&mut headers, &mut store, &mut pool, &blocks[2]);
    assert_eq!(headers.len(), 3);
    retract_tip(&mut headers, &mut store);
    assert_eq!(headers, vec![Header { hash: bh(0), prev: zero() }, Header { hash: bh(1), prev: bh(0) }]);
    let after: Vec<Row> = (0..store.len()).map(|i| store.row_at(i).clone()).collect();
    assert_eq!(after, before);
}

#[test]
fn a_confirmed_transaction_leaves_the_pool_with_the_tip_advance() {
    let mut tracker = Tracker::new(100);
    let mut store = Store::new();
    let mut pool = Mempool::new();
    follow(&mut tracker, &mut store, &mut pool, &three_blocks());
    pool.mark_fresh();
    let pending = Transaction {
        txid: tx_id(500),
        inputs: vec![OutPoint { txid: tx_id(102), vout: 0 }],
        outputs: vec![TxOut { value: 4, fingerprint: fp(80) }],
    };
    let other = Transaction { txid: tx_id(501), inputs: vec![], outputs: vec![TxOut { value: 1, fingerprint: fp(80) }] };
    assert!(pool.accept(pending.clone()));
    assert!(pool.accept(other.clone()));
    assert!(!pool.is_stale());
    let h = history(&store, &pool, &fp(80));
    assert_eq!(h.confirmed, 0);
    assert_eq!(h.entries.len(), 2);

    let block = Block { hash: bh(3), prev: bh(2), txs: vec![pending.clone()] };
    assert_eq!(tracker.observe(bh(3)), Step::Fetch(bh(3)));
    assert_eq!(tracker.offer(block), Step::Apply);
    tracker.apply(&mut store, &mut pool);
    assert!(!pool.contains(&tx_id(500)));
    assert!(pool.contains(&tx_id(501)));
    assert!(pool.is_stale());
    let h = history(&store, &pool, &fp(80));
    assert_eq!(
        h.entries,
        vec![
            HistoryEntry { fingerprint: fp(80), txid: tx_id(500), height: Some(3), position: 0 },
            HistoryEntry { fingerprint: fp(80), txid: tx_id(501), height: None, position: 0 },
        ]
    );
    assert_eq!(h.confirmed, 1);
    assert_eq!(utxos(&store, &pool, &fp(60)), vec![]);
}
