use chain_index::hash::Hash256;
use chain_index::mempool::{list_holds, Mempool};
use chain_index::model::{Block, Transaction, TxOut};

fn mid(n: u64) -> Hash256 {
    Hash256 { w0: 5, w1: 0, w2: 0, w3: n }
}

fn mtx(n: u64) -> Transaction {
    Transaction { txid: mid(n), inputs: vec![], outputs: vec![TxOut { value: n, fingerprint: mid(900) }] }
}

fn ids_of(pool: &Mempool) -> Vec<Hash256> {
    (0..pool.len()).map(|i| pool.tx_at(i).txid).collect()
}

#[test]
fn a_new_mirror_is_empty_and_stale() {
    let pool = Mempool::new();
    assert_eq!(pool.len(), 0);
    assert!(pool.is_stale());
    assert!(!pool.contains(&mid(1)));
    assert!(pool.get(&mid(1)).is_none());
    assert_eq!(pool.position(&mid(1)), None);
}

#[test]
fn accept_adds_once() {
    let mut pool = Mempool::new();
    assert!(pool.accept(mtx(1)));
    assert!(pool.accept(mtx(2)));
    assert!(!pool.accept(mtx(1)));
    assert_eq!(ids_of(&pool), vec![mid(1), mid(2)]);
    assert_eq!(pool.get(&mid(2)), Some(&mtx(2)));
    assert_eq!(pool.position(&mid(2)), Some(1));
}

#[test]
fn refresh_drops_what_is_gone_and_adds_what_is_new() {
    let mut pool = Mempool::new();
    pool.accept(mtx(1));
    pool.accept(mtx(2));
    pool.accept(mtx(3));
    let listed = vec![mid(3), mid(4), mid(1), mid(5)];
    pool.refresh(&listed, vec![mtx(4), mtx(5)]);
    assert_eq!(ids_of(&pool), vec![mid(1), mid(3), mid(4), mid(5)]);
    assert!(!pool.is_stale());
}

#[test]
fn refresh_ignores_fetched_transactions_that_are_not_listed_or_held() {
    let mut pool = Mempool::new();
    pool.accept(mtx(1));
    pool.refresh(&vec![mid(1), mid(2)], vec![mtx(9), mtx(1), mtx(2), mtx(2)]);
    assert_eq!(ids_of(&pool), vec![mid(1), mid(2)]);
}

#[test]
fn refresh_against_an_empty_list_empties_the_mirror() {
    let mut pool = Mempool::new();
    pool.accept(mtx(1));
    pool.accept(mtx(2));
    pool.refresh(&vec![], vec![]);
    assert_eq!(pool.len(), 0);
    assert!(!pool.is_stale());
}

#[test]
fn retain_listed_names_the_ids_to_fetch() {
    let mut pool = Mempool::new();
    pool.accept(mtx(1));
    pool.accept(mtx(2));
    let fresh = pool.retain_listed(&vec![mid(7), mid(2), mid(8), mid(7)]);
    assert_eq!(fresh, vec![mid(7), mid(8)]);
    assert_eq!(ids_of(&pool), vec![mid(2)]);
    assert!(pool.is_stale());
    pool.mark_fresh();
    assert!(!pool.is_stale());
}

#[test]
fn confirm_drops_the_transactions_of_the_block_and_marks_stale() {
    let mut pool = Mempool::new();
    pool.accept(mtx(1));
    pool.accept(mtx(2));
    pool.accept(mtx(3));
    pool.mark_fresh();
    let block = Block { hash: mid(50), prev: mid(49), txs: vec![mtx(3), mtx(77), mtx(1)] };
    pool.confirm(&block);
    assert_eq!(ids_of(&pool), vec![mid(2)]);
    assert!(pool.is_stale());
    assert!(block.holds(&mid(77)));
    assert!(!block.holds(&mid(2)));
}

#[test]
fn confirm_of_an_unrelated_block_keeps_the_pool() {
    let mut pool = Mempool::new();
    pool.accept(mtx(1));
    pool.mark_fresh();
    pool.confirm(&Block { hash: mid(50), prev: mid(49), txs: vec![] });
    assert_eq!(ids_of(&pool), vec![mid(1)]);
    assert!(pool.is_stale());
}

#[test]
fn list_membership() {
    assert!(list_holds(&vec![mid(1), mid(2)], &mid(2)));
    assert!(!list_holds(&vec![mid(1), mid(2)], &mid(3)));
    assert!(!list_holds(&vec![], &mid(3)));
}
