use chain_index::cache::TxCache;
use chain_index::hash::Hash256;
use chain_index::model::{Transaction, TxOut};

fn cid(n: u64) -> Hash256 {
    Hash256 { w0: n, w1: 0, w2: 0, w3: n }
}

fn ctx(n: u64) -> Transaction {
    Transaction {
        txid: cid(n),
        inputs: vec![],
        outputs: vec![TxOut { value: n * 10, fingerprint: cid(1000 + n) }],
    }
}

#[test]
fn cache_returns_what_was_put() {
    let mut cache = TxCache::new(4);
    assert_eq!(cache.len(), 0);
    cache.put(ctx(1));
    cache.put(ctx(2));
    assert_eq!(cache.len(), 2);
    assert_eq!(cache.get(&cid(1)), Some(ctx(1)));
    assert_eq!(cache.get(&cid(2)), Some(ctx(2)));
    assert_eq!(cache.get(&cid(3)), None);
}

#[test]
fn cache_never_exceeds_its_capacity() {
    let mut cache = TxCache::new(3);
    for n in 0..50 {
        cache.put(ctx(n));
        assert!(cache.len() <= 3);
    }
    assert_eq!(cache.len(), 3);
}

#[test]
fn least_recently_used_leaves_first() {
    let mut cache = TxCache::new(2);
    cache.put(ctx(1));
    cache.put(ctx(2));
    cache.put(ctx(3));
    assert_eq!(cache.get(&cid(1)), None);
    assert_eq!(cache.get(&cid(2)), Some(ctx(2)));
    assert_eq!(cache.get(&cid(3)), Some(ctx(3)));
}

#[test]
fn a_lookup_counts_as_use() {
    let mut cache = TxCache::new(2);
    cache.put(ctx(1));
    cache.put(ctx(2));
    assert_eq!(cache.get(&cid(1)), Some(ctx(1)));
    cache.put(ctx(3));
    assert_eq!(cache.get(&cid(2)), None);
    assert_eq!(cache.get(&cid(1)), Some(ctx(1)));
    assert_eq!(cache.get(&cid(3)), Some(ctx(3)));
}

#[test]
fn putting_a_held_id_replaces_and_does_not_evict() {
    let mut cache = TxCache::new(2);
    cache.put(ctx(1));
    cache.put(ctx(2));
    let mut changed = ctx(1);
    changed.outputs.push(TxOut { value: 99, fingerprint: cid(7) });
    cache.put(changed.clone());
    assert_eq!(cache.len(), 2);
    assert_eq!(cache.get(&cid(1)), Some(changed));
    assert_eq!(cache.get(&cid(2)), Some(ctx(2)));
}

#[test]
fn cache_for_nothing_holds_nothing() {
    let mut cache = TxCache::new(0);
    cache.put(ctx(1));
    assert_eq!(cache.len(), 0);
    assert_eq!(cache.get(&cid(1)), None);
}

#[test]
fn ids_that_differ_in_one_limb_are_different_keys() {
    let mut cache = TxCache::new(4);
    let a = Transaction { txid: Hash256 { w0: 1, w1: 2, w2: 3, w3: 4 }, inputs: vec![], outputs: vec![] };
    let b = Transaction { txid: Hash256 { w0: 1, w1: 2, w2: 3, w3: 5 }, inputs: vec![], outputs: vec![] };
    cache.put(a.clone());
    assert_eq!(cache.get(&b.txid), None);
    cache.put(b.clone());
    assert_eq!(cache.get(&a.txid), Some(a));
    assert_eq!(cache.get(&b.txid), Some(b));
}
