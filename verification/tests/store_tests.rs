use chain_index::hash::Hash256;
use chain_index::rows::{Key, Row};
use chain_index::store::{Store, WriteBatch};

fn id(n: u64) -> Hash256 {
    Hash256 { w0: 0, w1: 0, w2: 0, w3: n }
}

fn funding(fp: u64, height: u32, position: u32, vout: u32) -> Row {
    Row::Funding { fingerprint: id(fp), height, position, vout, txid: id(1000 + height as u64), value: 1 }
}

#[test]
fn put_then_get_returns_the_row() {
    let mut store = Store::new();
    store.put(Row::Block { hash: id(7), height: 3, prev: id(6) });
    assert_eq!(store.get(&Key::Block(id(7))), Some(&Row::Block { hash: id(7), height: 3, prev: id(6) }));
    assert!(store.get(&Key::Block(id(8))).is_none());
    assert!(store.contains(&Key::Block(id(7))));
    assert!(!store.contains(&Key::Tx(id(7))));
}

#[test]
fn put_replaces_the_row_with_the_same_key() {
    let mut store = Store::new();
    store.put(Row::Tip { hash: id(1), height: 0 });
    store.put(Row::Tip { hash: id(2), height: 1 });
    assert_eq!(store.len(), 1);
    assert_eq!(store.get(&Key::Tip), Some(&Row::Tip { hash: id(2), height: 1 }));
}

#[test]
fn delete_removes_only_the_key() {
    let mut store = Store::new();
    store.put(Row::Block { hash: id(1), height: 0, prev: id(0) });
    store.put(Row::Block { hash: id(2), height: 1, prev: id(1) });
    store.delete(&Key::Block(id(1)));
    store.delete(&Key::Block(id(9)));
    assert_eq!(store.len(), 1);
    assert!(!store.contains(&Key::Block(id(1))));
    assert!(store.contains(&Key::Block(id(2))));
}

#[test]
fn batch_deletes_come_before_puts() {
    let mut store = Store::new();
    store.put(Row::Tip { hash: id(1), height: 0 });
    let batch = WriteBatch {
        deletes: vec![Key::Tip],
        puts: vec![Row::Tip { hash: id(2), height: 1 }, Row::Tip { hash: id(3), height: 2 }],
    };
    store.write(batch);
    assert_eq!(store.len(), 1);
    assert_eq!(store.get(&Key::Tip), Some(&Row::Tip { hash: id(3), height: 2 }));
}

#[test]
fn rows_are_kept_in_key_order() {
    let mut store = Store::new();
    store.put(Row::Spend { txid: id(1), vout: 0, height: 1, position: 0, spender: id(2) });
    store.put(funding(5, 2, 0, 0));
    store.put(funding(4, 9, 0, 0));
    store.put(funding(5, 1, 3, 1));
    store.put(funding(5, 1, 3, 0));
    store.put(funding(5, 1, 2, 7));
    store.put(Row::Tx {
        txid: id(3),
        height: 1,
        position: 0,
        body: chain_index::model::Transaction { txid: id(3), inputs: vec![], outputs: vec![] },
    });
    store.put(Row::Block { hash: id(9), height: 1, prev: id(8) });
    store.put(Row::Tip { hash: id(9), height: 1 });
    let keys: Vec<Key> = (0..store.len()).map(|i| store.row_at(i).key()).collect();
    assert_eq!(
        keys,
        vec![
            Key::Tip,
            Key::Block(id(9)),
            Key::Tx(id(3)),
            Key::Funding { fingerprint: id(4), height: 9, position: 0, vout: 0 },
            Key::Funding { fingerprint: id(5), height: 1, position: 2, vout: 7 },
            Key::Funding { fingerprint: id(5), height: 1, position: 3, vout: 0 },
            Key::Funding { fingerprint: id(5), height: 1, position: 3, vout: 1 },
            Key::Funding { fingerprint: id(5), height: 2, position: 0, vout: 0 },
            Key::Spend { txid: id(1), vout: 0 },
        ]
    );
}

#[test]
fn bounds_delimit_a_prefix() {
    let mut store = Store::new();
    store.put(funding(4, 9, 0, 0));
    store.put(funding(5, 1, 3, 1));
    store.put(funding(5, 2, 0, 0));
    store.put(funding(6, 0, 0, 0));
    let start = store.bound(&Key::funding_first(id(5)), false);
    let end = store.bound(&Key::funding_last(id(5)), true);
    assert_eq!((start, end), (1, 3));
    let (s, e) = chain_index::query::funding_range(&store, &id(5));
    assert_eq!((s, e), (1, 3));
    let (s, e) = chain_index::query::funding_range(&store, &id(7));
    assert_eq!(s, e);
    assert_eq!(store.bound(&Key::funding_first(id(5)), true), 1);
    assert_eq!(store.bound(&Key::Funding { fingerprint: id(5), height: 1, position: 3, vout: 1 }, true), 2);
}

#[test]
fn identifiers_order_by_the_most_significant_limb_first() {
    let low = Hash256 { w0: 0, w1: 9, w2: 9, w3: 9 };
    let high = Hash256 { w0: 1, w1: 0, w2: 0, w3: 0 };
    assert!(low.precedes(&high));
    assert!(!high.precedes(&low));
    assert!(!low.precedes(&low));
    let a = Hash256 { w0: 1, w1: 2, w2: 3, w3: 4 };
    let b = Hash256 { w0: 1, w1: 2, w2: 3, w3: 5 };
    assert!(a.precedes(&b));
    assert!(Key::Block(high).precedes(&Key::Tx(low)));
    assert!(Key::Tip.precedes(&Key::Block(Hash256::zero())));
    assert!(!Key::Spend { txid: low, vout: 0 }.precedes(&Key::Funding {
        fingerprint: high,
        height: 0,
        position: 0,
        vout: 0
    }));
}
