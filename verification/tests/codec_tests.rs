use chain_index::codec::{decode_key, decode_row, encode_funding_prefix, encode_key, encode_value};
use chain_index::hash::Hash256;
use chain_index::model::{OutPoint, Transaction, TxOut};
use chain_index::rows::{Key, Row};

fn kid(n: u64) -> Hash256 {
    Hash256 { w0: n, w1: 0, w2: 0x0102030405060708, w3: n }
}

fn sample_keys() -> Vec<Key> {
    vec![
        Key::Tip,
        Key::Block(kid(0)),
        Key::Block(kid(2)),
        Key::Tx(kid(1)),
        Key::Tx(Hash256 { w0: u64::MAX, w1: u64::MAX, w2: u64::MAX, w3: u64::MAX }),
        Key::Funding { fingerprint: kid(1), height: 0, position: 0, vout: 0 },
        Key::Funding { fingerprint: kid(1), height: 0, position: 0, vout: 256 },
        Key::Funding { fingerprint: kid(1), height: 0, position: 1, vout: 0 },
        Key::Funding { fingerprint: kid(1), height: 1, position: 0, vout: 0 },
        Key::Funding { fingerprint: kid(1), height: 255, position: 7, vout: 7 },
        Key::Funding { fingerprint: kid(1), height: 256, position: 0, vout: 0 },
        Key::Funding { fingerprint: kid(1), height: u32::MAX, position: u32::MAX, vout: u32::MAX },
        Key::Funding { fingerprint: kid(2), height: 0, position: 0, vout: 0 },
        Key::Spend { txid: kid(0), vout: 9 },
        Key::Spend { txid: kid(3), vout: 0 },
        Key::Spend { txid: kid(3), vout: 0x01000000 },
    ]
}

#[test]
fn written_keys_have_the_table_first_and_big_endian_fields() {
    assert_eq!(encode_key(&Key::Tip), vec![0]);
    let h = Hash256 { w0: 0x1112131415161718, w1: 0, w2: 0, w3: 0x00000000000000ff };
    let mut expected = vec![3u8, 0x11, 0x12, 0x13, 0x14, 0x15, 0x16, 0x17, 0x18];
    expected.extend(vec![0u8; 23]);
    expected.push(0xff);
    expected.extend(vec![0, 0, 1, 2]);
    expected.extend(vec![0, 0, 0, 3]);
    expected.extend(vec![0xff, 0, 0, 4]);
    assert_eq!(
        encode_key(&Key::Funding { fingerprint: h, height: 0x0102, position: 3, vout: 0xff000004 }),
        expected
    );
    assert_eq!(encode_key(&Key::Block(h)).len(), 33);
    assert_eq!(encode_key(&Key::Block(h))[0], 1);
    assert_eq!(encode_key(&Key::Tx(h))[0], 2);
    assert_eq!(encode_key(&Key::Spend { txid: h, vout: 1 }).len(), 37);
    assert_eq!(encode_key(&Key::Spend { txid: h, vout: 1 })[33..], [0, 0, 0, 1]);
}

#[test]
fn written_keys_are_read_back() {
    for key in sample_keys() {
        assert_eq!(decode_key(&encode_key(&key)), Some(key));
    }
}

#[test]
fn bytes_that_spell_no_key_are_refused() {
    assert_eq!(decode_key(&[]), None);
    assert_eq!(decode_key(&[5]), None);
    assert_eq!(decode_key(&[0, 0]), None);
    assert_eq!(decode_key(&[1; 32]), None);
    assert_eq!(decode_key(&[1; 34]), None);
    assert_eq!(decode_key(&[3; 44]), None);
    assert_eq!(decode_key(&[4; 45]), None);
    assert_eq!(decode_key(&[9; 33]), None);
}

#[test]
fn written_keys_sort_like_the_keys() {
    let keys = sample_keys();
    for a in &keys {
        for b in &keys {
            assert_eq!(a.precedes(b), encode_key(a) < encode_key(b), "{:?} {:?}", a, b);
        }
    }
}

#[test]
fn funding_prefix_leads_exactly_the_fingerprints_keys() {
    let prefix = encode_funding_prefix(&kid(1));
    assert_eq!(prefix.len(), 33);
    for key in sample_keys() {
        let bytes = encode_key(&key);
        let led = bytes.len() == 45 && bytes.starts_with(&prefix);
        let expected = matches!(key, Key::Funding { fingerprint, .. } if fingerprint == kid(1));
        assert_eq!(led, expected);
    }
}

fn sample_rows() -> Vec<Row> {
    let body = Transaction {
        txid: kid(9),
        inputs: vec![OutPoint { txid: kid(7), vout: 1 }, OutPoint { txid: kid(8), vout: 0xffff_ffff }],
        outputs: vec![
            TxOut { value: 0, fingerprint: kid(20) },
            TxOut { value: u64::MAX, fingerprint: kid(21) },
            TxOut { value: 0x0102030405060708, fingerprint: kid(22) },
        ],
    };
    vec![
        Row::Tip { hash: kid(1), height: 77 },
        Row::Block { hash: kid(2), height: 0x01020304, prev: kid(1) },
        Row::Tx { txid: kid(9), height: 5, position: 6, body },
        Row::Tx {
            txid: kid(10),
            height: 0,
            position: 0,
            body: Transaction { txid: kid(10), inputs: vec![], outputs: vec![] },
        },
        Row::Funding { fingerprint: kid(3), height: 1, position: 2, vout: 3, txid: kid(4), value: 5000 },
        Row::Spend { txid: kid(4), vout: 3, height: 9, position: 8, spender: kid(5) },
    ]
}

#[test]
fn written_rows_are_read_back() {
    for row in sample_rows() {
        let key = row.key();
        let value = encode_value(&row);
        assert_eq!(decode_row(&key, &value), Some(row));
    }
}

#[test]
fn row_values_have_fixed_layouts() {
    let rows = sample_rows();
    assert_eq!(encode_value(&rows[0]).len(), 36);
    assert_eq!(encode_value(&rows[0])[32..], [0, 0, 0, 77]);
    assert_eq!(encode_value(&rows[1]).len(), 36);
    assert_eq!(encode_value(&rows[1])[..4], [1, 2, 3, 4]);
    assert_eq!(encode_value(&rows[2]).len(), 8 + 40 + 2 * 36 + 3 * 40);
    assert_eq!(encode_value(&rows[2])[..8], [0, 0, 0, 5, 0, 0, 0, 6]);
    assert_eq!(encode_value(&rows[2])[40..48], [0, 0, 0, 2, 0, 0, 0, 3]);
    assert_eq!(encode_value(&rows[3]).len(), 48);
    assert_eq!(encode_value(&rows[4]).len(), 40);
    assert_eq!(encode_value(&rows[4])[32..], [0, 0, 0, 0, 0, 0, 0x13, 0x88]);
    assert_eq!(encode_value(&rows[5]).len(), 40);
}

#[test]
fn values_of_the_wrong_length_are_refused() {
    for row in sample_rows() {
        let key = row.key();
        let mut value = encode_value(&row);
        value.push(0);
        assert_eq!(decode_row(&key, &value), None);
        value.pop();
        value.pop();
        assert_eq!(decode_row(&key, &value), None);
        assert_eq!(decode_row(&key, &[]), None);
    }
}

#[test]
fn a_transaction_value_must_hold_what_its_counts_say() {
    let rows = sample_rows();
    let key = rows[2].key();
    let mut value = encode_value(&rows[2]);
    value[43] = 3;
    assert_eq!(decode_row(&key, &value), None);
    value[43] = 2;
    value[47] = 2;
    assert_eq!(decode_row(&key, &value), None);
    value[47] = 3;
    assert_eq!(decode_row(&key, &value), Some(rows[2].clone()));
}
