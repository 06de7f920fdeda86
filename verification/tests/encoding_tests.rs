use chain_index::encoding::{hash_from_hex, hash_to_hex, parse_hex, to_hex};
use chain_index::hash::Hash256;
use chain_index::model::TxOut;
use chain_index::script::{digest_to_hash, fingerprint, pay_to_script};

#[test]
fn identifier_bytes_are_big_endian_limbs() {
    let h = Hash256 { w0: 0x0102030405060708, w1: 0x090a0b0c0d0e0f10, w2: 0, w3: 0xffeeddccbbaa9988 };
    let bytes = h.to_bytes();
    assert_eq!(bytes.len(), 32);
    assert_eq!(&bytes[0..8], &[1, 2, 3, 4, 5, 6, 7, 8]);
    assert_eq!(&bytes[8..16], &[9, 10, 11, 12, 13, 14, 15, 16]);
    assert_eq!(&bytes[16..24], &[0; 8]);
    assert_eq!(&bytes[24..32], &[0xff, 0xee, 0xdd, 0xcc, 0xbb, 0xaa, 0x99, 0x88]);
    assert_eq!(Hash256::from_bytes(&bytes), Some(h));
}

#[test]
fn identifier_needs_32_bytes() {
    assert_eq!(Hash256::from_bytes(&[0u8; 31]), None);
    assert_eq!(Hash256::from_bytes(&[0u8; 33]), None);
    assert_eq!(Hash256::from_bytes(&[]), None);
    assert_eq!(Hash256::from_bytes(&[0u8; 32]), Some(Hash256::zero()));
    let mut max = [0xffu8; 32];
    assert_eq!(
        Hash256::from_bytes(&max),
        Some(Hash256 { w0: u64::MAX, w1: u64::MAX, w2: u64::MAX, w3: u64::MAX })
    );
    max[31] = 0xfe;
    assert_eq!(Hash256::from_bytes(&max).unwrap().w3, u64::MAX - 1);
}

#[test]
fn hex_text_is_lower_case_pairs() {
    assert_eq!(to_hex(&vec![1, 2, 3, 15, 16]), "0102030f10");
    assert_eq!(to_hex(&vec![0xab, 0xcd, 0xef, 0x00, 0xff]), "abcdef00ff");
    assert_eq!(to_hex(&vec![]), "");
}

#[test]
fn hex_text_is_read_in_either_case() {
    assert_eq!(parse_hex("0102030f10"), Some(vec![1, 2, 3, 15, 16]));
    assert_eq!(parse_hex("F9b4CA"), Some(vec![0xf9, 0xb4, 0xca]));
    assert_eq!(parse_hex(""), Some(vec![]));
}

#[test]
fn text_that_is_not_hex_is_refused() {
    assert_eq!(parse_hex("123"), None);
    assert_eq!(parse_hex("foo0"), None);
    assert_eq!(parse_hex("0g"), None);
    assert_eq!(parse_hex(" 00"), None);
    assert_eq!(parse_hex("é"), None);
    assert_eq!(parse_hex("éé"), None);
}

#[test]
fn identifier_text_round_trip() {
    let text = "000000000019d6689c085ae165831e934ff763ae46a2a6c172b3f1b60a8ce26f";
    let h = hash_from_hex(text).unwrap();
    assert_eq!(
        h,
        Hash256 { w0: 0x000000000019d668, w1: 0x9c085ae165831e93, w2: 0x4ff763ae46a2a6c1, w3: 0x72b3f1b60a8ce26f }
    );
    assert_eq!(hash_to_hex(&h), text);
    assert_eq!(hash_from_hex(&text.to_uppercase()), Some(h));
}

#[test]
fn identifier_text_needs_64_digits() {
    assert_eq!(hash_from_hex(""), None);
    assert_eq!(hash_from_hex("00"), None);
    assert_eq!(hash_from_hex(&"0".repeat(63)), None);
    assert_eq!(hash_from_hex(&"0".repeat(66)), None);
    assert_eq!(hash_from_hex(&"g".repeat(64)), None);
    assert_eq!(hash_from_hex(&"0".repeat(64)), Some(Hash256::zero()));
}

#[test]
fn fingerprint_is_the_sha256_of_the_script() {
    assert_eq!(
        fingerprint(&vec![]).map(|h| hash_to_hex(&h)),
        Some(String::from("e3b0c44298fc1c149afbf4c8996fb92427ae41e4649b934ca495991b7852b855"))
    );
    assert_eq!(
        fingerprint(&b"abc".to_vec()).map(|h| hash_to_hex(&h)),
        Some(String::from("ba7816bf8f01cfea414140de5dae2223b00361a396177a9cb410ff61f20015ad"))
    );
    assert_ne!(fingerprint(&vec![1]), fingerprint(&vec![2]));
    assert_eq!(fingerprint(&vec![7, 7]), fingerprint(&vec![7, 7]));
}

#[test]
fn output_to_a_script_carries_its_fingerprint() {
    let script = b"abc".to_vec();
    assert_eq!(
        pay_to_script(5, &script),
        Some(TxOut { value: 5, fingerprint: fingerprint(&script).unwrap() })
    );
    let mut digest = [0u8; 32];
    digest[31] = 9;
    assert_eq!(digest_to_hash(&digest), Hash256 { w0: 0, w1: 0, w2: 0, w3: 9 });
}
