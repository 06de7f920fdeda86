//! Keys as bytes, for a store that orders byte strings.
//!
//! A key is written as its table's number, then its identifier, then its
//! numbers, each with the most significant byte first. Compared byte by
//! byte, the written keys stand in the order of the keys: the rows of one
//! table, and in the table of funding rows those of one fingerprint, are
//! one stretch of the key space, led by one prefix.

use vstd::prelude::*;
use crate::hash::{
    bytes_of, hash_of_bytes, limb_bytes, limb_of, lemma_bytes_round_trip, lemma_limb_round_trip,
    push_limb, read_limb, Hash256,
};
use crate::model::{OutPoint, Transaction, TxModel, TxOut};
use crate::rows::{Key, Row, RowModel};

verus! {

/// The four bytes of a number, the most significant first.
#[verifier::opaque]
pub open spec fn u32_bytes(x: u32) -> Seq<u8> {
    seq![
        (x / 0x100_0000) as u8,
        (x / 0x1_0000 % 0x100) as u8,
        (x / 0x100 % 0x100) as u8,
        (x % 0x100) as u8,
    ]
}

/// The number that four bytes from `at` spell, the most significant first.
pub open spec fn u32_of(b: Seq<u8>, at: int) -> int {
    b[at] * 0x100_0000 + b[at + 1] * 0x1_0000 + b[at + 2] * 0x100 + b[at + 3]
}

/// A key as bytes.
pub open spec fn key_bytes(k: Key) -> Seq<u8> {
    match k {
        Key::Tip => seq![0u8],
        Key::Block(hash) => seq![1u8] + bytes_of(hash),
        Key::Tx(txid) => seq![2u8] + bytes_of(txid),
        Key::Funding { fingerprint, height, position, vout } => seq![3u8] + bytes_of(fingerprint)
            + u32_bytes(height) + u32_bytes(position) + u32_bytes(vout),
        Key::Spend { txid, vout } => seq![4u8] + bytes_of(txid) + u32_bytes(vout),
    }
}

/// The bytes that lead all funding keys of a fingerprint, and no other key.
pub open spec fn funding_prefix(fingerprint: Hash256) -> Seq<u8> {
    seq![3u8] + bytes_of(fingerprint)
}

/// The key that bytes spell, if they spell one.
pub open spec fn key_of_bytes(b: Seq<u8>) -> Option<Key> {
    if b.len() == 1 && b[0] == 0 {
        Some(Key::Tip)
    } else if b.len() == 33 && b[0] == 1 {
        Some(Key::Block(hash_of_bytes(b.subrange(1, 33))))
    } else if b.len() == 33 && b[0] == 2 {
        Some(Key::Tx(hash_of_bytes(b.subrange(1, 33))))
    } else if b.len() == 45 && b[0] == 3 {
        Some(
            Key::Funding {
                fingerprint: hash_of_bytes(b.subrange(1, 33)),
                height: u32_of(b, 33) as u32,
                position: u32_of(b, 37) as u32,
                vout: u32_of(b, 41) as u32,
            },
        )
    } else if b.len() == 37 && b[0] == 4 {
        Some(Key::Spend { txid: hash_of_bytes(b.subrange(1, 33)), vout: u32_of(b, 33) as u32 })
    } else {
        None
    }
}

/// The bytes of a number spell the number.
pub proof fn lemma_u32_round_trip(x: u32)
    ensures
        u32_bytes(x).len() == 4,
        u32_of(u32_bytes(x), 0) == x,
{
    reveal(u32_bytes);
    let q1: u32 = x / 0x100;
    let q2: u32 = x / 0x1_0000;
    let q3: u32 = x / 0x100_0000;
    assert(q2 == q1 / 0x100) by (bit_vector)
        requires
            q1 == x / 0x100,
            q2 == x / 0x1_0000,
    ;
    assert(q3 == q2 / 0x100) by (bit_vector)
        requires
            q2 == x / 0x1_0000,
            q3 == x / 0x100_0000,
    ;
    assert(q3 < 0x100) by (bit_vector)
        requires
            q3 == x / 0x100_0000,
    ;
    let b = u32_bytes(x);
    assert(b[3] == x % 0x100);
    assert(b[2] == q1 % 0x100);
    assert(b[1] == q2 % 0x100);
    assert(b[0] == q3);
    assert(x == 0x100 * q1 + b[3]);
    assert(q1 == 0x100 * q2 + b[2]);
    assert(q2 == 0x100 * q3 + b[1]);
}

/// Reading a written key gives the key back.
pub proof fn lemma_key_round_trip(k: Key)
    ensures
        key_of_bytes(key_bytes(k)) == Some(k),
{
    let b = key_bytes(k);
    match k {
        Key::Tip => {},
        Key::Block(hash) => {
            lemma_bytes_round_trip(hash);
            assert(b.subrange(1, 33) =~= bytes_of(hash));
        },
        Key::Tx(txid) => {
            lemma_bytes_round_trip(txid);
            assert(b.subrange(1, 33) =~= bytes_of(txid));
        },
        Key::Funding { fingerprint, height, position, vout } => {
            lemma_bytes_round_trip(fingerprint);
            lemma_u32_round_trip(height);
            lemma_u32_round_trip(position);
            lemma_u32_round_trip(vout);
            assert(b.subrange(1, 33) =~= bytes_of(fingerprint));
            assert forall|i: int| 0 <= i < 4 implies b[33 + i] == u32_bytes(height)[i] && b[37 + i]
                == u32_bytes(position)[i] && b[41 + i] == u32_bytes(vout)[i] by {}
            assert(u32_of(b, 33) == u32_of(u32_bytes(height), 0));
            assert(u32_of(b, 37) == u32_of(u32_bytes(position), 0));
            assert(u32_of(b, 41) == u32_of(u32_bytes(vout), 0));
        },
        Key::Spend { txid, vout } => {
            lemma_bytes_round_trip(txid);
            lemma_u32_round_trip(vout);
            assert(b.subrange(1, 33) =~= bytes_of(txid));
            assert forall|i: int| 0 <= i < 4 implies b[33 + i] == u32_bytes(vout)[i] by {}
            assert(u32_of(b, 33) == u32_of(u32_bytes(vout), 0));
        },
    }
}

/// Two keys that are written alike are one key.
pub proof fn lemma_key_bytes_injective(a: Key, b: Key)
    requires
        key_bytes(a) == key_bytes(b),
    ensures
        a == b,
{
    lemma_key_round_trip(a);
    lemma_key_round_trip(b);
}

/// Appends the four bytes of a number.
fn push_u32(out: &mut Vec<u8>, x: u32)
    ensures
        final(out)@ == old(out)@ + u32_bytes(x),
{
    out.push((x / 0x100_0000) as u8);
    out.push((x / 0x1_0000 % 0x100) as u8);
    out.push((x / 0x100 % 0x100) as u8);
    out.push((x % 0x100) as u8);
    proof {
        reveal(u32_bytes);
    }
    assert(out@ =~= old(out)@ + u32_bytes(x));
}

/// Appends the 32 bytes of an identifier.
fn push_hash(out: &mut Vec<u8>, h: &Hash256)
    ensures
        final(out)@ == old(out)@ + bytes_of(*h),
{
    let mut bytes = h.to_bytes();
    out.append(&mut bytes);
}

/// The number that four bytes from `at` spell.
fn read_u32(b: &[u8], at: usize) -> (x: u32)
    requires
        at + 4 <= b@.len(),
    ensures
        x == u32_of(b@, at as int),
{
    (b[at] as u32) * 0x100_0000 + (b[at + 1] as u32) * 0x1_0000 + (b[at + 2] as u32) * 0x100 + (b[at
        + 3] as u32)
}

/// The identifier that the 32 bytes from `at` spell.
fn read_hash_at(b: &[u8], at: usize) -> (h: Hash256)
    requires
        at + 32 <= b@.len(),
    ensures
        h == hash_of_bytes(b@.subrange(at as int, at + 32)),
{
    let n = b.len();
    let part = vstd::slice::slice_subrange(b, at, at + 32);
    match Hash256::from_bytes(part) {
        Some(h) => h,
        None => Hash256::zero(),
    }
}

/// The identifier that the 32 bytes from place 1 spell.
fn read_hash(b: &[u8]) -> (h: Hash256)
    requires
        b@.len() >= 33,
    ensures
        h == hash_of_bytes(b@.subrange(1, 33)),
{
    read_hash_at(b, 1)
}

/// Writes a key as bytes.
pub fn encode_key(k: &Key) -> (b: Vec<u8>)
    ensures
        b@ == key_bytes(*k),
{
    let mut b: Vec<u8> = Vec::new();
    match k {
        Key::Tip => {
            b.push(0);
            assert(b@ =~= key_bytes(*k));
        },
        Key::Block(hash) => {
            b.push(1);
            push_hash(&mut b, hash);
            assert(b@ =~= key_bytes(*k));
        },
        Key::Tx(txid) => {
            b.push(2);
            push_hash(&mut b, txid);
            assert(b@ =~= key_bytes(*k));
        },
        Key::Funding { fingerprint, height, position, vout } => {
            b.push(3);
            push_hash(&mut b, fingerprint);
            push_u32(&mut b, *height);
            push_u32(&mut b, *position);
            push_u32(&mut b, *vout);
            assert(b@ =~= key_bytes(*k));
        },
        Key::Spend { txid, vout } => {
            b.push(4);
            push_hash(&mut b, txid);
            push_u32(&mut b, *vout);
            assert(b@ =~= key_bytes(*k));
        },
    }
    b
}

/// Reads a key from bytes; none where the bytes spell no key.
pub fn decode_key(b: &[u8]) -> (r: Option<Key>)
    ensures
        r == key_of_bytes(b@),
{
    let n = b.len();
    if n == 0 {
        return None;
    }
    let tag = b[0];
    if n == 1 && tag == 0 {
        Some(Key::Tip)
    } else if n == 33 && tag == 1 {
        Some(Key::Block(read_hash(b)))
    } else if n == 33 && tag == 2 {
        Some(Key::Tx(read_hash(b)))
    } else if n == 45 && tag == 3 {
        Some(
            Key::Funding {
                fingerprint: read_hash(b),
                height: read_u32(b, 33),
                position: read_u32(b, 37),
                vout: read_u32(b, 41),
            },
        )
    } else if n == 37 && tag == 4 {
        Some(Key::Spend { txid: read_hash(b), vout: read_u32(b, 33) })
    } else {
        None
    }
}

/// The bytes that lead the funding keys of a fingerprint.
pub fn encode_funding_prefix(fingerprint: &Hash256) -> (b: Vec<u8>)
    ensures
        b@ == funding_prefix(*fingerprint),
{
    let mut b: Vec<u8> = Vec::new();
    b.push(3);
    push_hash(&mut b, fingerprint);
    assert(b@ =~= funding_prefix(*fingerprint));
    b
}

/// Whether `a` comes before `b` and `i` is where that shows: up to `i` the
/// two are alike; there `a` ends and `b` goes on, or `a` has the smaller byte.
pub open spec fn differs_at(a: Seq<u8>, b: Seq<u8>, i: int) -> bool {
    &&& 0 <= i <= a.len()
    &&& i <= b.len()
    &&& a.take(i) == b.take(i)
    &&& if i == a.len() {
        i < b.len()
    } else {
        i < b.len() && a[i] < b[i]
    }
}

/// The order of byte strings: byte by byte, a string before those it leads.
pub open spec fn bytes_lt(a: Seq<u8>, b: Seq<u8>) -> bool {
    exists|i: int| #[trigger] differs_at(a, b, i)
}

/// Of two byte strings at most one comes before the other.
pub proof fn lemma_bytes_lt_asymmetric(a: Seq<u8>, b: Seq<u8>)
    requires
        bytes_lt(a, b),
    ensures
        !bytes_lt(b, a),
        a != b,
{
    let i = choose|i: int| #[trigger] differs_at(a, b, i);
    if bytes_lt(b, a) {
        let j = choose|j: int| #[trigger] differs_at(b, a, j);
        if i < j {
            assert(b.take(j)[i] == a.take(j)[i]);
        } else if j < i {
            assert(a.take(i)[j] == b.take(i)[j]);
        }
    }
    if a == b {
    }
}

/// What follows two strings of one length does not change their order.
pub proof fn lemma_bytes_lt_head(a1: Seq<u8>, a2: Seq<u8>, r1: Seq<u8>, r2: Seq<u8>)
    requires
        a1.len() == a2.len(),
        bytes_lt(a1, a2),
    ensures
        bytes_lt(a1 + r1, a2 + r2),
{
    let i = choose|i: int| #[trigger] differs_at(a1, a2, i);
    assert((a1 + r1).take(i) =~= a1.take(i));
    assert((a2 + r2).take(i) =~= a2.take(i));
    assert(differs_at(a1 + r1, a2 + r2, i));
}

/// What leads two strings alike does not change their order.
pub proof fn lemma_bytes_lt_tail(p: Seq<u8>, r1: Seq<u8>, r2: Seq<u8>)
    requires
        bytes_lt(r1, r2),
    ensures
        bytes_lt(p + r1, p + r2),
{
    let i = choose|i: int| #[trigger] differs_at(r1, r2, i);
    assert((p + r1).take(p.len() + i) =~= p + r1.take(i));
    assert((p + r2).take(p.len() + i) =~= p + r2.take(i));
    assert(differs_at(p + r1, p + r2, p.len() + i));
}

/// Between a common lead and anything that follows, two strings of one
/// length keep their order.
pub proof fn lemma_bytes_lt_mid(p: Seq<u8>, a1: Seq<u8>, a2: Seq<u8>, r1: Seq<u8>, r2: Seq<u8>)
    requires
        a1.len() == a2.len(),
        bytes_lt(a1, a2),
    ensures
        bytes_lt(p + a1 + r1, p + a2 + r2),
{
    lemma_bytes_lt_head(a1, a2, r1, r2);
    lemma_bytes_lt_tail(p, a1 + r1, a2 + r2);
    assert(p + a1 + r1 =~= p + (a1 + r1));
    assert(p + a2 + r2 =~= p + (a2 + r2));
}

/// The bytes of the smaller limb come first.
pub proof fn lemma_limb_bytes_order(x: u64, y: u64)
    requires
        x < y,
    ensures
        bytes_lt(limb_bytes(x), limb_bytes(y)),
{
    let a = limb_bytes(x);
    let b = limb_bytes(y);
    lemma_limb_round_trip(x);
    lemma_limb_round_trip(y);
    if a[0] != b[0] {
        assert(a.take(0) =~= b.take(0));
        assert(differs_at(a, b, 0));
    } else if a[1] != b[1] {
        assert(a.take(1) =~= b.take(1));
        assert(differs_at(a, b, 1));
    } else if a[2] != b[2] {
        assert(a.take(2) =~= b.take(2));
        assert(differs_at(a, b, 2));
    } else if a[3] != b[3] {
        assert(a.take(3) =~= b.take(3));
        assert(differs_at(a, b, 3));
    } else if a[4] != b[4] {
        assert(a.take(4) =~= b.take(4));
        assert(differs_at(a, b, 4));
    } else if a[5] != b[5] {
        assert(a.take(5) =~= b.take(5));
        assert(differs_at(a, b, 5));
    } else if a[6] != b[6] {
        assert(a.take(6) =~= b.take(6));
        assert(differs_at(a, b, 6));
    } else {
        assert(a.take(7) =~= b.take(7));
        assert(differs_at(a, b, 7));
    }
}

/// The bytes of the smaller number come first.
pub proof fn lemma_u32_bytes_order(x: u32, y: u32)
    requires
        x < y,
    ensures
        bytes_lt(u32_bytes(x), u32_bytes(y)),
{
    let a = u32_bytes(x);
    let b = u32_bytes(y);
    lemma_u32_round_trip(x);
    lemma_u32_round_trip(y);
    if a[0] != b[0] {
        assert(a.take(0) =~= b.take(0));
        assert(differs_at(a, b, 0));
    } else if a[1] != b[1] {
        assert(a.take(1) =~= b.take(1));
        assert(differs_at(a, b, 1));
    } else if a[2] != b[2] {
        assert(a.take(2) =~= b.take(2));
        assert(differs_at(a, b, 2));
    } else {
        assert(a.take(3) =~= b.take(3));
        assert(differs_at(a, b, 3));
    }
}

/// The bytes of the smaller identifier come first.
pub proof fn lemma_hash_bytes_order(a: Hash256, b: Hash256)
    requires
        a.lt(b),
    ensures
        bytes_lt(bytes_of(a), bytes_of(b)),
{
    let none = Seq::<u8>::empty();
    let (a0, a1, a2, a3) = (limb_bytes(a.w0), limb_bytes(a.w1), limb_bytes(a.w2), limb_bytes(a.w3));
    let (b0, b1, b2, b3) = (limb_bytes(b.w0), limb_bytes(b.w1), limb_bytes(b.w2), limb_bytes(b.w3));
    lemma_limb_round_trip(a.w0);
    lemma_limb_round_trip(a.w1);
    lemma_limb_round_trip(a.w2);
    lemma_limb_round_trip(a.w3);
    lemma_limb_round_trip(b.w0);
    lemma_limb_round_trip(b.w1);
    lemma_limb_round_trip(b.w2);
    lemma_limb_round_trip(b.w3);
    if a.w0 != b.w0 {
        lemma_limb_bytes_order(a.w0, b.w0);
        lemma_bytes_lt_mid(none, a0, b0, a1 + a2 + a3, b1 + b2 + b3);
        assert(bytes_of(a) =~= none + a0 + (a1 + a2 + a3));
        assert(bytes_of(b) =~= none + b0 + (b1 + b2 + b3));
    } else if a.w1 != b.w1 {
        lemma_limb_bytes_order(a.w1, b.w1);
        lemma_bytes_lt_mid(a0, a1, b1, a2 + a3, b2 + b3);
        assert(bytes_of(a) =~= a0 + a1 + (a2 + a3));
        assert(bytes_of(b) =~= a0 + b1 + (b2 + b3));
    } else if a.w2 != b.w2 {
        lemma_limb_bytes_order(a.w2, b.w2);
        lemma_bytes_lt_mid(a0 + a1, a2, b2, a3, b3);
    } else {
        lemma_limb_bytes_order(a.w3, b.w3);
        lemma_bytes_lt_mid(a0 + a1 + a2, a3, b3, none, none);
        assert(bytes_of(a) =~= a0 + a1 + a2 + a3 + none);
        assert(bytes_of(b) =~= a0 + a1 + a2 + b3 + none);
    }
}

/// The numbers of a key are written in four bytes each.
proof fn lemma_tail_lengths(k: Key)
    ensures
        match k {
            Key::Funding { height, position, vout, .. } => u32_bytes(height).len() == 4
                && u32_bytes(position).len() == 4 && u32_bytes(vout).len() == 4,
            Key::Spend { vout, .. } => u32_bytes(vout).len() == 4,
            _ => true,
        },
{
    match k {
        Key::Funding { height, position, vout, .. } => {
            lemma_u32_round_trip(height);
            lemma_u32_round_trip(position);
            lemma_u32_round_trip(vout);
        },
        Key::Spend { vout, .. } => {
            lemma_u32_round_trip(vout);
        },
        _ => {},
    }
}

/// Of two keys of one table with different identifiers, the one with the
/// smaller identifier is written first.
proof fn lemma_key_order_by_id(a: Key, b: Key)
    requires
        a.table() == b.table(),
        a.id().lt(b.id()),
    ensures
        bytes_lt(key_bytes(a), key_bytes(b)),
{
    let none = Seq::<u8>::empty();
    lemma_bytes_round_trip(a.id());
    lemma_bytes_round_trip(b.id());
    lemma_hash_bytes_order(a.id(), b.id());
    let tag = seq![a.table() as u8];
    match (a, b) {
        (Key::Block(x), Key::Block(y)) => {
            lemma_bytes_lt_mid(tag, bytes_of(x), bytes_of(y), none, none);
            assert(key_bytes(a) =~= tag + bytes_of(x) + none);
            assert(key_bytes(b) =~= tag + bytes_of(y) + none);
        },
        (Key::Tx(x), Key::Tx(y)) => {
            lemma_bytes_lt_mid(tag, bytes_of(x), bytes_of(y), none, none);
            assert(key_bytes(a) =~= tag + bytes_of(x) + none);
            assert(key_bytes(b) =~= tag + bytes_of(y) + none);
        },
        (
            Key::Funding { fingerprint: x, height: h1, position: p1, vout: v1 },
            Key::Funding { fingerprint: y, height: h2, position: p2, vout: v2 },
        ) => {
            let r1 = u32_bytes(h1) + u32_bytes(p1) + u32_bytes(v1);
            let r2 = u32_bytes(h2) + u32_bytes(p2) + u32_bytes(v2);
            lemma_bytes_lt_mid(tag, bytes_of(x), bytes_of(y), r1, r2);
            assert(key_bytes(a) =~= tag + bytes_of(x) + r1);
            assert(key_bytes(b) =~= tag + bytes_of(y) + r2);
        },
        (Key::Spend { txid: x, vout: v1 }, Key::Spend { txid: y, vout: v2 }) => {
            lemma_bytes_lt_mid(tag, bytes_of(x), bytes_of(y), u32_bytes(v1), u32_bytes(v2));
        },
        _ => {},
    }
}

/// Of two funding keys of one fingerprint, the one that comes first is
/// written first.
proof fn lemma_funding_keys_order(x: Hash256, h1: u32, p1: u32, v1: u32, h2: u32, p2: u32, v2: u32)
    requires
        h1 < h2 || (h1 == h2 && (p1 < p2 || (p1 == p2 && v1 < v2))),
    ensures
        bytes_lt(
            key_bytes(Key::Funding { fingerprint: x, height: h1, position: p1, vout: v1 }),
            key_bytes(Key::Funding { fingerprint: x, height: h2, position: p2, vout: v2 }),
        ),
{
    let none = Seq::<u8>::empty();
    let ka = key_bytes(Key::Funding { fingerprint: x, height: h1, position: p1, vout: v1 });
    let kb = key_bytes(Key::Funding { fingerprint: x, height: h2, position: p2, vout: v2 });
    let lead = seq![3u8] + bytes_of(x);
    lemma_u32_round_trip(h1);
    lemma_u32_round_trip(h2);
    lemma_u32_round_trip(p1);
    lemma_u32_round_trip(p2);
    lemma_u32_round_trip(v1);
    lemma_u32_round_trip(v2);
    if h1 != h2 {
        lemma_u32_bytes_order(h1, h2);
        lemma_bytes_lt_mid(
            lead,
            u32_bytes(h1),
            u32_bytes(h2),
            u32_bytes(p1) + u32_bytes(v1),
            u32_bytes(p2) + u32_bytes(v2),
        );
        assert(ka =~= lead + u32_bytes(h1) + (u32_bytes(p1) + u32_bytes(v1)));
        assert(kb =~= lead + u32_bytes(h2) + (u32_bytes(p2) + u32_bytes(v2)));
    } else if p1 != p2 {
        lemma_u32_bytes_order(p1, p2);
        lemma_bytes_lt_mid(
            lead + u32_bytes(h1),
            u32_bytes(p1),
            u32_bytes(p2),
            u32_bytes(v1),
            u32_bytes(v2),
        );
    } else {
        lemma_u32_bytes_order(v1, v2);
        lemma_bytes_lt_mid(
            lead + u32_bytes(h1) + u32_bytes(p1),
            u32_bytes(v1),
            u32_bytes(v2),
            none,
            none,
        );
        assert(ka =~= lead + u32_bytes(h1) + u32_bytes(p1) + u32_bytes(v1) + none);
        assert(kb =~= lead + u32_bytes(h1) + u32_bytes(p1) + u32_bytes(v2) + none);
    }
}

/// Of two spend keys of one transaction, the one of the lower output is
/// written first.
proof fn lemma_spend_keys_order(x: Hash256, v1: u32, v2: u32)
    requires
        v1 < v2,
    ensures
        bytes_lt(
            key_bytes(Key::Spend { txid: x, vout: v1 }),
            key_bytes(Key::Spend { txid: x, vout: v2 }),
        ),
{
    let none = Seq::<u8>::empty();
    lemma_u32_round_trip(v1);
    lemma_u32_round_trip(v2);
    lemma_u32_bytes_order(v1, v2);
    lemma_bytes_lt_mid(seq![4u8] + bytes_of(x), u32_bytes(v1), u32_bytes(v2), none, none);
    assert(key_bytes(Key::Spend { txid: x, vout: v1 }) =~= seq![4u8] + bytes_of(x) + u32_bytes(v1)
        + none);
    assert(key_bytes(Key::Spend { txid: x, vout: v2 }) =~= seq![4u8] + bytes_of(x) + u32_bytes(v2)
        + none);
}

/// Of two keys of different tables, the one of the lower table is written first.
proof fn lemma_key_order_by_table(a: Key, b: Key)
    requires
        a.table() < b.table(),
    ensures
        bytes_lt(key_bytes(a), key_bytes(b)),
{
    let ka = key_bytes(a);
    let kb = key_bytes(b);
    assert(ka.take(0) =~= kb.take(0));
    assert(ka[0] == a.table() && kb[0] == b.table());
    assert(differs_at(ka, kb, 0));
}

/// The key that comes first is written first.
pub proof fn lemma_key_bytes_order(a: Key, b: Key)
    requires
        a.lt(b),
    ensures
        bytes_lt(key_bytes(a), key_bytes(b)),
{
    if a.table() != b.table() {
        lemma_key_order_by_table(a, b);
    } else if a.id() != b.id() {
        lemma_key_order_by_id(a, b);
    } else {
        match (a, b) {
            (
                Key::Funding { fingerprint: x, height: h1, position: p1, vout: v1 },
                Key::Funding { fingerprint: y, height: h2, position: p2, vout: v2 },
            ) => {
                lemma_funding_keys_order(x, h1, p1, v1, h2, p2, v2);
            },
            (Key::Spend { txid: x, vout: v1 }, Key::Spend { txid: y, vout: v2 }) => {
                lemma_spend_keys_order(x, v1, v2);
            },
            _ => {},
        }
    }
}

/// Written keys stand in the order of the keys: one key comes before
/// another exactly if its bytes come before the other's.
pub proof fn lemma_key_order_preserved(a: Key, b: Key)
    ensures
        a.lt(b) <==> bytes_lt(key_bytes(a), key_bytes(b)),
{
    crate::rows::lemma_key_order_total(a, b);
    if a.lt(b) {
        lemma_key_bytes_order(a, b);
    } else if b.lt(a) {
        lemma_key_bytes_order(b, a);
        lemma_bytes_lt_asymmetric(key_bytes(b), key_bytes(a));
    } else {
        if bytes_lt(key_bytes(a), key_bytes(b)) {
            lemma_bytes_lt_asymmetric(key_bytes(a), key_bytes(b));
        }
    }
}

/// The funding keys of a fingerprint are the keys that its prefix leads.
pub proof fn lemma_funding_prefix_leads(fingerprint: Hash256, k: Key)
    ensures
        (k matches Key::Funding { fingerprint: f, .. } && f == fingerprint) <==> (key_bytes(k).len()
            == 45 && key_bytes(k).take(33) == funding_prefix(fingerprint)),
{
    let b = key_bytes(k);
    lemma_bytes_round_trip(fingerprint);
    match k {
        Key::Funding { fingerprint: f, height, position, vout } => {
            lemma_bytes_round_trip(f);
            lemma_tail_lengths(k);
            assert(b.len() == 45);
            let lead = seq![3u8] + bytes_of(f);
            assert(b =~= lead + (u32_bytes(height) + u32_bytes(position) + u32_bytes(vout)));
            assert(b.take(33) =~= lead);
            if b.take(33) == funding_prefix(fingerprint) {
                assert(bytes_of(f) =~= lead.subrange(1, 33));
                assert(bytes_of(fingerprint) =~= funding_prefix(fingerprint).subrange(1, 33));
                assert(hash_of_bytes(bytes_of(f)) == hash_of_bytes(bytes_of(fingerprint)));
                assert(f == fingerprint);
            }
            if f == fingerprint {
                assert(b.take(33) == funding_prefix(fingerprint));
            }
        },
        Key::Tip => {},
        Key::Block(h) => {
            lemma_bytes_round_trip(h);
        },
        Key::Tx(h) => {
            lemma_bytes_round_trip(h);
        },
        Key::Spend { txid, .. } => {
            lemma_bytes_round_trip(txid);
            lemma_tail_lengths(k);
        },
    }
}

/// An input as bytes: the id of the transaction it spends from, then the
/// number of the output.
pub open spec fn input_bytes(input: OutPoint) -> Seq<u8> {
    bytes_of(input.txid) + u32_bytes(input.vout)
}

/// An output as bytes: the amount, then the fingerprint.
pub open spec fn output_bytes(output: TxOut) -> Seq<u8> {
    limb_bytes(output.value) + bytes_of(output.fingerprint)
}

/// The first `n` inputs as bytes, one after the other.
pub open spec fn inputs_bytes(inputs: Seq<OutPoint>, n: nat) -> Seq<u8>
    decreases n,
{
    if n == 0 {
        Seq::empty()
    } else {
        inputs_bytes(inputs, (n - 1) as nat) + input_bytes(inputs[n - 1])
    }
}

/// The first `n` outputs as bytes, one after the other.
pub open spec fn outputs_bytes(outputs: Seq<TxOut>, n: nat) -> Seq<u8>
    decreases n,
{
    if n == 0 {
        Seq::empty()
    } else {
        outputs_bytes(outputs, (n - 1) as nat) + output_bytes(outputs[n - 1])
    }
}

/// A transaction as bytes: its id, the numbers of its inputs and outputs,
/// the inputs, the outputs.
#[verifier::opaque]
pub open spec fn tx_bytes(tx: TxModel) -> Seq<u8> {
    bytes_of(tx.txid) + u32_bytes(tx.inputs.len() as u32) + u32_bytes(tx.outputs.len() as u32)
        + inputs_bytes(tx.inputs, tx.inputs.len()) + outputs_bytes(tx.outputs, tx.outputs.len())
}

/// What a row holds beside its key, as bytes.
pub open spec fn value_bytes(row: RowModel) -> Seq<u8> {
    match row {
        RowModel::Tip { hash, height } => bytes_of(hash) + u32_bytes(height),
        RowModel::Block { height, prev, .. } => u32_bytes(height) + bytes_of(prev),
        RowModel::Tx { height, position, body, .. } => u32_bytes(height) + u32_bytes(position)
            + tx_bytes(body),
        RowModel::Funding { txid, value, .. } => bytes_of(txid) + limb_bytes(value),
        RowModel::Spend { height, position, spender, .. } => u32_bytes(height) + u32_bytes(position)
            + bytes_of(spender),
    }
}

/// The input that the 36 bytes from `at` spell.
pub open spec fn input_at(b: Seq<u8>, at: int) -> OutPoint {
    OutPoint { txid: hash_of_bytes(b.subrange(at, at + 32)), vout: u32_of(b, at + 32) as u32 }
}

/// The output that the 40 bytes from `at` spell.
pub open spec fn output_at_bytes(b: Seq<u8>, at: int) -> TxOut {
    TxOut { value: limb_of(b, at) as u64, fingerprint: hash_of_bytes(b.subrange(at + 8, at + 40)) }
}

/// The transaction that the bytes from `at` to the end spell, if they
/// spell one.
#[verifier::opaque]
pub open spec fn tx_of_bytes(b: Seq<u8>, at: int) -> Option<TxModel> {
    if b.len() < at + 40 {
        None
    } else {
        let n_in = u32_of(b, at + 32);
        let n_out = u32_of(b, at + 36);
        if b.len() != at + 40 + 36 * n_in + 40 * n_out {
            None
        } else {
            Some(
                TxModel {
                    txid: hash_of_bytes(b.subrange(at, at + 32)),
                    inputs: Seq::new(n_in as nat, |i: int| input_at(b, at + 40 + 36 * i)),
                    outputs: Seq::new(
                        n_out as nat,
                        |j: int| output_at_bytes(b, at + 40 + 36 * n_in + 40 * j),
                    ),
                },
            )
        }
    }
}

/// The row that a key and the bytes beside it spell, if they spell one.
pub open spec fn row_of_bytes(k: Key, v: Seq<u8>) -> Option<RowModel> {
    match k {
        Key::Tip => if v.len() == 36 {
            Some(RowModel::Tip { hash: hash_of_bytes(v.subrange(0, 32)), height: u32_of(v, 32) as u32 })
        } else {
            None
        },
        Key::Block(hash) => if v.len() == 36 {
            Some(
                RowModel::Block {
                    hash,
                    height: u32_of(v, 0) as u32,
                    prev: hash_of_bytes(v.subrange(4, 36)),
                },
            )
        } else {
            None
        },
        Key::Tx(txid) => match tx_of_bytes(v, 8) {
            Some(body) => Some(
                RowModel::Tx {
                    txid,
                    height: u32_of(v, 0) as u32,
                    position: u32_of(v, 4) as u32,
                    body,
                },
            ),
            None => None,
        },
        Key::Funding { fingerprint, height, position, vout } => if v.len() == 40 {
            Some(
                RowModel::Funding {
                    fingerprint,
                    height,
                    position,
                    vout,
                    txid: hash_of_bytes(v.subrange(0, 32)),
                    value: limb_of(v, 32) as u64,
                },
            )
        } else {
            None
        },
        Key::Spend { txid, vout } => if v.len() == 40 {
            Some(
                RowModel::Spend {
                    txid,
                    vout,
                    height: u32_of(v, 0) as u32,
                    position: u32_of(v, 4) as u32,
                    spender: hash_of_bytes(v.subrange(8, 40)),
                },
            )
        } else {
            None
        },
    }
}

/// Whether the inputs and outputs of a transaction can be counted in 32 bits.
pub open spec fn countable(tx: TxModel) -> bool {
    tx.inputs.len() <= 0xffff_ffff && tx.outputs.len() <= 0xffff_ffff
}

/// Reading a number from where it was written gives the number.
proof fn lemma_u32_in_place(b: Seq<u8>, at: int, x: u32)
    requires
        0 <= at,
        at + 4 <= b.len(),
        b.subrange(at, at + 4) == u32_bytes(x),
    ensures
        u32_of(b, at) == x,
{
    lemma_u32_round_trip(x);
    let piece = b.subrange(at, at + 4);
    assert(piece[0] == b[at] && piece[1] == b[at + 1] && piece[2] == b[at + 2] && piece[3] == b[at
        + 3]);
    assert(u32_of(b, at) == u32_of(piece, 0));
}

/// Reading a limb from where it was written gives the limb.
proof fn lemma_limb_in_place(b: Seq<u8>, at: int, x: u64)
    requires
        0 <= at,
        at + 8 <= b.len(),
        b.subrange(at, at + 8) == limb_bytes(x),
    ensures
        limb_of(b, at) == x,
{
    lemma_limb_round_trip(x);
    let piece = b.subrange(at, at + 8);
    assert(piece[0] == b[at] && piece[1] == b[at + 1] && piece[2] == b[at + 2] && piece[3] == b[at
        + 3] && piece[4] == b[at + 4] && piece[5] == b[at + 5] && piece[6] == b[at + 6] && piece[7]
        == b[at + 7]);
    assert(limb_of(b, at) == limb_of(piece, 0));
}

/// The length of written inputs, and where each of them lies.
proof fn lemma_inputs_bytes(inputs: Seq<OutPoint>, n: nat, i: int)
    requires
        n <= inputs.len(),
        0 <= i < n,
    ensures
        inputs_bytes(inputs, n).len() == 36 * n,
        inputs_bytes(inputs, n).subrange(36 * i, 36 * i + 36) == input_bytes(inputs[i]),
    decreases n,
{
    lemma_inputs_len(inputs, n);
    lemma_inputs_len(inputs, (n - 1) as nat);
    lemma_input_len(inputs[n - 1]);
    let before = inputs_bytes(inputs, (n - 1) as nat);
    let all = inputs_bytes(inputs, n);
    if i == n - 1 {
        assert(all.subrange(36 * i, 36 * i + 36) =~= input_bytes(inputs[i]));
    } else {
        lemma_inputs_bytes(inputs, (n - 1) as nat, i);
        assert(all.subrange(36 * i, 36 * i + 36) =~= before.subrange(36 * i, 36 * i + 36));
    }
}

proof fn lemma_input_len(input: OutPoint)
    ensures
        input_bytes(input).len() == 36,
{
    lemma_bytes_round_trip(input.txid);
    lemma_u32_round_trip(input.vout);
}

proof fn lemma_output_len(output: TxOut)
    ensures
        output_bytes(output).len() == 40,
{
    lemma_bytes_round_trip(output.fingerprint);
    lemma_limb_round_trip(output.value);
}

proof fn lemma_inputs_len(inputs: Seq<OutPoint>, n: nat)
    requires
        n <= inputs.len(),
    ensures
        inputs_bytes(inputs, n).len() == 36 * n,
    decreases n,
{
    if n > 0 {
        lemma_inputs_len(inputs, (n - 1) as nat);
        lemma_input_len(inputs[n - 1]);
    }
}

proof fn lemma_outputs_len(outputs: Seq<TxOut>, n: nat)
    requires
        n <= outputs.len(),
    ensures
        outputs_bytes(outputs, n).len() == 40 * n,
    decreases n,
{
    if n > 0 {
        lemma_outputs_len(outputs, (n - 1) as nat);
        lemma_output_len(outputs[n - 1]);
    }
}

proof fn lemma_outputs_bytes(outputs: Seq<TxOut>, n: nat, j: int)
    requires
        n <= outputs.len(),
        0 <= j < n,
    ensures
        outputs_bytes(outputs, n).len() == 40 * n,
        outputs_bytes(outputs, n).subrange(40 * j, 40 * j + 40) == output_bytes(outputs[j]),
    decreases n,
{
    lemma_outputs_len(outputs, n);
    lemma_outputs_len(outputs, (n - 1) as nat);
    lemma_output_len(outputs[n - 1]);
    let before = outputs_bytes(outputs, (n - 1) as nat);
    let all = outputs_bytes(outputs, n);
    if j == n - 1 {
        assert(all.subrange(40 * j, 40 * j + 40) =~= output_bytes(outputs[j]));
    } else {
        lemma_outputs_bytes(outputs, (n - 1) as nat, j);
        assert(all.subrange(40 * j, 40 * j + 40) =~= before.subrange(40 * j, 40 * j + 40));
    }
}

/// A stretch of the middle one of three parts is a stretch of the whole.
proof fn lemma_middle(p: Seq<u8>, m: Seq<u8>, r: Seq<u8>, a: int, c: int)
    requires
        0 <= a <= c <= m.len(),
    ensures
        (p + m + r).subrange(p.len() + a, p.len() + c) == m.subrange(a, c),
        (p + m + r).len() == p.len() + m.len() + r.len(),
{
    assert((p + m + r).subrange(p.len() + a, p.len() + c) =~= m.subrange(a, c));
}

/// The parts of a written transaction that follows a lead: the lead and
/// the head of 40 bytes, the inputs, the outputs.
proof fn lemma_tx_parts(lead: Seq<u8>, tx: TxModel)
    requires
        countable(tx),
    ensures
        lead + tx_bytes(tx) == lead + (bytes_of(tx.txid) + u32_bytes(tx.inputs.len() as u32)
            + u32_bytes(tx.outputs.len() as u32)) + (inputs_bytes(tx.inputs, tx.inputs.len())
            + outputs_bytes(tx.outputs, tx.outputs.len())),
        lead + tx_bytes(tx) == (lead + (bytes_of(tx.txid) + u32_bytes(tx.inputs.len() as u32)
            + u32_bytes(tx.outputs.len() as u32))) + inputs_bytes(tx.inputs, tx.inputs.len())
            + outputs_bytes(tx.outputs, tx.outputs.len()),
        (bytes_of(tx.txid) + u32_bytes(tx.inputs.len() as u32) + u32_bytes(
            tx.outputs.len() as u32,
        )).len() == 40,
        inputs_bytes(tx.inputs, tx.inputs.len()).len() == 36 * tx.inputs.len(),
        outputs_bytes(tx.outputs, tx.outputs.len()).len() == 40 * tx.outputs.len(),
        (lead + tx_bytes(tx)).len() == lead.len() + 40 + 36 * tx.inputs.len() + 40
            * tx.outputs.len(),
{
    reveal(tx_bytes);
    let head = bytes_of(tx.txid) + u32_bytes(tx.inputs.len() as u32) + u32_bytes(
        tx.outputs.len() as u32,
    );
    let ins = inputs_bytes(tx.inputs, tx.inputs.len());
    let outs = outputs_bytes(tx.outputs, tx.outputs.len());
    lemma_bytes_round_trip(tx.txid);
    lemma_u32_round_trip(tx.inputs.len() as u32);
    lemma_u32_round_trip(tx.outputs.len() as u32);
    lemma_inputs_len(tx.inputs, tx.inputs.len());
    lemma_outputs_len(tx.outputs, tx.outputs.len());
    assert(lead + tx_bytes(tx) =~= lead + head + (ins + outs));
    assert(lead + tx_bytes(tx) =~= (lead + head) + ins + outs);
}

/// The head of a written transaction is read back.
proof fn lemma_tx_head(lead: Seq<u8>, tx: TxModel)
    requires
        countable(tx),
    ensures
        hash_of_bytes((lead + tx_bytes(tx)).subrange(lead.len() as int, lead.len() as int + 32))
            == tx.txid,
        u32_of(lead + tx_bytes(tx), lead.len() as int + 32) == tx.inputs.len(),
        u32_of(lead + tx_bytes(tx), lead.len() as int + 36) == tx.outputs.len(),
{
    let at = lead.len() as int;
    let b = lead + tx_bytes(tx);
    let id = bytes_of(tx.txid);
    let n1 = u32_bytes(tx.inputs.len() as u32);
    let n2 = u32_bytes(tx.outputs.len() as u32);
    let head = id + n1 + n2;
    let rest = inputs_bytes(tx.inputs, tx.inputs.len()) + outputs_bytes(
        tx.outputs,
        tx.outputs.len(),
    );
    lemma_tx_parts(lead, tx);
    lemma_bytes_round_trip(tx.txid);
    lemma_u32_round_trip(tx.inputs.len() as u32);
    lemma_u32_round_trip(tx.outputs.len() as u32);
    lemma_middle(lead, head, rest, 0, 32);
    lemma_middle(lead, head, rest, 32, 36);
    lemma_middle(lead, head, rest, 36, 40);
    assert(head.subrange(0, 32) =~= id);
    assert(head.subrange(32, 36) =~= n1);
    assert(head.subrange(36, 40) =~= n2);
    lemma_u32_in_place(b, at + 32, tx.inputs.len() as u32);
    lemma_u32_in_place(b, at + 36, tx.outputs.len() as u32);
}

/// An input of a written transaction is read back from its place.
proof fn lemma_tx_input(lead: Seq<u8>, tx: TxModel, i: int)
    requires
        countable(tx),
        0 <= i < tx.inputs.len(),
    ensures
        input_at(lead + tx_bytes(tx), lead.len() as int + 40 + 36 * i) == tx.inputs[i],
{
    let b = lead + tx_bytes(tx);
    let head = bytes_of(tx.txid) + u32_bytes(tx.inputs.len() as u32) + u32_bytes(
        tx.outputs.len() as u32,
    );
    let ins = inputs_bytes(tx.inputs, tx.inputs.len());
    let outs = outputs_bytes(tx.outputs, tx.outputs.len());
    let off = lead.len() + 40 + 36 * i;
    let piece = input_bytes(tx.inputs[i]);
    lemma_tx_parts(lead, tx);
    lemma_inputs_bytes(tx.inputs, tx.inputs.len(), i);
    lemma_input_len(tx.inputs[i]);
    lemma_bytes_round_trip(tx.inputs[i].txid);
    lemma_u32_round_trip(tx.inputs[i].vout);
    lemma_middle(lead + head, ins, outs, 36 * i, 36 * i + 32);
    lemma_middle(lead + head, ins, outs, 36 * i + 32, 36 * i + 36);
    assert(ins.subrange(36 * i, 36 * i + 32) =~= ins.subrange(36 * i, 36 * i + 36).subrange(0, 32));
    assert(ins.subrange(36 * i + 32, 36 * i + 36) =~= ins.subrange(36 * i, 36 * i + 36).subrange(
        32,
        36,
    ));
    assert(piece.subrange(0, 32) =~= bytes_of(tx.inputs[i].txid));
    assert(piece.subrange(32, 36) =~= u32_bytes(tx.inputs[i].vout));
    lemma_u32_in_place(b, off + 32, tx.inputs[i].vout);
}

/// A stretch of the last one of two parts is a stretch of the whole.
proof fn lemma_last(p: Seq<u8>, m: Seq<u8>, a: int, c: int)
    requires
        0 <= a <= c <= m.len(),
    ensures
        (p + m).subrange(p.len() + a, p.len() + c) == m.subrange(a, c),
{
    assert((p + m).subrange(p.len() + a, p.len() + c) =~= m.subrange(a, c));
}

/// An output of a written transaction is read back from its place.
proof fn lemma_tx_output(lead: Seq<u8>, tx: TxModel, j: int)
    requires
        countable(tx),
        0 <= j < tx.outputs.len(),
    ensures
        output_at_bytes(lead + tx_bytes(tx), lead.len() as int + 40 + 36 * tx.inputs.len() + 40 * j)
            == tx.outputs[j],
{
    let b = lead + tx_bytes(tx);
    let head = bytes_of(tx.txid) + u32_bytes(tx.inputs.len() as u32) + u32_bytes(
        tx.outputs.len() as u32,
    );
    let ins = inputs_bytes(tx.inputs, tx.inputs.len());
    let outs = outputs_bytes(tx.outputs, tx.outputs.len());
    let before = (lead + head) + ins;
    let off = lead.len() + 40 + 36 * tx.inputs.len() + 40 * j;
    lemma_tx_parts(lead, tx);
    assert(b == before + outs);
    assert(before.len() == lead.len() + 40 + 36 * tx.inputs.len());
    lemma_outputs_bytes(tx.outputs, tx.outputs.len(), j);
    lemma_last(before, outs, 40 * j, 40 * j + 8);
    lemma_last(before, outs, 40 * j + 8, 40 * j + 40);
    lemma_output_piece(outs.subrange(40 * j, 40 * j + 40), tx.outputs[j]);
    assert(outs.subrange(40 * j, 40 * j + 8) =~= outs.subrange(40 * j, 40 * j + 40).subrange(0, 8));
    assert(outs.subrange(40 * j + 8, 40 * j + 40) =~= outs.subrange(40 * j, 40 * j + 40).subrange(
        8,
        40,
    ));
    lemma_limb_in_place(b, off, tx.outputs[j].value);
    lemma_bytes_round_trip(tx.outputs[j].fingerprint);
}

/// The two parts of a written output.
proof fn lemma_output_piece(piece: Seq<u8>, output: TxOut)
    requires
        piece == output_bytes(output),
    ensures
        piece.len() == 40,
        piece.subrange(0, 8) == limb_bytes(output.value),
        piece.subrange(8, 40) == bytes_of(output.fingerprint),
{
    lemma_bytes_round_trip(output.fingerprint);
    lemma_limb_round_trip(output.value);
    assert(piece.subrange(0, 8) =~= limb_bytes(output.value));
    assert(piece.subrange(8, 40) =~= bytes_of(output.fingerprint));
}

/// Reading a written transaction that follows a lead gives it back.
pub proof fn lemma_tx_round_trip(lead: Seq<u8>, tx: TxModel)
    requires
        countable(tx),
    ensures
        tx_of_bytes(lead + tx_bytes(tx), lead.len() as int) == Some(tx),
{
    reveal(tx_of_bytes);
    let at = lead.len() as int;
    let b = lead + tx_bytes(tx);
    lemma_tx_parts(lead, tx);
    lemma_tx_head(lead, tx);
    assert(tx_of_bytes(b, at) is Some);
    let got = tx_of_bytes(b, at)->0;
    assert forall|i: int| 0 <= i < tx.inputs.len() implies got.inputs[i] == tx.inputs[i] by {
        lemma_tx_input(lead, tx, i);
    }
    assert forall|j: int| 0 <= j < tx.outputs.len() implies got.outputs[j] == tx.outputs[j] by {
        lemma_tx_output(lead, tx, j);
    }
    assert(got.inputs =~= tx.inputs);
    assert(got.outputs =~= tx.outputs);
}

/// Where the two parts of a string lie.
proof fn lemma_two_parts(a: Seq<u8>, b: Seq<u8>)
    ensures
        (a + b).len() == a.len() + b.len(),
        (a + b).subrange(0, a.len() as int) == a,
        (a + b).subrange(a.len() as int, (a.len() + b.len()) as int) == b,
{
    assert((a + b).subrange(0, a.len() as int) =~= a);
    assert((a + b).subrange(a.len() as int, (a.len() + b.len()) as int) =~= b);
}

/// Where the three parts of a string lie.
proof fn lemma_three_parts(a: Seq<u8>, b: Seq<u8>, c: Seq<u8>)
    ensures
        (a + b + c).len() == a.len() + b.len() + c.len(),
        (a + b + c).subrange(0, a.len() as int) == a,
        (a + b + c).subrange(a.len() as int, (a.len() + b.len()) as int) == b,
        (a + b + c).subrange((a.len() + b.len()) as int, (a.len() + b.len() + c.len()) as int) == c,
{
    assert((a + b + c).subrange(0, a.len() as int) =~= a);
    assert((a + b + c).subrange(a.len() as int, (a.len() + b.len()) as int) =~= b);
    assert((a + b + c).subrange((a.len() + b.len()) as int, (a.len() + b.len() + c.len()) as int) =~= c);
}

proof fn lemma_tip_round_trip(hash: Hash256, height: u32)
    ensures
        row_of_bytes(Key::Tip, bytes_of(hash) + u32_bytes(height)) == Some(
            RowModel::Tip { hash, height },
        ),
{
    let v = bytes_of(hash) + u32_bytes(height);
    lemma_bytes_round_trip(hash);
    lemma_u32_round_trip(height);
    lemma_two_parts(bytes_of(hash), u32_bytes(height));
    lemma_u32_in_place(v, 32, height);
}

proof fn lemma_block_round_trip(hash: Hash256, height: u32, prev: Hash256)
    ensures
        row_of_bytes(Key::Block(hash), u32_bytes(height) + bytes_of(prev)) == Some(
            RowModel::Block { hash, height, prev },
        ),
{
    let v = u32_bytes(height) + bytes_of(prev);
    lemma_bytes_round_trip(prev);
    lemma_u32_round_trip(height);
    lemma_two_parts(u32_bytes(height), bytes_of(prev));
    lemma_u32_in_place(v, 0, height);
}

proof fn lemma_funding_round_trip(k: Key, txid: Hash256, value: u64)
    requires
        k is Funding,
    ensures
        row_of_bytes(k, bytes_of(txid) + limb_bytes(value)) matches Some(
            RowModel::Funding { txid: t, value: a, .. },
        ) && t == txid && a == value,
{
    let v = bytes_of(txid) + limb_bytes(value);
    lemma_bytes_round_trip(txid);
    lemma_limb_round_trip(value);
    lemma_two_parts(bytes_of(txid), limb_bytes(value));
    lemma_limb_in_place(v, 32, value);
}

proof fn lemma_spend_round_trip(k: Key, height: u32, position: u32, spender: Hash256)
    requires
        k is Spend,
    ensures
        row_of_bytes(k, u32_bytes(height) + u32_bytes(position) + bytes_of(spender)) matches Some(
            RowModel::Spend { height: h, position: p, spender: s, .. },
        ) && h == height && p == position && s == spender,
{
    let v = u32_bytes(height) + u32_bytes(position) + bytes_of(spender);
    lemma_bytes_round_trip(spender);
    lemma_u32_round_trip(height);
    lemma_u32_round_trip(position);
    lemma_three_parts(u32_bytes(height), u32_bytes(position), bytes_of(spender));
    lemma_u32_in_place(v, 0, height);
    lemma_u32_in_place(v, 4, position);
}

proof fn lemma_tx_row_round_trip(txid: Hash256, height: u32, position: u32, body: TxModel)
    requires
        countable(body),
    ensures
        row_of_bytes(Key::Tx(txid), u32_bytes(height) + u32_bytes(position) + tx_bytes(body))
            == Some(RowModel::Tx { txid, height, position, body }),
{
    let lead = u32_bytes(height) + u32_bytes(position);
    let v = lead + tx_bytes(body);
    lemma_u32_round_trip(height);
    lemma_u32_round_trip(position);
    lemma_tx_round_trip(lead, body);
    lemma_three_parts(u32_bytes(height), u32_bytes(position), tx_bytes(body));
    lemma_u32_in_place(v, 0, height);
    lemma_u32_in_place(v, 4, position);
}

/// Reading a written row under its key gives the row back.
pub proof fn lemma_row_round_trip(row: RowModel)
    requires
        row matches RowModel::Tx { body, .. } ==> countable(body),
    ensures
        row_of_bytes(row.key(), value_bytes(row)) == Some(row),
{
    match row {
        RowModel::Tip { hash, height } => {
            lemma_tip_round_trip(hash, height);
        },
        RowModel::Block { hash, height, prev } => {
            lemma_block_round_trip(hash, height, prev);
        },
        RowModel::Tx { txid, height, position, body } => {
            lemma_tx_row_round_trip(txid, height, position, body);
        },
        RowModel::Funding { txid, value, .. } => {
            lemma_funding_round_trip(row.key(), txid, value);
        },
        RowModel::Spend { height, position, spender, .. } => {
            lemma_spend_round_trip(row.key(), height, position, spender);
        },
    }
}

/// Appends a transaction as bytes.
fn push_tx(out: &mut Vec<u8>, tx: &Transaction)
    requires
        tx.indexable(),
    ensures
        final(out)@ == old(out)@ + tx_bytes(tx@),
{
    let ghost start = out@;
    let ghost model = tx@;
    push_hash(out, &tx.txid);
    push_u32(out, tx.inputs.len() as u32);
    push_u32(out, tx.outputs.len() as u32);
    let ghost head = out@;
    let mut i: usize = 0;
    while i < tx.inputs.len()
        invariant
            i <= tx.inputs@.len(),
            model == tx@,
            out@ == head + inputs_bytes(model.inputs, i as nat),
        decreases tx.inputs@.len() - i,
    {
        push_hash(out, &tx.inputs[i].txid);
        push_u32(out, tx.inputs[i].vout);
        assert(out@ =~= head + inputs_bytes(model.inputs, (i + 1) as nat));
        i += 1;
    }
    let ghost mid = out@;
    let mut j: usize = 0;
    while j < tx.outputs.len()
        invariant
            j <= tx.outputs@.len(),
            model == tx@,
            out@ == mid + outputs_bytes(model.outputs, j as nat),
        decreases tx.outputs@.len() - j,
    {
        push_limb(out, tx.outputs[j].value);
        push_hash(out, &tx.outputs[j].fingerprint);
        assert(out@ =~= mid + outputs_bytes(model.outputs, (j + 1) as nat));
        j += 1;
    }
    proof {
        reveal(tx_bytes);
        assert(out@ =~= start + tx_bytes(model));
    }
}

/// Writes what a row holds beside its key.
pub fn encode_value(row: &Row) -> (v: Vec<u8>)
    requires
        row matches Row::Tx { body, .. } ==> body.indexable(),
    ensures
        v@ == value_bytes(row@),
{
    let mut v: Vec<u8> = Vec::new();
    match row {
        Row::Tip { hash, height } => {
            push_hash(&mut v, hash);
            push_u32(&mut v, *height);
            assert(v@ =~= value_bytes(row@));
        },
        Row::Block { height, prev, .. } => {
            push_u32(&mut v, *height);
            push_hash(&mut v, prev);
            assert(v@ =~= value_bytes(row@));
        },
        Row::Tx { height, position, body, .. } => {
            push_u32(&mut v, *height);
            push_u32(&mut v, *position);
            push_tx(&mut v, body);
            assert(v@ =~= value_bytes(row@));
        },
        Row::Funding { txid, value, .. } => {
            push_hash(&mut v, txid);
            push_limb(&mut v, *value);
            assert(v@ =~= value_bytes(row@));
        },
        Row::Spend { height, position, spender, .. } => {
            push_u32(&mut v, *height);
            push_u32(&mut v, *position);
            push_hash(&mut v, spender);
            assert(v@ =~= value_bytes(row@));
        },
    }
    v
}

/// Reads the transaction that the bytes from `at` to the end spell.
fn read_tx(b: &[u8], at: usize) -> (r: Option<Transaction>)
    requires
        at <= 8,
    ensures
        match r {
            Some(tx) => tx_of_bytes(b@, at as int) == Some(tx@),
            None => tx_of_bytes(b@, at as int) is None,
        },
{
    proof {
        reveal(tx_of_bytes);
    }
    if b.len() < at + 40 {
        return None;
    }
    let n_in = read_u32(b, at + 32);
    let n_out = read_u32(b, at + 36);
    let expected: u64 = at as u64 + 40 + 36 * (n_in as u64) + 40 * (n_out as u64);
    if b.len() as u64 != expected {
        return None;
    }
    let len = b.len();
    let mut inputs: Vec<OutPoint> = Vec::new();
    let mut i: usize = 0;
    while i < n_in as usize
        invariant
            i <= n_in,
            at <= 8,
            len == b@.len(),
            b@.len() == at + 40 + 36 * n_in + 40 * n_out,
            inputs@.len() == i,
            forall|k: int| 0 <= k < i ==> #[trigger] inputs@[k] == input_at(b@, at + 40 + 36 * k),
        decreases n_in - i,
    {
        let off = at + 40 + 36 * i;
        inputs.push(OutPoint { txid: read_hash_at(b, off), vout: read_u32(b, off + 32) });
        i += 1;
    }
    let base = at + 40 + 36 * (n_in as usize);
    let mut outputs: Vec<TxOut> = Vec::new();
    let mut j: usize = 0;
    while j < n_out as usize
        invariant
            j <= n_out,
            base == at + 40 + 36 * n_in,
            len == b@.len(),
            b@.len() == base + 40 * n_out,
            outputs@.len() == j,
            forall|k: int|
                0 <= k < j ==> #[trigger] outputs@[k] == output_at_bytes(b@, base + 40 * k),
        decreases n_out - j,
    {
        let off = base + 40 * j;
        outputs.push(TxOut { value: read_limb(b, off), fingerprint: read_hash_at(b, off + 8) });
        j += 1;
    }
    let tx = Transaction { txid: read_hash_at(b, at), inputs, outputs };
    proof {
        let want = tx_of_bytes(b@, at as int)->0;
        assert(tx@.inputs =~= want.inputs);
        assert(tx@.outputs =~= want.outputs);
    }
    Some(tx)
}

/// Reads the row that a key and the bytes beside it spell; none where
/// they spell no row.
pub fn decode_row(k: &Key, v: &[u8]) -> (r: Option<Row>)
    ensures
        match r {
            Some(row) => row_of_bytes(*k, v@) == Some(row@),
            None => row_of_bytes(*k, v@) is None,
        },
{
    match k {
        Key::Tip => {
            if v.len() == 36 {
                Some(Row::Tip { hash: read_hash_at(v, 0), height: read_u32(v, 32) })
            } else {
                None
            }
        },
        Key::Block(hash) => {
            if v.len() == 36 {
                Some(Row::Block { hash: *hash, height: read_u32(v, 0), prev: read_hash_at(v, 4) })
            } else {
                None
            }
        },
        Key::Tx(txid) => {
            match read_tx(v, 8) {
                Some(body) => {
                    proof {
                        reveal(tx_of_bytes);
                    }
                    Some(
                        Row::Tx {
                            txid: *txid,
                            height: read_u32(v, 0),
                            position: read_u32(v, 4),
                            body,
                        },
                    )
                },
                None => None,
            }
        },
        Key::Funding { fingerprint, height, position, vout } => {
            if v.len() == 40 {
                Some(
                    Row::Funding {
                        fingerprint: *fingerprint,
                        height: *height,
                        position: *position,
                        vout: *vout,
                        txid: read_hash_at(v, 0),
                        value: read_limb(v, 32),
                    },
                )
            } else {
                None
            }
        },
        Key::Spend { txid, vout } => {
            if v.len() == 40 {
                Some(
                    Row::Spend {
                        txid: *txid,
                        vout: *vout,
                        height: read_u32(v, 0),
                        position: read_u32(v, 4),
                        spender: read_hash_at(v, 8),
                    },
                )
            } else {
                None
            }
        },
    }
}

} // verus!
