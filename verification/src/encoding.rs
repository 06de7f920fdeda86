//! Identifiers as text, the way the daemon writes them: 64 hexadecimal
//! digits, the most significant first.

use vstd::prelude::*;
use crate::hash::{bytes_of, hash_of_bytes, Hash256};

verus! {

/// `hex::FromHexError`, the reason why a text is not hexadecimal.
#[verifier::external_type_specification]
#[verifier::external_body]
pub struct ExFromHexError(hex::FromHexError);

/// The lower-case hexadecimal digit for a number below 16.
pub open spec fn hex_digit(n: u8) -> char {
    if n < 10 {
        ((48 + n) as u8) as char
    } else {
        ((87 + n) as u8) as char
    }
}

/// The number that a hexadecimal digit of either case stands for.
pub open spec fn hex_value(c: char) -> Option<u8> {
    let n = c as u32;
    if 48 <= n <= 57 {
        Some((n - 48) as u8)
    } else if 97 <= n <= 102 {
        Some((n - 87) as u8)
    } else if 65 <= n <= 70 {
        Some((n - 55) as u8)
    } else {
        None
    }
}

/// Bytes as hexadecimal text: two lower-case digits for each byte, the
/// high half first.
pub open spec fn hex_text(bytes: Seq<u8>) -> Seq<char> {
    Seq::new(
        2 * bytes.len(),
        |i: int|
            hex_digit(
                if i % 2 == 0 {
                    bytes[i / 2] / 16
                } else {
                    bytes[i / 2] % 16
                },
            ),
    )
}

/// Whether a text is hexadecimal: an even number of digits of either case.
pub open spec fn is_hex(text: Seq<char>) -> bool {
    text.len() % 2 == 0 && forall|i: int| 0 <= i < text.len() ==> hex_value(#[trigger] text[i]) is Some
}

/// The bytes that a hexadecimal text spells.
pub open spec fn hex_bytes(text: Seq<char>) -> Seq<u8> {
    Seq::new(
        text.len() / 2,
        |i: int| (hex_value(text[2 * i])->0 * 16 + hex_value(text[2 * i + 1])->0) as u8,
    )
}

/// Calls `hex::encode`. The contract claims what its documentation says:
/// each byte becomes two lower-case hexadecimal digits.
#[verifier::external_body]
fn hex_encode(bytes: &Vec<u8>) -> (text: String)
    ensures
        text@ == hex_text(bytes@),
{
    hex::encode(bytes)
}

/// Calls `hex::decode`. The contract claims what its documentation and
/// source show: it succeeds on an even number of hexadecimal digits of
/// either case, and on nothing else; each pair of digits gives one byte.
#[verifier::external_body]
fn hex_decode(text: &str) -> (r: Result<Vec<u8>, hex::FromHexError>)
    ensures
        r is Ok <==> is_hex(text@),
        r matches Ok(bytes) ==> bytes@ == hex_bytes(text@),
{
    hex::decode(text)
}

/// The bytes that a hexadecimal text spells; none for any other text.
pub fn parse_hex(text: &str) -> (r: Option<Vec<u8>>)
    ensures
        match r {
            Some(bytes) => is_hex(text@) && bytes@ == hex_bytes(text@),
            None => !is_hex(text@),
        },
{
    match hex_decode(text) {
        Ok(bytes) => Some(bytes),
        Err(_) => None,
    }
}

/// Bytes as hexadecimal text.
pub fn to_hex(bytes: &Vec<u8>) -> (text: String)
    ensures
        text@ == hex_text(bytes@),
{
    hex_encode(bytes)
}

/// The identifier that a text of 64 hexadecimal digits spells.
pub open spec fn hash_of_text(text: Seq<char>) -> Option<Hash256> {
    if is_hex(text) && text.len() == 64 {
        Some(hash_of_bytes(hex_bytes(text)))
    } else {
        None
    }
}

/// The identifier as 64 hexadecimal digits.
pub fn hash_to_hex(h: &Hash256) -> (text: String)
    ensures
        text@ == hex_text(bytes_of(*h)),
{
    let bytes = h.to_bytes();
    hex_encode(&bytes)
}

/// The identifier that a text of 64 hexadecimal digits spells; none for
/// any other text.
pub fn hash_from_hex(text: &str) -> (r: Option<Hash256>)
    ensures
        r == hash_of_text(text@),
{
    match hex_decode(text) {
        Ok(bytes) => Hash256::from_bytes(bytes.as_slice()),
        Err(_) => None,
    }
}

/// A digit stands for the number it was written for.
pub proof fn lemma_digit_value(n: u8)
    requires
        n < 16,
    ensures
        hex_value(hex_digit(n)) == Some(n),
{
}

/// The text of bytes is hexadecimal and spells those bytes.
pub proof fn lemma_hex_round_trip(bytes: Seq<u8>)
    ensures
        is_hex(hex_text(bytes)),
        hex_bytes(hex_text(bytes)) == bytes,
{
    let text = hex_text(bytes);
    assert forall|i: int| 0 <= i < text.len() implies hex_value(#[trigger] text[i]) is Some by {
        let b = bytes[i / 2];
        lemma_digit_value(b / 16);
        lemma_digit_value(b % 16);
    }
    assert forall|i: int| 0 <= i < bytes.len() implies hex_bytes(text)[i] == bytes[i] by {
        let b = bytes[i];
        lemma_digit_value(b / 16);
        lemma_digit_value(b % 16);
        assert(text[2 * i] == hex_digit(b / 16));
        assert(text[2 * i + 1] == hex_digit(b % 16));
    }
    assert(hex_bytes(text) =~= bytes);
}

/// Reading the text of an identifier gives the identifier back.
pub proof fn lemma_hash_text_round_trip(h: Hash256)
    ensures
        hash_of_text(hex_text(bytes_of(h))) == Some(h),
{
    crate::hash::lemma_bytes_round_trip(h);
    lemma_hex_round_trip(bytes_of(h));
}

} // verus!
