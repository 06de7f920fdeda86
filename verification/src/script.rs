//! The fingerprint of a spending script: its SHA-256 digest, read as an
//! identifier. All outputs with one script share one fingerprint.

use vstd::prelude::*;
use crate::hash::{hash_of_bytes, Hash256};
use crate::model::TxOut;

verus! {

/// The longest script, in bytes, that is fingerprinted.
pub const MAX_SCRIPT_LEN: usize = 0x1000_0000;

/// The SHA-256 digest of bytes, as `rust-crypto` computes it.
pub uninterp spec fn sha256(data: Seq<u8>) -> Seq<u8>;

/// Feeds the bytes to `crypto::sha2::Sha256` and takes the digest, which
/// has 32 bytes. The result is the digest named `sha256`. The input is kept
/// short of the length at which the hasher's bit counter would overflow.
#[verifier::external_body]
fn sha256_digest(data: &Vec<u8>) -> (out: [u8; 32])
    requires
        data@.len() <= MAX_SCRIPT_LEN,
    ensures
        out@ == sha256(data@),
{
    let mut hasher = crypto::sha2::Sha256::new();
    crypto::digest::Digest::input(&mut hasher, data);
    let mut out = [0u8; 32];
    crypto::digest::Digest::result(&mut hasher, &mut out);
    out
}

/// The identifier that a digest of 32 bytes spells.
pub fn digest_to_hash(digest: &[u8; 32]) -> (h: Hash256)
    ensures
        h == hash_of_bytes(digest@),
{
    match Hash256::from_bytes(digest.as_slice()) {
        Some(h) => h,
        None => Hash256::zero(),
    }
}

/// The fingerprint of a script; none for a script longer than any that a
/// block can hold.
pub fn fingerprint(script: &Vec<u8>) -> (r: Option<Hash256>)
    ensures
        match r {
            Some(h) => script@.len() <= MAX_SCRIPT_LEN && h == hash_of_bytes(sha256(script@)),
            None => script@.len() > MAX_SCRIPT_LEN,
        },
{
    if script.len() > MAX_SCRIPT_LEN {
        return None;
    }
    let digest = sha256_digest(script);
    Some(digest_to_hash(&digest))
}

/// The output that pays an amount to a script.
pub fn pay_to_script(value: u64, script: &Vec<u8>) -> (r: Option<TxOut>)
    ensures
        match r {
            Some(o) => script@.len() <= MAX_SCRIPT_LEN && o == (TxOut {
                value,
                fingerprint: hash_of_bytes(sha256(script@)),
            }),
            None => script@.len() > MAX_SCRIPT_LEN,
        },
{
    match fingerprint(script) {
        Some(h) => Some(TxOut { value, fingerprint: h }),
        None => None,
    }
}

} // verus!
