//! 256-bit identifiers: block hashes, transaction ids and script fingerprints.

use vstd::prelude::*;

verus! {

/// A 256-bit value held as four 64-bit limbs, most significant first.
#[derive(Clone, Copy, Debug, PartialEq, Eq, Structural, Hash)]
pub struct Hash256 {
    pub w0: u64,
    pub w1: u64,
    pub w2: u64,
    pub w3: u64,
}

impl Hash256 {
    /// Strict order on identifiers: limb by limb, most significant first.
    pub open spec fn lt(self, other: Hash256) -> bool {
        self.w0 < other.w0 || (self.w0 == other.w0 && (self.w1 < other.w1 || (self.w1 == other.w1
            && (self.w2 < other.w2 || (self.w2 == other.w2 && self.w3 < other.w3)))))
    }

    /// The all-zero identifier, which precedes a chain's first block.
    pub fn zero() -> (h: Hash256)
        ensures
            h == (Hash256 { w0: 0, w1: 0, w2: 0, w3: 0 }),
    {
        Hash256 { w0: 0, w1: 0, w2: 0, w3: 0 }
    }

    /// Whether `self` comes strictly before `other`.
    pub fn precedes(&self, other: &Hash256) -> (b: bool)
        ensures
            b == self.lt(*other),
    {
        if self.w0 != other.w0 {
            self.w0 < other.w0
        } else if self.w1 != other.w1 {
            self.w1 < other.w1
        } else if self.w2 != other.w2 {
            self.w2 < other.w2
        } else {
            self.w3 < other.w3
        }
    }
}

/// The number that eight bytes spell, the most significant first.
pub open spec fn limb_of(b: Seq<u8>, at: int) -> int {
    b[at] * 0x100_0000_0000_0000 + b[at + 1] * 0x1_0000_0000_0000 + b[at + 2] * 0x100_0000_0000 + b[at
        + 3] * 0x1_0000_0000 + b[at + 4] * 0x100_0000 + b[at + 5] * 0x1_0000 + b[at + 6] * 0x100
        + b[at + 7]
}

/// The identifier that 32 bytes spell, the most significant first.
pub open spec fn hash_of_bytes(b: Seq<u8>) -> Hash256 {
    Hash256 {
        w0: limb_of(b, 0) as u64,
        w1: limb_of(b, 8) as u64,
        w2: limb_of(b, 16) as u64,
        w3: limb_of(b, 24) as u64,
    }
}

/// The eight bytes of a limb, the most significant first.
#[verifier::opaque]
pub open spec fn limb_bytes(w: u64) -> Seq<u8> {
    seq![
        (w / 0x100_0000_0000_0000) as u8,
        (w / 0x1_0000_0000_0000 % 0x100) as u8,
        (w / 0x100_0000_0000 % 0x100) as u8,
        (w / 0x1_0000_0000 % 0x100) as u8,
        (w / 0x100_0000 % 0x100) as u8,
        (w / 0x1_0000 % 0x100) as u8,
        (w / 0x100 % 0x100) as u8,
        (w % 0x100) as u8,
    ]
}

/// The 32 bytes of an identifier, the most significant first.
pub open spec fn bytes_of(h: Hash256) -> Seq<u8> {
    limb_bytes(h.w0) + limb_bytes(h.w1) + limb_bytes(h.w2) + limb_bytes(h.w3)
}

/// The bytes of a limb spell the limb.
pub proof fn lemma_limb_round_trip(w: u64)
    ensures
        limb_bytes(w).len() == 8,
        limb_of(limb_bytes(w), 0) == w,
{
    reveal(limb_bytes);
    let q1: u64 = w / 0x100;
    let q2: u64 = w / 0x1_0000;
    let q3: u64 = w / 0x100_0000;
    let q4: u64 = w / 0x1_0000_0000;
    let q5: u64 = w / 0x100_0000_0000;
    let q6: u64 = w / 0x1_0000_0000_0000;
    let q7: u64 = w / 0x100_0000_0000_0000;
    assert(q2 == q1 / 0x100) by (bit_vector)
        requires
            q1 == w / 0x100,
            q2 == w / 0x1_0000,
    ;
    assert(q3 == q2 / 0x100) by (bit_vector)
        requires
            q2 == w / 0x1_0000,
            q3 == w / 0x100_0000,
    ;
    assert(q4 == q3 / 0x100) by (bit_vector)
        requires
            q3 == w / 0x100_0000,
            q4 == w / 0x1_0000_0000,
    ;
    assert(q5 == q4 / 0x100) by (bit_vector)
        requires
            q4 == w / 0x1_0000_0000,
            q5 == w / 0x100_0000_0000,
    ;
    assert(q6 == q5 / 0x100) by (bit_vector)
        requires
            q5 == w / 0x100_0000_0000,
            q6 == w / 0x1_0000_0000_0000,
    ;
    assert(q7 == q6 / 0x100) by (bit_vector)
        requires
            q6 == w / 0x1_0000_0000_0000,
            q7 == w / 0x100_0000_0000_0000,
    ;
    assert(q7 < 0x100) by (bit_vector)
        requires
            q7 == w / 0x100_0000_0000_0000,
    ;
    let b = limb_bytes(w);
    assert(b[7] == w % 0x100);
    assert(b[6] == q1 % 0x100);
    assert(b[5] == q2 % 0x100);
    assert(b[4] == q3 % 0x100);
    assert(b[3] == q4 % 0x100);
    assert(b[2] == q5 % 0x100);
    assert(b[1] == q6 % 0x100);
    assert(b[0] == q7);
    assert(w == 0x100 * q1 + b[7]);
    assert(q1 == 0x100 * q2 + b[6]);
    assert(q2 == 0x100 * q3 + b[5]);
    assert(q3 == 0x100 * q4 + b[4]);
    assert(q4 == 0x100 * q5 + b[3]);
    assert(q5 == 0x100 * q6 + b[2]);
    assert(q6 == 0x100 * q7 + b[1]);
}

/// The bytes of an identifier spell the identifier.
pub proof fn lemma_bytes_round_trip(h: Hash256)
    ensures
        bytes_of(h).len() == 32,
        hash_of_bytes(bytes_of(h)) == h,
{
    let b = bytes_of(h);
    lemma_limb_round_trip(h.w0);
    lemma_limb_round_trip(h.w1);
    lemma_limb_round_trip(h.w2);
    lemma_limb_round_trip(h.w3);
    assert forall|i: int| 0 <= i < 8 implies b[i] == limb_bytes(h.w0)[i] && b[8 + i] == limb_bytes(
        h.w1,
    )[i] && b[16 + i] == limb_bytes(h.w2)[i] && b[24 + i] == limb_bytes(h.w3)[i] by {}
    assert(limb_of(b, 0) == limb_of(limb_bytes(h.w0), 0));
    assert(limb_of(b, 8) == limb_of(limb_bytes(h.w1), 0));
    assert(limb_of(b, 16) == limb_of(limb_bytes(h.w2), 0));
    assert(limb_of(b, 24) == limb_of(limb_bytes(h.w3), 0));
}

/// The limb that eight bytes from `at` spell.
pub(crate) fn read_limb(b: &[u8], at: usize) -> (w: u64)
    requires
        at + 8 <= b@.len(),
    ensures
        w == limb_of(b@, at as int),
{
    (b[at] as u64) * 0x100_0000_0000_0000 + (b[at + 1] as u64) * 0x1_0000_0000_0000 + (b[at
        + 2] as u64) * 0x100_0000_0000 + (b[at + 3] as u64) * 0x1_0000_0000 + (b[at + 4] as u64)
        * 0x100_0000 + (b[at + 5] as u64) * 0x1_0000 + (b[at + 6] as u64) * 0x100 + (b[at
        + 7] as u64)
}

/// Appends the eight bytes of a limb.
pub(crate) fn push_limb(out: &mut Vec<u8>, w: u64)
    ensures
        final(out)@ == old(out)@ + limb_bytes(w),
{
    out.push((w / 0x100_0000_0000_0000) as u8);
    out.push((w / 0x1_0000_0000_0000 % 0x100) as u8);
    out.push((w / 0x100_0000_0000 % 0x100) as u8);
    out.push((w / 0x1_0000_0000 % 0x100) as u8);
    out.push((w / 0x100_0000 % 0x100) as u8);
    out.push((w / 0x1_0000 % 0x100) as u8);
    out.push((w / 0x100 % 0x100) as u8);
    out.push((w % 0x100) as u8);
    proof {
        reveal(limb_bytes);
    }
    assert(out@ =~= old(out)@ + limb_bytes(w));
}

impl Hash256 {
    /// The identifier that the bytes spell, the most significant first;
    /// none unless there are 32 of them.
    pub fn from_bytes(b: &[u8]) -> (r: Option<Hash256>)
        ensures
            r == if b@.len() == 32 {
                Some(hash_of_bytes(b@))
            } else {
                None
            },
    {
        if b.len() != 32 {
            return None;
        }
        Some(
            Hash256 {
                w0: read_limb(b, 0),
                w1: read_limb(b, 8),
                w2: read_limb(b, 16),
                w3: read_limb(b, 24),
            },
        )
    }

    /// The 32 bytes of the identifier, the most significant first.
    pub fn to_bytes(&self) -> (b: Vec<u8>)
        ensures
            b@ == bytes_of(*self),
    {
        let mut b: Vec<u8> = Vec::new();
        push_limb(&mut b, self.w0);
        push_limb(&mut b, self.w1);
        push_limb(&mut b, self.w2);
        push_limb(&mut b, self.w3);
        assert(b@ =~= bytes_of(*self));
        b
    }
}

} // verus!
