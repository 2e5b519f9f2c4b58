//! The commitment primitive: an opaque 256-bit hash value, the digest that
//! binds a secret, and the mixing operation used to combine revealed secrets.

use vstd::prelude::*;

verus! {

/// An opaque 256-bit value, stored as four little-endian 64-bit words.
/// Used both for commitments/secrets and for beacon outputs.
#[derive(Clone, Copy, PartialEq, Eq, Structural, Debug)]
pub struct Hash256 {
    pub w0: u64,
    pub w1: u64,
    pub w2: u64,
    pub w3: u64,
}

/// The all-zero hash: the neutral element of `mix` and the documented
/// degraded beacon output when no member revealed.
pub open spec fn zero_hash() -> Hash256 {
    Hash256 { w0: 0, w1: 0, w2: 0, w3: 0 }
}

impl Hash256 {
    /// The all-zero hash value.
    pub fn zero() -> (r: Hash256)
        ensures
            r == zero_hash(),
    {
        Hash256 { w0: 0, w1: 0, w2: 0, w3: 0 }
    }
}

/// Word-wise exclusive-or of two hash values.
pub open spec fn mix_spec(a: Hash256, b: Hash256) -> Hash256 {
    Hash256 { w0: a.w0 ^ b.w0, w1: a.w1 ^ b.w1, w2: a.w2 ^ b.w2, w3: a.w3 ^ b.w3 }
}

/// Combines two hash values; the order-independent mixing step of the
/// randomness aggregator.
pub fn mix(a: &Hash256, b: &Hash256) -> (r: Hash256)
    ensures
        r == mix_spec(*a, *b),
{
    Hash256 { w0: a.w0 ^ b.w0, w1: a.w1 ^ b.w1, w2: a.w2 ^ b.w2, w3: a.w3 ^ b.w3 }
}

/// The eight little-endian bytes of one 64-bit word.
pub open spec fn le_bytes_of_word(w: u64) -> Seq<u8> {
    seq![
        (w & 0xff) as u8,
        ((w >> 8) & 0xff) as u8,
        ((w >> 16) & 0xff) as u8,
        ((w >> 24) & 0xff) as u8,
        ((w >> 32) & 0xff) as u8,
        ((w >> 40) & 0xff) as u8,
        ((w >> 48) & 0xff) as u8,
        ((w >> 56) & 0xff) as u8,
    ]
}

/// The 32-byte little-endian serialization of a hash value.
pub open spec fn bytes_of_hash(h: Hash256) -> Seq<u8> {
    le_bytes_of_word(h.w0) + le_bytes_of_word(h.w1) + le_bytes_of_word(h.w2)
        + le_bytes_of_word(h.w3)
}

/// Appends the eight little-endian bytes of `w` to `out`.
fn push_word_le(out: &mut Vec<u8>, w: u64)
    ensures
        final(out)@ == old(out)@ + le_bytes_of_word(w),
{
    out.push((w & 0xff) as u8);
    out.push(((w >> 8) & 0xff) as u8);
    out.push(((w >> 16) & 0xff) as u8);
    out.push(((w >> 24) & 0xff) as u8);
    out.push(((w >> 32) & 0xff) as u8);
    out.push(((w >> 40) & 0xff) as u8);
    out.push(((w >> 48) & 0xff) as u8);
    out.push(((w >> 56) & 0xff) as u8);
    assert(out@ =~= old(out)@ + le_bytes_of_word(w));
}

/// Serializes a hash value to its 32 little-endian bytes.
pub fn hash_to_bytes(h: &Hash256) -> (r: Vec<u8>)
    ensures
        r@ == bytes_of_hash(*h),
{
    let mut out: Vec<u8> = Vec::new();
    push_word_le(&mut out, h.w0);
    push_word_le(&mut out, h.w1);
    push_word_le(&mut out, h.w2);
    push_word_le(&mut out, h.w3);
    assert(out@ =~= bytes_of_hash(*h));
    out
}

/// The digest that the underlying hash function assigns to a byte string.
/// It depends on the bytes alone.
pub uninterp spec fn blake2_of(data: Seq<u8>) -> Hash256;

/// Relies on sp_core::Blake2Hasher::hash (blake2b with a 256-bit output):
/// a 32-byte digest computed from the input bytes alone.
#[verifier::external_body]
pub(crate) fn blake2_words(data: &Vec<u8>) -> (r: Hash256)
    ensures
        r == blake2_of(data@),
{
    let d = <sp_core::Blake2Hasher as sp_core::Hasher>::hash(data.as_slice()).0;
    let word = |i: usize| u64::from_le_bytes(d[i..i + 8].try_into().unwrap());
    Hash256 { w0: word(0), w1: word(8), w2: word(16), w3: word(24) }
}

/// The commitment that binds a secret: the digest of its serialization.
pub open spec fn commitment_spec(secret: Hash256) -> Hash256 {
    blake2_of(bytes_of_hash(secret))
}

/// Computes the commitment for a secret.  A member commits to
/// `commitment_of(secret)` and later reveals `secret`.
pub fn commitment_of(secret: &Hash256) -> (r: Hash256)
    ensures
        r == commitment_spec(*secret),
{
    let bytes = hash_to_bytes(secret);
    blake2_words(&bytes)
}

} // verus!
