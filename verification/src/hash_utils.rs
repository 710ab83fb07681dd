//! Domain-separated hashes into the field, built on SHA-256.

use crate::error::Error;
use crate::field::{field_bytes, field_from_bytes, F128b};
use sha2::Digest;
use sha2::Sha256;
use vstd::prelude::*;
use vstd::slice::*;

verus! {

/// The SHA-256 digest of a byte string.
pub uninterp spec fn sha256_digest(data: Seq<u8>) -> Seq<u8>;

/// Calls `sha2::Sha256::digest`. The result is the 32-byte SHA-256 digest of
/// `data`, which depends on `data` alone.
#[verifier::external_body]
pub(crate) fn sha256(data: &[u8]) -> (digest: Vec<u8>)
    ensures
        digest@ == sha256_digest(data@),
        digest@.len() == 32,
{
    Sha256::digest(data).to_vec()
}

/// The eight bytes of a 64-bit integer, most significant first.
pub open spec fn u64_be_bytes(k: u64) -> Seq<u8> {
    seq![
        ((k >> 56) & 0xff) as u8,
        ((k >> 48) & 0xff) as u8,
        ((k >> 40) & 0xff) as u8,
        ((k >> 32) & 0xff) as u8,
        ((k >> 24) & 0xff) as u8,
        ((k >> 16) & 0xff) as u8,
        ((k >> 8) & 0xff) as u8,
        (k & 0xff) as u8,
    ]
}

/// The 64-bit integer that eight bytes, most significant first, stand for.
pub open spec fn u64_from_be_bytes(s: Seq<u8>) -> u64 {
    (s[0] as u64) << 56 | (s[1] as u64) << 48 | (s[2] as u64) << 40 | (s[3] as u64) << 32 | (
    s[4] as u64) << 24 | (s[5] as u64) << 16 | (s[6] as u64) << 8 | (s[7] as u64)
}

/// Reading back the big-endian bytes of an integer gives the integer.
pub proof fn lemma_u64_be_round_trip(k: u64)
    ensures
        u64_be_bytes(k).len() == 8,
        u64_from_be_bytes(u64_be_bytes(k)) == k,
{
    let s = u64_be_bytes(k);
    assert(((k >> 56) & 0xff) < 256 && ((k >> 48) & 0xff) < 256 && ((k >> 40) & 0xff) < 256 && ((k
        >> 32) & 0xff) < 256 && ((k >> 24) & 0xff) < 256 && ((k >> 16) & 0xff) < 256 && ((k >> 8)
        & 0xff) < 256 && (k & 0xff) < 256) by (bit_vector);
    assert(k == ((k >> 56) & 0xff) << 56 | ((k >> 48) & 0xff) << 48 | ((k >> 40) & 0xff) << 40 | ((k
        >> 32) & 0xff) << 32 | ((k >> 24) & 0xff) << 24 | ((k >> 16) & 0xff) << 16 | ((k >> 8)
        & 0xff) << 8 | (k & 0xff)) by (bit_vector);
    assert(s[0] as u64 == (k >> 56) & 0xff);
    assert(s[1] as u64 == (k >> 48) & 0xff);
    assert(s[2] as u64 == (k >> 40) & 0xff);
    assert(s[3] as u64 == (k >> 32) & 0xff);
    assert(s[4] as u64 == (k >> 24) & 0xff);
    assert(s[5] as u64 == (k >> 16) & 0xff);
    assert(s[6] as u64 == (k >> 8) & 0xff);
    assert(s[7] as u64 == k & 0xff);
}

/// Writes a 64-bit integer as eight bytes, most significant first.
pub fn u64_to_be(k: u64) -> (bytes: Vec<u8>)
    ensures
        bytes@ == u64_be_bytes(k),
{
    let mut bytes: Vec<u8> = Vec::with_capacity(8);
    bytes.push(#[verifier::truncate] (((k >> 56) & 0xff) as u8));
    bytes.push(#[verifier::truncate] (((k >> 48) & 0xff) as u8));
    bytes.push(#[verifier::truncate] (((k >> 40) & 0xff) as u8));
    bytes.push(#[verifier::truncate] (((k >> 32) & 0xff) as u8));
    bytes.push(#[verifier::truncate] (((k >> 24) & 0xff) as u8));
    bytes.push(#[verifier::truncate] (((k >> 16) & 0xff) as u8));
    bytes.push(#[verifier::truncate] (((k >> 8) & 0xff) as u8));
    bytes.push(#[verifier::truncate] ((k & 0xff) as u8));
    assert(bytes@ =~= u64_be_bytes(k));
    bytes
}

/// Reads eight bytes, most significant first, as a 64-bit integer.
pub fn u64_from_be(bytes: &[u8]) -> (k: u64)
    requires
        bytes@.len() == 8,
    ensures
        k == u64_from_be_bytes(bytes@),
{
    (bytes[0] as u64) << 56 | (bytes[1] as u64) << 48 | (bytes[2] as u64) << 40 | (bytes[3] as u64)
        << 32 | (bytes[4] as u64) << 24 | (bytes[5] as u64) << 16 | (bytes[6] as u64) << 8 | (
    bytes[7] as u64)
}

/// `H(x, y)`: the leading sixteen digest bytes of `x`'s bytes followed by `y`'s.
pub open spec fn hash_spec(x: F128b, y: F128b) -> F128b {
    field_from_bytes(sha256_digest(field_bytes(x) + field_bytes(y)).subrange(0, 16))
}

/// `H_F(x)`: the leading sixteen digest bytes of `x`'s bytes.
pub open spec fn hash_f_spec(x: F128b) -> F128b {
    field_from_bytes(sha256_digest(field_bytes(x)).subrange(0, 16))
}

/// The hash `H: F x F -> F`.
pub fn hash(x: F128b, y: F128b) -> (h: Result<F128b, Error>)
    ensures
        h == Ok::<F128b, Error>(hash_spec(x, y)),
{
    let mut data = x.to_bytes();
    let mut tail = y.to_bytes();
    data.append(&mut tail);
    let digest = sha256(data.as_slice());
    F128b::from_bytes(slice_subrange(digest.as_slice(), 0, 16))
}

/// The hash `H_F: F -> F`.
pub fn hash_f(x: F128b) -> (h: Result<F128b, Error>)
    ensures
        h == Ok::<F128b, Error>(hash_f_spec(x)),
{
    let data = x.to_bytes();
    let digest = sha256(data.as_slice());
    F128b::from_bytes(slice_subrange(digest.as_slice(), 0, 16))
}

} // verus!
