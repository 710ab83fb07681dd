//! The wire format of vectors of field elements.
//!
//! A vector travels as the length of its payload in bytes, written as eight
//! bytes most significant first, followed by the payload: the sixteen bytes of
//! each element in turn.

use crate::error::Error;
use crate::field::{field_bytes, field_from_bytes, lemma_field_bytes_round_trip, F128b};
use crate::hash_utils::{lemma_u64_be_round_trip, u64_be_bytes, u64_from_be, u64_from_be_bytes, u64_to_be};
use vstd::prelude::*;
use vstd::slice::slice_subrange;

verus! {

/// The payload of a vector: the bytes of its elements in turn.
pub open spec fn payload_of(v: Seq<F128b>) -> Seq<u8>
    decreases v.len(),
{
    if v.len() == 0 {
        Seq::empty()
    } else {
        payload_of(v.drop_last()) + field_bytes(v.last())
    }
}

/// The elements that a payload of whole elements stands for.
pub open spec fn elements_of(payload: Seq<u8>) -> Seq<F128b> {
    Seq::new(payload.len() / 16, |i: int| field_from_bytes(payload.subrange(16 * i, 16 * i + 16)))
}

/// The frame of a vector: length prefix and payload.
pub open spec fn frame_of(v: Seq<F128b>) -> Seq<u8> {
    u64_be_bytes((16 * v.len()) as u64) + payload_of(v)
}

/// A payload has sixteen bytes per element.
pub proof fn lemma_payload_len(v: Seq<F128b>)
    ensures
        payload_of(v).len() == 16 * v.len(),
    decreases v.len(),
{
    if v.len() > 0 {
        lemma_payload_len(v.drop_last());
        lemma_field_bytes_round_trip(v.last());
    }
}

/// Element `i` of a vector stands at bytes `16 i .. 16 i + 16` of its payload.
pub proof fn lemma_payload_element(v: Seq<F128b>, i: int)
    requires
        0 <= i < v.len(),
    ensures
        payload_of(v).subrange(16 * i, 16 * i + 16) == field_bytes(v[i]),
    decreases v.len(),
{
    let head = v.drop_last();
    lemma_payload_len(head);
    lemma_payload_len(v);
    lemma_field_bytes_round_trip(v.last());
    if i == v.len() - 1 {
        assert(payload_of(v).subrange(16 * i, 16 * i + 16) =~= field_bytes(v.last()));
    } else {
        lemma_payload_element(head, i);
        assert(payload_of(v).subrange(16 * i, 16 * i + 16) =~= payload_of(head).subrange(
            16 * i,
            16 * i + 16,
        ));
    }
}

/// A vector comes back from its payload.
pub proof fn lemma_vec_f_round_trip(v: Seq<F128b>)
    ensures
        payload_of(v).len() % 16 == 0,
        elements_of(payload_of(v)) == v,
{
    lemma_payload_len(v);
    let back = elements_of(payload_of(v));
    assert(back.len() == v.len());
    assert forall|i: int| 0 <= i < v.len() implies back[i] == v[i] by {
        lemma_payload_element(v, i);
        lemma_field_bytes_round_trip(v[i]);
    }
    assert(back =~= v);
}

/// The payload of a vector of field elements.
pub fn vec_f_payload(v: &[F128b]) -> (bytes: Vec<u8>)
    ensures
        bytes@ == payload_of(v@),
        bytes@.len() == 16 * v@.len(),
{
    let mut bytes: Vec<u8> = Vec::new();
    let mut i: usize = 0;
    assert(v@.subrange(0, 0) =~= Seq::<F128b>::empty());
    while i < v.len()
        invariant
            i <= v@.len(),
            bytes@ == payload_of(v@.subrange(0, i as int)),
        decreases v@.len() - i,
    {
        let mut next = v[i].to_bytes();
        bytes.append(&mut next);
        proof {
            let grown = v@.subrange(0, i + 1);
            assert(grown.drop_last() =~= v@.subrange(0, i as int));
            assert(grown.last() == v@[i as int]);
        }
        i = i + 1;
    }
    proof {
        assert(v@.subrange(0, i as int) =~= v@);
        lemma_payload_len(v@);
    }
    bytes
}

/// The bytes to write for a vector of field elements: the payload's length
/// in bytes as eight bytes, most significant first, then the payload. The
/// channel is to be flushed after them.
pub fn write_vec_f(v: &[F128b]) -> (frame: Vec<u8>)
    requires
        16 * v@.len() <= usize::MAX,
    ensures
        frame@ == frame_of(v@),
        frame@.len() == 8 + 16 * v@.len(),
{
    let mut payload = vec_f_payload(v);
    let mut frame = u64_to_be(payload.len() as u64);
    frame.append(&mut payload);
    frame
}

/// The payload length that a length prefix announces. The prefix must have
/// eight bytes and announce whole elements that fit in memory.
pub open spec fn announced_len(prefix: Seq<u8>) -> Option<usize> {
    if prefix.len() == 8 && u64_from_be_bytes(prefix) % 16 == 0 && u64_from_be_bytes(prefix)
        <= usize::MAX {
        Some(u64_from_be_bytes(prefix) as usize)
    } else {
        None
    }
}

/// Reads the length prefix of a frame: the number of payload bytes to read
/// next.
pub fn read_vec_f_len(prefix: &[u8]) -> (len: Result<usize, Error>)
    ensures
        match announced_len(prefix@) {
            Some(n) => len == Ok::<usize, Error>(n),
            None => len == Err::<usize, Error>(Error::Serialization),
        },
{
    if prefix.len() != 8 {
        return Err(Error::Serialization);
    }
    let n = u64_from_be(prefix);
    if n % 16 != 0 || n > usize::MAX as u64 {
        return Err(Error::Serialization);
    }
    Ok(n as usize)
}

/// Decodes the payload of a frame into field elements. A payload that does
/// not consist of whole elements is a serialization error.
pub fn read_vec_f(payload: &[u8]) -> (res: Result<Vec<F128b>, Error>)
    ensures
        payload@.len() % 16 == 0 ==> (res matches Ok(v) && v@ == elements_of(payload@)),
        payload@.len() % 16 != 0 ==> res == Err::<Vec<F128b>, Error>(Error::Serialization),
{
    if payload.len() % 16 != 0 {
        return Err(Error::Serialization);
    }
    let n = payload.len() / 16;
    let mut res: Vec<F128b> = Vec::with_capacity(n);
    let mut i: usize = 0;
    while i < n
        invariant
            i <= n,
            n == payload@.len() / 16,
            payload@.len() % 16 == 0,
            payload@.len() == 16 * n,
            payload@.len() <= usize::MAX,
            res@.len() == i,
            forall|c: int|
                0 <= c < i ==> res@[c] == field_from_bytes(payload@.subrange(16 * c, 16 * c + 16)),
        decreases n - i,
    {
        let chunk = slice_subrange(payload, 16 * i, 16 * i + 16);
        match F128b::from_bytes(chunk) {
            Ok(f) => {
                res.push(f);
            },
            Err(e) => {
                return Err(e);
            },
        }
        i = i + 1;
    }
    assert(res@ =~= elements_of(payload@));
    Ok(res)
}

/// The prefix of a frame announces the length of its payload.
pub proof fn lemma_frame_prefix(v: Seq<F128b>)
    requires
        16 * v.len() <= usize::MAX,
    ensures
        frame_of(v).len() == 8 + 16 * v.len(),
        announced_len(frame_of(v).subrange(0, 8)) == Some((16 * v.len()) as usize),
        frame_of(v).subrange(8, frame_of(v).len() as int) == payload_of(v),
{
    let n = (16 * v.len()) as u64;
    lemma_u64_be_round_trip(n);
    lemma_payload_len(v);
    assert(frame_of(v).subrange(0, 8) =~= u64_be_bytes(n));
    assert(frame_of(v).subrange(8, frame_of(v).len() as int) =~= payload_of(v));
}

} // verus!
