//! The digest function behind content addressing and the proof-of-work admission rule.
//!
//! The digest itself is computed by an outside implementation of Blake2b; its
//! value is only named here, never restated, and everything the library
//! proves about hashing is in terms of that name.

use vstd::prelude::*;
use crate::bytes::{append_bytes, i64_be_bytes, spec_i64_be};

verus! {

/// The Blake2b digest of `out_len` bytes over `data`.
pub uninterp spec fn blake2b_of(out_len: int, data: Seq<u8>) -> Seq<u8>;

/// Relies on crypto::blake2b::Blake2b (the rust-crypto crate): an unkeyed
/// Blake2b digest of `out_len` bytes over `data`, a function of its arguments
/// alone. `Blake2b::new` panics unless `0 < out_len <= 64`.
#[verifier::external_body]
pub(crate) fn blake2b_digest(out_len: usize, data: &Vec<u8>) -> (r: Vec<u8>)
    requires
        1 <= out_len <= 64,
    ensures
        r@ == blake2b_of(out_len as int, data@),
        r@.len() == out_len,
{
    let mut hasher = crypto::blake2b::Blake2b::new(out_len);
    crypto::digest::Digest::input(&mut hasher, data);
    let mut out = vec![0u8; out_len];
    crypto::digest::Digest::result(&mut hasher, &mut out);
    out
}

/// The bytes that are digested to derive a message's hash: the payload
/// followed by the expiration time in big-endian order.
pub open spec fn spec_message_digest_input(payload: Seq<u8>, expiration_time: i64) -> Seq<u8> {
    payload + spec_i64_be(expiration_time)
}

/// A message's content address: the 64-byte digest of its payload and
/// expiration time. The hash is always derived, never supplied.
pub open spec fn spec_message_hash(payload: Seq<u8>, expiration_time: i64) -> Seq<u8> {
    blake2b_of(64, spec_message_digest_input(payload, expiration_time))
}

pub fn message_hash(payload: &Vec<u8>, expiration_time: i64) -> (r: Vec<u8>)
    ensures
        r@ == spec_message_hash(payload@, expiration_time),
        r@.len() == 64,
{
    let mut input: Vec<u8> = Vec::new();
    append_bytes(&mut input, payload);
    let tail = i64_be_bytes(expiration_time);
    append_bytes(&mut input, &tail);
    proof {
        assert(input@ =~= spec_message_digest_input(payload@, expiration_time));
    }
    blake2b_digest(64, &input)
}

} // verus!
