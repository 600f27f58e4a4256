//! The proof-of-work admission rule: the only defense against flooding.
//!
//! A message is admissible when the digest of its payload hash and nonce, read
//! as a 64-bit big-endian value, does not exceed a target derived from the
//! payload length and the remaining time to live. A smaller target is harder;
//! arithmetic that would overflow degrades the target to 0, the hardest
//! possible, instead of wrapping or panicking.

use core::sync::atomic::{AtomicBool, Ordering};
use vstd::arithmetic::div_mod::{lemma_div_is_ordered, lemma_div_is_ordered_by_denominator};
use vstd::arithmetic::mul::{lemma_mul_inequality, lemma_mul_is_commutative};
use vstd::prelude::*;
use crate::bytes::{append_bytes, i64_be_bytes, spec_i64_be, spec_u64_from_be, u64_from_be};
use crate::digest::{blake2b_digest, blake2b_of};

verus! {

/// The denominator of the target formula, over unbounded integers:
/// `1000 * (len + 1000 + ttl * (len + 1000) / 65536)`.
pub open spec fn spec_target_denominator(payload_length: u64, time_to_live: u64) -> int {
    1000 * (payload_length + 1000 + time_to_live * (payload_length + 1000) / 65536)
}

/// Whether any step of the 64-bit checked evaluation of the target formula
/// overflows. Each disjunct matches one checked operation, in evaluation
/// order.
pub open spec fn spec_target_overflows(payload_length: u64, time_to_live: u64) -> bool {
    ||| payload_length + 1000 > u64::MAX
    ||| time_to_live * (payload_length + 1000) > u64::MAX
    ||| payload_length + 1000 + time_to_live * (payload_length + 1000) / 65536 > u64::MAX
    ||| spec_target_denominator(payload_length, time_to_live) > u64::MAX
}

/// The proof-of-work target for a payload of `payload_length` bytes that will
/// stay alive for `time_to_live` seconds; 0 (unsatisfiable) when the checked
/// arithmetic would overflow.
pub open spec fn spec_compute_target(payload_length: u64, time_to_live: u64) -> u64 {
    if spec_target_overflows(payload_length, time_to_live) {
        0
    } else {
        (u64::MAX as int / spec_target_denominator(payload_length, time_to_live)) as u64
    }
}

/// Derives the proof-of-work target from the payload length and the remaining
/// time to live. Attacker-supplied sizes can drive any step of the formula
/// past 64 bits; each step is checked and overflow yields target 0 rather
/// than a panic or a wrap.
pub fn compute_target(payload_length: u64, time_to_live: u64) -> (r: u64)
    ensures
        r == spec_compute_target(payload_length, time_to_live),
{
    let base = match payload_length.checked_add(1000) {
        Some(b) => b,
        None => {
            return 0;
        },
    };
    let scaled = match time_to_live.checked_mul(base) {
        Some(p) => p / 65536,
        None => {
            return 0;
        },
    };
    let sum = match base.checked_add(scaled) {
        Some(s) => s,
        None => {
            return 0;
        },
    };
    let denominator = match sum.checked_mul(1000) {
        Some(d) => d,
        None => {
            return 0;
        },
    };
    proof {
        lemma_mul_is_commutative(sum as int, 1000);
    }
    u64::MAX / denominator
}

/// Monotonicity of the target denominator: growing the payload or the time to
/// live never shrinks the denominator, and never introduces an overflow that
/// the grown inputs avoid.
proof fn lemma_denominator_monotonic(len1: u64, ttl1: u64, len2: u64, ttl2: u64)
    requires
        len1 <= len2,
        ttl1 <= ttl2,
        !spec_target_overflows(len2, ttl2),
    ensures
        !spec_target_overflows(len1, ttl1),
        spec_target_denominator(len1, ttl1) <= spec_target_denominator(len2, ttl2),
{
    let base1 = len1 + 1000;
    let base2 = len2 + 1000;
    lemma_mul_inequality(base1, base2, ttl1 as int);
    lemma_mul_is_commutative(base1, ttl1 as int);
    lemma_mul_is_commutative(base2, ttl1 as int);
    lemma_mul_inequality(ttl1 as int, ttl2 as int, base2);
    lemma_mul_is_commutative(ttl1 as int, base2);
    lemma_mul_is_commutative(ttl2 as int, base2);
    assert(ttl1 * base1 <= ttl2 * base2);
    lemma_div_is_ordered(ttl1 * base1, ttl2 * base2, 65536);
    let sum1 = base1 + ttl1 * base1 / 65536;
    let sum2 = base2 + ttl2 * base2 / 65536;
    lemma_mul_inequality(sum1, sum2, 1000);
    lemma_mul_is_commutative(sum1, 1000);
    lemma_mul_is_commutative(sum2, 1000);
    assert(0 <= ttl1 * base1 / 65536) by {
        lemma_div_is_ordered(0, ttl1 * base1, 65536);
    }
}

/// For a fixed time to live, a longer payload never gets an easier (larger)
/// target.
pub proof fn lemma_target_monotonic_in_length(len1: u64, len2: u64, ttl: u64)
    requires
        len1 <= len2,
    ensures
        spec_compute_target(len2, ttl) <= spec_compute_target(len1, ttl),
{
    if !spec_target_overflows(len2, ttl) {
        lemma_denominator_monotonic(len1, ttl, len2, ttl);
        lemma_div_is_ordered_by_denominator(
            u64::MAX as int,
            spec_target_denominator(len1, ttl),
            spec_target_denominator(len2, ttl),
        );
    }
}

/// For a fixed payload length, a longer time to live never gets an easier
/// (larger) target.
pub proof fn lemma_target_monotonic_in_ttl(len: u64, ttl1: u64, ttl2: u64)
    requires
        ttl1 <= ttl2,
    ensures
        spec_compute_target(len, ttl2) <= spec_compute_target(len, ttl1),
{
    if !spec_target_overflows(len, ttl2) {
        lemma_denominator_monotonic(len, ttl1, len, ttl2);
        lemma_div_is_ordered_by_denominator(
            u64::MAX as int,
            spec_target_denominator(len, ttl1),
            spec_target_denominator(len, ttl2),
        );
    }
}

/// The value a candidate nonce achieves against a payload digest: the 8-byte
/// digest of the payload hash followed by the big-endian nonce, read
/// big-endian.
pub open spec fn spec_current_value(payload_digest: Seq<u8>, nonce: i64) -> u64 {
    spec_u64_from_be(blake2b_of(8, payload_digest + spec_i64_be(nonce)))
}

pub fn current_value(payload_digest: &Vec<u8>, nonce: i64) -> (r: u64)
    ensures
        r == spec_current_value(payload_digest@, nonce),
{
    let mut input: Vec<u8> = Vec::new();
    append_bytes(&mut input, payload_digest);
    let tail = i64_be_bytes(nonce);
    append_bytes(&mut input, &tail);
    let d = blake2b_digest(8, &input);
    u64_from_be(&d)
}

/// Whether `(payload, nonce, expiration_time)` passes the proof-of-work admission rule
/// at time `now`: the message must not have expired, and the nonce's value
/// must not exceed the target for the payload length and the remaining time
/// to live.
pub open spec fn spec_verify(payload: Seq<u8>, nonce: i64, expiration_time: i64, now: i64) -> bool {
    &&& now < expiration_time
    &&& spec_current_value(blake2b_of(64, payload), nonce) <= spec_compute_target(
        payload.len() as u64,
        (expiration_time - now) as u64,
    )
}

/// An expired message never passes the admission rule, whatever its nonce.
pub proof fn lemma_verify_expired(payload: Seq<u8>, nonce: i64, expiration_time: i64, now: i64)
    requires
        now >= expiration_time,
    ensures
        !spec_verify(payload, nonce, expiration_time, now),
{
}

/// Checks the proof-of-work admission rule against an explicitly supplied clock
/// reading.
pub fn verify_at(payload: &Vec<u8>, nonce: i64, expiration_time: i64, now: i64) -> (r: bool)
    ensures
        r == spec_verify(payload@, nonce, expiration_time, now),
{
    if now >= expiration_time {
        return false;
    }
    let ttl_wide: i128 = expiration_time as i128 - now as i128;
    let time_to_live: u64 = ttl_wide as u64;
    let target = compute_target(payload.len() as u64, time_to_live);
    let payload_digest = blake2b_digest(64, payload);
    let value = current_value(&payload_digest, nonce);
    value <= target
}

/// Relies on chrono::Utc::now: the current wall-clock time as unix seconds.
/// Nothing is promised of the clock's reading.
#[verifier::external_body]
pub(crate) fn unix_now() -> i64 {
    chrono::Utc::now().timestamp()
}

/// Checks the proof-of-work admission rule against the wall clock. The clock's reading
/// is outside this library's control, so all that is promised is that the
/// answer is the rule's verdict at some clock reading; `verify_at` carries
/// the exact contract.
pub fn verify(payload: &Vec<u8>, nonce: i64, expiration_time: i64) -> (r: bool)
    ensures
        exists|now: i64| r == spec_verify(payload@, nonce, expiration_time, now),
{
    let now = unix_now();
    let r = verify_at(payload, nonce, expiration_time, now);
    proof {
        assert(r == spec_verify(payload@, nonce, expiration_time, now));
    }
    r
}

/// Mines a nonce for `payload` whose value reaches `target`, starting from
/// nonce 0, polling the shared cancellation flag once per candidate so that
/// cancellation latency is bounded by a single digest. Returns `None` when
/// cancelled (or if every nonce is exhausted); the flag is shared with other
/// threads, so nothing is promised about when cancellation is observed.
pub fn prove(payload: &Vec<u8>, target: u64, cancelled: &AtomicBool) -> (r: Option<i64>)
    ensures
        r matches Some(nonce) ==> 0 <= nonce && spec_current_value(
            blake2b_of(64, payload@),
            nonce,
        ) <= target && forall|k: i64|
            0 <= k < nonce ==> spec_current_value(blake2b_of(64, payload@), k) > target,
{
    let payload_digest = blake2b_digest(64, payload);
    let mut nonce: i64 = 0;
    loop
        invariant
            payload_digest@ == blake2b_of(64, payload@),
            0 <= nonce,
            forall|k: i64|
                0 <= k < nonce ==> spec_current_value(blake2b_of(64, payload@), k) > target,
        decreases i64::MAX - nonce,
    {
        if cancelled.load(Ordering::Relaxed) {
            return None;
        }
        let value = current_value(&payload_digest, nonce);
        if value <= target {
            return Some(nonce);
        }
        if nonce == i64::MAX {
            return None;
        }
        nonce = nonce + 1;
    }
}

/// A mined nonce passes the admission rule: if the nonce's value reaches the target for
/// the remaining time to live, the whole message verifies at that instant.
pub proof fn lemma_mined_nonce_verifies(
    payload: Seq<u8>,
    nonce: i64,
    expiration_time: i64,
    now: i64,
)
    requires
        now < expiration_time,
        spec_current_value(blake2b_of(64, payload), nonce) <= spec_compute_target(
            payload.len() as u64,
            (expiration_time - now) as u64,
        ),
    ensures
        spec_verify(payload, nonce, expiration_time, now),
{
}

} // verus!
