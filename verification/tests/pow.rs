//! Tests for the proof-of-work admission rule.

use contrasleuth::digest::message_hash;
use contrasleuth::proof_of_work::{compute_target, current_value, prove, verify, verify_at};
use std::sync::atomic::{AtomicBool, Ordering};

fn now_unix() -> i64 {
    chrono::Utc::now().timestamp()
}

#[test]
fn target_exact_value() {
    // MAXU64 / (1000 * (5 + 1000 + 600 * (5 + 1000) / 65536))
    assert_eq!(compute_target(5, 600), 18192055299516u64);
    assert_eq!(compute_target(0, 0), 18446744073709u64);
}

#[test]
fn target_monotonic_in_length() {
    assert_eq!(compute_target(6, 600), 18174132092324u64);
    assert!(compute_target(6, 600) <= compute_target(5, 600));
    assert!(compute_target(1000, 600) <= compute_target(6, 600));
    assert!(compute_target(u64::MAX, 600) <= compute_target(1000, 600));
}

#[test]
fn target_monotonic_in_ttl() {
    assert!(compute_target(5, 601) <= compute_target(5, 600));
    assert!(compute_target(5, 1000000) <= compute_target(5, 601));
    assert!(compute_target(5, u64::MAX) <= compute_target(5, 1000000));
}

#[test]
fn target_overflow_degrades_to_zero() {
    let huge = (1u64 << 63) - 1;
    assert_eq!(compute_target(huge, huge), 0);
    assert_eq!(compute_target(u64::MAX, u64::MAX), 0);
    assert_eq!(compute_target(u64::MAX, 0), 0);
    assert_eq!(compute_target(1u64 << 32, 1u64 << 32), 0);
}

#[test]
fn message_hash_known_vector() {
    // Blake2b-512 over the payload "abc" followed by the expiration time
    // 1000 in big-endian order.
    let expected_hex = "574f1877e6298eb3c42954c3d3899504be4cfe7b0d472e6c3b16ecbff8a7c156\
f79124b390624b9a881ea3b05a368e891f40ece4bdd67aa33866bee88f9c904a";
    let payload = vec![97u8, 98, 99];
    let h = message_hash(&payload, 1000);
    assert_eq!(h.len(), 64);
    let mut hex = String::new();
    for b in h.iter() {
        hex.push_str(&format!("{:02x}", b));
    }
    assert_eq!(hex, expected_hex);
    // The digest is not the input handed back.
    assert_ne!(&h[0..3], &payload[..]);
}

#[test]
fn current_value_known_vectors() {
    // Blake2b-8 over 64 zero bytes followed by the big-endian nonce, read as
    // a big-endian 64-bit value; a negative nonce is encoded by its
    // two's-complement bit pattern.
    let zero_digest = vec![0u8; 64];
    assert_eq!(current_value(&zero_digest, 0), 305051299342462830u64);
    assert_eq!(current_value(&zero_digest, 42), 5775877455767088705u64);
    assert_eq!(current_value(&zero_digest, -1), 9025761092410411042u64);
}

#[test]
fn message_hash_depends_on_expiration() {
    let payload = vec![97u8, 98, 99];
    let h1 = message_hash(&payload, 1000);
    let h2 = message_hash(&payload, 1001);
    assert_eq!(h1.len(), 64);
    assert_eq!(h2.len(), 64);
    assert_ne!(h1, h2);
    assert_eq!(message_hash(&payload, 1000), h1);
}

#[test]
fn current_value_is_deterministic() {
    let digest = vec![5u8; 64];
    let a = current_value(&digest, 42);
    let b = current_value(&digest, 42);
    assert_eq!(a, b);
}

#[test]
fn verify_false_once_expired() {
    let payload = vec![104u8, 105];
    let past = now_unix() - 100;
    for nonce in [0i64, 1, 7, -1, i64::MAX, i64::MIN] {
        assert!(!verify(&payload, nonce, past));
    }
    // Expiry exactly at `now` also fails.
    let t = 12345i64;
    assert!(!verify_at(&payload, 0, t, t));
    assert!(!verify_at(&payload, 0, t, t + 1));
}

#[test]
fn mine_finds_verifiable_nonce() {
    let payload = vec![109u8, 110, 111];
    let expiration_time = now_unix() + 600;
    let target = compute_target(payload.len() as u64, 600);
    let cancelled = AtomicBool::new(false);
    let nonce = prove(&payload, target, &cancelled).expect("search is bounded in practice");
    // The freshly mined nonce passes full verification against the wall
    // clock: the remaining ttl can only have shrunk, which loosens the
    // target.
    assert!(verify(&payload, nonce, expiration_time));
}

#[test]
fn mine_observes_cancellation() {
    let payload = vec![1u8; 32];
    let cancelled = AtomicBool::new(true);
    // Target 0 is unsatisfiable in practice; a pre-signalled cancel flag
    // must end the search on the first poll.
    assert_eq!(prove(&payload, 0, &cancelled), None);
    cancelled.store(true, Ordering::Relaxed);
}
