//! Tests for the reconciliation protocol core and the local submission path.

use contrasleuth::digest::message_hash;
use contrasleuth::inventory::{InventoryStore, Message};
use contrasleuth::proof_of_work::{compute_target, prove, verify};
use contrasleuth::reconcile::{reconcile_pass, serve_submit, submit_local};
use contrasleuth::mpmc_manual_reset_event::MPMCManualResetEvent;
use std::sync::atomic::AtomicBool;

fn now_unix() -> i64 {
    chrono::Utc::now().timestamp()
}

/// Mines a valid message for `payload` that expires 600 seconds from now.
fn mined_message(payload: Vec<u8>) -> Message {
    let expiration_time = now_unix() + 600;
    let target = compute_target(payload.len() as u64, 600);
    let cancelled = AtomicBool::new(false);
    let nonce = prove(&payload, target, &cancelled).expect("search is bounded in practice");
    Message { payload, nonce, expiration_time }
}

fn sorted_hashes(store: &InventoryStore) -> Vec<Vec<u8>> {
    let mut hashes = store.hashes();
    hashes.sort();
    hashes
}

#[test]
fn submit_local_then_query_is_consistent() {
    let mut store = InventoryStore::new();
    let mut wakeups = MPMCManualResetEvent::new();
    let observer = wakeups.get_handle();
    let payload = vec![112u8, 113, 114];
    let now = now_unix();
    let expiration_time = now + 600;
    let cancelled = AtomicBool::new(false);
    let nonce = submit_local(
        &mut store,
        &mut wakeups,
        &payload,
        expiration_time,
        &cancelled,
        now,
    )
    .expect("search is bounded in practice");
    // An immediate query on the same node returns the identical message.
    let hash = message_hash(&payload, expiration_time);
    let got = store.retrieve(&hash, now).expect("just submitted");
    assert_eq!(got.payload, payload);
    assert_eq!(got.nonce, nonce);
    assert_eq!(got.expiration_time, expiration_time);
    // The submission published a wakeup.
    assert!(wakeups.consume(observer));
}

#[test]
fn cancelled_submission_changes_nothing() {
    let mut store = InventoryStore::new();
    let mut wakeups = MPMCManualResetEvent::new();
    let observer = wakeups.get_handle();
    let payload = vec![0u8; 100000];
    let now = now_unix();
    let cancelled = AtomicBool::new(true);
    let r = submit_local(&mut store, &mut wakeups, &payload, now + 600, &cancelled, now);
    assert_eq!(r, None);
    assert_eq!(store.hashes().len(), 0);
    assert!(!wakeups.consume(observer));
}

#[test]
fn submit_rejects_bad_proof_of_work() {
    let mut store = InventoryStore::new();
    let mut wakeups = MPMCManualResetEvent::new();
    let now = now_unix();
    let message = Message { payload: vec![9u8, 9, 9], nonce: 0, expiration_time: now + 600 };
    // A fixed nonce virtually never satisfies the admission rule.
    if !verify(&message.payload, message.nonce, message.expiration_time) {
        let admitted = serve_submit(&mut store, &mut wakeups, &message, now);
        assert!(!admitted);
        assert_eq!(store.hashes().len(), 0);
    }
}

#[test]
fn submit_rejects_expired_message() {
    let mut store = InventoryStore::new();
    let mut wakeups = MPMCManualResetEvent::new();
    let now = now_unix();
    let message = Message { payload: vec![4u8], nonce: 123, expiration_time: now - 10 };
    let admitted = serve_submit(&mut store, &mut wakeups, &message, now);
    assert!(!admitted);
    assert_eq!(store.hashes().len(), 0);
}

#[test]
fn admitted_submission_wakes_every_session(){
    let mut store = InventoryStore::new();
    let mut wakeups = MPMCManualResetEvent::new();
    let h1 = wakeups.get_handle();
    let h2 = wakeups.get_handle();
    let message = mined_message(vec![55u8, 56]);
    let admitted = serve_submit(&mut store, &mut wakeups, &message, now_unix());
    assert!(admitted);
    assert!(wakeups.consume(h1));
    assert!(wakeups.consume(h2));
}

#[test]
fn one_pass_converges_to_the_union() {
    // Two nodes with disjoint valid inventories; one active-role pass leaves
    // both with the union, checked through their hash snapshots.
    let mut node_a = InventoryStore::new();
    let mut wakeups_a = MPMCManualResetEvent::new();
    let mut node_b = InventoryStore::new();
    let mut wakeups_b = MPMCManualResetEvent::new();
    let now = now_unix();
    let message_a = mined_message(vec![65u8]);
    let message_b = mined_message(vec![66u8]);
    node_a.insert(&message_a.payload, message_a.nonce, message_a.expiration_time, now);
    node_b.insert(&message_b.payload, message_b.nonce, message_b.expiration_time, now);
    let handle = wakeups_a.get_handle();
    reconcile_pass(
        &mut node_a,
        &mut wakeups_a,
        handle,
        &mut node_b,
        &mut wakeups_b,
        now,
    );
    let union = sorted_hashes(&node_a);
    assert_eq!(union.len(), 2);
    assert_eq!(union, sorted_hashes(&node_b));
    assert!(node_a.contains(&message_hash(&message_b.payload, message_b.expiration_time)));
    assert!(node_b.contains(&message_hash(&message_a.payload, message_a.expiration_time)));
}

#[test]
fn end_to_end_hello_scenario() {
    // Mine "hello" with a ten minute lifetime, verify, store it on one node;
    // an empty second node reconciles once and then holds the hash.
    let payload = vec![104u8, 101, 108, 108, 111];
    let now = now_unix();
    let expiration_time = now + 600;
    let target = compute_target(5, 600);
    let cancelled = AtomicBool::new(false);
    let nonce = prove(&payload, target, &cancelled).expect("search is bounded in practice");
    assert!(verify(&payload, nonce, expiration_time));
    let mut first = InventoryStore::new();
    let mut first_wakeups = MPMCManualResetEvent::new();
    first.insert(&payload, nonce, expiration_time, now);
    let mut second = InventoryStore::new();
    let mut second_wakeups = MPMCManualResetEvent::new();
    let handle = second_wakeups.get_handle();
    reconcile_pass(
        &mut second,
        &mut second_wakeups,
        handle,
        &mut first,
        &mut first_wakeups,
        now,
    );
    assert!(second.contains(&message_hash(&payload, expiration_time)));
}

#[test]
fn pass_skips_expired_and_invalid_rows() {
    // A row that expired between insertion and the pass is not pushed.
    let mut node_a = InventoryStore::new();
    let mut wakeups_a = MPMCManualResetEvent::new();
    let mut node_b = InventoryStore::new();
    let mut wakeups_b = MPMCManualResetEvent::new();
    let now = now_unix();
    let payload = vec![77u8];
    let expiration_time = now + 5;
    node_a.insert(&payload, 1, expiration_time, now);
    let handle = wakeups_a.get_handle();
    // By the time the pass runs, the row has expired.
    reconcile_pass(
        &mut node_a,
        &mut wakeups_a,
        handle,
        &mut node_b,
        &mut wakeups_b,
        expiration_time + 1,
    );
    assert_eq!(node_b.hashes().len(), 0);
}

#[test]
fn pull_admission_wakes_only_other_sessions() {
    let mut node_a = InventoryStore::new();
    let mut wakeups_a = MPMCManualResetEvent::new();
    let mut node_b = InventoryStore::new();
    let mut wakeups_b = MPMCManualResetEvent::new();
    let now = now_unix();
    let message = mined_message(vec![90u8, 91]);
    node_b.insert(&message.payload, message.nonce, message.expiration_time, now);
    let own = wakeups_a.get_handle();
    let sibling = wakeups_a.get_handle();
    reconcile_pass(
        &mut node_a,
        &mut wakeups_a,
        own,
        &mut node_b,
        &mut wakeups_b,
        now,
    );
    // The pulling session already knows about the new item; its siblings are
    // woken.
    assert!(!wakeups_a.consume(own));
    assert!(wakeups_a.consume(sibling));
}
