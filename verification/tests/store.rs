//! Tests for the content-addressed inventory store.

use contrasleuth::digest::message_hash;
use contrasleuth::inventory::InventoryStore;

#[test]
fn insert_then_contains_and_retrieve() {
    let mut store = InventoryStore::new();
    let payload = vec![10u8, 20, 30];
    let now = 1_000_000i64;
    let expiration_time = now + 600;
    store.insert(&payload, 7, expiration_time, now);
    let hash = message_hash(&payload, expiration_time);
    assert!(store.contains(&hash));
    let got = store.retrieve(&hash, now).expect("freshly inserted row is live");
    assert_eq!(got.payload, payload);
    assert_eq!(got.nonce, 7);
    assert_eq!(got.expiration_time, expiration_time);
}

#[test]
fn insert_is_idempotent() {
    let mut store = InventoryStore::new();
    let payload = vec![1u8, 2, 3, 4];
    let now = 50i64;
    let expiration_time = now + 1000;
    store.insert(&payload, 1, expiration_time, now);
    store.insert(&payload, 1, expiration_time, now);
    assert_eq!(store.hashes().len(), 1);
    // A duplicate hash is a no-op, not an overwrite: the first row stays.
    store.insert(&payload, 99, expiration_time, now);
    let hash = message_hash(&payload, expiration_time);
    let got = store.retrieve(&hash, now).unwrap();
    assert_eq!(got.nonce, 1);
    assert_eq!(store.hashes().len(), 1);
}

#[test]
fn insert_purges_expired_rows() {
    let mut store = InventoryStore::new();
    let short_lived = vec![5u8];
    let durable = vec![6u8];
    let now = 100i64;
    store.insert(&short_lived, 0, now + 10, now);
    store.insert(&durable, 0, now + 1000, now);
    assert_eq!(store.hashes().len(), 2);
    // The next insert happens after the first row expired and sweeps it out.
    let later = now + 10;
    let fresh = vec![7u8];
    store.insert(&fresh, 0, later + 1000, later);
    assert_eq!(store.hashes().len(), 2);
    assert!(!store.contains(&message_hash(&short_lived, now + 10)));
    assert!(store.contains(&message_hash(&durable, now + 1000)));
    assert!(store.contains(&message_hash(&fresh, later + 1000)));
}

#[test]
fn retrieve_enforces_expiry_at_read_time() {
    let mut store = InventoryStore::new();
    let payload = vec![8u8, 9];
    let now = 200i64;
    let expiration_time = now + 50;
    store.insert(&payload, 3, expiration_time, now);
    let hash = message_hash(&payload, expiration_time);
    // Not yet purged, but already expired: the row is still stored...
    assert!(store.contains(&hash));
    // ...yet a read at or past the expiration time refuses it.
    assert!(store.retrieve(&hash, expiration_time).is_none());
    assert!(store.retrieve(&hash, expiration_time + 5).is_none());
    // Before expiry it is served.
    assert!(store.retrieve(&hash, expiration_time - 1).is_some());
}

#[test]
fn absent_hash_is_not_found() {
    let store = InventoryStore::new();
    let hash = message_hash(&vec![1u8], 500);
    assert!(!store.contains(&hash));
    assert!(store.retrieve(&hash, 0).is_none());
    assert_eq!(store.hashes().len(), 0);
}

#[test]
fn hashes_snapshots_every_row() {
    let mut store = InventoryStore::new();
    let now = 0i64;
    store.insert(&vec![1u8], 0, 100, now);
    store.insert(&vec![2u8], 0, 100, now);
    store.insert(&vec![3u8], 0, 100, now);
    let hashes = store.hashes();
    assert_eq!(hashes.len(), 3);
    assert!(hashes.contains(&message_hash(&vec![1u8], 100)));
    assert!(hashes.contains(&message_hash(&vec![2u8], 100)));
    assert!(hashes.contains(&message_hash(&vec![3u8], 100)));
}

#[test]
fn empty_payload_is_storable() {
    let mut store = InventoryStore::new();
    let empty: Vec<u8> = Vec::new();
    let now = 10i64;
    store.insert(&empty, 0, now + 100, now);
    let hash = message_hash(&empty, now + 100);
    assert_eq!(hash.len(), 64);
    let got = store.retrieve(&hash, now).unwrap();
    assert_eq!(got.payload, empty);
}
