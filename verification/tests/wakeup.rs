//! Tests for the coalescing wakeup registry.

use contrasleuth::mpmc_manual_reset_event::MPMCManualResetEvent;

#[test]
fn fresh_handle_starts_unset() {
    let mut registry = MPMCManualResetEvent::new();
    let h = registry.get_handle();
    assert!(!registry.consume(h));
}

#[test]
fn broadcasts_coalesce_into_one_wakeup() {
    let mut registry = MPMCManualResetEvent::new();
    let h = registry.get_handle();
    // Many broadcasts before a single wait...
    for _ in 0..5 {
        registry.broadcast();
    }
    // ...produce exactly one pending wakeup, not five.
    assert!(registry.consume(h));
    assert!(!registry.consume(h));
}

#[test]
fn broadcast_reaches_every_handle() {
    let mut registry = MPMCManualResetEvent::new();
    let h1 = registry.get_handle();
    let h2 = registry.get_handle();
    registry.broadcast();
    assert!(registry.consume(h1));
    assert!(registry.consume(h2));
}

#[test]
fn broadcast_to_others_skips_the_caller() {
    let mut registry = MPMCManualResetEvent::new();
    let h1 = registry.get_handle();
    let h2 = registry.get_handle();
    registry.broadcast_to_others(h1);
    assert!(!registry.consume(h1));
    assert!(registry.consume(h2));
}

#[test]
fn consume_resets_manually() {
    let mut registry = MPMCManualResetEvent::new();
    let h = registry.get_handle();
    registry.broadcast();
    assert!(registry.consume(h));
    // The flag stays clear until the next broadcast.
    assert!(!registry.consume(h));
    registry.broadcast();
    assert!(registry.consume(h));
}

#[test]
fn handles_are_never_reused() {
    let mut registry = MPMCManualResetEvent::new();
    let h1 = registry.get_handle();
    registry.drop_handle(h1);
    let h2 = registry.get_handle();
    assert_ne!(h1, h2);
}

#[test]
fn deregistered_handle_keeps_others_intact() {
    let mut registry = MPMCManualResetEvent::new();
    let h1 = registry.get_handle();
    let h2 = registry.get_handle();
    registry.drop_handle(h1);
    registry.broadcast();
    assert!(registry.consume(h2));
}
