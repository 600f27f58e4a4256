//! A decentralized messaging node core: a content-addressed, TTL-limited
//! message inventory, a proof-of-work admission rule, a coalescing wakeup
//! registry, and the peer reconciliation protocol that keeps many nodes'
//! inventories converging without a central broker.

pub mod bytes;
pub mod digest;
pub mod inventory;
pub mod ipc;
pub mod mpmc_manual_reset_event;
pub mod proof_of_work;
pub mod reconcile;
