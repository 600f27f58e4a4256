//! The events the node emits on its operator control surface.
//!
//! The control channel itself — line framing, base64 and JSON — lives outside
//! the core; these are the values it carries back to the operator.

use vstd::prelude::*;

verus! {

/// One emitted operator event. Replies carry the `operation_id` of the
/// operation they answer in `in_reply_to`.
pub enum Message<'a> {
    /// A snapshot of every stored hash, emitted whenever the inventory
    /// changes.
    Inventory(Vec<Vec<u8>>),
    /// The answer to a query: the stored message, or `None` if it is absent
    /// or expired.
    Message { in_reply_to: &'a str, message: Option<crate::inventory::Message> },
    /// A submission's proof-of-work search was cancelled before it finished.
    ProofOfWorkCancelled { in_reply_to: &'a str },
    /// A submission's proof of work completed and the message was stored.
    ProofOfWorkCompleted { in_reply_to: &'a str },
    /// An outbound connection could not be established.
    ConnectionEstablishmentFailure { in_reply_to: &'a str },
    /// A reconciliation session ended with a transport or protocol error.
    ReconcileFailure { in_reply_to: &'a str },
    /// The address the node serves inbound connections on.
    ServerListenAddress { address: &'a str },
    /// The address the node accepts reverse (outbound-role) connections on.
    ClientListenAddress { address: &'a str },
}

} // verus!
