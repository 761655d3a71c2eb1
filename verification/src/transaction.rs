//! Transaction-id scaffolding: reserved for a future concurrency-control
//! layer, not wired to any protocol in this version.

use vstd::prelude::*;

verus! {

/// An opaque transaction identifier.
#[derive(Debug, Clone, Copy, PartialEq, Eq, Hash, Structural)]
pub struct TransactionId(pub u64);

/// The per-operation transaction context: its own id and its read
/// timestamp.
pub struct TransactionContext {
    pub tx_id: TransactionId,
    pub read_ts: TransactionId,
}

impl TransactionContext {
    /// A fresh context; ids start at zero until an allocator exists.
    pub fn new() -> (c: TransactionContext)
        ensures
            c.tx_id == TransactionId(0),
            c.read_ts == TransactionId(0),
    {
        TransactionContext { tx_id: TransactionId(0), read_ts: TransactionId(0) }
    }
}

} // verus!
