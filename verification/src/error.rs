//! Error taxonomy of the storage core.

use vstd::prelude::*;

verus! {

/// Every failure the storage core can report.
///
/// `Io` covers filesystem failures at the process edge and stands in for
/// the storage failures statement execution reports. `Retry` is the
/// transient failure surfaced
/// when the bounded move-right recovery loop inside an insert exhausts its
/// retry budget.
#[derive(Debug, Clone, Copy, PartialEq, Eq, Structural)]
pub enum TitanError {
    /// Filesystem failure.
    Io,
    /// The page id is absent from the cache and not resolvable on disk.
    PageNotFound(u64),
    /// The stored bytes of a page cannot be decoded.
    CorruptPage,
    /// A page payload does not fit within the fixed page slot.
    CapacityExceeded,
    /// Lock acquisition failure; fatal for the attempted operation.
    LockError,
    /// Transient failure: the bounded internal retry budget was exhausted.
    Retry,
}

} // verus!
