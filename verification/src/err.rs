//! Error values returned by the three storage layers.
//!
//! Lower layers never swallow errors: each layer wraps the lower error with
//! its own context, so a caller can trace a failure to its origin.

use vstd::prelude::*;

verus! {

/// The arena has no free slot left: allocator exhaustion.
#[derive(Clone, Copy, Debug, PartialEq, Eq, Structural)]
pub struct ArenaOOM;

/// A linked-list operation failed.
#[derive(Clone, Copy, Debug, PartialEq, Eq, Structural)]
pub enum ListError {
    /// An index no longer resolves to a live arena entry (stale or invalid).
    LinkBroken,
    /// The arena could not allocate a node.
    ListOOM(ArenaOOM),
    /// The list holds no node to remove or peek at.
    ListEmpty,
}

/// A cache operation failed.
#[derive(Clone, Copy, Debug, PartialEq, Eq, Structural)]
pub enum CacheError {
    /// The list reported an error: the index/list bookkeeping is broken, or
    /// storage ran out where no eviction could make room.
    CacheBroken(ListError),
    /// The key is not present.
    CacheMiss,
}

} // verus!
