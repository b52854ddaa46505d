//! A fixed-capacity key/value cache with least-recently-used eviction and
//! optional time-based expiry.
//!
//! The storage engine has three layers:
//! - [`arena`]: a generation-tagged slot allocator over a growable backing
//!   store; freed slots are reused safely through generation-checked indices.
//! - [`list`]: a doubly-linked list whose nodes live inside the arena and
//!   whose links are arena indices, supporting O(1) removal by handle and
//!   time-based retirement from the tail.
//! - [`cache`]: the LRU/TTL layer, keeping a hash index and the list in
//!   lock-step.
//!
//! Time never comes from a clock inside the library: every operation that
//! reads or stamps an expiry takes the current time as a plain argument
//! (milliseconds on whatever clock the caller uses), so the whole engine is
//! deterministic and verified for every value of it.

pub mod arena;
pub mod cache;
pub mod err;
pub mod list;
