//! A batching data loader.
//!
//! Many callers concurrently ask for single keys; the loader coalesces the
//! keys that arrive within a short coordination window and answers them with
//! few bulk calls to a user-supplied batch function, instead of one call per
//! key.
//!
//! This crate holds the batching coordinator itself: the shared state and the
//! decisions taken while a lock on it is held — when a key is served from the
//! memoized results, when it is queued, when the queue is drained into a
//! batch, and how the batch function's answers are credited back to the
//! waiting callers.  The surrounding machinery (the async locks, the wait
//! strategy, the batch call itself) drives these operations from outside;
//! every decision it relays is verified here.
//!
//! Two variants exist, as two modules:
//! - [`cached`]: memoizing; results live in a cache across calls until
//!   explicitly cleared.
//! - [`non_cached`]: per-request accounting; every call gets a fresh request
//!   id and its result is evicted as soon as it is delivered.
//!
//! Keys are 64-bit identifiers; a caller whose keys are richer values
//! interns them and keeps the mapping on its side.  Values may be any
//! cloneable type.

use vstd::prelude::*;

pub mod cached;
pub mod non_cached;

verus! {

/// The default upper bound on the keys dispatched in one batch call; also
/// the pending-queue size that triggers an immediate pre-wait dispatch.
pub const DEFAULT_MAX_BATCH_SIZE: usize = 200;

/// How many times the built-in wait strategy cooperatively yields.
pub const DEFAULT_YIELD_COUNT: usize = 10;

} // verus!
