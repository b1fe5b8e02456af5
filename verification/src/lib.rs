//! A read-through cache and ingestion pipeline in front of a board-game
//! metadata API: resolving which identifiers are already stored, batching
//! upstream fetches, retrying transient failures with jittered exponential
//! backoff, streaming-parsing the upstream XML into structured entities,
//! and persisting them idempotently with their relational links.

use vstd::prelude::*;

pub mod batching;
pub mod domain;
pub mod errors;
pub mod parse;
pub mod pipeline;
pub mod resources;
pub mod retry;
pub mod store;
pub mod xml;

verus! {

/// Number of identifiers fetched together in one upstream detail request.
pub const DETAIL_BATCH_SIZE: usize = 20;

/// Upper bound (milliseconds) on the backoff between retries: once the next
/// computed wait would exceed this, the fetch gives up.
pub const MAX_BACKOFF_MS: u64 = 30000;

/// Initial backoff (milliseconds) before the first retry.
pub const INITIAL_BACKOFF_MS: u64 = 500;

} // verus!
