//! Failure taxonomy of the fetch-cache-parse pipeline.

use vstd::prelude::*;

verus! {

/// What can go wrong between asking upstream for data and handing parsed
/// entities back to the caller.
///
/// * `Transport` — the upstream host could not be reached at all.
/// * `Upstream` — upstream answered with a non-retryable status (a 4xx
///   other than 429); the code is carried.
/// * `GivingUp` — retries were abandoned because the next computed backoff
///   would exceed the cap; carries the last observed status.
/// * `MalformedResponse` — the payload was not structured as expected.
/// * `FieldParse` — a numeric field carried a non-numeric value; this aborts
///   the whole batch in which it occurs.
/// * `Persistence` — a store write failed; the parsed data is still returned.
#[derive(Clone, Copy, PartialEq, Eq, Structural, Debug)]
pub enum Error {
    Transport,
    Upstream(u16),
    GivingUp(u16),
    MalformedResponse,
    FieldParse,
    Persistence,
}

} // verus!
