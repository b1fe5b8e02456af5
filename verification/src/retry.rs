//! The retry protocol for one upstream request: 2xx proceeds, 429 and 5xx
//! are retried after a jittered, exponentially growing backoff, any other
//! status is surfaced at once, and the fetch gives up as soon as the next
//! computed wait would exceed the cap.

use vstd::prelude::*;

use crate::errors::Error;
use crate::MAX_BACKOFF_MS;

verus! {

pub open spec fn is_success_status(s: u16) -> bool {
    200 <= s < 300
}

pub open spec fn is_transient_status(s: u16) -> bool {
    s == 429 || (500 <= s < 600)
}

/// What to do after one upstream response arrived with a given status.
#[derive(Clone, Copy, PartialEq, Eq, Structural, Debug)]
pub enum RetryDecision {
    /// A success status: read the body.
    Proceed,
    /// A transient failure: sleep, then ask again with the grown backoff.
    RetryAfter { sleep_ms: u64, next_backoff_ms: u64 },
    /// A transient failure, but the next wait would exceed the cap: stop,
    /// carrying the last observed status.
    GiveUp(u16),
    /// A non-retryable status: surface it at once.
    Reject(u16),
}

/// The backoff grown by a per-mille factor.
pub open spec fn next_backoff_spec(backoff_ms: u64, factor_milli: u64) -> int {
    (backoff_ms * factor_milli) / 1000
}

/// The decision function of the per-chunk fetch state machine.
pub open spec fn retry_decision_spec(backoff_ms: u64, status: u16, factor_milli: u64) -> RetryDecision {
    if is_success_status(status) {
        RetryDecision::Proceed
    } else if is_transient_status(status) {
        if next_backoff_spec(backoff_ms, factor_milli) > MAX_BACKOFF_MS {
            RetryDecision::GiveUp(status)
        } else {
            RetryDecision::RetryAfter {
                sleep_ms: backoff_ms,
                next_backoff_ms: next_backoff_spec(backoff_ms, factor_milli) as u64,
            }
        }
    } else {
        RetryDecision::Reject(status)
    }
}

/// One step of the fetch state machine. The driver starts at
/// `INITIAL_BACKOFF_MS`, performs the request, and hands the status and a
/// fresh jitter factor in; on `RetryAfter` it sleeps and continues with the
/// grown backoff, which this step keeps within the cap.
pub fn retry_step(backoff_ms: u64, status: u16, factor_milli: u64) -> (r: RetryDecision)
    requires
        backoff_ms <= MAX_BACKOFF_MS,
        1500 <= factor_milli < 2500,
    ensures
        r == retry_decision_spec(backoff_ms, status, factor_milli),
        r matches RetryDecision::RetryAfter { sleep_ms, next_backoff_ms } ==> sleep_ms
            == backoff_ms && next_backoff_ms <= MAX_BACKOFF_MS,
{
    if 200 <= status && status < 300 {
        return RetryDecision::Proceed;
    }
    if status == 429 || (500 <= status && status < 600) {
        proof {
            assert(backoff_ms * factor_milli <= 30000 * 2500) by (nonlinear_arith)
                requires
                    backoff_ms <= 30000,
                    factor_milli < 2500,
            ;
        }
        let next: u64 = backoff_ms * factor_milli / 1000;
        if next > MAX_BACKOFF_MS {
            return RetryDecision::GiveUp(status);
        }
        return RetryDecision::RetryAfter { sleep_ms: backoff_ms, next_backoff_ms: next };
    }
    RetryDecision::Reject(status)
}

/// The error a terminal decision stands for, if any: giving up carries the
/// last status as a retry-exhaustion failure, a non-retryable status is an
/// upstream-status failure.
pub fn decision_error(d: &RetryDecision) -> (r: Option<Error>)
    ensures
        match d {
            RetryDecision::GiveUp(s) => r == Some(Error::GivingUp(*s)),
            RetryDecision::Reject(s) => r == Some(Error::Upstream(*s)),
            _ => r is None,
        },
{
    match d {
        RetryDecision::GiveUp(s) => Some(Error::GivingUp(*s)),
        RetryDecision::Reject(s) => Some(Error::Upstream(*s)),
        _ => None,
    }
}

/// Law: with any jitter factor in range, the grown backoff never falls
/// below the current one — the sequence of waits is non-decreasing, and in
/// fact grows by at least half each retry.
pub proof fn lemma_backoff_nondecreasing(backoff_ms: u64, factor_milli: u64)
    requires
        1500 <= factor_milli,
    ensures
        next_backoff_spec(backoff_ms, factor_milli) >= backoff_ms + backoff_ms / 2,
        next_backoff_spec(backoff_ms, factor_milli) >= backoff_ms,
{
    let b = backoff_ms as int;
    let f = factor_milli as int;
    assert(b * f >= b * 1500) by (nonlinear_arith)
        requires
            f >= 1500,
            b >= 0,
    ;
    vstd::arithmetic::div_mod::lemma_div_is_ordered(b * 1500, b * f, 1000);
    let q = b / 2;
    let m = b % 2;
    vstd::arithmetic::div_mod::lemma_fundamental_div_mod(b, 2);
    assert(b * 1500 == 1000 * (b + q) + 500 * m) by (nonlinear_arith)
        requires
            b == 2 * q + m,
    ;
    vstd::arithmetic::div_mod::lemma_div_multiples_vanish_fancy(b + q, 500 * m, 1000);
}

/// Law: a transient status is retried exactly as long as the next computed
/// wait stays within the cap; the first time it would exceed the cap, the
/// machine reports retry exhaustion instead of sleeping again.
pub proof fn lemma_retry_exhaustion(backoff_ms: u64, status: u16, factor_milli: u64)
    requires
        is_transient_status(status),
    ensures
        (retry_decision_spec(backoff_ms, status, factor_milli) == RetryDecision::GiveUp(status))
            <==> next_backoff_spec(backoff_ms, factor_milli) > MAX_BACKOFF_MS,
        next_backoff_spec(backoff_ms, factor_milli) <= MAX_BACKOFF_MS
            ==> retry_decision_spec(backoff_ms, status, factor_milli) == (
        RetryDecision::RetryAfter {
            sleep_ms: backoff_ms,
            next_backoff_ms: next_backoff_spec(backoff_ms, factor_milli) as u64,
        }),
{
}

/// Relies on `rand::random`: a uniformly drawn value; nothing is assumed
/// of it.
pub assume_specification<T>[ rand::random::<T> ]() -> (r: T)
    where rand::distributions::Standard: rand::distributions::Distribution<T>,
;

/// A fresh jitter factor, in thousandths: the backoff multiplier is drawn
/// from [1.5, 2.5) per retry. Whatever `rand::random` returns, the
/// arithmetic forces the factor into range.
pub fn jitter_factor_milli() -> (r: u64)
    ensures
        1500 <= r < 2500,
{
    let raw: u64 = rand::random();
    1500 + raw % 1000
}

} // verus!
