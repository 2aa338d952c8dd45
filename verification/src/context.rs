//! Per-request execution context: a deadline and a retry budget.
//!
//! A fresh `Context` is made for every accepted request, immediately before
//! dispatch, and dropped when the request completes.  Handlers poll it:
//! [`Context::is_timeout`] compares the wall time elapsed since creation
//! against the configured deadline, and [`Context::decrease_retries`] spends
//! one unit of the retry budget for an internal sub-operation.

use vstd::prelude::*;

use crate::error::Error;

verus! {

/// Deadline a request gets when its creator does not choose one, in
/// milliseconds.
pub const DEFAULT_TIMEOUT_MS: u64 = 5000;

/// Retry budget a request gets when its creator does not choose one.
pub const DEFAULT_RETRIES: i64 = 3;

/// Deadline and retry budget of one request.
///
/// The deadline is optional: a context without one never times out.  The
/// clock is the wall clock in milliseconds; the context records the reading
/// taken at creation and compares later readings against it.  The retry
/// counter is spent through an exclusive reference, so concurrent
/// sub-operations of one handler take their turns through whoever owns the
/// context; no two requests ever share one.
pub struct Context {
    /// Maximum age of the request before `is_timeout` fails, if any.
    pub timeout_ms: Option<u64>,
    /// How many retries of internal sub-operations are still allowed.
    pub retries: i64,
    /// Wall-clock reading at creation, in milliseconds.
    pub start_ms: i64,
}

/// Relies on chrono's `DateTime::<Utc>::from(SystemTime)` and
/// `DateTime::timestamp_millis` for the wall-clock reading; nothing is
/// assumed of the value, successive readings may even decrease.  The
/// conversion handles a host clock that reads before the Unix epoch
/// (where `chrono::Utc::now` would abort); only a clock farther from the
/// epoch than chrono can represent at all — hundreds of millennia — still
/// aborts inside the library call.
#[verifier::external_body]
pub(crate) fn now_millis() -> i64 {
    chrono::DateTime::<chrono::Utc>::from(std::time::SystemTime::now()).timestamp_millis()
}

/// Whether a request started at reading `start_ms`, seen again at reading
/// `now_ms`, has outlived a deadline of `timeout_ms` milliseconds.
pub open spec fn spec_deadline_exceeded(start_ms: i64, now_ms: i64, timeout_ms: u64) -> bool {
    now_ms - start_ms > timeout_ms
}

/// Compares two clock readings against a deadline; the arithmetic is done
/// widely, so readings that run backwards are simply "not exceeded".
pub fn deadline_exceeded(start_ms: i64, now_ms: i64, timeout_ms: u64) -> (r: bool)
    ensures
        r == spec_deadline_exceeded(start_ms, now_ms, timeout_ms),
{
    (now_ms as i128) - (start_ms as i128) > (timeout_ms as i128)
}

impl Context {
    /// Makes the context of a freshly accepted request, recording the clock
    /// reading of this moment as its start.
    pub fn new(timeout_ms: Option<u64>, retries: i64) -> (r: Context)
        ensures
            r.timeout_ms == timeout_ms,
            r.retries == retries,
    {
        Context { timeout_ms, retries, start_ms: now_millis() }
    }

    /// Polls the deadline: reads the clock and fails with `TimedOut` once
    /// more than the configured timeout has elapsed since creation.  A
    /// context without a deadline never times out.
    pub fn is_timeout(&self) -> (r: Result<(), Error>)
        ensures
            self.timeout_ms is None ==> r is Ok,
            r is Err ==> r == Err::<(), Error>(Error::TimedOut) && (self.timeout_ms matches Some(
                t,
            ) && exists|now: i64| #[trigger] spec_deadline_exceeded(self.start_ms, now, t)),
            r is Ok ==> (self.timeout_ms matches Some(t) ==> exists|now: i64|
                !#[trigger] spec_deadline_exceeded(self.start_ms, now, t)),
    {
        if let Some(timeout_ms) = self.timeout_ms {
            let now = now_millis();
            if deadline_exceeded(self.start_ms, now, timeout_ms) {
                proof {
                    assert(spec_deadline_exceeded(self.start_ms, now, timeout_ms));
                }
                return Err(Error::TimedOut);
            }
            proof {
                assert(!spec_deadline_exceeded(self.start_ms, now, timeout_ms));
            }
        }
        Ok(())
    }

    /// Whether the retry budget still has room.
    pub fn is_retriable(&self) -> (r: bool)
        ensures
            r == (self.retries > 0),
    {
        self.retries > 0
    }

    /// Spends one retry.  The counter ticks down on every call, as an
    /// atomic fetch-and-subtract would, wrapping at the numeric edge; the
    /// call succeeds exactly when the budget was still positive, and
    /// fails with `NoRetriesLeft` once the counter has reached zero or
    /// below, signalling callers to stop retrying internal
    /// sub-operations.
    pub fn decrease_retries(&mut self) -> (r: Result<(), Error>)
        ensures
            old(self).retries > i64::MIN ==> final(self).retries == old(self).retries - 1,
            old(self).retries == i64::MIN ==> final(self).retries == i64::MAX,
            old(self).retries > 0 ==> r is Ok,
            old(self).retries <= 0 ==> r == Err::<(), Error>(Error::NoRetriesLeft),
            final(self).timeout_ms == old(self).timeout_ms,
            final(self).start_ms == old(self).start_ms,
    {
        let prev = self.retries;
        self.retries = if prev == i64::MIN {
            i64::MAX
        } else {
            prev - 1
        };
        if prev <= 0 {
            Err(Error::NoRetriesLeft)
        } else {
            Ok(())
        }
    }
}

} // verus!
