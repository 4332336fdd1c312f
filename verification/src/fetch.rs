//! The decision core of the rate-limited, indefinitely retrying fetch
//! client.
//!
//! The transport itself (connections, response bodies, decoding) lives
//! outside; this module decides. The rate limiter admits at most a fixed
//! number of calls per window and otherwise says when to wake; the retry
//! policy turns each attempt outcome into the next step, and it never gives
//! up: the only exit is success.

use vstd::prelude::*;

verus! {

/// The API region the client talks to.
#[derive(Clone, Copy, PartialEq, Eq, Structural, Debug)]
pub enum Region {
    US,
    EU,
}

/// Given a region, the first path segment of the app's URL.
pub fn app_url_for_region(region: &Region) -> (r: &'static str)
    ensures
        *region == Region::US ==> r@ == "blood-money"@,
        *region == Region::EU ==> r@ == "blood-money-eu"@,
{
    match region {
        Region::US => "blood-money",
        Region::EU => "blood-money-eu",
    }
}

/// The recoverable ways one fetch attempt can fail. Every one of them is
/// logged and retried, never surfaced to the caller.
#[derive(Clone, Copy, PartialEq, Eq, Structural, Debug)]
pub enum FetchError {
    Transport,
    Protocol,
    Decode,
}

/// What one fetch attempt produced.
pub enum AttemptOutcome<T> {
    Success(T),
    Failed(FetchError),
}

/// The step the retry loop takes next.
pub enum FetchStep<T> {
    Finished(T),
    RetryAttempt(u64),
}

/// Counts fetch attempts for diagnostics.
pub struct RetryState {
    pub attempts: u64,
}

impl RetryState {
    pub fn start() -> (s: Self)
        ensures
            s.attempts == 0,
    {
        RetryState { attempts: 0 }
    }

    /// Decides the next step from an attempt's outcome: success is the one
    /// exit; every failure is retried, with the attempt counter advanced for
    /// the diagnostic log line.
    pub fn next_step<T>(&mut self, outcome: AttemptOutcome<T>) -> (r: FetchStep<T>)
        requires
            old(self).attempts < u64::MAX,
        ensures
            match outcome {
                AttemptOutcome::Success(v) => r matches FetchStep::Finished(w) && w == v
                    && final(self).attempts == old(self).attempts,
                AttemptOutcome::Failed(_) => r matches FetchStep::RetryAttempt(n) && n == old(
                    self,
                ).attempts + 1 && final(self).attempts == old(self).attempts + 1,
            },
    {
        match outcome {
            AttemptOutcome::Success(v) => FetchStep::Finished(v),
            AttemptOutcome::Failed(_) => {
                self.attempts = self.attempts + 1;
                FetchStep::RetryAttempt(self.attempts)
            },
        }
    }
}

/// What the rate limiter tells a caller that asks to pass through.
#[derive(Clone, Copy, PartialEq, Eq, Structural, Debug)]
pub enum AdmitDecision {
    Admitted,
    WaitUntil(u64),
}

/// A fixed-window rate limiter: at most `limit` admissions per window of
/// `window` milliseconds. When the budget is spent, callers are told the
/// instant the window rolls over, and ask again then.
pub struct RateLimiter {
    pub limit: u64,
    pub window: u64,
    pub window_start: u64,
    pub count: u64,
}

impl RateLimiter {
    /// The limiter never records more admissions than its budget.
    pub open spec fn wf(self) -> bool {
        &&& self.limit > 0
        &&& self.count <= self.limit
    }

    pub fn new(limit: u64, window: u64) -> (s: Self)
        requires
            limit > 0,
        ensures
            s.wf(),
            s.limit == limit,
            s.window == window,
            s.count == 0,
            s.window_start == 0,
    {
        RateLimiter { limit, window, window_start: 0, count: 0 }
    }

    /// One admission request at time `now` (milliseconds, monotone). Either
    /// the call is admitted and counted, or the caller is told to wait until
    /// the current window ends.
    pub fn try_admit(&mut self, now: u64) -> (r: AdmitDecision)
        requires
            old(self).wf(),
            now >= old(self).window_start,
            now + old(self).window <= u64::MAX,
        ensures
            final(self).wf(),
            final(self).limit == old(self).limit,
            final(self).window == old(self).window,
            if now >= old(self).window_start + old(self).window {
                &&& r == AdmitDecision::Admitted
                &&& final(self).window_start == now
                &&& final(self).count == 1
            } else if old(self).count < old(self).limit {
                &&& r == AdmitDecision::Admitted
                &&& final(self).window_start == old(self).window_start
                &&& final(self).count == old(self).count + 1
            } else {
                &&& r == AdmitDecision::WaitUntil(
                    (old(self).window_start + old(self).window) as u64,
                )
                &&& *final(self) == *old(self)
            },
    {
        if now >= self.window_start && now - self.window_start >= self.window {
            self.window_start = now;
            self.count = 1;
            AdmitDecision::Admitted
        } else if self.count < self.limit {
            self.count = self.count + 1;
            AdmitDecision::Admitted
        } else {
            AdmitDecision::WaitUntil(self.window_start + self.window)
        }
    }
}

} // verus!
