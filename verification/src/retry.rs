//! The retry controller: bounded attempts with exponential backoff.
//!
//! One logical transfer runs the whole state machine up to a configured
//! number of times. Every failure kind is retried identically; a failure
//! on the final attempt is surfaced as the entry's terminal error.

use vstd::prelude::*;
use vstd::arithmetic::power2::pow2;

verus! {

/// Backoff never waits longer than this many seconds.
pub const MAX_BACKOFF_SECS: u64 = 30;

/// Seconds to wait after a failed attempt number `attempt` (counted from
/// 1): `2^(attempt - 1)`, capped.
pub open spec fn backoff_secs_spec(attempt: u32) -> int
    recommends
        1 <= attempt,
{
    if pow2((attempt - 1) as nat) < MAX_BACKOFF_SECS {
        pow2((attempt - 1) as nat) as int
    } else {
        MAX_BACKOFF_SECS as int
    }
}

pub fn backoff_delay_secs(attempt: u32) -> (d: u64)
    requires
        1 <= attempt,
    ensures
        d == backoff_secs_spec(attempt),
{
    proof {
        vstd::arithmetic::power2::lemma2_to64();
        if attempt >= 7 {
            vstd::arithmetic::power2::lemma_pow2_strictly_increases(5, (attempt - 1) as nat);
        }
    }
    if attempt >= 6 {
        30
    } else if attempt == 5 {
        16
    } else if attempt == 4 {
        8
    } else if attempt == 3 {
        4
    } else if attempt == 2 {
        2
    } else {
        1
    }
}

/// What to do after a failed attempt.
#[derive(Clone, Copy, PartialEq, Eq, Structural, Debug)]
pub enum RetryDecision {
    /// Wait this many seconds, then run the whole state machine again
    /// from the probe.
    RetryAfterSecs(u64),
    /// The attempt limit is exhausted: surface the failure for this entry.
    GiveUp,
}

/// Attempt bookkeeping for one entry: `attempt` is the number of the
/// attempt currently underway, counted from 1; `limit` is the configured
/// maximum number of attempts.
pub struct RetryController {
    pub attempt: u32,
    pub limit: u32,
}

impl RetryController {
    pub open spec fn wf(self) -> bool {
        1 <= self.attempt
    }

    /// The first attempt is underway as soon as the controller exists.
    pub fn new(limit: u32) -> (c: Self)
        ensures
            c.attempt == 1,
            c.limit == limit,
            c.wf(),
    {
        RetryController { attempt: 1, limit }
    }

    /// Decide after a failure: any attempt strictly below the limit is
    /// retried after the backoff for its number; a failure on the final
    /// attempt gives up. Success never reaches this function — it ends
    /// the retry loop at once.
    pub fn on_failure(&mut self) -> (d: RetryDecision)
        requires
            old(self).wf(),
            old(self).attempt < u32::MAX,
        ensures
            final(self).wf(),
            final(self).limit == old(self).limit,
            old(self).attempt < old(self).limit ==> {
                &&& final(self).attempt == old(self).attempt + 1
                &&& d == RetryDecision::RetryAfterSecs(backoff_secs_spec(old(self).attempt) as u64)
            },
            old(self).attempt >= old(self).limit ==> {
                &&& final(self).attempt == old(self).attempt
                &&& d == RetryDecision::GiveUp
            },
    {
        if self.attempt < self.limit {
            let delay = backoff_delay_secs(self.attempt);
            self.attempt = self.attempt + 1;
            RetryDecision::RetryAfterSecs(delay)
        } else {
            RetryDecision::GiveUp
        }
    }
}

} // verus!
