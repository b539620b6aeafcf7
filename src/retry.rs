use backoff::backoff::Backoff;
use vstd::prelude::*;

use crate::status::Status;

verus! {

#[verifier::external_type_specification]
#[verifier::external_body]
#[verifier::reject_recursive_types(C)]
pub struct ExExponentialBackoff<C>(backoff::exponential::ExponentialBackoff<C>);

#[verifier::external_type_specification]
#[verifier::external_body]
pub struct ExSystemClock(backoff::SystemClock);

/// Relies on `backoff::ExponentialBackoff::default`: a fresh schedule with
/// the crate's default intervals, randomization and elapsed-time budget.
#[verifier::external_body]
fn default_schedule() -> backoff::ExponentialBackoff {
    backoff::ExponentialBackoff::default()
}

/// Relies on `Backoff::next_backoff` of `backoff::ExponentialBackoff`: the
/// next randomized wait, in milliseconds, or `None` once the elapsed-time
/// budget is spent. It depends on chance and on the clock, so nothing is
/// stated of it.
#[verifier::external_body]
fn next_wait_ms(schedule: &mut backoff::ExponentialBackoff) -> (r: Option<u64>) {
    schedule.next_backoff().map(|d| d.as_millis() as u64)
}

/// What one upload attempt came to.
#[derive(Clone, Copy, Debug, PartialEq, Eq, Structural)]
pub enum UploadOutcome {
    /// The object was stored.
    Stored,
    /// The request could not even be built (malformed, no credentials):
    /// a permanent failure.
    ConstructionFailed,
    /// Network errors, 5xx answers, throttling: a transient failure.
    RequestFailed,
}

/// What to do after an upload attempt.
#[derive(Clone, Copy, Debug, PartialEq, Eq, Structural)]
pub enum RetryStep {
    /// Stop, reporting this status for the write.
    Finish(Status),
    /// Log a warning, wait this many milliseconds, then try again.
    Wait(u64),
}

pub open spec fn retry_step_spec(outcome: UploadOutcome, next_wait: Option<u64>, last_wait: u64) -> RetryStep {
    match outcome {
        UploadOutcome::Stored => RetryStep::Finish(Status::Success),
        UploadOutcome::ConstructionFailed => RetryStep::Finish(Status::Error),
        UploadOutcome::RequestFailed => match next_wait {
            Some(ms) => RetryStep::Wait(
                if ms >= last_wait {
                    ms
                } else {
                    last_wait
                },
            ),
            None => RetryStep::Finish(Status::Error),
        },
    }
}

/// The retry rule: a stored object ends with `Success`; a permanent failure
/// ends with `Error` at once; a transient one waits for the schedule's next
/// wait, never less than the wait before it (`last_wait`), or ends with
/// `Error` when the backoff budget is spent (`None`).
pub fn retry_step(outcome: UploadOutcome, next_wait: Option<u64>, last_wait: u64) -> (r: RetryStep)
    ensures
        r == retry_step_spec(outcome, next_wait, last_wait),
{
    match outcome {
        UploadOutcome::Stored => RetryStep::Finish(Status::Success),
        UploadOutcome::ConstructionFailed => RetryStep::Finish(Status::Error),
        UploadOutcome::RequestFailed => match next_wait {
            Some(ms) => RetryStep::Wait(
                if ms >= last_wait {
                    ms
                } else {
                    last_wait
                },
            ),
            None => RetryStep::Finish(Status::Error),
        },
    }
}

/// The retry state of one upload: its exponential backoff schedule, the
/// number of attempts made so far and the last wait handed out.
pub struct UploadRetry {
    schedule: backoff::ExponentialBackoff,
    attempts: u32,
    last_wait: u64,
}

impl UploadRetry {
    pub closed spec fn attempts_spec(&self) -> nat {
        self.attempts as nat
    }

    pub closed spec fn last_wait_spec(&self) -> u64 {
        self.last_wait
    }

    pub fn new() -> (r: UploadRetry)
        ensures
            r.attempts_spec() == 0,
            r.last_wait_spec() == 0,
    {
        UploadRetry { schedule: default_schedule(), attempts: 0, last_wait: 0 }
    }

    pub fn attempts(&self) -> (r: u32)
        ensures
            r == self.attempts_spec(),
    {
        self.attempts
    }

    /// Decides what follows an attempt. Only a transient failure consults
    /// the backoff schedule; the wait it gives, or its end, decides. A wait
    /// is never shorter than the one before it.
    pub fn after_attempt(&mut self, outcome: UploadOutcome) -> (r: RetryStep)
        ensures
            final(self).attempts_spec() == if old(self).attempts_spec() < u32::MAX {
                old(self).attempts_spec() + 1
            } else {
                old(self).attempts_spec()
            },
            outcome != UploadOutcome::RequestFailed ==> r == retry_step_spec(
                outcome,
                None,
                old(self).last_wait_spec(),
            ),
            exists|w: Option<u64>| r == retry_step_spec(outcome, w, old(self).last_wait_spec()),
            r matches RetryStep::Wait(ms) ==> ms >= old(self).last_wait_spec()
                && final(self).last_wait_spec() == ms,
            !(r is Wait) ==> final(self).last_wait_spec() == old(self).last_wait_spec(),
    {
        if self.attempts < u32::MAX {
            self.attempts = self.attempts + 1;
        }
        let next = match outcome {
            UploadOutcome::RequestFailed => next_wait_ms(&mut self.schedule),
            _ => None,
        };
        let step = retry_step(outcome, next, self.last_wait);
        if let RetryStep::Wait(ms) = step {
            self.last_wait = ms;
        }
        step
    }
}

/// A permanent failure is never retried, whatever the schedule would allow.
pub proof fn lemma_permanent_not_retried(next_wait: Option<u64>, last_wait: u64)
    ensures
        retry_step_spec(UploadOutcome::ConstructionFailed, next_wait, last_wait)
            == RetryStep::Finish(Status::Error),
{
}

/// A transient failure is retried for as long as the schedule gives a wait.
pub proof fn lemma_transient_retried(ms: u64, last_wait: u64)
    ensures
        retry_step_spec(UploadOutcome::RequestFailed, Some(ms), last_wait) is Wait,
{
}

/// The gaps between attempts never shrink: each wait is at least the one
/// before it.
pub proof fn lemma_waits_never_shrink(
    outcome: UploadOutcome,
    next_wait: Option<u64>,
    last_wait: u64,
)
    ensures
        retry_step_spec(outcome, next_wait, last_wait) matches RetryStep::Wait(ms) ==> ms
            >= last_wait,
{
}

} // verus!
