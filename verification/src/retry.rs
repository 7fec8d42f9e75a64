//! How often a request is tried and how long to wait in between.
use crate::provider::ProviderError;
use vstd::prelude::*;

verus! {

/// How often a request is tried before its failure is final.
pub const ATTEMPTS: u32 = 3;

/// The seconds to wait after this many failed attempts.
pub open spec fn backoff_spec(failed_attempts: u32) -> Option<u64> {
    if failed_attempts == 1 || failed_attempts == 2 {
        Some(failed_attempts as u64)
    } else {
        None
    }
}

/// The seconds to wait after this many failed attempts.
pub fn backoff(failed_attempts: u32) -> (r: Option<u64>)
    ensures
        r == backoff_spec(failed_attempts),
{
    match failed_attempts {
        1 => Some(1),
        2 => Some(2),
        _ => None,
    }
}

/// Whether a request that failed in this way is worth another try.
pub fn is_retryable_provider(error: &ProviderError) -> (r: bool)
    ensures
        r == (*error is RequestFailed || *error is InvalidResponse),
{
    match error {
        ProviderError::RequestFailed(_) | ProviderError::InvalidResponse(_) => true,
    }
}

/// What to do after a failed attempt.
#[derive(Debug, Clone, Copy, PartialEq, Eq, Structural)]
pub enum RetryStep {
    /// Wait this many seconds and try again.
    Wait { seconds: u64 },
    /// Report the failure.
    GiveUp,
}

/// What follows the failure of attempt number `attempts`.
pub open spec fn after_failure_spec(attempts: u32, retryable: bool) -> RetryStep {
    if attempts < ATTEMPTS && retryable {
        match backoff_spec(attempts) {
            Some(seconds) => RetryStep::Wait { seconds },
            None => RetryStep::Wait { seconds: 0 },
        }
    } else {
        RetryStep::GiveUp
    }
}

/// What follows the failure of attempt number `attempts`.
pub fn after_failure(attempts: u32, retryable: bool) -> (r: RetryStep)
    ensures
        r == after_failure_spec(attempts, retryable),
{
    if attempts < ATTEMPTS && retryable {
        match backoff(attempts) {
            Some(seconds) => RetryStep::Wait { seconds },
            None => RetryStep::Wait { seconds: 0 },
        }
    } else {
        RetryStep::GiveUp
    }
}

/// The number of the attempt after which a request that always fails in this
/// way is given up, when `attempts` have failed before.
pub open spec fn given_up_after(attempts: u32, retryable: bool) -> u32
    decreases ATTEMPTS - attempts,
{
    if after_failure_spec((attempts + 1) as u32, retryable) is Wait && attempts < ATTEMPTS {
        given_up_after((attempts + 1) as u32, retryable)
    } else {
        (attempts + 1) as u32
    }
}

/// A request that keeps failing in a retryable way is tried three times, with
/// waits of one and two seconds; any other failure is final at once.
pub proof fn tried_three_times()
    ensures
        given_up_after(0, true) == ATTEMPTS,
        given_up_after(0, false) == 1,
        after_failure_spec(1, true) == (RetryStep::Wait { seconds: 1 }),
        after_failure_spec(2, true) == (RetryStep::Wait { seconds: 2 }),
        after_failure_spec(ATTEMPTS, true) == RetryStep::GiveUp,
        forall|attempts: u32| #[trigger] after_failure_spec(attempts, false) == RetryStep::GiveUp,
{
    reveal_with_fuel(given_up_after, 4);
}

/// The wait grows by a second with every failure, and a request is given up
/// exactly at its third failure or at one that is not worth another try.
pub proof fn waits_grow_until_the_third_failure(attempts: u32, retryable: bool)
    requires
        attempts >= 1,
    ensures
        after_failure_spec(attempts, retryable) == RetryStep::GiveUp <==> !retryable || attempts
            >= 3,
        after_failure_spec(attempts, retryable) matches RetryStep::Wait { seconds } ==> seconds
            == attempts,
        backoff_spec(attempts) is Some <==> attempts == 1 || attempts == 2,
        backoff_spec(attempts) matches Some(seconds) ==> seconds == attempts,
{
}

/// Whatever `after_failure` returns: another try after so many seconds as have
/// failed before, until the third failure or one that is not worth another try.
pub proof fn failures_are_retried_twice(attempts: u32, retryable: bool, r: RetryStep)
    requires
        call_ensures(after_failure, (attempts, retryable), r),
        attempts >= 1,
    ensures
        r == RetryStep::GiveUp <==> !retryable || attempts >= 3,
        r matches RetryStep::Wait { seconds } ==> seconds == attempts,
{
    waits_grow_until_the_third_failure(attempts, retryable);
}

} // verus!
