//! How a failed request would be tried again. Nothing in this library reads
//! the policy yet: no request is retried.
use std::time::Duration;
use vstd::prelude::*;

verus! {

/// The nanoseconds that `duration` spans.
pub uninterp spec fn nanoseconds(duration: Duration) -> nat;

/// Makes a span of time with `Duration::from_secs`: it spans the seconds
/// given, and no fraction of a second more.
#[verifier::external_body]
fn seconds(secs: u64) -> (duration: Duration)
    ensures
        nanoseconds(duration) == secs * 1_000_000_000,
{
    Duration::from_secs(secs)
}

/// The settings of a retry policy.
#[derive(Clone, Copy, Debug)]
pub struct RetryPolicy {
    /// How often a request is sent again at most.
    pub max_retries: u64,
    /// Whether the wait between two tries varies at random.
    pub jitter: bool,
    /// Whether a client error is tried again.
    pub retry_on_client_error: bool,
    /// Whether a server error is tried again.
    pub retry_on_server_error: bool,
    /// How long one try may take.
    pub timeout: Duration,
}

impl Default for RetryPolicy {
    /// Three retries with jitter, on server errors only, of one second each.
    fn default() -> (policy: RetryPolicy)
        ensures
            policy.max_retries == 3,
            policy.jitter,
            !policy.retry_on_client_error,
            policy.retry_on_server_error,
            nanoseconds(policy.timeout) == 1_000_000_000,
    {
        RetryPolicy {
            max_retries: 3,
            jitter: true,
            retry_on_client_error: false,
            retry_on_server_error: true,
            timeout: seconds(1),
        }
    }
}

} // verus!
