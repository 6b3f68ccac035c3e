//! The decisions of the post-commit hook around sending the statistics: how
//! its log lines look, what a reply means, and when to stop waiting for it.

use vstd::prelude::*;

verus! {

/// A line of the hook's log.
pub open spec fn hook_log_line(output: Seq<char>) -> Seq<char> {
    "[Git-Hook]: "@ + output
}

/// The hook's log line for `output`.
pub fn log_format(output: &str) -> (r: String)
    ensures
        r@ == hook_log_line(output@),
{
    let mut r = String::from_str("[Git-Hook]: ");
    r.append(output);
    r
}

/// Where sending the statistics stands.
#[derive(Debug, Clone, Copy, PartialEq, Eq, Structural)]
pub enum ResponseState {
    Running,
    Failed,
    Success,
}

/// An HTTP status in the success class, 200 to 299 (`StatusCode::is_success`).
pub open spec fn is_success_status(code: u16) -> bool {
    200 <= code && code <= 299
}

/// What the reply to the request means: `status` is the reply's HTTP status,
/// or `None` when the request failed without a reply.
pub fn response_state(status: Option<u16>) -> (r: ResponseState)
    ensures
        r == (match status {
            Some(code) => if is_success_status(code) {
                ResponseState::Success
            } else {
                ResponseState::Failed
            },
            None => ResponseState::Failed,
        }),
{
    match status {
        Some(code) => if 200 <= code && code <= 299 {
            ResponseState::Success
        } else {
            ResponseState::Failed
        },
        None => ResponseState::Failed,
    }
}

/// How long the hook sleeps between two looks at the request, in milliseconds.
pub const POLL_INTERVAL_MILLIS: u64 = 100;

/// What the hook does next while it waits for the request.
#[derive(Debug, Clone, Copy, PartialEq, Eq, Structural)]
pub enum PollAction {
    /// Sleep `POLL_INTERVAL_MILLIS`, then look again.
    Sleep,
    /// Stop waiting.
    Stop,
}

/// Whether more than `timeout_millis` milliseconds have passed, given the
/// time `elapsed_nanos` in nanoseconds.
pub open spec fn timed_out(elapsed_nanos: u128, timeout_millis: u64) -> bool {
    elapsed_nanos > timeout_millis * 1_000_000
}

/// The timeout compares the time passed with the whole timeout, for every
/// timeout a `u64` holds: nothing wraps around.
pub proof fn lemma_timed_out(elapsed_nanos: u128, timeout_millis: u64)
    ensures
        timed_out(elapsed_nanos, timeout_millis) <==> elapsed_nanos as int > timeout_millis as int
            * 1_000_000,
{
}

/// The next step of waiting for the request: stop once the timeout has passed
/// or the request has ended, sleep while it is still running.
pub fn poll_action(elapsed_nanos: u128, timeout_millis: u64, state: ResponseState) -> (r:
    PollAction)
    ensures
        r == (if timed_out(elapsed_nanos, timeout_millis) {
            PollAction::Stop
        } else if state == ResponseState::Running {
            PollAction::Sleep
        } else {
            PollAction::Stop
        }),
        r == PollAction::Sleep <==> (state == ResponseState::Running && elapsed_nanos as int
            <= timeout_millis as int * 1_000_000),
{
    proof {
        lemma_timed_out(elapsed_nanos, timeout_millis);
    }
    let limit: u128 = timeout_millis as u128 * 1_000_000;
    if elapsed_nanos > limit {
        PollAction::Stop
    } else if state == ResponseState::Running {
        PollAction::Sleep
    } else {
        PollAction::Stop
    }
}

} // verus!
