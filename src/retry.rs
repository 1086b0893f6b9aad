//! The retry state machine: after each attempt at sending a request, decide
//! whether the request is finished or is sent again after a wait.

use vstd::prelude::*;
use crate::opt_nat;
use crate::backoff::{BackoffPolicy, PolicyView};
use crate::reset::{opt_text, reset_wait, wait_for_reset, Timestamp};

verus! {

/// What one attempt at sending a request produced.
#[derive(Clone, Copy, Debug, PartialEq, Eq, Structural)]
pub enum Outcome {
    /// A response arrived with this HTTP status code.
    Status(u16),
    /// The transport failed and no response arrived.
    TransportFailure,
}

/// How an attempt's outcome is treated.
#[derive(Clone, Copy, Debug, PartialEq, Eq, Structural)]
pub enum Classification {
    /// A 2xx response: the request is done.
    Success,
    /// A 5xx response: retried after a growing backoff.
    ServerError,
    /// A 429 response: retried once its reset instant has passed.
    RateLimited,
    /// Any other response, or a transport failure: handed back as it is.
    Terminal,
}

/// What the gateway does after an attempt.
#[derive(Clone, Copy, Debug, PartialEq, Eq, Structural)]
pub enum Step {
    /// Hand the attempt's result to the caller.
    Return,
    /// Wait this many nanoseconds, then send a copy of the request again.
    Retry { wait_nanos: u64 },
}

/// The classification of an outcome by its status code.
pub open spec fn classification_of(o: Outcome) -> Classification {
    match o {
        Outcome::TransportFailure => Classification::Terminal,
        Outcome::Status(code) => if 200 <= code <= 299 {
            Classification::Success
        } else if 500 <= code <= 599 {
            Classification::ServerError
        } else if code == 429 {
            Classification::RateLimited
        } else {
            Classification::Terminal
        },
    }
}

/// The step after an attempt, and the server-error retry count after it.
///
/// `attempt` counts the server-error retries made so far; `reset_wait` is
/// the wait that a rate-limited response asks for, if it names a reset
/// instant; `draw` is the random number that selects the jitter.
pub open spec fn step_of(
    policy: PolicyView,
    attempt: nat,
    duplicable: bool,
    outcome: Outcome,
    reset_wait: Option<nat>,
    draw: nat,
) -> (nat, Step) {
    if !duplicable {
        (attempt, Step::Return)
    } else {
        match classification_of(outcome) {
            Classification::ServerError => if policy.exhausted(attempt) {
                (attempt, Step::Return)
            } else {
                (
                    if attempt < u64::MAX {
                        attempt + 1
                    } else {
                        attempt
                    },
                    Step::Retry { wait_nanos: policy.wait(attempt, draw) as u64 },
                )
            },
            Classification::RateLimited => match reset_wait {
                Some(w) => (attempt, Step::Retry { wait_nanos: w as u64 }),
                None => (attempt, Step::Return),
            },
            _ => (attempt, Step::Return),
        }
    }
}

/// The retry state of one call through the gateway.
pub struct RetryState {
    /// Server-error retries made so far in this call.
    pub attempt: u64,
}

impl RetryState {
    /// The state at the start of a call: no retry made.
    pub fn new() -> (r: RetryState)
        ensures
            r.attempt == 0,
    {
        RetryState { attempt: 0 }
    }
}

/// Classifies an attempt's outcome.
pub fn classify(outcome: &Outcome) -> (c: Classification)
    ensures
        c == classification_of(*outcome),
{
    match outcome {
        Outcome::TransportFailure => Classification::Terminal,
        Outcome::Status(code) => {
            let code = *code;
            if 200 <= code && code <= 299 {
                Classification::Success
            } else if 500 <= code && code <= 599 {
                Classification::ServerError
            } else if code == 429 {
                Classification::RateLimited
            } else {
                Classification::Terminal
            }
        },
    }
}

/// The step after an attempt, given the wait that a rate-limited response
/// asks for; updates the retry count.
pub fn next_step(
    policy: &BackoffPolicy,
    state: &mut RetryState,
    duplicable: bool,
    outcome: &Outcome,
    reset_wait: Option<u64>,
    draw: u64,
) -> (r: Step)
    ensures
        (final(state).attempt as nat, r) == step_of(
            policy@,
            old(state).attempt as nat,
            duplicable,
            *outcome,
            opt_nat(reset_wait),
            draw as nat,
        ),
{
    if !duplicable {
        return Step::Return;
    }
    match classify(outcome) {
        Classification::ServerError => {
            let exhausted = match policy.max_retries() {
                Some(m) => state.attempt >= m,
                None => false,
            };
            if exhausted {
                Step::Return
            } else {
                let wait = policy.wait(state.attempt, draw);
                state.attempt = state.attempt.saturating_add(1);
                Step::Retry { wait_nanos: wait }
            }
        },
        Classification::RateLimited => match reset_wait {
            Some(w) => Step::Retry { wait_nanos: w },
            None => Step::Return,
        },
        _ => Step::Return,
    }
}

/// The step after an attempt at instant `now`, taking the wait from the
/// reset header `reset_header` when the response is rate-limited.
pub fn decide(
    policy: &BackoffPolicy,
    state: &mut RetryState,
    duplicable: bool,
    outcome: &Outcome,
    reset_header: Option<&str>,
    now: &Timestamp,
    draw: u64,
) -> (r: Step)
    ensures
        (final(state).attempt as nat, r) == step_of(
            policy@,
            old(state).attempt as nat,
            duplicable,
            *outcome,
            reset_wait(opt_text(reset_header), now.total_nanos()),
            draw as nat,
        ),
{
    let reset_wait = if duplicable && classify(outcome) == Classification::RateLimited {
        wait_for_reset(reset_header, now)
    } else {
        None
    };
    next_step(policy, state, duplicable, outcome, reset_wait, draw)
}

/// Each call starts afresh: from the retry state of a new call, a success
/// is handed back at once and leaves the retry count at zero, whatever
/// calls came before.
pub proof fn lemma_success_from_fresh_state(
    policy: PolicyView,
    duplicable: bool,
    code: u16,
    reset_wait: Option<nat>,
    draw: nat,
)
    requires
        200 <= code <= 299,
    ensures
        step_of(policy, 0, duplicable, Outcome::Status(code), reset_wait, draw) == (
            0nat,
            Step::Return,
        ),
{
}

} // verus!
