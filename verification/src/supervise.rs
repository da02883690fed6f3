//! Supervision of consumers: what a step came to, and what is done next.

use vstd::prelude::*;

use crate::types::LogCursor;

verus! {

/// What a consumer's step came to.
#[derive(Debug)]
pub enum StepOutcome {
    /// Events were applied.
    Progressed { applied: usize },
    /// There was nothing to apply.
    Idle,
    /// A consumer that this one depends on is behind it.
    WaitOnDep { dep: String, cursor: LogCursor, dep_cursor: LogCursor },
}

/// What stepping a consumer gave.
#[derive(Debug)]
pub enum Stepped {
    Outcome(StepOutcome),
    Failed,
    Panicked,
}

/// What a supervisor does next.
#[derive(Clone, Copy, Debug, PartialEq, Eq, Structural)]
pub enum SuperviseAction {
    /// Step again at once.
    Continue,
    /// Wait a moment, then step again.
    Poll,
    /// Wait longer, then step again.
    BackOff,
}

/// How long a supervisor waits for new events, in milliseconds.
pub const POLL_INTERVAL_MILLIS: u64 = 50;

/// How long a supervisor waits after a failure, in milliseconds.
pub const BACKOFF_ON_ERROR_MILLIS: u64 = 250;

/// How many events a step takes at most.
pub const SUPERVISOR_BATCH: usize = 256;

/// What follows a step.
pub open spec fn action_after(stepped: Stepped) -> SuperviseAction {
    match stepped {
        Stepped::Outcome(StepOutcome::Progressed { .. }) => SuperviseAction::Continue,
        Stepped::Outcome(_) => SuperviseAction::Poll,
        Stepped::Failed => SuperviseAction::BackOff,
        Stepped::Panicked => SuperviseAction::BackOff,
    }
}

/// Decides what follows a step. No outcome ends the supervision: a consumer
/// that fails or panics is stepped again.
pub fn supervise_one(stepped: &Stepped) -> (action: SuperviseAction)
    ensures
        action == action_after(*stepped),
{
    match stepped {
        Stepped::Outcome(StepOutcome::Progressed { .. }) => SuperviseAction::Continue,
        Stepped::Outcome(_) => SuperviseAction::Poll,
        Stepped::Failed => SuperviseAction::BackOff,
        Stepped::Panicked => SuperviseAction::BackOff,
    }
}

/// How long an action waits, in milliseconds.
pub fn wait_millis(action: SuperviseAction) -> (millis: u64)
    ensures
        millis == (match action {
            SuperviseAction::Continue => 0u64,
            SuperviseAction::Poll => 50u64,
            SuperviseAction::BackOff => 250u64,
        }),
{
    match action {
        SuperviseAction::Continue => 0,
        SuperviseAction::Poll => POLL_INTERVAL_MILLIS,
        SuperviseAction::BackOff => BACKOFF_ON_ERROR_MILLIS,
    }
}

/// Decides what follows a drain of the outbox: drain again while something was
/// drained, and wait where nothing was or it failed.
pub fn supervise_relay(drained: Option<usize>) -> (action: SuperviseAction)
    ensures
        action == (match drained {
            Some(n) => if n == 0 {
                SuperviseAction::Poll
            } else {
                SuperviseAction::Continue
            },
            None => SuperviseAction::BackOff,
        }),
{
    match drained {
        Some(n) => if n == 0 {
            SuperviseAction::Poll
        } else {
            SuperviseAction::Continue
        },
        None => SuperviseAction::BackOff,
    }
}

/// Whether a relay drains once more when it is told to stop: always, but while
/// it backs off from a failure.
pub fn drains_on_stop(waiting_after: Option<SuperviseAction>) -> (drains: bool)
    ensures
        drains == (waiting_after != Some(SuperviseAction::BackOff)),
{
    match waiting_after {
        Some(SuperviseAction::BackOff) => false,
        _ => true,
    }
}

/// What a panic carried.
#[derive(Debug)]
pub enum PanicPayload {
    Literal(&'static str),
    Text(String),
    Other,
}

/// The message of a panic.
pub fn panic_payload_message(payload: &PanicPayload) -> (text: String)
    ensures
        text@ == (match payload {
            PanicPayload::Literal(s) => s@,
            PanicPayload::Text(s) => s@,
            PanicPayload::Other => "<non-string panic payload>"@,
        }),
{
    match payload {
        PanicPayload::Literal(s) => (*s).to_owned(),
        PanicPayload::Text(s) => s.clone(),
        PanicPayload::Other => "<non-string panic payload>".to_owned(),
    }
}

/// No step ends the supervision: after one that applied something the next
/// follows at once, after one that failed or panicked later than after one
/// that had nothing to do or had to wait.
pub proof fn law_supervision_goes_on(
    stepped: &Stepped,
    action: SuperviseAction,
    millis: u64,
)
    requires
        call_ensures(supervise_one, (stepped,), action),
        call_ensures(wait_millis, (action,), millis),
    ensures
        action is Continue <==> (stepped matches Stepped::Outcome(o) && o is Progressed),
        action is Poll <==> (stepped matches Stepped::Outcome(o) && !(o is Progressed)),
        action is BackOff <==> stepped is Failed || stepped is Panicked,
        action is Continue ==> millis == 0,
        action is Poll ==> millis == 50,
        action is BackOff ==> millis == 250,
{
}

/// An outbox is drained until it is empty: again at once while something was
/// drained, and after a wait where nothing was or it failed. One that is told
/// to stop drains once more unless it waits out a failure.
pub proof fn law_outboxes_drain_until_empty(
    drained: Option<usize>,
    action: SuperviseAction,
    waiting: Option<SuperviseAction>,
    drains: bool,
)
    requires
        call_ensures(supervise_relay, (drained,), action),
        call_ensures(drains_on_stop, (waiting,), drains),
    ensures
        action is Continue <==> (drained matches Some(n) && n > 0),
        action is Poll <==> drained == Some(0usize),
        action is BackOff <==> drained is None,
        drains <==> !(waiting matches Some(w) && w is BackOff),
{
}

/// A panic is told in its own words wherever it has any.
pub proof fn law_panics_keep_their_words(payload: &PanicPayload, text: String)
    requires
        call_ensures(panic_payload_message, (payload,), text),
    ensures
        payload matches PanicPayload::Literal(s) ==> text@ == s@,
        payload matches PanicPayload::Text(s) ==> text@ == s@,
        payload is Other ==> text@ == "<non-string panic payload>"@,
{
}

} // verus!
