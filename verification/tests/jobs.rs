use causal::failure::Error;
use causal::job_executor::{
    build_dlq_terminal_event, decode_event, describe_context, execution_context, idempotency_key,
    projection_context, serialize_emitted_events, startup_context, startup_error, timeout_for,
    AttemptStep, BodyOutcome, DecodePath, Delay, EmittedEvent, EventOutput, JobExecutor,
    PersistedEvent, ProjectionRun, QueuedReactor, ReactorInfo, ReactorStatus, TerminalMapper,
};
use causal::json::{Json, Number};
use causal::types::{LogCursor, Metadata, Timestamp};
use uuid::Uuid;

fn reactor(id: &str) -> ReactorInfo {
    ReactorInfo {
        id: id.to_string(),
        delay: None,
        timeout: None,
        max_attempts: 3,
        priority: None,
        maps_terminal: false,
    }
}

fn event(metadata: Metadata) -> PersistedEvent {
    PersistedEvent {
        position: LogCursor::from_raw(12),
        event_id: 5,
        parent_id: Some(4),
        correlation_id: 3,
        event_type: "order:placed".to_string(),
        payload: Json::Bool(true),
        metadata,
    }
}

fn queued(id: &str, attempts: i32, max_attempts: i32) -> QueuedReactor {
    QueuedReactor {
        reactor_id: id.to_string(),
        correlation_id: 3,
        event_id: 5,
        parent_event_id: Some(4),
        event_type: "order:placed".to_string(),
        attempts,
        max_attempts,
        timeout_seconds: 0,
    }
}

fn output(name: &str) -> EventOutput {
    EventOutput {
        durable_name: name.to_string(),
        event_prefix: "order".to_string(),
        persistent: true,
        payload: Json::Null,
    }
}

const NOW: Timestamp = Timestamp { secs: 100, nanos: 700_000_000 };

const NOW_NEXT: Timestamp = Timestamp { secs: 100, nanos: 700_000_001 };

#[test]
fn an_event_commits_one_intent_for_each_reactor() {
    let mut delayed = reactor("b");
    delayed.delay = Some(Delay { secs: 2, nanos: 500_000_000 });
    delayed.timeout = Some(Delay { secs: 30, nanos: 0 });
    delayed.priority = Some(1);
    // The one between does not take the event.
    let executor = JobExecutor::new(vec![reactor("a"), reactor("other"), delayed], false);
    let hops = vec![("_hops".to_string(), Json::Number(Number::PosInt(2)))];
    let commit = executor
        .process_event(
            &event(hops),
            &vec![Some(NOW), None, Some(NOW_NEXT)],
            Vec::new(),
            vec![
                ProjectionRun { id: "p".to_string(), error: None },
                ProjectionRun { id: "q".to_string(), error: Some("down".to_string()) },
            ],
        )
        .unwrap();
    assert_eq!(commit.event_id, 5);
    assert_eq!(commit.correlation_id, 3);
    assert_eq!(commit.event_type, "order:placed");
    assert_eq!(commit.checkpoint, LogCursor::from_raw(12));
    assert_eq!(commit.intents.len(), 2);
    let first = &commit.intents[0];
    assert_eq!(first.reactor_id, "a");
    assert_eq!(first.parent_event_id, Some(4));
    assert_eq!(first.execute_at, NOW);
    assert_eq!(first.timeout_seconds, 900);
    assert_eq!(first.max_attempts, 3);
    assert_eq!(first.priority, 10);
    assert_eq!(first.hops, 2);
    let second = &commit.intents[1];
    assert_eq!(second.execute_at, Timestamp { secs: 103, nanos: 200_000_001 });
    assert_eq!(second.timeout_seconds, 30);
    assert_eq!(second.priority, 1);
    assert_eq!(commit.projection_failures.len(), 1);
    let failure = &commit.projection_failures[0];
    assert_eq!(failure.reactor_id, "q");
    assert_eq!(failure.error, "down");
    assert_eq!(failure.reason, "projection_failed");
    assert_eq!(failure.attempts, 1);
}

#[test]
fn a_replayed_event_skips_its_projections() {
    let executor = JobExecutor::new(vec![reactor("a")], false);
    let commit = executor
        .process_event_inner(
            &event(Vec::new()),
            &vec![Some(NOW)],
            Vec::new(),
            vec![ProjectionRun { id: "q".to_string(), error: Some("down".to_string()) }],
            true,
        )
        .unwrap();
    assert!(commit.projection_failures.is_empty());
    assert_eq!(commit.intents[0].hops, 0);
}

#[test]
fn a_delay_out_of_range_is_refused() {
    let mut endless = reactor("a");
    endless.delay = Some(Delay { secs: u64::MAX, nanos: 0 });
    let executor = JobExecutor::new(vec![endless], false);
    let err = executor
        .process_event(&event(Vec::new()), &vec![Some(NOW)], Vec::new(), Vec::new())
        .unwrap_err();
    assert_eq!(err.to_text(), "invalid reactor delay");
}

#[test]
fn a_timeout_is_at_least_a_second() {
    let mut hasty = reactor("a");
    hasty.timeout = Some(Delay { secs: 0, nanos: 1 });
    let executor = JobExecutor::new(vec![hasty], false);
    let commit = executor
        .process_event(&event(Vec::new()), &vec![Some(NOW)], Vec::new(), Vec::new())
        .unwrap();
    assert_eq!(commit.intents[0].timeout_seconds, 1);
}

#[test]
fn a_body_that_returned_is_a_success() {
    let executor = JobExecutor::new(vec![reactor("a")], true);
    let step = executor.execute_reactor(
        &queued("a", 1, 3),
        BodyOutcome::Returned(vec![output("order:shipped")]),
        Vec::new(),
    );
    match step {
        AttemptStep::Done(result) => {
            assert!(matches!(result.status, ReactorStatus::Success));
            assert_eq!(result.emitted_events.len(), 1);
            assert_eq!(result.emitted_events[0].durable_name, "order:shipped");
            assert_eq!(result.emitted_events[0].reactor_id.as_deref(), Some("a"));
            assert!(matches!(result.result.get("status"), Some(Json::Str(s)) if s == "ok"));
        }
        AttemptStep::MapTerminal(_) => panic!("nothing failed"),
    }
}

#[test]
fn an_attempt_before_the_last_is_retried() {
    let executor = JobExecutor::new(vec![reactor("a")], true);
    match executor.execute_reactor(
        &queued("a", 2, 3),
        BodyOutcome::Failed(Error::msg("boom")),
        Vec::new(),
    ) {
        AttemptStep::Done(result) => match result.status {
            ReactorStatus::Retry { error, attempts } => {
                assert_eq!(error, "boom");
                assert_eq!(attempts, 2);
            }
            _ => panic!("the attempt is retried"),
        },
        AttemptStep::MapTerminal(_) => panic!("an attempt is left"),
    }
}

#[test]
fn the_last_attempt_goes_to_the_mapper() {
    let mut own = reactor("own");
    own.maps_terminal = true;
    let executor = JobExecutor::new(vec![reactor("a"), own], true);
    for (id, mapper) in [("a", TerminalMapper::Global), ("own", TerminalMapper::Reactor)] {
        match executor.execute_reactor(&queued(id, 3, 3), BodyOutcome::TimedOut, Vec::new()) {
            AttemptStep::MapTerminal(pending) => {
                assert_eq!(pending.mapper, mapper);
                assert_eq!(pending.info.reactor_id, id);
                assert_eq!(pending.info.source_event_id, 5);
                assert_eq!(pending.info.source_event_type, "order:placed");
                assert_eq!(pending.info.reason, "timeout");
                assert_eq!(pending.info.error, "Reactor execution timed out");
                assert_eq!(pending.info.attempts, 3);
                assert!(matches!(pending.status, ReactorStatus::Failed { attempts: 3, .. }));
                let mapped = EmittedEvent {
                    durable_name: "order:failed".to_string(),
                    event_prefix: "order".to_string(),
                    persistent: true,
                    payload: Json::Null,
                    reactor_id: None,
                };
                let result = build_dlq_terminal_event(pending, mapped);
                assert_eq!(result.emitted_events[0].reactor_id.as_deref(), Some(id));
            }
            AttemptStep::Done(_) => panic!("a mapper is there"),
        }
    }
}

#[test]
fn without_a_mapper_the_last_attempt_fails() {
    let executor = JobExecutor::new(vec![reactor("a")], false);
    match executor.execute_reactor(
        &queued("a", 3, 3),
        BodyOutcome::Failed(Error::msg("boom")),
        Vec::new(),
    ) {
        AttemptStep::Done(result) => {
            assert!(matches!(result.status, ReactorStatus::Failed { attempts: 3, .. }));
            assert!(result.emitted_events.is_empty());
        }
        AttemptStep::MapTerminal(_) => panic!("no mapper is there"),
    }
}

#[test]
fn an_unknown_reactor_is_a_failure_that_names_it() {
    let executor = JobExecutor::new(vec![reactor("a")], true);
    assert!(executor.find_by_id("a").is_some());
    assert!(executor.find_by_id("b").is_none());
    assert_eq!(executor.reactor_registry().len(), 1);
    match executor.execute_reactor(
        &queued("b", 1, 1),
        BodyOutcome::Returned(Vec::new()),
        Vec::new(),
    ) {
        AttemptStep::Done(result) => match result.status {
            ReactorStatus::Failed { error, .. } => {
                assert_eq!(error, "No reactor registered for id 'b'");
            }
            _ => panic!("it cannot succeed"),
        },
        AttemptStep::MapTerminal(_) => panic!("there is nothing to map"),
    }
}

#[test]
fn contexts_carry_the_event_and_a_stable_key() {
    let ns = 0x1111;
    let expected = Uuid::new_v5(
        &Uuid::from_u128(ns),
        format!("{}-{}", Uuid::from_u128(5), "a").as_bytes(),
    );
    assert_eq!(idempotency_key(ns, 5, "a"), expected.to_string());
    let run = execution_context(ns, &queued("a", 1, 3));
    assert_eq!(run.idempotency_key, expected.to_string());
    assert_eq!(run.correlation_id, 3);
    assert_eq!(run.parent_event_id, Some(4));
    let projection = projection_context(ns, "a", &event(Vec::new()));
    assert_eq!(projection.idempotency_key, expected.to_string());
    assert_eq!(projection.event_id, 5);
    let described = describe_context("a", &event(Vec::new()));
    assert_eq!(described.reactor_id, "a");
    assert_eq!(described.event_id, 5);
    assert_eq!(startup_context("a").reactor_id, "a");
    assert_eq!(
        startup_error("a", &Error::msg("down")).to_text(),
        "startup reactor 'a' failed: down"
    );
}

#[test]
fn a_value_in_process_is_decoded_only_where_it_must_be() {
    assert_eq!(decode_event(Some(1), true, Some(1)), DecodePath::InProcess);
    assert_eq!(decode_event(Some(1), false, Some(1)), DecodePath::Codec);
    assert_eq!(decode_event(Some(2), true, Some(1)), DecodePath::Codec);
    assert_eq!(decode_event(None, true, Some(1)), DecodePath::Codec);
    assert_eq!(decode_event(Some(1), true, None), DecodePath::Raw);
}

#[test]
fn timeouts_fall_back_to_the_default() {
    let fallback = Delay { secs: 60, nanos: 5 };
    assert_eq!(timeout_for(&queued("a", 1, 1), fallback), fallback);
    let mut own = queued("a", 1, 1);
    own.timeout_seconds = 7;
    assert_eq!(timeout_for(&own, fallback), Delay { secs: 7, nanos: 0 });
    assert_eq!(serialize_emitted_events(&Vec::new(), &own).len(), 0);
}
