// The ghost methods of the traits are never run.
use causal::aggregate_v3::Aggregate;
use causal::aggregator::{BySubject, TypedFold};
use causal::clock::{Clock, FixedClock, SystemClock};
use causal::codec::Codec;
use causal::engine_v3::{
    append_fact, claim_group_name, execute_emit, is_quiet, load, snapshot, stamp_event,
    EmitBuilder, EmitInput, EmitResult, VersionedEvent,
};
use causal::event_log::AppendRequest;
use causal::fact::Fact;
use causal::json::{set_member, Json, JsonView, Number};
use causal::registry::AggregatorRegistry;
use causal::text::Chars;
use causal::types::{LogCursor, Metadata, StreamState, Timestamp};
use uuid::Uuid;

fn now() -> Timestamp {
    SystemClock.now()
}

fn fresh() -> u128 {
    Uuid::new_v4().as_u128()
}

fn num(n: i64) -> Json {
    if n >= 0 {
        Json::Number(Number::PosInt(n as u64))
    } else {
        Json::Number(Number::NegInt(n))
    }
}

fn text(s: &str) -> Json {
    Json::Str(s.to_string())
}

struct UserCreated {
    user_id: u128,
    occurred_at: Timestamp,
}

impl Codec for UserCreated {
    fn decoded(_: JsonView) -> Option<Self> {
        unreachable!()
    }
    fn encoded(&self) -> Option<JsonView> {
        unreachable!()
    }
    fn decode(_: &Json) -> Result<Self, String> {
        Err("not read back here".to_string())
    }
    fn encode(&self) -> Result<Json, String> {
        Ok(text(&Uuid::from_u128(self.user_id).to_string()))
    }
}

impl Fact for UserCreated {
    const CATEGORY: &'static str = "user";
    fn name_of(&self) -> Chars {
        unreachable!()
    }
    fn stream_of(&self) -> u128 {
        unreachable!()
    }
    fn occurred_of(&self) -> Option<Timestamp> {
        unreachable!()
    }
    fn name(&self) -> &str {
        "user_created"
    }
    fn stream_id(&self) -> u128 {
        self.user_id
    }
    fn occurred_at(&self) -> Option<Timestamp> {
        Some(self.occurred_at)
    }
}

enum CounterFact {
    Inc { by: i64, occurred_at: Timestamp, counter_id: u128 },
    Reset { occurred_at: Timestamp, counter_id: u128 },
}

impl Codec for CounterFact {
    fn decoded(_: JsonView) -> Option<Self> {
        unreachable!()
    }
    fn encoded(&self) -> Option<JsonView> {
        unreachable!()
    }
    fn decode(value: &Json) -> Result<Self, String> {
        let zero = Timestamp { secs: 0, nanos: 0 };
        match value {
            Json::Number(Number::PosInt(n)) => {
                Ok(CounterFact::Inc { by: *n as i64, occurred_at: zero, counter_id: 0 })
            }
            Json::Null => Ok(CounterFact::Reset { occurred_at: zero, counter_id: 0 }),
            _ => Err("not a counter fact".to_string()),
        }
    }
    fn encode(&self) -> Result<Json, String> {
        match self {
            CounterFact::Inc { by, .. } => Ok(num(*by)),
            CounterFact::Reset { .. } => Ok(Json::Null),
        }
    }
}

impl Fact for CounterFact {
    const CATEGORY: &'static str = "counter";
    fn name_of(&self) -> Chars {
        unreachable!()
    }
    fn stream_of(&self) -> u128 {
        unreachable!()
    }
    fn occurred_of(&self) -> Option<Timestamp> {
        unreachable!()
    }
    fn name(&self) -> &str {
        match self {
            CounterFact::Inc { .. } => "inc",
            CounterFact::Reset { .. } => "reset",
        }
    }
    fn stream_id(&self) -> u128 {
        match self {
            CounterFact::Inc { counter_id, .. } => *counter_id,
            CounterFact::Reset { counter_id, .. } => *counter_id,
        }
    }
    fn occurred_at(&self) -> Option<Timestamp> {
        Some(match self {
            CounterFact::Inc { occurred_at, .. } => *occurred_at,
            CounterFact::Reset { occurred_at, .. } => *occurred_at,
        })
    }
}

#[derive(Clone, Debug, PartialEq)]
struct Counter {
    value: i64,
}

impl Aggregate for Counter {
    type Fact = CounterFact;
    const CATEGORY: &'static str = "counter";
    fn initial() -> Self {
        unreachable!()
    }
    fn applied(&self, _: CounterFact) -> Self {
        unreachable!()
    }
    fn initial_state() -> Self {
        Counter { value: 0 }
    }
    fn apply(&mut self, fact: &CounterFact) {
        match fact {
            CounterFact::Inc { by, .. } => self.value += by,
            CounterFact::Reset { .. } => self.value = 0,
        }
    }
}

/// What landed in the log, in order.
#[derive(Default)]
struct Log {
    landed: Vec<AppendRequest>,
}

impl Log {
    fn emit(&mut self, b: EmitBuilder, defaults: &Metadata) -> EmitResult {
        let envelope = execute_emit(&b, defaults);
        for fact in &b.input.facts {
            let request = append_fact(
                fact,
                envelope.correlation_id,
                b.parent_id,
                &envelope.metadata,
                stamp_event(&SystemClock),
            )
            .unwrap();
            assert_eq!(request.expected, StreamState::Any);
            self.landed.push(request);
        }
        EmitResult {
            position: LogCursor::from_raw(self.landed.len() as u64),
            correlation_id: envelope.correlation_id,
        }
    }

    fn stream(&self, category: &str, id: u128) -> Vec<VersionedEvent> {
        self.landed
            .iter()
            .filter(|r| r.category == category && r.subject_id == id)
            .enumerate()
            .map(|(i, r)| VersionedEvent {
                payload: r.events[0].payload.copy(),
                version: Some(i as u64 + 1),
            })
            .collect()
    }
}

fn one<F: Fact>(fact: F) -> EmitBuilder {
    EmitBuilder::new(EmitInput::many(&vec![fact]))
}

fn user() -> UserCreated {
    UserCreated { user_id: fresh(), occurred_at: now() }
}

fn inc(by: i64, counter_id: u128) -> CounterFact {
    CounterFact::Inc { by, occurred_at: now(), counter_id }
}

fn member<'a>(metadata: &'a Metadata, key: &str) -> Option<&'a Json> {
    metadata.iter().find(|(k, _)| k == key).map(|(_, v)| v)
}

fn is_text(value: Option<&Json>, expected: &str) -> bool {
    matches!(value, Some(Json::Str(s)) if s == expected)
}

#[test]
fn engine_v3_emit_to_unregistered_stream_succeeds_by_default() {
    let mut log = Log::default();
    log.emit(one(user()), &Vec::new());
    assert_eq!(log.landed.len(), 1);
    assert_eq!(log.landed[0].category, "user");
}

#[test]
fn engine_v3_load_returns_default_for_unknown_aggregate() {
    let log = Log::default();
    let (agg, ver): (Counter, u64) = load(&log.stream("counter", fresh())).unwrap();
    assert_eq!(agg, Counter { value: 0 });
    assert_eq!(ver, 0);
}

#[test]
fn engine_v3_emit_batch_round_trips_through_aggregator_fold() {
    let mut log = Log::default();
    let id = fresh();
    log.emit(EmitBuilder::new(EmitInput::many(&vec![inc(3, id), inc(5, id)])), &Vec::new());
    let (agg, ver): (Counter, u64) = load(&log.stream("counter", id)).unwrap();
    assert_eq!(agg.value, 8);
    assert_eq!(ver, 2);
}

#[test]
fn a_load_folds_resets_and_refuses_what_it_cannot_read() {
    let mut log = Log::default();
    let id = fresh();
    log.emit(one(inc(3, id)), &Vec::new());
    log.emit(one(CounterFact::Reset { occurred_at: now(), counter_id: id }), &Vec::new());
    log.emit(one(inc(4, id)), &Vec::new());
    let mut events = log.stream("counter", id);
    let (agg, _): (Counter, u64) = load(&events).unwrap();
    assert_eq!(agg.value, 4);
    events.push(VersionedEvent { payload: text("odd"), version: None });
    let refused: Result<(Counter, u64), _> = load(&events);
    assert!(refused.is_err());
}

#[test]
fn engine_v3_append_uses_facts_occurred_at_for_persisted_created_at() {
    let mut log = Log::default();
    let id = fresh();
    // 2026-01-01T00:00:00Z
    let pinned = Timestamp { secs: 1767225600, nanos: 0 };
    log.emit(
        one(CounterFact::Inc { by: 1, occurred_at: pinned, counter_id: id }),
        &Vec::new(),
    );
    assert_eq!(log.landed.len(), 1);
    assert_eq!(log.landed[0].events[0].created_at, pinned);
    assert_eq!(log.landed[0].events[0].event_type, "counter:inc");
    assert_eq!(log.landed[0].subject_id, id);
}

#[test]
fn emit_with_correlation_id_stamps_envelope() {
    let mut log = Log::default();
    let cmd_correlation = fresh();
    log.emit(one(user()).correlation_id(cmd_correlation), &Vec::new());
    assert_eq!(log.landed.len(), 1);
    assert_eq!(
        log.landed[0].events[0].workflow_id, cmd_correlation,
        "persisted correlation_id MUST match caller-supplied id"
    );
}

#[test]
fn engine_v3_emit_with_parent_and_metadata_stamps_envelope() {
    let mut log = Log::default();
    let parent = fresh();
    log.emit(
        one(user())
            .parent_id(parent)
            .metadata("_run_id", text("run-abc"))
            .metadata("_schema_v", num(2)),
        &Vec::new(),
    );
    let event = &log.landed[0].events[0];
    assert_eq!(event.causation_id, Some(parent));
    assert!(is_text(member(&event.metadata, "_run_id"), "run-abc"));
    assert!(matches!(
        member(&event.metadata, "_schema_v"),
        Some(Json::Number(Number::PosInt(2)))
    ));
}

#[test]
fn emit_batch_propagates_correlation_id_to_every_fact() {
    let mut log = Log::default();
    let id = fresh();
    let cmd_correlation = fresh();
    log.emit(
        EmitBuilder::new(EmitInput::many(&vec![inc(1, id), inc(2, id)]))
            .correlation_id(cmd_correlation),
        &Vec::new(),
    );
    assert_eq!(log.landed.len(), 2);
    for request in &log.landed {
        assert_eq!(
            request.events[0].workflow_id, cmd_correlation,
            "every fact in the batch carries the caller's correlation_id"
        );
    }
}

#[test]
#[should_panic(expected = "duplicate GROUP_NAME `users`")]
fn registering_two_consumers_with_same_group_name_panics() {
    let mut names = Vec::new();
    claim_group_name(&mut names, "users").unwrap();
    if let Err(text) = claim_group_name(&mut names, "users") {
        panic!("{}", text);
    }
}

#[test]
fn engine_snapshot_returns_none_without_aggregators() {
    // No aggregators registered → snapshot returns None.
    let none: Option<&AggregatorRegistry<TypedFold<Tally, Bump, BySubject>>> = None;
    assert!(snapshot(none, "TickCounter", 0).is_none());
}

#[test]
fn emit_result_carries_correlation_id() {
    let mut log = Log::default();
    // Auto-generated correlation when not provided.
    let r1 = log.emit(one(user()), &Vec::new());
    assert_ne!(r1.correlation_id, 0, "emit auto-generates correlation_id when not set");
    // Two emits without explicit correlation must produce distinct ones.
    let r2 = log.emit(one(user()), &Vec::new());
    assert_ne!(r1.correlation_id, r2.correlation_id);
    // Explicit correlation: result echoes what the caller set.
    let corr = fresh();
    let r3 = log.emit(one(user()).correlation_id(corr), &Vec::new());
    assert_eq!(r3.correlation_id, corr);
}

#[test]
fn engine_v3_emit_with_empty_batch_is_a_no_op() {
    let mut log = Log::default();
    let result =
        log.emit(EmitBuilder::new(EmitInput::many(&Vec::<UserCreated>::new())), &Vec::new());
    assert_eq!(result.position, LogCursor::zero());
    // Empty emit still produces a fresh correlation_id.
    assert_ne!(result.correlation_id, 0);
    assert!(log.landed.is_empty());
}

#[test]
fn engine_v3_engine_default_metadata_merges_under_per_emit_metadata() {
    let mut defaults: Metadata = Vec::new();
    set_member(&mut defaults, "_run_id", text("run-default"));
    set_member(&mut defaults, "_actor", text("service-a"));
    let mut log = Log::default();
    log.emit(
        one(user()).metadata("_run_id", text("run-override")).metadata("_trace", text("abc123")),
        &defaults,
    );
    let m = &log.landed[0].events[0].metadata;
    assert!(is_text(member(m, "_run_id"), "run-override"), "per-emit overrides engine default");
    assert!(is_text(member(m, "_actor"), "service-a"));
    assert!(is_text(member(m, "_trace"), "abc123"), "per-emit-only keys merge in");
}

#[test]
fn a_stamp_holds_the_clocks_time_and_a_new_id() {
    let at = Timestamp { secs: 3, nanos: 4 };
    let a = stamp_event(&FixedClock(at));
    let b = stamp_event(&FixedClock(at));
    assert_eq!(a.now, at);
    assert_ne!(a.event_id, b.event_id);
}

#[test]
fn the_log_is_quiet_once_it_has_stopped_moving() {
    let (a, b) = (LogCursor::from_raw(1), LogCursor::from_raw(2));
    assert!(is_quiet(a, true, a));
    assert!(!is_quiet(a, true, b));
    assert!(!is_quiet(a, false, a));
}

struct Bump;

#[derive(Clone)]
struct Tally;

impl Codec for Bump {
    fn decoded(_: JsonView) -> Option<Self> {
        unreachable!()
    }
    fn encoded(&self) -> Option<JsonView> {
        unreachable!()
    }
    fn decode(_: &Json) -> Result<Self, String> {
        Ok(Bump)
    }
    fn encode(&self) -> Result<Json, String> {
        Ok(Json::Null)
    }
}

impl Codec for Tally {
    fn decoded(_: JsonView) -> Option<Self> {
        unreachable!()
    }
    fn encoded(&self) -> Option<JsonView> {
        unreachable!()
    }
    fn decode(_: &Json) -> Result<Self, String> {
        Ok(Tally)
    }
    fn encode(&self) -> Result<Json, String> {
        Ok(Json::Null)
    }
}

impl causal::event::Event for Bump {
    const CATEGORY: &'static str = "bump";
    fn event_type_of(&self) -> Chars {
        unreachable!()
    }
    fn subject_of(&self) -> u128 {
        unreachable!()
    }
    fn occurred_of(&self) -> Option<Timestamp> {
        unreachable!()
    }
    fn declared_of(&self) -> Option<u128> {
        unreachable!()
    }
    fn event_type(&self) -> &str {
        "bump"
    }
    fn subject_id(&self) -> u128 {
        0
    }
    fn occurred_at(&self) -> Option<Timestamp> {
        None
    }
    fn declared_workflow_id(&self) -> Option<u128> {
        None
    }
}

impl causal::aggregate::Aggregate for Tally {
    const NAME: &'static str = "Tally";
    fn initial() -> Self {
        unreachable!()
    }
    fn initial_state() -> Self {
        Tally
    }
    fn copy_state(&self) -> Self {
        Tally
    }
}

impl causal::aggregate::Apply<Bump> for Tally {
    fn applied(&self, _: Bump) -> Self {
        unreachable!()
    }
    fn apply(&mut self, _: &Bump) {}
}

#[test]
fn a_snapshot_is_kept_under_its_stream() {
    let mut reg: AggregatorRegistry<TypedFold<Tally, Bump, BySubject>> = AggregatorRegistry::new();
    reg.register(causal::aggregator::Aggregator::for_type());
    assert!(snapshot(Some(&reg), "Tally", 0).is_none());
    reg.apply_event(
        "bump",
        &Json::Null,
        0,
        "bump",
        causal::types::StreamRevision::zero(),
        LogCursor::from_raw(1),
    )
    .unwrap_or_else(|e| panic!("{}", e.to_text()));
    assert!(snapshot(Some(&reg), "Tally", 0).is_some());
    assert!(snapshot(Some(&reg), "Tally", 1).is_none());
}
