// The ghost methods of the traits are never run.
use causal::any_materializer::{
    ensure_hydrated, AnyMaterializer, AnyMaterializerRunner, Hydration, HYDRATION_BATCH,
};
use causal::checkpoint_store::{CheckpointStore, Cursors};
use causal::codec::Codec;
use causal::failure::Error;
use causal::fact::Fact;
use causal::json::{Json, JsonView};
use causal::materializer::{MaterializeContext, Materializer};
use causal::supervise::{
    drains_on_stop, panic_payload_message, supervise_one, supervise_relay, wait_millis,
    PanicPayload, StepOutcome, Stepped, SuperviseAction,
};
use causal::text::Chars;
use causal::types::{LogCursor, Metadata, RecordedEvent, StreamRevision, Timestamp};
use std::collections::HashSet;
use uuid::Uuid;

fn now() -> Timestamp {
    let t = chrono::Utc::now();
    Timestamp { secs: t.timestamp(), nanos: t.timestamp_subsec_nanos() }
}

#[derive(Default)]
struct Store {
    log: Vec<RecordedEvent>,
    cursors: Vec<(String, LogCursor)>,
}

impl CheckpointStore for Store {
    fn cursors(&self) -> Cursors {
        unreachable!()
    }
    fn get(&self, consumer_id: &str) -> Result<Option<LogCursor>, Error> {
        Ok(self.cursors.iter().find(|(c, _)| c == consumer_id).map(|(_, p)| *p))
    }
    fn set(&mut self, consumer_id: &str, pos: LogCursor) -> Result<(), Error> {
        self.cursors.retain(|(c, _)| c != consumer_id);
        self.cursors.push((consumer_id.to_string(), pos));
        Ok(())
    }
}

impl Store {
    fn append(&mut self, event_type: &str) -> u128 {
        let event_id = Uuid::new_v4().as_u128();
        let position = self.log.len() as u64 + 1;
        self.log.push(RecordedEvent {
            position: LogCursor::from_raw(position),
            revision: StreamRevision::zero(),
            event_id,
            causation_id: None,
            workflow_id: Uuid::new_v4().as_u128(),
            event_type: event_type.to_string(),
            payload: Json::Object(vec![(
                "event_type".to_string(),
                Json::Str(event_type.to_string()),
            )]),
            created_at: now(),
            category: event_type.to_string(),
            subject_id: event_id,
            metadata: Vec::new(),
        });
        event_id
    }

    fn load_from(&self, after: LogCursor, limit: usize) -> Vec<RecordedEvent> {
        self.log
            .iter()
            .filter(|e| e.position.raw() > after.raw())
            .take(limit)
            .map(|e| RecordedEvent {
                position: e.position,
                revision: e.revision,
                event_id: e.event_id,
                causation_id: e.causation_id,
                workflow_id: e.workflow_id,
                event_type: e.event_type.clone(),
                payload: e.payload.copy(),
                created_at: e.created_at,
                category: e.category.clone(),
                subject_id: e.subject_id,
                metadata: Vec::new(),
            })
            .collect()
    }
}

/// Passes the fence, reads the log behind the cursor, and steps.
fn step<M: AnyMaterializer>(
    runner: &mut AnyMaterializerRunner<M>,
    store: &mut Store,
    limit: usize,
) -> StepOutcome {
    match runner.fence(store).unwrap() {
        Ok(cursor) => {
            let batch = store.load_from(cursor, limit);
            runner.step(store, &batch).unwrap()
        }
        Err(wait) => wait,
    }
}

/// Test materializer that records every event_id + event_type it sees.
#[derive(Default)]
struct AuditTrail {
    seen: Vec<(u128, String)>,
}

impl AnyMaterializer for AuditTrail {
    fn takes(&self, _: RecordedEvent, _: Result<(), Error>, _: Self) -> bool {
        unreachable!()
    }

    fn materialize(&mut self, event: &RecordedEvent) -> Result<(), Error> {
        self.seen.push((event.event_id, event.event_type.clone()));
        Ok(())
    }
}

#[test]
fn any_materializer_sees_all_event_types() {
    let mut store = Store::default();
    let id_a = store.append("scheduling.schedule_created");
    let id_b = store.append("scrape.web_scrape_completed");
    let id_c = store.append("system.signal_tagged");

    let mut runner = AnyMaterializerRunner::new(AuditTrail::default(), "audit", Vec::new());
    let outcome = step(&mut runner, &mut store, 10);
    assert!(matches!(outcome, StepOutcome::Progressed { applied: 3 }));

    let seen = &runner.materializer.seen;
    assert_eq!(seen.len(), 3);
    assert_eq!(seen[0].0, id_a);
    assert_eq!(seen[0].1, "scheduling.schedule_created");
    assert_eq!(seen[1].0, id_b);
    assert_eq!(seen[2].0, id_c);
}

#[test]
fn any_materializer_advances_cursor_per_event() {
    let mut store = Store::default();
    for _ in 0..5 {
        store.append("any.event");
    }

    let mut runner = AnyMaterializerRunner::new(AuditTrail::default(), "audit", Vec::new());
    step(&mut runner, &mut store, 10);

    let cursor = store.get("audit").unwrap().unwrap();
    let last = store.load_from(LogCursor::zero(), 10).last().map(|e| e.position).unwrap();
    assert_eq!(cursor, last);
}

#[test]
fn any_materializer_dep_fence_holds() {
    let mut store = Store::default();
    for _ in 0..2 {
        store.append("any.event");
    }
    // Move downstream forward; upstream stays at zero.
    let last_pos = store.load_from(LogCursor::zero(), 10)[0].position;
    store.set("downstream", last_pos).unwrap();

    let mut runner = AnyMaterializerRunner::new(
        AuditTrail::default(),
        "downstream",
        vec!["upstream".to_string()],
    );
    let outcome = step(&mut runner, &mut store, 10);
    assert!(matches!(outcome, StepOutcome::WaitOnDep { ref dep, .. } if dep == "upstream"));
    assert!(runner.materializer.seen.is_empty());
}

#[test]
fn any_materializer_idle_when_caught_up() {
    let mut store = Store::default();
    let mut runner = AnyMaterializerRunner::new(AuditTrail::default(), "audit", Vec::new());
    let outcome = step(&mut runner, &mut store, 10);
    assert!(matches!(outcome, StepOutcome::Idle));
    assert_eq!(runner.consumer_id(), "audit");
}

/// Fails at the second event.
struct Stumbles(usize);

impl AnyMaterializer for Stumbles {
    fn takes(&self, _: RecordedEvent, _: Result<(), Error>, _: Self) -> bool {
        unreachable!()
    }

    fn materialize(&mut self, _event: &RecordedEvent) -> Result<(), Error> {
        self.0 += 1;
        if self.0 == 2 {
            Err(Error::msg("stuck"))
        } else {
            Ok(())
        }
    }
}

#[test]
fn a_failing_materializer_keeps_the_cursor_behind_its_event() {
    let mut store = Store::default();
    for _ in 0..3 {
        store.append("any.event");
    }
    let mut runner = AnyMaterializerRunner::new(Stumbles(0), "audit", Vec::new());
    let batch = store.load_from(LogCursor::zero(), 10);
    assert_eq!(runner.step(&mut store, &batch).unwrap_err().to_text(), "stuck");
    assert_eq!(store.get("audit").unwrap(), Some(LogCursor::from_raw(1)));
}

#[test]
fn a_dependency_ahead_lets_the_step_run() {
    let mut store = Store::default();
    store.append("any.event");
    store.set("upstream", LogCursor::from_raw(1)).unwrap();
    let mut runner = AnyMaterializerRunner::new(
        AuditTrail::default(),
        "downstream",
        vec!["upstream".to_string()],
    );
    assert!(matches!(
        step(&mut runner, &mut store, 10),
        StepOutcome::Progressed { applied: 1 }
    ));
}

#[test]
fn hydration_folds_up_to_the_cursor() {
    let mut store = Store::default();
    for _ in 0..3 {
        store.append("any.event");
    }
    let batch = store.load_from(LogCursor::zero(), HYDRATION_BATCH);
    // The first event behind the cursor ends it.
    assert_eq!(
        ensure_hydrated(LogCursor::from_raw(2), &batch),
        Hydration { fold: 2, read_from: None }
    );
    // A batch that ends at the cursor is the last one.
    assert_eq!(
        ensure_hydrated(LogCursor::from_raw(3), &batch),
        Hydration { fold: 3, read_from: None }
    );
    // One that ends before it is followed by another.
    assert_eq!(
        ensure_hydrated(LogCursor::from_raw(9), &batch),
        Hydration { fold: 3, read_from: Some(LogCursor::from_raw(3)) }
    );
    assert_eq!(
        ensure_hydrated(LogCursor::from_raw(9), &Vec::new()),
        Hydration { fold: 0, read_from: None }
    );
}

#[test]
fn supervision_polls_when_idle_and_backs_off_on_failure() {
    assert_eq!(
        supervise_one(&Stepped::Outcome(StepOutcome::Progressed { applied: 1 })),
        SuperviseAction::Continue
    );
    assert_eq!(supervise_one(&Stepped::Outcome(StepOutcome::Idle)), SuperviseAction::Poll);
    assert_eq!(
        supervise_one(&Stepped::Outcome(StepOutcome::WaitOnDep {
            dep: "up".to_string(),
            cursor: LogCursor::zero(),
            dep_cursor: LogCursor::zero(),
        })),
        SuperviseAction::Poll
    );
    assert_eq!(supervise_one(&Stepped::Failed), SuperviseAction::BackOff);
    assert_eq!(supervise_one(&Stepped::Panicked), SuperviseAction::BackOff);
    assert_eq!(wait_millis(SuperviseAction::Continue), 0);
    assert_eq!(wait_millis(SuperviseAction::Poll), 50);
    assert_eq!(wait_millis(SuperviseAction::BackOff), 250);
    assert_eq!(supervise_relay(Some(0)), SuperviseAction::Poll);
    assert_eq!(supervise_relay(Some(3)), SuperviseAction::Continue);
    assert_eq!(supervise_relay(None), SuperviseAction::BackOff);
    assert!(drains_on_stop(None));
    assert!(drains_on_stop(Some(SuperviseAction::Poll)));
    assert!(!drains_on_stop(Some(SuperviseAction::BackOff)));
}

#[test]
fn a_panic_is_told_by_its_text() {
    assert_eq!(panic_payload_message(&PanicPayload::Literal("boom")), "boom");
    assert_eq!(panic_payload_message(&PanicPayload::Text("bang".to_string())), "bang");
    assert_eq!(panic_payload_message(&PanicPayload::Other), "<non-string panic payload>");
}

#[derive(Debug, Clone)]
struct Recorded {
    id: u128,
    occurred_at: Timestamp,
}

impl Codec for Recorded {
    fn decoded(_: JsonView) -> Option<Self> {
        unreachable!()
    }
    fn encoded(&self) -> Option<JsonView> {
        unreachable!()
    }
    fn decode(_: &Json) -> Result<Self, String> {
        Err("not read back here".to_string())
    }
    fn encode(&self) -> Result<Json, String> {
        Ok(Json::Null)
    }
}

impl Fact for Recorded {
    const CATEGORY: &'static str = "records";
    fn name_of(&self) -> Chars {
        unreachable!()
    }
    fn stream_of(&self) -> u128 {
        unreachable!()
    }
    fn occurred_of(&self) -> Option<Timestamp> {
        unreachable!()
    }
    fn name(&self) -> &str {
        "recorded"
    }
    fn stream_id(&self) -> u128 {
        self.id
    }
    fn occurred_at(&self) -> Option<Timestamp> {
        Some(self.occurred_at)
    }
}

/// Mock materializer that counts apply calls. Idempotent on event_id —
/// a real materializer would use ON CONFLICT or MERGE-on-id.
#[derive(Default)]
struct CountingSink {
    seen: HashSet<u128>,
    calls: usize,
}

impl Materializer for CountingSink {
    const DEPENDS_ON: &'static [&'static str] = &[];
    type Fact = Recorded;

    fn materialize(&mut self, fact: &Recorded, ctx: &MaterializeContext<'_>) -> Result<(), Error> {
        self.calls += 1;
        // Idempotent: insert returns false if already present.
        self.seen.insert(ctx.event_id);
        assert_eq!(fact.occurred_at, ctx.occurred_at);
        Ok(())
    }
}

fn deliver(sink: &mut CountingSink, event_id: u128, occurred: Timestamp) {
    let meta: Metadata = Vec::new();
    sink.materialize(
        &Recorded { id: event_id, occurred_at: occurred },
        &MaterializeContext {
            event_id,
            log_position: LogCursor::zero(),
            occurred_at: occurred,
            correlation_id: 0,
            metadata: &meta,
        },
    )
    .unwrap();
}

#[test]
fn materialize_runs_for_a_fact() {
    let mut sink = CountingSink::default();
    let event_id = Uuid::new_v4().as_u128();
    deliver(&mut sink, event_id, now());
    assert_eq!(sink.calls, 1);
    assert!(sink.seen.contains(&event_id));
}

#[test]
fn materialize_redelivery_idempotent_on_event_id() {
    // Simulates the at-least-once redelivery contract: same event_id
    // delivered twice; the materializer absorbs the duplicate.
    let mut sink = CountingSink::default();
    let event_id = Uuid::new_v4().as_u128();
    let occurred = now();
    for _ in 0..2 {
        deliver(&mut sink, event_id, occurred);
    }
    // calls = 2 (runtime delivered twice) but seen has only one entry.
    assert_eq!(sink.calls, 2);
    assert_eq!(sink.seen.len(), 1);
}
