// The ghost methods of the traits are never run.
use causal::aggregate::{Aggregate, Apply};
use causal::aggregator::{Aggregator, BySubject, TypedFold};
use causal::codec::Codec;
use causal::contexts::{Ctx, Label, LogLevel, StateRead, StateSource, NS_DERIVED_ID};
use causal::effect_store::InMemoryEffectStore;
use causal::event::Event;
use causal::failure::{classify, Error, ErrorClass};
use causal::fold_on_read::{fold_bounded, FoldOnReadCache};
use causal::json::{set_member, Json, JsonView, Number};
use causal::registry::AggregatorRegistry;
use causal::text::Chars;
use causal::types::{LogCursor, Metadata, RecordedEvent, StreamRevision, Timestamp};
use std::cell::Cell;
use std::collections::HashSet;
use std::rc::Rc;
use uuid::Uuid;

fn now() -> Timestamp {
    let t = chrono::Utc::now();
    Timestamp { secs: t.timestamp(), nanos: t.timestamp_subsec_nanos() }
}

fn num(n: u64) -> Json {
    Json::Number(Number::PosInt(n))
}

fn text(s: &str) -> Json {
    Json::Str(s.to_string())
}

#[derive(Debug, Clone, PartialEq)]
struct Added(u64);

impl Codec for Added {
    fn decoded(_: JsonView) -> Option<Self> {
        unreachable!()
    }
    fn encoded(&self) -> Option<JsonView> {
        unreachable!()
    }
    fn decode(value: &Json) -> Result<Self, String> {
        match value {
            Json::Number(Number::PosInt(n)) => Ok(Added(*n)),
            _ => Err("not a number".to_string()),
        }
    }
    fn encode(&self) -> Result<Json, String> {
        Ok(num(self.0))
    }
}

impl Event for Added {
    const CATEGORY: &'static str = "added";
    fn event_type_of(&self) -> Chars {
        unreachable!()
    }
    fn subject_of(&self) -> u128 {
        unreachable!()
    }
    fn occurred_of(&self) -> Option<Timestamp> {
        unreachable!()
    }
    fn declared_of(&self) -> Option<u128> {
        unreachable!()
    }
    fn event_type(&self) -> &str {
        "added"
    }
    fn subject_id(&self) -> u128 {
        1
    }
    fn occurred_at(&self) -> Option<Timestamp> {
        None
    }
    fn declared_workflow_id(&self) -> Option<u128> {
        None
    }
}

impl Aggregate for Added {
    const NAME: &'static str = "Total";
    fn initial() -> Self {
        unreachable!()
    }
    fn initial_state() -> Self {
        Added(0)
    }
    fn copy_state(&self) -> Self {
        self.clone()
    }
}

impl Apply<Added> for Added {
    fn applied(&self, _: Added) -> Self {
        unreachable!()
    }
    fn apply(&mut self, fact: &Added) {
        self.0 += fact.0;
    }
}

type Fold = TypedFold<Added, Added, BySubject>;
type TestCtx<'a> = Ctx<'a, Fold, InMemoryEffectStore>;

struct Words(String);

impl Codec for Words {
    fn decoded(_: JsonView) -> Option<Self> {
        unreachable!()
    }
    fn encoded(&self) -> Option<JsonView> {
        unreachable!()
    }
    fn decode(value: &Json) -> Result<Self, String> {
        match value {
            Json::Str(s) => Ok(Words(s.clone())),
            _ => Err("not a text".to_string()),
        }
    }
    fn encode(&self) -> Result<Json, String> {
        Ok(Json::Str(self.0.clone()))
    }
}

fn test_ctx<'a>(meta: &'a Metadata, labels: Option<Vec<Label>>, occurred: Timestamp) -> TestCtx<'a> {
    Ctx {
        event_id: 0,
        log_position: LogCursor::zero(),
        occurred_at: occurred,
        workflow_id: 0,
        metadata: meta,
        consumer: "test.consumer",
        labels,
        state: StateSource::Unwired,
        logs: None,
        effect_store: None,
        cancelled_workflows: None,
        fence_consulted: None,
    }
}

fn claimed(ctx: &TestCtx<'_>, kind: &str, label: &str) -> bool {
    ctx.labels.as_ref().unwrap().iter().any(|l| l.kind == kind && l.label == label)
}

#[test]
fn ctx_time_returns_occurred_at_not_wall_clock() {
    // 2026-01-01T12:00:00Z
    let occurred = Timestamp { secs: 1767268800, nanos: 0 };
    let meta = Vec::new();
    let ctx = test_ctx(&meta, None, occurred);
    assert_eq!(ctx.time(), occurred);
}

#[test]
fn metadata_is_readable() {
    let mut meta: Metadata = Vec::new();
    set_member(&mut meta, "_phase", text("pre_migration"));
    set_member(&mut meta, "_schema_v", num(2));

    let ctx = test_ctx(&meta, None, now());
    let read = Json::Object(ctx.metadata.iter().map(|(k, v)| (k.clone(), v.copy())).collect());
    assert!(matches!(read.get("_phase"), Some(Json::Str(s)) if s == "pre_migration"));
    assert!(matches!(read.get("_schema_v"), Some(Json::Number(Number::PosInt(2)))));
}

#[test]
fn derive_id_is_deterministic_and_label_scoped() {
    let meta = Vec::new();
    let mut ctx_a = test_ctx(&meta, Some(Vec::new()), now());
    let mut ctx_b = test_ctx(&meta, Some(Vec::new()), now());

    // Same consumer + trigger + label ⇒ same id across invocations
    // (redelivery mints the same identity).
    let a = ctx_a.derive_id("group").unwrap();
    let b = ctx_b.derive_id("group").unwrap();
    assert_eq!(a, b, "redelivery derives the same identity");

    // Different labels mint different identities.
    let c = ctx_a.derive_id("other").unwrap();
    assert_ne!(a, c);
}

#[test]
fn duplicate_derive_id_label_is_a_domain_error() {
    let meta = Vec::new();
    let mut ctx = test_ctx(&meta, Some(Vec::new()), now());
    ctx.derive_id("group").unwrap();
    let err = ctx.derive_id("group").unwrap_err();
    assert_eq!(
        classify(&err),
        Some(ErrorClass::Domain),
        "duplicate label errors with domain class",
    );
    assert!(err.to_chain_text().contains("duplicate"), "the error teaches");
    // Same label under a DIFFERENT kind (effect) is not a duplicate.
    assert!(!claimed(&ctx, "effect", "group"), "effect:group should not yet be claimed");
    ctx.claim_effects(&vec!["group"]).unwrap();
}

#[test]
fn effect_all_runs_concurrently_and_returns_in_order() {
    let meta = Vec::new();
    let mut ctx = test_ctx(&meta, Some(Vec::new()), now());
    ctx.effect_store = Some(InMemoryEffectStore::new());

    let calls = Rc::new(Cell::new(0));
    let c1 = calls.clone();
    let c2 = calls.clone();
    let effects: Vec<(&str, Box<dyn FnOnce() -> Result<Words, Error>>)> = vec![
        (
            "first",
            Box::new(move || {
                c1.set(c1.get() + 1);
                Ok(Words("hello".to_string()))
            }),
        ),
        (
            "second",
            Box::new(move || {
                c2.set(c2.get() + 1);
                Ok(Words("world".to_string()))
            }),
        ),
    ];
    let results = ctx.effect_all(effects).unwrap();

    assert_eq!(results[0].0, "hello");
    assert_eq!(results[1].0, "world");
    assert_eq!(calls.get(), 2, "both effects ran");
    assert!(claimed(&ctx, "effect", "first"), "first label claimed");
    assert!(claimed(&ctx, "effect", "second"), "second label claimed");
}

#[test]
fn effect_all_duplicate_label_errors_before_any_io() {
    let meta = Vec::new();
    let mut ctx = test_ctx(&meta, Some(Vec::new()), now());
    ctx.effect_store = Some(InMemoryEffectStore::new());

    // Pre-claim "fetch" so effect_all sees a duplicate.
    ctx.effect("fetch", || Ok(Words("cached".to_string()))).unwrap();

    let calls = Rc::new(Cell::new(0));
    let c = calls.clone();
    let effects: Vec<(&str, Box<dyn FnOnce() -> Result<Words, Error>>)> = vec![
        (
            "fetch",
            Box::new(move || {
                c.set(c.get() + 1);
                Ok(Words("should not run".to_string()))
            }),
        ),
        ("other", Box::new(|| Ok(Words("fine".to_string())))),
    ];
    let err = match ctx.effect_all(effects) {
        Ok(_) => panic!("a duplicate label is refused"),
        Err(e) => e,
    };

    assert_eq!(calls.get(), 0, "compute never ran — error before I/O");
    assert!(err.to_chain_text().contains("duplicate"), "error message is instructive");
}

#[test]
fn derived_ids_are_the_named_ids_of_consumer_trigger_and_label() {
    let meta = Vec::new();
    let mut ctx = test_ctx(&meta, None, now());
    ctx.event_id = 0x1234;
    let mut name: Vec<u8> = b"test.consumer".to_vec();
    name.push(0);
    name.extend_from_slice(Uuid::from_u128(0x1234).as_bytes());
    name.push(0);
    name.extend_from_slice(b"group");
    let expected = Uuid::new_v5(&Uuid::from_u128(NS_DERIVED_ID), &name).as_u128();
    assert_eq!(ctx.derive_id("group").unwrap(), expected);
    assert_eq!(ctx.derive_id("group").unwrap(), expected, "nothing is claimed without labels");
}

#[test]
fn effect_store_dedups_side_effect_across_retry() {
    let meta = Vec::new();
    let mut ctx = test_ctx(&meta, Some(Vec::new()), now());
    ctx.effect_store = Some(InMemoryEffectStore::new());
    let external_calls = Cell::new(0);
    let mut attempts = 0;
    // The first attempt fails after the cached call; the retry starts with no
    // label claimed and must NOT re-run the external call.
    loop {
        ctx.labels = Some(Vec::new());
        let value: Added = ctx
            .effect("external_call", || {
                external_calls.set(external_calls.get() + 1);
                Ok(Added(42))
            })
            .unwrap();
        assert_eq!(value, Added(42));
        attempts += 1;
        if attempts >= 2 {
            break;
        }
    }
    assert_eq!(
        external_calls.get(),
        1,
        "external call ran once despite the retry — the store deduped it",
    );
}

#[test]
fn effects_that_ran_are_not_run_again_when_others_fail() {
    let meta = Vec::new();
    let mut ctx = test_ctx(&meta, Some(Vec::new()), now());
    ctx.effect_store = Some(InMemoryEffectStore::new());
    let runs = Rc::new(Cell::new((0, 0)));
    for attempt in 0..3 {
        ctx.labels = Some(Vec::new());
        let (a, b) = (runs.clone(), runs.clone());
        let effects: Vec<(&str, Box<dyn FnOnce() -> Result<Added, Error>>)> = vec![
            (
                "first",
                Box::new(move || {
                    a.set((a.get().0 + 1, a.get().1));
                    Ok(Added(1))
                }),
            ),
            (
                "second",
                Box::new(move || {
                    b.set((b.get().0, b.get().1 + 1));
                    if attempt == 0 {
                        Err(Error::msg("down"))
                    } else {
                        Ok(Added(2))
                    }
                }),
            ),
        ];
        match ctx.effect_all(effects) {
            Ok(values) => {
                assert!(attempt > 0);
                assert_eq!(values, vec![Added(1), Added(2)]);
            }
            Err(e) => {
                assert_eq!(attempt, 0);
                assert_eq!(e.to_text(), "down");
            }
        }
    }
    // The first ran once; the second again after its failure, then no more.
    assert_eq!(runs.get(), (1, 2));

    // One that fails leaves nothing behind for its own retry to find.
    ctx.labels = Some(Vec::new());
    let failed: Result<Added, Error> = ctx.effect("third", || Err(Error::msg("down")));
    assert_eq!(failed.unwrap_err().to_text(), "down");
    ctx.labels = Some(Vec::new());
    assert_eq!(ctx.effect("third", || Ok(Added(3))).unwrap(), Added(3));
}

#[test]
fn labels_before_a_duplicate_stay_claimed() {
    let meta = Vec::new();
    let mut ctx = test_ctx(&meta, Some(Vec::new()), now());
    ctx.effect_store = Some(InMemoryEffectStore::new());
    let effects: Vec<(&str, Box<dyn FnOnce() -> Result<Added, Error>>)> = vec![
        ("one", Box::new(|| Ok(Added(1)))),
        ("one", Box::new(|| Ok(Added(2)))),
        ("two", Box::new(|| Ok(Added(3)))),
    ];
    assert!(ctx.effect_all(effects).is_err());
    assert!(claimed(&ctx, "effect", "one"));
    assert!(!claimed(&ctx, "effect", "two"));
}

#[test]
fn entries_are_logged_where_there_is_a_sink() {
    let meta = Vec::new();
    let occurred = Timestamp { secs: 5, nanos: 6 };
    let mut ctx = test_ctx(&meta, None, occurred);
    ctx.log(LogLevel::Info, "dropped without a sink");
    assert!(ctx.logs.is_none());
    ctx.logs = Some(Vec::new());
    ctx.log(LogLevel::Info, "plain");
    ctx.log_with_data(LogLevel::Info, "with data", Some(num(3)));
    let logs = ctx.logs.as_ref().unwrap();
    assert_eq!(logs.len(), 2);
    assert_eq!(logs[0].message, "plain");
    assert!(logs[0].data.is_none());
    assert_eq!(logs[1].level, LogLevel::Info);
    assert!(logs[1].data.as_ref().unwrap().equals(&num(3)));
}

#[test]
fn the_fence_is_consulted_and_answers_for_the_workflow() {
    let meta = Vec::new();
    let fence: HashSet<u128> = [7].into_iter().collect();
    let mut ctx = test_ctx(&meta, None, now());
    assert!(!ctx.is_workflow_cancelled(), "no fence, nothing cancelled");
    ctx.cancelled_workflows = Some(&fence);
    ctx.fence_consulted = Some(false);
    assert!(!ctx.is_workflow_cancelled());
    assert_eq!(ctx.fence_consulted, Some(true));
    ctx.workflow_id = 7;
    assert!(ctx.is_workflow_cancelled());
}

fn added(n: u64, revision: u64, position: u64) -> RecordedEvent {
    RecordedEvent {
        position: LogCursor::from_raw(position),
        revision: StreamRevision::from_raw(revision),
        event_id: position as u128,
        causation_id: None,
        workflow_id: 0,
        event_type: "added".to_string(),
        payload: num(n),
        created_at: now(),
        category: "added".to_string(),
        subject_id: 1,
        metadata: Vec::new(),
    }
}

fn registry() -> AggregatorRegistry<Fold> {
    let mut reg = AggregatorRegistry::new();
    reg.register(Aggregator::for_type());
    reg
}

#[test]
fn state_reads_the_live_registry() {
    let mut reg = registry();
    let payload = num(4);
    reg.apply_event(
        "added",
        &payload,
        1,
        "added",
        StreamRevision::zero(),
        LogCursor::from_raw(1),
    )
    .unwrap();
    let meta = Vec::new();
    let mut ctx = test_ctx(&meta, None, now());
    let mut cache = FoldOnReadCache::new();
    ctx.state = StateSource::Registry(&reg);
    match ctx.state_of("Total", 1, &mut cache).unwrap() {
        StateRead::Ready(state) => {
            assert_eq!(state.prev, Added(0));
            assert_eq!(state.curr, Added(4));
        }
        StateRead::Folding(_) => panic!("the registry answers at once"),
    }
}

#[test]
fn state_folded_on_read_stops_at_the_trigger() {
    let reg = registry();
    let meta = Vec::new();
    let mut ctx = test_ctx(&meta, None, now());
    ctx.state = StateSource::FoldOnRead { registry: &reg, bound: LogCursor::from_raw(20) };
    let mut cache = FoldOnReadCache::new();
    let fold = match ctx.state_of("Total", 1, &mut cache).unwrap() {
        StateRead::Folding(fold) => fold,
        StateRead::Ready(_) => panic!("the stream has to be read"),
    };
    assert_eq!(fold.stream_count(), 1);
    assert_eq!(fold.stream(0), "added");
    assert_eq!(fold.read_after(0), None);
    let batches = vec![vec![added(1, 0, 10), added(2, 1, 20), added(4, 2, 30)]];
    let (prev, curr) = fold_bounded(&reg, fold, &batches, &mut cache).unwrap();
    assert_eq!(prev, Added(1), "the state before the trigger");
    assert_eq!(curr, Added(3), "the state with the trigger");

    // The next trigger of the stream resumes behind what was folded.
    ctx.state = StateSource::FoldOnRead { registry: &reg, bound: LogCursor::from_raw(30) };
    let fold = match ctx.state_of("Total", 1, &mut cache).unwrap() {
        StateRead::Folding(fold) => fold,
        StateRead::Ready(_) => panic!("the stream has to be read"),
    };
    assert_eq!(fold.read_after(0), Some(StreamRevision::from_raw(1)));
    let (prev, curr) = fold_bounded(&reg, fold, &vec![vec![added(4, 2, 30)]], &mut cache).unwrap();
    assert_eq!(prev, Added(3));
    assert_eq!(curr, Added(7));
}
