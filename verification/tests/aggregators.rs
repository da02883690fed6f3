// The ghost methods of the traits are never run.
use causal::aggregate::{Aggregate, Apply};
use causal::aggregator::{Aggregator, BySubject, FoldFns, TypedFold};
use causal::any_materializer::{AnyMaterializer, AnyMaterializerRunner, Hydration};
use causal::checkpoint_store::{CheckpointStore, Cursors};
use causal::codec::Codec;
use causal::event::Event;
use causal::failure::Error;
use causal::fold_session::{FoldSession, FoldStep};
use causal::json::{Json, JsonView, Number};
use causal::registry::{decide_turn, AggregatorRegistry, FoldError, FoldOutcome, Turn};
use causal::snapshots::maybe_save_snapshots;
use causal::state_table::Marks;
use causal::supervise::StepOutcome;
use causal::text::Chars;
use causal::transitions::state_key_text;
use causal::types::{LogCursor, RecordedEvent, Snapshot, StreamRevision, Timestamp};
use uuid::Uuid;

fn now() -> Timestamp {
    let t = chrono::Utc::now();
    Timestamp { secs: t.timestamp(), nanos: t.timestamp_subsec_nanos() }
}

fn id_payload(id: u128) -> Json {
    Json::Object(vec![("id".to_string(), Json::Str(Uuid::from_u128(id).to_string()))])
}

fn read_id(value: &Json) -> Result<u128, String> {
    match value.get("id") {
        Some(Json::Str(s)) => Uuid::parse_str(s).map(|u| u.as_u128()).map_err(|e| e.to_string()),
        _ => Err("no id".to_string()),
    }
}

fn write_count(n: u32) -> Json {
    Json::Object(vec![("n".to_string(), Json::Number(Number::PosInt(n as u64)))])
}

fn read_count(value: &Json) -> Result<u32, String> {
    match value.get("n") {
        Some(Json::Number(Number::PosInt(n))) => Ok(*n as u32),
        _ => Err("no count".to_string()),
    }
}

struct Ping {
    id: u128,
}

impl Codec for Ping {
    fn decoded(_: JsonView) -> Option<Self> {
        unreachable!()
    }
    fn encoded(&self) -> Option<JsonView> {
        unreachable!()
    }
    fn decode(value: &Json) -> Result<Self, String> {
        Ok(Ping { id: read_id(value)? })
    }
    fn encode(&self) -> Result<Json, String> {
        Ok(id_payload(self.id))
    }
}

impl Event for Ping {
    const CATEGORY: &'static str = "pinged";
    fn event_type_of(&self) -> Chars {
        unreachable!()
    }
    fn subject_of(&self) -> u128 {
        unreachable!()
    }
    fn occurred_of(&self) -> Option<Timestamp> {
        unreachable!()
    }
    fn declared_of(&self) -> Option<u128> {
        unreachable!()
    }
    fn event_type(&self) -> &str {
        "pinged"
    }
    fn subject_id(&self) -> u128 {
        self.id
    }
    fn occurred_at(&self) -> Option<Timestamp> {
        None
    }
    fn declared_workflow_id(&self) -> Option<u128> {
        None
    }
}

#[derive(Clone, Debug, PartialEq)]
struct PingCount {
    n: u32,
}

impl Codec for PingCount {
    fn decoded(_: JsonView) -> Option<Self> {
        unreachable!()
    }
    fn encoded(&self) -> Option<JsonView> {
        unreachable!()
    }
    fn decode(value: &Json) -> Result<Self, String> {
        Ok(PingCount { n: read_count(value)? })
    }
    fn encode(&self) -> Result<Json, String> {
        Ok(write_count(self.n))
    }
}

impl Aggregate for PingCount {
    const NAME: &'static str = "PingCount";
    // Restorable / stream-aligned: folds exactly the `ping` stream.
    // This is what selects revision gating + gap repair (an
    // aggregate without SUBJECT is fan-in: position-gated,
    // never repaired, never snapshotted).
    const SUBJECT: &'static str = "ping";
    fn initial() -> Self {
        unreachable!()
    }
    fn initial_state() -> Self {
        PingCount { n: 0 }
    }
    fn copy_state(&self) -> Self {
        self.clone()
    }
}

impl Apply<Ping> for PingCount {
    fn applied(&self, _: Ping) -> Self {
        unreachable!()
    }
    fn apply(&mut self, _: &Ping) {
        self.n += 1;
    }
}

/// A log of one category's streams.
#[derive(Default)]
struct Log {
    events: Vec<RecordedEvent>,
}

fn copied(e: &RecordedEvent) -> RecordedEvent {
    RecordedEvent {
        position: e.position,
        revision: e.revision,
        event_id: e.event_id,
        causation_id: e.causation_id,
        workflow_id: e.workflow_id,
        event_type: e.event_type.clone(),
        payload: e.payload.copy(),
        created_at: e.created_at,
        category: e.category.clone(),
        subject_id: e.subject_id,
        metadata: Vec::new(),
    }
}

impl Log {
    fn append(&mut self, category: &str, id: u128, event_type: &str, payload: Json) {
        let revision =
            self.events.iter().filter(|e| e.category == category && e.subject_id == id).count();
        self.events.push(RecordedEvent {
            position: LogCursor::from_raw(self.events.len() as u64 + 1),
            revision: StreamRevision::from_raw(revision as u64),
            event_id: Uuid::new_v4().as_u128(),
            causation_id: None,
            workflow_id: Uuid::new_v4().as_u128(),
            event_type: event_type.to_string(),
            payload,
            created_at: now(),
            category: category.to_string(),
            subject_id: id,
            metadata: Vec::new(),
        });
    }

    fn read_stream(
        &self,
        category: &str,
        id: u128,
        after: Option<StreamRevision>,
    ) -> Vec<RecordedEvent> {
        self.events
            .iter()
            .filter(|e| e.category == category && e.subject_id == id)
            .filter(|e| after.map_or(true, |a| e.revision.raw() > a.raw()))
            .map(copied)
            .collect()
    }
}

/// Folds an event, reading what the session asks for.
fn fold_event<B: FoldFns>(
    reg: &mut AggregatorRegistry<B>,
    snapshot: &Option<Snapshot>,
    log: &Log,
    event: &RecordedEvent,
    strict: bool,
) -> Result<FoldOutcome<B::State>, FoldError> {
    let (mut session, first) = FoldSession::begin(reg, event, strict);
    let mut step = first?;
    loop {
        step = match step {
            FoldStep::Done(outcome) => return Ok(outcome),
            FoldStep::LoadSnapshot { .. } => session.on_snapshot(reg, snapshot),
            FoldStep::ReadStream { subject, id, after, .. } => {
                session.on_stream(reg, event, &log.read_stream(&subject, id, after))?
            }
        };
    }
}

type PingFold = TypedFold<PingCount, Ping, BySubject>;

fn ping_registry() -> AggregatorRegistry<PingFold> {
    let mut reg = AggregatorRegistry::new();
    reg.register(Aggregator::for_type());
    reg
}

fn pings(id: u128, n: usize) -> Log {
    let mut log = Log::default();
    for _ in 0..n {
        log.append("ping", id, "pinged", id_payload(id));
    }
    log
}

/// An out-of-order fold arrival (a later revision folding before an earlier
/// one) detects the gap and heals by read-through on the aggregate's own
/// stream. The earlier revisions' own folds then skip idempotently.
#[test]
fn out_of_order_fold_heals_via_gap_repair() {
    let id = Uuid::new_v4().as_u128();
    let log = pings(id, 3);
    assert_eq!(log.events.len(), 3);
    let mut reg = ping_registry();

    // Fold the LAST event first — revision 2 against an empty entry → gap →
    // repair reads revisions 0..1 from the stream, folds them, then folds
    // revision 2.
    fold_event(&mut reg, &None, &log, &log.events[2], false).unwrap();

    let key = state_key_text("PingCount", id);
    assert_eq!(reg.get_version(&key).raw(), 3, "watermark at tail");
    assert_eq!(reg.get_state(&key).unwrap().n, 3, "repair folded the missing revisions in order");

    // The earlier events' own (late) folds are idempotent skips.
    for event in &log.events[..2] {
        let outcome = fold_event(&mut reg, &None, &log, event, false).unwrap();
        assert!(!outcome.applied, "late arrival skips — already folded");
    }
    assert_eq!(reg.get_state(&key).unwrap().n, 3, "no double-counting from late arrivals");
}

/// Strict mode (consumer registries): repair must NOT fold stream events at
/// or beyond the event being delivered — the registry promises
/// `state == fold(log[..cursor])`.
#[test]
fn strict_gap_repair_stops_at_the_delivered_event() {
    let id = Uuid::new_v4().as_u128();
    let log = pings(id, 4);
    let mut reg = ping_registry();

    // Deliver revision 2 strictly (revision 3 exists in the log but has not
    // been delivered to this consumer yet).
    fold_event(&mut reg, &None, &log, &log.events[2], true).unwrap();

    let key = state_key_text("PingCount", id);
    assert_eq!(
        reg.get_version(&key).raw(),
        3,
        "watermark stops at the delivered event — revision 3 not folded"
    );
    assert_eq!(
        reg.get_state(&key).unwrap().n,
        3,
        "exactly revisions 0..=2 folded; the undelivered tail is untouched"
    );
}

/// The stream-alignment assertion: a restorable aggregator whose extracted
/// id disagrees with the event's stream id errors loudly instead of silently
/// diverging from what restore would rebuild.
#[test]
fn misaligned_restorable_aggregator_fails_loudly() {
    let mut reg = ping_registry();
    let payload = id_payload(Uuid::new_v4().as_u128());
    // Event claims to live in a DIFFERENT stream than the aggregator
    // extracts from the payload.
    let err = match reg.apply_event(
        "pinged",
        &payload,
        Uuid::new_v4().as_u128(), // foreign stream id
        "ping",
        StreamRevision::zero(),
        LogCursor::from_raw(1),
    ) {
        Ok(_) => panic!("misaligned fold must error"),
        Err(e) => e,
    };
    assert!(
        err.to_text().contains("must fold exactly its own stream"),
        "unexpected error: {}",
        err.to_text()
    );
}

// ── Mixed-root stream fixtures ───────────────────────────────────
// An aligned aggregate `B` over subject `s`, folding only event `b`.
// Event `a` shares the stream but folds into no aggregator. A second aligned
// aggregate `C` over the SAME subject `s` folds only event `c`: foreign to B
// but meaningful to C.

struct EventB {
    id: u128,
}

struct EventC {
    id: u128,
}

impl Codec for EventB {
    fn decoded(_: JsonView) -> Option<Self> {
        unreachable!()
    }
    fn encoded(&self) -> Option<JsonView> {
        unreachable!()
    }
    fn decode(value: &Json) -> Result<Self, String> {
        Ok(EventB { id: read_id(value)? })
    }
    fn encode(&self) -> Result<Json, String> {
        Ok(id_payload(self.id))
    }
}

impl Codec for EventC {
    fn decoded(_: JsonView) -> Option<Self> {
        unreachable!()
    }
    fn encoded(&self) -> Option<JsonView> {
        unreachable!()
    }
    fn decode(value: &Json) -> Result<Self, String> {
        Ok(EventC { id: read_id(value)? })
    }
    fn encode(&self) -> Result<Json, String> {
        Ok(id_payload(self.id))
    }
}

impl Event for EventB {
    const CATEGORY: &'static str = "b";
    fn event_type_of(&self) -> Chars {
        unreachable!()
    }
    fn subject_of(&self) -> u128 {
        unreachable!()
    }
    fn occurred_of(&self) -> Option<Timestamp> {
        unreachable!()
    }
    fn declared_of(&self) -> Option<u128> {
        unreachable!()
    }
    fn event_type(&self) -> &str {
        "b"
    }
    fn subject_id(&self) -> u128 {
        self.id
    }
    fn occurred_at(&self) -> Option<Timestamp> {
        None
    }
    fn declared_workflow_id(&self) -> Option<u128> {
        None
    }
}

impl Event for EventC {
    const CATEGORY: &'static str = "c";
    fn event_type_of(&self) -> Chars {
        unreachable!()
    }
    fn subject_of(&self) -> u128 {
        unreachable!()
    }
    fn occurred_of(&self) -> Option<Timestamp> {
        unreachable!()
    }
    fn declared_of(&self) -> Option<u128> {
        unreachable!()
    }
    fn event_type(&self) -> &str {
        "c"
    }
    fn subject_id(&self) -> u128 {
        self.id
    }
    fn occurred_at(&self) -> Option<Timestamp> {
        None
    }
    fn declared_workflow_id(&self) -> Option<u128> {
        None
    }
}

#[derive(Clone, Debug)]
struct BCount {
    n: u32,
}

#[derive(Clone, Debug)]
struct CCount {
    n: u32,
}

impl Codec for BCount {
    fn decoded(_: JsonView) -> Option<Self> {
        unreachable!()
    }
    fn encoded(&self) -> Option<JsonView> {
        unreachable!()
    }
    fn decode(value: &Json) -> Result<Self, String> {
        Ok(BCount { n: read_count(value)? })
    }
    fn encode(&self) -> Result<Json, String> {
        Ok(write_count(self.n))
    }
}

impl Codec for CCount {
    fn decoded(_: JsonView) -> Option<Self> {
        unreachable!()
    }
    fn encoded(&self) -> Option<JsonView> {
        unreachable!()
    }
    fn decode(value: &Json) -> Result<Self, String> {
        Ok(CCount { n: read_count(value)? })
    }
    fn encode(&self) -> Result<Json, String> {
        Ok(write_count(self.n))
    }
}

impl Aggregate for BCount {
    const NAME: &'static str = "B";
    const SUBJECT: &'static str = "s";
    fn initial() -> Self {
        unreachable!()
    }
    fn initial_state() -> Self {
        BCount { n: 0 }
    }
    fn copy_state(&self) -> Self {
        self.clone()
    }
}

impl Aggregate for CCount {
    const NAME: &'static str = "C";
    const SUBJECT: &'static str = "s";
    fn initial() -> Self {
        unreachable!()
    }
    fn initial_state() -> Self {
        CCount { n: 0 }
    }
    fn copy_state(&self) -> Self {
        self.clone()
    }
}

impl Apply<EventB> for BCount {
    fn applied(&self, _: EventB) -> Self {
        unreachable!()
    }
    fn apply(&mut self, _: &EventB) {
        self.n += 1;
    }
}

impl Apply<EventC> for CCount {
    fn applied(&self, _: EventC) -> Self {
        unreachable!()
    }
    fn apply(&mut self, _: &EventC) {
        self.n += 1;
    }
}

/// The folds of B and of C in one registry.
enum EitherFold {
    B(TypedFold<BCount, EventB, BySubject>),
    C(TypedFold<CCount, EventC, BySubject>),
}

enum EitherCount {
    B(BCount),
    C(CCount),
}

impl EitherCount {
    fn n(&self) -> u32 {
        match self {
            EitherCount::B(s) => s.n,
            EitherCount::C(s) => s.n,
        }
    }
}

impl FoldFns for EitherFold {
    type State = EitherCount;
    fn extracted(&self, _: JsonView) -> Option<u128> {
        unreachable!()
    }
    fn applied(&self, _: EitherCount, _: JsonView) -> Option<EitherCount> {
        unreachable!()
    }
    fn initial(&self) -> EitherCount {
        unreachable!()
    }
    fn serialized(&self, _: EitherCount) -> Option<JsonView> {
        unreachable!()
    }
    fn deserialized(&self, _: JsonView) -> Option<EitherCount> {
        unreachable!()
    }
    fn extract_id_from_json(&self, payload: &Json) -> Option<u128> {
        match self {
            EitherFold::B(f) => f.extract_id_from_json(payload),
            EitherFold::C(f) => f.extract_id_from_json(payload),
        }
    }
    fn apply_to(&self, state: &mut EitherCount, data: &Json) -> Result<(), String> {
        match (self, state) {
            (EitherFold::B(f), EitherCount::B(s)) => f.apply_to(s, data),
            (EitherFold::C(f), EitherCount::C(s)) => f.apply_to(s, data),
            _ => panic!("a fold is given its own state"),
        }
    }
    fn clone_state(&self, state: &EitherCount) -> EitherCount {
        match state {
            EitherCount::B(s) => EitherCount::B(s.clone()),
            EitherCount::C(s) => EitherCount::C(s.clone()),
        }
    }
    fn default_state(&self) -> EitherCount {
        match self {
            EitherFold::B(f) => EitherCount::B(f.default_state()),
            EitherFold::C(f) => EitherCount::C(f.default_state()),
        }
    }
    fn serialize_state(&self, state: &EitherCount) -> Result<Json, String> {
        Ok(write_count(state.n()))
    }
    fn deserialize_state(&self, value: &Json) -> Result<EitherCount, String> {
        match self {
            EitherFold::B(f) => f.deserialize_state(value).map(EitherCount::B),
            EitherFold::C(f) => f.deserialize_state(value).map(EitherCount::C),
        }
    }
    fn copy_fns(&self) -> Self {
        match self {
            EitherFold::B(f) => EitherFold::B(f.copy_fns()),
            EitherFold::C(f) => EitherFold::C(f.copy_fns()),
        }
    }
}

fn with_fns<X, Y>(agg: Aggregator<X>, wrap: fn(X) -> Y) -> Aggregator<Y> {
    Aggregator {
        event_prefix: agg.event_prefix,
        aggregate_type: agg.aggregate_type,
        subject: agg.subject,
        invariant: agg.invariant,
        event_subject: agg.event_subject,
        custom_id: agg.custom_id,
        fns: wrap(agg.fns),
    }
}

fn b_registry() -> AggregatorRegistry<EitherFold> {
    let mut reg = AggregatorRegistry::new();
    reg.register(with_fns(Aggregator::for_type(), EitherFold::B));
    reg
}

fn b_and_c_registry() -> AggregatorRegistry<EitherFold> {
    let mut reg = b_registry();
    reg.register(with_fns(Aggregator::for_type(), EitherFold::C));
    reg
}

fn mixed(id: u128, kinds: &[&str]) -> Log {
    let mut log = Log::default();
    for kind in kinds {
        let payload = match *kind {
            "b" | "c" => id_payload(id),
            _ => Json::Object(Vec::new()),
        };
        log.append("s", id, kind, payload);
    }
    log
}

/// Mixed-root stream: revision 0 is an event NO aggregator folds, and
/// revision 1 is the aggregate's own first folded event. In strict mode the
/// snapshot-restore fast-path is skipped, so repair relies on the tail fold
/// and the watermark, which moves only an entry that exists: repair seeds the
/// empty base first.
#[test]
fn strict_repair_seeds_mixed_root_stream() {
    let id = Uuid::new_v4().as_u128();
    let log = mixed(id, &["a", "b"]);
    let eb = &log.events[1];
    assert_eq!(eb.event_type, "b");
    assert_eq!(eb.revision.raw(), 1);
    let mut reg = b_registry();

    // Deliver revision 1 strictly. The aggregate is vacant; revision 1
    // against version 0 is a gap whose lead revision (0) folds into nothing.
    let outcome = match fold_event(&mut reg, &None, &log, eb, true) {
        Ok(outcome) => outcome,
        Err(e) => panic!("mixed-root repair must converge, not bail: {}", e.to_text()),
    };
    assert!(outcome.applied, "the delivered event `b` was folded");
    let key = state_key_text("B", id);
    assert_eq!(
        reg.get_version(&key).raw(),
        2,
        "watermark advanced past the delivered revision 1"
    );
    assert_eq!(
        reg.get_state(&key).unwrap().n(),
        1,
        "exactly event `b` folded — event `a` is not its event"
    );
}

/// Multiple contiguous foreign lead revisions: the seed + per-event advance
/// must carry the watermark across all of them.
#[test]
fn strict_repair_seeds_all_foreign_lead_run() {
    let id = Uuid::new_v4().as_u128();
    let log = mixed(id, &["a", "a", "b"]);
    let eb = &log.events[2];
    assert_eq!((eb.event_type.as_str(), eb.revision.raw()), ("b", 2));
    let mut reg = b_registry();

    let outcome = match fold_event(&mut reg, &None, &log, eb, true) {
        Ok(outcome) => outcome,
        Err(e) => panic!("two foreign lead revisions must still converge: {}", e.to_text()),
    };
    assert!(outcome.applied);
    let key = state_key_text("B", id);
    assert_eq!(reg.get_version(&key).raw(), 3, "watermark crossed rev0,rev1 to fold rev2");
    assert_eq!(reg.get_state(&key).unwrap().n(), 1);
}

/// A foreign event interleaved AFTER a real fold (entry already exists) —
/// the seed must be a no-op and the pre-existing advance path must still
/// carry the watermark.
#[test]
fn strict_repair_foreign_event_after_real_fold() {
    let id = Uuid::new_v4().as_u128();
    let log = mixed(id, &["b", "a", "b"]);
    let mut reg = b_registry();

    // Fold rev0 first so the entry exists at version 1.
    assert!(fold_event(&mut reg, &None, &log, &log.events[0], true).is_ok());
    let key = state_key_text("B", id);
    assert_eq!(reg.get_version(&key).raw(), 1);

    // Now deliver rev2; the gap (expected 1) repairs over the foreign rev1.
    assert!(
        fold_event(&mut reg, &None, &log, &log.events[2], true).is_ok(),
        "interleaved foreign event must not wedge an existing entry"
    );
    assert_eq!(reg.get_version(&key).raw(), 3);
    assert_eq!(
        reg.get_state(&key).unwrap().n(),
        2,
        "two `b` events folded; the interleaved `a` is not B's"
    );
}

/// Two aggregate roots on one stream, peer caught up. During B's repair the
/// foreign-to-B `c` event is an idempotent skip for C, so it contributes no
/// gap and B advances normally.
#[test]
fn strict_repair_shared_stream_peer_caught_up() {
    let id = Uuid::new_v4().as_u128();
    let log = mixed(id, &["c", "b"]);
    let mut reg = b_and_c_registry();

    // In-order processing: fold c@0 (C catches up), then deliver b@1.
    assert!(fold_event(&mut reg, &None, &log, &log.events[0], true).is_ok());
    assert!(
        fold_event(&mut reg, &None, &log, &log.events[1], true).is_ok(),
        "B converges when peer C is caught up"
    );
    assert_eq!(reg.get_version(&state_key_text("B", id)).raw(), 2);
    assert_eq!(reg.get_state(&state_key_text("B", id)).unwrap().n(), 1);
    assert_eq!(reg.get_state(&state_key_text("C", id)).unwrap().n(), 1);
}

/// Two aggregate roots on one stream, peer BEHIND and gapping mid-tail. C's
/// gap is not B's, so B advances past the foreign `c` events and converges.
#[test]
fn strict_repair_shared_stream_peer_behind_converges() {
    let id = Uuid::new_v4().as_u128();
    let log = mixed(id, &["c", "d", "c", "b"]);
    let eb = &log.events[3];
    assert_eq!((eb.event_type.as_str(), eb.revision.raw()), ("b", 3));
    let mut reg = b_and_c_registry();

    // Deliver b@3 to a COLD registry — C is never pre-folded, so during B's
    // repair the tail's c@2 gaps C (C is at version 1 after c@0).
    let outcome = match fold_event(&mut reg, &None, &log, eb, true) {
        Ok(outcome) => outcome,
        Err(e) => panic!("a PEER's gap must not wedge B's repair: {}", e.to_text()),
    };
    assert!(outcome.applied);
    assert_eq!(
        reg.get_version(&state_key_text("B", id)).raw(),
        4,
        "B advanced across c@0, d@1, c@2 and folded b@3"
    );
    assert_eq!(reg.get_state(&state_key_text("B", id)).unwrap().n(), 1, "only `b` folded into B");
}

/// Redeliveries of a dense revision sequence fold each revision once.
#[test]
fn aggregator_apply_event_serializes_concurrent_callers() {
    const TASKS: usize = 8;
    const PER_TASK: usize = 200;
    const REVISIONS: u64 = 50;
    let mut reg = b_registry();
    let id = Uuid::new_v4().as_u128();
    let payload = id_payload(id);
    for _ in 0..TASKS * PER_TASK {
        for rev in 0..REVISIONS {
            if let Err(e) = reg.apply_event(
                "b",
                &payload,
                id,
                "s",
                StreamRevision::from_raw(rev),
                LogCursor::from_raw(rev + 1),
            ) {
                panic!("fold must not error: {}", e.to_text());
            }
        }
    }
    let key = state_key_text("B", id);
    assert_eq!(
        reg.get_version(&key).raw(),
        REVISIONS,
        "watermark must sit one past the last folded revision"
    );
    assert_eq!(
        reg.get_state(&key).unwrap().n() as u64,
        REVISIONS,
        "each revision folds exactly once — redeliveries skip, none lost"
    );
}

#[test]
fn a_vacant_entry_is_restored_from_its_snapshot() {
    let id = Uuid::new_v4().as_u128();
    let log = pings(id, 4);
    let mut reg = ping_registry();
    let snapshot = Snapshot {
        aggregate_type: "PingCount".to_string(),
        aggregate_id: id,
        revision: StreamRevision::from_raw(2),
        state: write_count(20),
        created_at: now(),
    };
    // Revision 3 against a vacant entry: the snapshot stands for revisions
    // 0 to 2, the stream gives 3.
    assert!(fold_event(&mut reg, &Some(snapshot), &log, &log.events[3], false).is_ok());
    let key = state_key_text("PingCount", id);
    assert_eq!(reg.get_state(&key).unwrap().n, 21);
    assert_eq!(reg.get_version(&key).raw(), 4);
    assert_eq!(reg.get_snapshot_at_version(&key).raw(), 3);
}

#[test]
fn a_snapshot_that_cannot_be_read_is_discarded() {
    let id = Uuid::new_v4().as_u128();
    let log = pings(id, 3);
    let mut reg = ping_registry();
    let snapshot = Some(Snapshot {
        aggregate_type: "PingCount".to_string(),
        aggregate_id: id,
        revision: StreamRevision::from_raw(2),
        state: Json::Null,
        created_at: now(),
    });
    let event = &log.events[2];
    let (mut session, first) = FoldSession::begin(&mut reg, event, false);
    assert!(matches!(
        first,
        Ok(FoldStep::LoadSnapshot { ref aggregate_type, id: asked })
            if aggregate_type == "PingCount" && asked == id
    ));
    match session.on_snapshot(&reg, &snapshot) {
        FoldStep::ReadStream { subject, after, discard_snapshot, .. } => {
            assert_eq!(subject, "ping");
            assert_eq!(after, None);
            assert!(discard_snapshot);
        }
        _ => panic!("the stream is read next"),
    }
    // Rebuilt from the stream, the state still records when a snapshot was taken.
    let tail = log.events.iter().map(copied).collect();
    assert!(session.on_stream(&mut reg, event, &tail).is_ok());
    let key = state_key_text("PingCount", id);
    assert_eq!(reg.get_version(&key), StreamRevision::from_raw(3));
    assert_eq!(reg.get_snapshot_at_version(&key), StreamRevision::from_raw(3));
}

#[test]
fn turns_are_decided_by_revision_when_aligned_and_by_position_when_not() {
    let marks = Some(Marks {
        version: StreamRevision::from_raw(3),
        snapshot_at: StreamRevision::zero(),
        last_pos: LogCursor::from_raw(9),
    });
    let turn = |aligned: bool, revision: u64, position: u64| {
        decide_turn(
            aligned,
            marks,
            StreamRevision::from_raw(revision),
            LogCursor::from_raw(position),
        )
    };
    assert_eq!(turn(true, 3, 10), Turn::Fold);
    assert_eq!(turn(true, 2, 9), Turn::Skip { exact_prev: true });
    assert_eq!(turn(true, 1, 8), Turn::Skip { exact_prev: false });
    assert_eq!(turn(true, 5, 12), Turn::Gap { expected: 3 });
    assert_eq!(turn(false, 0, 10), Turn::Fold);
    assert_eq!(turn(false, 3, 9), Turn::Fold);
    assert_eq!(turn(false, 2, 9), Turn::Skip { exact_prev: true });
    assert_eq!(turn(false, 1, 9), Turn::Skip { exact_prev: false });
    assert_eq!(turn(false, 7, 8), Turn::Skip { exact_prev: false });
    assert_eq!(
        decide_turn(true, None, StreamRevision::zero(), LogCursor::from_raw(1)),
        Turn::Fold
    );
    assert_eq!(
        decide_turn(true, None, StreamRevision::from_raw(2), LogCursor::from_raw(1)),
        Turn::Gap { expected: 0 }
    );
}

#[test]
fn the_transition_shows_the_states_around_the_last_fold() {
    let id = Uuid::new_v4().as_u128();
    let log = pings(id, 2);
    let mut reg = ping_registry();
    assert_eq!(reg.get_transition("PingCount", id), (PingCount { n: 0 }, PingCount { n: 0 }));
    for event in &log.events {
        let outcome = fold_event(&mut reg, &None, &log, event, true).unwrap();
        assert!(outcome.snapshots.get_pair("PingCount", id).is_some());
    }
    assert_eq!(reg.get_transition("PingCount", id), (PingCount { n: 1 }, PingCount { n: 2 }));
    // A redelivery still shows the pair of the event.
    let again = fold_event(&mut reg, &None, &log, &log.events[1], true).unwrap();
    assert!(!again.applied);
    let (prev, next) = again.snapshots.get_pair("PingCount", id).unwrap();
    assert_eq!((prev.n, next.n), (1, 2));
}

#[test]
fn a_payload_that_cannot_be_applied_is_an_error() {
    let mut reg = ping_registry();
    let bogus = Json::Object(vec![("bogus".to_string(), Json::Number(Number::PosInt(1)))]);
    match reg.apply_event(
        "pinged",
        &bogus,
        1,
        "ping",
        StreamRevision::zero(),
        LogCursor::from_raw(1),
    ) {
        Err(FoldError::Apply { key, event_type, cause, .. }) => {
            assert_eq!(key, state_key_text("PingCount", 1));
            assert_eq!(event_type, "pinged");
            assert_eq!(cause, "no id");
        }
        _ => panic!("a payload that does not decode is fatal"),
    }
    assert!(reg.get_state(&state_key_text("PingCount", 1)).is_none());
    // Replaying it onto a state is refused too, after what stands before it.
    let mut state = PingCount { n: 0 };
    let good = copied(&pings(1, 1).events[0]);
    let mut event = copied(&good);
    event.payload = bogus;
    match reg.replay_events_onto("PingCount", &mut state, &vec![good, event]) {
        Err(FoldError::Replay { aggregate_type, cause }) => {
            assert_eq!(aggregate_type, "PingCount");
            assert_eq!(cause, "no id");
        }
        _ => panic!("a payload that does not decode is fatal"),
    }
    assert_eq!(state.n, 1);
}

#[test]
fn snapshots_fall_due_every_so_many_revisions() {
    let id = Uuid::new_v4().as_u128();
    let log = pings(id, 3);
    let mut reg = ping_registry();
    let at = now();
    for (i, event) in log.events.iter().enumerate() {
        let outcome = fold_event(&mut reg, &None, &log, event, true).unwrap();
        let due = maybe_save_snapshots(&reg, 3, &outcome.snapshots, at);
        if i < 2 {
            assert!(due.is_empty(), "revision {} is too early", i);
        } else {
            assert_eq!(due.len(), 1);
            let saved = &due[0];
            assert_eq!(saved.key, state_key_text("PingCount", id));
            assert_eq!(saved.snapshot.aggregate_id, id);
            assert_eq!(saved.snapshot.aggregate_type, "PingCount");
            assert_eq!(saved.snapshot.revision.raw(), 2, "the last folded revision");
            assert_eq!(saved.version.raw(), 3);
            assert!(saved.snapshot.state.equals(&write_count(3)));
            reg.update_snapshot_at_version(&saved.key, saved.version);
            assert!(maybe_save_snapshots(&reg, 3, &outcome.snapshots, at).is_empty());
        }
    }
}

#[test]
fn an_observer_is_told_of_every_folded_key() {
    let id = Uuid::new_v4().as_u128();
    let log = pings(id, 1);
    let mut reg = ping_registry();
    let outcome = fold_event(&mut reg, &None, &log, &log.events[0], true).unwrap();
    let told = reg.notify_observer(&outcome.snapshots);
    assert_eq!(told.len(), 1);
    assert_eq!(told[0].key, state_key_text("PingCount", id));
    assert!(told[0].state.equals(&write_count(1)));
}

#[test]
fn registry_lookups_find_what_was_registered() {
    let reg = b_and_c_registry();
    assert!(!reg.is_empty());
    assert_eq!(reg.len(), 2);
    assert_eq!(reg.aggregator(1).aggregate_type, "C");
    assert_eq!(reg.find_by_durable_name("b").len(), 1);
    assert_eq!(reg.find_by_durable_name("d").len(), 0);
    assert!(reg.find_first_by_aggregate_type("C").is_some());
    assert_eq!(reg.first_index("C"), Some(1));
    assert_eq!(reg.first_index("D"), None);
    let mut types = reg.unique_aggregate_types();
    types.sort();
    assert_eq!(types, vec!["B", "C"]);
    let targets = reg.restore_targets("c", &id_payload(7));
    assert_eq!(targets, vec![("C".to_string(), "s".to_string(), 7)]);
}

#[test]
fn a_state_can_be_set_and_removed() {
    let mut reg = ping_registry();
    reg.set_state(
        "PingCount:x",
        PingCount { n: 5 },
        StreamRevision::from_raw(4),
        StreamRevision::from_raw(2),
    );
    assert!(reg.has_state("PingCount:x"));
    assert_eq!(reg.get_version("PingCount:x").raw(), 4);
    assert_eq!(reg.get_snapshot_at_version("PingCount:x").raw(), 2);
    reg.advance_watermark("PingCount:x", StreamRevision::from_raw(4), LogCursor::from_raw(8));
    assert_eq!(reg.get_version("PingCount:x").raw(), 5);
    // A watermark moves no vacant entry.
    reg.advance_watermark("PingCount:y", StreamRevision::zero(), LogCursor::from_raw(1));
    assert!(!reg.has_state("PingCount:y"));
    assert_eq!(reg.get_version("PingCount:y").raw(), 0);
    reg.remove_state("PingCount:x");
    assert!(reg.get_state("PingCount:x").is_none());
}

/// One cursor.
struct OneCursor(Option<LogCursor>);

impl CheckpointStore for OneCursor {
    fn cursors(&self) -> Cursors {
        unreachable!()
    }
    fn get(&self, _consumer_id: &str) -> Result<Option<LogCursor>, Error> {
        Ok(self.0)
    }
    fn set(&mut self, _consumer_id: &str, pos: LogCursor) -> Result<(), Error> {
        self.0 = Some(pos);
        Ok(())
    }
}

/// Refuses the event at one position, the first time.
struct Refuses {
    at: Option<LogCursor>,
    seen: Vec<LogCursor>,
}

impl AnyMaterializer for Refuses {
    fn takes(&self, _: RecordedEvent, _: Result<(), Error>, _: Self) -> bool {
        unreachable!()
    }
    fn materialize(&mut self, event: &RecordedEvent) -> Result<(), Error> {
        if self.at == Some(event.position) {
            self.at = None;
            return Err(Error::msg("refused"));
        }
        self.seen.push(event.position);
        Ok(())
    }
}

#[test]
fn a_refused_event_leaves_no_fold() {
    let id = Uuid::new_v4().as_u128();
    let log = pings(id, 3);
    let key = state_key_text("PingCount", id);
    let body = Refuses { at: Some(LogCursor::from_raw(2)), seen: Vec::new() };
    let mut runner =
        AnyMaterializerRunner::new(body, "audit", Vec::new()).with_aggregators(ping_registry());
    let mut cursor = OneCursor(None);
    let batch = log.events.iter().map(copied).collect();
    let err = runner.step(&mut cursor, &batch).unwrap_err();
    assert_eq!(err.to_text(), "refused");
    assert_eq!(cursor.0, Some(LogCursor::from_raw(1)));
    // The first event's fold stays; the second's is undone.
    assert_eq!(runner.aggregators.get_state(&key), Some(&PingCount { n: 1 }));
    assert_eq!(runner.aggregators.get_version(&key), StreamRevision::from_raw(1));

    let rest = log.events[1..].iter().map(copied).collect();
    assert!(matches!(
        runner.step(&mut cursor, &rest),
        Ok(StepOutcome::Progressed { applied: 2 })
    ));
    assert_eq!(cursor.0, Some(LogCursor::from_raw(3)));
    assert_eq!(runner.aggregators.get_state(&key), Some(&PingCount { n: 3 }));
    assert_eq!(runner.runner.materializer.seen.len(), 3);
}

#[test]
fn an_event_that_cannot_be_folded_is_not_handed_over() {
    let id = Uuid::new_v4().as_u128();
    let mut log = pings(id, 2);
    log.events[1].payload = Json::Null;
    let body = Refuses { at: None, seen: Vec::new() };
    let mut runner =
        AnyMaterializerRunner::new(body, "audit", Vec::new()).with_aggregators(ping_registry());
    let mut cursor = OneCursor(None);
    let err = runner.step(&mut cursor, &log.events).unwrap_err();
    assert!(err.to_text().contains("no id"), "{}", err.to_text());
    assert_eq!(cursor.0, Some(LogCursor::from_raw(1)));
    assert_eq!(runner.runner.materializer.seen, vec![LogCursor::from_raw(1)]);
    assert_eq!(runner.consumer_id(), "audit");
}

#[test]
fn states_are_rebuilt_up_to_the_cursor() {
    let id = Uuid::new_v4().as_u128();
    let log = pings(id, 3);
    let body = Refuses { at: None, seen: Vec::new() };
    let mut runner =
        AnyMaterializerRunner::new(body, "audit", Vec::new()).with_aggregators(ping_registry());
    assert!(matches!(
        runner.hydrate(LogCursor::from_raw(2), &log.events),
        Ok(Hydration { fold: 2, read_from: None })
    ));
    let key = state_key_text("PingCount", id);
    assert_eq!(runner.aggregators.get_state(&key), Some(&PingCount { n: 2 }));
    assert!(runner.runner.materializer.seen.is_empty());
}
