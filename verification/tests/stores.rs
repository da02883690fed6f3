// The ghost methods of the traits are never run.
use causal::checkpoint_store::{should_advance, CheckpointStore, Cursors};
use causal::codec::Codec;
use causal::decision_store::{DecisionRecord, DecisionStore, InMemoryDecisionStore};
use causal::effect_store::{keep, recall, remember, EffectKey, EffectStore, InMemoryEffectStore};
use causal::event_id_registry::{
    classify_batch, classify_found, BatchPresence, EventIdEntry, EventIdRegistry,
    InMemoryEventIdRegistry,
};
use causal::event_log::{append_event, first_diff_path, DivergentRedelivery};
use causal::failure::Error;
use causal::json::{find_member, sanitize_nul, set_member, Json, JsonView, Number};
use causal::output_envelope::{read_batch, write_batch};
use causal::types::{EventData, LogCursor, StreamRevision, StreamState, Timestamp};
use std::cell::Cell;
use uuid::Uuid;

fn now() -> Timestamp {
    let t = chrono::Utc::now();
    Timestamp { secs: t.timestamp(), nanos: t.timestamp_subsec_nanos() }
}

fn fresh() -> u128 {
    Uuid::new_v4().as_u128()
}

fn num(n: u64) -> Json {
    Json::Number(Number::PosInt(n))
}

fn text(s: &str) -> Json {
    Json::Str(s.to_string())
}

fn obj(members: Vec<(&str, Json)>) -> Json {
    let mut list = Vec::new();
    for (k, v) in members {
        set_member(&mut list, k, v);
    }
    Json::Object(list)
}

fn same(a: &Json, b: &Json) -> bool {
    a.equals(b)
}

fn out(event_type: &str, subject: u128, payload: Json) -> EventData {
    EventData {
        event_id: fresh(),
        causation_id: Some(fresh()),
        workflow_id: fresh(),
        event_type: event_type.to_string(),
        payload,
        created_at: now(),
        category: Some(event_type.to_string()),
        subject_id: Some(subject),
        metadata: Vec::new(),
        persistent: true,
    }
}

#[test]
fn seal_then_get_round_trips_outputs() {
    let mut store = InMemoryDecisionStore::new();
    let trigger = fresh();
    let outputs = vec![
        out("Out", fresh(), obj(vec![("n", num(1))])),
        out("Out", fresh(), obj(vec![("n", num(2))])),
    ];
    let first_id = outputs[0].event_id;
    let rec = DecisionRecord::new("c", trigger, LogCursor::zero(), outputs, now());
    let sealed = store.seal(rec).unwrap();
    assert_eq!(sealed.outputs.len(), 2);

    let got = store.get("c", trigger).unwrap().unwrap();
    assert_eq!(got.outputs.len(), 2);
    assert_eq!(got.outputs[0].event_id, first_id);
    assert!(same(&got.outputs[1].payload, &obj(vec![("n", num(2))])));
}

#[test]
fn seal_is_first_write_wins() {
    let mut store = InMemoryDecisionStore::new();
    let trigger = fresh();

    let first = DecisionRecord::new(
        "c",
        trigger,
        LogCursor::zero(),
        vec![out("Out", fresh(), text("first"))],
        now(),
    );
    let first_id = first.outputs[0].event_id;
    store.seal(first).unwrap();

    // A racing second seal (different outputs) must adopt the first.
    let second = DecisionRecord::new(
        "c",
        trigger,
        LogCursor::zero(),
        vec![out("Out", fresh(), text("second"))],
        now(),
    );
    let canonical = store.seal(second).unwrap();
    assert_eq!(canonical.outputs.len(), 1);
    assert_eq!(canonical.outputs[0].event_id, first_id, "first write wins");
    assert!(same(&canonical.outputs[0].payload, &text("first")));
}

#[test]
fn empty_record_round_trips() {
    let mut store = InMemoryDecisionStore::new();
    let trigger = fresh();
    store.seal(DecisionRecord::new("c", trigger, LogCursor::zero(), vec![], now())).unwrap();
    let got = store.get("c", trigger).unwrap();
    let got = got.expect("empty record is present, not absent");
    assert!(got.outputs.is_empty(), "sealed empty batch stays empty");
}

#[test]
fn records_isolated_by_consumer_and_trigger() {
    let mut store = InMemoryDecisionStore::new();
    let trigger = fresh();
    store.seal(DecisionRecord::new("a", trigger, LogCursor::zero(), vec![], now())).unwrap();
    assert!(store.get("b", trigger).unwrap().is_none(), "consumer isolation");
    assert!(store.get("a", fresh()).unwrap().is_none(), "trigger isolation");
}

#[test]
fn remove_makes_record_absent_and_is_idempotent() {
    let mut store = InMemoryDecisionStore::new();
    let trigger = fresh();
    store.seal(DecisionRecord::new("c", trigger, LogCursor::zero(), vec![], now())).unwrap();
    store.remove("c", trigger).unwrap();
    assert!(store.get("c", trigger).unwrap().is_none());
    store.remove("c", trigger).unwrap(); // idempotent
}

#[test]
fn retention_gc_never_reclaims_a_parked_record() {
    // A parked record is a terminal marker: retention GC must keep it even
    // when it is aged AND the floor has passed, or a later checkpoint
    // regression re-decides the trigger into a park chimera. A success
    // record in the identical age/floor position IS reclaimed.
    let mut store = InMemoryDecisionStore::new();
    let today = now();
    let aged = Timestamp { secs: today.secs - 30 * 86400, nanos: today.nanos };
    let park = fresh();
    let win = fresh();
    store
        .seal(
            DecisionRecord::new("c", park, LogCursor::from_raw(1), vec![], aged).with_parked(true),
        )
        .unwrap();
    store.seal(DecisionRecord::new("c", win, LogCursor::from_raw(1), vec![], aged)).unwrap();

    // Window fully elapsed and floor well past both triggers.
    let removed = store.remove_reclaimable("c", now(), LogCursor::from_raw(100)).unwrap();
    assert_eq!(removed, 1, "only the success record is reclaimed");
    assert!(
        store.get("c", park).unwrap().is_some_and(|r| r.parked),
        "parked record survives retention GC (terminal marker)",
    );
    assert!(
        store.get("c", win).unwrap().is_none(),
        "success record aged past the floor is reclaimed",
    );
}

#[test]
fn nul_bytes_stripped_from_payload_at_seal() {
    let mut store = InMemoryDecisionStore::new();
    let trigger = fresh();
    let dirty = out("Out", fresh(), obj(vec![("text", text("a\u{0}b"))]));
    store.seal(DecisionRecord::new("c", trigger, LogCursor::zero(), vec![dirty], now())).unwrap();
    let got = store.get("c", trigger).unwrap().unwrap();
    assert!(same(got.outputs[0].payload.get("text").unwrap(), &text("ab")));
}

#[test]
fn a_record_comes_back_with_every_field() {
    let mut store = InMemoryDecisionStore::new();
    let mut event = out("Out", 7, obj(vec![("a", Json::Null), ("b", Json::Bool(true))]));
    event.created_at = Timestamp { secs: 1_767_225_600, nanos: 123_456_789 };
    event.metadata = vec![("actor".to_string(), text("them"))];
    event.persistent = false;
    let copy = event.copy();
    store
        .seal(DecisionRecord::new("c", 1, LogCursor::from_raw(9), vec![event], now()))
        .unwrap();
    let got = store.get("c", 1).unwrap().unwrap();
    let back = &got.outputs[0];
    assert_eq!(got.consumer, "c");
    assert_eq!(got.trigger_event_id, 1);
    assert_eq!(got.trigger_position, LogCursor::from_raw(9));
    assert_eq!(back.event_id, copy.event_id);
    assert_eq!(back.causation_id, copy.causation_id);
    assert_eq!(back.workflow_id, copy.workflow_id);
    assert_eq!(back.event_type, "Out");
    assert!(same(&back.payload, &copy.payload));
    assert_eq!(back.created_at, copy.created_at);
    assert_eq!(back.category.as_deref(), Some("Out"));
    assert_eq!(back.subject_id, Some(7));
    assert_eq!(back.metadata.len(), 1);
    assert!(same(&back.metadata[0].1, &text("them")));
    assert!(back.persistent, "a sealed output is durable");
}

#[test]
fn retention_waits_for_the_floor_and_the_age() {
    let mut store = InMemoryDecisionStore::new();
    let at = |secs: i64| Timestamp { secs, nanos: 0 };
    store.seal(DecisionRecord::new("c", 1, LogCursor::from_raw(5), vec![], at(10))).unwrap();
    // Not older than the cut.
    assert_eq!(store.remove_reclaimable("c", at(10), LogCursor::from_raw(9)).unwrap(), 0);
    // The floor is below the trigger.
    assert_eq!(store.remove_reclaimable("c", at(11), LogCursor::from_raw(4)).unwrap(), 0);
    // Another consumer's sweep leaves it.
    assert_eq!(store.remove_reclaimable("d", at(11), LogCursor::from_raw(9)).unwrap(), 0);
    assert_eq!(store.remove_reclaimable("c", at(11), LogCursor::from_raw(5)).unwrap(), 1);
    // A second sweep finds nothing.
    assert_eq!(store.remove_reclaimable("c", at(11), LogCursor::from_raw(5)).unwrap(), 0);
}

#[test]
fn consumers_are_listed_once_each() {
    let mut store = InMemoryDecisionStore::new();
    for (c, t) in [("a", 1), ("b", 2), ("a", 3)] {
        store.seal(DecisionRecord::new(c, t, LogCursor::zero(), vec![], now())).unwrap();
    }
    let mut names = store.list_consumers().unwrap();
    names.sort();
    assert_eq!(names, vec!["a".to_string(), "b".to_string()]);
}

#[test]
fn outputs_json_round_trips_and_refuses_other_shapes() {
    let rec = DecisionRecord::new("c", 1, LogCursor::zero(), vec![out("Out", 2, num(1))], now());
    let json = rec.outputs_to_json().unwrap();
    let back = DecisionRecord::outputs_from_json(json).unwrap();
    assert_eq!(back.len(), 1);
    assert_eq!(back[0].event_id, rec.outputs[0].event_id);
    assert!(DecisionRecord::outputs_from_json(text("no list")).is_err());
    assert!(DecisionRecord::outputs_from_json(Json::Array(vec![num(1)])).is_err());
}

#[test]
fn a_batch_of_envelopes_reads_back() {
    let events = vec![out("One", 1, Json::Null), out("Two", 2, num(3))];
    let json = write_batch(&events).unwrap();
    let back = read_batch(&json).unwrap();
    assert_eq!(back.len(), 2);
    assert_eq!(back[1].event_type, "Two");
    assert_eq!(back[1].created_at, events[1].created_at);
    assert!(read_batch(&Json::Null).is_none());
}

#[derive(Debug, PartialEq)]
struct Amount(u64);

impl Codec for Amount {
    fn decoded(_: JsonView) -> Option<Self> {
        unreachable!()
    }
    fn encoded(&self) -> Option<JsonView> {
        unreachable!()
    }
    fn decode(value: &Json) -> Result<Self, String> {
        match value {
            Json::Number(Number::PosInt(n)) => Ok(Amount(*n)),
            _ => Err("not an amount".to_string()),
        }
    }
    fn encode(&self) -> Result<Json, String> {
        if self.0 == 13 {
            return Err("unlucky".to_string());
        }
        Ok(num(self.0))
    }
}

#[test]
fn remember_computes_once_then_replays() {
    let mut cache = InMemoryEffectStore::new();
    let key = EffectKey::new("r", fresh(), "call");
    let calls = Cell::new(0);

    let first: Amount = remember(&mut cache, &key, || {
        calls.set(calls.get() + 1);
        Ok(Amount(42))
    })
    .unwrap();
    assert_eq!(first, Amount(42));

    // Second call with a DIFFERENT compute returns the cached value
    // and never runs compute again.
    let second: Amount = remember(&mut cache, &key, || {
        calls.set(calls.get() + 1);
        Ok(Amount(99))
    })
    .unwrap();
    assert_eq!(second, Amount(42), "redelivery replays the cached result");
    assert_eq!(calls.get(), 1, "external call ran exactly once");
}

#[test]
fn put_is_first_write_wins() {
    let mut cache = InMemoryEffectStore::new();
    let key = EffectKey::new("r", fresh(), "call");

    let a = cache.put(&key, text("first")).unwrap();
    assert!(same(&a, &text("first")));

    // A racing second writer adopts the canonical (first) value.
    let b = cache.put(&key, text("second")).unwrap();
    assert!(same(&b, &text("first")), "first write wins");

    assert!(same(&cache.get(&key).unwrap().unwrap(), &text("first")));
}

#[test]
fn effects_are_kept_apart_and_dropped_one_by_one() {
    let mut cache = InMemoryEffectStore::new();
    let ocr = EffectKey::new("r", 1, "ocr");
    let embed = EffectKey::new("r", 1, "embed");
    let later = EffectKey::new("r", 2, "ocr");
    cache.put(&ocr, num(1)).unwrap();
    cache.put(&embed, num(2)).unwrap();
    cache.put(&later, num(3)).unwrap();
    assert_eq!(cache.scan_by_trigger(1).len(), 2);
    assert_eq!(cache.scan_by_trigger(2).len(), 1);
    cache.remove(&ocr).unwrap();
    cache.remove(&ocr).unwrap();
    assert!(cache.get(&ocr).unwrap().is_none());
    let left = cache.scan_by_trigger(1);
    assert_eq!(left.len(), 1);
    assert_eq!(left[0].0.label, "embed");
    assert!(same(&left[0].1, &num(2)));
}

#[test]
fn a_failed_effect_is_not_kept() {
    let mut cache = InMemoryEffectStore::new();
    let key = EffectKey::new("r", 1, "call");
    let failed: Result<Amount, Error> = remember(&mut cache, &key, || Err(Error::msg("down")));
    assert_eq!(failed.unwrap_err().to_text(), "down");
    assert!(cache.get(&key).unwrap().is_none());
    // A result that cannot be written is an error, and nothing is kept.
    let unwritable: Result<Amount, Error> = keep(&mut cache, &key, &Amount(13));
    assert!(unwritable.is_err());
    assert!(cache.get(&key).unwrap().is_none());
    // What is kept under another shape is an error too.
    cache.put(&key, text("odd")).unwrap();
    let unreadable: Result<Option<Amount>, Error> = recall(&cache, &key);
    assert!(unreadable.is_err());
}

fn entry(pos: u64) -> EventIdEntry {
    EventIdEntry {
        event_id: fresh(),
        stream_position: LogCursor::from_raw(pos),
        stream_revision: StreamRevision::from_raw(pos),
    }
}

#[test]
fn absent_then_registered_then_redelivery() {
    let mut reg = InMemoryEventIdRegistry::new();
    let e = entry(5);
    assert_eq!(classify_batch(&reg, &[e.event_id]).unwrap(), BatchPresence::Absent);
    reg.register(&[e]).unwrap();
    assert_eq!(
        classify_batch(&reg, &[e.event_id]).unwrap(),
        BatchPresence::Redelivery { last: e }
    );
}

#[test]
fn partial_overlap_detected() {
    let mut reg = InMemoryEventIdRegistry::new();
    let a = entry(1);
    let b = entry(2);
    reg.register(&[a]).unwrap();
    assert_eq!(
        classify_batch(&reg, &[a.event_id, b.event_id]).unwrap(),
        BatchPresence::PartialOverlap
    );
}

#[test]
fn register_is_first_write_wins() {
    let mut reg = InMemoryEventIdRegistry::new();
    let id = fresh();
    let first = EventIdEntry {
        event_id: id,
        stream_position: LogCursor::from_raw(10),
        stream_revision: StreamRevision::from_raw(0),
    };
    let second = EventIdEntry { stream_position: LogCursor::from_raw(99), ..first };
    reg.register(&[first]).unwrap();
    reg.register(&[second]).unwrap();
    let got = reg.lookup(&[id]).unwrap()[0].unwrap();
    assert_eq!(got.stream_position, LogCursor::from_raw(10), "first write wins");
}

#[test]
fn an_empty_batch_is_absent_and_a_full_one_gives_its_last_entry() {
    let mut reg = InMemoryEventIdRegistry::new();
    assert_eq!(classify_batch(&reg, &[]).unwrap(), BatchPresence::Absent);
    let a = entry(1);
    let b = entry(2);
    reg.register(&[a, b]).unwrap();
    assert_eq!(
        classify_batch(&reg, &[b.event_id, a.event_id]).unwrap(),
        BatchPresence::Redelivery { last: a }
    );
    assert_eq!(classify_found(&vec![Some(a), None]), BatchPresence::PartialOverlap);
    assert_eq!(classify_found(&vec![None, None]), BatchPresence::Absent);
}

#[test]
fn equal_values_have_no_diff() {
    let v = || obj(vec![("a", Json::Array(vec![num(1), obj(vec![("b", num(2))])]))]);
    assert_eq!(first_diff_path(&v(), &v()), None);
}

#[test]
fn nested_diff_prints_the_full_path() {
    let value = |signal: &str| {
        obj(vec![(
            "outputs",
            Json::Array(vec![
                obj(vec![("x", num(1))]),
                obj(vec![(
                    "candidates",
                    Json::Array(vec![obj(vec![("signal_id", text(signal))])]),
                )]),
            ]),
        )])
    };
    assert_eq!(
        first_diff_path(&value("s1"), &value("s2")).as_deref(),
        Some("outputs[1].candidates[0].signal_id"),
    );
}

#[test]
fn missing_key_and_length_mismatch_are_located() {
    let a = obj(vec![("k", obj(vec![("present", num(1))]))]);
    let b = obj(vec![("k", obj(vec![]))]);
    assert_eq!(first_diff_path(&a, &b).as_deref(), Some("k.present"));

    let a = Json::Array(vec![num(1), num(2), num(3)]);
    let b = Json::Array(vec![num(1), num(2)]);
    assert_eq!(first_diff_path(&a, &b).as_deref(), Some("[2]"));
}

#[test]
fn scalar_root_diff_is_root() {
    assert_eq!(first_diff_path(&num(1), &num(2)).as_deref(), Some("(root)"));
}

#[test]
fn a_key_only_the_second_object_holds_is_located() {
    let a = obj(vec![("a", num(1))]);
    let b = obj(vec![("a", num(1)), ("z", num(2))]);
    assert_eq!(first_diff_path(&a, &b).as_deref(), Some("z"));
    assert_eq!(first_diff_path(&a, &num(1)).as_deref(), Some("(root)"));
}

#[test]
fn append_event_places_the_stream() {
    let request = append_event(out("order", 4, Json::Null));
    assert_eq!(request.category, "order");
    assert_eq!(request.subject_id, 4);
    assert_eq!(request.expected, StreamState::Any);
    assert_eq!(request.events.len(), 1);

    // Without a category, or with an empty one, the kind stands in; without
    // a subject, the event's own id.
    let mut bare = out("order_placed", 4, Json::Null);
    bare.category = None;
    bare.subject_id = None;
    let id = bare.event_id;
    let request = append_event(bare);
    assert_eq!(request.category, "order_placed");
    assert_eq!(request.subject_id, id);

    // A composed kind gives its prefix; without one before the colon there is
    // none to give.
    let mut composed = out("order:placed:late", 4, Json::Null);
    composed.category = None;
    assert_eq!(append_event(composed).category, "order");
    let mut nameless = out(":placed", 4, Json::Null);
    nameless.category = None;
    assert_eq!(append_event(nameless).category, "event");

    let mut empty = out("", 4, Json::Null);
    empty.category = Some(String::new());
    assert_eq!(append_event(empty).category, "event");
}

#[test]
fn a_divergent_redelivery_names_the_event_and_the_path() {
    let error = DivergentRedelivery { event_id: 1, diff: "a.b".to_string(), canonical: None };
    let text = error.to_text();
    assert!(text.contains("00000000-0000-0000-0000-000000000001"), "{}", text);
    assert!(text.contains("a.b"), "{}", text);
}

#[test]
fn nul_bytes_go_from_nested_texts_and_keys() {
    let dirty = Json::Object(vec![(
        "key\u{0}".to_string(),
        Json::Array(vec![text("\u{0}"), num(0)]),
    )]);
    let clean = sanitize_nul(&dirty);
    match &clean {
        Json::Object(members) => {
            assert_eq!(members.len(), 1);
            assert_eq!(members[0].0, "key");
            assert!(same(&members[0].1, &Json::Array(vec![text(""), num(0)])));
        }
        _ => panic!("an object stays an object"),
    }
    // Where two keys become one, the later member counts, in the first's place.
    let meeting = obj(vec![("a\u{0}b", text("x\u{0}y")), ("c", num(1)), ("ab", num(2))]);
    match sanitize_nul(&meeting) {
        Json::Object(members) => {
            assert_eq!(members.len(), 2);
            assert_eq!(members[0].0, "ab");
            assert!(same(&members[0].1, &num(2)));
            assert_eq!(members[1].0, "c");
        }
        _ => panic!("an object stays an object"),
    }
}

#[test]
fn an_output_is_stored_without_nul_in_its_keys() {
    let mut output = out("order", 4, obj(vec![("a\u{0}b", text("x\u{0}y"))]));
    output.metadata = vec![("k\u{0}".to_string(), num(1))];
    let record = DecisionRecord::new("c", 1, LogCursor::from_raw(1), vec![output], now());
    let stored = record.outputs_to_json().unwrap();
    let read = DecisionRecord::outputs_from_json(stored).unwrap();
    assert!(same(&read[0].payload, &obj(vec![("ab", text("xy"))])));
    assert_eq!(read[0].metadata.len(), 1);
    assert_eq!(read[0].metadata[0].0, "k");
}

#[test]
fn a_difference_is_one_from_either_side() {
    let a = obj(vec![("a", num(1)), ("b", Json::Array(vec![num(2)]))]);
    let b = obj(vec![("b", Json::Array(vec![num(3)])), ("a", num(1))]);
    assert_eq!(first_diff_path(&a, &a), None);
    assert_eq!(first_diff_path(&a, &b).as_deref(), Some("b[0]"));
    assert_eq!(first_diff_path(&b, &a).as_deref(), Some("b[0]"));
}

#[test]
fn members_stay_in_key_order() {
    let mut members = Vec::new();
    set_member(&mut members, "b", num(1));
    set_member(&mut members, "a", num(2));
    set_member(&mut members, "b", num(3));
    assert_eq!(members.len(), 2);
    assert_eq!(members[0].0, "a");
    assert!(same(&members[1].1, &num(3)));
}

struct Kept(Vec<(String, LogCursor)>);

impl CheckpointStore for Kept {
    fn cursors(&self) -> Cursors {
        unreachable!()
    }
    fn get(&self, consumer_id: &str) -> Result<Option<LogCursor>, Error> {
        Ok(self.0.iter().find(|(c, _)| c == consumer_id).map(|(_, p)| *p))
    }
    fn set(&mut self, consumer_id: &str, pos: LogCursor) -> Result<(), Error> {
        self.0.retain(|(c, _)| c != consumer_id);
        self.0.push((consumer_id.to_string(), pos));
        Ok(())
    }
}

#[test]
fn advance_never_moves_a_cursor_back() {
    let mut store = Kept(Vec::new());
    store.advance("c", LogCursor::from_raw(5)).unwrap();
    store.advance("c", LogCursor::from_raw(3)).unwrap();
    assert_eq!(store.get("c").unwrap(), Some(LogCursor::from_raw(5)));
    store.advance("c", LogCursor::from_raw(8)).unwrap();
    assert_eq!(store.get("c").unwrap(), Some(LogCursor::from_raw(8)));
    assert_eq!(store.clamp_ahead_of(LogCursor::from_raw(1)).unwrap(), 0);
    assert!(should_advance(None, LogCursor::zero()));
    assert!(!should_advance(Some(LogCursor::from_raw(2)), LogCursor::from_raw(2)));
}
