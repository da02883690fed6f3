use causal::aggregate::{Aggregate, Apply};
use causal::aggregate_v3;
use causal::codec::Codec;
use causal::event::{event_type_for, stream_name_for, Event};
use causal::fact::{stored_type, stream_name, Fact};
use causal::json::{Json, JsonView, Number};
use causal::text::Chars;
use causal::types::Timestamp;
use uuid::Uuid;

fn at(secs: i64) -> Timestamp {
    Timestamp { secs, nanos: 0 }
}

fn num(n: i64) -> Json {
    if n >= 0 {
        Json::Number(Number::PosInt(n as u64))
    } else {
        Json::Number(Number::NegInt(n))
    }
}

fn read_int(value: &Json, key: &str) -> Result<i64, String> {
    match value.get(key) {
        Some(Json::Number(Number::PosInt(n))) => Ok(*n as i64),
        Some(Json::Number(Number::NegInt(n))) => Ok(*n),
        _ => Err(format!("no {key}")),
    }
}

fn read_id(value: &Json, key: &str) -> Result<u128, String> {
    match value.get(key) {
        Some(Json::Str(s)) => Uuid::parse_str(s).map(|u| u.as_u128()).map_err(|e| e.to_string()),
        _ => Err(format!("no {key}")),
    }
}

fn id_json(id: u128) -> Json {
    Json::Str(Uuid::from_u128(id).to_string())
}

fn object(members: Vec<(&str, Json)>) -> Json {
    let mut list: Vec<(String, Json)> =
        members.into_iter().map(|(k, v)| (k.to_string(), v)).collect();
    list.sort_by(|a, b| a.0.cmp(&b.0));
    Json::Object(list)
}

#[derive(Debug, Clone, PartialEq)]
enum CounterFact {
    Incremented { by: i32, occurred_at: Timestamp, counter_id: u128 },
    Reset { occurred_at: Timestamp, counter_id: u128 },
}

impl Codec for CounterFact {
    fn decoded(_: JsonView) -> Option<Self> {
        unreachable!()
    }
    fn encoded(&self) -> Option<JsonView> {
        unreachable!()
    }
    fn decode(value: &Json) -> Result<Self, String> {
        let counter_id = read_id(value, "counter_id")?;
        let occurred_at = at(read_int(value, "occurred_at")?);
        match read_int(value, "by") {
            Ok(by) => Ok(CounterFact::Incremented { by: by as i32, occurred_at, counter_id }),
            Err(_) => Ok(CounterFact::Reset { occurred_at, counter_id }),
        }
    }
    fn encode(&self) -> Result<Json, String> {
        Ok(match self {
            CounterFact::Incremented { by, occurred_at, counter_id } => object(vec![
                ("by", num(*by as i64)),
                ("occurred_at", num(occurred_at.secs)),
                ("counter_id", id_json(*counter_id)),
            ]),
            CounterFact::Reset { occurred_at, counter_id } => object(vec![
                ("occurred_at", num(occurred_at.secs)),
                ("counter_id", id_json(*counter_id)),
            ]),
        })
    }
}

impl CounterFact {
    fn slug(&self) -> &str {
        match self {
            CounterFact::Incremented { .. } => "incremented",
            CounterFact::Reset { .. } => "reset",
        }
    }
    fn counter(&self) -> u128 {
        match self {
            CounterFact::Incremented { counter_id, .. } => *counter_id,
            CounterFact::Reset { counter_id, .. } => *counter_id,
        }
    }
    fn when(&self) -> Timestamp {
        match self {
            CounterFact::Incremented { occurred_at, .. } => *occurred_at,
            CounterFact::Reset { occurred_at, .. } => *occurred_at,
        }
    }
}

impl Event for CounterFact {
    fn event_type_of(&self) -> Chars {
        unreachable!()
    }
    fn subject_of(&self) -> u128 {
        unreachable!()
    }
    fn occurred_of(&self) -> Option<Timestamp> {
        unreachable!()
    }
    fn declared_of(&self) -> Option<u128> {
        unreachable!()
    }
    const CATEGORY: &'static str = "counter";
    fn event_type(&self) -> &str {
        self.slug()
    }
    fn subject_id(&self) -> u128 {
        self.counter()
    }
    fn occurred_at(&self) -> Option<Timestamp> {
        Some(self.when())
    }
    fn declared_workflow_id(&self) -> Option<u128> {
        None
    }
}

impl Fact for CounterFact {
    fn name_of(&self) -> Chars {
        unreachable!()
    }
    fn stream_of(&self) -> u128 {
        unreachable!()
    }
    fn occurred_of(&self) -> Option<Timestamp> {
        unreachable!()
    }
    const CATEGORY: &'static str = "counter";
    fn name(&self) -> &str {
        self.slug()
    }
    fn stream_id(&self) -> u128 {
        self.counter()
    }
    fn occurred_at(&self) -> Option<Timestamp> {
        Some(self.when())
    }
}

#[derive(Default, Debug, PartialEq, Clone)]
struct Counter {
    value: i32,
}

impl Aggregate for Counter {
    fn initial() -> Self {
        unreachable!()
    }
    const NAME: &'static str = "Counter";
    fn initial_state() -> Self {
        Counter::default()
    }
    fn copy_state(&self) -> Self {
        self.clone()
    }
}

impl Apply<CounterFact> for Counter {
    fn applied(&self, _: CounterFact) -> Self {
        unreachable!()
    }
    fn apply(&mut self, fact: &CounterFact) {
        match fact {
            CounterFact::Incremented { by, .. } => self.value += by,
            CounterFact::Reset { .. } => self.value = 0,
        }
    }
}

impl aggregate_v3::Aggregate for Counter {
    fn initial() -> Self {
        unreachable!()
    }
    fn applied(&self, _: Self::Fact) -> Self {
        unreachable!()
    }
    type Fact = CounterFact;
    const CATEGORY: &'static str = "counter";
    fn initial_state() -> Self {
        Counter::default()
    }
    fn apply(&mut self, fact: &CounterFact) {
        match fact {
            CounterFact::Incremented { by, .. } => self.value += by,
            CounterFact::Reset { .. } => self.value = 0,
        }
    }
}

fn counter_facts(cid: u128) -> Vec<CounterFact> {
    vec![
        CounterFact::Incremented { by: 3, occurred_at: at(1), counter_id: cid },
        CounterFact::Incremented { by: 2, occurred_at: at(2), counter_id: cid },
        CounterFact::Reset { occurred_at: at(3), counter_id: cid },
        CounterFact::Incremented { by: 5, occurred_at: at(4), counter_id: cid },
    ]
}

#[test]
fn aggregate_aggregate_apply_folds_facts_into_state() {
    let cid = Uuid::new_v4().as_u128();
    let mut agg = <Counter as Aggregate>::initial_state();
    for fact in counter_facts(cid) {
        Apply::<CounterFact>::apply(&mut agg, &fact);
    }
    assert_eq!(agg.value, 5, "fold matches manual reduction");
}

#[test]
fn aggregate_v3_aggregate_apply_folds_facts_into_state() {
    let cid = Uuid::new_v4().as_u128();
    let mut agg = <Counter as aggregate_v3::Aggregate>::initial_state();
    for fact in counter_facts(cid) {
        aggregate_v3::Aggregate::apply(&mut agg, &fact);
    }
    assert_eq!(agg.value, 5, "fold matches manual reduction");
}

#[test]
fn aggregate_category_drives_stream_name() {
    let cid = Uuid::new_v4().as_u128();
    let fact = CounterFact::Incremented { by: 1, occurred_at: at(0), counter_id: cid };
    assert_eq!(
        <CounterFact as Fact>::CATEGORY,
        <Counter as aggregate_v3::Aggregate>::CATEGORY
    );
    assert_eq!(stream_name(&fact), format!("counter-{}", Uuid::from_u128(cid)));
}

#[derive(Debug, Clone)]
struct Tagged {
    tag_id: u128,
    occurred_at: Timestamp,
}

impl Codec for Tagged {
    fn decoded(_: JsonView) -> Option<Self> {
        unreachable!()
    }
    fn encoded(&self) -> Option<JsonView> {
        unreachable!()
    }
    fn decode(value: &Json) -> Result<Self, String> {
        Ok(Tagged {
            tag_id: read_id(value, "tag_id")?,
            occurred_at: at(read_int(value, "occurred_at")?),
        })
    }
    fn encode(&self) -> Result<Json, String> {
        Ok(object(vec![
            ("tag_id", id_json(self.tag_id)),
            ("occurred_at", num(self.occurred_at.secs)),
        ]))
    }
}

impl Event for Tagged {
    fn event_type_of(&self) -> Chars {
        unreachable!()
    }
    fn subject_of(&self) -> u128 {
        unreachable!()
    }
    fn occurred_of(&self) -> Option<Timestamp> {
        unreachable!()
    }
    fn declared_of(&self) -> Option<u128> {
        unreachable!()
    }
    const CATEGORY: &'static str = "tag";
    fn event_type(&self) -> &str {
        "tagged"
    }
    fn subject_id(&self) -> u128 {
        self.tag_id
    }
    fn occurred_at(&self) -> Option<Timestamp> {
        Some(self.occurred_at)
    }
    fn declared_workflow_id(&self) -> Option<u128> {
        None
    }
}

#[derive(Default, Debug, Clone)]
struct Multi {
    increments: i32,
    tags: u32,
}

impl Aggregate for Multi {
    fn initial() -> Self {
        unreachable!()
    }
    const NAME: &'static str = "Multi";
    fn initial_state() -> Self {
        Multi::default()
    }
    fn copy_state(&self) -> Self {
        self.clone()
    }
}

impl Apply<CounterFact> for Multi {
    fn applied(&self, _: CounterFact) -> Self {
        unreachable!()
    }
    fn apply(&mut self, f: &CounterFact) {
        if let CounterFact::Incremented { by, .. } = f {
            self.increments += by;
        }
    }
}

impl Apply<Tagged> for Multi {
    fn applied(&self, _: Tagged) -> Self {
        unreachable!()
    }
    fn apply(&mut self, _f: &Tagged) {
        self.tags += 1;
    }
}

#[test]
fn aggregate_can_apply_multiple_fact_types() {
    let cid = Uuid::new_v4().as_u128();
    let mut m = Multi::default();
    Apply::<CounterFact>::apply(
        &mut m,
        &CounterFact::Incremented { by: 7, occurred_at: at(0), counter_id: cid },
    );
    Apply::<Tagged>::apply(&mut m, &Tagged { tag_id: cid, occurred_at: at(0) });
    assert_eq!(m.increments, 7);
    assert_eq!(m.tags, 1);
}

#[derive(Debug, Clone, PartialEq)]
struct ScheduleCreated {
    schedule_id: u128,
    occurred_at: Timestamp,
}

impl Codec for ScheduleCreated {
    fn decoded(_: JsonView) -> Option<Self> {
        unreachable!()
    }
    fn encoded(&self) -> Option<JsonView> {
        unreachable!()
    }
    fn decode(value: &Json) -> Result<Self, String> {
        Ok(ScheduleCreated {
            schedule_id: read_id(value, "schedule_id")?,
            occurred_at: at(read_int(value, "occurred_at")?),
        })
    }
    fn encode(&self) -> Result<Json, String> {
        Ok(object(vec![
            ("schedule_id", id_json(self.schedule_id)),
            ("occurred_at", num(self.occurred_at.secs)),
        ]))
    }
}

impl Event for ScheduleCreated {
    fn event_type_of(&self) -> Chars {
        unreachable!()
    }
    fn subject_of(&self) -> u128 {
        unreachable!()
    }
    fn occurred_of(&self) -> Option<Timestamp> {
        unreachable!()
    }
    fn declared_of(&self) -> Option<u128> {
        unreachable!()
    }
    const CATEGORY: &'static str = "schedule";
    fn event_type(&self) -> &str {
        "created"
    }
    fn subject_id(&self) -> u128 {
        self.schedule_id
    }
    fn occurred_at(&self) -> Option<Timestamp> {
        Some(self.occurred_at)
    }
    fn declared_workflow_id(&self) -> Option<u128> {
        None
    }
}

impl Fact for ScheduleCreated {
    fn name_of(&self) -> Chars {
        unreachable!()
    }
    fn stream_of(&self) -> u128 {
        unreachable!()
    }
    fn occurred_of(&self) -> Option<Timestamp> {
        unreachable!()
    }
    const CATEGORY: &'static str = "schedule";
    fn name(&self) -> &str {
        "created"
    }
    fn stream_id(&self) -> u128 {
        self.schedule_id
    }
    fn occurred_at(&self) -> Option<Timestamp> {
        Some(self.occurred_at)
    }
}

// 2026-01-01T00:00:00Z
const NEW_YEAR: i64 = 1767225600;
const SUBJECT: &str = "11111111-2222-3333-4444-555555555555";

fn schedule(id: u128) -> ScheduleCreated {
    ScheduleCreated { schedule_id: id, occurred_at: at(NEW_YEAR) }
}

fn subject() -> u128 {
    Uuid::parse_str(SUBJECT).unwrap().as_u128()
}

#[test]
fn event_fact_round_trips_via_serde() {
    let f = schedule(0);
    let json = f.encode().unwrap();
    let back = ScheduleCreated::decode(&json).unwrap();
    assert_eq!(f, back);
}

#[test]
fn fact_fact_round_trips_via_serde() {
    let f = schedule(0);
    let json = f.encode().unwrap();
    let back = ScheduleCreated::decode(&json).unwrap();
    assert_eq!(f, back);
}

#[test]
fn event_category_is_per_type_const() {
    assert_eq!(<ScheduleCreated as Event>::CATEGORY, "schedule");
}

#[test]
fn fact_category_is_per_type_const() {
    assert_eq!(<ScheduleCreated as Fact>::CATEGORY, "schedule");
}

#[test]
fn event_name_is_bare_variant_slug() {
    assert_eq!(schedule(0).event_type(), "created");
}

#[test]
fn fact_name_is_bare_variant_slug() {
    assert_eq!(schedule(0).name(), "created");
}

#[test]
fn subject_id_is_per_variant() {
    let id = subject();
    assert_eq!(schedule(id).subject_id(), id);
}

#[test]
fn stream_id_is_per_variant() {
    let id = subject();
    assert_eq!(schedule(id).stream_id(), id);
}

#[test]
fn runtime_stream_name_composes_category_dash_subject_id() {
    let id = subject();
    assert_eq!(
        stream_name_for::<ScheduleCreated>(schedule(id).subject_id()),
        format!("schedule-{}", SUBJECT)
    );
}

#[test]
fn runtime_stream_name_composes_category_dash_stream_id() {
    let f = schedule(subject());
    assert_eq!(stream_name(&f), format!("schedule-{}", SUBJECT));
}

#[test]
fn event_runtime_event_type_composes_category_colon_name() {
    assert_eq!(event_type_for(&schedule(0)), "schedule:created");
}

#[test]
fn fact_runtime_event_type_composes_category_colon_name() {
    assert_eq!(stored_type(&schedule(0)), "schedule:created");
}

#[test]
fn a_subject_of_its_own_moves_the_stream_and_keeps_the_kind() {
    struct Placed;
    impl Codec for Placed {
        fn decoded(_: JsonView) -> Option<Self> {
            unreachable!()
        }
        fn encoded(&self) -> Option<JsonView> {
            unreachable!()
        }
        fn decode(_: &Json) -> Result<Self, String> {
            Ok(Placed)
        }
        fn encode(&self) -> Result<Json, String> {
            Ok(Json::Null)
        }
    }
    impl Event for Placed {
        fn event_type_of(&self) -> Chars {
            unreachable!()
        }
        fn subject_of(&self) -> u128 {
            unreachable!()
        }
        fn occurred_of(&self) -> Option<Timestamp> {
            unreachable!()
        }
        fn declared_of(&self) -> Option<u128> {
            unreachable!()
        }
        const CATEGORY: &'static str = "placed";
        const SUBJECT: &'static str = "order";
        fn event_type(&self) -> &str {
            "placed"
        }
        fn subject_id(&self) -> u128 {
            1
        }
        fn occurred_at(&self) -> Option<Timestamp> {
            None
        }
        fn declared_workflow_id(&self) -> Option<u128> {
            None
        }
    }
    assert_eq!(<Placed as Event>::NAME, "placed");
    assert_eq!(
        stream_name_for::<Placed>(1),
        "order-00000000-0000-0000-0000-000000000001"
    );
}
