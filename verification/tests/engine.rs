// The ghost methods of the traits are never run.
use causal::aggregate::{Aggregate, Apply};
use causal::aggregator::{Aggregator, FoldFns, IdFn, TypedFold};
use causal::any_materializer::ensure_hydrated;
use causal::clock::{Clock, FixedClock, SystemClock};
use causal::codec::Codec;
use causal::decider::{after_conflict, append, back_off, load, AppendStart, MAX_OCC_RETRIES};
use causal::emit::{coordinates_of, emit_result, EmitBuilder, EmitInput, EmitResult, EmitStart};
use causal::engine::{needs_latest, seed_for, Engine, EngineBuilder, StartPosition};
use causal::event::Event;
use causal::event_log::{AppendRequest, ConflictError};
use causal::event_type::matches_kind;
use causal::failure::Error;
use causal::fold_on_read::{fold_bounded, fold_bounded_start, FoldOnReadCache};
use causal::fold_session::{FoldSession, FoldStep};
use causal::json::{set_member, Json, JsonView, Number};
use causal::registry::AggregatorRegistry;
use causal::settle::{
    is_observed, settle, settle_target, ChildScan, SettleStep, SettleTracker, TreeSettle,
    SETTLE_TRACKER_CAP,
};
use causal::text::Chars;
use causal::types::{
    LogCursor, Metadata, RecordedEvent, StreamRevision, StreamState, Timestamp, WriteResult,
};
use std::any::Any;
use std::collections::HashSet;
use uuid::Uuid;

fn now() -> Timestamp {
    SystemClock.now()
}

fn fresh() -> u128 {
    Uuid::new_v4().as_u128()
}

fn num(n: i64) -> Json {
    if n >= 0 {
        Json::Number(Number::PosInt(n as u64))
    } else {
        Json::Number(Number::NegInt(n))
    }
}

fn text(s: &str) -> Json {
    Json::Str(s.to_string())
}

fn id_json(id: u128) -> Json {
    text(&Uuid::from_u128(id).to_string())
}

fn time_json(at: Timestamp) -> Json {
    obj(vec![("nanos", num(at.nanos as i64)), ("secs", num(at.secs))])
}

fn obj(members: Vec<(&str, Json)>) -> Json {
    let mut list = Vec::new();
    for (k, v) in members {
        set_member(&mut list, k, v);
    }
    Json::Object(list)
}

fn read_num(value: &Json, key: &str) -> Result<i64, String> {
    match value.get(key) {
        Some(Json::Number(Number::PosInt(n))) => Ok(*n as i64),
        Some(Json::Number(Number::NegInt(n))) => Ok(*n),
        _ => Err(format!("no {key}")),
    }
}

fn read_id(value: &Json, key: &str) -> Result<u128, String> {
    match value.get(key) {
        Some(Json::Str(s)) => Uuid::parse_str(s).map(|u| u.as_u128()).map_err(|e| e.to_string()),
        _ => Err(format!("no {key}")),
    }
}

fn read_time(value: &Json) -> Result<Timestamp, String> {
    let at = value.get("occurred_at").ok_or("no occurred_at".to_string())?;
    Ok(Timestamp { secs: read_num(at, "secs")?, nanos: read_num(at, "nanos")? as u32 })
}

#[derive(Debug, Clone)]
struct UserCreated {
    user_id: u128,
    occurred_at: Timestamp,
}

impl Codec for UserCreated {
    fn decoded(_: JsonView) -> Option<Self> {
        unreachable!()
    }
    fn encoded(&self) -> Option<JsonView> {
        unreachable!()
    }
    fn decode(value: &Json) -> Result<Self, String> {
        Ok(UserCreated { user_id: read_id(value, "user_id")?, occurred_at: read_time(value)? })
    }
    fn encode(&self) -> Result<Json, String> {
        Ok(obj(vec![("user_id", id_json(self.user_id)), ("occurred_at", time_json(self.occurred_at))]))
    }
}

impl Event for UserCreated {
    const CATEGORY: &'static str = "user_created";
    fn event_type_of(&self) -> Chars {
        unreachable!()
    }
    fn subject_of(&self) -> u128 {
        unreachable!()
    }
    fn occurred_of(&self) -> Option<Timestamp> {
        unreachable!()
    }
    fn declared_of(&self) -> Option<u128> {
        unreachable!()
    }
    fn event_type(&self) -> &str {
        Self::CATEGORY
    }
    fn subject_id(&self) -> u128 {
        self.user_id
    }
    fn occurred_at(&self) -> Option<Timestamp> {
        Some(self.occurred_at)
    }
    fn declared_workflow_id(&self) -> Option<u128> {
        None
    }
}

#[derive(Debug, Clone)]
struct WelcomeQueued {
    user_id: u128,
}

impl Codec for WelcomeQueued {
    fn decoded(_: JsonView) -> Option<Self> {
        unreachable!()
    }
    fn encoded(&self) -> Option<JsonView> {
        unreachable!()
    }
    fn decode(value: &Json) -> Result<Self, String> {
        Ok(WelcomeQueued { user_id: read_id(value, "user_id")? })
    }
    fn encode(&self) -> Result<Json, String> {
        Ok(obj(vec![("user_id", id_json(self.user_id))]))
    }
}

impl Event for WelcomeQueued {
    const CATEGORY: &'static str = "welcome_queued";
    fn event_type_of(&self) -> Chars {
        unreachable!()
    }
    fn subject_of(&self) -> u128 {
        unreachable!()
    }
    fn occurred_of(&self) -> Option<Timestamp> {
        unreachable!()
    }
    fn declared_of(&self) -> Option<u128> {
        unreachable!()
    }
    fn event_type(&self) -> &str {
        Self::CATEGORY
    }
    fn subject_id(&self) -> u128 {
        self.user_id
    }
    fn occurred_at(&self) -> Option<Timestamp> {
        None
    }
    fn declared_workflow_id(&self) -> Option<u128> {
        None
    }
}

#[derive(Debug, Clone)]
struct OrgUserCreated {
    user_id: u128,
    org_id: u128,
    occurred_at: Timestamp,
}

impl Codec for OrgUserCreated {
    fn decoded(_: JsonView) -> Option<Self> {
        unreachable!()
    }
    fn encoded(&self) -> Option<JsonView> {
        unreachable!()
    }
    fn decode(value: &Json) -> Result<Self, String> {
        Ok(OrgUserCreated { user_id: read_id(value, "user_id")?, org_id: read_id(value, "org_id")?, occurred_at: read_time(value)? })
    }
    fn encode(&self) -> Result<Json, String> {
        Ok(obj(vec![("user_id", id_json(self.user_id)), ("org_id", id_json(self.org_id)), ("occurred_at", time_json(self.occurred_at))]))
    }
}

impl Event for OrgUserCreated {
    const CATEGORY: &'static str = "org_user_created";
    fn event_type_of(&self) -> Chars {
        unreachable!()
    }
    fn subject_of(&self) -> u128 {
        unreachable!()
    }
    fn occurred_of(&self) -> Option<Timestamp> {
        unreachable!()
    }
    fn declared_of(&self) -> Option<u128> {
        unreachable!()
    }
    fn event_type(&self) -> &str {
        Self::CATEGORY
    }
    fn subject_id(&self) -> u128 {
        self.user_id
    }
    fn occurred_at(&self) -> Option<Timestamp> {
        Some(self.occurred_at)
    }
    fn declared_workflow_id(&self) -> Option<u128> {
        None
    }
}

#[derive(Debug, Clone)]
struct MaybeRunEvent {
    subject_id: u128,
    run_id: Option<u128>,
    occurred_at: Timestamp,
}

impl Codec for MaybeRunEvent {
    fn decoded(_: JsonView) -> Option<Self> {
        unreachable!()
    }
    fn encoded(&self) -> Option<JsonView> {
        unreachable!()
    }
    fn decode(value: &Json) -> Result<Self, String> {
        Ok(MaybeRunEvent { subject_id: read_id(value, "subject_id")?, run_id: read_id(value, "run_id").ok(), occurred_at: read_time(value)? })
    }
    fn encode(&self) -> Result<Json, String> {
        Ok(obj(vec![("subject_id", id_json(self.subject_id)), ("run_id", self.run_id.map_or(Json::Null, id_json)), ("occurred_at", time_json(self.occurred_at))]))
    }
}

impl Event for MaybeRunEvent {
    const CATEGORY: &'static str = "maybe_run_event";
    fn event_type_of(&self) -> Chars {
        unreachable!()
    }
    fn subject_of(&self) -> u128 {
        unreachable!()
    }
    fn occurred_of(&self) -> Option<Timestamp> {
        unreachable!()
    }
    fn declared_of(&self) -> Option<u128> {
        unreachable!()
    }
    fn event_type(&self) -> &str {
        Self::CATEGORY
    }
    fn subject_id(&self) -> u128 {
        self.subject_id
    }
    fn occurred_at(&self) -> Option<Timestamp> {
        Some(self.occurred_at)
    }
    fn declared_workflow_id(&self) -> Option<u128> {
        None
    }
}

#[derive(Debug, Clone)]
struct TaggedEvent {
    event_id: u128,
    tag_id: u128,
    occurred_at: Timestamp,
}

impl Codec for TaggedEvent {
    fn decoded(_: JsonView) -> Option<Self> {
        unreachable!()
    }
    fn encoded(&self) -> Option<JsonView> {
        unreachable!()
    }
    fn decode(value: &Json) -> Result<Self, String> {
        Ok(TaggedEvent { event_id: read_id(value, "event_id")?, tag_id: read_id(value, "tag_id")?, occurred_at: read_time(value)? })
    }
    fn encode(&self) -> Result<Json, String> {
        Ok(obj(vec![("event_id", id_json(self.event_id)), ("tag_id", id_json(self.tag_id)), ("occurred_at", time_json(self.occurred_at))]))
    }
}

impl Event for TaggedEvent {
    const CATEGORY: &'static str = "tagged";
    fn event_type_of(&self) -> Chars {
        unreachable!()
    }
    fn subject_of(&self) -> u128 {
        unreachable!()
    }
    fn occurred_of(&self) -> Option<Timestamp> {
        unreachable!()
    }
    fn declared_of(&self) -> Option<u128> {
        unreachable!()
    }
    fn event_type(&self) -> &str {
        Self::CATEGORY
    }
    fn subject_id(&self) -> u128 {
        self.event_id
    }
    fn occurred_at(&self) -> Option<Timestamp> {
        Some(self.occurred_at)
    }
    fn declared_workflow_id(&self) -> Option<u128> {
        None
    }
}

#[derive(Debug, Clone)]
struct OrderPlaced {
    order_id: u128,
    occurred_at: Timestamp,
}

impl Codec for OrderPlaced {
    fn decoded(_: JsonView) -> Option<Self> {
        unreachable!()
    }
    fn encoded(&self) -> Option<JsonView> {
        unreachable!()
    }
    fn decode(value: &Json) -> Result<Self, String> {
        Ok(OrderPlaced { order_id: read_id(value, "order_id")?, occurred_at: read_time(value)? })
    }
    fn encode(&self) -> Result<Json, String> {
        Ok(obj(vec![("order_id", id_json(self.order_id)), ("occurred_at", time_json(self.occurred_at))]))
    }
}

impl Event for OrderPlaced {
    const CATEGORY: &'static str = "order_placed";
    fn event_type_of(&self) -> Chars {
        unreachable!()
    }
    fn subject_of(&self) -> u128 {
        unreachable!()
    }
    fn occurred_of(&self) -> Option<Timestamp> {
        unreachable!()
    }
    fn declared_of(&self) -> Option<u128> {
        unreachable!()
    }
    fn event_type(&self) -> &str {
        Self::CATEGORY
    }
    fn subject_id(&self) -> u128 {
        self.order_id
    }
    fn occurred_at(&self) -> Option<Timestamp> {
        Some(self.occurred_at)
    }
    fn declared_workflow_id(&self) -> Option<u128> {
        None
    }
}

#[derive(Debug, Clone)]
struct Deposited {
    account: u128,
    amount: i64,
}

impl Codec for Deposited {
    fn decoded(_: JsonView) -> Option<Self> {
        unreachable!()
    }
    fn encoded(&self) -> Option<JsonView> {
        unreachable!()
    }
    fn decode(value: &Json) -> Result<Self, String> {
        Ok(Deposited { account: read_id(value, "account")?, amount: read_num(value, "amount")? })
    }
    fn encode(&self) -> Result<Json, String> {
        Ok(obj(vec![("account", id_json(self.account)), ("amount", num(self.amount))]))
    }
}

impl Event for Deposited {
    const CATEGORY: &'static str = "deposited";
    const SUBJECT: &'static str = "account";
    fn event_type_of(&self) -> Chars {
        unreachable!()
    }
    fn subject_of(&self) -> u128 {
        unreachable!()
    }
    fn occurred_of(&self) -> Option<Timestamp> {
        unreachable!()
    }
    fn declared_of(&self) -> Option<u128> {
        unreachable!()
    }
    fn event_type(&self) -> &str {
        Self::CATEGORY
    }
    fn subject_id(&self) -> u128 {
        self.account
    }
    fn occurred_at(&self) -> Option<Timestamp> {
        None
    }
    fn declared_workflow_id(&self) -> Option<u128> {
        None
    }
}

#[derive(Debug, Clone)]
struct Withdrawn {
    account: u128,
    amount: i64,
}

impl Codec for Withdrawn {
    fn decoded(_: JsonView) -> Option<Self> {
        unreachable!()
    }
    fn encoded(&self) -> Option<JsonView> {
        unreachable!()
    }
    fn decode(value: &Json) -> Result<Self, String> {
        Ok(Withdrawn { account: read_id(value, "account")?, amount: read_num(value, "amount")? })
    }
    fn encode(&self) -> Result<Json, String> {
        Ok(obj(vec![("account", id_json(self.account)), ("amount", num(self.amount))]))
    }
}

impl Event for Withdrawn {
    const CATEGORY: &'static str = "withdrawn";
    const SUBJECT: &'static str = "account";
    fn event_type_of(&self) -> Chars {
        unreachable!()
    }
    fn subject_of(&self) -> u128 {
        unreachable!()
    }
    fn occurred_of(&self) -> Option<Timestamp> {
        unreachable!()
    }
    fn declared_of(&self) -> Option<u128> {
        unreachable!()
    }
    fn event_type(&self) -> &str {
        Self::CATEGORY
    }
    fn subject_id(&self) -> u128 {
        self.account
    }
    fn occurred_at(&self) -> Option<Timestamp> {
        None
    }
    fn declared_workflow_id(&self) -> Option<u128> {
        None
    }
}

#[derive(Debug, Clone)]
struct Tick {
    seq: i64,
    occurred_at: Timestamp,
}

impl Codec for Tick {
    fn decoded(_: JsonView) -> Option<Self> {
        unreachable!()
    }
    fn encoded(&self) -> Option<JsonView> {
        unreachable!()
    }
    fn decode(value: &Json) -> Result<Self, String> {
        Ok(Tick { seq: read_num(value, "seq")?, occurred_at: read_time(value)? })
    }
    fn encode(&self) -> Result<Json, String> {
        Ok(obj(vec![("seq", num(self.seq)), ("occurred_at", time_json(self.occurred_at))]))
    }
}

impl Event for Tick {
    const CATEGORY: &'static str = "tick";
    fn event_type_of(&self) -> Chars {
        unreachable!()
    }
    fn subject_of(&self) -> u128 {
        unreachable!()
    }
    fn occurred_of(&self) -> Option<Timestamp> {
        unreachable!()
    }
    fn declared_of(&self) -> Option<u128> {
        unreachable!()
    }
    fn event_type(&self) -> &str {
        Self::CATEGORY
    }
    fn subject_id(&self) -> u128 {
        0
    }
    fn occurred_at(&self) -> Option<Timestamp> {
        Some(self.occurred_at)
    }
    fn declared_workflow_id(&self) -> Option<u128> {
        None
    }
}

#[derive(Debug, Clone)]
struct Pong {
    pong_id: u128,
    occurred_at: Timestamp,
}

impl Codec for Pong {
    fn decoded(_: JsonView) -> Option<Self> {
        unreachable!()
    }
    fn encoded(&self) -> Option<JsonView> {
        unreachable!()
    }
    fn decode(value: &Json) -> Result<Self, String> {
        Ok(Pong { pong_id: read_id(value, "pong_id")?, occurred_at: read_time(value)? })
    }
    fn encode(&self) -> Result<Json, String> {
        Ok(obj(vec![("pong_id", id_json(self.pong_id)), ("occurred_at", time_json(self.occurred_at))]))
    }
}

impl Event for Pong {
    const CATEGORY: &'static str = "pong";
    fn event_type_of(&self) -> Chars {
        unreachable!()
    }
    fn subject_of(&self) -> u128 {
        unreachable!()
    }
    fn occurred_of(&self) -> Option<Timestamp> {
        unreachable!()
    }
    fn declared_of(&self) -> Option<u128> {
        unreachable!()
    }
    fn event_type(&self) -> &str {
        Self::CATEGORY
    }
    fn subject_id(&self) -> u128 {
        self.pong_id
    }
    fn occurred_at(&self) -> Option<Timestamp> {
        Some(self.occurred_at)
    }
    fn declared_workflow_id(&self) -> Option<u128> {
        None
    }
}

#[derive(Debug, Clone)]
struct Weird {
    id: u128,
}

impl Codec for Weird {
    fn decoded(_: JsonView) -> Option<Self> {
        unreachable!()
    }
    fn encoded(&self) -> Option<JsonView> {
        unreachable!()
    }
    fn decode(value: &Json) -> Result<Self, String> {
        Ok(Weird { id: read_id(value, "id")? })
    }
    fn encode(&self) -> Result<Json, String> {
        Ok(obj(vec![("id", id_json(self.id))]))
    }
}

impl Event for Weird {
    const CATEGORY: &'static str = "";
    fn event_type_of(&self) -> Chars {
        unreachable!()
    }
    fn subject_of(&self) -> u128 {
        unreachable!()
    }
    fn occurred_of(&self) -> Option<Timestamp> {
        unreachable!()
    }
    fn declared_of(&self) -> Option<u128> {
        unreachable!()
    }
    fn event_type(&self) -> &str {
        Self::CATEGORY
    }
    fn subject_id(&self) -> u128 {
        self.id
    }
    fn occurred_at(&self) -> Option<Timestamp> {
        None
    }
    fn declared_workflow_id(&self) -> Option<u128> {
        None
    }
}

#[derive(Debug, Clone)]
struct RunStarted {
    run_id: u128,
}

impl Codec for RunStarted {
    fn decoded(_: JsonView) -> Option<Self> {
        unreachable!()
    }
    fn encoded(&self) -> Option<JsonView> {
        unreachable!()
    }
    fn decode(value: &Json) -> Result<Self, String> {
        Ok(RunStarted { run_id: read_id(value, "run_id")? })
    }
    fn encode(&self) -> Result<Json, String> {
        Ok(obj(vec![("run_id", id_json(self.run_id))]))
    }
}

impl Event for RunStarted {
    const CATEGORY: &'static str = "run_started";
    fn event_type_of(&self) -> Chars {
        unreachable!()
    }
    fn subject_of(&self) -> u128 {
        unreachable!()
    }
    fn occurred_of(&self) -> Option<Timestamp> {
        unreachable!()
    }
    fn declared_of(&self) -> Option<u128> {
        unreachable!()
    }
    fn event_type(&self) -> &str {
        Self::CATEGORY
    }
    fn subject_id(&self) -> u128 {
        self.run_id
    }
    fn occurred_at(&self) -> Option<Timestamp> {
        None
    }
    fn declared_workflow_id(&self) -> Option<u128> {
        Some(self.run_id)
    }
}

#[derive(Debug, Clone)]
enum CounterFact {
    Inc { by: i64, occurred_at: Timestamp, counter_id: u128 },
    Reset { occurred_at: Timestamp, counter_id: u128 },
}

impl Codec for CounterFact {
    fn decoded(_: JsonView) -> Option<Self> {
        unreachable!()
    }
    fn encoded(&self) -> Option<JsonView> {
        unreachable!()
    }
    fn decode(value: &Json) -> Result<Self, String> {
        if let Some(inc) = value.get("Inc") {
            Ok(CounterFact::Inc {
                by: read_num(inc, "by")?,
                occurred_at: read_time(inc)?,
                counter_id: read_id(inc, "counter_id")?,
            })
        } else {
            let reset = value.get("Reset").ok_or("no variant".to_string())?;
            Ok(CounterFact::Reset {
                occurred_at: read_time(reset)?,
                counter_id: read_id(reset, "counter_id")?,
            })
        }
    }
    fn encode(&self) -> Result<Json, String> {
        Ok(match self {
            CounterFact::Inc { by, occurred_at, counter_id } => obj(vec![(
                "Inc",
                obj(vec![
                    ("by", num(*by)),
                    ("occurred_at", time_json(*occurred_at)),
                    ("counter_id", id_json(*counter_id)),
                ]),
            )]),
            CounterFact::Reset { occurred_at, counter_id } => obj(vec![(
                "Reset",
                obj(vec![
                    ("occurred_at", time_json(*occurred_at)),
                    ("counter_id", id_json(*counter_id)),
                ]),
            )]),
        })
    }
}

impl Event for CounterFact {
    const CATEGORY: &'static str = "counter";
    fn event_type_of(&self) -> Chars {
        unreachable!()
    }
    fn subject_of(&self) -> u128 {
        unreachable!()
    }
    fn occurred_of(&self) -> Option<Timestamp> {
        unreachable!()
    }
    fn declared_of(&self) -> Option<u128> {
        unreachable!()
    }
    fn event_type(&self) -> &str {
        Self::CATEGORY
    }
    fn subject_id(&self) -> u128 {
        match self {
            CounterFact::Inc { counter_id, .. } => *counter_id,
            CounterFact::Reset { counter_id, .. } => *counter_id,
        }
    }
    fn occurred_at(&self) -> Option<Timestamp> {
        Some(match self {
            CounterFact::Inc { occurred_at, .. } => *occurred_at,
            CounterFact::Reset { occurred_at, .. } => *occurred_at,
        })
    }
    fn declared_workflow_id(&self) -> Option<u128> {
        None
    }
}

#[derive(Clone, Debug, PartialEq)]
struct Counter {
    value: i64,
}

impl Codec for Counter {
    fn decoded(_: JsonView) -> Option<Self> {
        unreachable!()
    }
    fn encoded(&self) -> Option<JsonView> {
        unreachable!()
    }
    fn decode(value: &Json) -> Result<Self, String> {
        Ok(Counter { value: read_num(value, "value")? })
    }
    fn encode(&self) -> Result<Json, String> {
        Ok(obj(vec![("value", num(self.value))]))
    }
}

impl Aggregate for Counter {
    const NAME: &'static str = "Counter";
    fn initial() -> Self {
        unreachable!()
    }
    fn initial_state() -> Self {
        Counter { value: 0 }
    }
    fn copy_state(&self) -> Self {
        self.clone()
    }
}

impl Apply<CounterFact> for Counter {
    fn applied(&self, _: CounterFact) -> Self {
        unreachable!()
    }
    fn apply(&mut self, fact: &CounterFact) {
        match fact {
            CounterFact::Inc { by, .. } => self.value += by,
            CounterFact::Reset { .. } => self.value = 0,
        }
    }
}

#[derive(Clone, Debug, PartialEq)]
struct GuardedCounter {
    value: i64,
}

impl Codec for GuardedCounter {
    fn decoded(_: JsonView) -> Option<Self> {
        unreachable!()
    }
    fn encoded(&self) -> Option<JsonView> {
        unreachable!()
    }
    fn decode(value: &Json) -> Result<Self, String> {
        Ok(GuardedCounter { value: read_num(value, "value")? })
    }
    fn encode(&self) -> Result<Json, String> {
        Ok(obj(vec![("value", num(self.value))]))
    }
}

impl Aggregate for GuardedCounter {
    const NAME: &'static str = "GuardedCounter";
    const INVARIANT: bool = true;
    fn initial() -> Self {
        unreachable!()
    }
    fn initial_state() -> Self {
        GuardedCounter { value: 0 }
    }
    fn copy_state(&self) -> Self {
        self.clone()
    }
}

impl Apply<CounterFact> for GuardedCounter {
    fn applied(&self, _: CounterFact) -> Self {
        unreachable!()
    }
    fn apply(&mut self, fact: &CounterFact) {
        match fact {
            CounterFact::Inc { by, .. } => self.value += by,
            CounterFact::Reset { .. } => self.value = 0,
        }
    }
}

#[derive(Clone, Debug, PartialEq)]
struct Balance {
    value: i64,
}

impl Codec for Balance {
    fn decoded(_: JsonView) -> Option<Self> {
        unreachable!()
    }
    fn encoded(&self) -> Option<JsonView> {
        unreachable!()
    }
    fn decode(value: &Json) -> Result<Self, String> {
        Ok(Balance { value: read_num(value, "value")? })
    }
    fn encode(&self) -> Result<Json, String> {
        Ok(obj(vec![("value", num(self.value))]))
    }
}

impl Aggregate for Balance {
    const NAME: &'static str = "Balance";
    const SUBJECT: &'static str = "account";
    fn initial() -> Self {
        unreachable!()
    }
    fn initial_state() -> Self {
        Balance { value: 0 }
    }
    fn copy_state(&self) -> Self {
        self.clone()
    }
}

impl Apply<Deposited> for Balance {
    fn applied(&self, _: Deposited) -> Self {
        unreachable!()
    }
    fn apply(&mut self, d: &Deposited) {
        self.value += d.amount;
    }
}

impl Apply<Withdrawn> for Balance {
    fn applied(&self, _: Withdrawn) -> Self {
        unreachable!()
    }
    fn apply(&mut self, w: &Withdrawn) {
        self.value -= w.amount;
    }
}

#[derive(Clone, Debug, PartialEq)]
struct UserCount {
    n: u32,
}

impl Codec for UserCount {
    fn decoded(_: JsonView) -> Option<Self> {
        unreachable!()
    }
    fn encoded(&self) -> Option<JsonView> {
        unreachable!()
    }
    fn decode(value: &Json) -> Result<Self, String> {
        Ok(UserCount { n: read_num(value, "n")? as u32 })
    }
    fn encode(&self) -> Result<Json, String> {
        Ok(obj(vec![("n", num(self.n as i64))]))
    }
}

impl Aggregate for UserCount {
    const NAME: &'static str = "UserCount";
    fn initial() -> Self {
        unreachable!()
    }
    fn initial_state() -> Self {
        UserCount { n: 0 }
    }
    fn copy_state(&self) -> Self {
        self.clone()
    }
}

impl Apply<OrgUserCreated> for UserCount {
    fn applied(&self, _: OrgUserCreated) -> Self {
        unreachable!()
    }
    fn apply(&mut self, _: &OrgUserCreated) {
        self.n += 1;
    }
}

#[derive(Clone, Debug, PartialEq)]
struct OrgCount {
    n: u32,
}

impl Codec for OrgCount {
    fn decoded(_: JsonView) -> Option<Self> {
        unreachable!()
    }
    fn encoded(&self) -> Option<JsonView> {
        unreachable!()
    }
    fn decode(value: &Json) -> Result<Self, String> {
        Ok(OrgCount { n: read_num(value, "n")? as u32 })
    }
    fn encode(&self) -> Result<Json, String> {
        Ok(obj(vec![("n", num(self.n as i64))]))
    }
}

impl Aggregate for OrgCount {
    const NAME: &'static str = "OrgCount";
    fn initial() -> Self {
        unreachable!()
    }
    fn initial_state() -> Self {
        OrgCount { n: 0 }
    }
    fn copy_state(&self) -> Self {
        self.clone()
    }
}

impl Apply<OrgUserCreated> for OrgCount {
    fn applied(&self, _: OrgUserCreated) -> Self {
        unreachable!()
    }
    fn apply(&mut self, _: &OrgUserCreated) {
        self.n += 1;
    }
}

#[derive(Clone, Debug, PartialEq)]
struct RunCounter {
    n: u32,
}

impl Codec for RunCounter {
    fn decoded(_: JsonView) -> Option<Self> {
        unreachable!()
    }
    fn encoded(&self) -> Option<JsonView> {
        unreachable!()
    }
    fn decode(value: &Json) -> Result<Self, String> {
        Ok(RunCounter { n: read_num(value, "n")? as u32 })
    }
    fn encode(&self) -> Result<Json, String> {
        Ok(obj(vec![("n", num(self.n as i64))]))
    }
}

impl Aggregate for RunCounter {
    const NAME: &'static str = "RunCounter";
    fn initial() -> Self {
        unreachable!()
    }
    fn initial_state() -> Self {
        RunCounter { n: 0 }
    }
    fn copy_state(&self) -> Self {
        self.clone()
    }
}

impl Apply<MaybeRunEvent> for RunCounter {
    fn applied(&self, _: MaybeRunEvent) -> Self {
        unreachable!()
    }
    fn apply(&mut self, _: &MaybeRunEvent) {
        self.n += 1;
    }
}

#[derive(Clone, Debug, PartialEq)]
struct TagBucket {
    count: u32,
}

impl Codec for TagBucket {
    fn decoded(_: JsonView) -> Option<Self> {
        unreachable!()
    }
    fn encoded(&self) -> Option<JsonView> {
        unreachable!()
    }
    fn decode(value: &Json) -> Result<Self, String> {
        Ok(TagBucket { count: read_num(value, "count")? as u32 })
    }
    fn encode(&self) -> Result<Json, String> {
        Ok(obj(vec![("count", num(self.count as i64))]))
    }
}

impl Aggregate for TagBucket {
    const NAME: &'static str = "TagBucket";
    fn initial() -> Self {
        unreachable!()
    }
    fn initial_state() -> Self {
        TagBucket { count: 0 }
    }
    fn copy_state(&self) -> Self {
        self.clone()
    }
}

impl Apply<TaggedEvent> for TagBucket {
    fn applied(&self, _: TaggedEvent) -> Self {
        unreachable!()
    }
    fn apply(&mut self, _: &TaggedEvent) {
        self.count += 1;
    }
}

#[derive(Clone, Debug, PartialEq)]
struct UserAgg {
    n: u32,
}

impl Codec for UserAgg {
    fn decoded(_: JsonView) -> Option<Self> {
        unreachable!()
    }
    fn encoded(&self) -> Option<JsonView> {
        unreachable!()
    }
    fn decode(value: &Json) -> Result<Self, String> {
        Ok(UserAgg { n: read_num(value, "n")? as u32 })
    }
    fn encode(&self) -> Result<Json, String> {
        Ok(obj(vec![("n", num(self.n as i64))]))
    }
}

impl Aggregate for UserAgg {
    const NAME: &'static str = "UserAgg";
    fn initial() -> Self {
        unreachable!()
    }
    fn initial_state() -> Self {
        UserAgg { n: 0 }
    }
    fn copy_state(&self) -> Self {
        self.clone()
    }
}

impl Apply<UserCreated> for UserAgg {
    fn applied(&self, _: UserCreated) -> Self {
        unreachable!()
    }
    fn apply(&mut self, _: &UserCreated) {
        self.n += 1;
    }
}

#[derive(Clone, Debug, PartialEq)]
struct TickCounter {
    count: u32,
}

impl Codec for TickCounter {
    fn decoded(_: JsonView) -> Option<Self> {
        unreachable!()
    }
    fn encoded(&self) -> Option<JsonView> {
        unreachable!()
    }
    fn decode(value: &Json) -> Result<Self, String> {
        Ok(TickCounter { count: read_num(value, "count")? as u32 })
    }
    fn encode(&self) -> Result<Json, String> {
        Ok(obj(vec![("count", num(self.count as i64))]))
    }
}

impl Aggregate for TickCounter {
    const NAME: &'static str = "TickCounter";
    fn initial() -> Self {
        unreachable!()
    }
    fn initial_state() -> Self {
        TickCounter { count: 0 }
    }
    fn copy_state(&self) -> Self {
        self.clone()
    }
}

impl Apply<Tick> for TickCounter {
    fn applied(&self, _: Tick) -> Self {
        unreachable!()
    }
    fn apply(&mut self, _: &Tick) {
        self.count += 1;
    }
}

#[derive(Clone, Debug, PartialEq)]
struct OtherCounter {
    count: u32,
}

impl Codec for OtherCounter {
    fn decoded(_: JsonView) -> Option<Self> {
        unreachable!()
    }
    fn encoded(&self) -> Option<JsonView> {
        unreachable!()
    }
    fn decode(value: &Json) -> Result<Self, String> {
        Ok(OtherCounter { count: read_num(value, "count")? as u32 })
    }
    fn encode(&self) -> Result<Json, String> {
        Ok(obj(vec![("count", num(self.count as i64))]))
    }
}

impl Aggregate for OtherCounter {
    const NAME: &'static str = "OtherCounter";
    fn initial() -> Self {
        unreachable!()
    }
    fn initial_state() -> Self {
        OtherCounter { count: 0 }
    }
    fn copy_state(&self) -> Self {
        self.clone()
    }
}

impl Apply<Tick> for OtherCounter {
    fn applied(&self, _: Tick) -> Self {
        unreachable!()
    }
    fn apply(&mut self, _: &Tick) {
        self.count += 1;
    }
}

#[derive(Clone, Debug, PartialEq)]
struct Multi {
    hits: u32,
}

impl Codec for Multi {
    fn decoded(_: JsonView) -> Option<Self> {
        unreachable!()
    }
    fn encoded(&self) -> Option<JsonView> {
        unreachable!()
    }
    fn decode(value: &Json) -> Result<Self, String> {
        Ok(Multi { hits: read_num(value, "hits")? as u32 })
    }
    fn encode(&self) -> Result<Json, String> {
        Ok(obj(vec![("hits", num(self.hits as i64))]))
    }
}

impl Aggregate for Multi {
    const NAME: &'static str = "Multi";
    fn initial() -> Self {
        unreachable!()
    }
    fn initial_state() -> Self {
        Multi { hits: 0 }
    }
    fn copy_state(&self) -> Self {
        self.clone()
    }
}

impl Apply<Tick> for Multi {
    fn applied(&self, _: Tick) -> Self {
        unreachable!()
    }
    fn apply(&mut self, _: &Tick) {
        self.hits += 1;
    }
}

impl Apply<Pong> for Multi {
    fn applied(&self, _: Pong) -> Self {
        unreachable!()
    }
    fn apply(&mut self, _: &Pong) {
        self.hits += 1;
    }
}

#[derive(Clone, Debug, PartialEq)]
struct WeirdAgg {
    n: u32,
}

impl Codec for WeirdAgg {
    fn decoded(_: JsonView) -> Option<Self> {
        unreachable!()
    }
    fn encoded(&self) -> Option<JsonView> {
        unreachable!()
    }
    fn decode(value: &Json) -> Result<Self, String> {
        Ok(WeirdAgg { n: read_num(value, "n")? as u32 })
    }
    fn encode(&self) -> Result<Json, String> {
        Ok(obj(vec![("n", num(self.n as i64))]))
    }
}

impl Aggregate for WeirdAgg {
    const NAME: &'static str = "WeirdAgg";
    fn initial() -> Self {
        unreachable!()
    }
    fn initial_state() -> Self {
        WeirdAgg { n: 0 }
    }
    fn copy_state(&self) -> Self {
        self.clone()
    }
}

impl Apply<Weird> for WeirdAgg {
    fn applied(&self, _: Weird) -> Self {
        unreachable!()
    }
    fn apply(&mut self, _: &Weird) {
        self.n += 1;
    }
}

#[derive(Clone, Debug, PartialEq)]
struct ChainCount {
    applied: u32,
}

impl Codec for ChainCount {
    fn decoded(_: JsonView) -> Option<Self> {
        unreachable!()
    }
    fn encoded(&self) -> Option<JsonView> {
        unreachable!()
    }
    fn decode(value: &Json) -> Result<Self, String> {
        Ok(ChainCount { applied: read_num(value, "applied")? as u32 })
    }
    fn encode(&self) -> Result<Json, String> {
        Ok(obj(vec![("applied", num(self.applied as i64))]))
    }
}

impl Aggregate for ChainCount {
    const NAME: &'static str = "ChainCount";
    fn initial() -> Self {
        unreachable!()
    }
    fn initial_state() -> Self {
        ChainCount { applied: 0 }
    }
    fn copy_state(&self) -> Self {
        self.clone()
    }
}

impl Apply<UserCreated> for ChainCount {
    fn applied(&self, _: UserCreated) -> Self {
        unreachable!()
    }
    fn apply(&mut self, _: &UserCreated) {
        self.applied += 1;
    }
}

impl Apply<WelcomeQueued> for ChainCount {
    fn applied(&self, _: WelcomeQueued) -> Self {
        unreachable!()
    }
    fn apply(&mut self, _: &WelcomeQueued) {
        self.applied += 1;
    }
}

struct ByOrg;

impl IdFn<OrgUserCreated> for ByOrg {
    fn id_of(&self, _: OrgUserCreated) -> Option<u128> {
        unreachable!()
    }
    fn id(&self, fact: &OrgUserCreated) -> Option<u128> {
        Some(fact.org_id)
    }
    fn copy_fn(&self) -> Self {
        ByOrg
    }
}

struct ByRun;

impl IdFn<MaybeRunEvent> for ByRun {
    fn id_of(&self, _: MaybeRunEvent) -> Option<u128> {
        unreachable!()
    }
    fn id(&self, fact: &MaybeRunEvent) -> Option<u128> {
        fact.run_id
    }
    fn copy_fn(&self) -> Self {
        ByRun
    }
}

struct ByTag;

impl IdFn<TaggedEvent> for ByTag {
    fn id_of(&self, _: TaggedEvent) -> Option<u128> {
        unreachable!()
    }
    fn id(&self, fact: &TaggedEvent) -> Option<u128> {
        Some(fact.tag_id)
    }
    fn copy_fn(&self) -> Self {
        ByTag
    }
}

/// A fold of any aggregate and event, for registries that hold several.
trait AnyFold {
    fn extract(&self, payload: &Json) -> Option<u128>;
    fn apply_any(&self, state: &mut Box<dyn Any>, data: &Json) -> Result<(), String>;
    fn clone_any(&self, state: &Box<dyn Any>) -> Box<dyn Any>;
    fn default_any(&self) -> Box<dyn Any>;
    fn write_any(&self, state: &Box<dyn Any>) -> Result<Json, String>;
    fn read_any(&self, value: &Json) -> Result<Box<dyn Any>, String>;
    fn copy_any(&self) -> Box<dyn AnyFold>;
}

impl<A, F, I> AnyFold for TypedFold<A, F, I>
where
    A: Aggregate + Apply<F> + Codec + 'static,
    F: Event + 'static,
    I: IdFn<F> + 'static,
{
    fn extract(&self, payload: &Json) -> Option<u128> {
        self.extract_id_from_json(payload)
    }
    fn apply_any(&self, state: &mut Box<dyn Any>, data: &Json) -> Result<(), String> {
        self.apply_to(state.downcast_mut::<A>().unwrap(), data)
    }
    fn clone_any(&self, state: &Box<dyn Any>) -> Box<dyn Any> {
        Box::new(self.clone_state(state.downcast_ref::<A>().unwrap()))
    }
    fn default_any(&self) -> Box<dyn Any> {
        Box::new(self.default_state())
    }
    fn write_any(&self, state: &Box<dyn Any>) -> Result<Json, String> {
        self.serialize_state(state.downcast_ref::<A>().unwrap())
    }
    fn read_any(&self, value: &Json) -> Result<Box<dyn Any>, String> {
        let state = self.deserialize_state(value)?;
        Ok(Box::new(state))
    }
    fn copy_any(&self) -> Box<dyn AnyFold> {
        Box::new(self.copy_fns())
    }
}

struct Folds(Box<dyn AnyFold>);

impl FoldFns for Folds {
    type State = Box<dyn Any>;
    fn extracted(&self, _: JsonView) -> Option<u128> {
        unreachable!()
    }
    fn applied(&self, _: Box<dyn Any>, _: JsonView) -> Option<Box<dyn Any>> {
        unreachable!()
    }
    fn initial(&self) -> Box<dyn Any> {
        unreachable!()
    }
    fn serialized(&self, _: Box<dyn Any>) -> Option<JsonView> {
        unreachable!()
    }
    fn deserialized(&self, _: JsonView) -> Option<Box<dyn Any>> {
        unreachable!()
    }
    fn extract_id_from_json(&self, payload: &Json) -> Option<u128> {
        self.0.extract(payload)
    }
    fn apply_to(&self, state: &mut Box<dyn Any>, data: &Json) -> Result<(), String> {
        self.0.apply_any(state, data)
    }
    fn clone_state(&self, state: &Box<dyn Any>) -> Box<dyn Any> {
        self.0.clone_any(state)
    }
    fn default_state(&self) -> Box<dyn Any> {
        self.0.default_any()
    }
    fn serialize_state(&self, state: &Box<dyn Any>) -> Result<Json, String> {
        self.0.write_any(state)
    }
    fn deserialize_state(&self, value: &Json) -> Result<Box<dyn Any>, String> {
        self.0.read_any(value)
    }
    fn copy_fns(&self) -> Self {
        Folds(self.0.copy_any())
    }
}

fn any<A, F, I>(agg: Aggregator<TypedFold<A, F, I>>) -> Aggregator<Folds>
where
    A: Aggregate + Apply<F> + Codec + 'static,
    F: Event + 'static,
    I: IdFn<F> + 'static,
{
    Aggregator {
        event_prefix: agg.event_prefix,
        aggregate_type: agg.aggregate_type,
        subject: agg.subject,
        invariant: agg.invariant,
        event_subject: agg.event_subject,
        custom_id: agg.custom_id,
        fns: Folds(Box::new(agg.fns)),
    }
}

fn folding<A, F>() -> Aggregator<Folds>
where
    A: Aggregate + Apply<F> + Codec + 'static,
    F: Event + 'static,
{
    any(Aggregator::<TypedFold<A, F, causal::aggregator::BySubject>>::for_type())
}

fn keyed<A, F, I>(id_fn: I) -> Aggregator<Folds>
where
    A: Aggregate + Apply<F> + Codec + 'static,
    F: Event + 'static,
    I: IdFn<F> + 'static,
{
    any(Aggregator::<TypedFold<A, F, I>>::for_type_with_id_fn(id_fn))
}

fn copied(e: &RecordedEvent) -> RecordedEvent {
    RecordedEvent {
        position: e.position,
        revision: e.revision,
        event_id: e.event_id,
        causation_id: e.causation_id,
        workflow_id: e.workflow_id,
        event_type: e.event_type.clone(),
        payload: e.payload.copy(),
        created_at: e.created_at,
        category: e.category.clone(),
        subject_id: e.subject_id,
        metadata: e.metadata.iter().map(|(k, v)| (k.clone(), v.copy())).collect(),
    }
}

/// A log in memory that can be made to fail its nth append.
#[derive(Default)]
struct Log {
    events: Vec<RecordedEvent>,
    calls: usize,
    fail_on: usize,
}

enum AppendError {
    Conflict(ConflictError),
    Injected,
}

impl Log {
    fn append_to_stream(&mut self, request: AppendRequest) -> Result<WriteResult, AppendError> {
        self.calls += 1;
        if self.calls == self.fail_on {
            return Err(AppendError::Injected);
        }
        let len = self.read_stream(&request.category, request.subject_id, None).len() as u64;
        let current = if len == 0 { None } else { Some(StreamRevision::from_raw(len - 1)) };
        let met = match request.expected {
            StreamState::Any => true,
            StreamState::NoStream => current.is_none(),
            StreamState::StreamExists => current.is_some(),
            StreamState::StreamRevision(r) => current == Some(r),
        };
        if !met {
            return Err(AppendError::Conflict(ConflictError {
                expected: request.expected,
                current,
            }));
        }
        for (i, e) in request.events.into_iter().enumerate() {
            self.events.push(RecordedEvent {
                position: LogCursor::from_raw(self.events.len() as u64 + 1),
                revision: StreamRevision::from_raw(len + i as u64),
                event_id: e.event_id,
                causation_id: e.causation_id,
                workflow_id: e.workflow_id,
                event_type: e.event_type,
                payload: e.payload,
                created_at: e.created_at,
                category: request.category.clone(),
                subject_id: request.subject_id,
                metadata: e.metadata,
            });
        }
        let last = self.events.last().unwrap();
        Ok(WriteResult { position: last.position, revision: last.revision })
    }

    fn read_stream(
        &self,
        category: &str,
        id: u128,
        after: Option<StreamRevision>,
    ) -> Vec<RecordedEvent> {
        self.events
            .iter()
            .filter(|e| e.category == category && e.subject_id == id)
            .filter(|e| after.map_or(true, |a| e.revision.raw() > a.raw()))
            .map(copied)
            .collect()
    }

    fn read_all(&self, after: LogCursor, limit: usize) -> Vec<RecordedEvent> {
        self.events
            .iter()
            .filter(|e| e.position.raw() > after.raw())
            .take(limit)
            .map(copied)
            .collect()
    }

    fn latest_position(&self) -> LogCursor {
        self.events.last().map_or(LogCursor::zero(), |e| e.position)
    }
}

fn fold_into<B: FoldFns>(
    reg: &mut AggregatorRegistry<B>,
    log: &Log,
    event: &RecordedEvent,
    strict: bool,
) {
    let (mut session, first) = FoldSession::begin(reg, event, strict);
    let mut step = match first {
        Ok(step) => step,
        Err(e) => panic!("{}", e.to_text()),
    };
    loop {
        step = match step {
            FoldStep::Done(_) => return,
            FoldStep::LoadSnapshot { .. } => session.on_snapshot(reg, &None),
            FoldStep::ReadStream { subject, id, after, .. } => {
                match session.on_stream(reg, event, &log.read_stream(&subject, id, after)) {
                    Ok(step) => step,
                    Err(e) => panic!("{}", e.to_text()),
                }
            }
        };
    }
}

/// An engine beside its log: appends what the engine plans and folds what
/// landed.
struct Running {
    engine: Engine<Folds>,
    log: Log,
}

fn builder() -> EngineBuilder<Folds> {
    EngineBuilder::new()
}

fn register(b: EngineBuilder<Folds>, aggregators: Vec<Aggregator<Folds>>) -> EngineBuilder<Folds> {
    let mut b = b;
    for agg in aggregators {
        if let Some(text) = b.refuse_aggregator(&agg) {
            panic!("{}", text);
        }
        b = b.with_aggregators(vec![agg]);
    }
    b
}

fn with_projector(b: EngineBuilder<Folds>, name: &str) -> EngineBuilder<Folds> {
    if let Some(text) = b.refuse_name(name) {
        panic!("{}", text);
    }
    b.with_projector(name)
}

fn start(b: EngineBuilder<Folds>) -> Running {
    match b.build() {
        Ok(engine) => Running { engine, log: Log::default() },
        Err(e) => panic!("{}", e.to_text()),
    }
}

fn running(aggregators: Vec<Aggregator<Folds>>) -> Running {
    start(register(builder(), aggregators))
}

impl Running {
    fn land(&mut self, request: AppendRequest) -> Result<WriteResult, AppendError> {
        let before = self.log.latest_position();
        let result = self.log.append_to_stream(request)?;
        for event in self.log.read_all(before, usize::MAX) {
            self.engine.workflow_hw.bump(event.workflow_id, event.position);
            if let Some(reg) = self.engine.aggregators.as_mut() {
                fold_into(reg, &self.log, &event, false);
            }
        }
        Ok(result)
    }

    fn emit(&mut self, b: EmitBuilder) -> Result<EmitResult, Error> {
        match self.engine.execute_emit(&b, &SystemClock)? {
            EmitStart::Nothing { workflow_id } => {
                Ok(EmitResult { position: self.log.latest_position(), workflow_id })
            }
            EmitStart::Append(plan) => {
                let mut results = Vec::new();
                for run in plan.runs {
                    match self.land(run) {
                        Ok(result) => results.push(result),
                        Err(AppendError::Conflict(_)) => return Err(Error::msg("conflict")),
                        Err(AppendError::Injected) => return Err(Error::msg("injected")),
                    }
                }
                Ok(emit_result(plan.workflow_id, &results))
            }
        }
    }

    fn one<F: Event>(&mut self, event: F) -> EmitResult {
        self.emit(EmitBuilder::new(EmitInput::one(&event))).unwrap()
    }

    fn decide<A: Apply<F>, F: Event, D: Fn(&A) -> Result<Vec<F>, Error>>(
        &self,
        id: u128,
        decide: D,
    ) -> AppendStart {
        let events = self.log.read_stream(F::SUBJECT, id, None);
        append(id, &events, decide, &self.engine.default_metadata, &SystemClock).unwrap()
    }

    fn append<A: Apply<F>, F: Event, D: Fn(&A) -> Result<Vec<F>, Error>>(
        &mut self,
        id: u128,
        decide: D,
    ) {
        match self.decide::<A, F, D>(id, decide) {
            AppendStart::Nothing { .. } => {}
            AppendStart::Append { request, .. } => {
                assert!(self.land(request).is_ok(), "nobody else is writing");
            }
        }
    }

    fn load<A: Apply<F>, F: Event>(&self, id: u128) -> (A, StreamRevision) {
        load(&self.log.read_stream(F::SUBJECT, id, None)).unwrap()
    }

    fn state_of<A: Aggregate + Clone + 'static>(&self, id: u128) -> Option<A> {
        let state = self.engine.state_of(A::NAME, id)?;
        Some(state.downcast_ref::<A>().unwrap().clone())
    }
}

fn user(user_id: u128) -> UserCreated {
    UserCreated { user_id, occurred_at: now() }
}

fn inc(by: i64, counter_id: u128) -> CounterFact {
    CounterFact::Inc { by, occurred_at: now(), counter_id }
}

fn many<F: Event>(events: Vec<F>) -> EmitBuilder {
    EmitBuilder::new(EmitInput::many(&events))
}

/// Counts the triggers behind the seeded cursor.
fn fired(r: &Running, consumer: &str, latest_at_build: LogCursor) -> usize {
    let seed = r.engine.reactor_seeds.iter().find(|s| s.consumer == consumer).unwrap();
    let cursor = seed_for(seed.start, None, latest_at_build).unwrap_or(LogCursor::zero());
    r.log
        .read_all(cursor, 100)
        .iter()
        .filter(|e| matches_kind(&e.event_type, UserCreated::NAME))
        .count()
}

/// A freshly-deployed reactor against an EXISTING log must not re-fire side
/// effects for history — its cursor seeds at the latest position during
/// build. Events emitted after build process normally.
#[test]
fn fresh_reactor_seeds_at_latest_and_skips_history() {
    let mut before = running(vec![]);
    before.one(user(fresh()));

    // "Deploy" the reactor: cursor seeds at latest during build, so the
    // historical trigger never reaches it.
    let mut r = start(builder().with_reactor("seed.counting"));
    r.log = before.log;
    let latest = r.log.latest_position();
    assert!(needs_latest(StartPosition::ResumeOrLatest, None));

    // A new trigger fires exactly once.
    r.one(user(fresh()));
    assert_eq!(
        fired(&r, "seed.counting", latest),
        1,
        "history skipped; only the post-deploy trigger fired"
    );
}

/// `StartPosition::Zero` forces the reactor through history — the explicit
/// replay opt-in.
#[test]
fn with_reactor_start_zero_processes_history() {
    let mut before = running(vec![]);
    before.one(user(fresh()));
    let mut r = start(builder().with_reactor_start("seed.zero", StartPosition::Zero));
    r.log = before.log;
    let latest = r.log.latest_position();
    r.one(user(fresh()));
    assert_eq!(
        fired(&r, "seed.zero", latest),
        2,
        "Zero opt-in replays the historical trigger AND fires the new one"
    );
}

#[test]
fn a_reactor_with_a_cursor_resumes_there() {
    let at = LogCursor::from_raw(4);
    assert_eq!(seed_for(StartPosition::ResumeOrLatest, Some(at), LogCursor::from_raw(9)), None);
    assert!(!needs_latest(StartPosition::ResumeOrLatest, Some(at)));
    assert_eq!(
        seed_for(StartPosition::Latest, None, LogCursor::from_raw(9)),
        Some(LogCursor::from_raw(9))
    );
    assert_eq!(seed_for(StartPosition::Specific(at), None, LogCursor::from_raw(9)), Some(at));
}

/// Flat routing made colons legal (no separator to protect), but an EMPTY
/// kind is still a broken wire identity — `build()` rejects it loudly rather
/// than registering an unmatchable fold.
#[test]
fn build_rejects_empty_event_kind() {
    let result = register(builder(), vec![folding::<WeirdAgg, Weird>()]).build();
    let err = match result {
        Ok(_) => panic!("build must reject an empty event kind"),
        Err(e) => e.to_text(),
    };
    assert!(err.contains("empty"), "got: {err}");
}

/// One `OrgUserCreated` fact, two aggregators — one keyed by `user_id`
/// (default via `for_type`), one keyed by a *different* `org_id` field via
/// `for_type_with_id_fn`. Both fold; neither's state bleeds into the other's
/// key.
#[test]
fn engine_aggregator_for_type_with_id_fn_keys_independently() {
    let mut r = running(vec![
        folding::<UserCount, OrgUserCreated>(),
        keyed::<OrgCount, OrgUserCreated, ByOrg>(ByOrg),
    ]);
    let (org_a, org_b) = (fresh(), fresh());
    let (user_1, user_2, user_3) = (fresh(), fresh(), fresh());

    // Two events in org_a (user_1, user_2), one in org_b (user_3).
    r.one(OrgUserCreated { user_id: user_1, org_id: org_a, occurred_at: now() });
    r.one(OrgUserCreated { user_id: user_2, org_id: org_a, occurred_at: now() });
    r.one(OrgUserCreated { user_id: user_3, org_id: org_b, occurred_at: now() });

    // UserCount: each user_id folds independently → 1, 1, 1.
    assert_eq!(r.state_of::<UserCount>(user_1).unwrap().n, 1);
    assert_eq!(r.state_of::<UserCount>(user_2).unwrap().n, 1);
    assert_eq!(r.state_of::<UserCount>(user_3).unwrap().n, 1);

    // OrgCount: keyed by org_id → 2 for org_a, 1 for org_b.
    assert_eq!(
        r.state_of::<OrgCount>(org_a).unwrap().n,
        2,
        "id_fn must extract org_id, not user_id (Event::subject_id)"
    );
    assert_eq!(r.state_of::<OrgCount>(org_b).unwrap().n, 1);

    // Cross-check: org_a snapshot at user_1's key must be None.
    assert!(
        r.state_of::<OrgCount>(user_1).is_none(),
        "OrgCount keyed by org_id must not appear under user_id key"
    );
}

/// `id_fn` that yields `None` for some facts must skip the fold entirely (not
/// fold at the nil id).
#[test]
fn engine_aggregator_id_fn_returning_none_skips_fold() {
    let mut r = running(vec![keyed::<RunCounter, MaybeRunEvent, ByRun>(ByRun)]);
    let run = fresh();

    // Two events with run_id, one without.
    r.one(MaybeRunEvent { subject_id: fresh(), run_id: Some(run), occurred_at: now() });
    r.one(MaybeRunEvent { subject_id: fresh(), run_id: None, occurred_at: now() });
    r.one(MaybeRunEvent { subject_id: fresh(), run_id: Some(run), occurred_at: now() });

    assert_eq!(
        r.state_of::<RunCounter>(run).unwrap().n,
        2,
        "only the two facts with run_id Some should fold"
    );
    // The None-run fact must not have created an entry at nil.
    assert!(
        r.state_of::<RunCounter>(0).is_none(),
        "id_fn returning None must skip the fold entirely, not fold at nil"
    );
}

/// An id function keys by its own return value, not by `Event::subject_id`.
#[test]
fn engine_macro_aggregator_id_fn_actually_keys_by_method() {
    let mut r = running(vec![keyed::<TagBucket, TaggedEvent, ByTag>(ByTag)]);
    let (tag_a, tag_b) = (fresh(), fresh());
    r.one(TaggedEvent { event_id: fresh(), tag_id: tag_a, occurred_at: now() });
    r.one(TaggedEvent { event_id: fresh(), tag_id: tag_a, occurred_at: now() });
    r.one(TaggedEvent { event_id: fresh(), tag_id: tag_b, occurred_at: now() });
    assert_eq!(r.state_of::<TagBucket>(tag_a).unwrap().count, 2, "keys by tag_id, not event_id");
    assert_eq!(r.state_of::<TagBucket>(tag_b).unwrap().count, 1);
}

#[test]
fn engine_emit_to_unregistered_stream_succeeds_by_default() {
    let mut r = running(vec![]);
    assert!(r.emit(EmitBuilder::new(EmitInput::one(&user(fresh())))).is_ok());
}

#[test]
fn engine_emit_to_aggregate_stream_succeeds_without_ceremony() {
    // Emitting a fact whose kind has an aggregator registered just appends +
    // folds — no version check, no error, no special builder methods.
    let mut r = running(vec![folding::<UserAgg, UserCreated>()]);
    let result = r.emit(EmitBuilder::new(EmitInput::one(&user(fresh()))));
    assert!(result.is_ok(), "emit to aggregate stream succeeds without ceremony");
}

#[test]
fn engine_registering_aggregator_is_invisible_to_emit_path() {
    // Aggregator registration is read-side only — both the registered and
    // unregistered streams accept naked emit identically.
    let mut r = running(vec![folding::<UserAgg, UserCreated>()]);
    r.one(OrderPlaced { order_id: fresh(), occurred_at: now() });
    r.one(user(fresh()));
    assert_eq!(r.log.events.len(), 2);
}

#[test]
fn engine_load_returns_default_for_unknown_aggregate() {
    let r = running(vec![folding::<Counter, CounterFact>()]);
    let (agg, ver) = r.load::<GuardedCounter, CounterFact>(fresh());
    assert_eq!(agg.value, 0);
    assert_eq!(ver, StreamRevision::zero());
}

#[test]
fn decider_keys_on_subject_and_skips_foreign_types() {
    let mut r = running(vec![folding::<Balance, Deposited>(), folding::<Balance, Withdrawn>()]);
    let account = fresh();
    // Two co-located event types land in ONE stream ("account").
    r.one(Deposited { account, amount: 100 });
    r.one(Withdrawn { account, amount: 30 });

    // Both physically live in `account-<id>`, NOT in `deposit-`/`withdraw-`.
    assert_eq!(
        r.log.read_stream("account", account, None).len(),
        2,
        "co-located in the account stream"
    );
    assert!(
        r.log.read_stream("deposit", account, None).is_empty(),
        "events must NOT be placed under their CATEGORY when SUBJECT differs"
    );

    // load reads the `account` stream, folds ONLY Deposited (skips the
    // co-located Withdrawn without failing on a cross-type decode), and
    // reports the stream head revision.
    let (bal, rev) = r.load::<Balance, Deposited>(account);
    assert_eq!(bal.value, 100, "folded only the Deposited, skipped the Withdrawn");
    assert_eq!(rev, StreamRevision::from_raw(1), "revision is the stream head (2 events)");

    // append writes to the `account` stream too.
    r.append(account, |_b: &Balance| Ok(vec![Deposited { account, amount: 5 }]));
    assert_eq!(
        r.log.read_stream("account", account, None).len(),
        3,
        "the decided fact landed in the account stream"
    );
    // The live fold sees all three.
    assert_eq!(r.state_of::<Balance>(account).unwrap().value, 75);
}

fn occ_engine() -> Running {
    running(vec![folding::<GuardedCounter, CounterFact>()])
}

#[test]
fn append_persists_and_folds_across_calls() {
    let mut r = occ_engine();
    let id = fresh();
    r.append(id, |_c: &GuardedCounter| Ok(vec![inc(3, id)]));
    // Second decision folds the first append's state.
    r.append(id, |c: &GuardedCounter| {
        assert_eq!(c.value, 3, "decide sees the prior append folded in");
        Ok(vec![inc(7, id)])
    });
    let (c, ver) = r.load::<GuardedCounter, CounterFact>(id);
    assert_eq!(c.value, 10);
    assert_eq!(ver, StreamRevision::from_raw(1), "two events → tail revision 1");
}

#[test]
fn append_empty_decision_is_noop() {
    let mut r = occ_engine();
    let id = fresh();
    r.append(id, |_c: &GuardedCounter| Ok(Vec::<CounterFact>::new()));
    let (c, _) = r.load::<GuardedCounter, CounterFact>(id);
    assert_eq!(c.value, 0, "empty decision wrote nothing");
    assert!(r.log.events.is_empty());
}

#[test]
fn emit_rejects_occ_required_category() {
    let mut r = occ_engine();
    let err = match r.emit(EmitBuilder::new(EmitInput::one(&inc(1, fresh())))) {
        Ok(_) => panic!("emit into an OCC-required category must error"),
        Err(e) => e.to_text(),
    };
    assert!(
        err.contains("OCC-required") && err.contains("counter"),
        "error must steer to Engine::append, got: {err}"
    );
    assert!(r.log.events.is_empty());
}

#[test]
fn append_occ_prevents_double_apply_under_concurrency() {
    // An "increment-once" guard: emit Inc{1} only if value == 0. Two writers
    // both read 0; the loser conflicts, reloads, sees value 1, and no-ops.
    let mut r = occ_engine();
    let id = fresh();
    let guard = |c: &GuardedCounter| {
        if c.value == 0 {
            Ok(vec![inc(1, id)])
        } else {
            Ok(Vec::new())
        }
    };
    let first = r.decide(id, guard);
    let second = r.decide(id, guard);
    match first {
        AppendStart::Append { request, .. } => assert!(r.land(request).is_ok()),
        AppendStart::Nothing { .. } => panic!("the first writer decides on a fact"),
    }
    match second {
        AppendStart::Append { request, .. } => match r.land(request) {
            Err(AppendError::Conflict(c)) => {
                assert_eq!(c.expected, StreamState::NoStream);
                assert_eq!(c.current, Some(StreamRevision::zero()));
            }
            _ => panic!("the stale decision is refused"),
        },
        AppendStart::Nothing { .. } => panic!("the second writer decided on the same state"),
    }
    assert!(back_off(0).again);
    assert!(matches!(r.decide(id, guard), AppendStart::Nothing { .. }));

    let (c, _) = r.load::<GuardedCounter, CounterFact>(id);
    assert_eq!(c.value, 1, "OCC prevented the double-apply (would be 2 without it)");
}

#[test]
fn append_multi_fact_decision_lands_contiguously() {
    let mut r = occ_engine();
    let id = fresh();
    r.append(id, |_c: &GuardedCounter| Ok(vec![inc(1, id), inc(2, id), inc(4, id)]));
    let events = r.log.read_stream("counter", id, None);
    assert_eq!(events.len(), 3, "all three facts landed");
    assert_eq!(events[0].revision, StreamRevision::from_raw(0));
    assert_eq!(events[1].revision, StreamRevision::from_raw(1));
    assert_eq!(events[2].revision, StreamRevision::from_raw(2));
    let (c, _) = r.load::<GuardedCounter, CounterFact>(id);
    assert_eq!(c.value, 7);
}

#[test]
fn append_high_contention_all_increments_apply() {
    // N contenders increment ONE stream unconditionally. Each round all of
    // those left decide on the same state and one lands: each must land
    // within the retry budget.
    const N: i64 = 8;
    let mut r = occ_engine();
    let id = fresh();
    let mut waiting: Vec<u32> = vec![0; N as usize];
    let mut ok = 0;
    while !waiting.is_empty() {
        let requests: Vec<AppendStart> = waiting
            .iter()
            .map(|_| r.decide(id, |_c: &GuardedCounter| Ok(vec![inc(1, id)])))
            .collect();
        let mut left = Vec::new();
        for (start, attempt) in requests.into_iter().zip(waiting) {
            match start {
                AppendStart::Append { request, .. } => match r.land(request) {
                    Ok(_) => ok += 1,
                    Err(_) => {
                        assert!(attempt < MAX_OCC_RETRIES);
                        let step = back_off(attempt);
                        assert!(step.again, "retry budget exhausted");
                        left.push(attempt + 1);
                    }
                },
                AppendStart::Nothing { .. } => panic!("every contender has a fact"),
            }
        }
        waiting = left;
    }
    let (c, _) = r.load::<GuardedCounter, CounterFact>(id);
    assert_eq!(ok, N, "all {N} appends succeeded (none exhausted OCC retries)");
    assert_eq!(c.value, N, "every increment applied — no lost update");
}

#[test]
fn the_wait_after_a_conflict_doubles_up_to_a_cap() {
    assert_eq!(after_conflict(0, 49).wait_micros, 49);
    assert_eq!(after_conflict(0, 50).wait_micros, 0);
    assert_eq!(after_conflict(1, 99).wait_micros, 99);
    assert_eq!(after_conflict(6, 3199).wait_micros, 3199);
    assert_eq!(after_conflict(14, 3200).wait_micros, 0);
    assert!(after_conflict(14, 0).again);
    assert!(!after_conflict(15, 0).again);
}

#[test]
fn same_stream_batch_emit_never_tears() {
    // A multi-fact emit to ONE stream must land all-or-nothing: it is one
    // append, so the second append's failure cannot tear it.
    let mut r = running(vec![]);
    r.log.fail_on = 2;
    let id = fresh();
    let result = r.emit(many(vec![inc(1, id), inc(2, id)]));
    match result {
        Ok(_) => assert_eq!(r.log.events.len(), 2, "Ok ⇒ the whole batch landed"),
        Err(_) => assert!(
            r.log.events.is_empty(),
            "Err ⇒ nothing landed — got a TORN batch of {} row(s)",
            r.log.events.len(),
        ),
    }
}

#[test]
fn same_stream_batch_emit_retry_after_error_does_not_duplicate() {
    let mut r = running(vec![]);
    r.log.fail_on = 1;
    let id = fresh();
    let mut succeeded = false;
    for _ in 0..3 {
        if r.emit(many(vec![inc(1, id), inc(2, id)])).is_ok() {
            succeeded = true;
            break;
        }
    }
    assert!(succeeded, "emit must eventually succeed past the injected fault");
    let count = |by: i64| {
        r.log
            .events
            .iter()
            .filter(|e| read_num(e.payload.get("Inc").unwrap(), "by") == Ok(by))
            .count()
    };
    assert_eq!((count(1), count(2)), (1, 1), "each fact exactly once after retry");
}

#[test]
fn engine_emit_batch_round_trips_through_aggregator_fold() {
    let mut r = running(vec![folding::<Counter, CounterFact>()]);
    let id = fresh();
    r.emit(many(vec![inc(3, id), inc(5, id)])).unwrap();
    let (agg, _) = r.load::<GuardedCounter, CounterFact>(id);
    assert_eq!(agg.value, 8);
    assert_eq!(r.state_of::<Counter>(id).unwrap().value, 8);
}

#[test]
fn engine_append_uses_facts_occurred_at_for_persisted_created_at() {
    // occurred_at on the fact is the canonical clock; it is persisted as
    // created_at so replay reproduces.
    let mut r = running(vec![folding::<Counter, CounterFact>()]);
    let id = fresh();
    // 2026-01-01T00:00:00Z
    let pinned = Timestamp { secs: 1767225600, nanos: 0 };
    r.emit(many(vec![CounterFact::Inc { by: 1, occurred_at: pinned, counter_id: id }])).unwrap();
    let events = r.log.read_stream(<CounterFact as Event>::NAME, id, None);
    assert_eq!(events.len(), 1);
    assert_eq!(events[0].created_at, pinned, "persisted created_at == fact.occurred_at()");
}

#[test]
fn a_fact_without_a_time_of_its_own_gets_the_clocks() {
    let r = running(vec![]);
    let pinned = Timestamp { secs: 9, nanos: 1 };
    let b = EmitBuilder::new(EmitInput::one(&WelcomeQueued { user_id: 1 }));
    match r.engine.execute_emit(&b, &FixedClock(pinned)).unwrap() {
        EmitStart::Append(plan) => assert_eq!(plan.runs[0].events[0].created_at, pinned),
        EmitStart::Nothing { .. } => panic!("one fact is appended"),
    }
}

#[test]
fn emit_with_workflow_id_stamps_envelope() {
    let mut r = running(vec![]);
    let cmd_correlation = fresh();
    r.emit(EmitBuilder::new(EmitInput::one(&user(fresh()))).workflow_id(cmd_correlation)).unwrap();
    assert_eq!(r.log.events.len(), 1);
    assert_eq!(
        r.log.events[0].workflow_id, cmd_correlation,
        "persisted workflow_id MUST match caller-supplied id"
    );
}

fn member<'a>(metadata: &'a Metadata, key: &str) -> Option<&'a Json> {
    metadata.iter().find(|(k, _)| k == key).map(|(_, v)| v)
}

fn is_text(value: Option<&Json>, expected: &str) -> bool {
    matches!(value, Some(Json::Str(s)) if s == expected)
}

#[test]
fn engine_emit_with_parent_and_metadata_stamps_envelope() {
    let mut r = running(vec![]);
    let parent = fresh();
    r.emit(
        EmitBuilder::new(EmitInput::one(&user(fresh())))
            .causation_id(parent)
            .metadata("_run_id", text("run-abc"))
            .metadata("_schema_v", num(2)),
    )
    .unwrap();
    let event = &r.log.events[0];
    assert_eq!(event.causation_id, Some(parent));
    assert!(is_text(member(&event.metadata, "_run_id"), "run-abc"));
    assert!(matches!(
        member(&event.metadata, "_schema_v"),
        Some(Json::Number(Number::PosInt(2)))
    ));
}

#[test]
fn emit_batch_propagates_workflow_id_to_every_fact() {
    let mut r = running(vec![folding::<Counter, CounterFact>()]);
    let id = fresh();
    let cmd_correlation = fresh();
    r.emit(many(vec![inc(1, id), inc(2, id)]).workflow_id(cmd_correlation)).unwrap();
    let events = r.log.read_stream(<CounterFact as Event>::NAME, id, None);
    assert_eq!(events.len(), 2);
    for ev in &events {
        assert_eq!(
            ev.workflow_id, cmd_correlation,
            "every fact in the batch carries the caller's workflow_id"
        );
    }
}

#[test]
fn a_root_fact_declares_its_workflow() {
    let mut r = running(vec![]);
    let run = fresh();
    let result = r.one(RunStarted { run_id: run });
    assert_eq!(result.workflow_id, run);
    // Another workflow for the same fact is refused.
    let other = fresh();
    let refused =
        r.emit(EmitBuilder::new(EmitInput::one(&RunStarted { run_id: run })).workflow_id(other));
    let text = refused.unwrap_err().to_text();
    assert!(text.contains(&Uuid::from_u128(run).to_string()), "{text}");
    assert_eq!(r.log.events.len(), 1);
}

#[test]
fn a_batch_lands_in_runs_of_neighbours_in_one_stream() {
    let r = running(vec![]);
    let (a, b) = (fresh(), fresh());
    let builder = many(vec![inc(1, a), inc(2, a), inc(4, b), inc(8, a)]);
    match r.engine.execute_emit(&builder, &SystemClock).unwrap() {
        EmitStart::Append(plan) => {
            assert_eq!(plan.runs.len(), 3);
            assert_eq!(plan.runs[0].subject_id, a);
            assert_eq!(plan.runs[0].events.len(), 2);
            assert_eq!(plan.runs[1].subject_id, b);
            assert_eq!(plan.runs[2].subject_id, a);
            assert_eq!(plan.runs[2].events.len(), 1);
        }
        EmitStart::Nothing { .. } => panic!("four facts are appended"),
    }
}

#[test]
fn the_coordinates_of_a_run_count_back_from_its_last_event() {
    let result = WriteResult {
        position: LogCursor::from_raw(10),
        revision: StreamRevision::from_raw(4),
    };
    let first = coordinates_of(result, 3, 0);
    assert_eq!(first.revision, StreamRevision::from_raw(2));
    let last = coordinates_of(result, 3, 2);
    assert_eq!(last, result);
}

#[test]
fn engine_registering_one_aggregate_against_two_facts_is_allowed() {
    // Same A::NAME registered with two distinct Apply<F> impls is legitimate.
    let r = running(vec![folding::<Multi, Tick>(), folding::<Multi, Pong>()]);
    assert_eq!(r.engine.aggregators.as_ref().unwrap().len(), 2);
}

#[test]
#[should_panic(expected = "duplicate Aggregate::NAME `TickCounter`")]
fn engine_registering_two_aggregators_with_same_name_panics() {
    // Two aggregators with the same Aggregate::NAME would collide on the
    // registry key `{NAME}:{id}` and silently overwrite each other's state.
    register(builder(), vec![folding::<TickCounter, Tick>(), folding::<TickCounter, Tick>()]);
}

#[test]
#[should_panic(expected = "duplicate NAME `users`")]
fn registering_two_consumers_with_same_consumer_panics() {
    // Two consumers of one name would share a cursor key — silent corruption.
    with_projector(with_projector(builder(), "users"), "users");
}

fn tick(seq: i64) -> Tick {
    Tick { seq, occurred_at: now() }
}

#[test]
fn engine_engine_snapshot_reads_state_folded_on_emit() {
    let mut r = running(vec![folding::<TickCounter, Tick>()]);
    // Tick's subject is the nil id — all ticks fold into the nil-keyed slot.
    for i in 0..5 {
        r.one(tick(i));
    }
    let counter = r.state_of::<TickCounter>(0).expect("snapshot Some after 5 ticks folded");
    assert_eq!(counter.count, 5, "engine-level registry folded all 5 emitted Ticks");
}

#[test]
fn engine_engine_snapshot_sees_reactor_emitted_facts() {
    // One aggregate, two fact types: the trigger, and what a reactor appended
    // in its wake.
    let mut r = running(vec![
        folding::<ChainCount, UserCreated>(),
        folding::<ChainCount, WelcomeQueued>(),
    ]);
    let user_id = fresh();
    r.one(user(user_id));
    r.one(WelcomeQueued { user_id });
    let state = r.state_of::<ChainCount>(user_id).expect("snapshot must exist");
    assert_eq!(state.applied, 2);
}

#[test]
fn engine_engine_settle_waits_for_reactor_chains_to_quiesce() {
    let mut r = running(vec![]);
    let user_id = fresh();
    let result = r.one(user(user_id));
    let mut hw = settle_target(&r.engine.workflow_hw, result);
    assert_eq!(hw, result.position);
    // While the consumers catch up to the target, a reactor appends to the
    // same workflow.
    r.emit(
        EmitBuilder::new(EmitInput::one(&WelcomeQueued { user_id }))
            .workflow_id(result.workflow_id),
    )
    .unwrap();
    match r.engine.settle(result, hw) {
        SettleStep::Again { hw: further } => hw = further,
        SettleStep::Done => panic!("the chain has not been drained"),
    }
    assert_eq!(hw, r.log.latest_position());
    assert_eq!(r.engine.settle(result, hw), SettleStep::Done);
}

#[test]
fn settle_scopes_to_one_run_while_another_floods_the_log() {
    let mut r = running(vec![]);
    let corr_a = fresh();
    let corr_b = fresh();
    let result =
        r.emit(EmitBuilder::new(EmitInput::one(&user(fresh()))).workflow_id(corr_a)).unwrap();
    let hw = settle_target(&r.engine.workflow_hw, result);
    // Run B: a flood that never stops moving the global head.
    for _ in 0..20 {
        r.emit(EmitBuilder::new(EmitInput::one(&user(fresh()))).workflow_id(corr_b)).unwrap();
    }
    assert_eq!(
        r.engine.settle(result, hw),
        SettleStep::Done,
        "scoped settle must return for run A despite run B flooding the log"
    );
}

#[test]
fn engine_empty_emit_followed_by_settle_waits_for_pre_existing_work() {
    let mut r = running(vec![]);
    r.one(user(fresh()));
    let empty_result = r.emit(many(Vec::<UserCreated>::new())).unwrap();
    assert_eq!(
        empty_result.position,
        r.log.latest_position(),
        "empty emit returns the latest position, not zero"
    );
    // Nothing is tracked for it, so the target is that position.
    assert_eq!(settle_target(&r.engine.workflow_hw, empty_result), empty_result.position);
}

#[test]
fn a_high_water_mark_only_rises() {
    let mut tracker = SettleTracker::new();
    let result = EmitResult { position: LogCursor::from_raw(1), workflow_id: 7 };
    assert_eq!(tracker.get(7), None);
    tracker.bump(7, LogCursor::from_raw(5));
    tracker.bump(7, LogCursor::from_raw(3));
    assert_eq!(tracker.get(7), Some(LogCursor::from_raw(5)));
    assert_eq!(
        settle(&mut tracker, result, LogCursor::from_raw(3)),
        SettleStep::Again { hw: LogCursor::from_raw(5) }
    );
    assert_eq!(settle(&mut tracker, result, LogCursor::from_raw(5)), SettleStep::Done);
    assert_eq!(tracker.get(7), None, "a drained workflow is forgotten");
}

#[test]
fn a_wait_is_floored_at_the_emit() {
    // An earlier emit of the workflow left a mark behind this one.
    let mut tracker = SettleTracker::new();
    tracker.bump(7, LogCursor::from_raw(5));
    let result = EmitResult { position: LogCursor::from_raw(9), workflow_id: 7 };
    assert_eq!(settle_target(&tracker, result), LogCursor::from_raw(9));
    assert_eq!(
        settle(&mut tracker, result, LogCursor::from_raw(5)),
        SettleStep::Again { hw: LogCursor::from_raw(9) }
    );
    assert_eq!(settle(&mut tracker, result, LogCursor::from_raw(9)), SettleStep::Done);
    assert_eq!(tracker.get(7), None);
    // Nothing is tracked: a position already reached is kept, one before the
    // emit is not enough.
    assert_eq!(settle(&mut tracker, result, LogCursor::from_raw(12)), SettleStep::Done);
    assert_eq!(
        settle(&mut tracker, result, LogCursor::from_raw(3)),
        SettleStep::Again { hw: LogCursor::from_raw(9) }
    );
}

#[test]
fn a_full_tracker_makes_room_for_a_new_workflow() {
    let cap = SETTLE_TRACKER_CAP as u128;
    let mut tracker = SettleTracker::new();
    for wf in 0..cap + 1 {
        tracker.bump(wf, LogCursor::from_raw(1));
    }
    assert!(tracker.get(cap).is_some());
    let held = (0..cap + 1).filter(|wf| tracker.get(*wf).is_some()).count();
    assert_eq!(held, SETTLE_TRACKER_CAP);
}

#[test]
fn a_position_is_observed_once_the_cursor_has_reached_it() {
    let pos = LogCursor::from_raw(4);
    assert!(!is_observed(None, pos));
    assert!(!is_observed(Some(LogCursor::from_raw(3)), pos));
    assert!(is_observed(Some(pos), pos));
}

#[test]
fn a_tree_settles_the_workflows_its_events_caused() {
    let mut r = running(vec![]);
    let root = r.one(user(fresh()));
    let cause = r.log.events[0].event_id;
    let child = r
        .emit(EmitBuilder::new(EmitInput::one(&WelcomeQueued { user_id: 1 })).causation_id(cause))
        .unwrap();
    r.one(user(fresh())); // unrelated

    let mut tree = TreeSettle::new(root);
    assert_eq!(tree.next_workflow(), Some(root));
    assert_eq!(tree.next_workflow(), None);
    let mut scan = ChildScan::new();
    assert_eq!(scan.read_from(), LogCursor::zero());
    let parents: HashSet<u128> = tree.settled.iter().copied().collect();
    while scan.on_batch(&parents, &r.log.read_all(scan.read_from(), 2)) {}
    let children = scan.finish();
    assert_eq!(children, vec![child]);
    assert!(!tree.on_children(children));
    assert_eq!(tree.next_workflow(), Some(child));
    // The next scan finds nothing new.
    let mut scan = ChildScan::new();
    let parents: HashSet<u128> = tree.settled.iter().copied().collect();
    while scan.on_batch(&parents, &r.log.read_all(scan.read_from(), 10)) {}
    assert!(tree.on_children(scan.finish()));
}

#[test]
fn engine_snapshot_returns_none_for_id_with_no_facts() {
    let r = running(vec![folding::<UserAgg, UserCreated>()]);
    assert!(
        r.state_of::<UserAgg>(fresh()).is_none(),
        "snapshot returns None when the aggregate has no facts yet"
    );
}

#[test]
fn engine_snapshot_returns_some_clone_after_emit() {
    let mut r = running(vec![folding::<Counter, CounterFact>()]);
    let id = fresh();
    r.one(inc(7, id));
    let state = r.state_of::<Counter>(id).expect("snapshot Some after emit folded a fact");
    assert_eq!(state.value, 7);
    // Independent ids stay None.
    assert!(r.state_of::<Counter>(fresh()).is_none(), "snapshot is keyed — other ids unaffected");
    assert!(!r.engine.needs_restore("Counter", id, true));
    assert!(r.engine.needs_restore("Counter", fresh(), true));
    assert!(!r.engine.needs_restore("Counter", fresh(), false));
}

#[test]
fn emit_result_carries_workflow_id() {
    let mut r = running(vec![]);
    // Auto-generated workflow when not provided.
    let r1 = r.one(user(fresh()));
    assert_ne!(r1.workflow_id, 0, "emit auto-generates workflow_id when not set");
    // Two emits without explicit workflow must produce distinct workflows.
    let r2 = r.one(user(fresh()));
    assert_ne!(r1.workflow_id, r2.workflow_id, "distinct emits get distinct workflow_ids");
    // Explicit workflow: result echoes what the caller set.
    let wf = fresh();
    let r3 = r.emit(EmitBuilder::new(EmitInput::one(&user(fresh()))).workflow_id(wf)).unwrap();
    assert_eq!(r3.workflow_id, wf, "EmitResult.workflow_id echoes the explicit value");
}

#[test]
fn engine_emit_with_empty_batch_is_a_no_op() {
    let mut r = running(vec![]);
    let result = r.emit(many(Vec::<UserCreated>::new())).unwrap();
    assert_eq!(result.position, LogCursor::zero());
    // Empty emit still produces a fresh workflow_id.
    assert_ne!(result.workflow_id, 0);
    // No events written.
    assert!(r.log.events.is_empty());
}

#[test]
fn engine_engine_default_metadata_merges_under_per_emit_metadata() {
    let mut defaults: Metadata = Vec::new();
    set_member(&mut defaults, "_run_id", text("run-default"));
    set_member(&mut defaults, "_actor", text("service-a"));
    let mut r = start(builder().with_default_metadata(defaults));

    // Per-emit override: _run_id should win; _actor inherited; new key
    // _trace merges in.
    r.emit(
        EmitBuilder::new(EmitInput::one(&user(fresh())))
            .metadata("_run_id", text("run-override"))
            .metadata("_trace", text("abc123")),
    )
    .unwrap();
    let m = &r.log.events[0].metadata;
    assert!(is_text(member(m, "_run_id"), "run-override"), "per-emit overrides engine default");
    assert!(
        is_text(member(m, "_actor"), "service-a"),
        "engine default flows through when no per-emit override"
    );
    assert!(is_text(member(m, "_trace"), "abc123"), "per-emit-only keys merge in");
}

#[test]
fn a_boundary_stamps_its_name() {
    let r = running(vec![]);
    let b = r.engine.boundary("http").emit(EmitInput::one(&user(1)));
    let named = b.metadata.iter().any(|(_, v)| is_text(Some(v), "http"));
    assert!(named, "{:?}", b.metadata);
    assert!(r.engine.emit(EmitInput::one(&user(1))).metadata.is_empty());
}

#[test]
fn engine_with_aggregators_chainable_accumulation() {
    // Two aggregator definitions registered via two separate calls. Both must
    // fold the same Tick events — the second call accumulates onto the first.
    let b = builder()
        .with_aggregators(vec![folding::<TickCounter, Tick>()])
        .with_aggregators(vec![folding::<OtherCounter, Tick>()]);
    let mut r = start(b);
    let (mut a, mut b) = (Vec::new(), Vec::new());
    for i in 0..2 {
        r.one(tick(i));
        a.push(r.state_of::<TickCounter>(0).unwrap().count);
        b.push(r.state_of::<OtherCounter>(0).unwrap().count);
    }
    assert_eq!(a, vec![1, 2], "TickCounter (1st call) folded each event");
    assert_eq!(b, vec![1, 2], "OtherCounter (2nd call) folded each event");
}

#[test]
fn a_build_gives_every_consumer_its_own_registry() {
    let b = register(builder(), vec![folding::<TickCounter, Tick>()])
        .with_max_attempts(5)
        .with_snapshot_every(7);
    let mut r = start(with_projector(b, "a").with_multi_projector("b"));
    r.one(tick(0));
    assert_eq!(r.engine.max_attempts, 5);
    assert_eq!(r.engine.snapshot_every, 7);
    assert_eq!(r.engine.consumers.len(), 2);
    for consumer in &r.engine.consumers {
        let reg = consumer.aggregators.as_ref().unwrap();
        assert!(!reg.has_state("TickCounter:00000000-0000-0000-0000-000000000000"));
    }
}

/// A serial consumer over ticks: hydrates its registry up to the cursor once,
/// then folds each event before its body runs.
struct Projection {
    reg: AggregatorRegistry<Folds>,
    cursor: LogCursor,
    hydrated: bool,
}

impl Projection {
    fn new(cursor: LogCursor) -> Projection {
        let mut reg = AggregatorRegistry::new();
        reg.register(folding::<TickCounter, Tick>());
        Projection { reg, cursor, hydrated: false }
    }

    fn counts(&self) -> (u32, u32) {
        let (prev, curr) = self.reg.get_transition("TickCounter", 0);
        (
            prev.downcast_ref::<TickCounter>().unwrap().count,
            curr.downcast_ref::<TickCounter>().unwrap().count,
        )
    }

    fn step(
        &mut self,
        log: &Log,
        mut body: impl FnMut((u32, u32)) -> Result<(), ()>,
    ) -> Result<(), ()> {
        if !self.hydrated {
            let mut from = Some(LogCursor::zero());
            while let Some(after) = from {
                let batch = log.read_all(after, 1024);
                let part = ensure_hydrated(self.cursor, &batch);
                for event in &batch[..part.fold] {
                    fold_into(&mut self.reg, log, event, true);
                }
                from = part.read_from;
            }
            self.hydrated = true;
        }
        for event in log.read_all(self.cursor, 10) {
            fold_into(&mut self.reg, log, &event, true);
            body(self.counts())?;
            self.cursor = event.position;
        }
        Ok(())
    }
}

fn append_tick(r: &mut Running, seq: i64) -> LogCursor {
    r.one(tick(seq)).position
}

#[test]
fn project_failure_keeps_fold_and_retry_does_not_double_count() {
    // Fold tracks the log, not body success: after the failed step the
    // registry holds count=2; the retried step skips the re-fold.
    let mut r = running(vec![]);
    append_tick(&mut r, 0);
    append_tick(&mut r, 1);
    let mut projection = Projection::new(LogCursor::zero());
    let mut calls = 0;
    let mut body = |_: (u32, u32)| {
        calls += 1;
        if calls == 2 {
            Err(())
        } else {
            Ok(())
        }
    };
    assert!(projection.step(&r.log, &mut body).is_err(), "step propagates the project error");
    assert_eq!(projection.counts().1, 2, "fold persists through body failure");
    assert!(projection.step(&r.log, &mut body).is_ok(), "retried step succeeds");
    assert_eq!(projection.counts().1, 2, "re-delivered fold is an idempotent skip");
}

#[test]
fn projector_batch_sees_per_event_prev_curr_interleaved() {
    let mut r = running(vec![]);
    for i in 0..5 {
        append_tick(&mut r, i);
    }
    let mut transitions = Vec::new();
    Projection::new(LogCursor::zero())
        .step(&r.log, |counts| {
            transitions.push(counts);
            Ok(())
        })
        .unwrap();
    assert_eq!(transitions, vec![(0, 1), (1, 2), (2, 3), (3, 4), (4, 5)]);
}

#[test]
fn engine_hydration_does_not_double_fold_after_zero_cursor_first_step() {
    let mut r = running(vec![]);
    let mut projection = Projection::new(LogCursor::zero());
    let mut snaps = Vec::new();
    for i in 0..3 {
        append_tick(&mut r, i);
        projection
            .step(&r.log, |counts| {
                snaps.push(counts.1);
                Ok(())
            })
            .unwrap();
    }
    assert_eq!(
        snaps,
        vec![1, 2, 3],
        "each step folds exactly one new event; no replay double-folding"
    );
}

#[test]
fn engine_fresh_runner_hydrates_log_when_starting_at_nonzero_cursor() {
    let mut r = running(vec![]);
    append_tick(&mut r, 0);
    let pos2 = append_tick(&mut r, 1);
    append_tick(&mut r, 2);
    let mut snap = None;
    Projection::new(pos2)
        .step(&r.log, |counts| {
            snap = Some(counts.1);
            Ok(())
        })
        .unwrap();
    assert_eq!(
        snap,
        Some(3),
        "hydration folded the 2 historical events; step folded the new one"
    );
}

#[test]
fn transition_guard_prev_curr_correct_after_cold_start_hydration() {
    let mut r = running(vec![]);
    append_tick(&mut r, 0);
    let pos2 = append_tick(&mut r, 1);
    append_tick(&mut r, 2);
    let mut seen = None;
    Projection::new(pos2)
        .step(&r.log, |counts| {
            seen = Some(counts);
            Ok(())
        })
        .unwrap();
    assert_eq!(seen, Some((2, 3)));
}

#[test]
fn engine_projector_ctx_aggregate_curr_includes_current_event() {
    // The runner folds the event into the registry BEFORE the body runs.
    let mut r = running(vec![]);
    for i in 0..3 {
        append_tick(&mut r, i);
    }
    let mut snaps = Vec::new();
    Projection::new(LogCursor::zero())
        .step(&r.log, |counts| {
            snaps.push(counts.1);
            Ok(())
        })
        .unwrap();
    assert_eq!(snaps, vec![1, 2, 3], "the post-fold state, including the current event");
}

#[test]
fn engine_reactor_ctx_aggregate_sees_prev_to_curr_transition() {
    // A reactor folds on read, bounded at its trigger: after event N,
    // prev.count == N-1 and curr.count == N — on a redelivery as well.
    let mut r = running(vec![]);
    for i in 0..3 {
        append_tick(&mut r, i);
    }
    let reg = Projection::new(LogCursor::zero()).reg;
    let mut cache = FoldOnReadCache::new();
    let mut transitions = Vec::new();
    for event in &r.log.events {
        for _delivery in 0..2 {
            let fold =
                fold_bounded_start(&reg, "TickCounter", 0, event.position, &mut cache).unwrap();
            let batches = (0..fold.stream_count())
                .map(|i| r.log.read_stream(fold.stream(i), 0, fold.read_after(i)))
                .collect();
            let (prev, curr) = fold_bounded(&reg, fold, &batches, &mut cache).unwrap();
            transitions.push((
                prev.downcast_ref::<TickCounter>().unwrap().count,
                curr.downcast_ref::<TickCounter>().unwrap().count,
            ));
        }
    }
    assert_eq!(
        transitions,
        vec![(0, 1), (0, 1), (1, 2), (1, 2), (2, 3), (2, 3)],
        "(prev, curr) tracks the fold across each event"
    );
}
