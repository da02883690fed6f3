//! Plain coordinates and records of the event log.

use vstd::prelude::*;

use crate::json::{copy_members, member_views, Json, JsonView};

verus! {

/// An instant: seconds since the Unix epoch and nanoseconds within the second.
#[derive(Clone, Copy, Debug, PartialEq, Eq, Structural)]
pub struct Timestamp {
    pub secs: i64,
    pub nanos: u32,
}

impl Timestamp {
    /// Strictly earlier than `other`.
    pub open spec fn before(self, other: Timestamp) -> bool {
        self.secs < other.secs || (self.secs == other.secs && self.nanos < other.nanos)
    }

    pub fn is_before(&self, other: &Timestamp) -> (earlier: bool)
        ensures
            earlier == self.before(*other),
    {
        self.secs < other.secs || (self.secs == other.secs && self.nanos < other.nanos)
    }
}

/// A position in the global log. Zero stands before the first event.
#[derive(Clone, Copy, Debug, PartialEq, Eq, Structural)]
pub struct LogCursor(pub u64);

impl LogCursor {
    pub fn zero() -> (cursor: LogCursor)
        ensures
            cursor == LogCursor(0),
    {
        LogCursor(0)
    }

    pub fn from_raw(raw: u64) -> (cursor: LogCursor)
        ensures
            cursor == LogCursor(raw),
    {
        LogCursor(raw)
    }

    pub fn raw(&self) -> (raw: u64)
        ensures
            raw == self.0,
    {
        self.0
    }
}

/// The zero-based index of an event in its own stream. As a watermark it is
/// the next index expected, so zero also reads "nothing folded".
#[derive(Clone, Copy, Debug, PartialEq, Eq, Structural)]
pub struct StreamRevision(pub u64);

impl StreamRevision {
    pub fn zero() -> (revision: StreamRevision)
        ensures
            revision == StreamRevision(0),
    {
        StreamRevision(0)
    }

    pub fn from_raw(raw: u64) -> (revision: StreamRevision)
        ensures
            revision == StreamRevision(raw),
    {
        StreamRevision(raw)
    }

    pub fn raw(&self) -> (raw: u64)
        ensures
            raw == self.0,
    {
        self.0
    }
}

/// What an append must find: the optimistic concurrency expectation.
#[derive(Clone, Copy, Debug, PartialEq, Eq, Structural)]
pub enum StreamState {
    /// No expectation.
    Any,
    /// The stream has no events.
    NoStream,
    /// The stream has at least one event.
    StreamExists,
    /// The last event of the stream has this revision.
    StreamRevision(StreamRevision),
}

/// Metadata of an event: members in ascending key order.
pub type Metadata = Vec<(String, Json)>;

/// An event as it is handed to the log.
#[derive(Debug)]
pub struct EventData {
    pub event_id: u128,
    pub causation_id: Option<u128>,
    pub workflow_id: u128,
    pub event_type: String,
    pub payload: Json,
    pub created_at: Timestamp,
    pub category: Option<String>,
    pub subject_id: Option<u128>,
    pub metadata: Metadata,
    pub persistent: bool,
}

/// An event as it is handed to the log, as mathematics.
pub struct EventView {
    pub event_id: u128,
    pub causation_id: Option<u128>,
    pub workflow_id: u128,
    pub event_type: Seq<char>,
    pub payload: JsonView,
    pub created_at: Timestamp,
    pub category: Option<Seq<char>>,
    pub subject_id: Option<u128>,
    pub metadata: Seq<(Seq<char>, JsonView)>,
    pub persistent: bool,
}

impl View for EventData {
    type V = EventView;

    open spec fn view(&self) -> EventView {
        EventView {
            event_id: self.event_id,
            causation_id: self.causation_id,
            workflow_id: self.workflow_id,
            event_type: self.event_type@,
            payload: self.payload@,
            created_at: self.created_at,
            category: match self.category {
                Some(c) => Some(c@),
                None => None,
            },
            subject_id: self.subject_id,
            metadata: member_views(self.metadata@),
            persistent: self.persistent,
        }
    }
}

/// The events of a list.
pub open spec fn event_views(events: Seq<EventData>) -> Seq<EventView> {
    Seq::new(events.len(), |i: int| events[i]@)
}

impl EventData {
    /// A copy of the event.
    pub fn copy(&self) -> (r: EventData)
        ensures
            r@ == self@,
    {
        EventData {
            event_id: self.event_id,
            causation_id: self.causation_id,
            workflow_id: self.workflow_id,
            event_type: self.event_type.clone(),
            payload: self.payload.copy(),
            created_at: self.created_at,
            category: self.category.clone(),
            subject_id: self.subject_id,
            metadata: copy_members(&self.metadata),
            persistent: self.persistent,
        }
    }
}

/// An event as the log returns it.
#[derive(Debug)]
pub struct RecordedEvent {
    pub position: LogCursor,
    pub revision: StreamRevision,
    pub event_id: u128,
    pub causation_id: Option<u128>,
    pub workflow_id: u128,
    pub event_type: String,
    pub payload: Json,
    pub created_at: Timestamp,
    pub category: String,
    pub subject_id: u128,
    pub metadata: Metadata,
}

/// Where a recorded event sits in the log and what it carries: all that a
/// fold reads of it.
pub struct Delivery {
    pub event_type: Seq<char>,
    pub payload: JsonView,
    pub subject_id: u128,
    pub category: Seq<char>,
    pub revision: u64,
    pub position: u64,
}

impl RecordedEvent {
    pub open spec fn delivery(&self) -> Delivery {
        Delivery {
            event_type: self.event_type@,
            payload: self.payload@,
            subject_id: self.subject_id,
            category: self.category@,
            revision: self.revision.0,
            position: self.position.0,
        }
    }
}

/// Where a recorded event stands in its causal chain.
pub struct Trace {
    pub event_id: u128,
    pub causation_id: Option<u128>,
    pub workflow_id: u128,
    pub position: u64,
}

impl RecordedEvent {
    pub open spec fn trace(&self) -> Trace {
        Trace {
            event_id: self.event_id,
            causation_id: self.causation_id,
            workflow_id: self.workflow_id,
            position: self.position.0,
        }
    }
}

/// The traces of a sequence of recorded events.
pub open spec fn traces(events: Seq<RecordedEvent>) -> Seq<Trace> {
    Seq::new(events.len(), |i: int| events[i].trace())
}

/// The deliveries of a sequence of recorded events.
pub open spec fn deliveries(events: Seq<RecordedEvent>) -> Seq<Delivery> {
    Seq::new(events.len(), |i: int| events[i].delivery())
}

/// What a successful append reports: where its last event landed.
#[derive(Clone, Copy, Debug, PartialEq, Eq, Structural)]
pub struct WriteResult {
    pub position: LogCursor,
    pub revision: StreamRevision,
}

/// A stored aggregate state.
#[derive(Debug)]
pub struct Snapshot {
    pub aggregate_type: String,
    pub aggregate_id: u128,
    /// The revision of the last event folded into `state`.
    pub revision: StreamRevision,
    pub state: Json,
    pub created_at: Timestamp,
}

} // verus!
