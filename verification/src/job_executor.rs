//! Routing of events to queued reactors, and what comes of running one.
//!
//! Decoding, running bodies and mapping terminal failures is the caller's
//! business; which reactors run when, how an attempt ends, and what is emitted
//! is decided here.

use vstd::prelude::*;
use vstd::string::StrSliceExecFns;
use vstd::utf8::encode_utf8;

use crate::contexts::LogEntry;
use crate::failure::Error;
use crate::ids::{id_chars, id_named, id_text, named_id};
use crate::instants::LAST_SECOND;
use crate::json::{
    find_member, lemma_json_view, lemma_member_at, member, member_at, member_views, Json, JsonView, Number,
};
use crate::text::same;
use crate::types::{LogCursor, Metadata, Timestamp};

verus! {

/// A span of time.
#[derive(Clone, Copy, Debug, PartialEq, Eq, Structural)]
pub struct Delay {
    pub secs: u64,
    /// Below one second.
    pub nanos: u32,
}

/// Whether a delay can be added to an instant at all: at most as many
/// milliseconds as an `i64` counts.
pub open spec fn delay_fits(d: Delay) -> bool {
    d.secs < 9223372036854775 || (d.secs == 9223372036854775 && d.nanos <= 807_000_000)
}

/// The instant a delay later.
pub open spec fn later(at: Timestamp, d: Delay) -> (int, int) {
    let nanos = at.nanos + d.nanos;
    if nanos >= 1_000_000_000 {
        (at.secs + d.secs + 1, nanos - 1_000_000_000)
    } else {
        (at.secs + d.secs, nanos)
    }
}

/// An event that was persisted.
#[derive(Debug)]
pub struct PersistedEvent {
    pub position: LogCursor,
    pub event_id: u128,
    pub parent_id: Option<u128>,
    pub correlation_id: u128,
    pub event_type: String,
    pub payload: Json,
    pub metadata: Metadata,
}

/// What is registered of a reactor.
#[derive(Debug)]
pub struct ReactorInfo {
    pub id: String,
    pub delay: Option<Delay>,
    pub timeout: Option<Delay>,
    pub max_attempts: u32,
    pub priority: Option<i32>,
    /// Whether it maps its own terminal failures to an event.
    pub maps_terminal: bool,
}

/// A reactor to be queued.
#[derive(Debug)]
pub struct ReactorIntent {
    pub reactor_id: String,
    pub parent_event_id: Option<u128>,
    pub execute_at: Timestamp,
    pub timeout_seconds: i32,
    pub max_attempts: i32,
    pub priority: i32,
    pub hops: i32,
}

/// A reactor to be queued, as mathematics.
pub struct IntentView {
    pub reactor_id: Seq<char>,
    pub parent_event_id: Option<u128>,
    pub execute_at: Timestamp,
    pub timeout_seconds: i32,
    pub max_attempts: i32,
    pub priority: i32,
    pub hops: i32,
}

impl View for ReactorIntent {
    type V = IntentView;

    open spec fn view(&self) -> IntentView {
        IntentView {
            reactor_id: self.reactor_id@,
            parent_event_id: self.parent_event_id,
            execute_at: self.execute_at,
            timeout_seconds: self.timeout_seconds,
            max_attempts: self.max_attempts,
            priority: self.priority,
            hops: self.hops,
        }
    }
}

/// A projection that failed on an event.
#[derive(Debug)]
pub struct ProjectionFailure {
    pub reactor_id: String,
    pub error: String,
    pub reason: String,
    pub attempts: i32,
}

/// What running a projection gave: its id, and its error where it failed.
#[derive(Debug)]
pub struct ProjectionRun {
    pub id: String,
    pub error: Option<String>,
}

/// A failed projection, as mathematics.
pub struct FailureView {
    pub reactor_id: Seq<char>,
    pub error: Seq<char>,
    pub reason: Seq<char>,
    pub attempts: i32,
}

impl View for ProjectionFailure {
    type V = FailureView;

    open spec fn view(&self) -> FailureView {
        FailureView {
            reactor_id: self.reactor_id@,
            error: self.error@,
            reason: self.reason@,
            attempts: self.attempts,
        }
    }
}

/// What processing an event commits.
#[derive(Debug)]
pub struct IntentCommit {
    pub event_id: u128,
    pub correlation_id: u128,
    pub event_type: String,
    pub event_payload: Json,
    pub checkpoint: LogCursor,
    pub intents: Vec<ReactorIntent>,
    pub projection_failures: Vec<ProjectionFailure>,
    /// What reactors say of themselves, by id in ascending order.
    pub reactor_descriptions: Metadata,
}

/// How often an event was handed on, as its metadata records it.
pub open spec fn hops_of(metadata: Seq<(Seq<char>, JsonView)>) -> i32 {
    match member(metadata, "_hops"@) {
        Some(JsonView::Number(Number::PosInt(n))) => n as i32,
        _ => 0,
    }
}

/// How long a reactor may run: fifteen minutes unless it says otherwise, and
/// at least a second.
pub open spec fn timeout_of(timeout: Option<Delay>) -> i32 {
    let secs = match timeout {
        Some(d) => d.secs as i32,
        None => 900,
    };
    if secs > 1 {
        secs
    } else {
        1
    }
}

/// When a reactor runs.
pub open spec fn start_of(now: Timestamp, delay: Option<Delay>) -> Timestamp {
    match delay {
        Some(d) => Timestamp { secs: later(now, d).0 as i64, nanos: later(now, d).1 as u32 },
        None => now,
    }
}

/// The intent of a reactor for an event.
pub open spec fn intent_of(event: PersistedEvent, reactor: ReactorInfo, now: Timestamp) -> IntentView {
    IntentView {
        reactor_id: reactor.id@,
        parent_event_id: event.parent_id,
        execute_at: start_of(now, reactor.delay),
        timeout_seconds: timeout_of(reactor.timeout),
        max_attempts: reactor.max_attempts as i32,
        priority: match reactor.priority {
            Some(p) => p,
            None => 10,
        },
        hops: hops_of(member_views(event.metadata@)),
    }
}

/// The failures of a sequence of projection runs, in order.
pub open spec fn failures_of(runs: Seq<ProjectionRun>) -> Seq<FailureView>
    decreases runs.len(),
{
    if runs.len() == 0 {
        Seq::empty()
    } else {
        match runs.last().error {
            Some(error) => failures_of(runs.drop_last()).push(
                FailureView {
                    reactor_id: runs.last().id@,
                    error: error@,
                    reason: "projection_failed"@,
                    attempts: 1,
                },
            ),
            None => failures_of(runs.drop_last()),
        }
    }
}

/// Whether a reactor's delay, counted from a reading of the clock, ends before
/// the calendar does, where the delay is one that can be.
pub open spec fn ends_in_calendar(reactor: ReactorInfo, now: Timestamp) -> bool {
    &&& now.nanos < 1_000_000_000
    &&& reactor.delay matches Some(d) ==> d.nanos < 1_000_000_000 && (delay_fits(d) ==> later(
        now,
        d,
    ).0 <= LAST_SECOND)
}

/// Whether the delay of a reactor is one that cannot be.
pub open spec fn bad_delay(reactor: ReactorInfo) -> bool {
    reactor.delay matches Some(d) && !delay_fits(d)
}

/// The seconds of an intent's timeout.
fn timeout_seconds(timeout: Option<Delay>) -> (secs: i32)
    ensures
        secs == timeout_of(timeout),
{
    let secs: i32 = match timeout {
        Some(d) => d.secs as i32,
        None => 900,
    };
    if secs > 1 {
        secs
    } else {
        1
    }
}

/// The hops that metadata records.
fn read_hops(metadata: &Metadata) -> (hops: i32)
    ensures
        hops == hops_of(member_views(metadata@)),
{
    match find_member(metadata, "_hops") {
        Some(i) => {
            proof {
                lemma_member_at(member_views(metadata@), "_hops"@);
            }
            match &metadata[i].1 {
                Json::Number(Number::PosInt(n)) => *n as i32,
                _ => 0,
            }
        },
        None => 0,
    }
}

/// Whether the reactor at `i` takes the event.
pub open spec fn takes(taken_at: Seq<Option<Timestamp>>, i: int) -> bool {
    taken_at[i] is Some
}

/// The intents for an event, in registration order: one for each reactor that
/// takes it, from its own reading of the clock.
pub open spec fn intents_of(
    event: PersistedEvent,
    reactors: Seq<ReactorInfo>,
    taken_at: Seq<Option<Timestamp>>,
    n: nat,
) -> Seq<IntentView>
    decreases n,
{
    if n == 0 {
        Seq::empty()
    } else {
        let before = intents_of(event, reactors, taken_at, (n - 1) as nat);
        match taken_at[n - 1] {
            Some(now) => before.push(intent_of(event, reactors[n - 1], now)),
            None => before,
        }
    }
}

/// The views of a list of intents.
pub open spec fn intent_views(intents: Seq<ReactorIntent>) -> Seq<IntentView> {
    Seq::new(intents.len(), |i: int| intents[i]@)
}

/// Whether every reactor that takes an event is one whose delay can be counted.
pub open spec fn all_end_in_calendar(
    reactors: Seq<ReactorInfo>,
    taken_at: Seq<Option<Timestamp>>,
) -> bool {
    forall|i: int|
        0 <= i < reactors.len() ==> (#[trigger] taken_at[i] matches Some(now) ==> ends_in_calendar(
            reactors[i],
            now,
        ))
}

/// The intents of the reactors that take an event, each with its own reading
/// of the clock. It fails exactly where one has a delay that cannot be.
fn plan_intents(
    event: &PersistedEvent,
    reactors: &Vec<ReactorInfo>,
    taken_at: &Vec<Option<Timestamp>>,
) -> (r: Result<Vec<ReactorIntent>, Error>)
    requires
        taken_at@.len() == reactors@.len(),
        all_end_in_calendar(reactors@, taken_at@),
    ensures
        match r {
            Ok(intents) => intent_views(intents@) == intents_of(
                *event,
                reactors@,
                taken_at@,
                reactors@.len(),
            ) && forall|i: int|
                0 <= i < reactors@.len() && #[trigger] takes(taken_at@, i) ==> !bad_delay(
                    reactors@[i],
                ),
            Err(e) => (e matches Error::Message(m) && m@ == "invalid reactor delay"@) && exists|
                i: int,
            |
                0 <= i < reactors@.len() && #[trigger] takes(taken_at@, i) && bad_delay(
                    reactors@[i],
                ),
        },
{
    let hops = read_hops(&event.metadata);
    let mut intents: Vec<ReactorIntent> = Vec::new();
    let mut i: usize = 0;
    assert(intent_views(intents@) =~= Seq::<IntentView>::empty());
    while i < reactors.len()
        invariant
            i <= reactors@.len(),
            taken_at@.len() == reactors@.len(),
            hops == hops_of(member_views(event.metadata@)),
            all_end_in_calendar(reactors@, taken_at@),
            intent_views(intents@) == intents_of(*event, reactors@, taken_at@, i as nat),
            forall|j: int|
                0 <= j < i && #[trigger] takes(taken_at@, j) ==> !bad_delay(reactors@[j]),
        decreases reactors@.len() - i,
    {
        let ghost before = intents@;
        if let Some(now) = taken_at[i] {
            let reactor = &reactors[i];
            let execute_at = match reactor.delay {
                Some(d) => {
                    let fits = d.secs < 9223372036854775 || (d.secs == 9223372036854775 && d.nanos
                        <= 807_000_000);
                    if !fits {
                        assert(takes(taken_at@, i as int));
                        return Err(Error::msg("invalid reactor delay"));
                    }
                    assert(delay_fits(d));
                    let nanos = now.nanos + d.nanos;
                    if nanos >= 1_000_000_000 {
                        Timestamp {
                            secs: now.secs + 1 + (d.secs as i64),
                            nanos: nanos - 1_000_000_000,
                        }
                    } else {
                        Timestamp { secs: now.secs + (d.secs as i64), nanos }
                    }
                },
                None => now,
            };
            let priority: i32 = match reactor.priority {
                Some(p) => p,
                None => 10,
            };
            intents.push(
                ReactorIntent {
                    reactor_id: reactor.id.clone(),
                    parent_event_id: event.parent_id,
                    execute_at,
                    timeout_seconds: timeout_seconds(reactor.timeout),
                    max_attempts: reactor.max_attempts as i32,
                    priority,
                    hops,
                },
            );
            assert(intent_views(intents@) =~= intent_views(before).push(
                intent_of(*event, reactors@[i as int], now),
            ));
        }
        i += 1;
    }
    Ok(intents)
}

/// The failures of projection runs.
fn collect_failures(runs: Vec<ProjectionRun>) -> (list: Vec<ProjectionFailure>)
    ensures
        Seq::new(list@.len(), |i: int| list@[i]@) == failures_of(runs@),
{
    let mut list: Vec<ProjectionFailure> = Vec::new();
    let mut i: usize = 0;
    assert(runs@.take(0) =~= Seq::<ProjectionRun>::empty());
    assert(Seq::new(list@.len(), |i: int| list@[i]@) =~= Seq::<FailureView>::empty());
    while i < runs.len()
        invariant
            i <= runs@.len(),
            Seq::new(list@.len(), |i: int| list@[i]@) == failures_of(runs@.take(i as int)),
        decreases runs@.len() - i,
    {
        let ghost was = list@;
        assert(runs@.take(i + 1).drop_last() =~= runs@.take(i as int));
        match &runs[i].error {
            Some(error) => {
                list.push(
                    ProjectionFailure {
                        reactor_id: runs[i].id.clone(),
                        error: error.clone(),
                        reason: "projection_failed".to_owned(),
                        attempts: 1,
                    },
                );
                assert(Seq::new(list@.len(), |i: int| list@[i]@) =~= Seq::new(
                    was.len(),
                    |i: int| was[i]@,
                ).push(list@.last()@));
            },
            None => {},
        }
        i += 1;
    }
    assert(runs@.take(i as int) =~= runs@);
    list
}

/// Whether `r` is what processing an event commits: it fails exactly where a
/// reactor that takes the event has a delay that cannot be.
pub open spec fn is_commit(
    r: Result<IntentCommit, Error>,
    event: PersistedEvent,
    reactors: Seq<ReactorInfo>,
    taken_at: Seq<Option<Timestamp>>,
    descriptions: Metadata,
    projections: Seq<ProjectionRun>,
    skip_projections: bool,
) -> bool {
    match r {
        Ok(commit) => {
            &&& commit.event_id == event.event_id
            &&& commit.correlation_id == event.correlation_id
            &&& commit.event_type@ == event.event_type@
            &&& commit.event_payload@ == event.payload@
            &&& commit.checkpoint == event.position
            &&& intent_views(commit.intents@) == intents_of(
                event,
                reactors,
                taken_at,
                reactors.len(),
            )
            &&& forall|i: int|
                0 <= i < reactors.len() && #[trigger] takes(taken_at, i) ==> !bad_delay(
                    reactors[i],
                )
            &&& Seq::new(
                commit.projection_failures@.len(),
                |i: int| commit.projection_failures@[i]@,
            ) == (if skip_projections {
                Seq::empty()
            } else {
                failures_of(projections)
            })
            &&& commit.reactor_descriptions == descriptions
        },
        Err(e) => (e matches Error::Message(m) && m@ == "invalid reactor delay"@) && exists|
            i: int,
        |
            0 <= i < reactors.len() && #[trigger] takes(taken_at, i) && bad_delay(reactors[i]),
    }
}

/// The first reactor of an id.
pub open spec fn reactor_of(reactors: Seq<ReactorInfo>, id: Seq<char>) -> Option<ReactorInfo>
    decreases reactors.len(),
{
    if reactors.len() == 0 {
        None
    } else if reactors[0].id@ == id {
        Some(reactors[0])
    } else {
        reactor_of(reactors.drop_first(), id)
    }
}

/// Routes events to reactors and concludes their attempts.
pub struct JobExecutor {
    reactors: Vec<ReactorInfo>,
    has_global_mapper: bool,
}

impl JobExecutor {
    /// The registered reactors.
    pub closed spec fn reactors(&self) -> Seq<ReactorInfo> {
        self.reactors@
    }

    /// Whether there is a mapper for terminal failures of every reactor.
    pub closed spec fn has_global_mapper(&self) -> bool {
        self.has_global_mapper
    }

    pub fn new(reactors: Vec<ReactorInfo>, has_global_mapper: bool) -> (executor: JobExecutor)
        ensures
            executor.reactors() == reactors@,
            executor.has_global_mapper() == has_global_mapper,
    {
        JobExecutor { reactors, has_global_mapper }
    }

    /// The registered reactors.
    pub fn reactor_registry(&self) -> (reactors: &Vec<ReactorInfo>)
        ensures
            reactors@ == self.reactors(),
    {
        &self.reactors
    }

    /// The reactor of an id.
    pub fn find_by_id(&self, id: &str) -> (found: Option<&ReactorInfo>)
        ensures
            match found {
                Some(r) => reactor_of(self.reactors(), id@) == Some(*r),
                None => reactor_of(self.reactors(), id@) is None,
            },
    {
        let ghost all = self.reactors@;
        let mut i: usize = 0;
        assert(all.skip(0) =~= all);
        while i < self.reactors.len()
            invariant
                i <= self.reactors@.len(),
                all == self.reactors@,
                reactor_of(all, id@) == reactor_of(all.skip(i as int), id@),
            decreases self.reactors@.len() - i,
        {
            assert(all.skip(i as int)[0] == all[i as int]);
            if same(self.reactors[i].id.as_str(), id) {
                return Some(&self.reactors[i]);
            }
            assert(all.skip(i as int).drop_first() =~= all.skip(i + 1));
            i += 1;
        }
        None
    }

    /// What processing a persisted event commits. `taken_at` runs beside the
    /// registered reactors: for one that takes the event it holds a reading of
    /// the clock.
    pub fn process_event(
        &self,
        event: &PersistedEvent,
        taken_at: &Vec<Option<Timestamp>>,
        descriptions: Metadata,
        projections: Vec<ProjectionRun>,
    ) -> (r: Result<IntentCommit, Error>)
        requires
            taken_at@.len() == self.reactors().len(),
            all_end_in_calendar(self.reactors(), taken_at@),
        ensures
            is_commit(
                r,
                *event,
                self.reactors(),
                taken_at@,
                descriptions,
                projections@,
                false,
            ),
    {
        self.process_event_inner(event, taken_at, descriptions, projections, false)
    }

    /// What processing an event commits, given what its projections gave and what
    /// the reactors say of themselves. Projections are left out for events that
    /// are not persisted.
    pub fn process_event_inner(
        &self,
        event: &PersistedEvent,
        taken_at: &Vec<Option<Timestamp>>,
        descriptions: Metadata,
        projections: Vec<ProjectionRun>,
        skip_projections: bool,
    ) -> (r: Result<IntentCommit, Error>)
        requires
            taken_at@.len() == self.reactors().len(),
            all_end_in_calendar(self.reactors(), taken_at@),
        ensures
            is_commit(
                r,
                *event,
                self.reactors(),
                taken_at@,
                descriptions,
                projections@,
                skip_projections,
            ),
    {
        let intents = match plan_intents(event, &self.reactors, taken_at) {
            Ok(intents) => intents,
            Err(e) => {
                return Err(e);
            },
        };
        let projection_failures = if skip_projections {
            let list: Vec<ProjectionFailure> = Vec::new();
            assert(Seq::new(list@.len(), |i: int| list@[i]@) =~= Seq::<FailureView>::empty());
            list
        } else {
            collect_failures(projections)
        };
        Ok(
            IntentCommit {
                event_id: event.event_id,
                correlation_id: event.correlation_id,
                event_type: event.event_type.clone(),
                event_payload: event.payload.copy(),
                checkpoint: event.position,
                intents,
                projection_failures,
                reactor_descriptions: descriptions,
            },
        )
    }

    /// Decides what is to be done after a body was run: a success emits what the
    /// body returned, a failure or a timeout is retried until the attempts are
    /// used up, and a terminal one is mapped to an event where someone maps it. A
    /// reactor that is not registered fails in the same way, and is never mapped.
    pub fn execute_reactor(
        &self,
        execution: &QueuedReactor,
        outcome: BodyOutcome,
        log_entries: Vec<LogEntry>,
    ) -> (step: AttemptStep)
        ensures
            match reactor_of(self.reactors(), execution.reactor_id@) {
                None => step matches AttemptStep::Done(r) && is_unknown_result(r, *execution),
                Some(reactor) => match outcome {
                    BodyOutcome::Returned(outputs) => step matches AttemptStep::Done(r) && r.status@
                        == StatusView::Success && emitted_views(r.emitted_events@) == emitted_of(
                        outputs@,
                        execution.reactor_id@,
                    ) && r.result@ == ok_result() && r.log_entries == log_entries,
                    BodyOutcome::Failed(e) => is_failure_step(
                        step,
                        *execution,
                        reactor,
                        self.has_global_mapper(),
                        "failed"@,
                        e.display(),
                        log_entries,
                    ),
                    BodyOutcome::TimedOut => is_failure_step(
                        step,
                        *execution,
                        reactor,
                        self.has_global_mapper(),
                        "timeout"@,
                        "Reactor execution timed out"@,
                        log_entries,
                    ),
                },
            },
    {
        let reactor = match self.find_by_id(execution.reactor_id.as_str()) {
            Some(reactor) => reactor,
            None => {
                return AttemptStep::Done(unknown_reactor(execution));
            },
        };
        let has_global_mapper = self.has_global_mapper;
        match outcome {
            BodyOutcome::Returned(outputs) => {
                let emitted_events = serialize_emitted_events(&outputs, execution);
                let mut members: Vec<(String, Json)> = Vec::new();
                members.push(("status".to_owned(), Json::Str("ok".to_owned())));
                let result = Json::Object(members);
                proof {
                    lemma_json_view(result);
                    lemma_json_view(members@[0].1);
                    assert(member_views(members@) =~= seq![("status"@, JsonView::Str("ok"@))]);
                }
                AttemptStep::Done(
                    ReactorResult {
                        status: ReactorStatus::Success,
                        emitted_events,
                        result,
                        log_entries,
                    },
                )
            },
            BodyOutcome::Failed(e) => after_failure(
                execution,
                reactor,
                has_global_mapper,
                "failed",
                e.to_text(),
                log_entries,
            ),
            BodyOutcome::TimedOut => after_failure(
                execution,
                reactor,
                has_global_mapper,
                "timeout",
                "Reactor execution timed out".to_owned(),
                log_entries,
            ),
        }
    }
}

/// The key under which a consumer handles an event at most once: the text of
/// the id named by the event's id and the consumer's.
pub open spec fn idempotency_name(event_id: u128, consumer: Seq<char>) -> Seq<char> {
    id_chars(event_id) + "-"@ + consumer
}

/// The idempotency key of a consumer for an event.
pub fn idempotency_key(namespace: u128, event_id: u128, consumer: &str) -> (key: String)
    ensures
        key@ == id_chars(named_id(namespace, encode_utf8(idempotency_name(event_id, consumer@)))),
{
    let mut name = id_text(event_id);
    name.append("-");
    name.append(consumer);
    let bytes = name.as_str().as_bytes_vec();
    id_text(id_named(namespace, bytes.as_slice()))
}

/// The ids that a reactor body is run with.
#[derive(Debug)]
pub struct ReactorContext {
    pub reactor_id: String,
    pub idempotency_key: String,
    pub correlation_id: u128,
    pub event_id: u128,
    pub parent_event_id: Option<u128>,
}

/// The context in which a reactor describes itself after an event.
pub fn describe_context(reactor_id: &str, event: &PersistedEvent) -> (ctx: ReactorContext)
    ensures
        ctx.reactor_id@ == reactor_id@,
        ctx.idempotency_key@ == "describe::"@ + reactor_id@,
        ctx.correlation_id == event.correlation_id,
        ctx.event_id == event.event_id,
        ctx.parent_event_id == event.parent_id,
{
    let mut key = "describe::".to_owned();
    key.append(reactor_id);
    make_context(reactor_id, key, event.correlation_id, event.event_id, event.parent_id)
}

/// The context in which a reactor starts.
pub fn startup_context(reactor_id: &str) -> (ctx: ReactorContext)
    ensures
        ctx.reactor_id@ == reactor_id@,
        ctx.idempotency_key@ == "startup::"@ + reactor_id@,
        ctx.correlation_id == 0,
        ctx.event_id == 0,
        ctx.parent_event_id is None,
{
    let mut key = "startup::".to_owned();
    key.append(reactor_id);
    make_context(reactor_id, key, 0, 0, None)
}

/// The context in which a projection sees an event.
pub fn projection_context(namespace: u128, projection_id: &str, event: &PersistedEvent) -> (ctx:
    ReactorContext)
    ensures
        ctx.reactor_id@ == projection_id@,
        ctx.idempotency_key@ == id_chars(
            named_id(namespace, encode_utf8(idempotency_name(event.event_id, projection_id@))),
        ),
        ctx.correlation_id == event.correlation_id,
        ctx.event_id == event.event_id,
        ctx.parent_event_id == event.parent_id,
{
    let key = idempotency_key(namespace, event.event_id, projection_id);
    make_context(projection_id, key, event.correlation_id, event.event_id, event.parent_id)
}

/// The context in which a queued reactor runs.
pub fn execution_context(namespace: u128, execution: &QueuedReactor) -> (ctx: ReactorContext)
    ensures
        ctx.reactor_id@ == execution.reactor_id@,
        ctx.idempotency_key@ == id_chars(
            named_id(
                namespace,
                encode_utf8(idempotency_name(execution.event_id, execution.reactor_id@)),
            ),
        ),
        ctx.correlation_id == execution.correlation_id,
        ctx.event_id == execution.event_id,
        ctx.parent_event_id == execution.parent_event_id,
{
    let key = idempotency_key(namespace, execution.event_id, execution.reactor_id.as_str());
    make_context(
        execution.reactor_id.as_str(),
        key,
        execution.correlation_id,
        execution.event_id,
        execution.parent_event_id,
    )
}

fn make_context(
    reactor_id: &str,
    idempotency_key: String,
    correlation_id: u128,
    event_id: u128,
    parent_event_id: Option<u128>,
) -> (ctx: ReactorContext)
    ensures
        ctx.reactor_id@ == reactor_id@,
        ctx.idempotency_key == idempotency_key,
        ctx.correlation_id == correlation_id,
        ctx.event_id == event_id,
        ctx.parent_event_id == parent_event_id,
{
    ReactorContext {
        reactor_id: reactor_id.to_owned(),
        idempotency_key,
        correlation_id,
        event_id,
        parent_event_id,
    }
}

/// Why starting failed.
pub fn startup_error(reactor_id: &str, error: &Error) -> (e: Error)
    ensures
        e matches Error::Message(m) && m@ == "startup reactor '"@ + reactor_id@ + "' failed: "@
            + error.display(),
{
    let mut text = "startup reactor '".to_owned();
    text.append(reactor_id);
    text.append("' failed: ");
    text.append(error.to_text().as_str());
    Error::Message(text)
}

/// How the body of an event is obtained for its reactors.
#[derive(Clone, Copy, Debug, PartialEq, Eq, Structural)]
pub enum DecodePath {
    /// The value that came along in the process.
    InProcess,
    /// The codec of its kind, after upcasting.
    Codec,
    /// The JSON as it is, after upcasting.
    Raw,
}

/// Chooses how to decode. The value that came along is only used where nothing
/// is upcast and it is of the type that the codec of its kind gives.
pub fn decode_event(
    in_process_type: Option<u128>,
    upcasters_empty: bool,
    codec_type: Option<u128>,
) -> (path: DecodePath)
    ensures
        path == (if codec_type is None {
            DecodePath::Raw
        } else if in_process_type == codec_type && upcasters_empty {
            DecodePath::InProcess
        } else {
            DecodePath::Codec
        }),
{
    match codec_type {
        Some(codec) => match in_process_type {
            Some(held) => if upcasters_empty && held == codec {
                DecodePath::InProcess
            } else {
                DecodePath::Codec
            },
            None => DecodePath::Codec,
        },
        None => DecodePath::Raw,
    }
}

/// A reactor taken from the queue.
#[derive(Debug)]
pub struct QueuedReactor {
    pub reactor_id: String,
    pub correlation_id: u128,
    pub event_id: u128,
    pub parent_event_id: Option<u128>,
    pub event_type: String,
    pub attempts: i32,
    pub max_attempts: i32,
    pub timeout_seconds: i32,
}

/// An event that a reactor returned.
#[derive(Debug)]
pub struct EventOutput {
    pub durable_name: String,
    pub event_prefix: String,
    pub persistent: bool,
    pub payload: Json,
}

/// An event that an attempt emits.
#[derive(Debug)]
pub struct EmittedEvent {
    pub durable_name: String,
    pub event_prefix: String,
    pub persistent: bool,
    pub payload: Json,
    pub reactor_id: Option<String>,
}

/// An emitted event, as mathematics.
pub struct EmittedView {
    pub durable_name: Seq<char>,
    pub event_prefix: Seq<char>,
    pub persistent: bool,
    pub payload: JsonView,
    pub reactor_id: Option<Seq<char>>,
}

impl View for EmittedEvent {
    type V = EmittedView;

    open spec fn view(&self) -> EmittedView {
        EmittedView {
            durable_name: self.durable_name@,
            event_prefix: self.event_prefix@,
            persistent: self.persistent,
            payload: self.payload@,
            reactor_id: match self.reactor_id {
                Some(id) => Some(id@),
                None => None,
            },
        }
    }
}

/// The events of a list, as mathematics.
pub open spec fn emitted_views(list: Seq<EmittedEvent>) -> Seq<EmittedView> {
    Seq::new(list.len(), |i: int| list[i]@)
}

/// What is emitted for the events that a reactor returned: each, in order,
/// with the reactor's id.
pub open spec fn emitted_of(outputs: Seq<EventOutput>, reactor_id: Seq<char>) -> Seq<EmittedView> {
    Seq::new(
        outputs.len(),
        |i: int|
            EmittedView {
                durable_name: outputs[i].durable_name@,
                event_prefix: outputs[i].event_prefix@,
                persistent: outputs[i].persistent,
                payload: outputs[i].payload@,
                reactor_id: Some(reactor_id),
            },
    )
}

/// What is emitted for the events that a reactor returned.
pub fn serialize_emitted_events(emitted: &Vec<EventOutput>, execution: &QueuedReactor) -> (list: Vec<
    EmittedEvent,
>)
    ensures
        emitted_views(list@) == emitted_of(emitted@, execution.reactor_id@),
{
    let mut list: Vec<EmittedEvent> = Vec::new();
    let mut i: usize = 0;
    while i < emitted.len()
        invariant
            i <= emitted@.len(),
            list@.len() == i,
            forall|j: int|
                0 <= j < i ==> (#[trigger] list@[j])@ == emitted_of(
                    emitted@,
                    execution.reactor_id@,
                )[j],
        decreases emitted@.len() - i,
    {
        let output = &emitted[i];
        list.push(
            EmittedEvent {
                durable_name: output.durable_name.clone(),
                event_prefix: output.event_prefix.clone(),
                persistent: output.persistent,
                payload: output.payload.copy(),
                reactor_id: Some(execution.reactor_id.clone()),
            },
        );
        i += 1;
    }
    assert(emitted_views(list@) =~= emitted_of(emitted@, execution.reactor_id@));
    list
}

/// How an attempt ended.
#[derive(Debug)]
pub enum ReactorStatus {
    Success,
    Failed { error: String, attempts: i32 },
    Retry { error: String, attempts: i32 },
    Timeout,
}

/// How an attempt ended, as mathematics.
pub enum StatusView {
    Success,
    Failed { error: Seq<char>, attempts: i32 },
    Retry { error: Seq<char>, attempts: i32 },
    Timeout,
}

impl View for ReactorStatus {
    type V = StatusView;

    open spec fn view(&self) -> StatusView {
        match self {
            ReactorStatus::Success => StatusView::Success,
            ReactorStatus::Failed { error, attempts } => StatusView::Failed {
                error: error@,
                attempts: *attempts,
            },
            ReactorStatus::Retry { error, attempts } => StatusView::Retry {
                error: error@,
                attempts: *attempts,
            },
            ReactorStatus::Timeout => StatusView::Timeout,
        }
    }
}

/// What an attempt gave.
#[derive(Debug)]
pub struct ReactorResult {
    pub status: ReactorStatus,
    pub emitted_events: Vec<EmittedEvent>,
    pub result: Json,
    pub log_entries: Vec<LogEntry>,
}

/// What a terminal failure is told to the one that maps it to an event.
#[derive(Debug)]
pub struct DlqTerminalInfo {
    pub reactor_id: String,
    pub source_event_type: String,
    pub source_event_id: u128,
    pub error: String,
    pub reason: String,
    pub attempts: i32,
    pub max_attempts: i32,
}

/// What came of running a reactor's body.
#[derive(Debug)]
pub enum BodyOutcome {
    Returned(Vec<EventOutput>),
    Failed(Error),
    TimedOut,
}

/// Who maps a terminal failure to an event.
#[derive(Clone, Copy, Debug, PartialEq, Eq, Structural)]
pub enum TerminalMapper {
    Reactor,
    Global,
}

/// A terminal failure that waits for its event.
#[derive(Debug)]
pub struct PendingTerminal {
    pub mapper: TerminalMapper,
    pub info: DlqTerminalInfo,
    pub status: ReactorStatus,
    pub log_entries: Vec<LogEntry>,
}

/// What is to be done after an attempt.
#[derive(Debug)]
pub enum AttemptStep {
    Done(ReactorResult),
    /// Have the failure mapped to an event.
    MapTerminal(PendingTerminal),
}

/// Whether an attempt is the last one.
pub open spec fn exhausted(execution: QueuedReactor) -> bool {
    execution.attempts >= execution.max_attempts
}

/// The status of a failed attempt: failed for good once the attempts are used
/// up, to be retried before.
pub open spec fn failed_status(execution: QueuedReactor, error: Seq<char>) -> StatusView {
    if exhausted(execution) {
        StatusView::Failed { error, attempts: execution.attempts }
    } else {
        StatusView::Retry { error, attempts: execution.attempts }
    }
}

/// Who maps a failure, if it is terminal and there is someone: the reactor
/// itself before the global mapper.
pub open spec fn terminal_mapper(
    execution: QueuedReactor,
    reactor: ReactorInfo,
    has_global: bool,
) -> Option<TerminalMapper> {
    if !exhausted(execution) {
        None
    } else if reactor.maps_terminal {
        Some(TerminalMapper::Reactor)
    } else if has_global {
        Some(TerminalMapper::Global)
    } else {
        None
    }
}

/// What is to be done after a failure.
pub open spec fn is_failure_step(
    step: AttemptStep,
    execution: QueuedReactor,
    reactor: ReactorInfo,
    has_global: bool,
    reason: Seq<char>,
    error: Seq<char>,
    log_entries: Vec<LogEntry>,
) -> bool {
    match terminal_mapper(execution, reactor, has_global) {
        Some(mapper) => step matches AttemptStep::MapTerminal(t) && t.mapper == mapper && t.status@
            == failed_status(execution, error) && t.log_entries == log_entries
            && t.info.reactor_id@ == execution.reactor_id@ && t.info.source_event_type@
            == execution.event_type@ && t.info.source_event_id == execution.event_id
            && t.info.error@ == error && t.info.reason@ == reason && t.info.attempts
            == execution.attempts && t.info.max_attempts == execution.max_attempts,
        None => step matches AttemptStep::Done(r) && r.status@ == failed_status(execution, error)
            && r.emitted_events@.len() == 0 && r.result@ == JsonView::Object(Seq::empty())
            && r.log_entries == log_entries,
    }
}

/// The result of an attempt that succeeded.
pub open spec fn ok_result() -> JsonView {
    JsonView::Object(seq![("status"@, JsonView::Str("ok"@))])
}

fn status_of_failure(execution: &QueuedReactor, error: String) -> (status: ReactorStatus)
    ensures
        status@ == failed_status(*execution, error@),
{
    if execution.attempts >= execution.max_attempts {
        ReactorStatus::Failed { error, attempts: execution.attempts }
    } else {
        ReactorStatus::Retry { error, attempts: execution.attempts }
    }
}

/// The empty JSON object.
fn empty_object() -> (value: Json)
    ensures
        value@ == JsonView::Object(Seq::empty()),
{
    let value = Json::Object(Vec::new());
    proof {
        lemma_json_view(value);
        assert(member_views(Seq::<(String, Json)>::empty()) =~= Seq::<
            (Seq<char>, JsonView),
        >::empty());
    }
    value
}

/// Decides what is to be done after a failure.
fn after_failure(
    execution: &QueuedReactor,
    reactor: &ReactorInfo,
    has_global: bool,
    reason: &str,
    error: String,
    log_entries: Vec<LogEntry>,
) -> (step: AttemptStep)
    ensures
        is_failure_step(
            step,
            *execution,
            *reactor,
            has_global,
            reason@,
            error@,
            log_entries,
        ),
{
    let status = status_of_failure(execution, error.clone());
    if execution.attempts >= execution.max_attempts && (reactor.maps_terminal || has_global) {
        let mapper = if reactor.maps_terminal {
            TerminalMapper::Reactor
        } else {
            TerminalMapper::Global
        };
        return AttemptStep::MapTerminal(
            PendingTerminal {
                mapper,
                info: DlqTerminalInfo {
                    reactor_id: execution.reactor_id.clone(),
                    source_event_type: execution.event_type.clone(),
                    source_event_id: execution.event_id,
                    error,
                    reason: reason.to_owned(),
                    attempts: execution.attempts,
                    max_attempts: execution.max_attempts,
                },
                status,
                log_entries,
            },
        );
    }
    AttemptStep::Done(
        ReactorResult { status, emitted_events: Vec::new(), result: empty_object(), log_entries },
    )
}

/// The result for a reactor that is not registered.
pub open spec fn is_unknown_result(r: ReactorResult, execution: QueuedReactor) -> bool {
    r.status@ == failed_status(
        execution,
        "No reactor registered for id '"@ + execution.reactor_id@ + "'"@,
    ) && r.emitted_events@.len() == 0 && r.result@ == JsonView::Object(Seq::empty())
        && r.log_entries@.len() == 0
}

/// The result for a reactor that is not registered.
fn unknown_reactor(execution: &QueuedReactor) -> (r: ReactorResult)
    ensures
        is_unknown_result(r, *execution),
{
    let mut error = "No reactor registered for id '".to_owned();
    error.append(execution.reactor_id.as_str());
    error.append("'");
    ReactorResult {
        status: status_of_failure(execution, error),
        emitted_events: Vec::new(),
        result: empty_object(),
        log_entries: Vec::new(),
    }
}

/// How long a queued reactor may run.
pub fn timeout_for(execution: &QueuedReactor, default_timeout: Delay) -> (timeout: Delay)
    ensures
        timeout == (if execution.timeout_seconds > 0 {
            Delay { secs: execution.timeout_seconds as u64, nanos: 0 }
        } else {
            default_timeout
        }),
{
    if execution.timeout_seconds > 0 {
        Delay { secs: execution.timeout_seconds as u64, nanos: 0 }
    } else {
        default_timeout
    }
}

/// The result of a terminal failure whose event was mapped. The event carries
/// the reactor's id, unless the mapper gave it another.
pub fn build_dlq_terminal_event(failure: PendingTerminal, mapped: EmittedEvent) -> (r: ReactorResult)
    ensures
        r.status == failure.status,
        r.log_entries == failure.log_entries,
        r.result@ == JsonView::Object(Seq::empty()),
        emitted_views(r.emitted_events@) == seq![
            EmittedView {
                reactor_id: match mapped.reactor_id {
                    Some(id) => Some(id@),
                    None => Some(failure.info.reactor_id@),
                },
                ..mapped@
            },
        ],
{
    let mut event = mapped;
    if event.reactor_id.is_none() {
        event.reactor_id = Some(failure.info.reactor_id);
    }
    let mut emitted_events: Vec<EmittedEvent> = Vec::new();
    emitted_events.push(event);
    assert(emitted_views(emitted_events@) =~= seq![event@]);
    ReactorResult {
        status: failure.status,
        emitted_events,
        result: empty_object(),
        log_entries: failure.log_entries,
    }
}

/// A failed attempt is retried or failed for good, never both, and only the
/// last attempt is mapped to an event.
pub proof fn law_only_the_last_attempt_is_terminal(
    execution: QueuedReactor,
    reactor: ReactorInfo,
    has_global: bool,
    error: Seq<char>,
)
    ensures
        failed_status(execution, error) is Failed <==> execution.attempts
            >= execution.max_attempts,
        failed_status(execution, error) is Retry <==> execution.attempts < execution.max_attempts,
        terminal_mapper(execution, reactor, has_global) is Some ==> failed_status(execution, error)
            is Failed,
{
}

/// The intents stand in registration order, one for each reactor that takes
/// the event: as many stand before a reactor's as reactors before it take it.
proof fn lemma_intent_ranks(
    event: PersistedEvent,
    reactors: Seq<ReactorInfo>,
    taken_at: Seq<Option<Timestamp>>,
    n: int,
)
    requires
        0 <= n <= taken_at.len(),
        taken_at.len() == reactors.len(),
    ensures
        intents_of(event, reactors, taken_at, n as nat).len() == taken_at.take(n).filter(
            |t: Option<Timestamp>| t is Some,
        ).len(),
        forall|i: int|
            0 <= i < n ==> (#[trigger] taken_at[i] matches Some(now) ==> {
                let k = taken_at.take(i).filter(|t: Option<Timestamp>| t is Some).len();
                &&& k < intents_of(event, reactors, taken_at, n as nat).len()
                &&& intents_of(event, reactors, taken_at, n as nat)[k as int] == intent_of(
                    event,
                    reactors[i],
                    now,
                )
            }),
    decreases n,
{
    reveal(Seq::filter);
    if n > 0 {
        lemma_intent_ranks(event, reactors, taken_at, n - 1);
        assert(taken_at.take(n).drop_last() =~= taken_at.take(n - 1));
        assert(taken_at.take(n).last() == taken_at[n - 1]);
    }
}

/// The failures stand in the order of the runs, one for each that failed.
proof fn lemma_failure_ranks(runs: Seq<ProjectionRun>, n: int)
    requires
        0 <= n <= runs.len(),
    ensures
        failures_of(runs.take(n)).len() == runs.take(n).filter(
            |r: ProjectionRun| r.error is Some,
        ).len(),
        forall|i: int|
            0 <= i < n ==> ((#[trigger] runs[i]).error matches Some(error) ==> {
                let k = runs.take(i).filter(|r: ProjectionRun| r.error is Some).len();
                &&& k < failures_of(runs.take(n)).len()
                &&& failures_of(runs.take(n))[k as int] == (FailureView {
                    reactor_id: runs[i].id@,
                    error: error@,
                    reason: "projection_failed"@,
                    attempts: 1,
                })
            }),
    decreases n,
{
    reveal(Seq::filter);
    if n > 0 {
        lemma_failure_ranks(runs, n - 1);
        assert(runs.take(n).drop_last() =~= runs.take(n - 1));
        assert(runs.take(n).last() == runs[n - 1]);
    }
}

/// Every reactor that takes an event is queued, and no other: one intent for
/// each, in registration order. It runs its delay after the reactor's own
/// reading of the clock, to the nanosecond, or at once without one; with its
/// own timeout, attempts and priority, or else fifteen minutes and priority
/// ten; and with the event's parent.
pub proof fn law_takers_are_queued(
    executor: &JobExecutor,
    event: &PersistedEvent,
    taken_at: &Vec<Option<Timestamp>>,
    descriptions: Metadata,
    projections: Vec<ProjectionRun>,
    skip_projections: bool,
    commit: IntentCommit,
)
    requires
        taken_at@.len() == executor.reactors().len(),
        call_ensures(
            JobExecutor::process_event_inner,
            (executor, event, taken_at, descriptions, projections, skip_projections),
            Ok(commit),
        ) || call_ensures(
            JobExecutor::process_event,
            (executor, event, taken_at, descriptions, projections),
            Ok(commit),
        ),
        forall|i: int|
            0 <= i < taken_at@.len() ==> (#[trigger] taken_at@[i] matches Some(now) ==> now.nanos
                < 1_000_000_000 && (executor.reactors()[i].delay matches Some(d) ==> d.nanos
                < 1_000_000_000 && now.secs + d.secs < i64::MAX)),
    ensures
        commit.intents@.len() == taken_at@.filter(|t: Option<Timestamp>| t is Some).len(),
        forall|i: int|
            0 <= i < taken_at@.len() ==> (#[trigger] taken_at@[i] matches Some(now) ==> {
                let k = taken_at@.take(i).filter(|t: Option<Timestamp>| t is Some).len();
                let intent = commit.intents@[k as int];
                let reactor = executor.reactors()[i];
                &&& k < commit.intents@.len()
                &&& intent.reactor_id@ == reactor.id@
                &&& intent.parent_event_id == event.parent_id
                &&& reactor.delay is None ==> intent.execute_at == now
                &&& reactor.delay matches Some(d) ==> intent.execute_at.nanos < 1_000_000_000
                    && intent.execute_at.secs * 1_000_000_000 + intent.execute_at.nanos == now.secs
                    * 1_000_000_000 + now.nanos + d.secs * 1_000_000_000 + d.nanos
                &&& reactor.timeout is None ==> intent.timeout_seconds == 900
                &&& reactor.timeout matches Some(d) ==> intent.timeout_seconds == (if 1 < d.secs as i32 {
                    d.secs as i32
                } else {
                    1
                })
                &&& intent.timeout_seconds >= 1
                &&& intent.max_attempts == reactor.max_attempts as i32
                &&& reactor.priority is None ==> intent.priority == 10
                &&& reactor.priority matches Some(p) ==> intent.priority == p
            }),
{
    let n = taken_at@.len() as int;
    let views = intents_of(*event, executor.reactors(), taken_at@, n as nat);
    assert(intent_views(commit.intents@) == views);
    assert(intent_views(commit.intents@).len() == commit.intents@.len());
    lemma_intent_ranks(*event, executor.reactors(), taken_at@, n);
    assert(taken_at@.take(n) =~= taken_at@);
    assert forall|i: int| 0 <= i < n && (#[trigger] taken_at@[i]) is Some implies ({
        let k = taken_at@.take(i).filter(|t: Option<Timestamp>| t is Some).len();
        &&& k < commit.intents@.len()
        &&& commit.intents@[k as int]@ == intent_of(
            *event,
            executor.reactors()[i],
            taken_at@[i]->0,
        )
    }) by {
        let k = taken_at@.take(i).filter(|t: Option<Timestamp>| t is Some).len();
        assert(views[k as int] == intent_views(commit.intents@)[k as int]);
    }
}

/// An intent is handed on as often as its event was: the count under `_hops`
/// in the event's metadata, and none where it holds no such count.
pub proof fn law_intents_carry_hops(
    executor: &JobExecutor,
    event: &PersistedEvent,
    taken_at: &Vec<Option<Timestamp>>,
    descriptions: Metadata,
    projections: Vec<ProjectionRun>,
    commit: IntentCommit,
    at: int,
)
    requires
        taken_at@.len() == executor.reactors().len(),
        call_ensures(
            JobExecutor::process_event,
            (executor, event, taken_at, descriptions, projections),
            Ok(commit),
        ),
    ensures
        0 <= at < event.metadata@.len() && event.metadata@[at].0@ == "_hops"@ && (forall|j: int|
            0 <= j < at ==> (#[trigger] event.metadata@[j]).0@ != "_hops"@) ==> forall|k: int|
            0 <= k < commit.intents@.len() ==> (#[trigger] commit.intents@[k]).hops == (
            match event.metadata@[at].1@ {
                JsonView::Number(Number::PosInt(n)) => n as i32,
                _ => 0,
            }),
        (forall|j: int|
            0 <= j < event.metadata@.len() ==> (#[trigger] event.metadata@[j]).0@ != "_hops"@)
            ==> forall|k: int|
            0 <= k < commit.intents@.len() ==> (#[trigger] commit.intents@[k]).hops == 0,
{
    let views = intents_of(*event, executor.reactors(), taken_at@, executor.reactors().len());
    assert(intent_views(commit.intents@) == views);
    lemma_same_hops(*event, executor.reactors(), taken_at@, executor.reactors().len());
    let members = member_views(event.metadata@);
    assert forall|k: int| 0 <= k < commit.intents@.len() implies (
    #[trigger] commit.intents@[k]).hops == hops_of(members) by {
        assert(views[k] == intent_views(commit.intents@)[k]);
    }
    lemma_member_at(members, "_hops"@);
    assert forall|j: int| 0 <= j < members.len() implies (#[trigger] members[j]).0
        == event.metadata@[j].0@ && members[j].1 == event.metadata@[j].1@ by {}
    if let Some(i) = member_at(members, "_hops"@) {
        assert(members[i].0 == "_hops"@);
        assert(event.metadata@[i].0@ == "_hops"@);
        if 0 <= at < event.metadata@.len() && event.metadata@[at].0@ == "_hops"@ && i != at {
            assert(members[at].0 == "_hops"@);
        }
    } else if 0 <= at < event.metadata@.len() && event.metadata@[at].0@ == "_hops"@ {
        assert(members[at].0 == "_hops"@);
    }
}

proof fn lemma_same_hops(
    event: PersistedEvent,
    reactors: Seq<ReactorInfo>,
    taken_at: Seq<Option<Timestamp>>,
    n: nat,
)
    ensures
        forall|k: int|
            0 <= k < intents_of(event, reactors, taken_at, n).len() ==> (#[trigger] intents_of(
                event,
                reactors,
                taken_at,
                n,
            )[k]).hops == hops_of(member_views(event.metadata@)),
    decreases n,
{
    if n > 0 {
        lemma_same_hops(event, reactors, taken_at, (n - 1) as nat);
    }
}

/// What is committed for an event is of that event, up to its position. Every
/// projection that failed on it is told of, in order and in its own words; none
/// where projections are left out.
pub proof fn law_commit_is_of_its_event(
    executor: &JobExecutor,
    event: &PersistedEvent,
    taken_at: &Vec<Option<Timestamp>>,
    descriptions: Metadata,
    projections: Vec<ProjectionRun>,
    skip_projections: bool,
    commit: IntentCommit,
)
    requires
        call_ensures(
            JobExecutor::process_event_inner,
            (executor, event, taken_at, descriptions, projections, skip_projections),
            Ok(commit),
        ) || (!skip_projections && call_ensures(
            JobExecutor::process_event,
            (executor, event, taken_at, descriptions, projections),
            Ok(commit),
        )),
    ensures
        commit.event_id == event.event_id,
        commit.correlation_id == event.correlation_id,
        commit.event_type@ == event.event_type@,
        commit.event_payload@ == event.payload@,
        commit.checkpoint == event.position,
        commit.reactor_descriptions == descriptions,
        skip_projections ==> commit.projection_failures@.len() == 0,
        !skip_projections ==> commit.projection_failures@.len() == projections@.filter(
            |r: ProjectionRun| r.error is Some,
        ).len(),
        !skip_projections ==> forall|i: int|
            0 <= i < projections@.len() ==> ((#[trigger] projections@[i]).error matches Some(error)
                ==> {
                let k = projections@.take(i).filter(|r: ProjectionRun| r.error is Some).len();
                let failure = commit.projection_failures@[k as int];
                &&& k < commit.projection_failures@.len()
                &&& failure.reactor_id@ == projections@[i].id@
                &&& failure.error@ == error@
                &&& failure.reason@ == "projection_failed"@
                &&& failure.attempts == 1
            }),
{
    let views = Seq::new(
        commit.projection_failures@.len(),
        |i: int| commit.projection_failures@[i]@,
    );
    let n = projections@.len() as int;
    lemma_failure_ranks(projections@, n);
    assert(projections@.take(n) =~= projections@);
    assert(views.len() == commit.projection_failures@.len());
    if !skip_projections {
        assert(views == failures_of(projections@));
        assert forall|i: int| 0 <= i < n && (#[trigger] projections@[i]).error is Some implies ({
            let k = projections@.take(i).filter(|r: ProjectionRun| r.error is Some).len();
            &&& k < views.len()
            &&& commit.projection_failures@[k as int]@ == failures_of(projections@)[k as int]
        }) by {
            let k = projections@.take(i).filter(|r: ProjectionRun| r.error is Some).len();
            assert(views[k as int] == commit.projection_failures@[k as int]@);
        }
    } else {
        assert(views == Seq::<FailureView>::empty());
    }
}

/// Processing an event fails exactly where a reactor that takes it has a delay
/// of more milliseconds than are counted in an `i64`.
pub proof fn law_only_endless_delays_fail(
    executor: &JobExecutor,
    event: &PersistedEvent,
    taken_at: &Vec<Option<Timestamp>>,
    descriptions: Metadata,
    projections: Vec<ProjectionRun>,
    r: Result<IntentCommit, Error>,
)
    requires
        taken_at@.len() == executor.reactors().len(),
        call_ensures(
            JobExecutor::process_event,
            (executor, event, taken_at, descriptions, projections),
            r,
        ),
        forall|i: int|
            0 <= i < taken_at@.len() ==> ((#[trigger] executor.reactors()[i]).delay matches Some(d)
                ==> d.nanos < 1_000_000_000),
    ensures
        r is Err <==> exists|i: int|
            0 <= i < taken_at@.len() && (#[trigger] taken_at@[i]) is Some && (
            executor.reactors()[i].delay matches Some(d) && d.secs * 1_000_000_000 + d.nanos
                > i64::MAX * 1_000_000),
        r matches Err(e) ==> (e matches Error::Message(m) && m@ == "invalid reactor delay"@),
{
    assert forall|i: int| 0 <= i < taken_at@.len() implies (bad_delay(
        #[trigger] executor.reactors()[i],
    ) <==> (executor.reactors()[i].delay matches Some(d) && d.secs * 1_000_000_000 + d.nanos
        > i64::MAX * 1_000_000)) by {}
    assert forall|i: int| 0 <= i < taken_at@.len() implies (takes(taken_at@, i)
        <==> #[trigger] taken_at@[i] is Some) by {}
    if r is Err {
        let i = choose|i: int|
            0 <= i < executor.reactors().len() && #[trigger] takes(taken_at@, i) && bad_delay(
                executor.reactors()[i],
            );
        assert(taken_at@[i] is Some);
    }
    if exists|i: int|
        0 <= i < taken_at@.len() && (#[trigger] taken_at@[i]) is Some && (
        executor.reactors()[i].delay matches Some(d) && d.secs * 1_000_000_000 + d.nanos > i64::MAX
            * 1_000_000) {
        let i = choose|i: int|
            0 <= i < taken_at@.len() && (#[trigger] taken_at@[i]) is Some && (
            executor.reactors()[i].delay matches Some(d) && d.secs * 1_000_000_000 + d.nanos
                > i64::MAX * 1_000_000);
        assert(takes(taken_at@, i));
    }
}

/// What a reactor returned is emitted as it is: every event, in order, with
/// its name, prefix, persistence and payload, under the reactor's id.
pub proof fn law_outputs_are_emitted_as_they_are(
    outputs: &Vec<EventOutput>,
    execution: &QueuedReactor,
    list: Vec<EmittedEvent>,
)
    requires
        call_ensures(serialize_emitted_events, (outputs, execution), list),
    ensures
        list@.len() == outputs@.len(),
        forall|i: int|
            0 <= i < outputs@.len() ==> {
                let event = #[trigger] list@[i];
                &&& event.durable_name@ == outputs@[i].durable_name@
                &&& event.event_prefix@ == outputs@[i].event_prefix@
                &&& event.persistent == outputs@[i].persistent
                &&& event.payload@ == outputs@[i].payload@
                &&& event.reactor_id matches Some(id) && id@ == execution.reactor_id@
            },
{
    lemma_emitted_fields(list@, outputs@, execution.reactor_id@);
}

proof fn lemma_emitted_fields(
    list: Seq<EmittedEvent>,
    outputs: Seq<EventOutput>,
    reactor_id: Seq<char>,
)
    requires
        emitted_views(list) == emitted_of(outputs, reactor_id),
    ensures
        list.len() == outputs.len(),
        forall|i: int|
            0 <= i < outputs.len() ==> {
                let event = #[trigger] list[i];
                &&& event.durable_name@ == outputs[i].durable_name@
                &&& event.event_prefix@ == outputs[i].event_prefix@
                &&& event.persistent == outputs[i].persistent
                &&& event.payload@ == outputs[i].payload@
                &&& event.reactor_id matches Some(id) && id@ == reactor_id
            },
{
    assert(emitted_views(list).len() == list.len());
    assert forall|i: int| 0 <= i < outputs.len() implies {
        let event = #[trigger] list[i];
        &&& event.durable_name@ == outputs[i].durable_name@
        &&& event.event_prefix@ == outputs[i].event_prefix@
        &&& event.persistent == outputs[i].persistent
        &&& event.payload@ == outputs[i].payload@
        &&& event.reactor_id matches Some(id) && id@ == reactor_id
    } by {
        assert(emitted_views(list)[i] == list[i]@);
        assert(emitted_of(outputs, reactor_id)[i].payload == outputs[i].payload@);
    }
}

/// The reactor of an id is the first that is registered under it, and there is
/// none exactly where none is.
proof fn lemma_reactor_of(reactors: Seq<ReactorInfo>, id: Seq<char>)
    ensures
        match reactor_of(reactors, id) {
            Some(r) => exists|j: int|
                {
                    &&& 0 <= j < reactors.len()
                    &&& #[trigger] reactors[j] == r
                    &&& r.id@ == id
                    &&& forall|k: int| 0 <= k < j ==> (#[trigger] reactors[k]).id@ != id
                },
            None => forall|k: int| 0 <= k < reactors.len() ==> (#[trigger] reactors[k]).id@ != id,
        },
    decreases reactors.len(),
{
    if reactors.len() > 0 && reactors[0].id@ != id {
        let rest = reactors.drop_first();
        lemma_reactor_of(rest, id);
        match reactor_of(rest, id) {
            Some(r) => {
                let j = choose|j: int|
                    {
                        &&& 0 <= j < rest.len()
                        &&& #[trigger] rest[j] == r
                        &&& r.id@ == id
                        &&& forall|k: int| 0 <= k < j ==> (#[trigger] rest[k]).id@ != id
                    };
                assert(reactors[j + 1] == r);
                assert forall|k: int| 0 <= k < j + 1 implies (#[trigger] reactors[k]).id@ != id by {
                    if k > 0 {
                        assert(rest[k - 1] == reactors[k]);
                    }
                }
            },
            None => {
                assert forall|k: int| 0 <= k < reactors.len() implies (#[trigger] reactors[k]).id@
                    != id by {
                    if k > 0 {
                        assert(rest[k - 1] == reactors[k]);
                    }
                }
            },
        }
    }
}

/// A lookup finds the first reactor of the id, and nothing exactly where no
/// reactor has it.
pub proof fn law_lookup_finds_the_first(
    executor: &JobExecutor,
    id: &str,
    found: Option<&ReactorInfo>,
)
    requires
        call_ensures(JobExecutor::find_by_id, (executor, id), found),
    ensures
        match found {
            Some(r) => exists|j: int|
                {
                    &&& 0 <= j < executor.reactors().len()
                    &&& #[trigger] executor.reactors()[j] == *r
                    &&& r.id@ == id@
                    &&& forall|k: int|
                        0 <= k < j ==> (#[trigger] executor.reactors()[k]).id@ != id@
                },
            None => forall|k: int|
                0 <= k < executor.reactors().len() ==> (#[trigger] executor.reactors()[k]).id@
                    != id@,
        },
{
    lemma_reactor_of(executor.reactors(), id@);
}

/// A body that returned ends its attempt: it succeeded, with every event that
/// it returned emitted as it is, and with its log.
pub proof fn law_returned_bodies_succeed(
    executor: &JobExecutor,
    execution: &QueuedReactor,
    outputs: Vec<EventOutput>,
    log_entries: Vec<LogEntry>,
    step: AttemptStep,
)
    requires
        call_ensures(
            JobExecutor::execute_reactor,
            (executor, execution, BodyOutcome::Returned(outputs), log_entries),
            step,
        ),
        exists|j: int|
            0 <= j < executor.reactors().len() && (#[trigger] executor.reactors()[j]).id@
                == execution.reactor_id@,
    ensures
        step matches AttemptStep::Done(r) && {
            &&& r.status is Success
            &&& r.log_entries == log_entries
            &&& r.result@ == JsonView::Object(seq![("status"@, JsonView::Str("ok"@))])
            &&& r.emitted_events@.len() == outputs@.len()
            &&& forall|i: int|
                0 <= i < outputs@.len() ==> {
                    let event = #[trigger] r.emitted_events@[i];
                    &&& event.durable_name@ == outputs@[i].durable_name@
                    &&& event.event_prefix@ == outputs@[i].event_prefix@
                    &&& event.persistent == outputs@[i].persistent
                    &&& event.payload@ == outputs@[i].payload@
                    &&& event.reactor_id matches Some(id) && id@ == execution.reactor_id@
                }
        },
{
    lemma_reactor_of(executor.reactors(), execution.reactor_id@);
    if let AttemptStep::Done(r) = step {
        assert(r.status@ == StatusView::Success);
        lemma_emitted_fields(r.emitted_events@, outputs@, execution.reactor_id@);
    }
}

/// A failure ends an attempt for good exactly when its number has reached the
/// most that are made; before, it is to be retried. The error, and the number
/// of the attempt, are told as they are, and nothing is emitted. A terminal
/// failure is mapped by the reactor itself if it maps its own, else by the
/// global mapper if there is one, else by no one.
pub proof fn law_failed_bodies_retry_until_exhausted(
    executor: &JobExecutor,
    execution: &QueuedReactor,
    outcome: BodyOutcome,
    log_entries: Vec<LogEntry>,
    step: AttemptStep,
    j: int,
)
    requires
        call_ensures(
            JobExecutor::execute_reactor,
            (executor, execution, outcome, log_entries),
            step,
        ),
        !(outcome is Returned),
        0 <= j < executor.reactors().len(),
        executor.reactors()[j].id@ == execution.reactor_id@,
        forall|k: int|
            0 <= k < j ==> (#[trigger] executor.reactors()[k]).id@ != execution.reactor_id@,
    ensures
        ({
            let told = match outcome {
                BodyOutcome::Failed(e) => e.display(),
                _ => "Reactor execution timed out"@,
            };
            let reason = match outcome {
                BodyOutcome::Failed(_) => "failed"@,
                _ => "timeout"@,
            };
            let own = executor.reactors()[j].maps_terminal;
            let last = execution.attempts >= execution.max_attempts;
            match step {
                AttemptStep::Done(r) => {
                    &&& !last || (!own && !executor.has_global_mapper())
                    &&& !last ==> (r.status matches ReactorStatus::Retry { error, attempts }
                        && error@ == told && attempts == execution.attempts)
                    &&& last ==> (r.status matches ReactorStatus::Failed { error, attempts }
                        && error@ == told && attempts == execution.attempts)
                    &&& r.emitted_events@.len() == 0
                    &&& r.result@ == JsonView::Object(Seq::empty())
                    &&& r.log_entries == log_entries
                },
                AttemptStep::MapTerminal(t) => {
                    &&& last && (own || executor.has_global_mapper())
                    &&& t.mapper is Reactor <==> own
                    &&& t.status matches ReactorStatus::Failed { error, attempts } && error@ == told
                        && attempts == execution.attempts
                    &&& t.info.reactor_id@ == execution.reactor_id@
                    &&& t.info.source_event_type@ == execution.event_type@
                    &&& t.info.source_event_id == execution.event_id
                    &&& t.info.error@ == told
                    &&& t.info.reason@ == reason
                    &&& t.info.attempts == execution.attempts
                    &&& t.info.max_attempts == execution.max_attempts
                    &&& t.log_entries == log_entries
                },
            }
        }),
{
    lemma_reactor_of(executor.reactors(), execution.reactor_id@);
    let reactor = reactor_of(executor.reactors(), execution.reactor_id@);
    if reactor is Some {
        let i = choose|i: int|
            {
                &&& 0 <= i < executor.reactors().len()
                &&& #[trigger] executor.reactors()[i] == reactor->0
                &&& reactor->0.id@ == execution.reactor_id@
                &&& forall|k: int|
                    0 <= k < i ==> (#[trigger] executor.reactors()[k]).id@
                        != execution.reactor_id@
            };
        assert(i == j);
    }
    match step {
        AttemptStep::Done(r) => {
            let told = match outcome {
                BodyOutcome::Failed(e) => e.display(),
                _ => "Reactor execution timed out"@,
            };
            assert(r.status@ == failed_status(*execution, told));
        },
        AttemptStep::MapTerminal(t) => {
            assert(t.status@ is Failed);
        },
    }
}

/// A reactor that is not registered fails without being run: it is retried and
/// failed for good like any other, whatever came of a body, and is never
/// mapped to an event.
pub proof fn law_unknown_reactors_fail(
    executor: &JobExecutor,
    execution: &QueuedReactor,
    outcome: BodyOutcome,
    log_entries: Vec<LogEntry>,
    step: AttemptStep,
)
    requires
        call_ensures(
            JobExecutor::execute_reactor,
            (executor, execution, outcome, log_entries),
            step,
        ),
        forall|k: int|
            0 <= k < executor.reactors().len() ==> (#[trigger] executor.reactors()[k]).id@
                != execution.reactor_id@,
    ensures
        step matches AttemptStep::Done(r) && {
            let told = "No reactor registered for id '"@ + execution.reactor_id@ + "'"@;
            &&& execution.attempts < execution.max_attempts ==> (
            r.status matches ReactorStatus::Retry { error, attempts } && error@ == told && attempts
                == execution.attempts)
            &&& execution.attempts >= execution.max_attempts ==> (
            r.status matches ReactorStatus::Failed { error, attempts } && error@ == told && attempts
                == execution.attempts)
            &&& r.emitted_events@.len() == 0
            &&& r.result@ == JsonView::Object(Seq::empty())
            &&& r.log_entries@.len() == 0
        },
{
    lemma_reactor_of(executor.reactors(), execution.reactor_id@);
    if let AttemptStep::Done(r) = step {
        let told = "No reactor registered for id '"@ + execution.reactor_id@ + "'"@;
        assert(r.status@ == failed_status(*execution, told));
    }
}

/// A mapped failure keeps its status and its log and emits exactly the mapped
/// event, which is the reactor's unless the mapper gave it to another.
pub proof fn law_mapped_failures_emit_their_event(
    failure: PendingTerminal,
    mapped: EmittedEvent,
    r: ReactorResult,
)
    requires
        call_ensures(build_dlq_terminal_event, (failure, mapped), r),
    ensures
        r.status == failure.status,
        r.log_entries == failure.log_entries,
        r.result@ == JsonView::Object(Seq::empty()),
        r.emitted_events@.len() == 1,
        ({
            let event = r.emitted_events@[0];
            &&& event.durable_name@ == mapped.durable_name@
            &&& event.event_prefix@ == mapped.event_prefix@
            &&& event.persistent == mapped.persistent
            &&& event.payload@ == mapped.payload@
            &&& event.reactor_id matches Some(id) && (match mapped.reactor_id {
                Some(own) => id@ == own@,
                None => id@ == failure.info.reactor_id@,
            })
        }),
{
    let views = emitted_views(r.emitted_events@);
    assert(views.len() == r.emitted_events@.len());
    assert(views[0] == r.emitted_events@[0]@);
}

/// A queued reactor may run as long as it was queued for, and as long as any
/// other where it was queued for no time at all.
pub proof fn law_queued_timeout_counts(
    execution: &QueuedReactor,
    default_timeout: Delay,
    timeout: Delay,
)
    requires
        call_ensures(timeout_for, (execution, default_timeout), timeout),
    ensures
        execution.timeout_seconds > 0 ==> timeout.secs == execution.timeout_seconds
            && timeout.nanos == 0,
        execution.timeout_seconds <= 0 ==> timeout == default_timeout,
{
}

/// The value that came along is used only where it is what decoding would give:
/// the kind has a codec, of the same type, and nothing is upcast. A kind
/// without a codec is read as it is.
pub proof fn law_in_process_values_are_not_stale(
    in_process_type: Option<u128>,
    upcasters_empty: bool,
    codec_type: Option<u128>,
    path: DecodePath,
)
    requires
        call_ensures(decode_event, (in_process_type, upcasters_empty, codec_type), path),
    ensures
        path is Raw <==> codec_type is None,
        path is InProcess <==> upcasters_empty && codec_type is Some && in_process_type
            == codec_type,
{
}

/// A context names its reactor and its event: two calls for the same reactor
/// and event agree on the idempotency key, whether the event is projected or
/// the reactor is run from the queue.
pub proof fn law_contexts_agree_on_the_key(
    namespace: u128,
    id: &str,
    event: &PersistedEvent,
    execution: &QueuedReactor,
    projected: ReactorContext,
    queued: ReactorContext,
    key: String,
)
    requires
        call_ensures(projection_context, (namespace, id, event), projected),
        call_ensures(execution_context, (namespace, execution), queued),
        call_ensures(idempotency_key, (namespace, event.event_id, id), key),
        execution.reactor_id@ == id@,
        execution.event_id == event.event_id,
    ensures
        projected.idempotency_key@ == key@,
        queued.idempotency_key@ == key@,
        projected.reactor_id@ == id@,
        queued.reactor_id@ == id@,
        projected.event_id == event.event_id,
        queued.event_id == event.event_id,
        projected.correlation_id == event.correlation_id,
        queued.correlation_id == execution.correlation_id,
        projected.parent_event_id == event.parent_id,
        queued.parent_event_id == execution.parent_event_id,
{
}

/// A key is made of the event's id, a hyphen and the consumer's, under the
/// namespace, and of nothing else.
pub proof fn law_key_is_of_event_and_consumer(
    namespace: u128,
    event_id: u128,
    consumer: &str,
    key: String,
)
    requires
        call_ensures(idempotency_key, (namespace, event_id, consumer), key),
    ensures
        key@ == id_chars(
            named_id(namespace, encode_utf8(id_chars(event_id) + "-"@ + consumer@)),
        ),
{
}

/// The contexts outside of deliveries say what they are for: a description is
/// of its event, a startup of none; their keys differ from each other and
/// between reactors.
pub proof fn law_side_contexts_keep_apart(
    a: &str,
    b: &str,
    event: &PersistedEvent,
    described: ReactorContext,
    other: ReactorContext,
    started: ReactorContext,
)
    requires
        call_ensures(describe_context, (a, event), described),
        call_ensures(describe_context, (b, event), other),
        call_ensures(startup_context, (a,), started),
    ensures
        described.reactor_id@ == a@,
        described.event_id == event.event_id,
        described.correlation_id == event.correlation_id,
        described.parent_event_id == event.parent_id,
        described.idempotency_key@ == other.idempotency_key@ <==> a@ == b@,
        started.reactor_id@ == a@,
        started.event_id == 0,
        started.correlation_id == 0,
        started.parent_event_id is None,
        started.idempotency_key@ != described.idempotency_key@,
        started.idempotency_key@.subrange(9, started.idempotency_key@.len() as int) == a@,
        described.idempotency_key@.subrange(10, described.idempotency_key@.len() as int) == a@,
{
    reveal_strlit("describe::");
    reveal_strlit("startup::");
    let d = described.idempotency_key@;
    let o = other.idempotency_key@;
    let s = started.idempotency_key@;
    assert(d.subrange(10, d.len() as int) =~= a@);
    assert(o.subrange(10, o.len() as int) =~= b@);
    assert(s.subrange(9, s.len() as int) =~= a@);
    assert(d[0] == 'd');
    assert(s[0] == 's');
}

/// The error of a startup names the reactor and ends in what went wrong.
pub proof fn law_startup_errors_name_the_reactor(id: &str, error: &Error, e: Error)
    requires
        call_ensures(startup_error, (id, error), e),
    ensures
        e matches Error::Message(m) && m@.subrange(17, (17 + id@.len()) as int) == id@ && m@.subrange(
            m@.len() - error.display().len(),
            m@.len() as int,
        ) == error.display() && m@.len() == 17 + id@.len() + 10 + error.display().len(),
{
    reveal_strlit("startup reactor '");
    reveal_strlit("' failed: ");
    if let Error::Message(m) = e {
        assert(m@.subrange(17, (17 + id@.len()) as int) =~= id@);
        assert(m@.subrange(m@.len() - error.display().len(), m@.len() as int) =~= error.display());
    }
}

} // verus!
