//! The conditional append path: an aggregate is folded from its stream, a
//! decision is taken on it, and the decided facts are appended only if the
//! stream has not moved.

use vstd::arithmetic::div_mod::lemma_small_mod;
use vstd::arithmetic::power2::{lemma2_to64, pow2};
use vstd::prelude::*;

use crate::aggregate::Apply;
use crate::clock::{may_read, Clock};
use crate::codec::{undecodable, unencodable};
use crate::emit::{named_events, pending_fact, stamped_by, stands_for, FactView, Stamp};
use crate::event::Event;
use crate::event_log::{AppendRequest, RequestView};
use crate::failure::Error;
use crate::ids::id_fresh;
use crate::json::{copy_members, member_views, JsonView};
use crate::text::same;
use crate::types::{
    deliveries, Delivery, EventData, EventView, Metadata, RecordedEvent, StreamRevision,
    StreamState,
};

verus! {

/// The state after the leading events of a stream: those of the kind `F` are
/// applied, others are passed over. `None` once one does not decode.
pub open spec fn folded<A: Apply<F>, F: Event>(events: Seq<Delivery>) -> Option<A>
    decreases events.len(),
{
    if events.len() == 0 {
        Some(A::initial())
    } else {
        match folded::<A, F>(events.drop_last()) {
            None => None,
            Some(state) => if events.last().event_type == F::NAME@ {
                match F::decoded(events.last().payload) {
                    Some(fact) => Some(state.applied(fact)),
                    None => None,
                }
            } else {
                Some(state)
            },
        }
    }
}

proof fn lemma_fold_failure_sticks<A: Apply<F>, F: Event>(events: Seq<Delivery>, n: int)
    requires
        0 <= n <= events.len(),
        folded::<A, F>(events.take(n)) is None,
    ensures
        folded::<A, F>(events) is None,
    decreases events.len() - n,
{
    if n < events.len() {
        assert(events.take(n + 1).drop_last() =~= events.take(n));
        lemma_fold_failure_sticks::<A, F>(events, n + 1);
    } else {
        assert(events.take(n) =~= events);
    }
}

/// Whether `e` tells that an event of the kind does not decode.
pub open spec fn tells_bad_event<F: Event>(events: Seq<Delivery>, e: Error) -> bool {
    exists|k: int|
        0 <= k < events.len() && (#[trigger] events[k]).event_type == F::NAME@ && undecodable::<F>(
            events[k].payload,
            e,
        )
}

/// Folds an aggregate from its stream. It fails exactly where an event of the
/// kind does not decode.
pub fn fold_stream<A: Apply<F>, F: Event>(events: &Vec<RecordedEvent>) -> (r: Result<A, Error>)
    ensures
        match r {
            Ok(state) => folded::<A, F>(deliveries(events@)) == Some(state),
            Err(e) => folded::<A, F>(deliveries(events@)) is None && tells_bad_event::<F>(
                deliveries(events@),
                e,
            ),
        },
{
    let ghost all = deliveries(events@);
    let mut state = A::initial_state();
    let mut i: usize = 0;
    assert(all.take(0) =~= Seq::<Delivery>::empty());
    while i < events.len()
        invariant
            i <= events@.len(),
            all == deliveries(events@),
            folded::<A, F>(all.take(i as int)) == Some(state),
        decreases events@.len() - i,
    {
        let event = &events[i];
        assert(all.take(i + 1).drop_last() =~= all.take(i as int));
        assert(all.take(i + 1).last() == event.delivery());
        if same(event.event_type.as_str(), F::NAME) {
            match F::decode(&event.payload) {
                Ok(fact) => {
                    state.apply(&fact);
                },
                Err(text) => {
                    let e = Error::Message(text);
                    proof {
                        lemma_fold_failure_sticks::<A, F>(all, i + 1);
                        assert(undecodable::<F>(all[i as int].payload, e));
                    }
                    return Err(e);
                },
            }
        }
        i += 1;
    }
    assert(all.take(i as int) =~= all);
    Ok(state)
}

/// The revision of the last event of a stream; zero where it has none.
pub open spec fn head_of(events: Seq<Delivery>) -> StreamRevision {
    if events.len() == 0 {
        StreamRevision(0)
    } else {
        StreamRevision(events.last().revision)
    }
}

/// Loads an aggregate from its stream `{SUBJECT}-{id}`: its state, and the
/// revision of the stream's last event, of whatever kind.
pub fn load<A: Apply<F>, F: Event>(events: &Vec<RecordedEvent>) -> (r: Result<
    (A, StreamRevision),
    Error,
>)
    ensures
        match r {
            Ok((state, revision)) => folded::<A, F>(deliveries(events@)) == Some(state) && revision
                == head_of(deliveries(events@)),
            Err(e) => folded::<A, F>(deliveries(events@)) is None && tells_bad_event::<F>(
                deliveries(events@),
                e,
            ),
        },
{
    let revision = if events.len() == 0 {
        StreamRevision::zero()
    } else {
        events[events.len() - 1].revision
    };
    match fold_stream::<A, F>(events) {
        Ok(state) => Ok((state, revision)),
        Err(e) => Err(e),
    }
}

/// What an append after these events expects of the stream.
pub open spec fn expectation(events: Seq<Delivery>) -> StreamState {
    if events.len() == 0 {
        StreamState::NoStream
    } else {
        StreamState::StreamRevision(StreamRevision(events.last().revision))
    }
}

/// What an append after these events expects of the stream.
pub fn expected_state(events: &Vec<RecordedEvent>) -> (expected: StreamState)
    ensures
        expected == expectation(deliveries(events@)),
{
    if events.len() == 0 {
        StreamState::NoStream
    } else {
        StreamState::StreamRevision(events[events.len() - 1].revision)
    }
}

/// The event of a decided fact: of the aggregate's own stream, whatever
/// subject the fact names, and without a cause.
pub open spec fn decided_event(
    fact: FactView,
    id: u128,
    workflow_id: u128,
    metadata: Seq<(Seq<char>, JsonView)>,
    stamp: Stamp,
) -> EventView {
    EventView {
        event_id: stamp.event_id,
        causation_id: None,
        workflow_id,
        event_type: fact.name,
        payload: fact.payload->Ok_0,
        created_at: match fact.occurred_at {
            Some(at) => at,
            None => stamp.now,
        },
        category: Some(fact.subject),
        subject_id: Some(id),
        metadata,
        persistent: true,
    }
}

/// Whether `request` appends a decision: all facts in one append to the
/// aggregate's stream, under the expectation.
pub open spec fn appends_decision<F: Event>(
    request: RequestView,
    facts: Seq<F>,
    id: u128,
    expected: StreamState,
    workflow_id: u128,
    metadata: Seq<(Seq<char>, JsonView)>,
    stamps: Seq<Stamp>,
) -> bool {
    &&& request.category == F::SUBJECT@
    &&& request.subject_id == id
    &&& request.expected == expected
    &&& request.events.len() == facts.len()
    &&& forall|i: int|
        0 <= i < facts.len() ==> is_decided_event(
            #[trigger] request.events[i],
            facts[i],
            id,
            workflow_id,
            metadata,
            stamps[i],
        )
}

/// Whether `event` is the event of a decided fact.
pub open spec fn is_decided_event<F: Event>(
    event: EventView,
    fact: F,
    id: u128,
    workflow_id: u128,
    metadata: Seq<(Seq<char>, JsonView)>,
    stamp: Stamp,
) -> bool {
    exists|view: FactView| #[trigger]
        stands_for(view, fact) && view.payload is Ok && event == decided_event(
            view,
            id,
            workflow_id,
            metadata,
            stamp,
        )
}

/// Whether `e` tells of the first fact that has no JSON form.
pub open spec fn tells_unencodable<F: Event>(facts: Seq<F>, e: Error) -> bool {
    exists|i: int|
        {
            &&& 0 <= i < facts.len()
            &&& unencodable(#[trigger] facts[i], e)
            &&& all_encode(facts.take(i))
        }
}

/// Builds the append of a decision. It fails exactly where a fact has no JSON
/// form.
pub fn plan_append<F: Event>(
    facts: &Vec<F>,
    id: u128,
    expected: StreamState,
    workflow_id: u128,
    metadata: &Metadata,
    stamps: &Vec<Stamp>,
) -> (r: Result<AppendRequest, Error>)
    requires
        stamps@.len() == facts@.len(),
    ensures
        match r {
            Ok(request) => appends_decision(
                request@,
                facts@,
                id,
                expected,
                workflow_id,
                member_views(metadata@),
                stamps@,
            ) && all_encode(facts@),
            Err(e) => tells_unencodable(facts@, e),
        },
{
    let mut events: Vec<EventData> = Vec::new();
    let mut i: usize = 0;
    while i < facts.len()
        invariant
            i <= facts@.len(),
            stamps@.len() == facts@.len(),
            events@.len() == i,
            forall|j: int| 0 <= j < i ==> (#[trigger] facts@[j]).encoded() is Some,
            forall|j: int|
                0 <= j < i ==> is_decided_event(
                    (#[trigger] events@[j])@,
                    facts@[j],
                    id,
                    workflow_id,
                    member_views(metadata@),
                    stamps@[j],
                ),
        decreases facts@.len() - i,
    {
        let fact = pending_fact(&facts[i]);
        let ghost view = fact@;
        let created_at = match fact.occurred_at {
            Some(at) => at,
            None => stamps[i].now,
        };
        match fact.payload {
            Ok(payload) => {
                let event = EventData {
                    event_id: stamps[i].event_id,
                    causation_id: None,
                    workflow_id,
                    event_type: fact.name,
                    payload,
                    created_at,
                    category: Some(fact.subject),
                    subject_id: Some(id),
                    metadata: copy_members(metadata),
                    persistent: true,
                };
                proof {
                    assert(stands_for(view, facts@[i as int]));
                    assert(event@ == decided_event(
                        view,
                        id,
                        workflow_id,
                        member_views(metadata@),
                        stamps@[i as int],
                    ));
                }
                events.push(event);
            },
            Err(text) => {
                let e = Error::Message(text);
                assert(unencodable(facts@[i as int], e));
                return Err(e);
            },
        }
        i += 1;
    }
    let request = AppendRequest {
        category: F::SUBJECT.to_owned(),
        subject_id: id,
        expected,
        events,
    };
    proof {
        assert forall|j: int| 0 <= j < facts@.len() implies is_decided_event(
            #[trigger] request@.events[j],
            facts@[j],
            id,
            workflow_id,
            member_views(metadata@),
            stamps@[j],
        ) by {
            assert(request@.events[j] == events@[j]@);
        }
    }
    Ok(request)
}

/// What an attempt to append comes to.
#[derive(Debug)]
pub enum AppendStart {
    /// The decision is empty: the result is the log's latest position and this
    /// workflow.
    Nothing { workflow_id: u128 },
    Append { workflow_id: u128, request: AppendRequest },
}

/// Whether `start` is what a decision comes to, for some stamps, one for each
/// fact: nothing where it is empty, one append where it is not.
pub open spec fn comes_to<F: Event, K: Clock>(
    clock: K,
    start: AppendStart,
    facts: Seq<F>,
    id: u128,
    expected: StreamState,
    metadata: Seq<(Seq<char>, JsonView)>,
) -> bool {
    match start {
        AppendStart::Nothing { workflow_id } => facts.len() == 0 && workflow_id != 0,
        AppendStart::Append { workflow_id, request } => facts.len() > 0 && workflow_id != 0
            && exists|stamps: Seq<Stamp>|
            {
                &&& stamps.len() == facts.len()
                &&& named_events(stamps)
                &&& stamped_by(clock, stamps)
                &&& #[trigger] appends_decision(
                    request@,
                    facts,
                    id,
                    expected,
                    workflow_id,
                    metadata,
                    stamps,
                )
            },
    }
}

/// Whether a decision on a state may have an outcome.
pub open spec fn decides<A, F, D: Fn(&A) -> Result<Vec<F>, Error>>(
    decide: D,
    state: A,
    outcome: Result<Vec<F>, Error>,
) -> bool {
    decide.ensures((&state,), outcome)
}

/// Whether every fact of a list has a JSON form.
pub open spec fn all_encode<F: Event>(facts: Seq<F>) -> bool {
    forall|i: int| 0 <= i < facts.len() ==> (#[trigger] facts[i]).encoded() is Some
}

/// One attempt: folds the stream, decides, and builds the append, which
/// expects the stream as it was read.
pub fn append<A: Apply<F>, F: Event, D: Fn(&A) -> Result<Vec<F>, Error>, K: Clock>(
    id: u128,
    events: &Vec<RecordedEvent>,
    decide: D,
    default_metadata: &Metadata,
    clock: &K,
) -> (r: Result<AppendStart, Error>)
    requires
        forall|state: A| #[trigger] decide.requires((&state,)),
    ensures
        folded::<A, F>(deliveries(events@)) is None ==> (r matches Err(e) && tells_bad_event::<F>(
            deliveries(events@),
            e,
        )),
        r matches Ok(start) ==> exists|facts: Vec<F>|
            {
                &&& #[trigger] decides(decide, folded::<A, F>(deliveries(events@))->0, Ok(facts))
                &&& comes_to(
                    *clock,
                    start,
                    facts@,
                    id,
                    expectation(deliveries(events@)),
                    member_views(default_metadata@),
                )
            },
        r is Err && folded::<A, F>(deliveries(events@)) is Some ==> exists|
            outcome: Result<Vec<F>, Error>,
        |
            {
                &&& #[trigger] decides(decide, folded::<A, F>(deliveries(events@))->0, outcome)
                &&& match outcome {
                    Ok(facts) => r matches Err(e) && tells_unencodable(facts@, e),
                    Err(e) => r == Err::<AppendStart, Error>(e),
                }
            },
{
    let expected = expected_state(events);
    let state = match fold_stream::<A, F>(events) {
        Ok(state) => state,
        Err(e) => {
            return Err(e);
        },
    };
    let outcome = decide(&state);
    assert(decides(decide, state, outcome));
    let facts = match outcome {
        Ok(facts) => facts,
        Err(e) => {
            return Err(e);
        },
    };
    let workflow_id = id_fresh();
    if facts.len() == 0 {
        let start = AppendStart::Nothing { workflow_id };
        proof {
            assert(decides(
                decide,
                folded::<A, F>(deliveries(events@))->0,
                Ok::<Vec<F>, Error>(facts),
            ));
            assert(comes_to(
                *clock,
                start,
                facts@,
                id,
                expectation(deliveries(events@)),
                member_views(default_metadata@),
            ));
        }
        return Ok(start);
    }
    let mut stamps: Vec<Stamp> = Vec::new();
    let mut i: usize = 0;
    while i < facts.len()
        invariant
            i <= facts@.len(),
            stamps@.len() == i,
            named_events(stamps@),
            stamped_by(*clock, stamps@),
        decreases facts@.len() - i,
    {
        stamps.push(Stamp { event_id: id_fresh(), now: clock.now() });
        i += 1;
    }
    match plan_append(&facts, id, expected, workflow_id, default_metadata, &stamps) {
        Ok(request) => {
            let start = AppendStart::Append { workflow_id, request };
            proof {
                assert(decides(
                    decide,
                    folded::<A, F>(deliveries(events@))->0,
                    Ok::<Vec<F>, Error>(facts),
                ));
                assert(appends_decision(
                    start->request@,
                    facts@,
                    id,
                    expectation(deliveries(events@)),
                    start->Append_workflow_id,
                    member_views(default_metadata@),
                    stamps@,
                ));
                assert(comes_to(
                    *clock,
                    start,
                    facts@,
                    id,
                    expectation(deliveries(events@)),
                    member_views(default_metadata@),
                ));
            }
            Ok(start)
        },
        Err(e) => Err(e),
    }
}

/// How often a conflicting append is tried.
pub const MAX_OCC_RETRIES: u32 = 16;

/// The longest wait after a conflict, in microseconds: it doubles with each
/// attempt, up to a limit.
pub open spec fn wait_window(attempt: nat) -> int
    decreases attempt,
{
    if attempt == 0 {
        50
    } else if attempt <= 6 {
        2 * wait_window((attempt - 1) as nat)
    } else {
        wait_window(6)
    }
}

/// What is to be done after a conflict.
#[derive(Clone, Copy, Debug, PartialEq, Eq, Structural)]
pub struct ConflictStep {
    /// How long to wait, in microseconds.
    pub wait_micros: u64,
    /// Whether to read the stream and decide again.
    pub again: bool,
}

/// After attempt number `attempt` met a conflict: a random wait within the
/// window, and another attempt while there are any left.
pub fn after_conflict(attempt: u32, entropy: u128) -> (step: ConflictStep)
    requires
        attempt < MAX_OCC_RETRIES,
    ensures
        step.wait_micros == (entropy as int % 0x1_0000_0000_0000_0000) % wait_window(attempt as nat),
        step.wait_micros < wait_window(attempt as nat),
        step.again == (attempt + 1 < MAX_OCC_RETRIES),
{
    proof {
        reveal_with_fuel(wait_window, 8);
    }
    let exponent: u32 = if attempt < 6 {
        attempt
    } else {
        6
    };
    let window: u64 = if exponent == 0 {
        50
    } else if exponent == 1 {
        100
    } else if exponent == 2 {
        200
    } else if exponent == 3 {
        400
    } else if exponent == 4 {
        800
    } else if exponent == 5 {
        1600
    } else {
        3200
    };
    let low: u64 = (entropy % 0x1_0000_0000_0000_0000) as u64;
    ConflictStep { wait_micros: low % window, again: attempt + 1 < MAX_OCC_RETRIES }
}

/// [`after_conflict`] with a random id as its entropy.
pub fn back_off(attempt: u32) -> (step: ConflictStep)
    requires
        attempt < MAX_OCC_RETRIES,
    ensures
        step.wait_micros < wait_window(attempt as nat),
        step.again == (attempt + 1 < MAX_OCC_RETRIES),
{
    after_conflict(attempt, id_fresh())
}

/// Whether a stream in a state meets an expectation.
pub open spec fn meets(expected: StreamState, head: Option<u64>) -> bool {
    match expected {
        StreamState::Any => true,
        StreamState::NoStream => head is None,
        StreamState::StreamExists => head is Some,
        StreamState::StreamRevision(r) => head == Some(r.0),
    }
}

/// A decision is never applied to a stream that moved since it was read: an
/// append is accepted only where the stream's last revision is the one the
/// decision was taken on. Two decisions on one reading cannot both land.
pub proof fn law_stale_decisions_are_refused(
    read: Seq<Delivery>,
    now: Seq<Delivery>,
)
    requires
        forall|i: int| 0 <= i < read.len() ==> (#[trigger] read[i]).revision == i,
        forall|i: int| 0 <= i < now.len() ==> (#[trigger] now[i]).revision == i,
        read.len() <= now.len(),
    ensures
        meets(
            expectation(read),
            if now.len() == 0 {
                None
            } else {
                Some(now.last().revision)
            },
        ) <==> read.len() == now.len(),
{
    if read.len() > 0 {
        assert(read[read.len() - 1].revision == read.len() - 1);
    }
    if now.len() > 0 {
        assert(now[now.len() - 1].revision == now.len() - 1);
    }
}

/// The state after several facts in turn.
pub open spec fn applied_all<A: Apply<F>, F: Event>(state: A, facts: Seq<F>) -> A
    decreases facts.len(),
{
    if facts.len() == 0 {
        state
    } else {
        applied_all(state, facts.drop_last()).applied(facts.last())
    }
}

/// What an append adds, the next load sees: folding a stream that the events
/// of a decision were appended to gives the state after each decided fact in
/// turn.
pub proof fn law_load_sees_appends<A: Apply<F>, F: Event>(
    events: Seq<Delivery>,
    facts: Seq<F>,
    added: Seq<Delivery>,
)
    requires
        folded::<A, F>(events) is Some,
        added.len() == facts.len(),
        forall|i: int|
            0 <= i < added.len() ==> (#[trigger] added[i]).event_type == F::NAME@ && F::decoded(
                added[i].payload,
            ) == Some(facts[i]),
    ensures
        folded::<A, F>(events + added) == Some(applied_all(folded::<A, F>(events)->0, facts)),
    decreases added.len(),
{
    if added.len() == 0 {
        assert(events + added =~= events);
    } else {
        let rest = added.drop_last();
        assert forall|i: int| 0 <= i < rest.len() implies (#[trigger] rest[i]).event_type
            == F::NAME@ && F::decoded(rest[i].payload) == Some(facts.drop_last()[i]) by {
            assert(rest[i] == added[i]);
        }
        law_load_sees_appends::<A, F>(events, facts.drop_last(), rest);
        assert((events + added).drop_last() =~= events + rest);
        assert(added[added.len() - 1].event_type == F::NAME@);
    }
}

/// Events of other kinds in the same stream change the head and not the state.
pub proof fn law_foreign_events_are_passed_over<A: Apply<F>, F: Event>(
    events: Seq<Delivery>,
    foreign: Delivery,
)
    requires
        foreign.event_type != F::NAME@,
    ensures
        folded::<A, F>(events.push(foreign)) == folded::<A, F>(events),
        head_of(events.push(foreign)) == StreamRevision(foreign.revision),
{
    assert(events.push(foreign).drop_last() =~= events);
}

/// What an append holds: an event for each decided fact, in order, each of the
/// fact's kind, with the fact's JSON form and at its own time, or else at one
/// that the clock reads; to the one stream of the aggregate, under the
/// engine's metadata, without a cause, and to be kept. It expects the stream to
/// end where the decision saw it end.
pub proof fn law_append_holds_the_decision<
    A: Apply<F>,
    F: Event,
    D: Fn(&A) -> Result<Vec<F>, Error>,
    K: Clock,
>(
    id: u128,
    events: &Vec<RecordedEvent>,
    decide: D,
    default_metadata: &Metadata,
    clock: &K,
    workflow_id: u128,
    request: AppendRequest,
)
    requires
        call_ensures(
            append::<A, F, D, K>,
            (id, events, decide, default_metadata, clock),
            Ok(AppendStart::Append { workflow_id, request }),
        ),
    ensures
        request.category@ == F::SUBJECT@,
        request.subject_id == id,
        events@.len() == 0 ==> request.expected is NoStream,
        events@.len() > 0 ==> request.expected == StreamState::StreamRevision(
            events@.last().revision,
        ),
        workflow_id != 0,
        exists|state: A, facts: Vec<F>|
            {
                &&& folded::<A, F>(deliveries(events@)) == Some(state)
                &&& #[trigger] decide.ensures((&state,), Ok(facts))
                &&& request.events@.len() == facts@.len()
                &&& facts@.len() > 0
                &&& forall|i: int|
                    0 <= i < facts@.len() ==> {
                        let event = #[trigger] request.events@[i];
                        let fact = facts@[i];
                        &&& event.workflow_id == workflow_id
                        &&& event.event_type@ == F::NAME@
                        &&& fact.encoded() == Some(event.payload@)
                        &&& event.category matches Some(c) && c@ == F::SUBJECT@
                        &&& event.subject_id == Some(id)
                        &&& event.causation_id is None
                        &&& event.event_id != 0
                        &&& event.persistent
                        &&& match fact.occurred_of() {
                            Some(at) => event.created_at == at,
                            None => may_read(*clock, event.created_at),
                        }
                        &&& event.metadata@.len() == default_metadata@.len()
                        &&& forall|j: int|
                            0 <= j < default_metadata@.len() ==> (
                            #[trigger] event.metadata@[j]).0@ == default_metadata@[j].0@
                                && event.metadata@[j].1@ == default_metadata@[j].1@
                    }
            },
{
    let start = AppendStart::Append { workflow_id, request };
    let state = folded::<A, F>(deliveries(events@))->0;
    let metadata = member_views(default_metadata@);
    let expected = expectation(deliveries(events@));
    let facts = choose|facts: Vec<F>|
        {
            &&& #[trigger] decides(decide, state, Ok(facts))
            &&& comes_to(*clock, start, facts@, id, expected, metadata)
        };
    let stamps = choose|stamps: Seq<Stamp>|
        {
            &&& stamps.len() == facts@.len()
            &&& named_events(stamps)
            &&& stamped_by(*clock, stamps)
            &&& #[trigger] appends_decision(
                request@,
                facts@,
                id,
                expected,
                workflow_id,
                metadata,
                stamps,
            )
        };
    assert(decide.ensures((&state,), Ok::<Vec<F>, Error>(facts)));
    assert forall|i: int| 0 <= i < facts@.len() implies {
        let event = #[trigger] request.events@[i];
        let fact = facts@[i];
        &&& event.workflow_id == workflow_id
        &&& event.event_type@ == F::NAME@
        &&& fact.encoded() == Some(event.payload@)
        &&& event.category matches Some(c) && c@ == F::SUBJECT@
        &&& event.subject_id == Some(id)
        &&& event.causation_id is None
        &&& event.event_id != 0
        &&& event.persistent
        &&& match fact.occurred_of() {
            Some(at) => event.created_at == at,
            None => may_read(*clock, event.created_at),
        }
        &&& event.metadata@.len() == default_metadata@.len()
        &&& forall|j: int|
            0 <= j < default_metadata@.len() ==> (#[trigger] event.metadata@[j]).0@
                == default_metadata@[j].0@ && event.metadata@[j].1@ == default_metadata@[j].1@
    } by {
        let event = request.events@[i];
        assert(request@.events[i] == event@);
        assert(is_decided_event(event@, facts@[i], id, workflow_id, metadata, stamps[i]));
        assert(may_read(*clock, stamps[i].now));
        assert(member_views(event.metadata@) == metadata);
        assert(member_views(event.metadata@).len() == event.metadata@.len());
        assert(metadata.len() == default_metadata@.len());
        assert forall|j: int| 0 <= j < default_metadata@.len() implies (
        #[trigger] event.metadata@[j]).0@ == default_metadata@[j].0@ && event.metadata@[j].1@
            == default_metadata@[j].1@ by {
            assert(member_views(event.metadata@)[j] == metadata[j]);
        }
    }
}

/// All facts of a decision share one workflow, the one that the append reports:
/// every event of the request carries it. The append is never empty.
pub proof fn law_decision_is_one_workflow<
    A: Apply<F>,
    F: Event,
    D: Fn(&A) -> Result<Vec<F>, Error>,
    K: Clock,
>(
    id: u128,
    events: &Vec<RecordedEvent>,
    decide: D,
    default_metadata: &Metadata,
    clock: &K,
    workflow_id: u128,
    request: AppendRequest,
)
    requires
        call_ensures(
            append::<A, F, D, K>,
            (id, events, decide, default_metadata, clock),
            Ok(AppendStart::Append { workflow_id, request }),
        ),
    ensures
        workflow_id != 0,
        request.events@.len() > 0,
        forall|i: int|
            0 <= i < request.events@.len() ==> (#[trigger] request.events@[i]).workflow_id
                == workflow_id,
{
    law_append_holds_the_decision::<A, F, D, K>(
        id,
        events,
        decide,
        default_metadata,
        clock,
        workflow_id,
        request,
    );
}

/// An empty decision appends nothing, and only an empty one does.
pub proof fn law_only_empty_decisions_append_nothing<
    A: Apply<F>,
    F: Event,
    D: Fn(&A) -> Result<Vec<F>, Error>,
    K: Clock,
>(
    id: u128,
    events: &Vec<RecordedEvent>,
    decide: D,
    default_metadata: &Metadata,
    clock: &K,
    start: AppendStart,
)
    requires
        call_ensures(
            append::<A, F, D, K>,
            (id, events, decide, default_metadata, clock),
            Ok(start),
        ),
    ensures
        exists|state: A, facts: Vec<F>|
            {
                &&& folded::<A, F>(deliveries(events@)) == Some(state)
                &&& #[trigger] decide.ensures((&state,), Ok(facts))
                &&& start is Nothing <==> facts@.len() == 0
            },
{
    let state = folded::<A, F>(deliveries(events@))->0;
    let facts = choose|facts: Vec<F>|
        {
            &&& #[trigger] decides(decide, state, Ok(facts))
            &&& comes_to(
                *clock,
                start,
                facts@,
                id,
                expectation(deliveries(events@)),
                member_views(default_metadata@),
            )
        };
    assert(decide.ensures((&state,), Ok::<Vec<F>, Error>(facts)));
}

/// A decision that refuses is what the append answers, and a stream that does
/// not fold is never decided on: an append fails only in the words of the
/// decision, of an event of the kind that does not decode, or of a decided
/// fact without a JSON form.
pub proof fn law_append_fails_for_a_reason<
    A: Apply<F>,
    F: Event,
    D: Fn(&A) -> Result<Vec<F>, Error>,
    K: Clock,
>(
    id: u128,
    events: &Vec<RecordedEvent>,
    decide: D,
    default_metadata: &Metadata,
    clock: &K,
    e: Error,
)
    requires
        call_ensures(append::<A, F, D, K>, (id, events, decide, default_metadata, clock), Err(e)),
    ensures
        ({
            ||| exists|k: int|
                0 <= k < events@.len() && (#[trigger] events@[k]).event_type@ == F::NAME@
                    && F::decoded(events@[k].payload@) is None && undecodable::<F>(
                    events@[k].payload@,
                    e,
                )
            ||| exists|state: A|
                folded::<A, F>(deliveries(events@)) == Some(state) && #[trigger] decide.ensures(
                    (&state,),
                    Err(e),
                )
            ||| exists|state: A, facts: Vec<F>, i: int|
                {
                    &&& folded::<A, F>(deliveries(events@)) == Some(state)
                    &&& #[trigger] decide.ensures((&state,), Ok(facts))
                    &&& 0 <= i < facts@.len()
                    &&& (#[trigger] facts@[i]).encoded() is None
                    &&& unencodable(facts@[i], e)
                }
        }),
{
    let all = deliveries(events@);
    match folded::<A, F>(all) {
        None => {
            let k = choose|k: int|
                0 <= k < all.len() && (#[trigger] all[k]).event_type == F::NAME@ && undecodable::<
                    F,
                >(all[k].payload, e);
            assert(events@[k].delivery() == all[k]);
        },
        Some(state) => {
            let r = Err::<AppendStart, Error>(e);
            let outcome = choose|outcome: Result<Vec<F>, Error>|
                {
                    &&& #[trigger] decides(decide, state, outcome)
                    &&& match outcome {
                        Ok(facts) => r matches Err(e) && tells_unencodable(facts@, e),
                        Err(e) => r == Err::<AppendStart, Error>(e),
                    }
                };
            assert(decide.ensures((&state,), outcome));
            match outcome {
                Ok(facts) => {
                    let i = choose|i: int|
                        {
                            &&& 0 <= i < facts@.len()
                            &&& unencodable(#[trigger] facts@[i], e)
                            &&& all_encode(facts@.take(i))
                        };
                    assert(facts@[i].encoded() is None);
                },
                Err(_) => {},
            }
        },
    }
}

/// A load is a fold, event by event: a stream without events gives the initial
/// state, and one event more changes a loaded state by exactly that event's
/// fact if it is of the kind, and not at all if it is of another. The revision
/// is always that of the last event.
pub proof fn law_load_is_a_fold<A: Apply<F>, F: Event>(
    events: &Vec<RecordedEvent>,
    more: &Vec<RecordedEvent>,
    loaded: (A, StreamRevision),
    after: Result<(A, StreamRevision), Error>,
)
    requires
        call_ensures(load::<A, F>, (events,), Ok(loaded)),
        call_ensures(load::<A, F>, (more,), after),
        more@.len() > 0,
        more@.drop_last() == events@,
    ensures
        events@.len() == 0 ==> loaded.0 == A::initial() && loaded.1.0 == 0,
        events@.len() > 0 ==> loaded.1 == events@.last().revision,
        after matches Ok(next) ==> next.1 == more@.last().revision,
        ({
            let last = more@.last();
            if last.event_type@ == F::NAME@ {
                match F::decoded(last.payload@) {
                    Some(fact) => after matches Ok(next) && next.0 == loaded.0.applied(fact),
                    None => after is Err,
                }
            } else {
                after matches Ok(next) && next.0 == loaded.0
            }
        }),
{
    let all = deliveries(more@);
    assert(all.drop_last() =~= deliveries(events@));
    assert(all.last() == more@.last().delivery());
}

/// Each wait after a conflict lies in a window that doubles from fifty
/// microseconds up to the seventh attempt, and every wait in the window can
/// come; sixteen attempts are made in all.
pub proof fn law_conflicts_back_off(attempt: u32, entropy: u128, step: ConflictStep)
    requires
        attempt < 16,
        call_ensures(after_conflict, (attempt, entropy), step),
    ensures
        ({
            let doublings = if attempt < 6 {
                attempt as nat
            } else {
                6
            };
            let window = 50 * pow2(doublings);
            &&& step.wait_micros < window
            &&& entropy < window ==> step.wait_micros == entropy
            &&& step.wait_micros == (entropy as int % 0x1_0000_0000_0000_0000) % window as int
        }),
        step.again <==> attempt < 15,
{
    reveal_with_fuel(wait_window, 8);
    lemma2_to64();
    let n = wait_window(attempt as nat);
    assert(n == 50 || n == 100 || n == 200 || n == 400 || n == 800 || n == 1600 || n == 3200);
    let doublings = if attempt < 6 {
        attempt as nat
    } else {
        6
    };
    assert(50 * pow2(doublings) == n) by {
        assert(doublings == 0 || doublings == 1 || doublings == 2 || doublings == 3 || doublings
            == 4 || doublings == 5 || doublings == 6);
    }
    if entropy < n {
        lemma_small_mod(entropy as nat, 0x1_0000_0000_0000_0000);
        lemma_small_mod(entropy as nat, n as nat);
    }
}

/// An append expects the stream to end where the history that was read ends,
/// and no stream where there was none.
pub proof fn law_appends_expect_what_was_read(events: &Vec<RecordedEvent>, expected: StreamState)
    requires
        call_ensures(expected_state, (events,), expected),
    ensures
        events@.len() == 0 <==> expected is NoStream,
        events@.len() > 0 ==> expected == StreamState::StreamRevision(
            events@[events@.len() - 1].revision,
        ),
{
    let all = deliveries(events@);
    assert(all.len() == events@.len());
    if events@.len() > 0 {
        assert(all.last() == events@[events@.len() - 1].delivery());
    }
}

/// A history folds to its initial state where it holds none of the kind, and a
/// history that folds still folds without its last event.
pub proof fn law_histories_fold_from_the_start<A: Apply<F>, F: Event>(
    events: &Vec<RecordedEvent>,
    more: &Vec<RecordedEvent>,
    r: Result<A, Error>,
    after: Result<A, Error>,
)
    requires
        call_ensures(fold_stream::<A, F>, (events,), r),
        call_ensures(fold_stream::<A, F>, (more,), after),
        more@.len() > 0,
        more@.drop_last() == events@,
    ensures
        events@.len() == 0 ==> r == Ok::<A, Error>(A::initial()),
        r is Err ==> after is Err,
        r matches Ok(state) ==> ({
            let last = more@[more@.len() - 1];
            if last.event_type@ != F::NAME@ {
                after == r
            } else {
                match F::decoded(last.payload@) {
                    Some(fact) => after == Ok::<A, Error>(state.applied(fact)),
                    None => after is Err,
                }
            }
        }),
{
    let all = deliveries(more@);
    assert(all.drop_last() =~= deliveries(events@));
    assert(all.last() == more@.last().delivery());
}

/// A planned append takes its facts whole or not at all: it is refused exactly
/// where one of them cannot be encoded, with the words of the first that
/// cannot, and otherwise holds one event for each, in order, under the ids and
/// at the time it was stamped with.
pub proof fn law_plans_hold_each_fact<F: Event>(
    facts: &Vec<F>,
    id: u128,
    expected: StreamState,
    workflow_id: u128,
    metadata: &Metadata,
    stamps: &Vec<Stamp>,
    r: Result<AppendRequest, Error>,
)
    requires
        call_ensures(
            plan_append::<F>,
            (facts, id, expected, workflow_id, metadata, stamps),
            r,
        ),
    ensures
        r is Ok <==> forall|i: int|
            0 <= i < facts@.len() ==> (#[trigger] facts@[i]).encoded() is Some,
        r matches Err(e) ==> exists|i: int|
            {
                &&& 0 <= i < facts@.len()
                &&& (#[trigger] facts@[i]).encoded() is None
                &&& exists|text: String| #[trigger]
                    call_ensures(F::encode, (&facts@[i],), Err(text)) && (e matches Error::Message(m)
                        && m@ == text@)
                &&& forall|j: int| 0 <= j < i ==> (#[trigger] facts@[j]).encoded() is Some
            },
        r matches Ok(request) ==> {
            &&& request.category@ == F::SUBJECT@
            &&& request.subject_id == id
            &&& request.expected == expected
            &&& request.events@.len() == facts@.len()
            &&& forall|i: int|
                0 <= i < facts@.len() ==> {
                    let event = #[trigger] request.events@[i];
                    &&& event.event_id == stamps@[i].event_id
                    &&& event.workflow_id == workflow_id
                    &&& event.causation_id is None
                    &&& event.event_type@ == F::NAME@
                    &&& facts@[i].encoded() == Some(event.payload@)
                    &&& event.category matches Some(c) && c@ == F::SUBJECT@
                    &&& event.subject_id == Some(id)
                    &&& event.persistent
                    &&& event.created_at == (match facts@[i].occurred_of() {
                        Some(at) => at,
                        None => stamps@[i].now,
                    })
                    &&& member_views(event.metadata@) == member_views(metadata@)
                }
        },
{
    match r {
        Ok(request) => {
            assert forall|i: int| 0 <= i < facts@.len() implies is_decided_event(
                (#[trigger] request.events@[i])@,
                facts@[i],
                id,
                workflow_id,
                member_views(metadata@),
                stamps@[i],
            ) by {
                assert(request@.events[i] == request.events@[i]@);
            }
        },
        Err(e) => {
            let i = choose|i: int|
                {
                    &&& 0 <= i < facts@.len()
                    &&& unencodable(#[trigger] facts@[i], e)
                    &&& all_encode(facts@.take(i))
                };
            assert forall|j: int| 0 <= j < i implies (#[trigger] facts@[j]).encoded() is Some by {
                assert(facts@.take(i)[j].encoded() is Some);
            }
            assert(facts@[i].encoded() is None);
        },
    }
}

} // verus!
