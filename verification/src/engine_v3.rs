//! The outbox engine: facts are appended one by one, and reactors write to an
//! outbox that a relay drains into the log.

use vstd::prelude::*;

use crate::aggregate_v3::Aggregate;
use crate::aggregator::FoldFns;
use crate::clock::{may_read, Clock};
use crate::codec::{undecodable, Codec};
use crate::emit::{holds, lemma_merged_holds, merge_metadata, merged_map, Stamp};
use crate::event_log::{AppendRequest, RequestView};
use crate::fact::{stored_type, Fact};
use crate::failure::Error;
use crate::ids::id_fresh;
use crate::json::{
    copy_members, member_views, members_map, ordered, set_member, Json, JsonView,
};
use crate::registry::{first_of_type, AggregatorRegistry};
use crate::text::{listed, lists};
use crate::transitions::{state_key, state_key_text};
use crate::types::{
    event_views, EventData, EventView, LogCursor, Metadata, StreamState, Timestamp,
};

verus! {

/// What an emit reports.
#[derive(Clone, Copy, Debug, PartialEq, Eq, Structural)]
pub struct EmitResult {
    pub position: LogCursor,
    pub correlation_id: u128,
}

/// What a terminal failure of a reactor is told to the one that maps it to a
/// fact.
#[derive(Debug)]
pub struct DlqInfo {
    /// The failing reactor.
    pub group_name: String,
    pub source_event_id: u128,
    pub source_event_type: String,
    pub error: String,
    pub attempts: u32,
}

/// A fact that waits to be emitted.
#[derive(Debug)]
pub struct PendingFact {
    pub category: String,
    /// Its stored type, `{category}:{name}`.
    pub event_type: String,
    pub stream_id: u128,
    pub occurred_at: Option<Timestamp>,
    /// Its JSON form, or why it has none.
    pub payload: Result<Json, String>,
}

/// Whether a waiting fact stands for a fact.
pub open spec fn stands_for<F: Fact>(pending: PendingFact, fact: F) -> bool {
    &&& pending.category@ == F::CATEGORY@
    &&& pending.event_type@ == F::CATEGORY@ + ":"@ + fact.name_of()
    &&& pending.stream_id == fact.stream_of()
    &&& pending.occurred_at == fact.occurred_of()
    &&& match pending.payload {
        Ok(json) => fact.encoded() == Some(json@),
        Err(_) => fact.encoded() is None,
    }
}

/// What is to be emitted.
#[derive(Debug)]
pub struct EmitInput {
    pub facts: Vec<PendingFact>,
}

impl EmitInput {
    /// Several facts of one type, in order.
    pub fn many<F: Fact>(facts: &Vec<F>) -> (input: EmitInput)
        ensures
            input.facts@.len() == facts@.len(),
            forall|i: int|
                0 <= i < facts@.len() ==> stands_for(#[trigger] input.facts@[i], facts@[i]),
    {
        let mut list: Vec<PendingFact> = Vec::new();
        let mut i: usize = 0;
        while i < facts.len()
            invariant
                i <= facts@.len(),
                list@.len() == i,
                forall|j: int| 0 <= j < i ==> stands_for(#[trigger] list@[j], facts@[j]),
            decreases facts@.len() - i,
        {
            let fact = &facts[i];
            list.push(
                PendingFact {
                    category: F::CATEGORY.to_owned(),
                    event_type: stored_type(fact),
                    stream_id: fact.stream_id(),
                    occurred_at: fact.occurred_at(),
                    payload: fact.encode(),
                },
            );
            i += 1;
        }
        EmitInput { facts: list }
    }
}

/// An emit with its envelope.
#[derive(Debug)]
pub struct EmitBuilder {
    pub input: EmitInput,
    pub correlation_id: Option<u128>,
    pub parent_id: Option<u128>,
    pub metadata: Metadata,
}

impl EmitBuilder {
    /// The metadata is in key order.
    pub open spec fn wf(&self) -> bool {
        ordered(member_views(self.metadata@))
    }

    pub fn new(input: EmitInput) -> (b: EmitBuilder)
        ensures
            b.wf(),
            b.input == input,
            b.correlation_id is None,
            b.parent_id is None,
            b.metadata@.len() == 0,
    {
        EmitBuilder { input, correlation_id: None, parent_id: None, metadata: Vec::new() }
    }

    /// Sets the correlation of every fact.
    pub fn correlation_id(self, id: u128) -> (b: EmitBuilder)
        ensures
            b == (EmitBuilder { correlation_id: Some(id), ..self }),
    {
        EmitBuilder { correlation_id: Some(id), ..self }
    }

    /// Sets the parent of every fact.
    pub fn parent_id(self, id: u128) -> (b: EmitBuilder)
        ensures
            b == (EmitBuilder { parent_id: Some(id), ..self }),
    {
        EmitBuilder { parent_id: Some(id), ..self }
    }

    /// Sets a metadata key of every fact.
    pub fn metadata(self, key: &str, value: Json) -> (b: EmitBuilder)
        requires
            self.wf(),
        ensures
            b.wf(),
            b.input == self.input,
            b.correlation_id == self.correlation_id,
            b.parent_id == self.parent_id,
            members_map(member_views(b.metadata@)) == members_map(
                member_views(self.metadata@),
            ).insert(key@, value@),
    {
        let mut metadata = self.metadata;
        set_member(&mut metadata, key, value);
        EmitBuilder {
            input: self.input,
            correlation_id: self.correlation_id,
            parent_id: self.parent_id,
            metadata,
        }
    }
}

/// The event of a fact.
pub open spec fn fact_event(
    fact: PendingFact,
    payload: JsonView,
    correlation_id: u128,
    parent_id: Option<u128>,
    metadata: Seq<(Seq<char>, JsonView)>,
    stamp: Stamp,
) -> EventView {
    EventView {
        event_id: stamp.event_id,
        causation_id: parent_id,
        workflow_id: correlation_id,
        event_type: fact.event_type@,
        payload,
        created_at: match fact.occurred_at {
            Some(at) => at,
            None => stamp.now,
        },
        category: Some(fact.category@),
        subject_id: Some(fact.stream_id),
        metadata,
        persistent: true,
    }
}

/// The append of one fact to its own stream. It fails exactly where the fact
/// has no JSON form; facts emitted before it stay appended.
pub fn append_fact(
    fact: &PendingFact,
    correlation_id: u128,
    parent_id: Option<u128>,
    metadata: &Metadata,
    stamp: Stamp,
) -> (r: Result<AppendRequest, Error>)
    ensures
        match fact.payload {
            Ok(json) => r matches Ok(request) && request@ == (RequestView {
                category: fact.category@,
                subject_id: fact.stream_id,
                expected: StreamState::Any,
                events: seq![
                    fact_event(
                        *fact,
                        json@,
                        correlation_id,
                        parent_id,
                        member_views(metadata@),
                        stamp,
                    ),
                ],
            }),
            Err(text) => r matches Err(Error::Message(m)) && m@ == text@,
        },
{
    let payload = match &fact.payload {
        Ok(json) => json.copy(),
        Err(text) => {
            return Err(Error::Message(text.clone()));
        },
    };
    let created_at = match fact.occurred_at {
        Some(at) => at,
        None => stamp.now,
    };
    let event = EventData {
        event_id: stamp.event_id,
        causation_id: parent_id,
        workflow_id: correlation_id,
        event_type: fact.event_type.clone(),
        payload,
        created_at,
        category: Some(fact.category.clone()),
        subject_id: Some(fact.stream_id),
        metadata: copy_members(metadata),
        persistent: true,
    };
    let mut events: Vec<EventData> = Vec::new();
    events.push(event);
    assert(event_views(events@) =~= seq![event@]);
    Ok(
        AppendRequest {
            category: fact.category.clone(),
            subject_id: fact.stream_id,
            expected: StreamState::Any,
            events,
        },
    )
}

/// The envelope that all facts of an emit share.
#[derive(Debug)]
pub struct EmitEnvelope {
    pub correlation_id: u128,
    pub metadata: Metadata,
}

/// Begins an emit: its correlation, a fresh one where none is given, and the
/// engine's metadata under the emit's own.
pub fn execute_emit(b: &EmitBuilder, default_metadata: &Metadata) -> (e: EmitEnvelope)
    requires
        b.wf(),
        ordered(member_views(default_metadata@)),
    ensures
        match b.correlation_id {
            Some(id) => e.correlation_id == id,
            None => e.correlation_id != 0,
        },
        ordered(member_views(e.metadata@)),
        members_map(member_views(e.metadata@)) == merged_map(
            member_views(default_metadata@),
            member_views(b.metadata@),
        ),
{
    let correlation_id = match b.correlation_id {
        Some(id) => id,
        None => id_fresh(),
    };
    EmitEnvelope { correlation_id, metadata: merge_metadata(default_metadata, &b.metadata) }
}

/// A fresh id and the clock's time, for one event.
pub fn stamp_event<K: Clock>(clock: &K) -> (stamp: Stamp)
    ensures
        stamp.event_id != 0,
        may_read(*clock, stamp.now),
{
    Stamp { event_id: id_fresh(), now: clock.now() }
}

/// An event of a stream, with its version where the backend keeps one.
#[derive(Debug)]
pub struct VersionedEvent {
    pub payload: Json,
    pub version: Option<u64>,
}

/// The state after the leading events of a stream; `None` once one does not
/// decode.
pub open spec fn folded<A: Aggregate>(payloads: Seq<JsonView>) -> Option<A>
    decreases payloads.len(),
{
    if payloads.len() == 0 {
        Some(A::initial())
    } else {
        match (folded::<A>(payloads.drop_last()), A::Fact::decoded(payloads.last())) {
            (Some(state), Some(fact)) => Some(state.applied(fact)),
            _ => None,
        }
    }
}

/// The payloads of a stream.
pub open spec fn payloads(events: Seq<VersionedEvent>) -> Seq<JsonView> {
    Seq::new(events.len(), |i: int| events[i].payload@)
}

/// The last version met in a stream; zero where none was.
pub open spec fn last_version(events: Seq<VersionedEvent>) -> u64
    decreases events.len(),
{
    if events.len() == 0 {
        0
    } else {
        match events.last().version {
            Some(v) => v,
            None => last_version(events.drop_last()),
        }
    }
}

proof fn lemma_fold_failure_sticks<A: Aggregate>(list: Seq<JsonView>, n: int)
    requires
        0 <= n <= list.len(),
        folded::<A>(list.take(n)) is None,
    ensures
        folded::<A>(list) is None,
    decreases list.len() - n,
{
    if n < list.len() {
        assert(list.take(n + 1).drop_last() =~= list.take(n));
        lemma_fold_failure_sticks::<A>(list, n + 1);
    } else {
        assert(list.take(n) =~= list);
    }
}

/// Loads an aggregate from its whole stream: its state and the last version
/// met. It fails exactly where a fact does not decode.
pub fn load<A: Aggregate>(events: &Vec<VersionedEvent>) -> (r: Result<(A, u64), Error>)
    ensures
        match r {
            Ok((state, version)) => folded::<A>(payloads(events@)) == Some(state) && version
                == last_version(events@),
            Err(e) => folded::<A>(payloads(events@)) is None && exists|k: int|
                0 <= k < events@.len() && undecodable::<A::Fact>(#[trigger] payloads(events@)[k], e),
        },
{
    let ghost all = payloads(events@);
    let mut state = A::initial_state();
    let mut version: u64 = 0;
    let mut i: usize = 0;
    assert(all.take(0) =~= Seq::<JsonView>::empty());
    assert(events@.take(0) =~= Seq::<VersionedEvent>::empty());
    while i < events.len()
        invariant
            i <= events@.len(),
            all == payloads(events@),
            folded::<A>(all.take(i as int)) == Some(state),
            version == last_version(events@.take(i as int)),
        decreases events@.len() - i,
    {
        let event = &events[i];
        assert(all.take(i + 1).drop_last() =~= all.take(i as int));
        assert(events@.take(i + 1).drop_last() =~= events@.take(i as int));
        match A::Fact::decode(&event.payload) {
            Ok(fact) => {
                state.apply(&fact);
            },
            Err(text) => {
                let e = Error::Message(text);
                proof {
                    lemma_fold_failure_sticks::<A>(all, i + 1);
                    assert(undecodable::<A::Fact>(all[i as int], e));
                }
                return Err(e);
            },
        }
        if let Some(v) = event.version {
            version = v;
        }
        i += 1;
    }
    assert(all.take(i as int) =~= all);
    assert(events@.take(i as int) =~= events@);
    Ok((state, version))
}

/// The state of an aggregate, where aggregators are registered and one is
/// held.
pub fn snapshot<B: FoldFns>(
    reg: Option<&AggregatorRegistry<B>>,
    aggregate_type: &str,
    stream_id: u128,
) -> (state: Option<B::State>)
    requires
        reg matches Some(r) ==> r.wf() && (r.table().contains_key(
            state_key(aggregate_type@, stream_id),
        ) ==> first_of_type(r.aggs(), aggregate_type@) is Some),
    ensures
        state == (match reg {
            Some(r) => if r.table().contains_key(state_key(aggregate_type@, stream_id)) {
                Some(r.table()[state_key(aggregate_type@, stream_id)].state)
            } else {
                None
            },
            None => None,
        }),
{
    match reg {
        Some(r) => {
            let key = state_key_text(aggregate_type, stream_id);
            if !r.has_state(key.as_str()) {
                return None;
            }
            let (_, curr) = r.get_transition(aggregate_type, stream_id);
            Some(curr)
        },
        None => None,
    }
}

/// Whether the log is quiet: every consumer passed `before`, the outbox was
/// then empty, and nothing was appended meanwhile.
pub fn is_quiet(before: LogCursor, outbox_empty: bool, after: LogCursor) -> (quiet: bool)
    ensures
        quiet == (outbox_empty && before == after),
{
    outbox_empty && before.0 == after.0
}

/// What is said of a group name that is taken.
pub open spec fn taken_group_text(name: Seq<char>) -> Seq<char> {
    "duplicate GROUP_NAME `"@ + name
        + "` registered on EngineBuilder — two consumers MUST NOT share a cursor key"@
}

/// Takes a group name for a consumer, or says that it is taken.
pub fn claim_group_name(names: &mut Vec<String>, group_name: &str) -> (r: Result<(), String>)
    ensures
        match r {
            Ok(()) => !listed(old(names)@, group_name@) && final(names)@.len() == old(names)@.len() + 1
                && final(names)@.drop_last() == old(names)@ && final(names)@.last()@ == group_name@,
            Err(text) => listed(old(names)@, group_name@) && text@ == taken_group_text(group_name@)
                && *final(names) == *old(names),
        },
{
    if lists(names, group_name) {
        let mut text = "duplicate GROUP_NAME `".to_owned();
        text.append(group_name);
        text.append("` registered on EngineBuilder — two consumers MUST NOT share a cursor key");
        return Err(text);
    }
    names.push(group_name.to_owned());
    assert(names@.drop_last() =~= old(names)@);
    Ok(())
}

/// A fact is appended as it is, alone and without expectation: one event of its
/// stored type with its JSON form, in its own stream, under the correlation and
/// the parent given, at its own time or else the stamp's. It fails exactly
/// where the fact has no JSON form, in the words that say why.
pub proof fn law_facts_are_appended_as_they_are(
    fact: &PendingFact,
    correlation_id: u128,
    parent_id: Option<u128>,
    metadata: &Metadata,
    stamp: Stamp,
    r: Result<AppendRequest, Error>,
)
    requires
        call_ensures(append_fact, (fact, correlation_id, parent_id, metadata, stamp), r),
    ensures
        r is Err <==> fact.payload is Err,
        r matches Err(e) ==> (e matches Error::Message(m) && fact.payload matches Err(text) && m@
            == text@),
        r matches Ok(request) ==> {
            let event = request.events@[0];
            &&& request.category@ == fact.category@
            &&& request.subject_id == fact.stream_id
            &&& request.expected is Any
            &&& request.events@.len() == 1
            &&& event.event_id == stamp.event_id
            &&& event.causation_id == parent_id
            &&& event.workflow_id == correlation_id
            &&& event.event_type@ == fact.event_type@
            &&& fact.payload matches Ok(json) && event.payload@ == json@
            &&& event.created_at == (match fact.occurred_at {
                Some(at) => at,
                None => stamp.now,
            })
            &&& event.category matches Some(c) && c@ == fact.category@
            &&& event.subject_id == Some(fact.stream_id)
            &&& event.persistent
            &&& member_views(event.metadata@) == member_views(metadata@)
        },
{
    if let Ok(request) = r {
        assert(request@.events == event_views(request.events@));
        assert(event_views(request.events@).len() == request.events@.len());
        assert(event_views(request.events@)[0] == request.events@[0]@);
    }
}

/// All facts of an emit share the correlation asked for, or else one that is
/// not nil, and metadata that holds every member of the emit and those of the
/// engine under other keys.
pub proof fn law_envelope_is_shared(b: &EmitBuilder, defaults: &Metadata, e: EmitEnvelope)
    requires
        b.wf(),
        ordered(member_views(defaults@)),
        call_ensures(execute_emit, (b, defaults), e),
    ensures
        b.correlation_id matches Some(id) ==> e.correlation_id == id,
        b.correlation_id is None ==> e.correlation_id != 0,
        forall|i: int|
            0 <= i < b.metadata@.len() ==> holds(
                e.metadata@,
                (#[trigger] b.metadata@[i]).0@,
                b.metadata@[i].1@,
            ),
        forall|i: int|
            0 <= i < defaults@.len() && (forall|j: int|
                0 <= j < b.metadata@.len() ==> (#[trigger] b.metadata@[j]).0@ != defaults@[i].0@)
                ==> holds(e.metadata@, (#[trigger] defaults@[i]).0@, defaults@[i].1@),
        forall|i: int|
            0 <= i < e.metadata@.len() ==> holds(
                b.metadata@,
                (#[trigger] e.metadata@[i]).0@,
                e.metadata@[i].1@,
            ) || (holds(defaults@, e.metadata@[i].0@, e.metadata@[i].1@) && forall|j: int|
                0 <= j < b.metadata@.len() ==> (#[trigger] b.metadata@[j]).0@
                    != e.metadata@[i].0@),
{
    lemma_merged_holds(defaults@, b.metadata@, e.metadata@);
}

/// A load is a fold, event by event: a stream without events gives the initial
/// state, and one event more changes a loaded state by exactly its fact, or
/// fails where it does not decode. The version is the last that was met.
pub proof fn law_load_is_a_fold<A: Aggregate>(
    events: &Vec<VersionedEvent>,
    more: &Vec<VersionedEvent>,
    loaded: (A, u64),
    after: Result<(A, u64), Error>,
)
    requires
        call_ensures(load::<A>, (events,), Ok(loaded)),
        call_ensures(load::<A>, (more,), after),
        more@.len() > 0,
        more@.drop_last() == events@,
    ensures
        events@.len() == 0 ==> loaded.0 == A::initial() && loaded.1 == 0,
        match A::Fact::decoded(more@.last().payload@) {
            Some(fact) => after matches Ok(next) && next.0 == loaded.0.applied(fact) && next.1 == (
            match more@.last().version {
                Some(v) => v,
                None => loaded.1,
            }),
            None => after is Err,
        },
{
    let all = payloads(more@);
    assert(all.drop_last() =~= payloads(events@));
    assert(all.last() == more@.last().payload@);
}

/// Waiting facts are the facts they were made of, in order.
pub proof fn law_facts_stand_for_facts<F: Fact>(facts: &Vec<F>, input: EmitInput)
    requires
        call_ensures(EmitInput::many::<F>, (facts,), input),
    ensures
        input.facts@.len() == facts@.len(),
        forall|i: int|
            0 <= i < facts@.len() ==> {
                let pending = #[trigger] input.facts@[i];
                &&& pending.category@ == F::CATEGORY@
                &&& pending.event_type@ == F::CATEGORY@ + ":"@ + facts@[i].name_of()
                &&& pending.stream_id == facts@[i].stream_of()
                &&& pending.occurred_at == facts@[i].occurred_of()
                &&& pending.payload matches Ok(json) ==> facts@[i].encoded() == Some(json@)
                &&& pending.payload is Err <==> facts@[i].encoded() is None
            },
{
}

/// The log is quiet only where nothing waits in the outbox and nothing was
/// appended meanwhile, and wherever both hold.
pub proof fn law_quiet_means_nothing_moved(
    before: LogCursor,
    outbox_empty: bool,
    after: LogCursor,
    quiet: bool,
)
    requires
        call_ensures(is_quiet, (before, outbox_empty, after), quiet),
    ensures
        quiet <==> outbox_empty && before.0 == after.0,
{
}

/// A group name is taken once: a claim succeeds exactly where no name on the
/// list is the same, and then adds it; a second claim of it is refused and
/// changes nothing.
pub proof fn law_group_names_are_taken_once(
    names: &mut Vec<String>,
    group_name: &str,
    r: Result<(), String>,
)
    requires
        call_ensures(claim_group_name, (names, group_name), r),
    ensures
        r is Err <==> exists|i: int|
            0 <= i < old(names)@.len() && (#[trigger] old(names)@[i])@ == group_name@,
        r is Err ==> final(names)@ == old(names)@,
        r is Ok ==> final(names)@.len() == old(names)@.len() + 1 && final(names)@[old(
            names)@.len() as int]@ == group_name@ && forall|i: int|
            0 <= i < old(names)@.len() ==> #[trigger] final(names)@[i] == old(names)@[i],
{
    if r is Ok {
        assert(final(names)@.drop_last() == old(names)@);
        assert forall|i: int| 0 <= i < old(names)@.len() implies #[trigger] final(names)@[i]
            == old(names)@[i] by {
            assert(final(names)@.drop_last()[i] == final(names)@[i]);
        }
    } else {
        assert(listed(old(names)@, group_name@));
        let i = choose|i: int|
            0 <= i < old(names)@.len() && (#[trigger] old(names)@[i])@ == group_name@;
        assert(old(names)@[i]@ == group_name@);
    }
}

/// An envelope is what was set last, and nothing else changes with it.
pub proof fn law_envelope_is_what_was_set(
    b: EmitBuilder,
    correlation: u128,
    parent: u128,
    correlated: EmitBuilder,
    caused: EmitBuilder,
)
    requires
        call_ensures(EmitBuilder::correlation_id, (b, correlation), correlated),
        call_ensures(EmitBuilder::parent_id, (correlated, parent), caused),
    ensures
        caused.correlation_id == Some(correlation),
        caused.parent_id == Some(parent),
        correlated.parent_id == b.parent_id,
        caused.input == b.input,
        caused.metadata == b.metadata,
{
}

/// A snapshot is the state held of the aggregate, and there is one exactly
/// where one is held.
pub proof fn law_snapshots_are_what_is_held<B: FoldFns>(
    reg: Option<&AggregatorRegistry<B>>,
    aggregate_type: &str,
    stream_id: u128,
    state: Option<B::State>,
)
    requires
        call_ensures(snapshot::<B>, (reg, aggregate_type, stream_id), state),
    ensures
        reg is None ==> state is None,
        reg matches Some(r) ==> ({
            let key = state_key(aggregate_type@, stream_id);
            &&& state is Some <==> r.table().contains_key(key)
            &&& state matches Some(s) ==> s == r.table()[key].state
        }),
{
}

} // verus!
