//! Emitting facts: which workflow they belong to, what is refused, and in which
//! appends they reach the log.

use vstd::prelude::*;

use crate::clock::{may_read, Clock, FixedClock};
use crate::event::Event;
use crate::event_log::{request_views, AppendRequest, RequestView};
use crate::failure::Error;
use crate::ids::{id_chars, id_fresh, id_text};
use crate::json::{
    copy_members, lemma_json_view, lemma_member_at, member_at, member_views, members_map, ordered,
    set_member, Json, JsonView,
};
use crate::text::{lemma_text_less_total, listed, lists, same, text_less};
use crate::types::{
    event_views, EventData, EventView, LogCursor, Metadata, StreamRevision, StreamState, Timestamp,
    WriteResult,
};

verus! {

/// What an emit reports: where its last event landed, and the workflow that
/// all its events belong to.
#[derive(Clone, Copy, Debug, PartialEq, Eq, Structural)]
pub struct EmitResult {
    pub position: LogCursor,
    pub workflow_id: u128,
}

/// A fact that waits to be emitted.
#[derive(Debug)]
pub struct PendingFact {
    /// The wire kind.
    pub name: String,
    /// The category of the stream it joins.
    pub subject: String,
    pub subject_id: u128,
    pub occurred_at: Option<Timestamp>,
    /// The workflow that the fact roots.
    pub declared_workflow_id: Option<u128>,
    /// Its JSON form, or why it has none.
    pub payload: Result<Json, String>,
}

/// A waiting fact, as mathematics.
pub struct FactView {
    pub name: Seq<char>,
    pub subject: Seq<char>,
    pub subject_id: u128,
    pub occurred_at: Option<Timestamp>,
    pub declared_workflow_id: Option<u128>,
    pub payload: Result<JsonView, Seq<char>>,
}

impl View for PendingFact {
    type V = FactView;

    open spec fn view(&self) -> FactView {
        FactView {
            name: self.name@,
            subject: self.subject@,
            subject_id: self.subject_id,
            occurred_at: self.occurred_at,
            declared_workflow_id: self.declared_workflow_id,
            payload: match self.payload {
                Ok(json) => Ok(json@),
                Err(text) => Err(text@),
            },
        }
    }
}

/// The facts of a list.
pub open spec fn fact_views(facts: Seq<PendingFact>) -> Seq<FactView> {
    Seq::new(facts.len(), |i: int| facts[i]@)
}

/// Whether a waiting fact stands for an event.
pub open spec fn stands_for<F: Event>(fact: FactView, event: F) -> bool {
    &&& fact.name == F::NAME@
    &&& fact.subject == F::SUBJECT@
    &&& fact.subject_id == event.subject_of()
    &&& fact.occurred_at == event.occurred_of()
    &&& fact.declared_workflow_id == event.declared_of()
    &&& match fact.payload {
        Ok(json) => event.encoded() == Some(json),
        Err(_) => event.encoded() is None,
    }
}

/// An event as a waiting fact.
pub fn pending_fact<F: Event>(event: &F) -> (fact: PendingFact)
    ensures
        stands_for(fact@, *event),
        fact.payload matches Err(text) ==> call_ensures(F::encode, (event,), Err(text)),
{
    PendingFact {
        name: F::NAME.to_owned(),
        subject: F::SUBJECT.to_owned(),
        subject_id: event.subject_id(),
        occurred_at: event.occurred_at(),
        declared_workflow_id: event.declared_workflow_id(),
        payload: event.encode(),
    }
}

/// What is to be emitted: one fact, or several.
#[derive(Debug)]
pub struct EmitInput {
    pub facts: Vec<PendingFact>,
}

impl EmitInput {
    /// One fact.
    pub fn one<F: Event>(event: &F) -> (input: EmitInput)
        ensures
            input.facts@.len() == 1,
            stands_for(input.facts@[0]@, *event),
    {
        let mut facts: Vec<PendingFact> = Vec::new();
        facts.push(pending_fact(event));
        EmitInput { facts }
    }

    /// Several facts of one type, in order.
    pub fn many<F: Event>(events: &Vec<F>) -> (input: EmitInput)
        ensures
            input.facts@.len() == events@.len(),
            forall|i: int|
                0 <= i < events@.len() ==> stands_for(
                    (#[trigger] input.facts@[i])@,
                    events@[i],
                ),
    {
        let mut facts: Vec<PendingFact> = Vec::new();
        let mut i: usize = 0;
        while i < events.len()
            invariant
                i <= events@.len(),
                facts@.len() == i,
                forall|j: int|
                    0 <= j < i ==> stands_for((#[trigger] facts@[j])@, events@[j]),
            decreases events@.len() - i,
        {
            facts.push(pending_fact(&events[i]));
            i += 1;
        }
        EmitInput { facts }
    }
}

/// An emit with its envelope.
#[derive(Debug)]
pub struct EmitBuilder {
    pub input: EmitInput,
    pub workflow_id: Option<u128>,
    pub causation_id: Option<u128>,
    pub metadata: Metadata,
}

impl EmitBuilder {
    /// An emit with an empty envelope.
    pub fn new(input: EmitInput) -> (b: EmitBuilder)
        ensures
            b.input == input,
            b.workflow_id is None,
            b.causation_id is None,
            b.metadata@.len() == 0,
            b.wf(),
    {
        EmitBuilder { input, workflow_id: None, causation_id: None, metadata: Vec::new() }
    }

    /// The metadata is in key order.
    pub open spec fn wf(&self) -> bool {
        ordered(member_views(self.metadata@))
    }

    /// Sets the workflow of every fact.
    pub fn workflow_id(self, id: u128) -> (b: EmitBuilder)
        ensures
            b == (EmitBuilder { workflow_id: Some(id), ..self }),
    {
        EmitBuilder {
            input: self.input,
            workflow_id: Some(id),
            causation_id: self.causation_id,
            metadata: self.metadata,
        }
    }

    /// Sets the cause of every fact.
    pub fn causation_id(self, id: u128) -> (b: EmitBuilder)
        ensures
            b == (EmitBuilder { causation_id: Some(id), ..self }),
    {
        EmitBuilder {
            input: self.input,
            workflow_id: self.workflow_id,
            causation_id: Some(id),
            metadata: self.metadata,
        }
    }

    /// Sets a metadata key of every fact. Calls accumulate; a later value of a
    /// key replaces an earlier one.
    pub fn metadata(self, key: &str, value: Json) -> (b: EmitBuilder)
        requires
            self.wf(),
        ensures
            b.wf(),
            b.input == self.input,
            b.workflow_id == self.workflow_id,
            b.causation_id == self.causation_id,
            members_map(member_views(b.metadata@)) == members_map(
                member_views(self.metadata@),
            ).insert(key@, value@),
    {
        let mut metadata = self.metadata;
        set_member(&mut metadata, key, value);
        EmitBuilder {
            input: self.input,
            workflow_id: self.workflow_id,
            causation_id: self.causation_id,
            metadata,
        }
    }
}

/// An emit through a named entry point: its facts carry the name as `_origin`.
pub fn boundary_emit(name: &str, input: EmitInput) -> (b: EmitBuilder)
    ensures
        b.wf(),
        b.input == input,
        b.workflow_id is None,
        b.causation_id is None,
        members_map(member_views(b.metadata@)) == Map::<Seq<char>, JsonView>::empty().insert(
            "_origin"@,
            JsonView::Str(name@),
        ),
{
    let b = EmitBuilder::new(input);
    proof {
        assert(members_map(member_views(b.metadata@)) =~= Map::<Seq<char>, JsonView>::empty());
    }
    let value = Json::Str(name.to_owned());
    proof {
        lemma_json_view(value);
    }
    b.metadata("_origin", value)
}

/// Metadata merged: on a key that both hold, `over` wins.
pub open spec fn merged_map(
    under: Seq<(Seq<char>, JsonView)>,
    over: Seq<(Seq<char>, JsonView)>,
) -> Map<Seq<char>, JsonView> {
    members_map(under).union_prefer_right(members_map(over))
}

proof fn lemma_head_member(members: Seq<(Seq<char>, JsonView)>, n: int)
    requires
        ordered(members),
        0 <= n < members.len(),
    ensures
        members_map(members.take(n + 1)) == members_map(members.take(n)).insert(
            members[n].0,
            members[n].1,
        ),
{
    let a = members.take(n);
    let b = members.take(n + 1);
    assert forall|k: Seq<char>|
        (#[trigger] members_map(b).dom().contains(k) <==> members_map(a).insert(
            members[n].0,
            members[n].1,
        ).dom().contains(k)) && (members_map(b).contains_key(k) ==> members_map(b)[k]
            == members_map(a).insert(members[n].0, members[n].1)[k]) by {
        lemma_member_at(a, k);
        lemma_member_at(b, k);
        if member_at(b, k) is Some {
            let i = member_at(b, k)->0;
            if i < n {
                assert(a[i] == b[i]);
                lemma_text_less_total(members[i].0, members[n].0);
                if member_at(a, k) is Some {
                    let j = member_at(a, k)->0;
                    assert(b[j] == a[j]);
                }
            } else {
                assert(b[i] == members[n]);
            }
        }
        if member_at(a, k) is Some {
            let j = member_at(a, k)->0;
            assert(b[j] == a[j]);
        }
        if k == members[n].0 {
            assert(b[n].0 == k);
        }
    }
    assert(members_map(b) =~= members_map(a).insert(members[n].0, members[n].1));
}

/// Merges metadata: on a key that both hold, `over` wins.
pub fn merge_metadata(under: &Metadata, over: &Metadata) -> (merged: Metadata)
    requires
        ordered(member_views(under@)),
        ordered(member_views(over@)),
    ensures
        ordered(member_views(merged@)),
        members_map(member_views(merged@)) == merged_map(
            member_views(under@),
            member_views(over@),
        ),
{
    let mut merged = copy_members(under);
    let ghost low = member_views(under@);
    let ghost high = member_views(over@);
    let mut i: usize = 0;
    proof {
        assert(high.take(0) =~= Seq::<(Seq<char>, JsonView)>::empty());
        assert(members_map(high.take(0)) =~= Map::<Seq<char>, JsonView>::empty());
        assert(merged_map(low, high.take(0)) =~= members_map(low));
    }
    while i < over.len()
        invariant
            i <= over@.len(),
            high == member_views(over@),
            ordered(high),
            ordered(member_views(merged@)),
            members_map(member_views(merged@)) == merged_map(low, high.take(i as int)),
        decreases over@.len() - i,
    {
        proof {
            lemma_head_member(high, i as int);
            assert(merged_map(low, high.take(i + 1)) =~= merged_map(
                low,
                high.take(i as int),
            ).insert(high[i as int].0, high[i as int].1));
        }
        set_member(&mut merged, over[i].0.as_str(), over[i].1.copy());
        i += 1;
    }
    assert(high.take(i as int) =~= high);
    merged
}

/// The first workflow that a fact declares.
pub open spec fn first_declared(facts: Seq<FactView>) -> Option<u128>
    decreases facts.len(),
{
    if facts.len() == 0 {
        None
    } else {
        match first_declared(facts.drop_last()) {
            Some(id) => Some(id),
            None => facts.last().declared_workflow_id,
        }
    }
}

/// Why an explicit workflow is refused.
pub open spec fn override_text(explicit: u128, declared: u128) -> Seq<char> {
    "emit().workflow_id("@ + id_chars(explicit)
        + ") conflicts with a workflow-ROOT fact in this batch (its type declares its workflow from its own payload field, naming workflow "@
        + id_chars(declared)
        + "). The declaration is the single source of truth — drop the builder override."@
}

/// Why a batch of several workflows is refused.
pub open spec fn mixed_text() -> Seq<char> {
    "emit() batch mixes workflow-ROOT facts with chain members (or roots of different workflows). A batch shares one workflow; emit roots separately."@
}

/// Why a kind that is closed to plain emits is refused.
pub open spec fn occ_text(name: Seq<char>) -> Seq<char> {
    "category '"@ + name
        + "' is OCC-required (registered via with_aggregate); use Engine::append::<A, F>(id, decide) instead of emit()"@
}

/// Whether the facts declare one workflow, all of them.
pub open spec fn one_root(facts: Seq<FactView>, id: u128) -> bool {
    forall|i: int|
        0 <= i < facts.len() ==> (#[trigger] facts[i]).declared_workflow_id == Some(id)
}

/// The workflow of a batch, or why it has none. A fact that declares its
/// workflow decides it: nothing may override it, and the whole batch must
/// declare the same one.
pub open spec fn resolved_workflow(
    facts: Seq<FactView>,
    explicit: Option<u128>,
    fresh: u128,
) -> Result<u128, Seq<char>> {
    match first_declared(facts) {
        Some(declared) => match explicit {
            Some(e) => Err(override_text(e, declared)),
            None => if one_root(facts, declared) {
                Ok(declared)
            } else {
                Err(mixed_text())
            },
        },
        None => match explicit {
            Some(e) => Ok(e),
            None => Ok(fresh),
        },
    }
}

/// The first refusal among the leading `n` facts: a closed kind, or a fact
/// without a JSON form.
pub open spec fn first_refusal(facts: Seq<FactView>, occ: Seq<String>, n: nat) -> Option<Seq<char>>
    decreases n,
{
    if n == 0 {
        None
    } else {
        match first_refusal(facts, occ, (n - 1) as nat) {
            Some(text) => Some(text),
            None => if listed(occ, facts[n - 1].name) {
                Some(occ_text(facts[n - 1].name))
            } else {
                match facts[n - 1].payload {
                    Ok(_) => None,
                    Err(text) => Some(text),
                }
            },
        }
    }
}

/// What an event is stamped with.
#[derive(Clone, Copy, Debug, PartialEq, Eq, Structural)]
pub struct Stamp {
    pub event_id: u128,
    pub now: Timestamp,
}

/// The event of a fact: its wire kind is the fact's name, its time is the
/// fact's own or else the stamp's.
pub open spec fn emitted_event(
    fact: FactView,
    workflow_id: u128,
    causation_id: Option<u128>,
    metadata: Seq<(Seq<char>, JsonView)>,
    stamp: Stamp,
) -> EventView {
    EventView {
        event_id: stamp.event_id,
        causation_id,
        workflow_id,
        event_type: fact.name,
        payload: fact.payload->Ok_0,
        created_at: match fact.occurred_at {
            Some(at) => at,
            None => stamp.now,
        },
        category: Some(fact.subject),
        subject_id: Some(fact.subject_id),
        metadata,
        persistent: true,
    }
}

/// Whether an append writes to a stream.
pub open spec fn to_stream(run: RequestView, subject: Seq<char>, subject_id: u128) -> bool {
    run.category == subject && run.subject_id == subject_id
}

/// The appends of a sequence of events with their streams: each run of
/// consecutive events of one stream is one append without expectation.
pub open spec fn runs_of(facts: Seq<FactView>, events: Seq<EventView>) -> Seq<RequestView>
    decreases facts.len(),
{
    if facts.len() == 0 {
        Seq::empty()
    } else {
        let runs = runs_of(facts.drop_last(), events.drop_last());
        let fact = facts.last();
        if runs.len() > 0 && to_stream(runs.last(), fact.subject, fact.subject_id) {
            runs.update(
                runs.len() - 1,
                RequestView { events: runs.last().events.push(events.last()), ..runs.last() },
            )
        } else {
            runs.push(
                RequestView {
                    category: fact.subject,
                    subject_id: fact.subject_id,
                    expected: StreamState::Any,
                    events: seq![events.last()],
                },
            )
        }
    }
}

/// The events of a batch.
pub open spec fn emitted_events(
    facts: Seq<FactView>,
    workflow_id: u128,
    causation_id: Option<u128>,
    metadata: Seq<(Seq<char>, JsonView)>,
    stamps: Seq<Stamp>,
) -> Seq<EventView> {
    Seq::new(
        facts.len(),
        |i: int| emitted_event(facts[i], workflow_id, causation_id, metadata, stamps[i]),
    )
}

/// The appends that an emit makes, one after the other.
#[derive(Debug)]
pub struct EmitPlan {
    pub workflow_id: u128,
    pub runs: Vec<AppendRequest>,
}

fn override_message(explicit: u128, declared: u128) -> (text: String)
    ensures
        text@ == override_text(explicit, declared),
{
    let mut text = "emit().workflow_id(".to_owned();
    text.append(id_text(explicit).as_str());
    text.append(
        ") conflicts with a workflow-ROOT fact in this batch (its type declares its workflow from its own payload field, naming workflow ",
    );
    text.append(id_text(declared).as_str());
    text.append("). The declaration is the single source of truth — drop the builder override.");
    text
}

fn occ_message(name: &str) -> (text: String)
    ensures
        text@ == occ_text(name@),
{
    let mut text = "category '".to_owned();
    text.append(name);
    text.append(
        "' is OCC-required (registered via with_aggregate); use Engine::append::<A, F>(id, decide) instead of emit()",
    );
    text
}

proof fn lemma_first_declared(facts: Seq<FactView>, i: int, n: int)
    requires
        0 <= i < n <= facts.len(),
        facts[i].declared_workflow_id is Some,
        forall|j: int| 0 <= j < i ==> (#[trigger] facts[j]).declared_workflow_id is None,
    ensures
        first_declared(facts.take(n)) == facts[i].declared_workflow_id,
    decreases n,
{
    assert(facts.take(n).drop_last() =~= facts.take(n - 1));
    if n > i + 1 {
        lemma_first_declared(facts, i, n - 1);
    } else {
        lemma_none_declared(facts.take(i));
    }
}

proof fn lemma_none_declared(facts: Seq<FactView>)
    requires
        forall|j: int| 0 <= j < facts.len() ==> (#[trigger] facts[j]).declared_workflow_id is None,
    ensures
        first_declared(facts) is None,
    decreases facts.len(),
{
    if facts.len() > 0 {
        let rest = facts.drop_last();
        assert forall|j: int| 0 <= j < rest.len() implies (#[trigger] rest[j]).declared_workflow_id
            is None by {
            assert(rest[j] == facts[j]);
        }
        lemma_none_declared(rest);
        assert(facts[facts.len() - 1].declared_workflow_id is None);
    }
}

/// Resolves the workflow of a batch.
fn resolve_workflow(facts: &Vec<PendingFact>, explicit: Option<u128>, fresh: u128) -> (r: Result<
    u128,
    Error,
>)
    ensures
        match r {
            Ok(id) => resolved_workflow(fact_views(facts@), explicit, fresh) == Ok::<
                u128,
                Seq<char>,
            >(id),
            Err(e) => e matches Error::Message(m) && resolved_workflow(
                fact_views(facts@),
                explicit,
                fresh,
            ) == Err::<u128, Seq<char>>(m@),
        },
{
    let ghost views = fact_views(facts@);
    let mut i: usize = 0;
    while i < facts.len() && facts[i].declared_workflow_id.is_none()
        invariant
            i <= facts@.len(),
            views == fact_views(facts@),
            forall|j: int| 0 <= j < i ==> (#[trigger] views[j]).declared_workflow_id is None,
        decreases facts@.len() - i,
    {
        assert(views[i as int] == facts@[i as int]@);
        i += 1;
    }
    if i == facts.len() {
        proof {
            lemma_none_declared(views);
        }
        return match explicit {
            Some(e) => Ok(e),
            None => Ok(fresh),
        };
    }
    assert(views[i as int] == facts@[i as int]@);
    let declared: u128 = match facts[i].declared_workflow_id {
        Some(id) => id,
        None => 0,
    };
    proof {
        lemma_first_declared(views, i as int, views.len() as int);
        assert(views.take(views.len() as int) =~= views);
    }
    if let Some(e) = explicit {
        return Err(Error::Message(override_message(e, declared)));
    }
    let mut j: usize = 0;
    while j < facts.len()
        invariant
            j <= facts@.len(),
            views == fact_views(facts@),
            explicit is None,
            first_declared(views) == Some(declared),
            forall|k: int|
                0 <= k < j ==> (#[trigger] views[k]).declared_workflow_id == Some(declared),
        decreases facts@.len() - j,
    {
        assert(views[j as int] == facts@[j as int]@);
        let own = match facts[j].declared_workflow_id {
            Some(id) => id == declared,
            None => false,
        };
        if !own {
            return Err(
                Error::msg(
                    "emit() batch mixes workflow-ROOT facts with chain members (or roots of different workflows). A batch shares one workflow; emit roots separately.",
                ),
            );
        }
        j += 1;
    }
    Ok(declared)
}

/// Adds an event to a list of runs.
fn add_to_runs(runs: &mut Vec<AppendRequest>, subject: &str, subject_id: u128, event: EventData)
    ensures
        request_views(final(runs)@) == ({
            let before = request_views(old(runs)@);
            if before.len() > 0 && to_stream(before.last(), subject@, subject_id) {
                before.update(
                    before.len() - 1,
                    RequestView { events: before.last().events.push(event@), ..before.last() },
                )
            } else {
                before.push(
                    RequestView {
                        category: subject@,
                        subject_id,
                        expected: StreamState::Any,
                        events: seq![event@],
                    },
                )
            }
        }),
{
    let ghost before = request_views(runs@);
    let n = runs.len();
    let joins = n > 0 && runs[n - 1].subject_id == subject_id && same(
        runs[n - 1].category.as_str(),
        subject,
    );
    if joins {
        let mut last = match runs.pop() {
            Some(last) => last,
            None => {
                return;
            },
        };
        let ghost was = last;
        last.events.push(event);
        proof {
            assert(event_views(last.events@) =~= event_views(was.events@).push(event@));
        }
        runs.push(last);
        proof {
            assert(request_views(runs@) =~= before.update(before.len() - 1, last@));
        }
    } else {
        let mut events: Vec<EventData> = Vec::new();
        events.push(event);
        proof {
            assert(event_views(events@) =~= seq![event@]);
        }
        let run = AppendRequest {
            category: subject.to_owned(),
            subject_id,
            expected: StreamState::Any,
            events,
        };
        let ghost added = run@;
        runs.push(run);
        proof {
            assert(request_views(runs@) =~= before.push(added));
        }
    }
}

proof fn lemma_refusal_sticks(facts: Seq<FactView>, occ: Seq<String>, n: nat, m: nat)
    requires
        n <= m,
        first_refusal(facts, occ, n) is Some,
    ensures
        first_refusal(facts, occ, m) == first_refusal(facts, occ, n),
    decreases m,
{
    if n < m {
        lemma_refusal_sticks(facts, occ, n, (m - 1) as nat);
    }
}

/// Why a batch is refused, if it is.
pub open spec fn refusal(
    facts: Seq<FactView>,
    explicit: Option<u128>,
    fresh: u128,
    occ: Seq<String>,
) -> Option<Seq<char>> {
    match resolved_workflow(facts, explicit, fresh) {
        Err(text) => Some(text),
        Ok(_) => first_refusal(facts, occ, facts.len()),
    }
}

/// Plans the appends of an emit. The whole batch is checked before anything is
/// written: it fails exactly where the workflow cannot be resolved, or a fact
/// is of a closed kind or has no JSON form, and then with the first such
/// reason.
pub fn plan_emit(
    facts: &Vec<PendingFact>,
    explicit: Option<u128>,
    causation_id: Option<u128>,
    metadata: &Metadata,
    occ_categories: &Vec<String>,
    fresh_workflow: u128,
    stamps: &Vec<Stamp>,
) -> (r: Result<EmitPlan, Error>)
    requires
        stamps@.len() == facts@.len(),
    ensures
        match refusal(fact_views(facts@), explicit, fresh_workflow, occ_categories@) {
            Some(text) => r matches Err(Error::Message(m)) && m@ == text,
            None => r matches Ok(plan) && resolved_workflow(
                fact_views(facts@),
                explicit,
                fresh_workflow,
            ) == Ok::<u128, Seq<char>>(plan.workflow_id) && request_views(plan.runs@) == runs_of(
                fact_views(facts@),
                emitted_events(
                    fact_views(facts@),
                    plan.workflow_id,
                    causation_id,
                    member_views(metadata@),
                    stamps@,
                ),
            ),
        },
{
    let ghost views = fact_views(facts@);
    let workflow_id = match resolve_workflow(facts, explicit, fresh_workflow) {
        Ok(id) => id,
        Err(e) => {
            return Err(e);
        },
    };
    let ghost events = emitted_events(
        views,
        workflow_id,
        causation_id,
        member_views(metadata@),
        stamps@,
    );
    let mut runs: Vec<AppendRequest> = Vec::new();
    let mut i: usize = 0;
    proof {
        assert(views.take(0) =~= Seq::<FactView>::empty());
        assert(request_views(runs@) =~= Seq::<RequestView>::empty());
    }
    while i < facts.len()
        invariant
            i <= facts@.len(),
            stamps@.len() == facts@.len(),
            views == fact_views(facts@),
            resolved_workflow(views, explicit, fresh_workflow) == Ok::<u128, Seq<char>>(
                workflow_id,
            ),
            events == emitted_events(
                views,
                workflow_id,
                causation_id,
                member_views(metadata@),
                stamps@,
            ),
            first_refusal(views, occ_categories@, i as nat) is None,
            request_views(runs@) == runs_of(views.take(i as int), events.take(i as int)),
        decreases facts@.len() - i,
    {
        let fact = &facts[i];
        assert(views[i as int] == fact@);
        if lists(occ_categories, fact.name.as_str()) {
            proof {
                lemma_refusal_sticks(views, occ_categories@, (i + 1) as nat, views.len());
            }
            return Err(Error::Message(occ_message(fact.name.as_str())));
        }
        let payload = match &fact.payload {
            Ok(json) => json.copy(),
            Err(text) => {
                proof {
                    lemma_refusal_sticks(views, occ_categories@, (i + 1) as nat, views.len());
                }
                return Err(Error::Message(text.clone()));
            },
        };
        let created_at = match fact.occurred_at {
            Some(at) => at,
            None => stamps[i].now,
        };
        let event = EventData {
            event_id: stamps[i].event_id,
            causation_id,
            workflow_id,
            event_type: fact.name.clone(),
            payload,
            created_at,
            category: Some(fact.subject.clone()),
            subject_id: Some(fact.subject_id),
            metadata: copy_members(metadata),
            persistent: true,
        };
        proof {
            assert(event@ == events[i as int]);
            assert(views.take(i + 1).drop_last() =~= views.take(i as int));
            assert(events.take(i + 1).drop_last() =~= events.take(i as int));
        }
        add_to_runs(&mut runs, fact.subject.as_str(), fact.subject_id, event);
        i += 1;
    }
    proof {
        assert(views.take(i as int) =~= views);
        assert(events.take(i as int) =~= events);
    }
    Ok(EmitPlan { workflow_id, runs })
}

/// What an emit comes to before it touches the log.
#[derive(Debug)]
pub enum EmitStart {
    /// Nothing is to be written: the result is the log's latest position and
    /// this workflow.
    Nothing { workflow_id: u128 },
    Append(EmitPlan),
}

/// Whether `start` is what an emit comes to, for some fresh ids and some
/// readings of the clock.
pub open spec fn starts_as(
    start: Result<EmitStart, Error>,
    facts: Seq<FactView>,
    explicit: Option<u128>,
    causation_id: Option<u128>,
    metadata: Seq<(Seq<char>, JsonView)>,
    occ: Seq<String>,
    fresh: u128,
    stamps: Seq<Stamp>,
) -> bool {
    if facts.len() == 0 {
        start matches Ok(EmitStart::Nothing { workflow_id }) && workflow_id == (match explicit {
            Some(e) => e,
            None => fresh,
        })
    } else {
        match refusal(facts, explicit, fresh, occ) {
            Some(text) => start matches Err(Error::Message(m)) && m@ == text,
            None => start matches Ok(EmitStart::Append(plan)) && resolved_workflow(
                facts,
                explicit,
                fresh,
            ) == Ok::<u128, Seq<char>>(plan.workflow_id) && request_views(plan.runs@) == runs_of(
                facts,
                emitted_events(facts, plan.workflow_id, causation_id, metadata, stamps),
            ),
        }
    }
}

/// Whether every stamp holds a time that the clock may read.
pub open spec fn stamped_by<K: Clock>(clock: K, stamps: Seq<Stamp>) -> bool {
    forall|i: int| 0 <= i < stamps.len() ==> may_read(clock, (#[trigger] stamps[i]).now)
}

/// Whether no stamp holds the nil id.
pub open spec fn named_events(stamps: Seq<Stamp>) -> bool {
    forall|i: int| 0 <= i < stamps.len() ==> (#[trigger] stamps[i]).event_id != 0
}

/// Begins an emit: fresh ids for the events and, where none is given or
/// declared, for the workflow; the clock where a fact names no time; and the
/// engine's metadata under the emit's own.
pub fn execute_emit<K: Clock>(
    b: &EmitBuilder,
    default_metadata: &Metadata,
    occ_categories: &Vec<String>,
    clock: &K,
) -> (start: Result<EmitStart, Error>)
    requires
        b.wf(),
        ordered(member_views(default_metadata@)),
    ensures
        exists|metadata: Seq<(Seq<char>, JsonView)>, fresh: u128, stamps: Seq<Stamp>|
            {
                &&& ordered(metadata)
                &&& members_map(metadata) == merged_map(
                    member_views(default_metadata@),
                    member_views(b.metadata@),
                )
                &&& stamps.len() == b.input.facts@.len()
                &&& fresh != 0
                &&& named_events(stamps)
                &&& stamped_by(*clock, stamps)
                &&& #[trigger] starts_as(
                    start,
                    fact_views(b.input.facts@),
                    b.workflow_id,
                    b.causation_id,
                    metadata,
                    occ_categories@,
                    fresh,
                    stamps,
                )
            },
{
    let metadata = merge_metadata(default_metadata, &b.metadata);
    let fresh = id_fresh();
    let mut stamps: Vec<Stamp> = Vec::new();
    let mut i: usize = 0;
    while i < b.input.facts.len()
        invariant
            i <= b.input.facts@.len(),
            stamps@.len() == i,
            named_events(stamps@),
            stamped_by(*clock, stamps@),
        decreases b.input.facts@.len() - i,
    {
        stamps.push(Stamp { event_id: id_fresh(), now: clock.now() });
        i += 1;
    }
    let start = if b.input.facts.len() == 0 {
        let workflow_id: u128 = match b.workflow_id {
            Some(id) => id,
            None => fresh,
        };
        Ok(EmitStart::Nothing { workflow_id })
    } else {
        match plan_emit(
            &b.input.facts,
            b.workflow_id,
            b.causation_id,
            &metadata,
            occ_categories,
            fresh,
            &stamps,
        ) {
            Ok(plan) => Ok(EmitStart::Append(plan)),
            Err(e) => Err(e),
        }
    };
    assert(starts_as(
        start,
        fact_views(b.input.facts@),
        b.workflow_id,
        b.causation_id,
        member_views(metadata@),
        occ_categories@,
        fresh,
        stamps@,
    ));
    start
}

/// Where event `k` of an append of `n` events landed, given where the last one
/// did: the revisions are consecutive, and the position is the append's.
pub fn coordinates_of(result: WriteResult, n: u64, k: u64) -> (at: WriteResult)
    requires
        k < n,
        n - 1 <= result.revision.0,
    ensures
        at.position == result.position,
        at.revision.0 == result.revision.0 - (n - 1 - k),
{
    WriteResult {
        position: result.position,
        revision: StreamRevision::from_raw(result.revision.raw() - (n - 1 - k)),
    }
}

/// What an emit reports once its appends are written.
pub fn emit_result(workflow_id: u128, results: &Vec<WriteResult>) -> (r: EmitResult)
    ensures
        r.workflow_id == workflow_id,
        r.position == (if results@.len() == 0 {
            LogCursor(0)
        } else {
            results@.last().position
        }),
{
    let position = if results.len() == 0 {
        LogCursor::zero()
    } else {
        results[results.len() - 1].position
    };
    EmitResult { position, workflow_id }
}

/// The events of a list of appends, one append after the other.
pub open spec fn all_events(runs: Seq<RequestView>) -> Seq<EventView>
    decreases runs.len(),
{
    if runs.len() == 0 {
        Seq::empty()
    } else {
        all_events(runs.drop_last()) + runs.last().events
    }
}

/// No fact is lost, duplicated or reordered: the appends of a batch hold its
/// events in order; each append holds at least one; and neighbouring appends
/// write to different streams, so consecutive facts of one stream land
/// together or not at all.
pub proof fn law_runs_keep_the_batch(facts: Seq<FactView>, events: Seq<EventView>)
    requires
        events.len() == facts.len(),
    ensures
        all_events(runs_of(facts, events)) == events,
        forall|i: int|
            0 <= i < runs_of(facts, events).len() ==> (#[trigger] runs_of(
                facts,
                events,
            )[i]).events.len() > 0 && runs_of(facts, events)[i].expected == StreamState::Any,
        forall|i: int, j: int|
            0 <= i && j == i + 1 && j < runs_of(facts, events).len() ==> !to_stream(
                #[trigger] runs_of(facts, events)[i],
                (#[trigger] runs_of(facts, events)[j]).category,
                runs_of(facts, events)[j].subject_id,
            ),
        facts.len() > 0 ==> runs_of(facts, events).len() > 0 && to_stream(
            runs_of(facts, events).last(),
            facts.last().subject,
            facts.last().subject_id,
        ),
    decreases facts.len(),
{
    let runs = runs_of(facts, events);
    if facts.len() == 0 {
        assert(all_events(runs) =~= events);
    } else {
        let rest = runs_of(facts.drop_last(), events.drop_last());
        law_runs_keep_the_batch(facts.drop_last(), events.drop_last());
        let fact = facts.last();
        let e = events.last();
        assert(events =~= events.drop_last().push(e));
        if rest.len() > 0 && to_stream(rest.last(), fact.subject, fact.subject_id) {
            assert(runs.drop_last() =~= rest.drop_last());
            assert(all_events(runs) =~= all_events(rest).push(e));
            assert forall|i: int| 0 <= i < runs.len() implies (#[trigger] runs[i]).events.len() > 0
                && runs[i].expected == StreamState::Any by {
                let r = rest[i];
            }
            assert forall|i: int, j: int|
                0 <= i && j == i + 1 && j < runs.len() implies !to_stream(
                #[trigger] runs[i],
                (#[trigger] runs[j]).category,
                runs[j].subject_id,
            ) by {
                assert(!to_stream(rest[i], rest[j].category, rest[j].subject_id));
            }
        } else {
            assert(runs.drop_last() =~= rest);
            assert(all_events(runs) =~= all_events(rest).push(e));
            assert forall|i: int| 0 <= i < runs.len() implies (#[trigger] runs[i]).events.len() > 0
                && runs[i].expected == StreamState::Any by {
                if i < rest.len() {
                    let r = rest[i];
                }
            }
            assert forall|i: int, j: int|
                0 <= i && j == i + 1 && j < runs.len() implies !to_stream(
                #[trigger] runs[i],
                (#[trigger] runs[j]).category,
                runs[j].subject_id,
            ) by {
                if j < rest.len() {
                    assert(!to_stream(rest[i], rest[j].category, rest[j].subject_id));
                }
            }
        }
    }
}

/// All facts of an emit belong to one workflow: every event of every append
/// carries it, and a declared workflow is never overridden.
pub proof fn law_one_workflow_per_emit(
    facts: Seq<FactView>,
    explicit: Option<u128>,
    fresh: u128,
    causation_id: Option<u128>,
    metadata: Seq<(Seq<char>, JsonView)>,
    stamps: Seq<Stamp>,
)
    requires
        resolved_workflow(facts, explicit, fresh) is Ok,
    ensures
        ({
            let id = resolved_workflow(facts, explicit, fresh)->Ok_0;
            let events = emitted_events(facts, id, causation_id, metadata, stamps);
            &&& forall|i: int|
                0 <= i < events.len() ==> (#[trigger] events[i]).workflow_id == id
                    && events[i].causation_id == causation_id && events[i].metadata == metadata
            &&& forall|i: int|
                0 <= i < facts.len() ==> ((#[trigger] facts[i]).declared_workflow_id matches Some(d)
                    ==> d == id && explicit is None)
            &&& (explicit matches Some(e) ==> e == id)
        }),
{
    assert forall|i: int|
        0 <= i < facts.len() && (#[trigger] facts[i]).declared_workflow_id is Some implies
        first_declared(facts) is Some by {
        lemma_some_declared(facts, i);
    }
}

proof fn lemma_some_declared(facts: Seq<FactView>, i: int)
    requires
        0 <= i < facts.len(),
        facts[i].declared_workflow_id is Some,
    ensures
        first_declared(facts) is Some,
    decreases facts.len(),
{
    if i < facts.len() - 1 {
        assert(facts.drop_last()[i] == facts[i]);
        lemma_some_declared(facts.drop_last(), i);
    }
}

/// A pinned clock makes envelopes reproducible: two emits of the same facts
/// stamp the same creation times, and a fact without a time of its own gets
/// the pinned one.
pub proof fn law_pinned_clock_pins_creation(
    clock: FixedClock,
    facts: Seq<FactView>,
    workflow_id: u128,
    causation_id: Option<u128>,
    metadata: Seq<(Seq<char>, JsonView)>,
    first: Seq<Stamp>,
    second: Seq<Stamp>,
)
    requires
        first.len() == facts.len(),
        second.len() == facts.len(),
        stamped_by(clock, first),
        stamped_by(clock, second),
    ensures
        forall|i: int|
            0 <= i < facts.len() ==> {
                let a = #[trigger] emitted_events(
                    facts,
                    workflow_id,
                    causation_id,
                    metadata,
                    first,
                )[i];
                let b = emitted_events(facts, workflow_id, causation_id, metadata, second)[i];
                &&& a.created_at == b.created_at
                &&& facts[i].occurred_at is None ==> a.created_at == clock.0
            },
{
    assert forall|i: int| 0 <= i < facts.len() implies first[i].now == clock.0 && second[i].now
        == clock.0 by {
        assert(may_read(clock, first[i].now));
        assert(may_read(clock, second[i].now));
    }
}

/// The events of a list of appends in the order in which they are written.
pub open spec fn written(runs: Seq<AppendRequest>) -> Seq<EventData>
    decreases runs.len(),
{
    if runs.len() == 0 {
        Seq::empty()
    } else {
        written(runs.drop_last()) + runs.last().events@
    }
}

proof fn lemma_written(runs: Seq<AppendRequest>)
    ensures
        event_views(written(runs)) == all_events(request_views(runs)),
    decreases runs.len(),
{
    if runs.len() == 0 {
        assert(event_views(written(runs)) =~= all_events(request_views(runs)));
    } else {
        lemma_written(runs.drop_last());
        assert(request_views(runs).drop_last() =~= request_views(runs.drop_last()));
        assert(event_views(written(runs)) =~= event_views(written(runs.drop_last()))
            + event_views(runs.last().events@));
    }
}

/// An append holds only events of its own stream.
proof fn lemma_runs_hold_their_stream(facts: Seq<FactView>, events: Seq<EventView>)
    requires
        events.len() == facts.len(),
        forall|i: int|
            0 <= i < events.len() ==> (#[trigger] events[i]).category == Some(facts[i].subject)
                && events[i].subject_id == Some(facts[i].subject_id),
    ensures
        forall|r: int, k: int|
            #![trigger runs_of(facts, events)[r].events[k]]
            0 <= r < runs_of(facts, events).len() && 0 <= k < runs_of(
                facts,
                events,
            )[r].events.len() ==> {
                let run = runs_of(facts, events)[r];
                run.events[k].category == Some(run.category) && run.events[k].subject_id == Some(
                    run.subject_id,
                )
            },
    decreases facts.len(),
{
    if facts.len() > 0 {
        let less = facts.drop_last();
        let fewer = events.drop_last();
        assert forall|i: int| 0 <= i < fewer.len() implies (#[trigger] fewer[i]).category == Some(
            less[i].subject,
        ) && fewer[i].subject_id == Some(less[i].subject_id) by {
            assert(fewer[i] == events[i]);
        }
        lemma_runs_hold_their_stream(less, fewer);
        let rest = runs_of(less, fewer);
        let runs = runs_of(facts, events);
        let last = events[events.len() - 1];
        assert forall|r: int, k: int|
            #![trigger runs[r].events[k]]
            0 <= r < runs.len() && 0 <= k < runs[r].events.len() implies {
            let run = runs[r];
            run.events[k].category == Some(run.category) && run.events[k].subject_id == Some(
                run.subject_id,
            )
        } by {
            if r < rest.len() && k < rest[r].events.len() {
                assert(runs[r].events[k] == rest[r].events[k]);
            } else {
                assert(runs[r].events[k] == last);
            }
        }
    }
}

/// What the appends of a batch hold.
pub proof fn lemma_plan_fields(
    runs: Seq<AppendRequest>,
    facts: Seq<PendingFact>,
    workflow_id: u128,
    causation_id: Option<u128>,
    metadata: Seq<(Seq<char>, JsonView)>,
    stamps: Seq<Stamp>,
)
    requires
        request_views(runs) == runs_of(
            fact_views(facts),
            emitted_events(fact_views(facts), workflow_id, causation_id, metadata, stamps),
        ),
        stamps.len() == facts.len(),
        forall|i: int| 0 <= i < facts.len() ==> (#[trigger] facts[i]).payload is Ok,
    ensures
        written(runs).len() == facts.len(),
        forall|i: int|
            0 <= i < facts.len() ==> {
                let event = #[trigger] written(runs)[i];
                &&& event.event_id == stamps[i].event_id
                &&& event.workflow_id == workflow_id
                &&& event.causation_id == causation_id
                &&& event.event_type@ == facts[i].name@
                &&& facts[i].payload matches Ok(json) && event.payload@ == json@
                &&& event.created_at == (match facts[i].occurred_at {
                    Some(at) => at,
                    None => stamps[i].now,
                })
                &&& event.category matches Some(c) && c@ == facts[i].subject@
                &&& event.subject_id == Some(facts[i].subject_id)
                &&& event.persistent
                &&& member_views(event.metadata@) == metadata
            },
        forall|r: int|
            0 <= r < runs.len() ==> (#[trigger] runs[r]).expected is Any && runs[r].events@.len()
                > 0,
        forall|r: int, k: int|
            #![trigger runs[r].events@[k]]
            0 <= r < runs.len() && 0 <= k < runs[r].events@.len() ==> {
                let event = runs[r].events@[k];
                (event.category matches Some(c) && c@ == runs[r].category@) && event.subject_id
                    == Some(runs[r].subject_id)
            },
        forall|r: int, q: int|
            0 <= r && q == r + 1 && q < runs.len() ==> (#[trigger] runs[r]).category@ != (
            #[trigger] runs[q]).category@ || runs[r].subject_id != runs[q].subject_id,
{
    let views = fact_views(facts);
    let events = emitted_events(views, workflow_id, causation_id, metadata, stamps);
    let appends = request_views(runs);
    law_runs_keep_the_batch(views, events);
    lemma_runs_hold_their_stream(views, events);
    lemma_written(runs);
    assert(event_views(written(runs)).len() == written(runs).len());
    assert(appends.len() == runs.len());
    assert forall|i: int| 0 <= i < facts.len() implies {
        let event = #[trigger] written(runs)[i];
        &&& event.event_id == stamps[i].event_id
        &&& event.workflow_id == workflow_id
        &&& event.causation_id == causation_id
        &&& event.event_type@ == facts[i].name@
        &&& facts[i].payload matches Ok(json) && event.payload@ == json@
        &&& event.created_at == (match facts[i].occurred_at {
            Some(at) => at,
            None => stamps[i].now,
        })
        &&& event.category matches Some(c) && c@ == facts[i].subject@
        &&& event.subject_id == Some(facts[i].subject_id)
        &&& event.persistent
        &&& member_views(event.metadata@) == metadata
    } by {
        assert(event_views(written(runs))[i] == written(runs)[i]@);
        assert(events[i] == written(runs)[i]@);
        assert(views[i] == facts[i]@);
    }
    assert forall|r: int| 0 <= r < runs.len() implies (#[trigger] runs[r]).expected is Any
        && runs[r].events@.len() > 0 by {
        assert(appends[r] == runs[r]@);
        assert(event_views(runs[r].events@).len() == runs[r].events@.len());
    }
    assert forall|r: int, k: int|
        #![trigger runs[r].events@[k]]
        0 <= r < runs.len() && 0 <= k < runs[r].events@.len() implies {
        let event = runs[r].events@[k];
        (event.category matches Some(c) && c@ == runs[r].category@) && event.subject_id == Some(
            runs[r].subject_id,
        )
    } by {
        assert(appends[r] == runs[r]@);
        assert(appends[r].events[k] == runs[r].events@[k]@);
    }
    assert forall|r: int, q: int| 0 <= r && q == r + 1 && q < runs.len() implies (
    #[trigger] runs[r]).category@ != (#[trigger] runs[q]).category@ || runs[r].subject_id
        != runs[q].subject_id by {
        assert(appends[r] == runs[r]@);
        assert(appends[q] == runs[q]@);
        assert(!to_stream(appends[r], appends[q].category, appends[q].subject_id));
    }
}

/// What a plan writes: an event for each fact, in order, each of the fact's
/// kind, in its stream, with its JSON form and at its own time or else the
/// stamp's; all of one workflow and one cause, with the same metadata, and to
/// be kept. Each append holds events of one stream alone, without expectation,
/// and is as long as the facts of that stream stand side by side.
pub proof fn law_plan_writes_the_facts(
    facts: &Vec<PendingFact>,
    explicit: Option<u128>,
    causation_id: Option<u128>,
    metadata: &Metadata,
    occ_categories: &Vec<String>,
    fresh_workflow: u128,
    stamps: &Vec<Stamp>,
    plan: EmitPlan,
)
    requires
        stamps@.len() == facts@.len(),
        call_ensures(
            plan_emit,
            (
                facts,
                explicit,
                causation_id,
                metadata,
                occ_categories,
                fresh_workflow,
                stamps,
            ),
            Ok(plan),
        ),
    ensures
        written(plan.runs@).len() == facts@.len(),
        forall|i: int|
            0 <= i < facts@.len() ==> {
                let event = #[trigger] written(plan.runs@)[i];
                let fact = facts@[i];
                &&& event.event_id == stamps@[i].event_id
                &&& event.workflow_id == plan.workflow_id
                &&& event.causation_id == causation_id
                &&& event.event_type@ == fact.name@
                &&& fact.payload matches Ok(json) && event.payload@ == json@
                &&& event.created_at == (match fact.occurred_at {
                    Some(at) => at,
                    None => stamps@[i].now,
                })
                &&& event.category matches Some(c) && c@ == fact.subject@
                &&& event.subject_id == Some(fact.subject_id)
                &&& event.persistent
                &&& member_views(event.metadata@) == member_views(metadata@)
            },
        forall|r: int|
            0 <= r < plan.runs@.len() ==> (#[trigger] plan.runs@[r]).expected is Any
                && plan.runs@[r].events@.len() > 0,
        forall|r: int, k: int|
            #![trigger plan.runs@[r].events@[k]]
            0 <= r < plan.runs@.len() && 0 <= k < plan.runs@[r].events@.len() ==> {
                let event = plan.runs@[r].events@[k];
                (event.category matches Some(c) && c@ == plan.runs@[r].category@)
                    && event.subject_id == Some(plan.runs@[r].subject_id)
            },
        forall|r: int, q: int|
            0 <= r && q == r + 1 && q < plan.runs@.len() ==> (#[trigger] plan.runs@[r]).category@
                != (#[trigger] plan.runs@[q]).category@ || plan.runs@[r].subject_id
                != plan.runs@[q].subject_id,
{
    lemma_no_refusal(fact_views(facts@), occ_categories@, facts@.len());
    assert forall|i: int| 0 <= i < facts@.len() implies (#[trigger] facts@[i]).payload is Ok by {
        assert(fact_views(facts@)[i].payload is Ok);
    }
    lemma_plan_fields(
        plan.runs@,
        facts@,
        plan.workflow_id,
        causation_id,
        member_views(metadata@),
        stamps@,
    );
}

/// Nothing among the leading `n` facts is refused exactly where none is of a
/// closed kind and each has a JSON form.
pub proof fn lemma_no_refusal(facts: Seq<FactView>, occ: Seq<String>, n: nat)
    requires
        n <= facts.len(),
    ensures
        first_refusal(facts, occ, n) is None <==> forall|i: int|
            0 <= i < n ==> !listed(occ, (#[trigger] facts[i]).name) && facts[i].payload is Ok,
    decreases n,
{
    if n > 0 {
        lemma_no_refusal(facts, occ, (n - 1) as nat);
        let last = facts[n - 1];
        if first_refusal(facts, occ, n) is None {
            assert forall|i: int| 0 <= i < n implies !listed(occ, (#[trigger] facts[i]).name)
                && facts[i].payload is Ok by {}
        }
    }
}

/// The workflow of a plan is the one that its facts declare, all of them and
/// against no other; where none declares one it is the one asked for, and else
/// a fresh one.
pub proof fn law_plan_is_one_workflow(
    facts: &Vec<PendingFact>,
    explicit: Option<u128>,
    causation_id: Option<u128>,
    metadata: &Metadata,
    occ_categories: &Vec<String>,
    fresh_workflow: u128,
    stamps: &Vec<Stamp>,
    plan: EmitPlan,
)
    requires
        call_ensures(
            plan_emit,
            (
                facts,
                explicit,
                causation_id,
                metadata,
                occ_categories,
                fresh_workflow,
                stamps,
            ),
            Ok(plan),
        ),
    ensures
        forall|i: int|
            0 <= i < facts@.len() ==> ((#[trigger] facts@[i]).declared_workflow_id matches Some(d)
                ==> d == plan.workflow_id && explicit is None),
        (exists|i: int|
            0 <= i < facts@.len() && (#[trigger] facts@[i]).declared_workflow_id is Some)
            ==> forall|i: int|
            0 <= i < facts@.len() ==> (#[trigger] facts@[i]).declared_workflow_id == Some(
                plan.workflow_id,
            ),
        (forall|i: int|
            0 <= i < facts@.len() ==> (#[trigger] facts@[i]).declared_workflow_id is None)
            ==> plan.workflow_id == (match explicit {
            Some(e) => e,
            None => fresh_workflow,
        }),
{
    let views = fact_views(facts@);
    lemma_declared(facts@);
    assert forall|i: int| 0 <= i < facts@.len() implies (
    #[trigger] facts@[i]).declared_workflow_id == views[i].declared_workflow_id by {
        assert(views[i] == facts@[i]@);
    }
}

proof fn lemma_declared(facts: Seq<PendingFact>)
    ensures
        first_declared(fact_views(facts)) is Some <==> exists|i: int|
            0 <= i < facts.len() && (#[trigger] facts[i]).declared_workflow_id is Some,
        first_declared(fact_views(facts)) matches Some(d) ==> exists|i: int|
            {
                &&& 0 <= i < facts.len()
                &&& (#[trigger] facts[i]).declared_workflow_id == Some(d)
                &&& forall|j: int| 0 <= j < i ==> (#[trigger] facts[j]).declared_workflow_id is None
            },
    decreases facts.len(),
{
    let views = fact_views(facts);
    if facts.len() > 0 {
        let rest = facts.drop_last();
        lemma_declared(rest);
        assert(views.drop_last() =~= fact_views(rest));
        assert(views.last() == facts.last()@);
        if first_declared(fact_views(rest)) is Some {
            let d = first_declared(fact_views(rest))->0;
            let i = choose|i: int|
                {
                    &&& 0 <= i < rest.len()
                    &&& (#[trigger] rest[i]).declared_workflow_id == Some(d)
                    &&& forall|j: int|
                        0 <= j < i ==> (#[trigger] rest[j]).declared_workflow_id is None
                };
            assert(facts[i] == rest[i]);
            assert forall|j: int| 0 <= j < i implies (
            #[trigger] facts[j]).declared_workflow_id is None by {
                assert(rest[j] == facts[j]);
            }
        } else {
            assert forall|j: int| 0 <= j < rest.len() implies (
            #[trigger] facts[j]).declared_workflow_id is None by {
                assert(rest[j] == facts[j]);
            }
            let n = facts.len() - 1;
            if exists|i: int|
                0 <= i < facts.len() && (#[trigger] facts[i]).declared_workflow_id is Some {
                assert(facts[n].declared_workflow_id is Some);
            }
            if first_declared(views) is Some {
                assert(facts[n].declared_workflow_id == first_declared(views));
            }
        }
    }
}

/// A batch is refused, and as a whole, exactly where it cannot be one workflow
/// (one is asked for although a fact declares its own, or the facts do not all
/// declare the same), a fact is of a kind closed to plain emits, or a fact has
/// no JSON form.
pub proof fn law_bad_batches_are_refused(
    facts: &Vec<PendingFact>,
    explicit: Option<u128>,
    causation_id: Option<u128>,
    metadata: &Metadata,
    occ_categories: &Vec<String>,
    fresh_workflow: u128,
    stamps: &Vec<Stamp>,
    r: Result<EmitPlan, Error>,
)
    requires
        call_ensures(
            plan_emit,
            (
                facts,
                explicit,
                causation_id,
                metadata,
                occ_categories,
                fresh_workflow,
                stamps,
            ),
            r,
        ),
    ensures
        r is Err <==> {
            ||| explicit is Some && exists|i: int|
                0 <= i < facts@.len() && (#[trigger] facts@[i]).declared_workflow_id is Some
            ||| exists|i: int, j: int|
                0 <= i < facts@.len() && 0 <= j < facts@.len() && (
                #[trigger] facts@[i]).declared_workflow_id is Some && (
                #[trigger] facts@[j]).declared_workflow_id != facts@[i].declared_workflow_id
            ||| exists|i: int, k: int|
                0 <= i < facts@.len() && 0 <= k < occ_categories@.len() && (
                #[trigger] facts@[i]).name@ == (#[trigger] occ_categories@[k])@
            ||| exists|i: int| 0 <= i < facts@.len() && (#[trigger] facts@[i]).payload is Err
        },
{
    let views = fact_views(facts@);
    lemma_declared(facts@);
    lemma_no_refusal(views, occ_categories@, facts@.len());
    assert forall|i: int| 0 <= i < facts@.len() implies (#[trigger] views[i])
        == facts@[i]@ by {}
    assert forall|i: int| 0 <= i < facts@.len() implies (listed(
        occ_categories@,
        (#[trigger] facts@[i]).name@,
    ) <==> exists|k: int|
        0 <= k < occ_categories@.len() && facts@[i].name@ == (#[trigger] occ_categories@[k])@) by {
        if listed(occ_categories@, facts@[i].name@) {
            let k = choose|k: int|
                0 <= k < occ_categories@.len() && (#[trigger] occ_categories@[k])@
                    == facts@[i].name@;
            assert(facts@[i].name@ == occ_categories@[k]@);
        }
    }
    let bad = {
        ||| explicit is Some && exists|i: int|
            0 <= i < facts@.len() && (#[trigger] facts@[i]).declared_workflow_id is Some
        ||| exists|i: int, j: int|
            0 <= i < facts@.len() && 0 <= j < facts@.len() && (
            #[trigger] facts@[i]).declared_workflow_id is Some && (
            #[trigger] facts@[j]).declared_workflow_id != facts@[i].declared_workflow_id
        ||| exists|i: int, k: int|
            0 <= i < facts@.len() && 0 <= k < occ_categories@.len() && (
            #[trigger] facts@[i]).name@ == (#[trigger] occ_categories@[k])@
        ||| exists|i: int| 0 <= i < facts@.len() && (#[trigger] facts@[i]).payload is Err
    };
    if r is Err {
        if resolved_workflow(views, explicit, fresh_workflow) is Err {
            let d = first_declared(views)->0;
            let i = choose|i: int|
                {
                    &&& 0 <= i < facts@.len()
                    &&& (#[trigger] facts@[i]).declared_workflow_id == Some(d)
                    &&& forall|j: int|
                        0 <= j < i ==> (#[trigger] facts@[j]).declared_workflow_id is None
                };
            assert(facts@[i].declared_workflow_id is Some);
            if explicit is None {
                let j = choose|j: int|
                    0 <= j < views.len() && (#[trigger] views[j]).declared_workflow_id != Some(d);
                assert(facts@[j].declared_workflow_id != facts@[i].declared_workflow_id);
            }
        } else {
            let i = choose|i: int|
                0 <= i < views.len() && (listed(occ_categories@, (#[trigger] views[i]).name)
                    || !(views[i].payload is Ok));
            assert(views[i] == facts@[i]@);
            if listed(occ_categories@, facts@[i].name@) {
                let k = choose|k: int|
                    0 <= k < occ_categories@.len() && facts@[i].name@ == (
                    #[trigger] occ_categories@[k])@;
                assert(facts@[i].name@ == occ_categories@[k]@);
            } else {
                assert(facts@[i].payload is Err);
            }
        }
        assert(bad);
    } else {
        assert forall|i: int| 0 <= i < facts@.len() implies (#[trigger] facts@[i]).payload is Ok
            && !listed(occ_categories@, facts@[i].name@) by {
            assert(views[i].payload is Ok);
        }
        assert forall|i: int, j: int|
            0 <= i < facts@.len() && 0 <= j < facts@.len() && (
            #[trigger] facts@[i]).declared_workflow_id is Some implies (
        #[trigger] facts@[j]).declared_workflow_id == facts@[i].declared_workflow_id by {
            assert(views[i].declared_workflow_id is Some);
            assert(views[j].declared_workflow_id == first_declared(views));
        }
        assert(!bad);
    }
}

/// Among ordered members, the map holds exactly each member.
pub proof fn lemma_map_of_members(members: Seq<(Seq<char>, JsonView)>)
    requires
        ordered(members),
    ensures
        forall|i: int|
            0 <= i < members.len() ==> members_map(members).contains_key((#[trigger] members[i]).0)
                && members_map(members)[members[i].0] == members[i].1,
        forall|k: Seq<char>| #[trigger]
            members_map(members).contains_key(k) ==> exists|i: int|
                0 <= i < members.len() && (#[trigger] members[i]).0 == k && members[i].1
                    == members_map(members)[k],
{
    assert forall|i: int| 0 <= i < members.len() implies members_map(members).contains_key(
        (#[trigger] members[i]).0,
    ) && members_map(members)[members[i].0] == members[i].1 by {
        lemma_member_at(members, members[i].0);
        let j = member_at(members, members[i].0)->0;
        if j < i {
            assert(text_less(members[j].0, members[i].0));
            lemma_text_less_total(members[j].0, members[i].0);
        }
    }
    assert forall|k: Seq<char>| #[trigger] members_map(members).contains_key(k) implies exists|
        i: int,
    |
        0 <= i < members.len() && (#[trigger] members[i]).0 == k && members[i].1 == members_map(
            members,
        )[k] by {
        lemma_member_at(members, k);
        let i = member_at(members, k)->0;
        assert(members[i].0 == k);
    }
}

/// Whether metadata holds a value under a key.
pub open spec fn holds(metadata: Seq<(String, Json)>, key: Seq<char>, value: JsonView) -> bool {
    exists|i: int|
        0 <= i < metadata.len() && (#[trigger] metadata[i]).0@ == key && metadata[i].1@ == value
}

/// What a merge of ordered members holds.
pub proof fn lemma_merged_holds(
    under: Seq<(String, Json)>,
    over: Seq<(String, Json)>,
    merged: Seq<(String, Json)>,
)
    requires
        ordered(member_views(under)),
        ordered(member_views(over)),
        ordered(member_views(merged)),
        members_map(member_views(merged)) == merged_map(member_views(under), member_views(over)),
    ensures
        forall|i: int|
            0 <= i < over.len() ==> holds(merged, (#[trigger] over[i]).0@, over[i].1@),
        forall|i: int|
            0 <= i < under.len() && (forall|j: int|
                0 <= j < over.len() ==> (#[trigger] over[j]).0@ != under[i].0@) ==> holds(
                merged,
                (#[trigger] under[i]).0@,
                under[i].1@,
            ),
        forall|i: int|
            0 <= i < merged.len() ==> holds(over, (#[trigger] merged[i]).0@, merged[i].1@) || (
            holds(under, merged[i].0@, merged[i].1@) && forall|j: int|
                0 <= j < over.len() ==> (#[trigger] over[j]).0@ != merged[i].0@),
        forall|i: int, j: int|
            0 <= i < j < merged.len() ==> (#[trigger] merged[i]).0@ != (#[trigger] merged[j]).0@,
{
    let a = member_views(under);
    let b = member_views(over);
    let m = member_views(merged);
    lemma_map_of_members(a);
    lemma_map_of_members(b);
    lemma_map_of_members(m);
    assert forall|k: Seq<char>, v: JsonView|
        members_map(m).contains_key(k) && members_map(m)[k] == v implies #[trigger] holds(
        merged,
        k,
        v,
    ) by {
        let i = choose|i: int|
            0 <= i < m.len() && (#[trigger] m[i]).0 == k && m[i].1 == members_map(m)[k];
        assert(merged[i].0@ == k);
    }
    assert forall|i: int| 0 <= i < over.len() implies holds(
        merged,
        (#[trigger] over[i]).0@,
        over[i].1@,
    ) by {
        assert(b[i].0 == over[i].0@);
    }
    assert forall|k: Seq<char>| #[trigger] members_map(b).contains_key(k) implies exists|j: int|
        0 <= j < over.len() && (#[trigger] over[j]).0@ == k by {
        let j = choose|j: int|
            0 <= j < b.len() && (#[trigger] b[j]).0 == k && b[j].1 == members_map(b)[k];
        assert(over[j].0@ == k);
    }
    assert forall|i: int|
        0 <= i < under.len() && (forall|j: int|
            0 <= j < over.len() ==> (#[trigger] over[j]).0@ != under[i].0@) implies holds(
        merged,
        (#[trigger] under[i]).0@,
        under[i].1@,
    ) by {
        assert(a[i].0 == under[i].0@);
        assert(!members_map(b).contains_key(a[i].0));
    }
    assert forall|i: int| 0 <= i < merged.len() implies holds(
        over,
        (#[trigger] merged[i]).0@,
        merged[i].1@,
    ) || (holds(under, merged[i].0@, merged[i].1@) && forall|j: int|
        0 <= j < over.len() ==> (#[trigger] over[j]).0@ != merged[i].0@) by {
        let k = m[i].0;
        assert(members_map(m).contains_key(k));
        if members_map(b).contains_key(k) {
            let j = choose|j: int|
                0 <= j < b.len() && (#[trigger] b[j]).0 == k && b[j].1 == members_map(b)[k];
            assert(over[j].0@ == k);
        } else {
            let j = choose|j: int|
                0 <= j < a.len() && (#[trigger] a[j]).0 == k && a[j].1 == members_map(a)[k];
            assert(under[j].0@ == k);
            assert forall|j: int| 0 <= j < over.len() implies (#[trigger] over[j]).0@ != k by {
                assert(b[j].0 == over[j].0@);
            }
        }
    }
    assert forall|i: int, j: int| 0 <= i < j < merged.len() implies (#[trigger] merged[i]).0@ != (
    #[trigger] merged[j]).0@ by {
        assert(text_less(m[i].0, m[j].0));
        lemma_text_less_total(m[i].0, m[j].0);
    }
}

/// Merged metadata holds every member of `over`, every member of `under` whose
/// key `over` lacks, and nothing else; no key twice.
pub proof fn law_merge_prefers_over(under: &Metadata, over: &Metadata, merged: Metadata)
    requires
        ordered(member_views(under@)),
        ordered(member_views(over@)),
        call_ensures(merge_metadata, (under, over), merged),
    ensures
        forall|i: int|
            0 <= i < over@.len() ==> holds(merged@, (#[trigger] over@[i]).0@, over@[i].1@),
        forall|i: int|
            0 <= i < under@.len() && (forall|j: int|
                0 <= j < over@.len() ==> (#[trigger] over@[j]).0@ != under@[i].0@) ==> holds(
                merged@,
                (#[trigger] under@[i]).0@,
                under@[i].1@,
            ),
        forall|i: int|
            0 <= i < merged@.len() ==> holds(over@, (#[trigger] merged@[i]).0@, merged@[i].1@) || (
            holds(under@, merged@[i].0@, merged@[i].1@) && forall|j: int|
                0 <= j < over@.len() ==> (#[trigger] over@[j]).0@ != merged@[i].0@),
        forall|i: int, j: int|
            0 <= i < j < merged@.len() ==> (#[trigger] merged@[i]).0@ != (
            #[trigger] merged@[j]).0@,
{
    lemma_merged_holds(under@, over@, merged@);
}

/// What an emit writes: an event for each fact, in order, as the fact is; all
/// of one workflow, which is the plan's, and of the cause asked for; at the
/// fact's own time or else at one that the clock reads. Each carries every
/// metadata member of the emit, and those of the engine under other keys.
pub proof fn law_emit_writes_the_facts<K: Clock>(
    b: &EmitBuilder,
    default_metadata: &Metadata,
    occ_categories: &Vec<String>,
    clock: &K,
    plan: EmitPlan,
)
    requires
        b.wf(),
        ordered(member_views(default_metadata@)),
        call_ensures(
            execute_emit::<K>,
            (b, default_metadata, occ_categories, clock),
            Ok(EmitStart::Append(plan)),
        ),
    ensures
        b.input.facts@.len() > 0,
        written(plan.runs@).len() == b.input.facts@.len(),
        forall|i: int|
            0 <= i < b.input.facts@.len() ==> {
                let event = #[trigger] written(plan.runs@)[i];
                let fact = b.input.facts@[i];
                &&& event.event_id != 0
                &&& event.workflow_id == plan.workflow_id
                &&& event.causation_id == b.causation_id
                &&& event.event_type@ == fact.name@
                &&& fact.payload matches Ok(json) && event.payload@ == json@
                &&& match fact.occurred_at {
                    Some(at) => event.created_at == at,
                    None => may_read(*clock, event.created_at),
                }
                &&& event.category matches Some(c) && c@ == fact.subject@
                &&& event.subject_id == Some(fact.subject_id)
                &&& event.persistent
            },
        forall|i: int, j: int|
            #![trigger written(plan.runs@)[i], b.metadata@[j]]
            0 <= i < b.input.facts@.len() && 0 <= j < b.metadata@.len() ==> holds(
                written(plan.runs@)[i].metadata@,
                b.metadata@[j].0@,
                b.metadata@[j].1@,
            ),
        forall|i: int, j: int|
            #![trigger written(plan.runs@)[i], default_metadata@[j]]
            0 <= i < b.input.facts@.len() && 0 <= j < default_metadata@.len() && (forall|k: int|
                0 <= k < b.metadata@.len() ==> (#[trigger] b.metadata@[k]).0@
                    != default_metadata@[j].0@) ==> holds(
                written(plan.runs@)[i].metadata@,
                default_metadata@[j].0@,
                default_metadata@[j].1@,
            ),
        forall|i: int, j: int|
            #![trigger written(plan.runs@)[i].metadata@[j]]
            0 <= i < b.input.facts@.len() && 0 <= j < written(plan.runs@)[i].metadata@.len() ==> {
                let m = written(plan.runs@)[i].metadata@[j];
                holds(b.metadata@, m.0@, m.1@) || holds(default_metadata@, m.0@, m.1@)
            },
        plan.workflow_id != 0 || b.workflow_id == Some(0u128) || exists|i: int|
            0 <= i < b.input.facts@.len() && (
            #[trigger] b.input.facts@[i]).declared_workflow_id == Some(0u128),
{
    let facts = b.input.facts@;
    let start = Ok::<EmitStart, Error>(EmitStart::Append(plan));
    let (metadata, fresh, stamps) = choose|
        metadata: Seq<(Seq<char>, JsonView)>,
        fresh: u128,
        stamps: Seq<Stamp>,
    |
        {
            &&& ordered(metadata)
            &&& members_map(metadata) == merged_map(
                member_views(default_metadata@),
                member_views(b.metadata@),
            )
            &&& stamps.len() == b.input.facts@.len()
            &&& fresh != 0
            &&& named_events(stamps)
            &&& stamped_by(*clock, stamps)
            &&& #[trigger] starts_as(
                start,
                fact_views(b.input.facts@),
                b.workflow_id,
                b.causation_id,
                metadata,
                occ_categories@,
                fresh,
                stamps,
            )
        };
    lemma_no_refusal(fact_views(facts), occ_categories@, facts.len());
    assert(fact_views(facts).len() == facts.len());
    assert forall|i: int| 0 <= i < facts.len() implies (#[trigger] facts[i]).payload is Ok by {
        assert(fact_views(facts)[i].payload is Ok);
    }
    lemma_plan_fields(plan.runs@, facts, plan.workflow_id, b.causation_id, metadata, stamps);
    assert forall|i: int| 0 <= i < facts.len() implies may_read(
        *clock,
        (#[trigger] stamps[i]).now,
    ) && stamps[i].event_id != 0 by {}
    assert forall|i: int| 0 <= i < facts.len() implies member_views(
        (#[trigger] written(plan.runs@)[i]).metadata@,
    ) == metadata by {}
    lemma_declared(facts);
    if plan.workflow_id == 0 && b.workflow_id != Some(0u128) {
        let i = choose|i: int|
            {
                &&& 0 <= i < facts.len()
                &&& (#[trigger] facts[i]).declared_workflow_id == Some(0u128)
            };
    }
    assert forall|i: int, j: int|
        #![trigger written(plan.runs@)[i], b.metadata@[j]]
        0 <= i < facts.len() && 0 <= j < b.metadata@.len() implies holds(
        written(plan.runs@)[i].metadata@,
        b.metadata@[j].0@,
        b.metadata@[j].1@,
    ) by {
        lemma_merged_holds(default_metadata@, b.metadata@, written(plan.runs@)[i].metadata@);
    }
    assert forall|i: int, j: int|
        #![trigger written(plan.runs@)[i], default_metadata@[j]]
        0 <= i < facts.len() && 0 <= j < default_metadata@.len() && (forall|k: int|
            0 <= k < b.metadata@.len() ==> (#[trigger] b.metadata@[k]).0@
                != default_metadata@[j].0@) implies holds(
        written(plan.runs@)[i].metadata@,
        default_metadata@[j].0@,
        default_metadata@[j].1@,
    ) by {
        lemma_merged_holds(default_metadata@, b.metadata@, written(plan.runs@)[i].metadata@);
    }
    assert forall|i: int, j: int|
        #![trigger written(plan.runs@)[i].metadata@[j]]
        0 <= i < facts.len() && 0 <= j < written(plan.runs@)[i].metadata@.len() implies {
        let m = written(plan.runs@)[i].metadata@[j];
        holds(b.metadata@, m.0@, m.1@) || holds(default_metadata@, m.0@, m.1@)
    } by {
        lemma_merged_holds(default_metadata@, b.metadata@, written(plan.runs@)[i].metadata@);
    }
}

/// Nothing is written exactly for an emit without facts, which belongs to the
/// workflow asked for, or else to a fresh one.
pub proof fn law_only_empty_emits_write_nothing<K: Clock>(
    b: &EmitBuilder,
    default_metadata: &Metadata,
    occ_categories: &Vec<String>,
    clock: &K,
    start: EmitStart,
)
    requires
        call_ensures(execute_emit::<K>, (b, default_metadata, occ_categories, clock), Ok(start)),
    ensures
        start is Nothing <==> b.input.facts@.len() == 0,
        start matches EmitStart::Nothing { workflow_id } ==> (match b.workflow_id {
            Some(asked) => workflow_id == asked,
            None => workflow_id != 0,
        }),
{
}

/// The events of one append stand at consecutive revisions that end where the
/// append reports, all at its position.
pub proof fn law_batch_revisions_are_consecutive(
    result: WriteResult,
    n: u64,
    k: u64,
    at: WriteResult,
    next: WriteResult,
)
    requires
        k + 1 < n,
        n - 1 <= result.revision.0,
        call_ensures(coordinates_of, (result, n, k), at),
        call_ensures(coordinates_of, (result, n, (k + 1) as u64), next),
    ensures
        at.position == result.position,
        next.position == result.position,
        next.revision.0 == at.revision.0 + 1,
        k + 2 == n ==> next.revision == result.revision,
{
}

/// An emit reports its workflow and where the last of its appends landed.
pub proof fn law_emit_reports_the_last_append(
    workflow_id: u128,
    results: &Vec<WriteResult>,
    r: EmitResult,
)
    requires
        call_ensures(emit_result, (workflow_id, results), r),
    ensures
        r.workflow_id == workflow_id,
        results@.len() > 0 ==> r.position == results@[results@.len() - 1].position,
        results@.len() == 0 ==> r.position.0 == 0,
{
}

/// What was set last under a key is what an emit carries under it; other keys,
/// the facts and the rest of the envelope stay as they are.
pub proof fn law_metadata_accumulates(b: EmitBuilder, key: &str, value: Json, after: EmitBuilder)
    requires
        b.wf(),
        call_ensures(EmitBuilder::metadata, (b, key, value), after),
    ensures
        after.input == b.input,
        after.workflow_id == b.workflow_id,
        after.causation_id == b.causation_id,
        holds(after.metadata@, key@, value@),
        forall|i: int|
            0 <= i < b.metadata@.len() && b.metadata@[i].0@ != key@ ==> holds(
                after.metadata@,
                (#[trigger] b.metadata@[i]).0@,
                b.metadata@[i].1@,
            ),
        forall|i: int|
            0 <= i < after.metadata@.len() ==> ((#[trigger] after.metadata@[i]).0@ == key@
                && after.metadata@[i].1@ == value@) || (after.metadata@[i].0@ != key@ && holds(
                b.metadata@,
                after.metadata@[i].0@,
                after.metadata@[i].1@,
            )),
{
    let m = member_views(after.metadata@);
    let a = member_views(b.metadata@);
    lemma_map_of_members(m);
    lemma_map_of_members(a);
    assert forall|k: Seq<char>, v: JsonView|
        members_map(m).contains_key(k) && members_map(m)[k] == v implies #[trigger] holds(
        after.metadata@,
        k,
        v,
    ) by {
        let i = choose|i: int|
            0 <= i < m.len() && (#[trigger] m[i]).0 == k && m[i].1 == members_map(m)[k];
        assert(after.metadata@[i].0@ == k);
    }
    assert forall|i: int| 0 <= i < b.metadata@.len() && b.metadata@[i].0@ != key@ implies holds(
        after.metadata@,
        (#[trigger] b.metadata@[i]).0@,
        b.metadata@[i].1@,
    ) by {
        assert(a[i].0 == b.metadata@[i].0@);
    }
    assert forall|i: int| 0 <= i < after.metadata@.len() implies ((
    #[trigger] after.metadata@[i]).0@ == key@ && after.metadata@[i].1@ == value@) || (
    after.metadata@[i].0@ != key@ && holds(
        b.metadata@,
        after.metadata@[i].0@,
        after.metadata@[i].1@,
    )) by {
        let k = m[i].0;
        assert(members_map(m)[k] == m[i].1);
        if k != key@ {
            assert(members_map(a).contains_key(k));
            let j = choose|j: int|
                0 <= j < a.len() && (#[trigger] a[j]).0 == k && a[j].1 == members_map(a)[k];
            assert(b.metadata@[j].0@ == k);
        }
    }
}

/// An envelope is what was set last: the workflow, the cause, and nothing else
/// changes with them.
pub proof fn law_envelope_is_what_was_set(
    b: EmitBuilder,
    workflow: u128,
    cause: u128,
    rooted: EmitBuilder,
    caused: EmitBuilder,
)
    requires
        call_ensures(EmitBuilder::workflow_id, (b, workflow), rooted),
        call_ensures(EmitBuilder::causation_id, (rooted, cause), caused),
    ensures
        caused.workflow_id == Some(workflow),
        caused.causation_id == Some(cause),
        rooted.causation_id == b.causation_id,
        caused.input == b.input,
        caused.metadata == b.metadata,
{
}

/// What enters through a boundary carries its name as `_origin`, and no other
/// metadata of its own.
pub proof fn law_boundaries_name_the_origin(name: &str, input: EmitInput, b: EmitBuilder)
    requires
        call_ensures(boundary_emit, (name, input), b),
    ensures
        b.input == input,
        b.workflow_id is None,
        b.causation_id is None,
        b.metadata@.len() == 1,
        b.metadata@[0].0@ == "_origin"@,
        b.metadata@[0].1@ == JsonView::Str(name@),
{
    let m = member_views(b.metadata@);
    lemma_map_of_members(m);
    assert(members_map(m).contains_key("_origin"@));
    let i = choose|i: int|
        0 <= i < m.len() && (#[trigger] m[i]).0 == "_origin"@ && m[i].1 == members_map(
            m,
        )["_origin"@];
    assert(members_map(m).contains_key(m[0].0));
    if m.len() > 1 {
        assert(members_map(m).contains_key(m[1].0));
        assert(text_less(m[0].0, m[1].0));
        lemma_text_less_total(m[0].0, m[1].0);
    }
}

/// A waiting fact is the event it was made of: its kind, its stream, its time,
/// the workflow it declares, and its JSON form where it has one. Several stay
/// in order.
pub proof fn law_facts_stand_for_events<F: Event>(
    one: &F,
    many: &Vec<F>,
    single: EmitInput,
    batch: EmitInput,
)
    requires
        call_ensures(EmitInput::one::<F>, (one,), single),
        call_ensures(EmitInput::many::<F>, (many,), batch),
    ensures
        single.facts@.len() == 1,
        batch.facts@.len() == many@.len(),
        forall|fact: PendingFact, event: F|
            (fact == single.facts@[0] && event == *one) || (exists|i: int|
                0 <= i < many@.len() && fact == #[trigger] batch.facts@[i] && event == many@[i])
                ==> {
                &&& (#[trigger] fact.name@) == F::NAME@
                &&& fact.subject@ == F::SUBJECT@
                &&& fact.subject_id == #[trigger] event.subject_of()
                &&& fact.occurred_at == event.occurred_of()
                &&& fact.declared_workflow_id == event.declared_of()
                &&& fact.payload matches Ok(json) ==> event.encoded() == Some(json@)
                &&& fact.payload is Err <==> event.encoded() is None
            },
{
    assert forall|i: int| 0 <= i < many@.len() implies stands_for(
        (#[trigger] batch.facts@[i])@,
        many@[i],
    ) by {}
}

/// Where only facts stand against an emit, the first of them is what its error
/// tells of: that its kind is closed, by its name, whatever else is wrong with
/// it, or why it has no payload.
pub proof fn law_refusals_tell_of_the_first_fact(
    facts: &Vec<PendingFact>,
    explicit: Option<u128>,
    causation_id: Option<u128>,
    metadata: &Metadata,
    occ_categories: &Vec<String>,
    fresh_workflow: u128,
    stamps: &Vec<Stamp>,
    r: Result<EmitPlan, Error>,
    i: int,
)
    requires
        call_ensures(
            plan_emit,
            (
                facts,
                explicit,
                causation_id,
                metadata,
                occ_categories,
                fresh_workflow,
                stamps,
            ),
            r,
        ),
        forall|k: int|
            0 <= k < facts@.len() ==> (#[trigger] facts@[k]).declared_workflow_id is None,
        0 <= i < facts@.len(),
        forall|k: int|
            0 <= k < i ==> !listed(occ_categories@, (#[trigger] facts@[k]).name@)
                && facts@[k].payload is Ok,
    ensures
        listed(occ_categories@, facts@[i].name@) ==> (r matches Err(Error::Message(m)) && m@.len()
            > 10 + facts@[i].name@.len() && m@.subrange(10, (10 + facts@[i].name@.len()) as int)
            == facts@[i].name@ && m@[0] == 'c' && m@[(10 + facts@[i].name@.len()) as int] == '\''),
        !listed(occ_categories@, facts@[i].name@) ==> (facts@[i].payload matches Err(text) ==> (
        r matches Err(Error::Message(m)) && m@ == text@)),
{
    let views = fact_views(facts@);
    lemma_declared(facts@);
    assert forall|k: int| 0 <= k < i implies !listed(occ_categories@, (#[trigger] views[k]).name)
        && views[k].payload is Ok by {
        assert(views[k] == facts@[k]@);
    }
    lemma_no_refusal(views, occ_categories@, i as nat);
    assert(views[i] == facts@[i]@);
    if first_refusal(views, occ_categories@, (i + 1) as nat) is Some {
        lemma_refusal_sticks(views, occ_categories@, (i + 1) as nat, views.len());
    }
    if listed(occ_categories@, facts@[i].name@) {
        let name = facts@[i].name@;
        reveal_strlit("category '");
        reveal_strlit(
            "' is OCC-required (registered via with_aggregate); use Engine::append::<A, F>(id, decide) instead of emit()",
        );
        assert(occ_text(name).subrange(10, (10 + name.len()) as int) =~= name);
        assert(occ_text(name)[0] == 'c');
    }
}

/// A workflow that is given where the first fact declares one is refused,
/// whatever the facts are otherwise, and the error names both, the given one
/// first.
pub proof fn law_overrides_name_both_workflows(
    facts: &Vec<PendingFact>,
    explicit: u128,
    declared: u128,
    causation_id: Option<u128>,
    metadata: &Metadata,
    occ_categories: &Vec<String>,
    fresh_workflow: u128,
    stamps: &Vec<Stamp>,
    r: Result<EmitPlan, Error>,
)
    requires
        call_ensures(
            plan_emit,
            (
                facts,
                Some(explicit),
                causation_id,
                metadata,
                occ_categories,
                fresh_workflow,
                stamps,
            ),
            r,
        ),
        facts@.len() > 0,
        facts@[0].declared_workflow_id == Some(declared),
    ensures
        r matches Err(Error::Message(m)) && m@.len() > 19 + id_chars(explicit).len() && m@.subrange(
            19,
            (19 + id_chars(explicit).len()) as int,
        ) == id_chars(explicit) && m@.len() > id_chars(declared).len() + 77 && m@.subrange(
            m@.len() - 77 - id_chars(declared).len(),
            m@.len() - 77,
        ) == id_chars(declared),
{
    let views = fact_views(facts@);
    lemma_declared(facts@);
    let d = first_declared(views)->0;
    let i = choose|i: int|
        {
            &&& 0 <= i < facts@.len()
            &&& (#[trigger] facts@[i]).declared_workflow_id == Some(d)
            &&& forall|j: int| 0 <= j < i ==> (#[trigger] facts@[j]).declared_workflow_id is None
        };
    assert(facts@[0].declared_workflow_id is Some);
    assert(i == 0);
    assert(d == declared);
    let m = override_text(explicit, declared);
    reveal_strlit("emit().workflow_id(");
    reveal_strlit(
        "). The declaration is the single source of truth — drop the builder override.",
    );
    assert(m.subrange(19, (19 + id_chars(explicit).len()) as int) =~= id_chars(explicit));
    assert(m.subrange(m.len() - 77 - id_chars(declared).len(), m.len() - 77) =~= id_chars(declared));
}

} // verus!
