//! Assembly of an engine: what is registered, what is refused, and where
//! reactors start.

use vstd::prelude::*;

use crate::aggregator::{Aggregator, AggregatorView, FoldFns};
use crate::clock::Clock;
use crate::emit::{
    boundary_emit, execute_emit, fact_views, lemma_no_refusal, lemma_plan_fields, merged_map,
    named_events, stamped_by, starts_as, written, EmitBuilder, EmitInput, EmitPlan, EmitResult,
    EmitStart, Stamp,
};
use crate::event_type::{empty_name_text, validate_name};
use crate::failure::{Error, FailureClass};
use crate::json::{member_views, members_map, ordered, JsonView};
use crate::registry::{aggregator_views, first_of_type, AggregatorRegistry};
use crate::settle::{next_target, settle, SettleStep, SettleTracker};
use crate::state_table::Entry;
use crate::text::{listed, lists, same};
use crate::transitions::{state_key, state_key_text};
use crate::types::{LogCursor, Metadata};

verus! {

/// How often a reactor is tried before it fails for good, unless said
/// otherwise.
pub const DEFAULT_MAX_ATTEMPTS: u32 = 3;

/// After how many events a snapshot is saved, unless said otherwise.
pub const DEFAULT_SNAPSHOT_EVERY: u64 = 100;

/// What a terminal failure of a reactor is told to the one that maps it to an
/// event.
#[derive(Debug)]
pub struct TerminalFailure {
    /// The failing reactor.
    pub consumer: String,
    pub trigger_id: u128,
    pub trigger_event_type: String,
    /// The category of the trigger's stream.
    pub subject: String,
    pub subject_id: u128,
    pub class: FailureClass,
    pub error: String,
    pub attempts: u32,
    pub workflow_id: u128,
}

/// Where a reactor starts.
#[derive(Clone, Copy, Debug, PartialEq, Eq, Structural)]
pub enum StartPosition {
    /// At its stored cursor, or at the end of the log where it has none.
    ResumeOrLatest,
    /// At the end of the log.
    Latest,
    /// At the beginning of the log.
    Zero,
    Specific(LogCursor),
}

/// The cursor a reactor is given before it runs; `None` leaves it as it is.
pub open spec fn seed_of(
    start: StartPosition,
    existing: Option<LogCursor>,
    latest: LogCursor,
) -> Option<LogCursor> {
    match start {
        StartPosition::ResumeOrLatest => match existing {
            Some(_) => None,
            None => Some(latest),
        },
        StartPosition::Latest => Some(latest),
        StartPosition::Zero => Some(LogCursor(0)),
        StartPosition::Specific(c) => Some(c),
    }
}

/// Whether the end of the log has to be known to seed a reactor.
pub fn needs_latest(start: StartPosition, existing: Option<LogCursor>) -> (needed: bool)
    ensures
        needed == (start == StartPosition::Latest || (start == StartPosition::ResumeOrLatest
            && existing is None)),
{
    match start {
        StartPosition::ResumeOrLatest => existing.is_none(),
        StartPosition::Latest => true,
        StartPosition::Zero => false,
        StartPosition::Specific(_) => false,
    }
}

/// The cursor a reactor is given before it runs. `latest` only counts where
/// [`needs_latest`] says so.
pub fn seed_for(start: StartPosition, existing: Option<LogCursor>, latest: LogCursor) -> (seed:
    Option<LogCursor>)
    ensures
        seed == seed_of(start, existing, latest),
{
    match start {
        StartPosition::ResumeOrLatest => match existing {
            Some(_) => None,
            None => Some(latest),
        },
        StartPosition::Latest => Some(latest),
        StartPosition::Zero => Some(LogCursor::zero()),
        StartPosition::Specific(c) => Some(c),
    }
}

/// Where a registered reactor starts.
#[derive(Debug)]
pub struct ReactorSeed {
    pub consumer: String,
    pub start: StartPosition,
}

/// What an engine is assembled from.
pub struct EngineBuilder<B: FoldFns> {
    pub aggregators: Vec<Aggregator<B>>,
    /// The names of the consumers.
    pub consumer_names: Vec<String>,
    /// The event kinds that are closed to plain emits.
    pub occ_categories: Vec<String>,
    pub default_metadata: Metadata,
    pub max_attempts: u32,
    pub snapshot_every: u64,
    pub reactor_seeds: Vec<ReactorSeed>,
}

/// Whether two aggregators fold one kind into one type.
pub open spec fn collide<B>(a: AggregatorView<B>, b: AggregatorView<B>) -> bool {
    a.aggregate_type == b.aggregate_type && a.event_prefix == b.event_prefix
}

/// Whether an aggregator collides with one of a list.
pub open spec fn collides<B>(aggs: Seq<AggregatorView<B>>, agg: AggregatorView<B>) -> bool {
    exists|i: int| 0 <= i < aggs.len() && collide(#[trigger] aggs[i], agg)
}

/// No two aggregators collide.
pub open spec fn no_collision<B>(aggs: Seq<AggregatorView<B>>) -> bool {
    forall|i: int, j: int|
        0 <= i < j < aggs.len() ==> !collide(#[trigger] aggs[i], #[trigger] aggs[j])
}

/// Whether an event kind is closed to plain emits: an aggregator declared so.
pub open spec fn is_closed<B>(aggs: Seq<AggregatorView<B>>, kind: Seq<char>) -> bool {
    exists|i: int|
        0 <= i < aggs.len() && (#[trigger] aggs[i]).invariant && aggs[i].event_prefix == kind
}

/// No name occurs twice.
pub open spec fn distinct_names(names: Seq<String>) -> bool {
    forall|i: int, j: int|
        0 <= i < j < names.len() ==> (#[trigger] names[i])@ != (#[trigger] names[j])@
}

/// What is said of two aggregators that collide.
pub open spec fn collision_text(aggregate_type: Seq<char>, event_prefix: Seq<char>) -> Seq<char> {
    "duplicate Aggregate::NAME `"@ + aggregate_type
        + "` registered against the same Event CATEGORY `"@ + event_prefix
        + "` — two aggregators MUST NOT share a registry key. Multi-Event aggregates folding different Event streams are fine (Apply<F1> + Apply<F2> with the same A::NAME); same Event registered twice is not."@
}

/// What is said of a consumer name that is taken.
pub open spec fn taken_name_text(name: Seq<char>) -> Seq<char> {
    "duplicate NAME `"@ + name
        + "` registered on EngineBuilder — two consumers MUST NOT share a cursor key"@
}

impl<B: FoldFns> EngineBuilder<B> {
    /// The registered aggregators.
    pub open spec fn aggs(&self) -> Seq<AggregatorView<B>> {
        aggregator_views(self.aggregators@)
    }

    /// Names are unique, aggregators do not collide, exactly the declared
    /// kinds are closed, and the metadata is in key order.
    pub open spec fn wf(&self) -> bool {
        &&& distinct_names(self.consumer_names@)
        &&& no_collision(self.aggs())
        &&& forall|k: Seq<char>| #[trigger]
            listed(self.occ_categories@, k) <==> is_closed(self.aggs(), k)
        &&& ordered(member_views(self.default_metadata@))
    }

    /// Nothing registered.
    pub fn new() -> (b: Self)
        ensures
            b.wf(),
            b.aggs() == Seq::<AggregatorView<B>>::empty(),
            b.consumer_names@.len() == 0,
            b.default_metadata@.len() == 0,
            b.max_attempts == 3,
            b.snapshot_every == 100,
            b.reactor_seeds@.len() == 0,
    {
        let b = EngineBuilder {
            aggregators: Vec::new(),
            consumer_names: Vec::new(),
            occ_categories: Vec::new(),
            default_metadata: Vec::new(),
            max_attempts: DEFAULT_MAX_ATTEMPTS,
            snapshot_every: DEFAULT_SNAPSHOT_EVERY,
            reactor_seeds: Vec::new(),
        };
        assert(b.aggs() =~= Seq::<AggregatorView<B>>::empty());
        b
    }

    /// Sets how often a reactor is tried.
    pub fn with_max_attempts(self, n: u32) -> (b: Self)
        ensures
            b == (EngineBuilder { max_attempts: n, ..self }),
    {
        EngineBuilder { max_attempts: n, ..self }
    }

    /// Sets after how many events a snapshot is saved; zero saves none.
    pub fn with_snapshot_every(self, n: u64) -> (b: Self)
        ensures
            b == (EngineBuilder { snapshot_every: n, ..self }),
    {
        EngineBuilder { snapshot_every: n, ..self }
    }

    /// Sets the metadata of every emit.
    pub fn with_default_metadata(self, defaults: Metadata) -> (b: Self)
        ensures
            b == (EngineBuilder { default_metadata: defaults, ..self }),
            self.wf() && ordered(member_views(defaults@)) ==> b.wf(),
    {
        EngineBuilder { default_metadata: defaults, ..self }
    }

    /// Why a consumer name cannot be used; `None` where it can.
    pub fn refuse_name(&self, name: &str) -> (text: Option<String>)
        ensures
            match text {
                Some(t) => listed(self.consumer_names@, name@) && t@ == taken_name_text(name@),
                None => !listed(self.consumer_names@, name@),
            },
    {
        if lists(&self.consumer_names, name) {
            let mut text = "duplicate NAME `".to_owned();
            text.append(name);
            text.append(
                "` registered on EngineBuilder — two consumers MUST NOT share a cursor key",
            );
            Some(text)
        } else {
            None
        }
    }

    /// Takes a name for a consumer.
    fn claim_name(&mut self, name: &str)
        requires
            old(self).wf(),
            !listed(old(self).consumer_names@, name@),
        ensures
            final(self).wf(),
            final(self).consumer_names@.len() == old(self).consumer_names@.len() + 1,
            final(self).consumer_names@.drop_last() == old(self).consumer_names@,
            final(self).consumer_names@.last()@ == name@,
            *final(self) == (EngineBuilder {
                consumer_names: final(self).consumer_names,
                ..*old(self)
            }),
    {
        let ghost was = self.consumer_names@;
        self.consumer_names.push(name.to_owned());
        proof {
            let now = self.consumer_names@;
            assert(now.drop_last() =~= was);
            assert forall|i: int, j: int| 0 <= i < j < now.len() implies (#[trigger] now[i])@ != (
            #[trigger] now[j])@ by {
                if j < was.len() {
                    assert(was[i]@ != was[j]@);
                } else {
                    assert(was[i]@ != name@);
                }
            }
        }
    }

    /// Registers a projector. Its cursor is left as it is: read models start
    /// from the beginning.
    pub fn with_projector(self, name: &str) -> (b: Self)
        requires
            self.wf(),
            !listed(self.consumer_names@, name@),
        ensures
            b.wf(),
            b.consumer_names@.len() == self.consumer_names@.len() + 1,
            b.consumer_names@.drop_last() == self.consumer_names@,
            b.consumer_names@.last()@ == name@,
            b == (EngineBuilder { consumer_names: b.consumer_names, ..self }),
    {
        let mut b = self;
        b.claim_name(name);
        b
    }

    /// Registers a consumer of several kinds. Its cursor is left as it is.
    pub fn with_multi_projector(self, name: &str) -> (b: Self)
        requires
            self.wf(),
            !listed(self.consumer_names@, name@),
        ensures
            b.wf(),
            b.consumer_names@.len() == self.consumer_names@.len() + 1,
            b.consumer_names@.drop_last() == self.consumer_names@,
            b.consumer_names@.last()@ == name@,
            b == (EngineBuilder { consumer_names: b.consumer_names, ..self }),
    {
        self.with_projector(name)
    }

    /// Registers a reactor that resumes, or starts at the end of the log: a
    /// new reactor does not repeat the past.
    pub fn with_reactor(self, name: &str) -> (b: Self)
        requires
            self.wf(),
            !listed(self.consumer_names@, name@),
        ensures
            b.wf(),
            b.consumer_names@.len() == self.consumer_names@.len() + 1,
            b.consumer_names@.drop_last() == self.consumer_names@,
            b.consumer_names@.last()@ == name@,
            b.reactor_seeds@.len() == self.reactor_seeds@.len() + 1,
            b.reactor_seeds@.drop_last() == self.reactor_seeds@,
            b.reactor_seeds@.last().consumer@ == name@,
            b.reactor_seeds@.last().start == StartPosition::ResumeOrLatest,
            b == (EngineBuilder {
                consumer_names: b.consumer_names,
                reactor_seeds: b.reactor_seeds,
                ..self
            }),
    {
        self.with_reactor_start(name, StartPosition::ResumeOrLatest)
    }

    /// Registers a reactor that starts where it is told to.
    pub fn with_reactor_start(self, name: &str, start: StartPosition) -> (b: Self)
        requires
            self.wf(),
            !listed(self.consumer_names@, name@),
        ensures
            b.wf(),
            b.consumer_names@.len() == self.consumer_names@.len() + 1,
            b.consumer_names@.drop_last() == self.consumer_names@,
            b.consumer_names@.last()@ == name@,
            b.reactor_seeds@.len() == self.reactor_seeds@.len() + 1,
            b.reactor_seeds@.drop_last() == self.reactor_seeds@,
            b.reactor_seeds@.last().consumer@ == name@,
            b.reactor_seeds@.last().start == start,
            b == (EngineBuilder {
                consumer_names: b.consumer_names,
                reactor_seeds: b.reactor_seeds,
                ..self
            }),
    {
        let mut b = self;
        b.claim_name(name);
        b.reactor_seeds.push(ReactorSeed { consumer: name.to_owned(), start });
        assert(b.reactor_seeds@.drop_last() =~= self.reactor_seeds@);
        b
    }

    /// Why an aggregator cannot be registered; `None` where it can.
    pub fn refuse_aggregator(&self, agg: &Aggregator<B>) -> (text: Option<String>)
        ensures
            match text {
                Some(t) => collides(self.aggs(), agg@) && t@ == collision_text(
                    agg@.aggregate_type,
                    agg@.event_prefix,
                ),
                None => !collides(self.aggs(), agg@),
            },
    {
        let mut i: usize = 0;
        while i < self.aggregators.len()
            invariant
                i <= self.aggregators@.len(),
                forall|j: int| 0 <= j < i ==> !collide(#[trigger] self.aggs()[j], agg@),
            decreases self.aggregators@.len() - i,
        {
            let held = &self.aggregators[i];
            assert(self.aggs()[i as int] == held@);
            if same(held.aggregate_type.as_str(), agg.aggregate_type.as_str()) && same(
                held.event_prefix.as_str(),
                agg.event_prefix.as_str(),
            ) {
                let mut text = "duplicate Aggregate::NAME `".to_owned();
                text.append(agg.aggregate_type.as_str());
                text.append("` registered against the same Event CATEGORY `");
                text.append(held.event_prefix.as_str());
                text.append(
                    "` — two aggregators MUST NOT share a registry key. Multi-Event aggregates folding different Event streams are fine (Apply<F1> + Apply<F2> with the same A::NAME); same Event registered twice is not.",
                );
                return Some(text);
            }
            i += 1;
        }
        None
    }

    /// Registers aggregators behind those already registered. The kinds of an
    /// aggregator that declares so are closed to plain emits.
    pub fn with_aggregators(self, aggregators: Vec<Aggregator<B>>) -> (b: Self)
        requires
            self.wf(),
            no_collision(self.aggs() + aggregator_views(aggregators@)),
        ensures
            b.wf(),
            b.aggs() == self.aggs() + aggregator_views(aggregators@),
            b == (EngineBuilder {
                aggregators: b.aggregators,
                occ_categories: b.occ_categories,
                ..self
            }),
    {
        let ghost start = self.aggs();
        let ghost all = aggregator_views(aggregators@);
        let ghost list = aggregators@;
        let mut b = self;
        let mut rest = aggregators;
        assert(start + all.take(0) =~= start);
        assert(rest@ =~= list.skip(0));
        while rest.len() > 0
            invariant
                rest@.len() <= list.len(),
                rest@ == list.skip(list.len() - rest@.len()),
                all == aggregator_views(list),
                start == self.aggs(),
                no_collision(start + all),
                b.wf(),
                b.aggs() == start + all.take(list.len() - rest@.len()),
                b == (EngineBuilder {
                    aggregators: b.aggregators,
                    occ_categories: b.occ_categories,
                    ..self
                }),
            decreases rest@.len(),
        {
            let ghost n = list.len() - rest@.len();
            let ghost before = b;
            assert(rest@[0] == list[n]);
            let agg = rest.remove(0);
            assert(rest@ =~= list.skip(n + 1));
            let ghost view = agg@;
            assert(view == all[n]);
            if agg.invariant {
                b.occ_categories.push(agg.event_prefix.clone());
                assert(b.occ_categories@.drop_last() =~= before.occ_categories@);
            }
            b.aggregators.push(agg);
            proof {
                assert(b.aggs() =~= before.aggs().push(view));
                assert(start + all.take(n + 1) =~= (start + all.take(n)).push(view));
                lemma_closed_after(
                    before.occ_categories@,
                    b.occ_categories@,
                    before.aggs(),
                    view,
                );
                assert forall|i: int, j: int| 0 <= i < j < b.aggs().len() implies !collide(
                    #[trigger] b.aggs()[i],
                    #[trigger] b.aggs()[j],
                ) by {
                    assert(b.aggs()[i] == (start + all)[i]);
                    assert(b.aggs()[j] == (start + all)[j]);
                }
            }
        }
        assert(all.take(list.len() as int) =~= all);
        b
    }

    /// Refuses an aggregator of an event kind without a name.
    pub fn validate(&self) -> (r: Result<(), Error>)
        ensures
            r is Ok <==> forall|i: int|
                0 <= i < self.aggs().len() ==> (#[trigger] self.aggs()[i]).event_prefix.len() > 0,
            r matches Err(e) ==> (e matches Error::Message(m) && m@ == empty_name_text(
                "aggregator event"@,
            )),
    {
        let mut i: usize = 0;
        while i < self.aggregators.len()
            invariant
                i <= self.aggregators@.len(),
                forall|j: int|
                    0 <= j < i ==> (#[trigger] self.aggs()[j]).event_prefix.len() > 0,
            decreases self.aggregators@.len() - i,
        {
            let agg = &self.aggregators[i];
            assert(self.aggs()[i as int] == agg@);
            match validate_name("aggregator event", agg.event_prefix.as_str()) {
                Ok(()) => {},
                Err(e) => {
                    return Err(e);
                },
            }
            if !agg.subject.as_str().is_empty() {
                match validate_name("aggregate stream", agg.subject.as_str()) {
                    Ok(()) => {},
                    Err(e) => {
                        return Err(e);
                    },
                }
            }
            i += 1;
        }
        Ok(())
    }

    /// A registry of the aggregators with no state of its own; `None` where
    /// none is registered.
    pub fn make_registry(&self) -> (r: Option<AggregatorRegistry<B>>)
        ensures
            match r {
                Some(reg) => reg.wf() && reg.aggs() == self.aggs() && self.aggs().len() > 0
                    && reg.table() == Map::<Seq<char>, Entry<B::State>>::empty(),
                None => self.aggs().len() == 0,
            },
    {
        if self.aggregators.len() == 0 {
            return None;
        }
        let mut reg = AggregatorRegistry::new();
        let mut i: usize = 0;
        assert(self.aggs().take(0) =~= Seq::<AggregatorView<B>>::empty());
        while i < self.aggregators.len()
            invariant
                i <= self.aggregators@.len(),
                reg.wf(),
                reg.aggs() == self.aggs().take(i as int),
                reg.table() == Map::<Seq<char>, Entry<B::State>>::empty(),
            decreases self.aggregators@.len() - i,
        {
            reg.register(self.aggregators[i].copy());
            assert(self.aggs().take(i + 1) =~= self.aggs().take(i as int).push(
                self.aggs()[i as int],
            ));
            i += 1;
        }
        assert(self.aggs().take(i as int) =~= self.aggs());
        Some(reg)
    }

    /// Builds the engine. It fails exactly where an aggregator is of an event
    /// kind without a name. Every consumer gets a registry of its own, apart
    /// from the engine's. The cursors of `reactor_seeds` are to be set before
    /// any consumer runs.
    pub fn build(self) -> (r: Result<Engine<B>, Error>)
        requires
            self.wf(),
        ensures
            match r {
                Ok(engine) => {
                    &&& engine.wf()
                    &&& forall|i: int|
                        0 <= i < self.aggs().len() ==> (
                        #[trigger] self.aggs()[i]).event_prefix.len() > 0
                    &&& is_fresh_registry(engine.aggregators, self.aggs())
                    &&& engine.consumers@.len() == self.consumer_names@.len()
                    &&& forall|i: int|
                        0 <= i < engine.consumers@.len() ==> (#[trigger] engine.consumers@[i]).name
                            == self.consumer_names@[i] && is_fresh_registry(
                            engine.consumers@[i].aggregators,
                            self.aggs(),
                        )
                    &&& engine.occ_categories == self.occ_categories
                    &&& engine.default_metadata == self.default_metadata
                    &&& engine.workflow_hw@ == Map::<u128, LogCursor>::empty()
                    &&& engine.snapshot_every == self.snapshot_every
                    &&& engine.max_attempts == self.max_attempts
                    &&& engine.reactor_seeds == self.reactor_seeds
                },
                Err(e) => (e matches Error::Message(m) && m@ == empty_name_text(
                    "aggregator event"@,
                )) && exists|i: int|
                    0 <= i < self.aggs().len() && (
                    #[trigger] self.aggs()[i]).event_prefix.len() == 0,
            },
    {
        match self.validate() {
            Ok(()) => {},
            Err(e) => {
                return Err(e);
            },
        }
        let aggregators = self.make_registry();
        let mut consumers: Vec<Consumer<B>> = Vec::new();
        let mut i: usize = 0;
        while i < self.consumer_names.len()
            invariant
                i <= self.consumer_names@.len(),
                consumers@.len() == i,
                forall|j: int|
                    0 <= j < i ==> (#[trigger] consumers@[j]).name == self.consumer_names@[j]
                        && is_fresh_registry(consumers@[j].aggregators, self.aggs()),
            decreases self.consumer_names@.len() - i,
        {
            let name = self.consumer_names[i].clone();
            consumers.push(Consumer { name, aggregators: self.make_registry() });
            i += 1;
        }
        Ok(
            Engine {
                aggregators,
                consumers,
                occ_categories: self.occ_categories,
                default_metadata: self.default_metadata,
                workflow_hw: SettleTracker::new(),
                snapshot_every: self.snapshot_every,
                max_attempts: self.max_attempts,
                reactor_seeds: self.reactor_seeds,
            },
        )
    }
}

/// Whether a registry holds the aggregators and no state; there is none where
/// there are no aggregators.
pub open spec fn is_fresh_registry<B: FoldFns>(
    registry: Option<AggregatorRegistry<B>>,
    aggs: Seq<AggregatorView<B>>,
) -> bool {
    match registry {
        Some(reg) => reg.wf() && reg.aggs() == aggs && aggs.len() > 0 && reg.table() == Map::<
            Seq<char>,
            Entry<B::State>,
        >::empty(),
        None => aggs.len() == 0,
    }
}

/// A registered consumer with its registry.
pub struct Consumer<B: FoldFns> {
    pub name: String,
    pub aggregators: Option<AggregatorRegistry<B>>,
}

/// What an engine holds in memory.
pub struct Engine<B: FoldFns> {
    /// The registry for reads from outside of consumers.
    pub aggregators: Option<AggregatorRegistry<B>>,
    pub consumers: Vec<Consumer<B>>,
    /// The event kinds that are closed to plain emits.
    pub occ_categories: Vec<String>,
    pub default_metadata: Metadata,
    /// How far the chain of each workflow has reached.
    pub workflow_hw: SettleTracker,
    pub snapshot_every: u64,
    pub max_attempts: u32,
    pub reactor_seeds: Vec<ReactorSeed>,
}

/// A named entry point for signals from outside.
pub struct Boundary<'a> {
    pub name: &'a str,
}

impl<'a> Boundary<'a> {
    /// An emit whose facts carry the name as `_origin`.
    pub fn emit(&self, input: EmitInput) -> (b: EmitBuilder)
        ensures
            b.wf(),
            b.input == input,
            b.workflow_id is None,
            b.causation_id is None,
            members_map(member_views(b.metadata@)) == Map::<Seq<char>, JsonView>::empty().insert(
                "_origin"@,
                JsonView::Str(self.name@),
            ),
    {
        boundary_emit(self.name, input)
    }
}

impl<B: FoldFns> Engine<B> {
    pub open spec fn wf(&self) -> bool {
        &&& ordered(member_views(self.default_metadata@))
        &&& (self.aggregators matches Some(reg) ==> reg.wf())
    }

    /// An emit of facts, with an empty envelope.
    pub fn emit(&self, input: EmitInput) -> (b: EmitBuilder)
        ensures
            b.wf(),
            b.input == input,
            b.workflow_id is None,
            b.causation_id is None,
            b.metadata@.len() == 0,
    {
        EmitBuilder::new(input)
    }

    /// A named entry point.
    pub fn boundary<'a>(&self, name: &'a str) -> (boundary: Boundary<'a>)
        ensures
            boundary.name == name,
    {
        Boundary { name }
    }

    /// Begins an emit; see [`execute_emit`].
    pub fn execute_emit<K: Clock>(&self, b: &EmitBuilder, clock: &K) -> (start: Result<
        EmitStart,
        Error,
    >)
        requires
            self.wf(),
            b.wf(),
        ensures
            exists|metadata: Seq<(Seq<char>, JsonView)>, fresh: u128, stamps: Seq<Stamp>|
                {
                    &&& ordered(metadata)
                    &&& members_map(metadata) == merged_map(
                        member_views(self.default_metadata@),
                        member_views(b.metadata@),
                    )
                    &&& stamps.len() == b.input.facts@.len()
                    &&& fresh != 0
                    &&& named_events(stamps)
                    &&& stamped_by(*clock, stamps)
                    &&& #[trigger] starts_as(
                        start,
                        fact_views(b.input.facts@),
                        b.workflow_id,
                        b.causation_id,
                        metadata,
                        self.occ_categories@,
                        fresh,
                        stamps,
                    )
                },
    {
        execute_emit(b, &self.default_metadata, &self.occ_categories, clock)
    }

    /// Whether a state read has to restore the aggregate first: it is not
    /// held, and there is something to restore it from.
    pub fn needs_restore(&self, aggregate_type: &str, id: u128, has_snapshot_store: bool) -> (needed:
        bool)
        requires
            self.wf(),
        ensures
            needed == (self.aggregators matches Some(reg) && !reg.table().contains_key(
                state_key(aggregate_type@, id),
            ) && has_snapshot_store),
    {
        match &self.aggregators {
            Some(reg) => {
                let key = state_key_text(aggregate_type, id);
                !reg.has_state(key.as_str()) && has_snapshot_store
            },
            None => false,
        }
    }

    /// The state of an aggregate, where one is held.
    pub fn state_of(&self, aggregate_type: &str, id: u128) -> (state: Option<B::State>)
        requires
            self.wf(),
            self.aggregators matches Some(reg) && first_of_type(reg.aggs(), aggregate_type@)
                is Some,
        ensures
            state == (if self.aggregators->0.table().contains_key(state_key(aggregate_type@, id)) {
                Some(self.aggregators->0.table()[state_key(aggregate_type@, id)].state)
            } else {
                None
            }),
    {
        match &self.aggregators {
            Some(reg) => {
                let key = state_key_text(aggregate_type, id);
                if !reg.has_state(key.as_str()) {
                    return None;
                }
                let (_, curr) = reg.get_transition(aggregate_type, id);
                Some(curr)
            },
            None => None,
        }
    }

    /// Decides whether a workflow has drained, once every consumer has drained
    /// it to `hw`.
    pub fn settle(&mut self, result: EmitResult, hw: LogCursor) -> (step: SettleStep)
        ensures
            ({
                let next = next_target(old(self).workflow_hw@, result, hw);
                if next == hw {
                    step == SettleStep::Done && final(self).workflow_hw@
                        == old(self).workflow_hw@.remove(result.workflow_id)
                } else {
                    step == (SettleStep::Again { hw: next }) && final(self).workflow_hw@
                        == old(self).workflow_hw@
                }
            }),
            final(self).aggregators == old(self).aggregators,
            final(self).consumers == old(self).consumers,
            final(self).occ_categories == old(self).occ_categories,
            final(self).default_metadata == old(self).default_metadata,
            final(self).snapshot_every == old(self).snapshot_every,
            final(self).max_attempts == old(self).max_attempts,
            final(self).reactor_seeds == old(self).reactor_seeds,
    {
        settle(&mut self.workflow_hw, result, hw)
    }
}

proof fn lemma_closed_after<B>(
    before: Seq<String>,
    after: Seq<String>,
    aggs: Seq<AggregatorView<B>>,
    agg: AggregatorView<B>,
)
    requires
        forall|k: Seq<char>| #[trigger] listed(before, k) <==> is_closed(aggs, k),
        if agg.invariant {
            after.len() == before.len() + 1 && after.drop_last() == before && after.last()@
                == agg.event_prefix
        } else {
            after == before
        },
    ensures
        forall|k: Seq<char>| #[trigger] listed(after, k) <==> is_closed(aggs.push(agg), k),
{
    let more = aggs.push(agg);
    assert forall|k: Seq<char>| #[trigger] listed(after, k) <==> is_closed(more, k) by {
        if listed(after, k) {
            let i = choose|i: int| 0 <= i < after.len() && (#[trigger] after[i])@ == k;
            if i < before.len() {
                assert(before[i]@ == k) by {
                    if agg.invariant {
                        assert(after.drop_last()[i] == after[i]);
                    }
                }
                assert(listed(before, k));
                let j = choose|j: int|
                    0 <= j < aggs.len() && (#[trigger] aggs[j]).invariant && aggs[j].event_prefix
                        == k;
                assert(more[j].event_prefix == k);
            } else {
                assert(more[aggs.len() as int].event_prefix == k);
            }
        }
        if is_closed(more, k) {
            let j = choose|j: int|
                0 <= j < more.len() && (#[trigger] more[j]).invariant && more[j].event_prefix == k;
            if j < aggs.len() {
                assert(aggs[j].event_prefix == k);
                assert(is_closed(aggs, k));
                assert(listed(before, k));
                let i = choose|i: int| 0 <= i < before.len() && (#[trigger] before[i])@ == k;
                assert(after[i]@ == k) by {
                    if agg.invariant {
                        assert(after.drop_last()[i] == after[i]);
                    }
                }
            } else {
                assert(after[after.len() - 1]@ == k);
            }
        }
    }
}

/// A new reactor never sees what was in the log before it; one that has a
/// cursor resumes there unless it is told to skip or to go elsewhere.
pub proof fn law_new_reactors_skip_history(
    start: StartPosition,
    existing: Option<LogCursor>,
    latest: LogCursor,
)
    ensures
        seed_of(StartPosition::ResumeOrLatest, None, latest) == Some(latest),
        existing is Some ==> seed_of(StartPosition::ResumeOrLatest, existing, latest) is None,
        start != StartPosition::ResumeOrLatest ==> seed_of(start, existing, latest) is Some,
{
}

/// A reactor that is told where to start is given exactly that, whatever
/// cursor is stored and wherever the log ends: the beginning of the log, its
/// end, or the position named. One that resumes is given the end of the log
/// only where no cursor is stored, and nothing where one is.
pub proof fn law_told_starts_ignore_the_past(
    start: StartPosition,
    existing: Option<LogCursor>,
    latest: LogCursor,
    seed: Option<LogCursor>,
)
    requires
        call_ensures(seed_for, (start, existing, latest), seed),
    ensures
        start is Zero ==> (seed matches Some(c) && c.0 == 0),
        start is Latest ==> (seed matches Some(c) && c.0 == latest.0),
        start matches StartPosition::Specific(told) ==> (seed matches Some(c) && c.0 == told.0),
        start is ResumeOrLatest && existing is Some ==> seed is None,
        start is ResumeOrLatest && existing is None ==> (seed matches Some(c) && c.0 == latest.0),
{
}

/// The end of the log is looked up exactly where it decides: wherever it is not
/// needed, any two ends of the log give the same seed.
pub proof fn law_seed_needs_the_end_only_when_told(
    start: StartPosition,
    existing: Option<LogCursor>,
    needed: bool,
    a: LogCursor,
    b: LogCursor,
    seed_a: Option<LogCursor>,
    seed_b: Option<LogCursor>,
)
    requires
        call_ensures(needs_latest, (start, existing), needed),
        call_ensures(seed_for, (start, existing, a), seed_a),
        call_ensures(seed_for, (start, existing, b), seed_b),
        a.0 != b.0,
    ensures
        needed <==> seed_a != seed_b,
{
}

/// A reactor is registered under its name and starts where it was told to, or
/// resumes where it was told nothing. A projector is only registered: it is
/// never given a place to start. Neither changes anything else.
pub proof fn law_consumers_are_registered<B: FoldFns>(
    b: EngineBuilder<B>,
    name: &str,
    start: StartPosition,
    projecting: EngineBuilder<B>,
    many: EngineBuilder<B>,
    resuming: EngineBuilder<B>,
    told: EngineBuilder<B>,
)
    requires
        call_ensures(EngineBuilder::<B>::with_projector, (b, name), projecting),
        call_ensures(EngineBuilder::<B>::with_multi_projector, (b, name), many),
        call_ensures(EngineBuilder::<B>::with_reactor, (b, name), resuming),
        call_ensures(EngineBuilder::<B>::with_reactor_start, (b, name, start), told),
    ensures
        forall|after: EngineBuilder<B>|
            after == projecting || after == many || after == resuming || after == told ==> {
                &&& (#[trigger] after.consumer_names@).len() == b.consumer_names@.len() + 1
                &&& after.consumer_names@[b.consumer_names@.len() as int]@ == name@
                &&& forall|i: int|
                    0 <= i < b.consumer_names@.len() ==> #[trigger] after.consumer_names@[i]
                        == b.consumer_names@[i]
                &&& after.aggregators == b.aggregators
                &&& after.occ_categories == b.occ_categories
                &&& after.default_metadata == b.default_metadata
                &&& after.max_attempts == b.max_attempts
                &&& after.snapshot_every == b.snapshot_every
            },
        projecting.reactor_seeds == b.reactor_seeds,
        many.reactor_seeds == b.reactor_seeds,
        forall|after: EngineBuilder<B>|
            after == resuming || after == told ==> {
                &&& (#[trigger] after.reactor_seeds@).len() == b.reactor_seeds@.len() + 1
                &&& after.reactor_seeds@[b.reactor_seeds@.len() as int].consumer@ == name@
                &&& forall|i: int|
                    0 <= i < b.reactor_seeds@.len() ==> #[trigger] after.reactor_seeds@[i]
                        == b.reactor_seeds@[i]
            },
        resuming.reactor_seeds@[b.reactor_seeds@.len() as int].start is ResumeOrLatest,
        told.reactor_seeds@[b.reactor_seeds@.len() as int].start == start,
{
    assert forall|after: EngineBuilder<B>|
        after == projecting || after == many || after == resuming || after == told implies {
        &&& (#[trigger] after.consumer_names@).len() == b.consumer_names@.len() + 1
        &&& after.consumer_names@[b.consumer_names@.len() as int]@ == name@
        &&& forall|i: int|
            0 <= i < b.consumer_names@.len() ==> #[trigger] after.consumer_names@[i]
                == b.consumer_names@[i]
        &&& after.aggregators == b.aggregators
        &&& after.occ_categories == b.occ_categories
        &&& after.default_metadata == b.default_metadata
        &&& after.max_attempts == b.max_attempts
        &&& after.snapshot_every == b.snapshot_every
    } by {
        assert forall|i: int| 0 <= i < b.consumer_names@.len() implies #[trigger] after.consumer_names@[i]
            == b.consumer_names@[i] by {
            assert(after.consumer_names@.drop_last()[i] == after.consumer_names@[i]);
        }
    }
    assert forall|after: EngineBuilder<B>| after == resuming || after == told implies {
        &&& (#[trigger] after.reactor_seeds@).len() == b.reactor_seeds@.len() + 1
        &&& after.reactor_seeds@[b.reactor_seeds@.len() as int].consumer@ == name@
        &&& forall|i: int|
            0 <= i < b.reactor_seeds@.len() ==> #[trigger] after.reactor_seeds@[i]
                == b.reactor_seeds@[i]
    } by {
        assert forall|i: int| 0 <= i < b.reactor_seeds@.len() implies #[trigger] after.reactor_seeds@[i]
            == b.reactor_seeds@[i] by {
            assert(after.reactor_seeds@.drop_last()[i] == after.reactor_seeds@[i]);
        }
    }
}

/// A consumer name is refused exactly where one that is registered is the
/// same; an aggregator exactly where one of the same type folds the same kind.
pub proof fn law_duplicates_are_refused<B: FoldFns>(
    b: &EngineBuilder<B>,
    name: &str,
    agg: &Aggregator<B>,
    name_refused: Option<String>,
    agg_refused: Option<String>,
)
    requires
        call_ensures(EngineBuilder::<B>::refuse_name, (b, name), name_refused),
        call_ensures(EngineBuilder::<B>::refuse_aggregator, (b, agg), agg_refused),
    ensures
        name_refused is Some <==> exists|i: int|
            0 <= i < b.consumer_names@.len() && (#[trigger] b.consumer_names@[i])@ == name@,
        agg_refused is Some <==> exists|i: int|
            0 <= i < b.aggregators@.len() && (#[trigger] b.aggregators@[i]).aggregate_type@
                == agg.aggregate_type@ && b.aggregators@[i].event_prefix@ == agg.event_prefix@,
{
    if name_refused is Some {
        let i = choose|i: int|
            0 <= i < b.consumer_names@.len() && (#[trigger] b.consumer_names@[i])@ == name@;
        assert(b.consumer_names@[i]@ == name@);
    }
    assert forall|i: int| 0 <= i < b.aggregators@.len() implies (#[trigger] b.aggs()[i])
        == b.aggregators@[i]@ by {}
    if agg_refused is Some {
        let i = choose|i: int| 0 <= i < b.aggs().len() && collide(#[trigger] b.aggs()[i], agg@);
        assert(b.aggregators@[i].aggregate_type@ == agg.aggregate_type@);
    } else {
        assert forall|i: int| 0 <= i < b.aggregators@.len() implies !((
        #[trigger] b.aggregators@[i]).aggregate_type@ == agg.aggregate_type@
            && b.aggregators@[i].event_prefix@ == agg.event_prefix@) by {
            assert(!collide(b.aggs()[i], agg@));
        }
    }
}

/// Aggregators are added in order, behind those already there, and a kind is
/// closed to plain emits exactly where one of them all declares it so.
pub proof fn law_declared_kinds_are_closed<B: FoldFns>(
    b: EngineBuilder<B>,
    aggregators: Vec<Aggregator<B>>,
    after: EngineBuilder<B>,
)
    requires
        call_ensures(EngineBuilder::<B>::with_aggregators, (b, aggregators), after),
    ensures
        after.aggregators@.len() == b.aggregators@.len() + aggregators@.len(),
        forall|i: int|
            0 <= i < b.aggregators@.len() ==> (#[trigger] after.aggregators@[i])@
                == b.aggregators@[i]@,
        forall|i: int|
            0 <= i < aggregators@.len() ==> after.aggregators@[b.aggregators@.len() + i]@ == (
            #[trigger] aggregators@[i])@,
        forall|kind: Seq<char>|
            (exists|k: int|
                0 <= k < after.occ_categories@.len() && (#[trigger] after.occ_categories@[k])@
                    == kind) <==> #[trigger] declared_closed(after.aggregators@, kind),
        after.consumer_names == b.consumer_names,
        after.default_metadata == b.default_metadata,
        after.reactor_seeds == b.reactor_seeds,
{
    assert(after.aggs() == b.aggs() + aggregator_views(aggregators@));
    assert(after.aggs().len() == after.aggregators@.len());
    assert forall|i: int| 0 <= i < b.aggregators@.len() implies (
    #[trigger] after.aggregators@[i])@ == b.aggregators@[i]@ by {
        assert(after.aggs()[i] == b.aggs()[i]);
    }
    assert forall|i: int| 0 <= i < aggregators@.len() implies after.aggregators@[b.aggregators@.len()
        + i]@ == (#[trigger] aggregators@[i])@ by {
        assert(after.aggs()[b.aggregators@.len() + i] == aggregator_views(aggregators@)[i]);
    }
    assert forall|kind: Seq<char>|
        (exists|k: int|
            0 <= k < after.occ_categories@.len() && (#[trigger] after.occ_categories@[k])@ == kind)
            <==> #[trigger] declared_closed(after.aggregators@, kind) by {
        assert(listed(after.occ_categories@, kind) <==> is_closed(after.aggs(), kind));
        if is_closed(after.aggs(), kind) {
            let j = choose|j: int|
                0 <= j < after.aggs().len() && (#[trigger] after.aggs()[j]).invariant
                    && after.aggs()[j].event_prefix == kind;
            assert(after.aggregators@[j].invariant);
        }
        if declared_closed(after.aggregators@, kind) {
            let j = choose|j: int|
                0 <= j < after.aggregators@.len() && (#[trigger] after.aggregators@[j]).invariant
                    && after.aggregators@[j].event_prefix@ == kind;
            assert(after.aggs()[j].invariant);
        }
        if listed(after.occ_categories@, kind) {
            let k = choose|k: int|
                0 <= k < after.occ_categories@.len() && (#[trigger] after.occ_categories@[k])@
                    == kind;
            assert(after.occ_categories@[k]@ == kind);
        }
    }
}

/// Whether an aggregator of a list declares a kind closed to plain emits.
pub open spec fn declared_closed<B: FoldFns>(aggs: Seq<Aggregator<B>>, kind: Seq<char>) -> bool {
    exists|i: int|
        0 <= i < aggs.len() && (#[trigger] aggs[i]).invariant && aggs[i].event_prefix@ == kind
}

/// An engine is built exactly where every aggregator's kind has a name. Each of
/// its consumers, in order and under its own name, folds into a registry apart
/// from the others and from the engine's, with every aggregator and no state.
/// All else is as it was set.
pub proof fn law_engine_is_what_was_registered<B: FoldFns>(
    b: EngineBuilder<B>,
    r: Result<Engine<B>, Error>,
)
    requires
        call_ensures(EngineBuilder::<B>::build, (b,), r),
    ensures
        r is Err <==> exists|i: int|
            0 <= i < b.aggregators@.len() && (#[trigger] b.aggregators@[i]).event_prefix@.len()
                == 0,
        r matches Ok(engine) ==> {
            &&& engine.consumers@.len() == b.consumer_names@.len()
            &&& forall|i: int|
                0 <= i < engine.consumers@.len() ==> (#[trigger] engine.consumers@[i]).name
                    == b.consumer_names@[i] && (match engine.consumers@[i].aggregators {
                    Some(reg) => b.aggregators@.len() > 0 && reg.aggs() == b.aggs()
                        && reg.table().dom().is_empty(),
                    None => b.aggregators@.len() == 0,
                })
            &&& match engine.aggregators {
                Some(reg) => b.aggregators@.len() > 0 && reg.aggs() == b.aggs()
                    && reg.table().dom().is_empty(),
                None => b.aggregators@.len() == 0,
            }
            &&& engine.workflow_hw@.dom().is_empty()
            &&& engine.occ_categories == b.occ_categories
            &&& engine.default_metadata == b.default_metadata
            &&& engine.snapshot_every == b.snapshot_every
            &&& engine.max_attempts == b.max_attempts
            &&& engine.reactor_seeds == b.reactor_seeds
        },
{
    assert forall|i: int| 0 <= i < b.aggregators@.len() implies (#[trigger] b.aggs()[i])
        == b.aggregators@[i]@ by {}
    match r {
        Ok(engine) => {
            assert forall|i: int| 0 <= i < b.aggregators@.len() implies (
            #[trigger] b.aggregators@[i]).event_prefix@.len() > 0 by {
                assert(b.aggs()[i].event_prefix.len() > 0);
            }
            assert(Map::<Seq<char>, Entry<B::State>>::empty().dom().is_empty());
            assert(Map::<u128, LogCursor>::empty().dom().is_empty());
        },
        Err(_) => {
            let i = choose|i: int|
                0 <= i < b.aggs().len() && (#[trigger] b.aggs()[i]).event_prefix.len() == 0;
            assert(b.aggregators@[i].event_prefix@.len() == 0);
        },
    }
}

/// What was set is what is kept, and nothing else changes.
pub proof fn law_settings_are_kept<B: FoldFns>(
    b: EngineBuilder<B>,
    attempts: u32,
    every: u64,
    defaults: Metadata,
    tried: EngineBuilder<B>,
    saved: EngineBuilder<B>,
    marked: EngineBuilder<B>,
)
    requires
        call_ensures(EngineBuilder::<B>::with_max_attempts, (b, attempts), tried),
        call_ensures(EngineBuilder::<B>::with_snapshot_every, (tried, every), saved),
        call_ensures(EngineBuilder::<B>::with_default_metadata, (saved, defaults), marked),
    ensures
        marked.max_attempts == attempts,
        marked.snapshot_every == every,
        marked.default_metadata == defaults,
        saved.default_metadata == b.default_metadata,
        marked.aggregators == b.aggregators,
        marked.consumer_names == b.consumer_names,
        marked.occ_categories == b.occ_categories,
        marked.reactor_seeds == b.reactor_seeds,
{
}

/// A state read restores only what is not held, and only where there is
/// something to restore it from; a state that is held is what is read.
pub proof fn law_reads_restore_what_is_missing<B: FoldFns>(
    engine: &Engine<B>,
    aggregate_type: &str,
    id: u128,
    has_snapshot_store: bool,
    needed: bool,
    state: Option<B::State>,
)
    requires
        engine.aggregators is Some,
        call_ensures(
            Engine::<B>::needs_restore,
            (engine, aggregate_type, id, has_snapshot_store),
            needed,
        ),
        call_ensures(Engine::<B>::state_of, (engine, aggregate_type, id), state),
    ensures
        needed <==> has_snapshot_store && state is None,
        state matches Some(s) ==> {
            let key = state_key(aggregate_type@, id);
            engine.aggregators->0.table().contains_key(key) && engine.aggregators->0.table()[key].state
                == s
        },
{
}

/// A kind that is closed to plain emits never gets past one: a batch with a
/// fact of it is refused as a whole.
pub proof fn law_closed_kinds_are_refused<B: FoldFns, K: Clock>(
    engine: &Engine<B>,
    b: &EmitBuilder,
    clock: &K,
    r: Result<EmitStart, Error>,
    i: int,
    k: int,
)
    requires
        call_ensures(Engine::<B>::execute_emit::<K>, (engine, b, clock), r),
        0 <= i < b.input.facts@.len(),
        0 <= k < engine.occ_categories@.len(),
        b.input.facts@[i].name@ == engine.occ_categories@[k]@,
    ensures
        r is Err,
{
    let views = fact_views(b.input.facts@);
    assert(views[i].name == engine.occ_categories@[k]@);
    assert(listed(engine.occ_categories@, views[i].name));
    lemma_no_refusal(views, engine.occ_categories@, views.len());
}

/// An emit of an engine is an emit under its metadata and its closed kinds:
/// what it writes is one workflow, an event for each fact in order.
pub proof fn law_engine_emits_one_workflow<B: FoldFns, K: Clock>(
    engine: &Engine<B>,
    b: &EmitBuilder,
    clock: &K,
    plan: EmitPlan,
)
    requires
        call_ensures(Engine::<B>::execute_emit::<K>, (engine, b, clock), Ok(EmitStart::Append(plan))),
    ensures
        written(plan.runs@).len() == b.input.facts@.len(),
        forall|i: int|
            0 <= i < b.input.facts@.len() ==> {
                let event = #[trigger] written(plan.runs@)[i];
                let fact = b.input.facts@[i];
                &&& event.workflow_id == plan.workflow_id
                &&& event.causation_id == b.causation_id
                &&& event.event_type@ == fact.name@
                &&& fact.payload matches Ok(json) && event.payload@ == json@
                &&& event.category matches Some(c) && c@ == fact.subject@
                &&& event.subject_id == Some(fact.subject_id)
            },
        b.workflow_id matches Some(asked) ==> plan.workflow_id == asked,
{
    let facts = b.input.facts@;
    let start = Ok::<EmitStart, Error>(EmitStart::Append(plan));
    let (metadata, fresh, stamps) = choose|
        metadata: Seq<(Seq<char>, JsonView)>,
        fresh: u128,
        stamps: Seq<Stamp>,
    |
        {
            &&& ordered(metadata)
            &&& members_map(metadata) == merged_map(
                member_views(engine.default_metadata@),
                member_views(b.metadata@),
            )
            &&& stamps.len() == b.input.facts@.len()
            &&& fresh != 0
            &&& named_events(stamps)
            &&& stamped_by(*clock, stamps)
            &&& #[trigger] starts_as(
                start,
                fact_views(b.input.facts@),
                b.workflow_id,
                b.causation_id,
                metadata,
                engine.occ_categories@,
                fresh,
                stamps,
            )
        };
    lemma_no_refusal(fact_views(facts), engine.occ_categories@, facts.len());
    assert(fact_views(facts).len() == facts.len());
    assert forall|i: int| 0 <= i < facts.len() implies (#[trigger] facts[i]).payload is Ok by {
        assert(fact_views(facts)[i].payload is Ok);
    }
    lemma_plan_fields(plan.runs@, facts, plan.workflow_id, b.causation_id, metadata, stamps);
}

} // verus!
