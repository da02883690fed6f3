//! Consumers that see every event of the log, whatever its kind.

use vstd::prelude::*;

use crate::aggregator::FoldFns;
use crate::checkpoint_store::{cursor_at, CheckpointStore};
use crate::failure::Error;
use crate::folding_runner::FoldingRunner;
use crate::registry::AggregatorRegistry;
use crate::supervise::StepOutcome;
use crate::types::{LogCursor, RecordedEvent};

verus! {

/// A consumer of every event. It is called at least once for each, and has to
/// be idempotent on the event's id.
pub trait AnyMaterializer: Sized {
    /// Whether being handed `event` may end in `r` and leave the consumer as
    /// `after`.
    spec fn takes(&self, event: RecordedEvent, r: Result<(), Error>, after: Self) -> bool;

    fn materialize(&mut self, event: &RecordedEvent) -> (r: Result<(), Error>)
        ensures
            old(self).takes(*event, r, *final(self)),
    ;
}

/// Runs a consumer of every event.
pub struct AnyMaterializerRunner<M: AnyMaterializer> {
    pub materializer: M,
    pub consumer_id: String,
    /// The consumers that must not be behind this one.
    pub depends_on: Vec<String>,
}

/// Where a consumer stands; at the beginning where nothing is stored.
pub open spec fn stands_at(cursors: Map<Seq<char>, LogCursor>, consumer_id: Seq<char>) -> LogCursor {
    match cursor_at(cursors, consumer_id) {
        Some(c) => c,
        None => LogCursor(0),
    }
}

/// Whether a dependency is behind a position.
pub open spec fn is_behind(
    cursors: Map<Seq<char>, LogCursor>,
    dep: Seq<char>,
    cursor: LogCursor,
) -> bool {
    stands_at(cursors, dep).0 < cursor.0
}

/// Whether `outcome` reports the first dependency that is behind.
pub open spec fn waits_on(
    outcome: StepOutcome,
    cursors: Map<Seq<char>, LogCursor>,
    depends_on: Seq<String>,
    cursor: LogCursor,
) -> bool {
    outcome matches StepOutcome::WaitOnDep { dep, cursor: c, dep_cursor } && c == cursor && exists|
        i: int,
    |
        {
            &&& 0 <= i < depends_on.len()
            &&& is_behind(cursors, (#[trigger] depends_on[i])@, cursor)
            &&& dep@ == depends_on[i]@
            &&& dep_cursor == stands_at(cursors, depends_on[i]@)
            &&& forall|j: int|
                0 <= j < i ==> !is_behind(cursors, (#[trigger] depends_on[j])@, cursor)
        }
}

/// Whether no dependency is behind.
pub open spec fn fence_open(
    cursors: Map<Seq<char>, LogCursor>,
    depends_on: Seq<String>,
    cursor: LogCursor,
) -> bool {
    forall|i: int|
        0 <= i < depends_on.len() ==> !is_behind(cursors, (#[trigger] depends_on[i])@, cursor)
}

/// Whether reading a consumer's cursor may fail with `e`.
pub open spec fn read_fails<C: CheckpointStore>(
    checkpoint: C,
    consumer_id: Seq<char>,
    e: Error,
) -> bool {
    exists|id: &str|
        id@ == consumer_id && #[trigger] call_ensures(C::get, (&checkpoint, id), Err(e))
}

/// Whether finding out where a consumer stands fails with `e`: its own cursor
/// cannot be read, or that of a dependency with none before it behind.
pub open spec fn fence_fails<C: CheckpointStore>(
    checkpoint: C,
    consumer_id: Seq<char>,
    depends_on: Seq<String>,
    e: Error,
) -> bool {
    ||| read_fails(checkpoint, consumer_id, e)
    ||| exists|i: int|
        {
            &&& 0 <= i < depends_on.len()
            &&& read_fails(checkpoint, (#[trigger] depends_on[i])@, e)
            &&& fence_open(
                checkpoint.cursors(),
                depends_on.take(i),
                stands_at(checkpoint.cursors(), consumer_id),
            )
        }
}

/// The cursors once a consumer is past `events`.
pub open spec fn moved(
    cursors: Map<Seq<char>, LogCursor>,
    consumer_id: Seq<char>,
    events: Seq<RecordedEvent>,
) -> Map<Seq<char>, LogCursor> {
    if events.len() == 0 {
        cursors
    } else {
        cursors.insert(consumer_id, events.last().position)
    }
}

/// Whether handing `events` to a consumer, each once and in order, may bring it
/// from `before` to `after` with every one of them taken.
pub open spec fn took_all<M: AnyMaterializer>(
    before: M,
    events: Seq<RecordedEvent>,
    after: M,
) -> bool
    decreases events.len(),
{
    if events.len() == 0 {
        after == before
    } else {
        exists|mid: M|
            took_all(before, events.drop_last(), mid) && #[trigger] mid.takes(
                events.last(),
                Ok(()),
                after,
            )
    }
}

/// Whether a consumer may take the first `n` events and refuse the next with
/// `e`.
pub open spec fn refused<M: AnyMaterializer>(
    before: M,
    events: Seq<RecordedEvent>,
    n: int,
    e: Error,
    after: M,
) -> bool {
    exists|mid: M|
        took_all(before, events.take(n), mid) && #[trigger] mid.takes(events[n], Err(e), after)
}

impl<M: AnyMaterializer> AnyMaterializerRunner<M> {
    pub open spec fn id(&self) -> Seq<char> {
        self.consumer_id@
    }

    pub open spec fn dependencies(&self) -> Seq<String> {
        self.depends_on@
    }

    pub fn new(materializer: M, consumer_id: &str, depends_on: Vec<String>) -> (runner: Self)
        ensures
            runner.materializer == materializer,
            runner.id() == consumer_id@,
            runner.dependencies() == depends_on@,
    {
        AnyMaterializerRunner { materializer, consumer_id: consumer_id.to_owned(), depends_on }
    }

    /// The runner with aggregators that fold every event before it is handed
    /// over.
    pub fn with_aggregators<B: FoldFns>(self, aggregators: AggregatorRegistry<B>) -> (runner:
        FoldingRunner<M, B>)
        ensures
            runner.runner == self,
            runner.aggregators == aggregators,
    {
        FoldingRunner { runner: self, aggregators }
    }

    pub fn consumer_id(&self) -> (id: &str)
        ensures
            id@ == self.id(),
    {
        self.consumer_id.as_str()
    }

    /// Where the consumer stands, or why it has to wait.
    pub fn fence<C: CheckpointStore>(&self, checkpoint: &C) -> (r: Result<
        Result<LogCursor, StepOutcome>,
        Error,
    >)
        ensures
            match r {
                Ok(Ok(cursor)) => cursor == stands_at(checkpoint.cursors(), self.id()) && fence_open(
                    checkpoint.cursors(),
                    self.dependencies(),
                    cursor,
                ),
                Ok(Err(outcome)) => waits_on(
                    outcome,
                    checkpoint.cursors(),
                    self.dependencies(),
                    stands_at(checkpoint.cursors(), self.id()),
                ),
                Err(e) => fence_fails(*checkpoint, self.id(), self.dependencies(), e),
            },
    {
        let ghost cursors = checkpoint.cursors();
        let cursor = match checkpoint.get(self.consumer_id.as_str()) {
            Ok(Some(c)) => c,
            Ok(None) => LogCursor::zero(),
            Err(e) => {
                return Err(e);
            },
        };
        let mut i: usize = 0;
        while i < self.depends_on.len()
            invariant
                i <= self.depends_on@.len(),
                cursors == checkpoint.cursors(),
                cursor == stands_at(cursors, self.id()),
                forall|j: int|
                    0 <= j < i ==> !is_behind(cursors, (#[trigger] self.depends_on@[j])@, cursor),
            decreases self.depends_on@.len() - i,
        {
            let dep_cursor = match checkpoint.get(self.depends_on[i].as_str()) {
                Ok(Some(c)) => c,
                Ok(None) => LogCursor::zero(),
                Err(e) => {
                    assert(read_fails(*checkpoint, self.depends_on@[i as int]@, e));
                    assert forall|j: int| 0 <= j < i implies !is_behind(
                        cursors,
                        (#[trigger] self.depends_on@.take(i as int)[j])@,
                        cursor,
                    ) by {
                        assert(self.depends_on@.take(i as int)[j] == self.depends_on@[j]);
                    }
                    return Err(e);
                },
            };
            if dep_cursor.0 < cursor.0 {
                assert(is_behind(cursors, self.depends_on@[i as int]@, cursor));
                return Ok(
                    Err(
                        StepOutcome::WaitOnDep {
                            dep: self.depends_on[i].clone(),
                            cursor,
                            dep_cursor,
                        },
                    ),
                );
            }
            i += 1;
        }
        Ok(Ok(cursor))
    }

    /// One step: the events that follow the consumer's cursor are handed to
    /// it, in order, and the cursor moves past each as soon as it was taken.
    /// Where a dependency is behind, nothing is handed over. The first event
    /// that the consumer refuses, or whose position cannot be stored, ends the
    /// step with that error; what was taken before it stays taken.
    pub fn step<C: CheckpointStore>(
        &mut self,
        checkpoint: &mut C,
        events: &Vec<RecordedEvent>,
    ) -> (r: Result<StepOutcome, Error>)
        ensures
            final(self).id() == old(self).id(),
            final(self).dependencies() == old(self).dependencies(),
            ({
                let cursors = old(checkpoint).cursors();
                let id = old(self).id();
                let open = fence_open(cursors, old(self).dependencies(), stands_at(cursors, id));
                let same = *final(self) == *old(self) && *final(checkpoint) == *old(checkpoint);
                let before = old(self).materializer;
                let after = final(self).materializer;
                match r {
                    Ok(outcome) => if !open {
                        same && waits_on(
                            outcome,
                            cursors,
                            old(self).dependencies(),
                            stands_at(cursors, id),
                        )
                    } else if events@.len() == 0 {
                        same && outcome is Idle
                    } else {
                        &&& outcome == (StepOutcome::Progressed { applied: events@.len() as usize })
                        &&& final(checkpoint).cursors() == moved(cursors, id, events@)
                        &&& took_all(before, events@, after)
                    },
                    Err(e) => {
                        ||| same && fence_fails(
                            *old(checkpoint),
                            id,
                            old(self).dependencies(),
                            e,
                        )
                        ||| open && exists|n: int|
                            {
                                &&& 0 <= n < events@.len()
                                &&& #[trigger] refused(before, events@, n, e, after)
                                &&& final(checkpoint).cursors() == moved(
                                    cursors,
                                    id,
                                    events@.take(n),
                                )
                            }
                        ||| open && exists|n: int|
                            {
                                &&& 0 <= n < events@.len()
                                &&& #[trigger] took_all(before, events@.take(n + 1), after)
                                &&& exists|store: &mut C, name: &str|
                                    {
                                        &&& store.cursors() == moved(cursors, id, events@.take(n))
                                        &&& *final(store) == *final(checkpoint)
                                        &&& name@ == id
                                        &&& #[trigger] call_ensures(
                                            C::set,
                                            (store, name, events@[n].position),
                                            Err(e),
                                        )
                                    }
                            }
                    },
                }
            }),
    {
        match self.fence(checkpoint) {
            Ok(Ok(_)) => {},
            Ok(Err(outcome)) => {
                return Ok(outcome);
            },
            Err(e) => {
                return Err(e);
            },
        }
        if events.len() == 0 {
            return Ok(StepOutcome::Idle);
        }
        let ghost start = checkpoint.cursors();
        let ghost before = self.materializer;
        let mut applied: usize = 0;
        assert(events@.take(0) =~= Seq::<RecordedEvent>::empty());
        while applied < events.len()
            invariant
                applied <= events@.len(),
                self.id() == old(self).id(),
                self.dependencies() == old(self).dependencies(),
                start == old(checkpoint).cursors(),
                before == old(self).materializer,
                fence_open(start, old(self).dependencies(), stands_at(start, old(self).id())),
                checkpoint.cursors() == moved(start, old(self).id(), events@.take(applied as int)),
                took_all(before, events@.take(applied as int), self.materializer),
            decreases events@.len() - applied,
        {
            let event = &events[applied];
            let ghost mid = self.materializer;
            assert(events@.take(applied + 1).drop_last() =~= events@.take(applied as int));
            match self.materializer.materialize(event) {
                Ok(done) => {
                    assert(done == ());
                },
                Err(e) => {
                    assert(refused(before, events@, applied as int, e, self.materializer));
                    return Err(e);
                },
            }
            assert(events@.take(applied + 1).last() == *event);
            assert(took_all(before, events@.take(applied + 1), self.materializer));
            match checkpoint.set(self.consumer_id.as_str(), event.position) {
                Ok(()) => {},
                Err(e) => {
                    return Err(e);
                },
            }
            assert(checkpoint.cursors() =~= start.insert(old(self).id(), event.position));
            applied += 1;
        }
        assert(events@.take(applied as int) =~= events@);
        Ok(StepOutcome::Progressed { applied })
    }
}

/// What is to be done with a batch of the log while state is rebuilt up to a
/// cursor.
#[derive(Clone, Copy, Debug, PartialEq, Eq, Structural)]
pub struct Hydration {
    /// How many of the batch's leading events are folded.
    pub fold: usize,
    /// Where to read on from; `None` once the cursor is reached.
    pub read_from: Option<LogCursor>,
}

/// How many events of a batch are read in one go.
pub const HYDRATION_BATCH: usize = 1024;

/// Whether `h` is what is to be done with a batch.
pub open spec fn is_hydration(h: Hydration, cursor: LogCursor, batch: Seq<RecordedEvent>) -> bool {
    &&& h.fold <= batch.len()
    &&& forall|i: int| 0 <= i < h.fold ==> (#[trigger] batch[i]).position.0 <= cursor.0
    &&& h.fold < batch.len() ==> batch[h.fold as int].position.0 > cursor.0
    &&& h.read_from == (if h.fold == batch.len() && batch.len() > 0 && batch.last().position.0
        < cursor.0 {
        Some(batch.last().position)
    } else {
        None
    })
}

/// Decides what to do with a batch while state is rebuilt up to a cursor: its
/// events at or before the cursor are folded, up to the first that is past it,
/// and reading goes on while neither an event past the cursor was met nor the
/// cursor reached.
pub fn ensure_hydrated(cursor: LogCursor, batch: &Vec<RecordedEvent>) -> (h: Hydration)
    ensures
        is_hydration(h, cursor, batch@),
{
    let mut fold: usize = 0;
    while fold < batch.len() && batch[fold].position.0 <= cursor.0
        invariant
            fold <= batch@.len(),
            forall|i: int| 0 <= i < fold ==> (#[trigger] batch@[i]).position.0 <= cursor.0,
        decreases batch@.len() - fold,
    {
        fold += 1;
    }
    let read_from = if fold == batch.len() && batch.len() > 0 && batch[batch.len() - 1].position.0
        < cursor.0 {
        Some(batch[batch.len() - 1].position)
    } else {
        None
    };
    Hydration { fold, read_from }
}

/// A consumer goes on from its stored cursor, or from the beginning where none
/// is stored, and only where every consumer it depends on stands at or beyond
/// it. Else it waits for the first that does not, and says where both stand.
pub proof fn law_consumers_wait_for_dependencies<M: AnyMaterializer, C: CheckpointStore>(
    runner: &AnyMaterializerRunner<M>,
    checkpoint: &C,
    r: Result<LogCursor, StepOutcome>,
)
    requires
        call_ensures(AnyMaterializerRunner::<M>::fence::<C>, (runner, checkpoint), Ok(r)),
    ensures
        ({
            let cursors = checkpoint.cursors();
            let at = |id: Seq<char>| if cursors.contains_key(id) {
                cursors[id].0
            } else {
                0
            };
            let own = at(runner.consumer_id@);
            match r {
                Ok(cursor) => cursor.0 == own && forall|i: int|
                    0 <= i < runner.depends_on@.len() ==> at((#[trigger] runner.depends_on@[i])@)
                        >= own,
                Err(outcome) => outcome matches StepOutcome::WaitOnDep { dep, cursor, dep_cursor }
                    && cursor.0 == own && dep_cursor.0 < own && exists|i: int|
                    {
                        &&& 0 <= i < runner.depends_on@.len()
                        &&& dep@ == (#[trigger] runner.depends_on@[i])@
                        &&& dep_cursor.0 == at(runner.depends_on@[i]@)
                        &&& forall|j: int|
                            0 <= j < i ==> at((#[trigger] runner.depends_on@[j])@) >= own
                    },
            }
        }),
{
    let cursors = checkpoint.cursors();
    let at = |id: Seq<char>| if cursors.contains_key(id) {
        cursors[id].0
    } else {
        0
    };
    assert forall|id: Seq<char>| #[trigger] stands_at(cursors, id).0 == at(id) by {}
    let own = at(runner.consumer_id@);
    assert(own == stands_at(cursors, runner.id()).0);
    match r {
        Ok(cursor) => {
            assert forall|i: int| 0 <= i < runner.depends_on@.len() implies at(
                (#[trigger] runner.depends_on@[i])@,
            ) >= own by {
                assert(!is_behind(cursors, runner.depends_on@[i]@, cursor));
                assert(stands_at(cursors, runner.depends_on@[i]@).0 == at(
                    runner.depends_on@[i]@,
                ));
            }
        },
        Err(outcome) => {
            let cursor = stands_at(cursors, runner.id());
            let i = choose|i: int|
                {
                    &&& 0 <= i < runner.depends_on@.len()
                    &&& is_behind(cursors, (#[trigger] runner.depends_on@[i])@, cursor)
                    &&& outcome->dep@ == runner.depends_on@[i]@
                    &&& outcome->dep_cursor == stands_at(cursors, runner.depends_on@[i]@)
                    &&& forall|j: int|
                        0 <= j < i ==> !is_behind(
                            cursors,
                            (#[trigger] runner.depends_on@[j])@,
                            cursor,
                        )
                };
            assert forall|j: int| 0 <= j < i implies at((#[trigger] runner.depends_on@[j])@)
                >= own by {
                assert(!is_behind(cursors, runner.depends_on@[j]@, cursor));
                assert(stands_at(cursors, runner.depends_on@[j]@).0 == at(
                    runner.depends_on@[j]@,
                ));
            }
            assert(stands_at(cursors, runner.depends_on@[i]@).0 == at(runner.depends_on@[i]@));
        },
    }
}

/// The states through which a consumer that took every event went.
pub proof fn lemma_states_between<M: AnyMaterializer>(
    before: M,
    events: Seq<RecordedEvent>,
    after: M,
)
    requires
        took_all(before, events, after),
    ensures
        exists|states: Seq<M>| #[trigger]
            passes(states, before, events, after),
    decreases events.len(),
{
    if events.len() == 0 {
        assert(passes(seq![before], before, events, after));
    } else {
        let mid = choose|mid: M|
            took_all(before, events.drop_last(), mid) && #[trigger] mid.takes(
                events.last(),
                Ok(()),
                after,
            );
        lemma_states_between(before, events.drop_last(), mid);
        let states = choose|states: Seq<M>| #[trigger]
            passes(states, before, events.drop_last(), mid);
        let all = states.push(after);
        assert forall|i: int| 0 <= i < events.len() implies (#[trigger] all[i]).takes(
            events[i],
            Ok(()),
            all[i + 1],
        ) by {
            if i < events.len() - 1 {
                assert(states[i].takes(events.drop_last()[i], Ok(()), states[i + 1]));
            }
        }
        assert(passes(all, before, events, after));
    }
}

/// Whether a consumer goes through these states as it takes each event, once
/// and in order.
pub open spec fn passes<M: AnyMaterializer>(
    states: Seq<M>,
    before: M,
    events: Seq<RecordedEvent>,
    after: M,
) -> bool {
    &&& states.len() == events.len() + 1
    &&& states[0] == before
    &&& states[events.len() as int] == after
    &&& forall|i: int|
        0 <= i < events.len() ==> (#[trigger] states[i]).takes(events[i], Ok(()), states[i + 1])
}

/// A step that succeeds hands every event to the consumer, once and in order,
/// and leaves its cursor at the last; with no events it is idle, and with a
/// dependency behind it waits, and then nothing changes. No other consumer's
/// cursor moves.
pub proof fn law_steps_take_every_event<M: AnyMaterializer, C: CheckpointStore>(
    runner: &mut AnyMaterializerRunner<M>,
    checkpoint: &mut C,
    events: &Vec<RecordedEvent>,
    outcome: StepOutcome,
)
    requires
        call_ensures(
            AnyMaterializerRunner::<M>::step::<C>,
            (runner, checkpoint, events),
            Ok(outcome),
        ),
    ensures
        outcome matches StepOutcome::Progressed { applied } ==> {
            &&& applied == events@.len()
            &&& applied > 0
            &&& final(checkpoint).cursors().contains_key(old(runner).consumer_id@)
            &&& final(checkpoint).cursors()[old(runner).consumer_id@]
                == events@[events@.len() - 1].position
            &&& exists|states: Seq<M>| #[trigger]
                passes(states, old(runner).materializer, events@, final(runner).materializer)
        },
        !(outcome is Progressed) ==> final(runner).materializer == old(runner).materializer
            && final(checkpoint).cursors() == old(checkpoint).cursors(),
        outcome is Idle ==> events@.len() == 0,
        forall|other: Seq<char>|
            other != old(runner).consumer_id@ ==> (#[trigger] final(
                checkpoint).cursors().contains_key(other) <==> old(
                checkpoint).cursors().contains_key(other)) && (old(
                checkpoint).cursors().contains_key(other) ==> final(checkpoint).cursors()[other]
                == old(checkpoint).cursors()[other]),
        outcome is WaitOnDep <==> exists|i: int|
            0 <= i < old(runner).depends_on@.len() && {
                let cursors = old(checkpoint).cursors();
                let dep = (#[trigger] old(runner).depends_on@[i])@;
                let own = old(runner).consumer_id@;
                cursors.contains_key(own) && cursors[own].0 > (if cursors.contains_key(dep) {
                    cursors[dep].0
                } else {
                    0
                })
            },
{
    let cursors = old(checkpoint).cursors();
    let id = old(runner).id();
    let deps = old(runner).dependencies();
    let open = fence_open(cursors, deps, stands_at(cursors, id));
    assert(events@.len() == events.len());
    if outcome is Progressed {
        lemma_states_between(old(runner).materializer, events@, final(runner).materializer);
    }
    if open {
        assert forall|i: int| 0 <= i < deps.len() implies !{
            let dep = (#[trigger] deps[i])@;
            cursors.contains_key(id) && cursors[id].0 > (if cursors.contains_key(dep) {
                cursors[dep].0
            } else {
                0
            })
        } by {
            assert(!is_behind(cursors, deps[i]@, stands_at(cursors, id)));
        }
    } else {
        let i = choose|i: int|
            0 <= i < deps.len() && is_behind(
                cursors,
                (#[trigger] deps[i])@,
                stands_at(cursors, id),
            );
        assert(cursors.contains_key(id));
    }
}

/// A step that fails keeps what was taken: the consumer's cursor stands at the
/// last event that it took and whose position was stored, or where it stood;
/// and it never stands at the event that was refused. Where the write of the
/// cursor itself failed, the store alone knows.
pub proof fn law_refused_events_are_not_passed<M: AnyMaterializer, C: CheckpointStore>(
    runner: &mut AnyMaterializerRunner<M>,
    checkpoint: &mut C,
    events: &Vec<RecordedEvent>,
    e: Error,
)
    requires
        call_ensures(
            AnyMaterializerRunner::<M>::step::<C>,
            (runner, checkpoint, events),
            Err(e),
        ),
        forall|store: &mut C, name: &str, at: LogCursor|
            !(#[trigger] call_ensures(C::set, (store, name, at), Err(e))),
    ensures
        final(checkpoint).cursors() == old(checkpoint).cursors() || exists|n: int|
            {
                &&& 0 < n < events@.len()
                &&& final(checkpoint).cursors() == old(checkpoint).cursors().insert(
                    old(runner).consumer_id@,
                    (#[trigger] events@[n - 1]).position,
                )
                &&& exists|mid: M|
                    took_all(old(runner).materializer, events@.take(n), mid)
                        && #[trigger] mid.takes(events@[n], Err(e), final(runner).materializer)
            },
{
    let cursors = old(checkpoint).cursors();
    let id = old(runner).id();
    let before = old(runner).materializer;
    let after = final(runner).materializer;
    if final(checkpoint).cursors() != cursors {
        let n = choose|n: int|
            {
                &&& 0 <= n < events@.len()
                &&& #[trigger] refused(before, events@, n, e, after)
                &&& final(checkpoint).cursors() == moved(cursors, id, events@.take(n))
            };
        assert(n > 0);
        assert(events@.take(n).last() == events@[n - 1]);
    }
}

/// While state is rebuilt exactly the leading events at or before the cursor
/// are folded: every one of them up to the first that is past it. Reading goes
/// on, from the last event read, exactly where all were folded and the cursor
/// is not reached yet.
pub proof fn law_hydration_stops_at_the_cursor(
    cursor: LogCursor,
    batch: &Vec<RecordedEvent>,
    h: Hydration,
)
    requires
        call_ensures(ensure_hydrated, (cursor, batch), h),
    ensures
        h.fold <= batch@.len(),
        forall|i: int| 0 <= i < h.fold ==> (#[trigger] batch@[i]).position.0 <= cursor.0,
        h.fold < batch@.len() ==> batch@[h.fold as int].position.0 > cursor.0,
        h.read_from is Some <==> batch@.len() > 0 && h.fold == batch@.len()
            && batch@[batch@.len() - 1].position.0 < cursor.0,
        h.read_from matches Some(from) ==> from == batch@[batch@.len() - 1].position,
{
}

} // verus!
