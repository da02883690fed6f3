//! Consumers of every event with aggregate states of their own: each event is
//! folded before it is handed over, and its fold is undone where it is refused.

use vstd::prelude::*;

use crate::aggregator::{AggregatorView, FoldFns};
use crate::any_materializer::{
    ensure_hydrated, fence_fails, fence_open, is_hydration, lemma_states_between, moved, passes,
    refused, stands_at, took_all, waits_on, AnyMaterializer, AnyMaterializerRunner, Hydration,
};
use crate::checkpoint_store::CheckpointStore;
use crate::failure::{is_message, Error};
use crate::fold::revisions_fit;
use crate::registry::{deliver, tells_cause, AggregatorRegistry, FoldError};
use crate::rollback::law_rollback_undoes_a_delivery;
use crate::state_table::Entry;
use crate::supervise::StepOutcome;
use crate::types::{deliveries, Delivery, LogCursor, RecordedEvent};

verus! {

/// Runs a consumer of every event over aggregates that fold them. The states
/// are those of the events at or before the consumer's cursor: they are rebuilt
/// from the log before the first step.
pub struct FoldingRunner<M: AnyMaterializer, B: FoldFns> {
    pub runner: AnyMaterializerRunner<M>,
    pub aggregators: AggregatorRegistry<B>,
}

/// The states after events were delivered one after the other; `None` where one
/// cannot be folded.
pub open spec fn folds<B: FoldFns>(
    aggs: Seq<AggregatorView<B>>,
    table: Map<Seq<char>, Entry<B::State>>,
    events: Seq<Delivery>,
) -> Option<Map<Seq<char>, Entry<B::State>>>
    decreases events.len(),
{
    if events.len() == 0 {
        Some(table)
    } else {
        match folds(aggs, table, events.drop_last()) {
            None => None,
            Some(before) => {
                let p = deliver(aggs, events.last(), before);
                if p.failure is Some {
                    None
                } else {
                    Some(p.table)
                }
            },
        }
    }
}

/// Whether `e` says why an event cannot be folded.
pub open spec fn unfoldable<B: FoldFns>(
    aggs: Seq<AggregatorView<B>>,
    at: Delivery,
    table: Map<Seq<char>, Entry<B::State>>,
    e: Error,
) -> bool {
    exists|f: FoldError|
        {
            &&& deliver(aggs, at, table).failure == Some(#[trigger] f@)
            &&& tells_cause(aggs, seq![at], f)
            &&& is_message(e, f.message())
        }
}

impl<M: AnyMaterializer, B: FoldFns> FoldingRunner<M, B> {
    /// The states that the aggregators hold.
    pub open spec fn table(&self) -> Map<Seq<char>, Entry<B::State>> {
        self.aggregators.table()
    }

    pub fn consumer_id(&self) -> (id: &str)
        ensures
            id@ == self.runner.id(),
    {
        self.runner.consumer_id()
    }

    /// Folds the part of a batch that lies at or before the consumer's cursor.
    pub fn hydrate(&mut self, cursor: LogCursor, batch: &Vec<RecordedEvent>) -> (r: Result<
        Hydration,
        FoldError,
    >)
        requires
            old(self).aggregators.wf(),
            revisions_fit(batch@),
        ensures
            final(self).aggregators.wf(),
            final(self).aggregators.aggs() == old(self).aggregators.aggs(),
            final(self).runner == old(self).runner,
            ({
                let aggs = old(self).aggregators.aggs();
                let all = deliveries(batch@);
                match r {
                    Ok(h) => is_hydration(h, cursor, batch@) && folds(
                        aggs,
                        old(self).table(),
                        all.take(h.fold as int),
                    ) == Some(final(self).table()),
                    Err(e) => exists|n: int|
                        {
                            &&& 0 <= n < batch@.len()
                            &&& batch@[n].position.0 <= cursor.0
                            &&& folds(aggs, old(self).table(), #[trigger] all.take(n)) matches Some(
                                t,
                            ) && deliver(aggs, all[n], t).failure == Some(e@) && final(self).table()
                                == deliver(aggs, all[n], t).table
                            &&& tells_cause(aggs, seq![all[n]], e)
                        },
                }
            }),
    {
        let ghost aggs = self.aggregators.aggs();
        let ghost all = deliveries(batch@);
        let h = ensure_hydrated(cursor, batch);
        let mut i: usize = 0;
        assert(all.take(0) =~= Seq::<Delivery>::empty());
        while i < h.fold
            invariant
                i <= h.fold,
                is_hydration(h, cursor, batch@),
                revisions_fit(batch@),
                all == deliveries(batch@),
                aggs == old(self).aggregators.aggs(),
                self.aggregators.wf(),
                self.aggregators.aggs() == aggs,
                self.runner == old(self).runner,
                folds(aggs, old(self).table(), all.take(i as int)) == Some(self.table()),
            decreases h.fold - i,
        {
            let event = &batch[i];
            let ghost t = self.table();
            assert(all[i as int] == event.delivery());
            assert(all.take(i + 1).drop_last() =~= all.take(i as int));
            assert(all.take(i + 1).last() == all[i as int]);
            match self.aggregators.apply_event(
                event.event_type.as_str(),
                &event.payload,
                event.subject_id,
                event.category.as_str(),
                event.revision,
                event.position,
            ) {
                Ok(_) => {},
                Err(e) => {
                    assert(folds(aggs, old(self).table(), all.take(i as int)) == Some(t));
                    return Err(e);
                },
            }
            i += 1;
        }
        Ok(h)
    }

    /// One step, as the runner's: before an event is handed over it is folded.
    /// An event that cannot be folded, or that the consumer refuses, ends the
    /// step with that error and leaves no trace in the states; the folds of the
    /// events before it stay.
    pub fn step<C: CheckpointStore>(
        &mut self,
        checkpoint: &mut C,
        events: &Vec<RecordedEvent>,
    ) -> (r: Result<StepOutcome, Error>)
        requires
            old(self).aggregators.wf(),
            revisions_fit(events@),
        ensures
            final(self).aggregators.wf(),
            final(self).aggregators.aggs() == old(self).aggregators.aggs(),
            final(self).runner.id() == old(self).runner.id(),
            final(self).runner.dependencies() == old(self).runner.dependencies(),
            ({
                let cursors = old(checkpoint).cursors();
                let id = old(self).runner.id();
                let deps = old(self).runner.dependencies();
                let open = fence_open(cursors, deps, stands_at(cursors, id));
                let same = *final(self) == *old(self) && *final(checkpoint) == *old(checkpoint);
                let before = old(self).runner.materializer;
                let after = final(self).runner.materializer;
                let aggs = old(self).aggregators.aggs();
                let all = deliveries(events@);
                match r {
                    Ok(outcome) => if !open {
                        same && waits_on(outcome, cursors, deps, stands_at(cursors, id))
                    } else if events@.len() == 0 {
                        same && outcome is Idle
                    } else {
                        &&& outcome == (StepOutcome::Progressed { applied: events@.len() as usize })
                        &&& final(checkpoint).cursors() == moved(cursors, id, events@)
                        &&& took_all(before, events@, after)
                        &&& folds(aggs, old(self).table(), all) == Some(final(self).table())
                    },
                    Err(e) => {
                        ||| same && fence_fails(*old(checkpoint), id, deps, e)
                        ||| open && exists|n: int|
                            {
                                &&& 0 <= n < events@.len()
                                &&& folds(aggs, old(self).table(), #[trigger] all.take(n)) == Some(
                                    final(self).table(),
                                )
                                &&& final(checkpoint).cursors() == moved(
                                    cursors,
                                    id,
                                    events@.take(n),
                                )
                                &&& {
                                    ||| took_all(before, events@.take(n), after) && unfoldable(
                                        aggs,
                                        all[n],
                                        final(self).table(),
                                        e,
                                    )
                                    ||| refused(before, events@, n, e, after) && deliver(
                                        aggs,
                                        all[n],
                                        final(self).table(),
                                    ).failure is None
                                }
                            }
                        ||| open && exists|n: int|
                            {
                                &&& 0 <= n < events@.len()
                                &&& folds(aggs, old(self).table(), #[trigger] all.take(n + 1))
                                    == Some(final(self).table())
                                &&& took_all(before, events@.take(n + 1), after)
                                &&& exists|store: &mut C, name: &str|
                                    {
                                        &&& store.cursors() == moved(cursors, id, events@.take(n))
                                        &&& *final(store) == *final(checkpoint)
                                        &&& name@ == id
                                        &&& #[trigger] call_ensures(
                                            C::set,
                                            (store, name, events@[n].position),
                                            Err(e),
                                        )
                                    }
                            }
                    },
                }
            }),
    {
        match self.runner.fence(checkpoint) {
            Ok(Ok(_)) => {},
            Ok(Err(outcome)) => {
                return Ok(outcome);
            },
            Err(e) => {
                return Err(e);
            },
        }
        if events.len() == 0 {
            return Ok(StepOutcome::Idle);
        }
        let ghost start = checkpoint.cursors();
        let ghost before = self.runner.materializer;
        let ghost aggs = self.aggregators.aggs();
        let ghost all = deliveries(events@);
        let mut applied: usize = 0;
        assert(events@.take(0) =~= Seq::<RecordedEvent>::empty());
        assert(all.take(0) =~= Seq::<Delivery>::empty());
        while applied < events.len()
            invariant
                applied <= events@.len(),
                revisions_fit(events@),
                all == deliveries(events@),
                aggs == old(self).aggregators.aggs(),
                self.aggregators.wf(),
                self.aggregators.aggs() == aggs,
                self.runner.id() == old(self).runner.id(),
                self.runner.dependencies() == old(self).runner.dependencies(),
                start == old(checkpoint).cursors(),
                before == old(self).runner.materializer,
                fence_open(
                    start,
                    old(self).runner.dependencies(),
                    stands_at(start, old(self).runner.id()),
                ),
                checkpoint.cursors() == moved(
                    start,
                    old(self).runner.id(),
                    events@.take(applied as int),
                ),
                took_all(before, events@.take(applied as int), self.runner.materializer),
                folds(aggs, old(self).table(), all.take(applied as int)) == Some(self.table()),
            decreases events@.len() - applied,
        {
            let event = &events[applied];
            let ghost n = applied as int;
            let ghost at = event.delivery();
            let ghost t = self.table();
            let ghost mid = self.runner.materializer;
            assert(all[n] == at);
            assert(all.take(n + 1).drop_last() =~= all.take(n));
            assert(all.take(n + 1).last() == at);
            assert(events@.take(n + 1).drop_last() =~= events@.take(n));
            assert(events@.take(n + 1).last() == *event);
            proof {
                law_rollback_undoes_a_delivery(aggs, at, t);
            }
            let rollback = self.aggregators.capture_for_rollback(
                event.event_type.as_str(),
                &event.payload,
            );
            match self.aggregators.apply_event(
                event.event_type.as_str(),
                &event.payload,
                event.subject_id,
                event.category.as_str(),
                event.revision,
                event.position,
            ) {
                Ok(_) => {},
                Err(f) => {
                    self.aggregators.restore_state(rollback);
                    let e = Error::Message(f.to_text());
                    assert(deliver(aggs, at, t).failure == Some(f@));
                    assert(unfoldable(aggs, all[n], self.table(), e));
                    return Err(e);
                },
            }
            match self.runner.materializer.materialize(event) {
                Ok(done) => {
                    assert(done == ());
                },
                Err(e) => {
                    self.aggregators.restore_state(rollback);
                    assert(refused(before, events@, n, e, self.runner.materializer));
                    return Err(e);
                },
            }
            assert(took_all(before, events@.take(n + 1), self.runner.materializer));
            match checkpoint.set(self.runner.consumer_id.as_str(), event.position) {
                Ok(()) => {},
                Err(e) => {
                    assert(folds(aggs, old(self).table(), all.take(n + 1)) == Some(self.table()));
                    return Err(e);
                },
            }
            assert(checkpoint.cursors() =~= start.insert(old(self).runner.id(), event.position));
            applied += 1;
        }
        assert(events@.take(applied as int) =~= events@);
        assert(all.take(applied as int) =~= all);
        Ok(StepOutcome::Progressed { applied })
    }
}

/// States are folded one event at a time: with no events they stay as they
/// are, and one event more delivers it to what the others left, or fails where
/// it cannot be folded.
pub proof fn law_states_fold_event_by_event<B: FoldFns>(
    aggs: Seq<AggregatorView<B>>,
    table: Map<Seq<char>, Entry<B::State>>,
    events: Seq<Delivery>,
    next: Delivery,
)
    ensures
        folds(aggs, table, Seq::empty()) == Some(table),
        folds(aggs, table, events) is None ==> folds(aggs, table, events.push(next)) is None,
        folds(aggs, table, events) matches Some(mid) ==> {
            let p = deliver(aggs, next, mid);
            &&& p.failure is None ==> folds(aggs, table, events.push(next)) == Some(p.table)
            &&& p.failure is Some ==> folds(aggs, table, events.push(next)) is None
        },
{
    assert(events.push(next).drop_last() =~= events);
}

/// A step over aggregates that succeeds hands every event over, once and in
/// order, after folding it, and leaves the cursor at the last. One that waits
/// or has nothing to do changes nothing.
pub proof fn law_folding_steps_take_every_event<
    M: AnyMaterializer,
    B: FoldFns,
    C: CheckpointStore,
>(
    runner: &mut FoldingRunner<M, B>,
    checkpoint: &mut C,
    events: &Vec<RecordedEvent>,
    outcome: StepOutcome,
)
    requires
        call_ensures(FoldingRunner::<M, B>::step::<C>, (runner, checkpoint, events), Ok(outcome)),
    ensures
        outcome matches StepOutcome::Progressed { applied } ==> {
            &&& applied == events@.len()
            &&& applied > 0
            &&& final(checkpoint).cursors() == old(checkpoint).cursors().insert(
                old(runner).runner.consumer_id@,
                events@[events@.len() - 1].position,
            )
            &&& folds(old(runner).aggregators.aggs(), old(runner).table(), deliveries(events@))
                == Some(final(runner).table())
            &&& exists|states: Seq<M>| #[trigger]
                passes(
                    states,
                    old(runner).runner.materializer,
                    events@,
                    final(runner).runner.materializer,
                )
        },
        !(outcome is Progressed) ==> final(runner).table() == old(runner).table()
            && final(runner).runner.materializer == old(runner).runner.materializer
            && final(checkpoint).cursors() == old(checkpoint).cursors(),
        outcome is Idle ==> events@.len() == 0,
{
    assert(events@.len() == events.len());
    if outcome is Progressed {
        lemma_states_between(
            old(runner).runner.materializer,
            events@,
            final(runner).runner.materializer,
        );
    }
}

/// A refused event leaves no trace in the states: where a step fails, and not
/// on a write of the cursor, the states are those after the events that the
/// consumer took, at the last of which its cursor stands.
pub proof fn law_refused_events_leave_no_trace<
    M: AnyMaterializer,
    B: FoldFns,
    C: CheckpointStore,
>(
    runner: &mut FoldingRunner<M, B>,
    checkpoint: &mut C,
    events: &Vec<RecordedEvent>,
    e: Error,
)
    requires
        call_ensures(FoldingRunner::<M, B>::step::<C>, (runner, checkpoint, events), Err(e)),
        forall|store: &mut C, name: &str, at: LogCursor|
            !(#[trigger] call_ensures(C::set, (store, name, at), Err(e))),
    ensures
        exists|n: int|
            {
                &&& 0 <= n <= events@.len()
                &&& folds(
                    old(runner).aggregators.aggs(),
                    old(runner).table(),
                    #[trigger] deliveries(events@).take(n),
                ) == Some(final(runner).table())
                &&& n == 0 ==> final(checkpoint).cursors() == old(checkpoint).cursors()
                &&& n > 0 ==> final(checkpoint).cursors() == old(checkpoint).cursors().insert(
                    old(runner).runner.consumer_id@,
                    events@[n - 1].position,
                )
            },
{
    let aggs = old(runner).aggregators.aggs();
    let table = old(runner).table();
    let all = deliveries(events@);
    let cursors = old(checkpoint).cursors();
    let id = old(runner).runner.id();
    let deps = old(runner).runner.dependencies();
    if *final(runner) == *old(runner) && *final(checkpoint) == *old(checkpoint) {
        assert(all.take(0) =~= Seq::<Delivery>::empty());
        assert(folds(aggs, table, all.take(0)) == Some(final(runner).table()));
    } else {
        let n = choose|n: int|
            {
                &&& 0 <= n < events@.len()
                &&& folds(aggs, table, #[trigger] all.take(n)) == Some(final(runner).table())
                &&& final(checkpoint).cursors() == moved(cursors, id, events@.take(n))
            };
        if n > 0 {
            assert(events@.take(n).last() == events@[n - 1]);
        }
        assert(folds(aggs, table, all.take(n)) == Some(final(runner).table()));
    }
}

/// A rebuild folds the events up to the cursor and none past it, and reads on
/// exactly while neither was the cursor reached nor an event past it met.
pub proof fn law_rebuilds_stop_at_the_cursor<M: AnyMaterializer, B: FoldFns>(
    runner: &mut FoldingRunner<M, B>,
    cursor: LogCursor,
    batch: &Vec<RecordedEvent>,
    h: Hydration,
)
    requires
        call_ensures(FoldingRunner::<M, B>::hydrate, (runner, cursor, batch), Ok(h)),
    ensures
        h.fold <= batch@.len(),
        forall|i: int| 0 <= i < h.fold ==> (#[trigger] batch@[i]).position.0 <= cursor.0,
        h.fold < batch@.len() ==> batch@[h.fold as int].position.0 > cursor.0,
        h.read_from is Some <==> batch@.len() > 0 && h.fold == batch@.len()
            && batch@[batch@.len() - 1].position.0 < cursor.0,
        h.read_from matches Some(from) ==> from == batch@[batch@.len() - 1].position,
        folds(
            old(runner).aggregators.aggs(),
            old(runner).table(),
            deliveries(batch@.take(h.fold as int)),
        ) == Some(final(runner).table()),
        h.fold == 0 ==> final(runner).table() == old(runner).table(),
        final(runner).runner == old(runner).runner,
{
    let all = deliveries(batch@);
    assert(deliveries(batch@.take(h.fold as int)) =~= all.take(h.fold as int));
}

} // verus!
