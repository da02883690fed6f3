//! Folding one delivered event, whatever gaps stand before it.
//!
//! A session delivers the event, repairs each gap that shows, and delivers it
//! again, for a bounded number of rounds. It never reads the log itself: each
//! step names what it needs next.
//!
//! A strict session keeps a registry at exactly the delivered event: a repair
//! folds nothing at or past it, and no snapshot is consulted. A session that
//! is not strict may run ahead to the end of the stream.

use vstd::prelude::*;

use crate::aggregator::{AggregatorView, FoldFns};
use crate::fold::{
    read_after, repair_gap, repair_upto, restore_finish, restore_seed, restore_seed_of,
    restore_start, restored_version, revisions_fit, seed_gap, seeded, Restorable, RestoreSeed,
};
use crate::registry::{
    deliver, first_of_type, gap_views, installed, lemma_cause_of_more, replayed, tells_cause,
    AggregatorRegistry, FoldError,
    FoldFailure, FoldGap, FoldOutcome, GapView, OutcomeView,
};
use crate::state_table::Entry;
use crate::transitions::state_key;
use crate::types::{deliveries, Delivery, RecordedEvent, Snapshot, StreamRevision};

verus! {

/// How often an event is delivered before the fold gives up.
pub const MAX_ROUNDS: u8 = 8;

/// What a session waits for.
pub enum Stage<S> {
    /// Nothing: the fold is over.
    Finished,
    /// The snapshot of the current gap's aggregate.
    Snapshot,
    /// The stream behind a restore seed.
    RestoreTail(RestoreSeed<S>),
    /// The stream behind the current gap's watermark.
    RepairTail,
}

/// What a session asks for next.
pub enum FoldStep<S> {
    /// The event is folded.
    Done(FoldOutcome<S>),
    /// Load the stored snapshot and answer with [`FoldSession::on_snapshot`].
    LoadSnapshot { aggregate_type: String, id: u128 },
    /// Delete the stored snapshot if told to, read the stream and answer with
    /// [`FoldSession::on_stream`].
    ReadStream { subject: String, id: u128, after: Option<StreamRevision>, discard_snapshot: bool },
}

/// A step, as mathematics. A failed fold is a step too.
pub enum StepView<S> {
    Done(OutcomeView<S>),
    LoadSnapshot { aggregate_type: Seq<char>, id: u128 },
    ReadStream {
        subject: Seq<char>,
        id: u128,
        after: Option<StreamRevision>,
        discard_snapshot: bool,
    },
    Failed(FoldFailure),
}

/// The step that a result stands for.
pub open spec fn step_of<S>(r: Result<FoldStep<S>, FoldError>) -> StepView<S> {
    match r {
        Ok(FoldStep::Done(outcome)) => StepView::Done(outcome@),
        Ok(FoldStep::LoadSnapshot { aggregate_type, id }) => StepView::LoadSnapshot {
            aggregate_type: aggregate_type@,
            id,
        },
        Ok(FoldStep::ReadStream { subject, id, after, discard_snapshot }) => StepView::ReadStream {
            subject: subject@,
            id,
            after,
            discard_snapshot,
        },
        Err(e) => StepView::Failed(e@),
    }
}

/// A fold in progress.
pub struct FoldSession<S> {
    strict: bool,
    rounds_left: u8,
    gaps: Vec<FoldGap>,
    next: usize,
    stage: Stage<S>,
}

/// A session, as mathematics.
pub struct SessionView<S> {
    pub strict: bool,
    pub rounds_left: u8,
    pub gaps: Seq<GapView>,
    pub next: int,
    pub stage: Stage<S>,
}

impl<S> View for FoldSession<S> {
    type V = SessionView<S>;

    closed spec fn view(&self) -> SessionView<S> {
        SessionView {
            strict: self.strict,
            rounds_left: self.rounds_left,
            gaps: gap_views(self.gaps@),
            next: self.next as int,
            stage: self.stage,
        }
    }
}

/// A session, the states, and the step they reached.
pub struct Reached<S> {
    pub session: SessionView<S>,
    pub table: Map<Seq<char>, Entry<S>>,
    pub step: StepView<S>,
}

/// Asks for the stream behind the current gap's watermark. A strict session
/// first gives an aggregate without a state an empty one.
pub open spec fn ask_tail<B: FoldFns>(
    aggs: Seq<AggregatorView<B>>,
    table: Map<Seq<char>, Entry<B::State>>,
    s: SessionView<B::State>,
) -> Reached<B::State> {
    let gap = s.gaps[s.next];
    Reached {
        session: SessionView { stage: Stage::RepairTail, ..s },
        table: if s.strict {
            seeded(aggs, table, gap.aggregate_type, gap.id)
        } else {
            table
        },
        step: StepView::ReadStream {
            subject: gap.subject,
            id: gap.id,
            after: read_after(gap.expected),
            discard_snapshot: false,
        },
    }
}

/// Whether a session that is not strict restores the gapped aggregate instead
/// of repairing it: nothing of it is held, and it has a stream of its own.
pub open spec fn restores<B: FoldFns>(
    aggs: Seq<AggregatorView<B>>,
    table: Map<Seq<char>, Entry<B::State>>,
    gap: GapView,
) -> bool {
    &&& gap.subject.len() > 0
    &&& !table.contains_key(state_key(gap.aggregate_type, gap.id))
    &&& first_of_type(aggs, gap.aggregate_type) is Some
}

/// Turns to the current gap.
pub open spec fn ask<B: FoldFns>(
    aggs: Seq<AggregatorView<B>>,
    table: Map<Seq<char>, Entry<B::State>>,
    s: SessionView<B::State>,
) -> Reached<B::State> {
    let gap = s.gaps[s.next];
    if !s.strict && restores(aggs, table, gap) {
        Reached {
            session: SessionView { stage: Stage::Snapshot, ..s },
            table,
            step: StepView::LoadSnapshot { aggregate_type: gap.aggregate_type, id: gap.id },
        }
    } else {
        ask_tail(aggs, table, s)
    }
}

/// Delivers the event once more, if a round is left.
pub open spec fn round<B: FoldFns>(
    aggs: Seq<AggregatorView<B>>,
    table: Map<Seq<char>, Entry<B::State>>,
    at: Delivery,
    s: SessionView<B::State>,
) -> Reached<B::State> {
    if s.rounds_left == 0 {
        Reached {
            session: SessionView { stage: Stage::Finished, ..s },
            table,
            step: StepView::Failed(
                FoldFailure::NotConverged {
                    event_type: at.event_type,
                    category: at.category,
                    subject_id: at.subject_id,
                    revision: at.revision,
                },
            ),
        }
    } else {
        let left = SessionView { rounds_left: (s.rounds_left - 1) as u8, ..s };
        let p = deliver(aggs, at, table);
        match p.failure {
            Some(failure) => Reached {
                session: SessionView { stage: Stage::Finished, ..left },
                table: p.table,
                step: StepView::Failed(failure),
            },
            None => if p.outcome.gaps.len() == 0 {
                Reached {
                    session: SessionView { stage: Stage::Finished, ..left },
                    table: p.table,
                    step: StepView::Done(p.outcome),
                }
            } else {
                ask(aggs, p.table, SessionView { gaps: p.outcome.gaps, next: 0, ..left })
            },
        }
    }
}

/// Turns to the next gap, or to the next round behind the last one.
pub open spec fn next_gap<B: FoldFns>(
    aggs: Seq<AggregatorView<B>>,
    table: Map<Seq<char>, Entry<B::State>>,
    at: Delivery,
    s: SessionView<B::State>,
) -> Reached<B::State> {
    if s.next + 1 < s.gaps.len() {
        ask(aggs, table, SessionView { next: s.next + 1, ..s })
    } else {
        round(aggs, table, at, s)
    }
}

/// The session before its first round.
pub open spec fn fresh_session<S>(strict: bool) -> SessionView<S> {
    SessionView {
        strict,
        rounds_left: MAX_ROUNDS,
        gaps: Seq::empty(),
        next: 0,
        stage: Stage::Finished,
    }
}

/// Takes the stored snapshot of the current gap's aggregate.
pub open spec fn took_snapshot<B: FoldFns>(
    aggs: Seq<AggregatorView<B>>,
    table: Map<Seq<char>, Entry<B::State>>,
    s: SessionView<B::State>,
    snapshot: Option<Snapshot>,
) -> Reached<B::State> {
    let gap = s.gaps[s.next];
    let seed = restore_seed_of(aggs[first_of_type(aggs, gap.aggregate_type)->0], snapshot);
    Reached {
        session: SessionView { stage: Stage::RestoreTail(seed), ..s },
        table,
        step: StepView::ReadStream {
            subject: gap.subject,
            id: gap.id,
            after: seed.after,
            discard_snapshot: seed.discard,
        },
    }
}

/// Takes the stream that was asked for.
pub open spec fn took_stream<B: FoldFns>(
    aggs: Seq<AggregatorView<B>>,
    table: Map<Seq<char>, Entry<B::State>>,
    at: Delivery,
    s: SessionView<B::State>,
    tail: Seq<Delivery>,
) -> Reached<B::State> {
    let gap = s.gaps[s.next];
    let over = SessionView { stage: Stage::Finished, ..s };
    match s.stage {
        Stage::RestoreTail(seed) => match replayed(aggs, gap.aggregate_type, seed.state, tail) {
            None => Reached {
                session: over,
                table,
                step: StepView::Failed(
                    FoldFailure::Replay { aggregate_type: gap.aggregate_type },
                ),
            },
            Some(state) => if seed.after is None && tail.len() == 0 {
                ask_tail(aggs, table, s)
            } else {
                next_gap(
                    aggs,
                    installed(
                        table,
                        state_key(gap.aggregate_type, gap.id),
                        state,
                        restored_version(seed.after, tail),
                        seed.snapshot_at,
                    ),
                    at,
                    over,
                )
            },
        },
        _ => {
            let upto = if s.strict {
                Some(StreamRevision(at.revision))
            } else {
                None
            };
            let end = repair_upto(
                aggs,
                gap.aggregate_type,
                gap.id,
                upto,
                tail,
                tail.len(),
                table,
            );
            match end.failure {
                Some(failure) => Reached {
                    session: over,
                    table: end.table,
                    step: StepView::Failed(failure),
                },
                None => next_gap(aggs, end.table, at, over),
            }
        },
    }
}

/// What a waiting session was promised of its current gap.
pub open spec fn waits<S>(s: SessionView<S>) -> bool {
    &&& 0 <= s.next < s.gaps.len()
    &&& s.stage matches Stage::RestoreTail(seed) ==> (seed.after matches Some(r) ==> r.0 < u64::MAX)
}

impl<S> FoldSession<S> {
    /// Whether a session can take an answer.
    pub closed spec fn wf(&self) -> bool {
        self.stage !is Finished ==> waits(self@)
    }

    /// Starts to fold `event`.
    pub fn begin<B: FoldFns<State = S>>(
        reg: &mut AggregatorRegistry<B>,
        event: &RecordedEvent,
        strict: bool,
    ) -> (r: (Self, Result<FoldStep<S>, FoldError>))
        requires
            old(reg).wf(),
            event.revision.0 < u64::MAX,
        ensures
            final(reg).wf(),
            final(reg).aggs() == old(reg).aggs(),
            r.0.wf(),
            (Reached { session: r.0@, table: final(reg).table(), step: step_of(r.1) }) == round(
                old(reg).aggs(),
                old(reg).table(),
                event.delivery(),
                fresh_session(strict),
            ),
            r.1 matches Err(e) ==> tells_cause(old(reg).aggs(), seq![event.delivery()], e),
    {
        let mut session = FoldSession {
            strict,
            rounds_left: MAX_ROUNDS,
            gaps: Vec::new(),
            next: 0,
            stage: Stage::Finished,
        };
        assert(gap_views(session.gaps@) =~= Seq::<GapView>::empty());
        let step = session.round(reg, event);
        (session, step)
    }

    /// Answers [`FoldStep::LoadSnapshot`].
    pub fn on_snapshot<B: FoldFns<State = S>>(
        &mut self,
        reg: &AggregatorRegistry<B>,
        snapshot: &Option<Snapshot>,
    ) -> (step: FoldStep<S>)
        requires
            reg.wf(),
            old(self).wf(),
            old(self)@.stage is Snapshot,
            first_of_type(
                reg.aggs(),
                old(self)@.gaps[old(self)@.next].aggregate_type,
            ) is Some,
            snapshot matches Some(s) ==> s.revision.0 < u64::MAX,
        ensures
            final(self).wf(),
            (Reached {
                session: final(self)@,
                table: reg.table(),
                step: step_of(Ok::<FoldStep<S>, FoldError>(step)),
            }) == took_snapshot(reg.aggs(), reg.table(), old(self)@, *snapshot),
    {
        let gap = &self.gaps[self.next];
        let seed = restore_seed(reg, gap.aggregate_type.as_str(), snapshot);
        let step = FoldStep::ReadStream {
            subject: gap.subject.clone(),
            id: gap.id,
            after: seed.after,
            discard_snapshot: seed.discard,
        };
        self.stage = Stage::RestoreTail(seed);
        step
    }

    /// Answers [`FoldStep::ReadStream`].
    pub fn on_stream<B: FoldFns<State = S>>(
        &mut self,
        reg: &mut AggregatorRegistry<B>,
        event: &RecordedEvent,
        tail: &Vec<RecordedEvent>,
    ) -> (step: Result<FoldStep<S>, FoldError>)
        requires
            old(reg).wf(),
            old(self).wf(),
            old(self)@.stage is RestoreTail || old(self)@.stage is RepairTail,
            event.revision.0 < u64::MAX,
            revisions_fit(tail@),
        ensures
            final(reg).wf(),
            final(reg).aggs() == old(reg).aggs(),
            final(self).wf(),
            (Reached { session: final(self)@, table: final(reg).table(), step: step_of(step) })
                == took_stream(
                old(reg).aggs(),
                old(reg).table(),
                event.delivery(),
                old(self)@,
                deliveries(tail@),
            ),
            step matches Err(e) ==> tells_cause(
                old(reg).aggs(),
                deliveries(tail@).push(event.delivery()),
                e,
            ),
    {
        let ghost aggs = reg.aggs();
        let ghost own = seq![event.delivery()];
        let ghost read = deliveries(tail@);
        let ghost all = read.push(event.delivery());
        assert forall|k: int| 0 <= k < read.len() implies all.contains(#[trigger] read[k]) by {
            assert(all[k] == read[k]);
        }
        assert(all.contains(own[0])) by {
            assert(all[read.len() as int] == own[0]);
        }
        let mut stage: Stage<S> = Stage::Finished;
        std::mem::swap(&mut stage, &mut self.stage);
        let read_ok = match stage {
            Stage::RestoreTail(seed) => {
                let gap = &self.gaps[self.next];
                match restore_finish(reg, gap.aggregate_type.as_str(), gap.id, seed, tail) {
                    Err(e) => Err(e),
                    Ok(true) => Ok(()),
                    Ok(false) => {
                        return Ok(self.ask_tail(reg));
                    },
                }
            },
            _ => {
                let upto = if self.strict {
                    Some(event.revision)
                } else {
                    None
                };
                let gap = &self.gaps[self.next];
                repair_gap(reg, gap, upto, tail)
            },
        };
        match read_ok {
            Err(e) => {
                proof {
                    lemma_cause_of_more(aggs, read, all, e);
                }
                Err(e)
            },
            Ok(()) => match self.next_gap(reg, event) {
                Err(e) => {
                    proof {
                        lemma_cause_of_more(aggs, own, all, e);
                    }
                    Err(e)
                },
                Ok(step) => Ok(step),
            },
        }
    }

    fn round<B: FoldFns<State = S>>(
        &mut self,
        reg: &mut AggregatorRegistry<B>,
        event: &RecordedEvent,
    ) -> (step: Result<FoldStep<S>, FoldError>)
        requires
            old(reg).wf(),
            event.revision.0 < u64::MAX,
            old(self)@.stage is Finished,
        ensures
            final(reg).wf(),
            final(reg).aggs() == old(reg).aggs(),
            final(self).wf(),
            (Reached { session: final(self)@, table: final(reg).table(), step: step_of(step) })
                == round(old(reg).aggs(), old(reg).table(), event.delivery(), old(self)@),
            step matches Err(e) ==> tells_cause(old(reg).aggs(), seq![event.delivery()], e),
    {
        if self.rounds_left == 0 {
            return Err(
                FoldError::NotConverged {
                    event_type: event.event_type.clone(),
                    category: event.category.clone(),
                    subject_id: event.subject_id,
                    revision: event.revision,
                },
            );
        }
        self.rounds_left = self.rounds_left - 1;
        let outcome = match reg.apply_event(
            event.event_type.as_str(),
            &event.payload,
            event.subject_id,
            event.category.as_str(),
            event.revision,
            event.position,
        ) {
            Ok(outcome) => outcome,
            Err(e) => {
                return Err(e);
            },
        };
        if outcome.gaps.len() == 0 {
            return Ok(FoldStep::Done(outcome));
        }
        self.gaps = outcome.gaps;
        self.next = 0;
        Ok(self.ask(reg))
    }

    fn next_gap<B: FoldFns<State = S>>(
        &mut self,
        reg: &mut AggregatorRegistry<B>,
        event: &RecordedEvent,
    ) -> (step: Result<FoldStep<S>, FoldError>)
        requires
            old(reg).wf(),
            event.revision.0 < u64::MAX,
            old(self)@.stage is Finished,
            0 <= old(self)@.next < old(self)@.gaps.len(),
        ensures
            final(reg).wf(),
            final(reg).aggs() == old(reg).aggs(),
            final(self).wf(),
            (Reached { session: final(self)@, table: final(reg).table(), step: step_of(step) })
                == next_gap(old(reg).aggs(), old(reg).table(), event.delivery(), old(self)@),
            step matches Err(e) ==> tells_cause(old(reg).aggs(), seq![event.delivery()], e),
    {
        if self.gaps.len() - self.next > 1 {
            self.next = self.next + 1;
            Ok(self.ask(reg))
        } else {
            self.round(reg, event)
        }
    }

    fn ask<B: FoldFns<State = S>>(&mut self, reg: &mut AggregatorRegistry<B>) -> (step: FoldStep<S>)
        requires
            old(reg).wf(),
            0 <= old(self)@.next < old(self)@.gaps.len(),
        ensures
            final(reg).wf(),
            final(reg).aggs() == old(reg).aggs(),
            final(self).wf(),
            (Reached {
                session: final(self)@,
                table: final(reg).table(),
                step: step_of(Ok::<FoldStep<S>, FoldError>(step)),
            }) == ask(old(reg).aggs(), old(reg).table(), old(self)@),
    {
        let gap = &self.gaps[self.next];
        if !self.strict {
            match restore_start(
                reg,
                gap.aggregate_type.as_str(),
                gap.subject.as_str(),
                gap.id,
            ) {
                Restorable::Yes => {
                    let step = FoldStep::LoadSnapshot {
                        aggregate_type: gap.aggregate_type.clone(),
                        id: gap.id,
                    };
                    self.stage = Stage::Snapshot;
                    return step;
                },
                _ => {},
            }
        }
        self.ask_tail(reg)
    }

    fn ask_tail<B: FoldFns<State = S>>(&mut self, reg: &mut AggregatorRegistry<B>) -> (step:
        FoldStep<S>)
        requires
            old(reg).wf(),
            0 <= old(self)@.next < old(self)@.gaps.len(),
        ensures
            final(reg).wf(),
            final(reg).aggs() == old(reg).aggs(),
            final(self).wf(),
            (Reached {
                session: final(self)@,
                table: final(reg).table(),
                step: step_of(Ok::<FoldStep<S>, FoldError>(step)),
            }) == ask_tail(old(reg).aggs(), old(reg).table(), old(self)@),
    {
        let gap = &self.gaps[self.next];
        if self.strict {
            seed_gap(reg, gap);
        }
        let after = if gap.expected.0 == 0 {
            None
        } else {
            Some(StreamRevision(gap.expected.0 - 1))
        };
        let step = FoldStep::ReadStream {
            subject: gap.subject.clone(),
            id: gap.id,
            after,
            discard_snapshot: false,
        };
        self.stage = Stage::RepairTail;
        step
    }
}

/// A fold begins with one delivery of up to eight. Where nothing is missing it
/// is done, with what that delivery came to; where the delivery fails, so does
/// the fold. Where something is missing it turns to the first gap: one that is
/// not strict loads the snapshot of an aggregate that holds nothing, and any
/// other reads the stream of the gapped aggregate from the first revision that
/// it lacks.
pub proof fn law_folds_begin_with_a_delivery<B: FoldFns>(
    reg: &mut AggregatorRegistry<B>,
    event: &RecordedEvent,
    strict: bool,
    r: (FoldSession<B::State>, Result<FoldStep<B::State>, FoldError>),
)
    requires
        call_ensures(FoldSession::<B::State>::begin::<B>, (reg, event, strict), r),
    ensures
        ({
            let p = deliver(old(reg).aggs(), event.delivery(), old(reg).table());
            let gap = p.outcome.gaps[0];
            let held = p.table.contains_key(state_key(gap.aggregate_type, gap.id));
            let registered = first_of_type(old(reg).aggs(), gap.aggregate_type) is Some;
            let loads = !strict && gap.subject.len() > 0 && !held && registered;
            &&& r.0@.strict == strict
            &&& r.0@.rounds_left == 7
            &&& p.failure matches Some(f) ==> (r.1 matches Err(e) && e@ == f)
                && final(reg).table() == p.table
            &&& p.failure is None && p.outcome.gaps.len() == 0 ==> (r.1 matches Ok(FoldStep::Done(
                o,
            )) && o@ == p.outcome) && final(reg).table() == p.table
            &&& p.failure is None && p.outcome.gaps.len() > 0 && loads ==> (
            r.1 matches Ok(FoldStep::LoadSnapshot { aggregate_type, id }) && aggregate_type@
                == gap.aggregate_type && id == gap.id) && final(reg).table() == p.table
            &&& p.failure is None && p.outcome.gaps.len() > 0 && !loads ==> (
            r.1 matches Ok(FoldStep::ReadStream { subject, id, after, discard_snapshot })
                && subject@ == gap.subject && id == gap.id && !discard_snapshot && (gap.expected == 0
                ==> after is None) && (gap.expected > 0 ==> (after matches Some(a) && a.0
                == gap.expected - 1)))
            &&& p.failure is None && p.outcome.gaps.len() > 0 && !strict ==> final(reg).table()
                == p.table
        }),
{
}

/// A restore reads on after the snapshot that was loaded, where it decodes, and
/// reads the whole stream where there is none or it does not, which is then
/// deleted; always the stream of the gapped aggregate.
pub proof fn law_restores_read_on_after_the_snapshot<B: FoldFns>(
    session: &mut FoldSession<B::State>,
    reg: &AggregatorRegistry<B>,
    snapshot: &Option<Snapshot>,
    step: FoldStep<B::State>,
)
    requires
        call_ensures(
            FoldSession::<B::State>::on_snapshot::<B>,
            (session, reg, snapshot),
            step,
        ),
    ensures
        ({
            let gap = old(session)@.gaps[old(session)@.next];
            let fns = reg.aggs()[first_of_type(reg.aggs(), gap.aggregate_type)->0].fns;
            let decodes = snapshot matches Some(s) && fns.deserialized(s.state@) is Some;
            &&& step matches FoldStep::ReadStream { subject, id, after, discard_snapshot }
                && subject@ == gap.subject && id == gap.id && (discard_snapshot <==> snapshot is Some
                && !decodes) && (decodes ==> after == Some(snapshot->0.revision)) && (!decodes
                ==> after is None)
            &&& final(session)@.gaps == old(session)@.gaps
            &&& final(session)@.next == old(session)@.next
            &&& final(session)@.rounds_left == old(session)@.rounds_left
            &&& final(session)@.strict == old(session)@.strict
        }),
{
}

/// A tail repairs the gapped aggregate, in a strict session only up to where
/// the event stands. The next gap follows; behind the last one the event is
/// delivered again, and where no round is left the fold fails and names the
/// event.
pub proof fn law_repairs_are_followed_by_another_round<B: FoldFns>(
    session: &mut FoldSession<B::State>,
    reg: &mut AggregatorRegistry<B>,
    event: &RecordedEvent,
    tail: &Vec<RecordedEvent>,
    r: Result<FoldStep<B::State>, FoldError>,
)
    requires
        call_ensures(FoldSession::<B::State>::on_stream::<B>, (session, reg, event, tail), r),
        old(session)@.stage is RepairTail,
    ensures
        ({
            let s = old(session)@;
            let gap = s.gaps[s.next];
            let upto = if s.strict {
                Some(event.revision)
            } else {
                None
            };
            let end = repair_upto(
                old(reg).aggs(),
                gap.aggregate_type,
                gap.id,
                upto,
                deliveries(tail@),
                tail@.len(),
                old(reg).table(),
            );
            let p = deliver(old(reg).aggs(), event.delivery(), end.table);
            let last = s.next + 1 >= s.gaps.len();
            &&& end.failure matches Some(f) ==> (r matches Err(e) && e@ == f) && final(reg).table()
                == end.table
            &&& end.failure is None && !last ==> {
                let other = s.gaps[s.next + 1];
                &&& final(session)@.next == s.next + 1
                &&& final(session)@.gaps == s.gaps
                &&& final(session)@.rounds_left == s.rounds_left
                &&& match r {
                    Ok(FoldStep::LoadSnapshot { aggregate_type, id }) => !s.strict
                        && aggregate_type@ == other.aggregate_type && id == other.id
                        && final(reg).table() == end.table,
                    Ok(FoldStep::ReadStream { subject, id, after, discard_snapshot }) => subject@
                        == other.subject && id == other.id && !discard_snapshot && (
                    other.expected == 0 ==> after is None) && (other.expected > 0 ==> (
                    after matches Some(a) && a.0 == other.expected - 1)),
                    _ => false,
                }
            }
            &&& end.failure is None && last && s.rounds_left == 0 ==> (r matches Err(e) && (
            e@ matches FoldFailure::NotConverged { event_type, category, subject_id, revision }
                && event_type == event.event_type@ && revision == event.revision.0 && category
                == event.category@ && subject_id == event.subject_id)) && final(reg).table()
                == end.table
            &&& end.failure is None && last && s.rounds_left > 0 ==> {
                &&& final(session)@.rounds_left == s.rounds_left - 1
                &&& p.failure matches Some(f) ==> (r matches Err(e) && e@ == f)
                &&& p.failure is None && p.outcome.gaps.len() == 0 ==> (r matches Ok(
                    FoldStep::Done(o),
                ) && o@ == p.outcome) && final(reg).table() == p.table
                &&& p.failure is None && p.outcome.gaps.len() > 0 ==> {
                    &&& final(session)@.gaps == p.outcome.gaps
                    &&& final(session)@.next == 0
                    &&& r matches Ok(step) && step !is Done
                }
            }
        }),
{
}

/// A tail behind a snapshot is replayed onto its state. Nothing to replay onto
/// nothing sends the session to repair instead; a tail that cannot be replayed
/// fails the fold and leaves every state as it is; otherwise the aggregate is
/// held as replayed, whatever follows.
pub proof fn law_restored_states_are_delivered_to<B: FoldFns>(
    session: &mut FoldSession<B::State>,
    reg: &mut AggregatorRegistry<B>,
    event: &RecordedEvent,
    tail: &Vec<RecordedEvent>,
    seed: RestoreSeed<B::State>,
    r: Result<FoldStep<B::State>, FoldError>,
)
    requires
        call_ensures(FoldSession::<B::State>::on_stream::<B>, (session, reg, event, tail), r),
        old(session)@.stage == Stage::RestoreTail(seed),
    ensures
        ({
            let s = old(session)@;
            let gap = s.gaps[s.next];
            let key = state_key(gap.aggregate_type, gap.id);
            let state = replayed(
                old(reg).aggs(),
                gap.aggregate_type,
                seed.state,
                deliveries(tail@),
            );
            let nothing = seed.after is None && tail@.len() == 0;
            let held = installed(
                old(reg).table(),
                key,
                state->0,
                restored_version(seed.after, deliveries(tail@)),
                seed.snapshot_at,
            );
            let last = s.next + 1 >= s.gaps.len();
            let p = deliver(old(reg).aggs(), event.delivery(), held);
            &&& state is None ==> (r matches Err(e) && (e@ matches FoldFailure::Replay {
                aggregate_type,
            } && aggregate_type == gap.aggregate_type)) && final(reg).table() == old(reg).table()
            &&& state is Some && nothing ==> (r matches Ok(
                FoldStep::ReadStream { subject, id, after, discard_snapshot },
            ) && subject@ == gap.subject && id == gap.id && !discard_snapshot && (gap.expected == 0
                ==> after is None) && (gap.expected > 0 ==> (after matches Some(a) && a.0
                == gap.expected - 1))) && final(session)@.stage is RepairTail
                && final(session)@.next == s.next
            &&& state is Some && !nothing && last && s.rounds_left > 0 && p.failure is None
                && p.outcome.gaps.len() == 0 ==> (r matches Ok(FoldStep::Done(o)) && o@
                == p.outcome) && final(reg).table() == p.table
            &&& state is Some && !nothing && last && s.rounds_left > 0 && p.failure is None
                && p.outcome.gaps.len() > 0 ==> (r matches Ok(step) && step !is Done)
                && final(session)@.gaps == p.outcome.gaps && final(session)@.next == 0
                && final(session)@.rounds_left == s.rounds_left - 1
            &&& state is Some && !nothing && last && s.rounds_left == 0 ==> (r matches Err(e)
                && e@ is NotConverged) && final(reg).table() == held
            &&& state is Some && !nothing && !last ==> final(session)@.next == s.next + 1 && (
            r matches Ok(step) && step !is Done)
        }),
{
}

} // verus!
