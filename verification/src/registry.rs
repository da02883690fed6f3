//! The registry: aggregators, the states they folded, and the rule that lets
//! each event fold into each state once.

use std::sync::Arc;

use vstd::prelude::*;

use crate::aggregator::{Aggregator, AggregatorView, FoldFns};
use crate::ids::{id_chars, id_text};
use crate::json::{Json, JsonView};
use crate::state_table::{Entry, Marks, StateTable};
use crate::text::{decimal, decimal_chars, same};
use crate::transitions::{
    prev_key, prev_key_text, state_key, state_key_text, TransitionSnapshots,
};
use crate::types::{deliveries, Delivery, LogCursor, RecordedEvent, StreamRevision};

verus! {

/// A fold that has to wait: the aggregate's stream holds events between its
/// watermark and the delivered event.
#[derive(Debug)]
pub struct FoldGap {
    pub aggregate_type: String,
    pub subject: String,
    pub id: u128,
    /// The next revision the entry expects.
    pub expected: StreamRevision,
}

/// What a gap is, as mathematics.
pub struct GapView {
    pub aggregate_type: Seq<char>,
    pub subject: Seq<char>,
    pub id: u128,
    pub expected: u64,
}

impl View for FoldGap {
    type V = GapView;

    open spec fn view(&self) -> GapView {
        GapView {
            aggregate_type: self.aggregate_type@,
            subject: self.subject@,
            id: self.id,
            expected: self.expected.0,
        }
    }
}

/// The gaps of a list.
pub open spec fn gap_views(gaps: Seq<FoldGap>) -> Seq<GapView> {
    Seq::new(gaps.len(), |i: int| gaps[i]@)
}

/// What one delivery did.
pub struct FoldOutcome<S> {
    /// The transition of every state the event belongs to: exact for a fold,
    /// reproduced for a redelivery.
    pub snapshots: TransitionSnapshots<S>,
    /// Whether any state changed.
    pub applied: bool,
    /// The aggregates that cannot fold the event yet.
    pub gaps: Vec<FoldGap>,
}

/// What an outcome is, as mathematics.
pub struct OutcomeView<S> {
    pub snapshots: Map<Seq<char>, (S, S)>,
    pub applied: bool,
    pub gaps: Seq<GapView>,
}

impl<S> View for FoldOutcome<S> {
    type V = OutcomeView<S>;

    open spec fn view(&self) -> OutcomeView<S> {
        OutcomeView {
            snapshots: self.snapshots@,
            applied: self.applied,
            gaps: gap_views(self.gaps@),
        }
    }
}

/// The outcome of a delivery that touched nothing.
pub open spec fn no_outcome<S>() -> OutcomeView<S> {
    OutcomeView { snapshots: Map::empty(), applied: false, gaps: Seq::empty() }
}

/// Why a delivery failed.
#[derive(Debug)]
pub enum FoldError {
    /// A restorable aggregate was handed an event from outside its own stream.
    Misaligned {
        aggregate_type: String,
        subject: String,
        event_type: String,
        category: String,
        subject_id: u128,
        aggregate_id: u128,
    },
    /// The payload could not be applied to the state.
    Apply { key: String, event_type: String, revision: StreamRevision, cause: String },
    /// The stream lacks revisions that it claims to have.
    NotConverged {
        event_type: String,
        category: String,
        subject_id: u128,
        revision: StreamRevision,
    },
    /// A stored event could not be replayed.
    Replay { aggregate_type: String, cause: String },
}

/// A failed delivery, as mathematics. What the text of an inner cause is,
/// [`tells_cause`] says.
pub enum FoldFailure {
    Misaligned {
        aggregate_type: Seq<char>,
        subject: Seq<char>,
        event_type: Seq<char>,
        category: Seq<char>,
        subject_id: u128,
        aggregate_id: u128,
    },
    Apply { key: Seq<char>, event_type: Seq<char>, revision: u64 },
    NotConverged { event_type: Seq<char>, category: Seq<char>, subject_id: u128, revision: u64 },
    Replay { aggregate_type: Seq<char> },
}

impl FoldError {
    /// The text of the inner cause.
    pub open spec fn cause_text(&self) -> Option<Seq<char>> {
        match self {
            FoldError::Apply { cause, .. } => Some(cause@),
            FoldError::Replay { cause, .. } => Some(cause@),
            _ => None,
        }
    }
}

/// Whether an aggregator's functions may refuse a payload in these words.
pub open spec fn refuses<B: FoldFns>(fns: B, payload: JsonView, words: Seq<char>) -> bool {
    exists|state: &mut B::State, data: &Json, text: String|
        data@ == payload && text@ == words && #[trigger] call_ensures(
            B::apply_to,
            (&fns, state, data),
            Err(text),
        )
}

/// Whether an aggregator's functions may refuse a payload on one state in these
/// words.
pub open spec fn refuses_on<B: FoldFns>(
    fns: B,
    on: B::State,
    payload: JsonView,
    words: Seq<char>,
) -> bool {
    exists|state: &mut B::State, data: &Json, text: String|
        *state == on && data@ == payload && text@ == words && #[trigger] call_ensures(
            B::apply_to,
            (&fns, state, data),
            Err(text),
        )
}

/// Whether the inner cause of a failure, if it has one, is told in the words in
/// which an aggregator refused one of `events`.
pub open spec fn tells_cause<B: FoldFns>(
    aggs: Seq<AggregatorView<B>>,
    events: Seq<Delivery>,
    e: FoldError,
) -> bool {
    e.cause_text() matches Some(words) ==> exists|j: int, k: int|
        {
            &&& 0 <= j < aggs.len()
            &&& 0 <= k < events.len()
            &&& aggs[j].event_prefix == events[k].event_type
            &&& #[trigger] refuses(aggs[j].fns, events[k].payload, words)
        }
}

proof fn lemma_cause_told<B: FoldFns>(
    aggs: Seq<AggregatorView<B>>,
    events: Seq<Delivery>,
    j: int,
    k: int,
    e: FoldError,
)
    requires
        0 <= j < aggs.len(),
        0 <= k < events.len(),
        aggs[j].event_prefix == events[k].event_type,
        e.cause_text() matches Some(words) ==> refuses(aggs[j].fns, events[k].payload, words),
    ensures
        tells_cause(aggs, events, e),
{
}

/// A cause told of one of some events is told of one of more.
pub proof fn lemma_cause_of_more<B: FoldFns>(
    aggs: Seq<AggregatorView<B>>,
    some: Seq<Delivery>,
    more: Seq<Delivery>,
    e: FoldError,
)
    requires
        tells_cause(aggs, some, e),
        forall|k: int| 0 <= k < some.len() ==> more.contains(#[trigger] some[k]),
    ensures
        tells_cause(aggs, more, e),
{
    if let Some(words) = e.cause_text() {
        let (j, k) = choose|j: int, k: int|
            {
                &&& 0 <= j < aggs.len()
                &&& 0 <= k < some.len()
                &&& aggs[j].event_prefix == some[k].event_type
                &&& #[trigger] refuses(aggs[j].fns, some[k].payload, words)
            };
        assert(more.contains(some[k]));
        let m = choose|m: int| 0 <= m < more.len() && more[m] == some[k];
        assert(refuses(aggs[j].fns, more[m].payload, words));
    }
}

impl View for FoldError {
    type V = FoldFailure;

    open spec fn view(&self) -> FoldFailure {
        match self {
            FoldError::Misaligned {
                aggregate_type,
                subject,
                event_type,
                category,
                subject_id,
                aggregate_id,
            } => FoldFailure::Misaligned {
                aggregate_type: aggregate_type@,
                subject: subject@,
                event_type: event_type@,
                category: category@,
                subject_id: *subject_id,
                aggregate_id: *aggregate_id,
            },
            FoldError::Apply { key, event_type, revision, .. } => FoldFailure::Apply {
                key: key@,
                event_type: event_type@,
                revision: revision.0,
            },
            FoldError::NotConverged { event_type, category, subject_id, revision } =>
                FoldFailure::NotConverged {
                    event_type: event_type@,
                    category: category@,
                    subject_id: *subject_id,
                    revision: revision.0,
                },
            FoldError::Replay { aggregate_type, .. } => FoldFailure::Replay {
                aggregate_type: aggregate_type@,
            },
        }
    }
}

impl FoldError {
    /// What the error says.
    pub open spec fn message(&self) -> Seq<char> {
        match self {
            FoldError::Misaligned {
                aggregate_type,
                subject,
                event_type,
                category,
                subject_id,
                aggregate_id,
            } => "aggregator for `"@ + aggregate_type@ + "` declares subject `"@ + subject@
                + "` (restorable) but folded event `"@ + event_type@ + "` from stream `"@
                + category@ + "-"@ + id_chars(*subject_id) + "` with extracted id "@ + id_chars(
                *aggregate_id,
            ) + " — a restorable aggregate must fold exactly its own stream"@,
            FoldError::Apply { key, event_type, revision, cause } => "fold failed for aggregate "@
                + key@ + " on event `"@ + event_type@ + "` (revision "@ + decimal_chars(
                revision.0 as nat,
            ) + "): "@ + cause@,
            FoldError::NotConverged { event_type, category, subject_id, revision } =>
                "fold_event: gap repair did not converge for event `"@ + event_type@
                + "` (stream "@ + category@ + "-"@ + id_chars(*subject_id) + ", revision "@
                + decimal_chars(revision.0 as nat)
                + ") — the aggregate stream is missing revisions it claims to have"@,
            FoldError::Replay { cause, .. } => cause@,
        }
    }

    pub fn to_text(&self) -> (text: String)
        ensures
            text@ == self.message(),
    {
        match self {
            FoldError::Misaligned {
                aggregate_type,
                subject,
                event_type,
                category,
                subject_id,
                aggregate_id,
            } => {
                let mut text = "aggregator for `".to_owned();
                text.append(aggregate_type.as_str());
                text.append("` declares subject `");
                text.append(subject.as_str());
                text.append("` (restorable) but folded event `");
                text.append(event_type.as_str());
                text.append("` from stream `");
                text.append(category.as_str());
                text.append("-");
                text.append(id_text(*subject_id).as_str());
                text.append("` with extracted id ");
                text.append(id_text(*aggregate_id).as_str());
                text.append(" — a restorable aggregate must fold exactly its own stream");
                text
            },
            FoldError::Apply { key, event_type, revision, cause } => {
                let mut text = "fold failed for aggregate ".to_owned();
                text.append(key.as_str());
                text.append(" on event `");
                text.append(event_type.as_str());
                text.append("` (revision ");
                text.append(decimal(revision.0).as_str());
                text.append("): ");
                text.append(cause.as_str());
                text
            },
            FoldError::NotConverged { event_type, category, subject_id, revision } => {
                let mut text = "fold_event: gap repair did not converge for event `".to_owned();
                text.append(event_type.as_str());
                text.append("` (stream ");
                text.append(category.as_str());
                text.append("-");
                text.append(id_text(*subject_id).as_str());
                text.append(", revision ");
                text.append(decimal(revision.0).as_str());
                text.append(") — the aggregate stream is missing revisions it claims to have");
                text
            },
            FoldError::Replay { cause, .. } => cause.clone(),
        }
    }
}

/// Whose turn it is when one state meets one delivery.
#[derive(Clone, Copy, Debug, PartialEq, Eq, Structural)]
pub enum Turn {
    /// The event is next: fold it.
    Fold,
    /// The event was folded before. `exact_prev`: it was the last one, so the
    /// previous-state slot still holds the state before it.
    Skip { exact_prev: bool },
    /// Events between the watermark and this one are missing.
    Gap { expected: u64 },
}

/// The idempotency rule.
///
/// An aligned aggregate folds exactly the revision its watermark expects. An
/// aggregate that fans in orders deliveries by position and, within one
/// position, by revision; it folds what is newer than its last fold, and
/// anything at all when it holds nothing yet.
pub open spec fn turn(aligned: bool, marks: Option<Marks>, revision: u64, position: u64) -> Turn {
    let version: u64 = match marks {
        Some(m) => m.version.0,
        None => 0,
    };
    if aligned {
        if revision < version {
            Turn::Skip { exact_prev: revision + 1 == version }
        } else if revision > version {
            Turn::Gap { expected: version }
        } else {
            Turn::Fold
        }
    } else {
        match marks {
            None => Turn::Fold,
            Some(m) => if position > m.last_pos.0 || (position == m.last_pos.0 && revision + 1
                > m.version.0) {
                Turn::Fold
            } else {
                Turn::Skip {
                    exact_prev: position == m.last_pos.0 && revision + 1 == m.version.0,
                }
            },
        }
    }
}

/// The idempotency rule, decided.
pub fn decide_turn(
    aligned: bool,
    marks: Option<Marks>,
    revision: StreamRevision,
    position: LogCursor,
) -> (decision: Turn)
    requires
        revision.0 < u64::MAX,
    ensures
        decision == turn(aligned, marks, revision.0, position.0),
{
    if aligned {
        let version: u64 = match marks {
            Some(m) => m.version.0,
            None => 0,
        };
        if revision.0 < version {
            Turn::Skip { exact_prev: revision.0 + 1 == version }
        } else if revision.0 > version {
            Turn::Gap { expected: version }
        } else {
            Turn::Fold
        }
    } else {
        match marks {
            None => Turn::Fold,
            Some(m) => {
                let same_pos = position.0 == m.last_pos.0;
                if position.0 > m.last_pos.0 || (same_pos && revision.0 + 1 > m.version.0) {
                    Turn::Fold
                } else {
                    Turn::Skip { exact_prev: same_pos && revision.0 + 1 == m.version.0 }
                }
            },
        }
    }
}

/// A delivery in progress: the states, what was done so far, and the failure
/// that stopped it, if one did.
pub struct Progress<S> {
    pub table: Map<Seq<char>, Entry<S>>,
    pub outcome: OutcomeView<S>,
    pub failure: Option<FoldFailure>,
}

/// The watermarks under `key`.
pub open spec fn marks_at<S>(table: Map<Seq<char>, Entry<S>>, key: Seq<char>) -> Option<Marks> {
    if table.contains_key(key) {
        Some(table[key].marks)
    } else {
        None
    }
}

/// The state under `key`, or `initial` where there is none.
pub open spec fn state_or<S>(
    table: Map<Seq<char>, Entry<S>>,
    key: Seq<char>,
    initial: S,
) -> S {
    if table.contains_key(key) {
        table[key].state
    } else {
        initial
    }
}

/// The table after `post` was folded over `pre` at `key`: the entry advances
/// past the delivery and keeps its snapshot version, and the previous-state
/// slot takes `pre`.
pub open spec fn fold_into<S>(
    table: Map<Seq<char>, Entry<S>>,
    key: Seq<char>,
    pre: S,
    post: S,
    revision: u64,
    position: u64,
) -> Map<Seq<char>, Entry<S>> {
    table.insert(
        key,
        Entry {
            state: post,
            marks: Marks {
                version: StreamRevision((revision + 1) as u64),
                last_pos: LogCursor(position),
                snapshot_at: match marks_at(table, key) {
                    Some(m) => m.snapshot_at,
                    None => StreamRevision(0),
                },
            },
        },
    ).insert(
        prev_key(key),
        Entry {
            state: pre,
            marks: Marks {
                version: StreamRevision(0),
                last_pos: LogCursor(0),
                snapshot_at: StreamRevision(0),
            },
        },
    )
}

/// Whether a payload can be applied at all: one that cannot even be applied to
/// the initial state does not decode.
pub open spec fn readable<B: FoldFns>(fns: B, payload: JsonView) -> bool {
    fns.applied(fns.initial(), payload) is Some
}

/// What delivering `at` does through one aggregator. A payload that cannot be
/// read fails the delivery; only one that can is skipped for want of an id.
pub open spec fn deliver_one<B: FoldFns>(
    agg: AggregatorView<B>,
    at: Delivery,
    p: Progress<B::State>,
) -> Progress<B::State> {
    if p.failure is Some || agg.event_prefix != at.event_type {
        p
    } else {
        match agg.fns.extracted(at.payload) {
            None => if readable(agg.fns, at.payload) {
                p
            } else {
                Progress {
                    failure: Some(
                        FoldFailure::Apply {
                            key: state_key(agg.aggregate_type, at.subject_id),
                            event_type: at.event_type,
                            revision: at.revision,
                        },
                    ),
                    ..p
                }
            },
            Some(id) => {
                let aligned = agg.subject.len() > 0;
                let key = state_key(agg.aggregate_type, id);
                if aligned && (id != at.subject_id || agg.subject != at.category) {
                    Progress {
                        failure: Some(
                            FoldFailure::Misaligned {
                                aggregate_type: agg.aggregate_type,
                                subject: agg.subject,
                                event_type: at.event_type,
                                category: at.category,
                                subject_id: at.subject_id,
                                aggregate_id: id,
                            },
                        ),
                        ..p
                    }
                } else {
                    match turn(aligned, marks_at(p.table, key), at.revision, at.position) {
                        Turn::Fold => {
                            let pre = state_or(p.table, key, agg.fns.initial());
                            match agg.fns.applied(pre, at.payload) {
                                None => Progress {
                                    failure: Some(
                                        FoldFailure::Apply {
                                            key,
                                            event_type: at.event_type,
                                            revision: at.revision,
                                        },
                                    ),
                                    ..p
                                },
                                Some(post) => Progress {
                                    table: fold_into(
                                        p.table,
                                        key,
                                        pre,
                                        post,
                                        at.revision,
                                        at.position,
                                    ),
                                    outcome: OutcomeView {
                                        snapshots: p.outcome.snapshots.insert(key, (pre, post)),
                                        applied: true,
                                        gaps: p.outcome.gaps,
                                    },
                                    failure: None,
                                },
                            }
                        },
                        Turn::Skip { exact_prev } => {
                            let curr = state_or(p.table, key, agg.fns.initial());
                            let prev = if exact_prev {
                                state_or(p.table, prev_key(key), curr)
                            } else {
                                curr
                            };
                            Progress {
                                outcome: OutcomeView {
                                    snapshots: p.outcome.snapshots.insert(key, (prev, curr)),
                                    ..p.outcome
                                },
                                ..p
                            }
                        },
                        Turn::Gap { expected } => Progress {
                            outcome: OutcomeView {
                                gaps: p.outcome.gaps.push(
                                    GapView {
                                        aggregate_type: agg.aggregate_type,
                                        subject: agg.subject,
                                        id,
                                        expected,
                                    },
                                ),
                                ..p.outcome
                            },
                            ..p
                        },
                    }
                }
            },
        }
    }
}

/// What delivering `at` does through the first `n` aggregators.
pub open spec fn deliver_upto<B: FoldFns>(
    aggs: Seq<AggregatorView<B>>,
    n: nat,
    at: Delivery,
    table: Map<Seq<char>, Entry<B::State>>,
) -> Progress<B::State>
    decreases n,
{
    if n == 0 {
        Progress { table, outcome: no_outcome(), failure: None }
    } else {
        deliver_one(aggs[n - 1], at, deliver_upto(aggs, (n - 1) as nat, at, table))
    }
}

/// What delivering `at` does: every aggregator in registration order, up to
/// the first failure. Folds made before a failure stay.
pub open spec fn deliver<B: FoldFns>(
    aggs: Seq<AggregatorView<B>>,
    at: Delivery,
    table: Map<Seq<char>, Entry<B::State>>,
) -> Progress<B::State> {
    deliver_upto(aggs, aggs.len(), at, table)
}

/// Aggregators with the states they folded.
pub struct AggregatorRegistry<B: FoldFns> {
    aggregators: Vec<Aggregator<B>>,
    state: StateTable<B::State>,
}

/// The aggregators of a list.
pub open spec fn aggregator_views<B>(aggs: Seq<Aggregator<B>>) -> Seq<AggregatorView<B>> {
    Seq::new(aggs.len(), |i: int| aggs[i]@)
}

impl<B: FoldFns> AggregatorRegistry<B> {
    /// The registered aggregators, in registration order.
    pub closed spec fn aggs(&self) -> Seq<AggregatorView<B>> {
        aggregator_views(self.aggregators@)
    }

    /// The states by key.
    pub closed spec fn table(&self) -> Map<Seq<char>, Entry<B::State>> {
        self.state@
    }

    pub closed spec fn wf(&self) -> bool {
        self.state.wf()
    }

    /// A registry of nothing.
    pub fn new() -> (reg: Self)
        ensures
            reg.wf(),
            reg.aggs() == Seq::<AggregatorView<B>>::empty(),
            reg.table() == Map::<Seq<char>, Entry<B::State>>::empty(),
    {
        let reg = AggregatorRegistry { aggregators: Vec::new(), state: StateTable::new() };
        assert(reg.aggs() =~= Seq::<AggregatorView<B>>::empty());
        reg
    }

    /// Adds an aggregator behind those already registered.
    pub fn register(&mut self, aggregator: Aggregator<B>)
        requires
            old(self).wf(),
        ensures
            final(self).wf(),
            final(self).aggs() == old(self).aggs().push(aggregator@),
            final(self).table() == old(self).table(),
    {
        self.aggregators.push(aggregator);
        assert(self.aggs() =~= old(self).aggs().push(aggregator@));
    }

    /// Delivers an event to every aggregator of its kind.
    ///
    /// Each one folds it, skips it as already folded, or reports the gap that
    /// stands before it; an aggregator that restores from a stream refuses an
    /// event from any other. A payload that does not decode fails the delivery.
    pub fn apply_event(
        &mut self,
        event_type: &str,
        payload: &Json,
        subject_id: u128,
        category: &str,
        revision: StreamRevision,
        position: LogCursor,
    ) -> (r: Result<FoldOutcome<B::State>, FoldError>)
        requires
            old(self).wf(),
            revision.0 < u64::MAX,
        ensures
            final(self).wf(),
            final(self).aggs() == old(self).aggs(),
            ({
                let at = Delivery {
                    event_type: event_type@,
                    payload: payload@,
                    subject_id,
                    category: category@,
                    revision: revision.0,
                    position: position.0,
                };
                let p = deliver(old(self).aggs(), at, old(self).table());
                &&& final(self).table() == p.table
                &&& match r {
                    Ok(outcome) => p.failure is None && outcome@ == p.outcome
                        && outcome.snapshots.wf(),
                    Err(e) => p.failure == Some(e@) && tells_cause(old(self).aggs(), seq![at], e),
                }
            }),
    {
        let ghost at = Delivery {
            event_type: event_type@,
            payload: payload@,
            subject_id,
            category: category@,
            revision: revision.0,
            position: position.0,
        };
        let ghost aggs = self.aggs();
        let ghost start = self.table();
        let mut snapshots: TransitionSnapshots<B::State> = TransitionSnapshots::empty();
        let mut applied = false;
        let mut gaps: Vec<FoldGap> = Vec::new();
        assert(gap_views(gaps@) =~= Seq::<GapView>::empty());
        let mut i: usize = 0;
        while i < self.aggregators.len()
            invariant
                i <= self.aggregators@.len(),
                self.wf(),
                self.aggregators == old(self).aggregators,
                aggs == self.aggs(),
                at == (Delivery {
                    event_type: event_type@,
                    payload: payload@,
                    subject_id,
                    category: category@,
                    revision: revision.0,
                    position: position.0,
                }),
                start == old(self).table(),
                revision.0 < u64::MAX,
                snapshots.wf(),
                deliver_upto(aggs, i as nat, at, start) == (Progress {
                    table: self.table(),
                    outcome: OutcomeView { snapshots: snapshots@, applied, gaps: gap_views(gaps@) },
                    failure: None,
                }),
            decreases self.aggregators@.len() - i,
        {
            proof {
                lemma_failure_sticks(aggs, (i + 1) as nat, aggs.len(), at, start);
            }
            let ghost before = deliver_upto(aggs, i as nat, at, start);
            let ghost agg_view = aggs[i as int];
            assert(agg_view == self.aggregators@[i as int]@);
            if same(self.aggregators[i].event_prefix.as_str(), event_type) {
                let extracted = self.aggregators[i].fns.extract_id_from_json(payload);
                if extracted.is_none() {
                    let mut blank = self.aggregators[i].fns.default_state();
                    match self.aggregators[i].fns.apply_to(&mut blank, payload) {
                        Ok(()) => {},
                        Err(cause) => {
                            assert(refuses(agg_view.fns, payload@, cause@));
                            let e = FoldError::Apply {
                                key: state_key_text(
                                    self.aggregators[i].aggregate_type.as_str(),
                                    subject_id,
                                ),
                                event_type: event_type.to_owned(),
                                revision,
                                cause,
                            };
                            proof {
                                lemma_cause_told(aggs, seq![at], i as int, 0, e);
                            }
                            return Err(e);
                        },
                    }
                }
                if let Some(id) = extracted {
                    let aligned = !self.aggregators[i].subject.as_str().is_empty();
                    if aligned && (id != subject_id || !same(
                        self.aggregators[i].subject.as_str(),
                        category,
                    )) {
                        return Err(
                            FoldError::Misaligned {
                                aggregate_type: self.aggregators[i].aggregate_type.clone(),
                                subject: self.aggregators[i].subject.clone(),
                                event_type: event_type.to_owned(),
                                category: category.to_owned(),
                                subject_id,
                                aggregate_id: id,
                            },
                        );
                    }
                    let key = state_key_text(self.aggregators[i].aggregate_type.as_str(), id);
                    let marks = self.state.marks(key.as_str());
                    match decide_turn(aligned, marks, revision, position) {
                        Turn::Fold => {
                            let pre = self.state_or_default(i, key.as_str());
                            let mut post = self.aggregators[i].fns.clone_state(&pre);
                            match self.aggregators[i].fns.apply_to(&mut post, payload) {
                                Ok(()) => {},
                                Err(cause) => {
                                    assert(refuses(agg_view.fns, payload@, cause@));
                                    let e = FoldError::Apply {
                                        key,
                                        event_type: event_type.to_owned(),
                                        revision,
                                        cause,
                                    };
                                    proof {
                                        lemma_cause_told(aggs, seq![at], i as int, 0, e);
                                    }
                                    return Err(e);
                                },
                            }
                            let stored = self.aggregators[i].fns.clone_state(&post);
                            let slot = self.aggregators[i].fns.clone_state(&pre);
                            self.store_fold(key.as_str(), slot, stored, revision, position);
                            applied = true;
                            snapshots.insert(key, pre, post);
                        },
                        Turn::Skip { exact_prev } => {
                            let curr = self.state_or_default(i, key.as_str());
                            let prev = if exact_prev {
                                let slot = prev_key_text(key.as_str());
                                match self.state.state(slot.as_str()) {
                                    Some(state) => self.aggregators[i].fns.clone_state(state),
                                    None => self.aggregators[i].fns.clone_state(&curr),
                                }
                            } else {
                                self.aggregators[i].fns.clone_state(&curr)
                            };
                            snapshots.insert(key, prev, curr);
                        },
                        Turn::Gap { expected } => {
                            let ghost was = gaps@;
                            gaps.push(
                                FoldGap {
                                    aggregate_type: self.aggregators[i].aggregate_type.clone(),
                                    subject: self.aggregators[i].subject.clone(),
                                    id,
                                    expected: StreamRevision(expected),
                                },
                            );
                            assert(gap_views(gaps@) =~= gap_views(was).push(
                                GapView {
                                    aggregate_type: agg_view.aggregate_type,
                                    subject: agg_view.subject,
                                    id,
                                    expected,
                                },
                            ));
                        },
                    }
                }
            }
            i += 1;
        }
        Ok(FoldOutcome { snapshots, applied, gaps })
    }

    /// The state under `key`, or what aggregator `i` starts from.
    fn state_or_default(&self, i: usize, key: &str) -> (state: B::State)
        requires
            self.wf(),
            i < self.aggs().len(),
        ensures
            state == state_or(self.table(), key@, self.aggs()[i as int].fns.initial()),
    {
        match self.state.state(key) {
            Some(state) => self.aggregators[i].fns.clone_state(state),
            None => self.aggregators[i].fns.default_state(),
        }
    }

    /// Stores a fold.
    fn store_fold(
        &mut self,
        key: &str,
        pre: B::State,
        post: B::State,
        revision: StreamRevision,
        position: LogCursor,
    )
        requires
            old(self).wf(),
            revision.0 < u64::MAX,
        ensures
            final(self).wf(),
            final(self).aggregators == old(self).aggregators,
            final(self).table() == fold_into(
                old(self).table(),
                key@,
                pre,
                post,
                revision.0,
                position.0,
            ),
    {
        let snapshot_at = match self.state.marks(key) {
            Some(m) => m.snapshot_at,
            None => StreamRevision::zero(),
        };
        self.state.put(
            key,
            post,
            Marks { version: StreamRevision(revision.0 + 1), last_pos: position, snapshot_at },
        );
        let slot = prev_key_text(key);
        self.state.put(
            slot.as_str(),
            pre,
            Marks {
                version: StreamRevision::zero(),
                last_pos: LogCursor::zero(),
                snapshot_at: StreamRevision::zero(),
            },
        );
    }
}

/// The table after `state` at `version` was installed under `key`. An entry
/// only ever moves forward, and keeps its position watermark.
pub open spec fn installed<S>(
    table: Map<Seq<char>, Entry<S>>,
    key: Seq<char>,
    state: S,
    version: StreamRevision,
    snapshot_at: StreamRevision,
) -> Map<Seq<char>, Entry<S>> {
    match marks_at(table, key) {
        Some(m) => if version.0 > m.version.0 {
            table.insert(
                key,
                Entry { state, marks: Marks { version, last_pos: m.last_pos, snapshot_at } },
            )
        } else {
            table
        },
        None => table.insert(
            key,
            Entry { state, marks: Marks { version, last_pos: LogCursor(0), snapshot_at } },
        ),
    }
}

/// The table after the entry under `key`, if any, moved past a delivery that
/// does not concern it.
pub open spec fn passed<S>(
    table: Map<Seq<char>, Entry<S>>,
    key: Seq<char>,
    revision: u64,
    position: u64,
) -> Map<Seq<char>, Entry<S>> {
    match marks_at(table, key) {
        Some(m) => table.insert(
            key,
            Entry {
                state: table[key].state,
                marks: Marks {
                    version: if revision + 1 > m.version.0 {
                        StreamRevision((revision + 1) as u64)
                    } else {
                        m.version
                    },
                    last_pos: if position > m.last_pos.0 {
                        LogCursor(position)
                    } else {
                        m.last_pos
                    },
                    snapshot_at: m.snapshot_at,
                },
            },
        ),
        None => table,
    }
}

/// The first aggregator of a type, if one is registered.
pub open spec fn first_of_type<B>(aggs: Seq<AggregatorView<B>>, aggregate_type: Seq<char>) -> Option<
    int,
>
    decreases aggs.len(),
{
    if aggs.len() == 0 {
        None
    } else {
        match first_of_type(aggs.drop_last(), aggregate_type) {
            Some(i) => Some(i),
            None => if aggs.last().aggregate_type == aggregate_type {
                Some(aggs.len() - 1)
            } else {
                None
            },
        }
    }
}

/// The first aggregator of a type has that type, and none before it does.
pub proof fn lemma_first_of_type<B>(aggs: Seq<AggregatorView<B>>, aggregate_type: Seq<char>)
    ensures
        match first_of_type(aggs, aggregate_type) {
            Some(i) => 0 <= i < aggs.len() && aggs[i].aggregate_type == aggregate_type && forall|
                j: int,
            |
                0 <= j < i ==> (#[trigger] aggs[j]).aggregate_type != aggregate_type,
            None => forall|j: int|
                0 <= j < aggs.len() ==> (#[trigger] aggs[j]).aggregate_type != aggregate_type,
        },
    decreases aggs.len(),
{
    if aggs.len() > 0 {
        let rest = aggs.drop_last();
        lemma_first_of_type(rest, aggregate_type);
        match first_of_type(rest, aggregate_type) {
            Some(i) => {
                assert(aggs[i] == rest[i]);
                assert forall|j: int| 0 <= j < i implies (#[trigger] aggs[j]).aggregate_type
                    != aggregate_type by {
                    assert(rest[j] == aggs[j]);
                }
            },
            None => {
                assert forall|j: int| 0 <= j < rest.len() implies (#[trigger] aggs[j]).aggregate_type
                    != aggregate_type by {
                    assert(rest[j] == aggs[j]);
                }
            },
        }
    }
}

/// The state after an event is replayed through the first `n` aggregators of
/// its kind and of the aggregate type; `None` once one cannot apply it.
pub open spec fn replay_upto<B: FoldFns>(
    aggs: Seq<AggregatorView<B>>,
    n: nat,
    aggregate_type: Seq<char>,
    state: B::State,
    event_type: Seq<char>,
    payload: JsonView,
) -> Option<B::State>
    decreases n,
{
    if n == 0 {
        Some(state)
    } else {
        match replay_upto(aggs, (n - 1) as nat, aggregate_type, state, event_type, payload) {
            None => None,
            Some(s) => {
                let agg = aggs[n - 1];
                if agg.aggregate_type == aggregate_type && agg.event_prefix == event_type {
                    agg.fns.applied(s, payload)
                } else {
                    Some(s)
                }
            },
        }
    }
}

/// The state after a run of events is replayed onto `state`.
pub open spec fn replayed<B: FoldFns>(
    aggs: Seq<AggregatorView<B>>,
    aggregate_type: Seq<char>,
    state: B::State,
    events: Seq<Delivery>,
) -> Option<B::State>
    decreases events.len(),
{
    if events.len() == 0 {
        Some(state)
    } else {
        match replayed(aggs, aggregate_type, state, events.drop_last()) {
            None => None,
            Some(s) => replay_upto(
                aggs,
                aggs.len(),
                aggregate_type,
                s,
                events.last().event_type,
                events.last().payload,
            ),
        }
    }
}

/// The state that the aggregator at `i` finds as event `k` of a replay reaches
/// it; `None` if the replay failed before.
pub open spec fn replayed_until<B: FoldFns>(
    aggs: Seq<AggregatorView<B>>,
    aggregate_type: Seq<char>,
    state: B::State,
    events: Seq<Delivery>,
    k: int,
    i: int,
) -> Option<B::State> {
    match replayed(aggs, aggregate_type, state, events.take(k)) {
        None => None,
        Some(s) => replay_upto(
            aggs,
            i as nat,
            aggregate_type,
            s,
            events[k].event_type,
            events[k].payload,
        ),
    }
}

/// A replay that failed on a prefix fails as a whole.
proof fn lemma_replay_failure_sticks<B: FoldFns>(
    aggs: Seq<AggregatorView<B>>,
    aggregate_type: Seq<char>,
    state: B::State,
    events: Seq<Delivery>,
    n: int,
)
    requires
        0 <= n <= events.len(),
        replayed(aggs, aggregate_type, state, events.take(n)) is None,
    ensures
        replayed(aggs, aggregate_type, state, events) is None,
    decreases events.len() - n,
{
    if n < events.len() {
        assert(events.take(n + 1).drop_last() =~= events.take(n));
        lemma_replay_failure_sticks(aggs, aggregate_type, state, events, n + 1);
    } else {
        assert(events.take(n) =~= events);
    }
}

proof fn lemma_replay_upto_sticks<B: FoldFns>(
    aggs: Seq<AggregatorView<B>>,
    m: nat,
    n: nat,
    aggregate_type: Seq<char>,
    state: B::State,
    event_type: Seq<char>,
    payload: JsonView,
)
    requires
        m <= n,
        replay_upto(aggs, m, aggregate_type, state, event_type, payload) is None,
    ensures
        replay_upto(aggs, n, aggregate_type, state, event_type, payload) is None,
    decreases n,
{
    if m < n {
        lemma_replay_upto_sticks(
            aggs,
            m,
            (n - 1) as nat,
            aggregate_type,
            state,
            event_type,
            payload,
        );
    }
}

impl<B: FoldFns> AggregatorRegistry<B> {
    /// Whether nothing is registered.
    pub fn is_empty(&self) -> (empty: bool)
        ensures
            empty == (self.aggs().len() == 0),
    {
        self.aggregators.len() == 0
    }

    /// How many aggregators are registered.
    pub fn len(&self) -> (n: usize)
        ensures
            n == self.aggs().len(),
    {
        self.aggregators.len()
    }

    /// The aggregator registered at `i`.
    pub fn aggregator(&self, i: usize) -> (agg: &Aggregator<B>)
        requires
            i < self.aggs().len(),
        ensures
            agg@ == self.aggs()[i as int],
    {
        &self.aggregators[i]
    }

    /// The aggregators of an event kind, in registration order.
    pub fn find_by_durable_name(&self, durable_name: &str) -> (found: Vec<&Aggregator<B>>)
        ensures
            Seq::new(found@.len(), |i: int| found@[i]@) == self.aggs().filter(
                |a: AggregatorView<B>| a.event_prefix == durable_name@,
            ),
    {
        let ghost of_kind = |a: AggregatorView<B>| a.event_prefix == durable_name@;
        let mut found: Vec<&Aggregator<B>> = Vec::new();
        let mut i: usize = 0;
        assert(self.aggs().take(0).filter(of_kind) =~= Seq::empty());
        assert(Seq::new(found@.len(), |i: int| found@[i]@) =~= Seq::<AggregatorView<B>>::empty());
        while i < self.aggregators.len()
            invariant
                i <= self.aggregators@.len(),
                of_kind == (|a: AggregatorView<B>| a.event_prefix == durable_name@),
                Seq::new(found@.len(), |i: int| found@[i]@) == self.aggs().take(i as int).filter(
                    of_kind,
                ),
            decreases self.aggregators@.len() - i,
        {
            let ghost was = found@;
            assert(self.aggs().take(i + 1) =~= self.aggs().take(i as int).push(
                self.aggs()[i as int],
            ));
            proof {
                reveal(Seq::filter);
                assert(self.aggs().take(i + 1).drop_last() =~= self.aggs().take(i as int));
            }
            if same(self.aggregators[i].event_prefix.as_str(), durable_name) {
                found.push(&self.aggregators[i]);
                assert(Seq::new(found@.len(), |i: int| found@[i]@) =~= Seq::new(
                    was.len(),
                    |i: int| was[i]@,
                ).push(self.aggs()[i as int]));
            }
            i += 1;
        }
        assert(self.aggs().take(i as int) =~= self.aggs());
        found
    }

    /// The first aggregator registered for an aggregate type.
    pub fn find_first_by_aggregate_type(&self, aggregate_type: &str) -> (found: Option<
        &Aggregator<B>,
    >)
        ensures
            match first_of_type(self.aggs(), aggregate_type@) {
                Some(i) => found is Some && found->0@ == self.aggs()[i],
                None => found is None,
            },
    {
        match self.first_index(aggregate_type) {
            Some(i) => Some(&self.aggregators[i]),
            None => None,
        }
    }

    /// Where the first aggregator of an aggregate type stands.
    pub fn first_index(&self, aggregate_type: &str) -> (at: Option<usize>)
        ensures
            match at {
                Some(i) => first_of_type(self.aggs(), aggregate_type@) == Some(i as int) && i
                    < self.aggs().len(),
                None => first_of_type(self.aggs(), aggregate_type@) is None,
            },
    {
        let mut i: usize = 0;
        while i < self.aggregators.len()
            invariant
                i <= self.aggregators@.len(),
                forall|j: int|
                    0 <= j < i ==> (#[trigger] self.aggs()[j]).aggregate_type != aggregate_type@,
            decreases self.aggregators@.len() - i,
        {
            assert(self.aggs()[i as int] == self.aggregators@[i as int]@);
            if same(self.aggregators[i].aggregate_type.as_str(), aggregate_type) {
                proof {
                    lemma_first_of_type(self.aggs(), aggregate_type@);
                }
                return Some(i);
            }
            i += 1;
        }
        proof {
            lemma_first_of_type(self.aggs(), aggregate_type@);
        }
        None
    }

    /// The aggregate types, each once, in order of first registration.
    pub fn unique_aggregate_types(&self) -> (types: Vec<&str>)
        ensures
            Seq::new(types@.len(), |i: int| types@[i]@) == unique_types(self.aggs()),
    {
        let mut types: Vec<&str> = Vec::new();
        let mut i: usize = 0;
        assert(unique_types(self.aggs().take(0)) =~= Seq::empty());
        assert(Seq::new(types@.len(), |i: int| types@[i]@) =~= Seq::<Seq<char>>::empty());
        while i < self.aggregators.len()
            invariant
                i <= self.aggregators@.len(),
                Seq::new(types@.len(), |i: int| types@[i]@) == unique_types(
                    self.aggs().take(i as int),
                ),
            decreases self.aggregators@.len() - i,
        {
            let ghost was = types@;
            let ghost views = Seq::new(was.len(), |i: int| was[i]@);
            assert(self.aggs().take(i + 1).drop_last() =~= self.aggs().take(i as int));
            let name = self.aggregators[i].aggregate_type.as_str();
            let mut seen = false;
            let mut j: usize = 0;
            while j < types.len()
                invariant
                    j <= types@.len(),
                    types@ == was,
                    seen == exists|k: int| 0 <= k < j && (#[trigger] was[k])@ == name@,
                decreases types@.len() - j,
            {
                if same(types[j], name) {
                    seen = true;
                }
                j += 1;
            }
            assert(seen == views.contains(name@)) by {
                if seen {
                    let k = choose|k: int| 0 <= k < j && (#[trigger] was[k])@ == name@;
                    assert(views[k] == name@);
                }
                if views.contains(name@) {
                    let k = choose|k: int| 0 <= k < views.len() && views[k] == name@;
                    assert(was[k]@ == name@);
                }
            }
            if !seen {
                types.push(name);
                assert(Seq::new(types@.len(), |i: int| types@[i]@) =~= views.push(name@));
            }
            i += 1;
        }
        assert(self.aggs().take(i as int) =~= self.aggs());
        types
    }

    /// The `(aggregate_type, subject, id)` triples that an event folds into:
    /// one for each aggregator of its kind that finds an id.
    pub fn restore_targets(&self, event_type: &str, payload: &Json) -> (targets: Vec<
        (String, String, u128),
    >)
        ensures
            target_views(targets@) == targets_of(self.aggs(), event_type@, payload@),
    {
        let mut targets: Vec<(String, String, u128)> = Vec::new();
        let mut i: usize = 0;
        assert(targets_of(self.aggs().take(0), event_type@, payload@) =~= Seq::empty());
        assert(target_views(targets@) =~= Seq::<(Seq<char>, Seq<char>, u128)>::empty());
        while i < self.aggregators.len()
            invariant
                i <= self.aggregators@.len(),
                target_views(targets@) == targets_of(
                    self.aggs().take(i as int),
                    event_type@,
                    payload@,
                ),
            decreases self.aggregators@.len() - i,
        {
            let ghost was = targets@;
            assert(self.aggs().take(i + 1).drop_last() =~= self.aggs().take(i as int));
            if same(self.aggregators[i].event_prefix.as_str(), event_type) {
                if let Some(id) = self.aggregators[i].fns.extract_id_from_json(payload) {
                    targets.push(
                        (
                            self.aggregators[i].aggregate_type.clone(),
                            self.aggregators[i].subject.clone(),
                            id,
                        ),
                    );
                    assert(target_views(targets@) =~= target_views(was).push(
                        (self.aggs()[i as int].aggregate_type, self.aggs()[i as int].subject, id),
                    ));
                }
            }
            i += 1;
        }
        assert(self.aggs().take(i as int) =~= self.aggs());
        targets
    }

    /// The `(prev, next)` transition of an aggregate: where nothing was folded,
    /// the aggregate's initial state.
    pub fn get_transition(&self, aggregate_type: &str, id: u128) -> (pair: (B::State, B::State))
        requires
            self.wf(),
            first_of_type(self.aggs(), aggregate_type@) is Some,
        ensures
            pair == transition_of(self.aggs(), self.table(), aggregate_type@, id),
    {
        let key = state_key_text(aggregate_type, id);
        let slot = prev_key_text(key.as_str());
        let i: usize = match self.first_index(aggregate_type) {
            Some(i) => i,
            None => 0,
        };
        let prev = self.state_or_default(i, slot.as_str());
        let next = self.state_or_default(i, key.as_str());
        (prev, next)
    }

    /// The transition of an aggregate, to be shared.
    pub fn get_transition_arc(&self, aggregate_type: &str, id: u128) -> (pair: (
        Arc<B::State>,
        Arc<B::State>,
    ))
        requires
            self.wf(),
            first_of_type(self.aggs(), aggregate_type@) is Some,
        ensures
            (*pair.0, *pair.1) == transition_of(self.aggs(), self.table(), aggregate_type@, id),
    {
        let (prev, next) = self.get_transition(aggregate_type, id);
        (Arc::new(prev), Arc::new(next))
    }

    /// The transition of an aggregate that exists once, under the nil id.
    pub fn get_singleton(&self, aggregate_type: &str) -> (pair: (B::State, B::State))
        requires
            self.wf(),
            first_of_type(self.aggs(), aggregate_type@) is Some,
        ensures
            pair == transition_of(self.aggs(), self.table(), aggregate_type@, 0),
    {
        self.get_transition(aggregate_type, 0)
    }

    /// The transition of a singleton aggregate, to be shared.
    pub fn get_singleton_arc(&self, aggregate_type: &str) -> (pair: (
        Arc<B::State>,
        Arc<B::State>,
    ))
        requires
            self.wf(),
            first_of_type(self.aggs(), aggregate_type@) is Some,
        ensures
            (*pair.0, *pair.1) == transition_of(self.aggs(), self.table(), aggregate_type@, 0),
    {
        self.get_transition_arc(aggregate_type, 0)
    }

    /// Whether a state is held under `key`.
    pub fn has_state(&self, key: &str) -> (held: bool)
        ensures
            held == self.table().contains_key(key@),
    {
        self.state.contains(key)
    }

    /// Installs a restored state, unless the entry is as far or farther.
    pub fn set_state(
        &mut self,
        key: &str,
        state: B::State,
        version: StreamRevision,
        snapshot_at_version: StreamRevision,
    )
        requires
            old(self).wf(),
        ensures
            final(self).wf(),
            final(self).aggs() == old(self).aggs(),
            final(self).table() == installed(
                old(self).table(),
                key@,
                state,
                version,
                snapshot_at_version,
            ),
    {
        match self.state.marks(key) {
            Some(m) => {
                if version.0 > m.version.0 {
                    self.state.put(
                        key,
                        state,
                        Marks { version, last_pos: m.last_pos, snapshot_at: snapshot_at_version },
                    );
                }
            },
            None => {
                self.state.put(
                    key,
                    state,
                    Marks {
                        version,
                        last_pos: LogCursor::zero(),
                        snapshot_at: snapshot_at_version,
                    },
                );
            },
        }
    }

    /// Moves the watermarks of `key`, if held, past a delivery without
    /// changing its state.
    pub fn advance_watermark(&mut self, key: &str, revision: StreamRevision, position: LogCursor)
        requires
            old(self).wf(),
            revision.0 < u64::MAX,
        ensures
            final(self).wf(),
            final(self).aggs() == old(self).aggs(),
            final(self).table() == passed(old(self).table(), key@, revision.0, position.0),
    {
        if let Some(m) = self.state.marks(key) {
            let version = if revision.0 + 1 > m.version.0 {
                StreamRevision(revision.0 + 1)
            } else {
                m.version
            };
            let last_pos = if position.0 > m.last_pos.0 {
                position
            } else {
                m.last_pos
            };
            self.state.set_marks(key, Marks { version, last_pos, snapshot_at: m.snapshot_at });
        }
    }

    /// The version of `key`; zero where nothing is held.
    pub fn get_version(&self, key: &str) -> (version: StreamRevision)
        ensures
            version == (match marks_at(self.table(), key@) {
                Some(m) => m.version,
                None => StreamRevision(0),
            }),
    {
        match self.state.marks(key) {
            Some(m) => m.version,
            None => StreamRevision::zero(),
        }
    }

    /// The version at which `key` was last saved; zero where it never was.
    pub fn get_snapshot_at_version(&self, key: &str) -> (version: StreamRevision)
        ensures
            version == (match marks_at(self.table(), key@) {
                Some(m) => m.snapshot_at,
                None => StreamRevision(0),
            }),
    {
        match self.state.marks(key) {
            Some(m) => m.snapshot_at,
            None => StreamRevision::zero(),
        }
    }

    /// Records that `key`, if held, was saved at `version`.
    pub fn update_snapshot_at_version(&mut self, key: &str, version: StreamRevision)
        requires
            old(self).wf(),
        ensures
            final(self).wf(),
            final(self).aggs() == old(self).aggs(),
            final(self).table() == saved_at(old(self).table(), key@, version),
    {
        if let Some(m) = self.state.marks(key) {
            self.state.set_marks(
                key,
                Marks { version: m.version, last_pos: m.last_pos, snapshot_at: version },
            );
        }
    }

    /// The state under `key`.
    pub fn get_state(&self, key: &str) -> (state: Option<&B::State>)
        requires
            self.wf(),
        ensures
            match state {
                Some(state) => self.table().contains_key(key@) && *state == self.table()[key@].state,
                None => !self.table().contains_key(key@),
            },
    {
        self.state.state(key)
    }

    /// A copy of the entry under `key`, made by the aggregator at `i`.
    pub(crate) fn copy_entry(&self, i: usize, key: &str) -> (entry: Option<Entry<B::State>>)
        requires
            self.wf(),
            i < self.aggs().len(),
        ensures
            entry == (if self.table().contains_key(key@) {
                Some(self.table()[key@])
            } else {
                None
            }),
    {
        match (self.state.state(key), self.state.marks(key)) {
            (Some(state), Some(marks)) => Some(
                Entry { state: self.aggregators[i].fns.clone_state(state), marks },
            ),
            _ => None,
        }
    }

    /// Makes `entry` what stands under `key`; `None` leaves nothing there.
    pub(crate) fn put_entry(&mut self, key: &str, entry: Option<Entry<B::State>>)
        requires
            old(self).wf(),
        ensures
            final(self).wf(),
            final(self).aggs() == old(self).aggs(),
            final(self).table() == (match entry {
                Some(e) => old(self).table().insert(key@, e),
                None => old(self).table().remove(key@),
            }),
    {
        match entry {
            Some(e) => self.state.put(key, e.state, e.marks),
            None => self.state.remove(key),
        }
    }

    /// Forgets the state under `key` together with its previous-state slot.
    pub fn remove_state(&mut self, key: &str)
        requires
            old(self).wf(),
        ensures
            final(self).wf(),
            final(self).aggs() == old(self).aggs(),
            final(self).table() == old(self).table().remove(key@).remove(prev_key(key@)),
    {
        self.state.remove(key);
        let slot = prev_key_text(key);
        self.state.remove(slot.as_str());
    }

    /// Replays events onto a state through the aggregators of its type. Where
    /// one refuses an event the state stays as that refusal left it, with all
    /// that was replayed before.
    pub fn replay_events_onto(
        &self,
        aggregate_type: &str,
        state: &mut B::State,
        events: &Vec<RecordedEvent>,
    ) -> (r: Result<(), FoldError>)
        ensures
            match r {
                Ok(()) => replayed(
                    self.aggs(),
                    aggregate_type@,
                    *old(state),
                    deliveries(events@),
                ) == Some(*final(state)),
                Err(e) => replayed(
                    self.aggs(),
                    aggregate_type@,
                    *old(state),
                    deliveries(events@),
                ) is None && e@ == (FoldFailure::Replay { aggregate_type: aggregate_type@ })
                    && tells_cause(self.aggs(), deliveries(events@), e) && exists|
                    k: int,
                    i: int,
                    slot: &mut B::State,
                    cause: String,
                |
                    {
                        &&& 0 <= k < events@.len()
                        &&& 0 <= i < self.aggs().len()
                        &&& self.aggs()[i].aggregate_type == aggregate_type@
                        &&& self.aggs()[i].event_prefix == events@[k].event_type@
                        &&& replayed_until(
                            self.aggs(),
                            aggregate_type@,
                            *old(state),
                            deliveries(events@),
                            k,
                            i,
                        ) == Some(*slot)
                        &&& *final(slot) == *final(state)
                        &&& e.cause_text() == Some(cause@)
                        &&& #[trigger] call_ensures(
                            B::apply_to,
                            (&self.aggs()[i].fns, slot, &events@[k].payload),
                            Err(cause),
                        )
                    },
            },
    {
        let ghost all = deliveries(events@);
        let ghost aggs = self.aggs();
        let mut k: usize = 0;
        assert(all.take(0) =~= Seq::empty());
        while k < events.len()
            invariant
                k <= events@.len(),
                all == deliveries(events@),
                aggs == self.aggs(),
                replayed(aggs, aggregate_type@, *old(state), all.take(k as int)) == Some(*state),
            decreases events@.len() - k,
        {
            let ghost start = *state;
            let ghost at = all[k as int];
            assert(all.take(k + 1).drop_last() =~= all.take(k as int));
            let mut i: usize = 0;
            while i < self.aggregators.len()
                invariant
                    i <= self.aggregators@.len(),
                    k < events@.len(),
                    all == deliveries(events@),
                    aggs == self.aggs(),
                    at == all[k as int],
                    all.take(k + 1).drop_last() == all.take(k as int),
                    replayed(aggs, aggregate_type@, *old(state), all.take(k as int)) == Some(start),
                    replay_upto(
                        aggs,
                        i as nat,
                        aggregate_type@,
                        start,
                        at.event_type,
                        at.payload,
                    ) == Some(*state),
                decreases self.aggregators@.len() - i,
            {
                assert(aggs[i as int] == self.aggregators@[i as int]@);
                if same(self.aggregators[i].aggregate_type.as_str(), aggregate_type) && same(
                    self.aggregators[i].event_prefix.as_str(),
                    events[k].event_type.as_str(),
                ) {
                    match self.aggregators[i].fns.apply_to(state, &events[k].payload) {
                        Ok(()) => {},
                        Err(cause) => {
                            assert(refuses(aggs[i as int].fns, events@[k as int].payload@, cause@));
                            proof {
                                lemma_replay_upto_sticks(
                                    aggs,
                                    (i + 1) as nat,
                                    aggs.len(),
                                    aggregate_type@,
                                    start,
                                    at.event_type,
                                    at.payload,
                                );
                                lemma_replay_failure_sticks(
                                    aggs,
                                    aggregate_type@,
                                    *old(state),
                                    all,
                                    k + 1,
                                );
                            }
                            let e = FoldError::Replay {
                                aggregate_type: aggregate_type.to_owned(),
                                cause,
                            };
                            proof {
                                lemma_cause_told(aggs, all, i as int, k as int, e);
                            }
                            return Err(e);
                        },
                    }
                }
                i += 1;
            }
            k += 1;
        }
        assert(all.take(k as int) =~= all);
        Ok(())
    }
}

/// The last transition of an aggregate: the states before and after the fold
/// that touched it last, or the initial state where nothing was folded.
pub open spec fn transition_of<B: FoldFns>(
    aggs: Seq<AggregatorView<B>>,
    table: Map<Seq<char>, Entry<B::State>>,
    aggregate_type: Seq<char>,
    id: u128,
) -> (B::State, B::State) {
    let key = state_key(aggregate_type, id);
    let initial = aggs[first_of_type(aggs, aggregate_type)->0].fns.initial();
    (state_or(table, prev_key(key), initial), state_or(table, key, initial))
}

/// The table after `key`, if held, was saved at `version`.
pub open spec fn saved_at<S>(
    table: Map<Seq<char>, Entry<S>>,
    key: Seq<char>,
    version: StreamRevision,
) -> Map<Seq<char>, Entry<S>> {
    match marks_at(table, key) {
        Some(m) => table.insert(
            key,
            Entry {
                state: table[key].state,
                marks: Marks { version: m.version, last_pos: m.last_pos, snapshot_at: version },
            },
        ),
        None => table,
    }
}

/// The aggregate types of a list, each at its first occurrence.
pub open spec fn unique_types<B>(aggs: Seq<AggregatorView<B>>) -> Seq<Seq<char>>
    decreases aggs.len(),
{
    if aggs.len() == 0 {
        Seq::empty()
    } else {
        let rest = unique_types(aggs.drop_last());
        if rest.contains(aggs.last().aggregate_type) {
            rest
        } else {
            rest.push(aggs.last().aggregate_type)
        }
    }
}

/// What an event folds into, aggregator by aggregator.
pub open spec fn targets_of<B: FoldFns>(
    aggs: Seq<AggregatorView<B>>,
    event_type: Seq<char>,
    payload: JsonView,
) -> Seq<(Seq<char>, Seq<char>, u128)>
    decreases aggs.len(),
{
    if aggs.len() == 0 {
        Seq::empty()
    } else {
        let rest = targets_of(aggs.drop_last(), event_type, payload);
        let agg = aggs.last();
        if agg.event_prefix == event_type {
            match agg.fns.extracted(payload) {
                Some(id) => rest.push((agg.aggregate_type, agg.subject, id)),
                None => rest,
            }
        } else {
            rest
        }
    }
}

/// Restore targets, as mathematics.
pub open spec fn target_views(targets: Seq<(String, String, u128)>) -> Seq<
    (Seq<char>, Seq<char>, u128),
> {
    Seq::new(targets.len(), |i: int| (targets[i].0@, targets[i].1@, targets[i].2))
}

/// A failed delivery changes no more.
proof fn lemma_failure_sticks<B: FoldFns>(
    aggs: Seq<AggregatorView<B>>,
    m: nat,
    n: nat,
    at: Delivery,
    table: Map<Seq<char>, Entry<B::State>>,
)
    requires
        m <= n,
    ensures
        deliver_upto(aggs, m, at, table).failure is Some ==> deliver_upto(aggs, n, at, table)
            == deliver_upto(aggs, m, at, table),
    decreases n,
{
    if m < n {
        lemma_failure_sticks(aggs, m, (n - 1) as nat, at, table);
    }
}

} // verus!
