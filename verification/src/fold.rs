//! Folding one event into a registry: gaps are repaired by reading the
//! aggregate's own stream, and states are restored from snapshots.
//!
//! Reading streams and snapshots is the caller's business. A fold is a
//! conversation: it asks for what it needs, and the caller answers.

use vstd::prelude::*;

use crate::aggregator::{AggregatorView, FoldFns};
use crate::registry::{
    deliver, first_of_type, gap_views, installed, lemma_cause_of_more, lemma_first_of_type, passed,
    replayed, tells_cause, AggregatorRegistry, FoldError, FoldFailure, FoldGap, GapView,
};
use crate::state_table::Entry;
use crate::text::same;
use crate::transitions::{state_key, state_key_text};
use crate::types::{deliveries, Delivery, RecordedEvent, Snapshot, StreamRevision};

verus! {

/// The revision after which a stream is read to find what an entry that
/// expects `expected` is missing; `None` reads all of it.
pub open spec fn read_after(expected: u64) -> Option<StreamRevision> {
    if expected == 0 {
        None
    } else {
        Some(StreamRevision((expected - 1) as u64))
    }
}

/// The table with an empty entry for a gapped aggregate that has none, so that
/// events foreign to it can move its watermark.
pub open spec fn seeded<B: FoldFns>(
    aggs: Seq<AggregatorView<B>>,
    table: Map<Seq<char>, Entry<B::State>>,
    aggregate_type: Seq<char>,
    id: u128,
) -> Map<Seq<char>, Entry<B::State>> {
    let key = state_key(aggregate_type, id);
    match first_of_type(aggs, aggregate_type) {
        Some(i) => if table.contains_key(key) {
            table
        } else {
            installed(table, key, aggs[i].fns.initial(), StreamRevision(0), StreamRevision(0))
        },
        None => table,
    }
}

/// A repair in progress.
pub struct Repair<S> {
    pub table: Map<Seq<char>, Entry<S>>,
    pub failure: Option<FoldFailure>,
    /// An event at or past the bound was met.
    pub stopped: bool,
}

/// Whether `gaps` holds a gap of the aggregate itself.
pub open spec fn self_gapped(gaps: Seq<GapView>, aggregate_type: Seq<char>, id: u128) -> bool {
    exists|i: int|
        0 <= i < gaps.len() && (#[trigger] gaps[i]).aggregate_type == aggregate_type && gaps[i].id
            == id
}

/// What the first `n` events of a tail do to a gapped aggregate's table. Each
/// is delivered to every aggregator of its kind; the aggregate's own watermark
/// then moves past it, unless the aggregate itself gapped on it. An event at
/// or past the bound ends the repair.
pub open spec fn repair_upto<B: FoldFns>(
    aggs: Seq<AggregatorView<B>>,
    aggregate_type: Seq<char>,
    id: u128,
    upto: Option<StreamRevision>,
    tail: Seq<Delivery>,
    n: nat,
    table: Map<Seq<char>, Entry<B::State>>,
) -> Repair<B::State>
    decreases n,
{
    if n == 0 {
        Repair { table, failure: None, stopped: false }
    } else {
        let r = repair_upto(aggs, aggregate_type, id, upto, tail, (n - 1) as nat, table);
        let e = tail[n - 1];
        if r.failure is Some || r.stopped {
            r
        } else if upto matches Some(bound) && e.revision >= bound.0 {
            Repair { stopped: true, ..r }
        } else {
            let p = deliver(aggs, e, r.table);
            if p.failure is Some {
                Repair { table: p.table, failure: p.failure, stopped: false }
            } else if self_gapped(p.outcome.gaps, aggregate_type, id) {
                Repair { table: p.table, failure: None, stopped: false }
            } else {
                Repair {
                    table: passed(
                        p.table,
                        state_key(aggregate_type, id),
                        e.revision,
                        e.position,
                    ),
                    failure: None,
                    stopped: false,
                }
            }
        }
    }
}

/// A repair that failed or reached its bound changes no more.
pub proof fn lemma_repair_rests<B: FoldFns>(
    aggs: Seq<AggregatorView<B>>,
    aggregate_type: Seq<char>,
    id: u128,
    upto: Option<StreamRevision>,
    tail: Seq<Delivery>,
    m: nat,
    n: nat,
    table: Map<Seq<char>, Entry<B::State>>,
)
    requires
        m <= n,
    ensures
        ({
            let r = repair_upto(aggs, aggregate_type, id, upto, tail, m, table);
            r.failure is Some || r.stopped ==> repair_upto(
                aggs,
                aggregate_type,
                id,
                upto,
                tail,
                n,
                table,
            ) == r
        }),
    decreases n,
{
    if m < n {
        lemma_repair_rests(aggs, aggregate_type, id, upto, tail, m, (n - 1) as nat, table);
    }
}

/// Every revision of a run of events leaves room for the next one.
pub open spec fn revisions_fit(events: Seq<RecordedEvent>) -> bool {
    forall|i: int| 0 <= i < events.len() ==> (#[trigger] events[i]).revision.0 < u64::MAX
}

/// Folds the part of a stream that a gapped aggregate is missing, up to but
/// without the bound.
pub fn repair_gap<B: FoldFns>(
    reg: &mut AggregatorRegistry<B>,
    gap: &FoldGap,
    upto: Option<StreamRevision>,
    tail: &Vec<RecordedEvent>,
) -> (r: Result<(), FoldError>)
    requires
        old(reg).wf(),
        revisions_fit(tail@),
    ensures
        final(reg).wf(),
        final(reg).aggs() == old(reg).aggs(),
        ({
            let end = repair_upto(
                old(reg).aggs(),
                gap@.aggregate_type,
                gap.id,
                upto,
                deliveries(tail@),
                tail@.len(),
                old(reg).table(),
            );
            &&& final(reg).table() == end.table
            &&& match r {
                Ok(()) => end.failure is None,
                Err(e) => end.failure == Some(e@) && tells_cause(
                    old(reg).aggs(),
                    deliveries(tail@),
                    e,
                ),
            }
        }),
{
    let key = state_key_text(gap.aggregate_type.as_str(), gap.id);
    let ghost all = deliveries(tail@);
    let ghost aggs = reg.aggs();
    let ghost start = reg.table();
    let ghost name = gap@.aggregate_type;
    let mut i: usize = 0;
    while i < tail.len()
        invariant
            i <= tail@.len(),
            reg.wf(),
            revisions_fit(tail@),
            all == deliveries(tail@),
            aggs == reg.aggs(),
            aggs == old(reg).aggs(),
            start == old(reg).table(),
            name == gap@.aggregate_type,
            key@ == state_key(name, gap.id),
            repair_upto(aggs, name, gap.id, upto, all, i as nat, start) == (Repair {
                table: reg.table(),
                failure: None,
                stopped: false,
            }),
        decreases tail@.len() - i,
    {
        let e = &tail[i];
        assert(all[i as int] == e.delivery());
        proof {
            lemma_repair_rests(
                aggs,
                name,
                gap.id,
                upto,
                all,
                (i + 1) as nat,
                tail@.len(),
                start,
            );
        }
        if let Some(bound) = upto {
            if e.revision.0 >= bound.0 {
                return Ok(());
            }
        }
        match reg.apply_event(
            e.event_type.as_str(),
            &e.payload,
            e.subject_id,
            e.category.as_str(),
            e.revision,
            e.position,
        ) {
            Ok(outcome) => {
                if !holds_own_gap(&outcome.gaps, gap.aggregate_type.as_str(), gap.id) {
                    reg.advance_watermark(key.as_str(), e.revision, e.position);
                }
            },
            Err(e) => {
                proof {
                    lemma_cause_of_more(aggs, seq![all[i as int]], all, e);
                }
                return Err(e);
            },
        }
        i += 1;
    }
    Ok(())
}

/// Whether a list of gaps holds one of the aggregate itself.
fn holds_own_gap(gaps: &Vec<FoldGap>, aggregate_type: &str, id: u128) -> (own: bool)
    ensures
        own == self_gapped(gap_views(gaps@), aggregate_type@, id),
{
    let mut i: usize = 0;
    while i < gaps.len()
        invariant
            i <= gaps@.len(),
            forall|j: int|
                0 <= j < i ==> !((#[trigger] gap_views(gaps@)[j]).aggregate_type == aggregate_type@
                    && gap_views(gaps@)[j].id == id),
        decreases gaps@.len() - i,
    {
        assert(gap_views(gaps@)[i as int] == gaps@[i as int]@);
        if gaps[i].id == id && same(gaps[i].aggregate_type.as_str(), aggregate_type) {
            return true;
        }
        i += 1;
    }
    false
}

/// Gives a gapped aggregate without a state an empty one.
pub fn seed_gap<B: FoldFns>(reg: &mut AggregatorRegistry<B>, gap: &FoldGap)
    requires
        old(reg).wf(),
    ensures
        final(reg).wf(),
        final(reg).aggs() == old(reg).aggs(),
        final(reg).table() == seeded(
            old(reg).aggs(),
            old(reg).table(),
            gap@.aggregate_type,
            gap.id,
        ),
{
    let key = state_key_text(gap.aggregate_type.as_str(), gap.id);
    if !reg.has_state(key.as_str()) {
        if let Some(i) = reg.first_index(gap.aggregate_type.as_str()) {
            let state = reg.aggregator(i).fns.default_state();
            reg.set_state(key.as_str(), state, StreamRevision::zero(), StreamRevision::zero());
        }
    }
}

/// Whether a state can be restored.
#[derive(Clone, Copy, Debug, PartialEq, Eq, Structural)]
pub enum Restorable {
    /// The aggregate declares no stream, or is not registered.
    No,
    /// Its state is held already.
    Held,
    /// From its snapshot and its stream.
    Yes,
}

/// The state a restore starts from.
pub struct RestoreSeed<S> {
    pub state: S,
    /// The last revision folded into `state`.
    pub after: Option<StreamRevision>,
    /// The version the entry will record as saved.
    pub snapshot_at: StreamRevision,
    /// The stored snapshot does not decode and is to be deleted.
    pub discard: bool,
}

/// What a restore starts from: the snapshot's state where it decodes, else the
/// initial state. The version at which the last snapshot was taken is recorded
/// even where it does not decode and is to be deleted.
pub open spec fn restore_seed_of<B: FoldFns>(
    agg: AggregatorView<B>,
    snapshot: Option<Snapshot>,
) -> RestoreSeed<B::State> {
    let blank = RestoreSeed {
        state: agg.fns.initial(),
        after: None,
        snapshot_at: StreamRevision(0),
        discard: false,
    };
    match snapshot {
        None => blank,
        Some(s) => {
            let snapshot_at = StreamRevision((s.revision.0 + 1) as u64);
            match agg.fns.deserialized(s.state@) {
                Some(state) => RestoreSeed {
                    state,
                    after: Some(s.revision),
                    snapshot_at,
                    discard: false,
                },
                None => RestoreSeed { snapshot_at, discard: true, ..blank },
            }
        },
    }
}

/// Whether `aggregate_type` with `id` can be restored from `subject`.
pub fn restore_start<B: FoldFns>(
    reg: &AggregatorRegistry<B>,
    aggregate_type: &str,
    subject: &str,
    id: u128,
) -> (start: Restorable)
    ensures
        start == (if subject@.len() == 0 {
            Restorable::No
        } else if reg.table().contains_key(state_key(aggregate_type@, id)) {
            Restorable::Held
        } else if first_of_type(reg.aggs(), aggregate_type@) is None {
            Restorable::No
        } else {
            Restorable::Yes
        }),
{
    if subject.is_empty() {
        Restorable::No
    } else {
        let key = state_key_text(aggregate_type, id);
        if reg.has_state(key.as_str()) {
            Restorable::Held
        } else {
            match reg.first_index(aggregate_type) {
                None => Restorable::No,
                Some(_) => Restorable::Yes,
            }
        }
    }
}

/// The state a restore starts from, given the stored snapshot.
pub fn restore_seed<B: FoldFns>(
    reg: &AggregatorRegistry<B>,
    aggregate_type: &str,
    snapshot: &Option<Snapshot>,
) -> (seed: RestoreSeed<B::State>)
    requires
        first_of_type(reg.aggs(), aggregate_type@) is Some,
        snapshot matches Some(s) ==> s.revision.0 < u64::MAX,
    ensures
        seed == restore_seed_of(
            reg.aggs()[first_of_type(reg.aggs(), aggregate_type@)->0],
            *snapshot,
        ),
{
    let i: usize = match reg.first_index(aggregate_type) {
        Some(i) => i,
        None => 0,
    };
    let fns = &reg.aggregator(i).fns;
    match snapshot {
        None => RestoreSeed {
            state: fns.default_state(),
            after: None,
            snapshot_at: StreamRevision::zero(),
            discard: false,
        },
        Some(s) => {
            let snapshot_at = StreamRevision(s.revision.0 + 1);
            match fns.deserialize_state(&s.state) {
                Ok(state) => RestoreSeed {
                    state,
                    after: Some(s.revision),
                    snapshot_at,
                    discard: false,
                },
                Err(_) => RestoreSeed {
                    state: fns.default_state(),
                    after: None,
                    snapshot_at,
                    discard: true,
                },
            }
        },
    }
}

/// The version a restored state has: one past the last event folded into it.
pub open spec fn restored_version(after: Option<StreamRevision>, tail: Seq<Delivery>) -> StreamRevision {
    if tail.len() > 0 {
        StreamRevision((tail.last().revision + 1) as u64)
    } else {
        match after {
            Some(r) => StreamRevision((r.0 + 1) as u64),
            None => StreamRevision(0),
        }
    }
}

/// Replays the tail behind a seed and installs the result. `false`: there was
/// neither a snapshot nor an event.
pub fn restore_finish<B: FoldFns>(
    reg: &mut AggregatorRegistry<B>,
    aggregate_type: &str,
    id: u128,
    seed: RestoreSeed<B::State>,
    tail: &Vec<RecordedEvent>,
) -> (r: Result<bool, FoldError>)
    requires
        old(reg).wf(),
        revisions_fit(tail@),
        seed.after matches Some(r) ==> r.0 < u64::MAX,
    ensures
        final(reg).wf(),
        final(reg).aggs() == old(reg).aggs(),
        ({
            let events = deliveries(tail@);
            match replayed(old(reg).aggs(), aggregate_type@, seed.state, events) {
                None => final(reg).table() == old(reg).table() && (r matches Err(e) && e@ == (
                FoldFailure::Replay { aggregate_type: aggregate_type@ }) && tells_cause(
                    old(reg).aggs(),
                    events,
                    e,
                )),
                Some(state) => if seed.after is None && events.len() == 0 {
                    r == Ok::<bool, FoldError>(false) && final(reg).table() == old(reg).table()
                } else {
                    r == Ok::<bool, FoldError>(true) && final(reg).table() == installed(
                        old(reg).table(),
                        state_key(aggregate_type@, id),
                        state,
                        restored_version(seed.after, events),
                        seed.snapshot_at,
                    )
                },
            }
        }),
{
    let RestoreSeed { state, after, snapshot_at, .. } = seed;
    let mut state = state;
    if tail.len() > 0 {
        match reg.replay_events_onto(aggregate_type, &mut state, tail) {
            Ok(()) => {},
            Err(e) => {
                return Err(e);
            },
        }
    } else if after.is_none() {
        return Ok(false);
    }
    let version = if tail.len() > 0 {
        let last = tail[tail.len() - 1].revision;
        StreamRevision(last.0 + 1)
    } else {
        match after {
            Some(r) => StreamRevision(r.0 + 1),
            None => StreamRevision::zero(),
        }
    };
    let key = state_key_text(aggregate_type, id);
    reg.set_state(key.as_str(), state, version, snapshot_at);
    Ok(true)
}

/// A state is restored only where its aggregate declares a stream and is
/// registered, and only where it is not held already.
pub proof fn law_restores_only_what_is_missing<B: FoldFns>(
    reg: &AggregatorRegistry<B>,
    aggregate_type: &str,
    subject: &str,
    id: u128,
    start: Restorable,
)
    requires
        call_ensures(restore_start::<B>, (reg, aggregate_type, subject, id), start),
    ensures
        ({
            let held = reg.table().contains_key(state_key(aggregate_type@, id));
            let registered = exists|i: int|
                0 <= i < reg.aggs().len() && (#[trigger] reg.aggs()[i]).aggregate_type
                    == aggregate_type@;
            &&& start is Yes <==> subject@.len() > 0 && !held && registered
            &&& start is Held <==> subject@.len() > 0 && held
        }),
{
    lemma_first_of_type(reg.aggs(), aggregate_type@);
    if let Some(i) = first_of_type(reg.aggs(), aggregate_type@) {
        assert(reg.aggs()[i].aggregate_type == aggregate_type@);
    }
}

/// A restore starts from the stored state and reads on after its revision; from
/// the initial state, reading everything, where nothing is stored or what is
/// does not decode, which alone is discarded.
pub proof fn law_restores_start_from_the_snapshot<B: FoldFns>(
    reg: &AggregatorRegistry<B>,
    aggregate_type: &str,
    snapshot: &Option<Snapshot>,
    seed: RestoreSeed<B::State>,
    j: int,
)
    requires
        call_ensures(restore_seed::<B>, (reg, aggregate_type, snapshot), seed),
        snapshot matches Some(s) ==> s.revision.0 < u64::MAX,
        0 <= j < reg.aggs().len(),
        reg.aggs()[j].aggregate_type == aggregate_type@,
        forall|k: int|
            0 <= k < j ==> (#[trigger] reg.aggs()[k]).aggregate_type != aggregate_type@,
    ensures
        ({
            let fns = reg.aggs()[j].fns;
            let decoded = match snapshot {
                Some(s) => fns.deserialized(s.state@),
                None => None,
            };
            &&& decoded matches Some(state) ==> seed.state == state && seed.after == Some(
                snapshot->0.revision,
            ) && !seed.discard
            &&& decoded is None ==> seed.state == fns.initial() && seed.after is None
            &&& seed.discard <==> snapshot is Some && decoded is None
            &&& snapshot is Some ==> seed.snapshot_at.0 == snapshot->0.revision.0 + 1
            &&& snapshot is None ==> seed.snapshot_at.0 == 0
        }),
{
    lemma_first_of_type(reg.aggs(), aggregate_type@);
}

/// A restore installs what replaying the tail onto the seed gives, one past the
/// last event of either, unless the registry is as far. Without a seed and
/// without events there is nothing to restore; a tail that cannot be replayed
/// changes nothing.
pub proof fn law_restores_install_the_replayed_state<B: FoldFns>(
    reg: &mut AggregatorRegistry<B>,
    aggregate_type: &str,
    id: u128,
    seed: RestoreSeed<B::State>,
    tail: &Vec<RecordedEvent>,
    r: Result<bool, FoldError>,
)
    requires
        call_ensures(restore_finish::<B>, (reg, aggregate_type, id, seed, tail), r),
        revisions_fit(tail@),
        seed.after matches Some(r) ==> r.0 < u64::MAX,
    ensures
        ({
            let key = state_key(aggregate_type@, id);
            let before = old(reg).table();
            let after = final(reg).table();
            let end = replayed(old(reg).aggs(), aggregate_type@, seed.state, deliveries(tail@));
            let version: int = if tail@.len() > 0 {
                tail@[tail@.len() - 1].revision.0 + 1
            } else {
                match seed.after {
                    Some(r) => r.0 + 1,
                    None => 0,
                }
            };
            &&& r is Err <==> end is None
            &&& r is Err || r == Ok::<bool, FoldError>(false) ==> after == before
            &&& r == Ok::<bool, FoldError>(false) <==> end is Some && seed.after is None
                && tail@.len() == 0
            &&& r == Ok::<bool, FoldError>(true) ==> {
                &&& after.contains_key(key)
                &&& !before.contains_key(key) || before[key].marks.version.0 < version ==> Some(
                    after[key].state,
                ) == end && after[key].marks.version.0 == version && after[key].marks.snapshot_at
                    == seed.snapshot_at
                &&& before.contains_key(key) && before[key].marks.version.0 >= version ==> after
                    == before
            }
            &&& forall|other: Seq<char>|
                other != key ==> (#[trigger] after.contains_key(other) <==> before.contains_key(
                    other,
                )) && (before.contains_key(other) ==> after[other] == before[other])
        }),
{
    let all = deliveries(tail@);
    assert(all.len() == tail@.len());
    if tail@.len() > 0 {
        assert(all.last() == tail@[tail@.len() - 1].delivery());
    }
}

/// A gap is repaired event by event: each before the bound is delivered like
/// any other, and the gapped aggregate then stands past it unless it is still
/// missing an earlier one. At the bound, or where a delivery fails, the repair
/// ends and later events change nothing.
pub proof fn law_repairs_go_event_by_event<B: FoldFns>(
    aggs: Seq<AggregatorView<B>>,
    aggregate_type: Seq<char>,
    id: u128,
    upto: Option<StreamRevision>,
    tail: Seq<Delivery>,
    next: Delivery,
    table: Map<Seq<char>, Entry<B::State>>,
)
    ensures
        ({
            let before = repair_upto(aggs, aggregate_type, id, upto, tail, tail.len(), table);
            let all = tail.push(next);
            let after = repair_upto(aggs, aggregate_type, id, upto, all, all.len(), table);
            let p = deliver(aggs, next, before.table);
            let key = state_key(aggregate_type, id);
            let own = exists|i: int|
                0 <= i < p.outcome.gaps.len() && (
                #[trigger] p.outcome.gaps[i]).aggregate_type == aggregate_type
                    && p.outcome.gaps[i].id == id;
            &&& tail.len() == 0 ==> before.table == table && before.failure is None
                && !before.stopped
            &&& before.failure is Some || before.stopped ==> after == before
            &&& before.failure is None && !before.stopped ==> {
                let bound = upto matches Some(b) && next.revision >= b.0;
                &&& bound ==> after.table == before.table && after.failure is None && after.stopped
                &&& !bound ==> after.failure == p.failure && !after.stopped
                &&& !bound && (p.failure is Some || own) ==> after.table == p.table
                &&& !bound && p.failure is None && !own ==> {
                    &&& after.table.dom() == p.table.dom()
                    &&& p.table.contains_key(key) && next.revision < u64::MAX ==> {
                        &&& after.table[key].state == p.table[key].state
                        &&& after.table[key].marks.version.0 > next.revision
                        &&& after.table[key].marks.version.0 >= p.table[key].marks.version.0
                    }
                    &&& forall|other: Seq<char>|
                        other != key && p.table.contains_key(other) ==> #[trigger] after.table[other]
                            == p.table[other]
                }
            }
        }),
{
    let all = tail.push(next);
    lemma_same_repair(aggs, aggregate_type, id, upto, tail, all, tail.len(), table);
    let before = repair_upto(aggs, aggregate_type, id, upto, tail, tail.len(), table);
    let p = deliver(aggs, next, before.table);
    let after = repair_upto(aggs, aggregate_type, id, upto, all, all.len(), table);
    assert(all[all.len() - 1] == next);
    if before.failure is None && !before.stopped && p.failure is None && !self_gapped(
        p.outcome.gaps,
        aggregate_type,
        id,
    ) && !(upto matches Some(b) && next.revision >= b.0) {
        assert(after.table == passed(
            p.table,
            state_key(aggregate_type, id),
            next.revision,
            next.position,
        ));
        assert(after.table.dom() =~= p.table.dom());
    }
}

proof fn lemma_same_repair<B: FoldFns>(
    aggs: Seq<AggregatorView<B>>,
    aggregate_type: Seq<char>,
    id: u128,
    upto: Option<StreamRevision>,
    a: Seq<Delivery>,
    b: Seq<Delivery>,
    n: nat,
    table: Map<Seq<char>, Entry<B::State>>,
)
    requires
        n <= a.len(),
        n <= b.len(),
        forall|i: int| 0 <= i < n ==> a[i] == b[i],
    ensures
        repair_upto(aggs, aggregate_type, id, upto, a, n, table) == repair_upto(
            aggs,
            aggregate_type,
            id,
            upto,
            b,
            n,
            table,
        ),
    decreases n,
{
    if n > 0 {
        lemma_same_repair(aggs, aggregate_type, id, upto, a, b, (n - 1) as nat, table);
    }
}

/// A gapped aggregate that holds nothing is given its initial state, at no
/// revision; one that holds a state, or is not registered, is left as it is.
pub proof fn law_gaps_are_seeded_empty<B: FoldFns>(
    reg: &mut AggregatorRegistry<B>,
    gap: &FoldGap,
    j: int,
)
    requires
        call_ensures(seed_gap::<B>, (reg, gap), ()),
        0 <= j < old(reg).aggs().len(),
        old(reg).aggs()[j].aggregate_type == gap.aggregate_type@,
        forall|k: int|
            0 <= k < j ==> (#[trigger] old(reg).aggs()[k]).aggregate_type != gap.aggregate_type@,
    ensures
        ({
            let key = state_key(gap.aggregate_type@, gap.id);
            let before = old(reg).table();
            let after = final(reg).table();
            &&& before.contains_key(key) ==> after == before
            &&& !before.contains_key(key) ==> after.contains_key(key) && after[key].state
                == old(reg).aggs()[j].fns.initial() && after[key].marks.version.0 == 0
            &&& forall|other: Seq<char>|
                other != key ==> (#[trigger] after.contains_key(other) <==> before.contains_key(
                    other,
                )) && (before.contains_key(other) ==> after[other] == before[other])
        }),
{
    lemma_first_of_type(old(reg).aggs(), gap.aggregate_type@);
}

} // verus!
