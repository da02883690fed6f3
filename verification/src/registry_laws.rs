//! What a registry does with the events it is given.

use vstd::prelude::*;

use crate::aggregator::{Aggregator, AggregatorView, FoldFns};
use crate::json::{Json, JsonView};
use crate::registry::{
    decide_turn, deliver, deliver_one, deliver_upto, lemma_first_of_type, no_outcome, replay_upto,
    replayed, target_views, targets_of, unique_types, AggregatorRegistry, FoldError, FoldOutcome, Progress, Turn,
};
use crate::rollback::{
    law_rollback_undoes_a_delivery, lemma_put_back, touched, Rollback,
};
use crate::state_table::{Entry, Marks};
use crate::transitions::{lemma_prev_key_apart, prev_key, state_key};
use crate::types::{Delivery, LogCursor, StreamRevision};

verus! {

/// An event is folded once and in order. A restorable aggregate folds exactly
/// the revision it has not folded yet, and says what is missing where an
/// earlier one is; one that fans in folds whatever is later than its last.
pub proof fn law_turns_come_in_order(
    aligned: bool,
    marks: Option<Marks>,
    revision: StreamRevision,
    position: LogCursor,
    decision: Turn,
)
    requires
        call_ensures(decide_turn, (aligned, marks, revision, position), decision),
    ensures
        ({
            let next: int = match marks {
                Some(m) => m.version.0 as int,
                None => 0,
            };
            &&& aligned ==> {
                &&& decision is Fold <==> revision.0 == next
                &&& decision is Skip <==> revision.0 < next
                &&& decision is Gap <==> revision.0 > next
                &&& decision matches Turn::Gap { expected } ==> expected == next
                &&& decision matches Turn::Skip { exact_prev } ==> (exact_prev <==> revision.0 + 1
                    == next)
            }
            &&& !aligned ==> {
                &&& !(decision is Gap)
                &&& decision is Fold <==> (marks matches Some(m) ==> position.0 > m.last_pos.0 || (
                position.0 == m.last_pos.0 && revision.0 >= m.version.0))
                &&& decision matches Turn::Skip { exact_prev } ==> (exact_prev <==> (
                marks matches Some(m) && position.0 == m.last_pos.0 && revision.0 + 1
                    == m.version.0))
            }
        }),
{
}

/// Aggregators of other kinds have no part in a delivery.
proof fn lemma_only_one_takes_part<B: FoldFns>(
    aggs: Seq<AggregatorView<B>>,
    n: nat,
    j: int,
    at: Delivery,
    table: Map<Seq<char>, Entry<B::State>>,
)
    requires
        0 <= j < aggs.len(),
        n <= aggs.len(),
        forall|i: int|
            0 <= i < aggs.len() && i != j ==> (#[trigger] aggs[i]).event_prefix != at.event_type,
    ensures
        ({
            let start = Progress { table, outcome: no_outcome(), failure: None };
            deliver_upto(aggs, n, at, table) == (if j < n {
                deliver_one(aggs[j], at, start)
            } else {
                start
            })
        }),
    decreases n,
{
    if n > 0 {
        lemma_only_one_takes_part(aggs, (n - 1) as nat, j, at, table);
        if n - 1 != j {
            assert(aggs[n - 1].event_prefix != at.event_type);
        }
    }
}

/// What delivering an event does to the one aggregate that it concerns.
///
/// It is folded exactly where it is its turn: the state is then what applying
/// the payload to the one before gives, one revision further; the one before
/// is kept beside it; and both are reported. Where it was folded already, the
/// states are reported as they are and nothing changes; where an earlier one
/// is missing, that is reported and nothing changes. A restorable aggregate
/// refuses an event from outside its own stream. A payload that cannot be
/// applied is an error. No other state is touched.
pub proof fn law_deliveries_fold_their_aggregate<B: FoldFns>(
    reg: &mut AggregatorRegistry<B>,
    event_type: &str,
    payload: &Json,
    subject_id: u128,
    category: &str,
    revision: StreamRevision,
    position: LogCursor,
    r: Result<FoldOutcome<B::State>, FoldError>,
    j: int,
    id: u128,
)
    requires
        call_ensures(
            AggregatorRegistry::<B>::apply_event,
            (reg, event_type, payload, subject_id, category, revision, position),
            r,
        ),
        revision.0 < u64::MAX,
        0 <= j < old(reg).aggs().len(),
        old(reg).aggs()[j].event_prefix == event_type@,
        old(reg).aggs()[j].fns.extracted(payload@) == Some(id),
        forall|i: int|
            0 <= i < old(reg).aggs().len() && i != j ==> (
            #[trigger] old(reg).aggs()[i]).event_prefix != event_type@,
    ensures
        ({
            let agg = old(reg).aggs()[j];
            let key = state_key(agg.aggregate_type, id);
            let before = old(reg).table();
            let after = final(reg).table();
            let pre = if before.contains_key(key) {
                before[key].state
            } else {
                agg.fns.initial()
            };
            let version: int = if before.contains_key(key) {
                before[key].marks.version.0 as int
            } else {
                0
            };
            let aligned = agg.subject.len() > 0;
            let foreign = aligned && (id != subject_id || agg.subject != category@);
            let folds = if aligned {
                revision.0 == version
            } else {
                before.contains_key(key) ==> position.0 > before[key].marks.last_pos.0 || (
                position.0 == before[key].marks.last_pos.0 && revision.0 >= version)
            };
            &&& foreign ==> (r matches Err(e) && e is Misaligned) && after == before
            &&& !foreign && folds && agg.fns.applied(pre, payload@) is None ==> (r matches Err(e)
                && e is Apply) && after == before
            &&& !foreign && folds && agg.fns.applied(pre, payload@) is Some ==> {
                &&& after.contains_key(key)
                &&& Some(after[key].state) == agg.fns.applied(pre, payload@)
                &&& after[key].marks.version.0 == revision.0 + 1
                &&& after[key].marks.last_pos == position
                &&& after[key].marks.snapshot_at == (if before.contains_key(key) {
                    before[key].marks.snapshot_at
                } else {
                    StreamRevision(0)
                })
                &&& after.contains_key(prev_key(key))
                &&& after[prev_key(key)].state == pre
                &&& r matches Ok(o) && o.applied && o.gaps@.len() == 0
                    && o.snapshots@.contains_key(key) && o.snapshots@[key] == (
                    pre,
                    after[key].state,
                )
            }
            &&& !foreign && !folds ==> {
                &&& after == before
                &&& r matches Ok(o) && !o.applied
                &&& aligned && revision.0 > version ==> (r matches Ok(o) && o.gaps@.len() == 1
                    && o.gaps@[0]@.aggregate_type == agg.aggregate_type && o.gaps@[0]@.id == id
                    && o.gaps@[0]@.expected == version && !o.snapshots@.contains_key(key))
                &&& !aligned || revision.0 < version ==> (r matches Ok(o) && o.gaps@.len() == 0
                    && o.snapshots@.contains_key(key) && o.snapshots@[key].1 == pre)
                &&& aligned && revision.0 + 1 == version && before.contains_key(prev_key(key)) ==> (
                r matches Ok(o) && o.snapshots@[key].0 == before[prev_key(key)].state)
                &&& aligned && revision.0 + 1 < version ==> (r matches Ok(o)
                    && o.snapshots@[key].0 == pre)
            }
            &&& forall|other: Seq<char>|
                other != key && other != prev_key(key) ==> (#[trigger] after.contains_key(other)
                    <==> before.contains_key(other)) && (before.contains_key(other)
                    ==> after[other] == before[other])
        }),
{
    let at = Delivery {
        event_type: event_type@,
        payload: payload@,
        subject_id,
        category: category@,
        revision: revision.0,
        position: position.0,
    };
    let aggs = old(reg).aggs();
    let agg = aggs[j];
    let key = state_key(agg.aggregate_type, id);
    lemma_only_one_takes_part(aggs, aggs.len(), j, at, old(reg).table());
    lemma_prev_key_apart(agg.aggregate_type, id, agg.aggregate_type, id);
    let p = deliver(aggs, at, old(reg).table());
    if let Ok(o) = r {
        assert(o@ == p.outcome);
        assert(o@.gaps.len() == o.gaps@.len());
        if o.gaps@.len() > 0 {
            assert(o@.gaps[0] == o.gaps@[0]@);
        }
    }
}

/// An event that concerns no aggregate passes without a trace: none is of its
/// kind, or the one that is finds no id in a payload that it can read.
pub proof fn law_unconcerned_deliveries_pass<B: FoldFns>(
    reg: &mut AggregatorRegistry<B>,
    event_type: &str,
    payload: &Json,
    subject_id: u128,
    category: &str,
    revision: StreamRevision,
    position: LogCursor,
    r: Result<FoldOutcome<B::State>, FoldError>,
)
    requires
        call_ensures(
            AggregatorRegistry::<B>::apply_event,
            (reg, event_type, payload, subject_id, category, revision, position),
            r,
        ),
        forall|i: int|
            0 <= i < old(reg).aggs().len() && (#[trigger] old(reg).aggs()[i]).event_prefix
                == event_type@ ==> old(reg).aggs()[i].fns.extracted(payload@) is None && old(
                reg).aggs()[i].fns.applied(old(reg).aggs()[i].fns.initial(), payload@) is Some,
    ensures
        final(reg).table() == old(reg).table(),
        r matches Ok(o) && !o.applied && o.gaps@.len() == 0 && o.snapshots@.dom().is_empty(),
{
    let at = Delivery {
        event_type: event_type@,
        payload: payload@,
        subject_id,
        category: category@,
        revision: revision.0,
        position: position.0,
    };
    lemma_none_takes_part(old(reg).aggs(), old(reg).aggs().len(), at, old(reg).table());
    if let Ok(o) = r {
        assert(o@ == no_outcome::<B::State>());
        assert(o@.gaps.len() == o.gaps@.len());
        assert(Map::<Seq<char>, (B::State, B::State)>::empty().dom().is_empty());
    }
}

proof fn lemma_none_takes_part<B: FoldFns>(
    aggs: Seq<AggregatorView<B>>,
    n: nat,
    at: Delivery,
    table: Map<Seq<char>, Entry<B::State>>,
)
    requires
        n <= aggs.len(),
        forall|i: int|
            0 <= i < aggs.len() && (#[trigger] aggs[i]).event_prefix == at.event_type
                ==> aggs[i].fns.extracted(at.payload) is None && aggs[i].fns.applied(
                aggs[i].fns.initial(),
                at.payload,
            ) is Some,
    ensures
        deliver_upto(aggs, n, at, table) == (Progress {
            table,
            outcome: no_outcome(),
            failure: None,
        }),
    decreases n,
{
    if n > 0 {
        lemma_none_takes_part(aggs, (n - 1) as nat, at, table);
        let last = aggs[n - 1];
    }
}

/// A delivery is undone without a trace: putting back what was captured before
/// it gives the states of before, whatever it came to.
pub proof fn law_deliveries_can_be_undone<B: FoldFns>(
    reg: &AggregatorRegistry<B>,
    delivered: &mut AggregatorRegistry<B>,
    undone: &mut AggregatorRegistry<B>,
    event_type: &str,
    payload: &Json,
    subject_id: u128,
    category: &str,
    revision: StreamRevision,
    position: LogCursor,
    rollback: Rollback<B::State>,
    r: Result<FoldOutcome<B::State>, FoldError>,
)
    requires
        call_ensures(
            AggregatorRegistry::<B>::capture_for_rollback,
            (reg, event_type, payload),
            rollback,
        ),
        old(delivered).aggs() == reg.aggs(),
        old(delivered).table() == reg.table(),
        call_ensures(
            AggregatorRegistry::<B>::apply_event,
            (delivered, event_type, payload, subject_id, category, revision, position),
            r,
        ),
        old(undone).aggs() == final(delivered).aggs(),
        old(undone).table() == final(delivered).table(),
        call_ensures(AggregatorRegistry::<B>::restore_state, (undone, rollback), ()),
    ensures
        final(undone).table() == reg.table(),
        final(undone).aggs() == reg.aggs(),
{
    let at = Delivery {
        event_type: event_type@,
        payload: payload@,
        subject_id,
        category: category@,
        revision: revision.0,
        position: position.0,
    };
    law_rollback_undoes_a_delivery(reg.aggs(), at, reg.table());
}

/// Putting back what was captured restores each state that the event may touch
/// and no other.
pub proof fn law_rollbacks_restore_what_was_captured<B: FoldFns>(
    reg: &AggregatorRegistry<B>,
    later: &mut AggregatorRegistry<B>,
    event_type: &str,
    payload: &Json,
    rollback: Rollback<B::State>,
    key: Seq<char>,
)
    requires
        call_ensures(
            AggregatorRegistry::<B>::capture_for_rollback,
            (reg, event_type, payload),
            rollback,
        ),
        call_ensures(AggregatorRegistry::<B>::restore_state, (later, rollback), ()),
    ensures
        ({
            let keys = touched(reg.aggs(), reg.aggs().len(), event_type@, payload@);
            let kept = if keys.contains(key) {
                reg.table()
            } else {
                old(later).table()
            };
            &&& final(later).table().contains_key(key) <==> kept.contains_key(key)
            &&& kept.contains_key(key) ==> final(later).table()[key] == kept[key]
        }),
        forall|i: int|
            0 <= i < reg.aggs().len() && (#[trigger] reg.aggs()[i]).event_prefix == event_type@ ==> (
            reg.aggs()[i].fns.extracted(payload@) matches Some(id) ==> touched(
                reg.aggs(),
                reg.aggs().len(),
                event_type@,
                payload@,
            ).contains(state_key(reg.aggs()[i].aggregate_type, id))),
{
    let keys = touched(reg.aggs(), reg.aggs().len(), event_type@, payload@);
    lemma_put_back(old(later).table(), reg.table(), keys, key);
    lemma_touched(reg.aggs(), reg.aggs().len(), event_type@, payload@);
}

proof fn lemma_touched<B: FoldFns>(
    aggs: Seq<AggregatorView<B>>,
    n: nat,
    event_type: Seq<char>,
    payload: JsonView,
)
    requires
        n <= aggs.len(),
    ensures
        forall|i: int|
            0 <= i < n && (#[trigger] aggs[i]).event_prefix == event_type ==> (
            aggs[i].fns.extracted(payload) matches Some(id) ==> touched(
                aggs,
                n,
                event_type,
                payload,
            ).contains(state_key(aggs[i].aggregate_type, id))),
    decreases n,
{
    if n > 0 {
        lemma_touched(aggs, (n - 1) as nat, event_type, payload);
        let before = touched(aggs, (n - 1) as nat, event_type, payload);
        let after = touched(aggs, n, event_type, payload);
        assert forall|i: int| 0 <= i < n && (#[trigger] aggs[i]).event_prefix == event_type implies (
        aggs[i].fns.extracted(payload) matches Some(id) ==> after.contains(
            state_key(aggs[i].aggregate_type, id),
        )) by {
            if let Some(id) = aggs[i].fns.extracted(payload) {
                let key = state_key(aggs[i].aggregate_type, id);
                if i < n - 1 {
                    let k = choose|k: int| 0 <= k < before.len() && before[k] == key;
                    assert(after[k] == key);
                } else {
                    assert(after[before.len() as int] == key);
                }
            }
        }
    }
}

/// Aggregators keep the order in which they were registered; a registration
/// changes no state.
pub proof fn law_registration_keeps_order<B: FoldFns>(
    reg: &mut AggregatorRegistry<B>,
    agg: Aggregator<B>,
)
    requires
        call_ensures(AggregatorRegistry::<B>::register, (reg, agg), ()),
    ensures
        final(reg).aggs().len() == old(reg).aggs().len() + 1,
        final(reg).aggs()[old(reg).aggs().len() as int] == agg@,
        forall|i: int|
            0 <= i < old(reg).aggs().len() ==> #[trigger] final(reg).aggs()[i]
                == old(reg).aggs()[i],
        final(reg).table() == old(reg).table(),
{
}

/// A lookup by type finds the first that was registered for it.
pub proof fn law_types_are_found_first<B: FoldFns>(
    reg: &AggregatorRegistry<B>,
    aggregate_type: &str,
    found: Option<&Aggregator<B>>,
    at: Option<usize>,
)
    requires
        call_ensures(
            AggregatorRegistry::<B>::find_first_by_aggregate_type,
            (reg, aggregate_type),
            found,
        ),
        call_ensures(AggregatorRegistry::<B>::first_index, (reg, aggregate_type), at),
    ensures
        found is Some <==> at is Some,
        at is None <==> forall|i: int|
            0 <= i < reg.aggs().len() ==> (#[trigger] reg.aggs()[i]).aggregate_type
                != aggregate_type@,
        at matches Some(i) ==> i < reg.aggs().len() && reg.aggs()[i as int].aggregate_type
            == aggregate_type@ && (found matches Some(agg) && agg@ == reg.aggs()[i as int])
            && forall|k: int|
            0 <= k < i ==> (#[trigger] reg.aggs()[k]).aggregate_type != aggregate_type@,
{
    lemma_first_of_type(reg.aggs(), aggregate_type@);
    if let Some(i) = at {
        assert(reg.aggs()[i as int].aggregate_type == aggregate_type@);
    }
}

/// A lookup by kind finds every aggregator of it, in the order of their
/// registration, and no other.
pub proof fn law_kinds_are_found_in_order<B: FoldFns>(
    reg: &AggregatorRegistry<B>,
    durable_name: &str,
    found: Vec<&Aggregator<B>>,
)
    requires
        call_ensures(AggregatorRegistry::<B>::find_by_durable_name, (reg, durable_name), found),
    ensures
        found@.len() == reg.aggs().filter(
            |a: AggregatorView<B>| a.event_prefix == durable_name@,
        ).len(),
        forall|i: int|
            0 <= i < found@.len() ==> (#[trigger] found@[i])@.event_prefix == durable_name@,
{
    let of_kind = |a: AggregatorView<B>| a.event_prefix == durable_name@;
    let views = Seq::new(found@.len(), |i: int| found@[i]@);
    let all = reg.aggs();
    assert(views == all.filter(of_kind));
    assert forall|i: int| 0 <= i < found@.len() implies (#[trigger] found@[i])@.event_prefix
        == durable_name@ by {
        broadcast use Seq::lemma_filter_pred;

        assert(views[i] == found@[i]@);
        assert(of_kind(all.filter(of_kind)[i]));
    }
}

/// What an event is restored into: for each aggregator of its kind that finds
/// an id, its type, its stream and that id, in registration order.
pub proof fn law_restore_targets_are_those_concerned<B: FoldFns>(
    reg: &AggregatorRegistry<B>,
    event_type: &str,
    payload: &Json,
    targets: Vec<(String, String, u128)>,
)
    requires
        call_ensures(
            AggregatorRegistry::<B>::restore_targets,
            (reg, event_type, payload),
            targets,
        ),
    ensures
        targets@.len() == reg.aggs().filter(
            |a: AggregatorView<B>|
                a.event_prefix == event_type@ && a.fns.extracted(payload@) is Some,
        ).len(),
        forall|i: int|
            0 <= i < targets@.len() ==> {
                let agg = reg.aggs().filter(
                    |a: AggregatorView<B>|
                        a.event_prefix == event_type@ && a.fns.extracted(payload@) is Some,
                )[i];
                &&& (#[trigger] targets@[i]).0@ == agg.aggregate_type
                &&& targets@[i].1@ == agg.subject
                &&& agg.fns.extracted(payload@) == Some(targets@[i].2)
            },
{
    lemma_targets(reg.aggs(), event_type@, payload@);
    let views = target_views(targets@);
    assert(views.len() == targets@.len());
    assert forall|i: int| 0 <= i < targets@.len() implies views[i] == (
        (#[trigger] targets@[i]).0@,
        targets@[i].1@,
        targets@[i].2,
    ) by {}
}

proof fn lemma_targets<B: FoldFns>(
    aggs: Seq<AggregatorView<B>>,
    event_type: Seq<char>,
    payload: JsonView,
)
    ensures
        ({
            let concerned = aggs.filter(
                |a: AggregatorView<B>|
                    a.event_prefix == event_type && a.fns.extracted(payload) is Some,
            );
            let targets = targets_of(aggs, event_type, payload);
            &&& targets.len() == concerned.len()
            &&& forall|i: int|
                0 <= i < targets.len() ==> (#[trigger] targets[i]).0 == concerned[i].aggregate_type
                    && targets[i].1 == concerned[i].subject && concerned[i].fns.extracted(payload)
                    == Some(targets[i].2)
        }),
    decreases aggs.len(),
{
    reveal(Seq::filter);
    if aggs.len() > 0 {
        lemma_targets(aggs.drop_last(), event_type, payload);
    }
}

/// A transition is the state under the aggregate's key and the one in the slot
/// beside it; either is the initial one of the type where nothing is held. A
/// singleton is the aggregate of the nil id.
pub proof fn law_transitions_are_what_is_held<B: FoldFns>(
    reg: &AggregatorRegistry<B>,
    aggregate_type: &str,
    id: u128,
    pair: (B::State, B::State),
    single: (B::State, B::State),
    j: int,
)
    requires
        call_ensures(AggregatorRegistry::<B>::get_transition, (reg, aggregate_type, id), pair),
        call_ensures(AggregatorRegistry::<B>::get_singleton, (reg, aggregate_type), single),
        0 <= j < reg.aggs().len(),
        reg.aggs()[j].aggregate_type == aggregate_type@,
        forall|k: int|
            0 <= k < j ==> (#[trigger] reg.aggs()[k]).aggregate_type != aggregate_type@,
    ensures
        ({
            let key = state_key(aggregate_type@, id);
            let initial = reg.aggs()[j].fns.initial();
            &&& pair.1 == (if reg.table().contains_key(key) {
                reg.table()[key].state
            } else {
                initial
            })
            &&& pair.0 == (if reg.table().contains_key(prev_key(key)) {
                reg.table()[prev_key(key)].state
            } else {
                initial
            })
            &&& id == 0 ==> single == pair
        }),
{
    lemma_first_of_type(reg.aggs(), aggregate_type@);
}

/// A restored state is installed only where it is further than what is held,
/// and then as it was restored; it never changes where the state stands in the
/// log, nor another state.
pub proof fn law_restored_states_only_go_forward<B: FoldFns>(
    reg: &mut AggregatorRegistry<B>,
    key: &str,
    state: B::State,
    version: StreamRevision,
    saved: StreamRevision,
)
    requires
        call_ensures(AggregatorRegistry::<B>::set_state, (reg, key, state, version, saved), ()),
    ensures
        ({
            let before = old(reg).table();
            let after = final(reg).table();
            let held = before.contains_key(key@) && before[key@].marks.version.0 >= version.0;
            &&& held ==> after == before
            &&& !held ==> {
                &&& after.contains_key(key@)
                &&& after[key@].state == state
                &&& after[key@].marks.version == version
                &&& after[key@].marks.snapshot_at == saved
                &&& after[key@].marks.last_pos == (if before.contains_key(key@) {
                    before[key@].marks.last_pos
                } else {
                    LogCursor(0)
                })
            }
            &&& forall|other: Seq<char>|
                other != key@ ==> (#[trigger] after.contains_key(other) <==> before.contains_key(
                    other,
                )) && (before.contains_key(other) ==> after[other] == before[other])
        }),
{
}

/// Passing an event that does not concern a state moves its marks past it,
/// never back, and leaves the state as it is; a save is noted in the marks
/// alone; and what is not held stays so.
pub proof fn law_marks_move_without_the_state<B: FoldFns>(
    passing: &mut AggregatorRegistry<B>,
    saving: &mut AggregatorRegistry<B>,
    key: &str,
    revision: StreamRevision,
    position: LogCursor,
    version: StreamRevision,
)
    requires
        revision.0 < u64::MAX,
        call_ensures(
            AggregatorRegistry::<B>::advance_watermark,
            (passing, key, revision, position),
            (),
        ),
        call_ensures(
            AggregatorRegistry::<B>::update_snapshot_at_version,
            (saving, key, version),
            (),
        ),
    ensures
        ({
            let before = old(passing).table();
            let after = final(passing).table();
            &&& after.dom() == before.dom()
            &&& before.contains_key(key@) ==> {
                let was = before[key@].marks;
                let now = after[key@].marks;
                &&& after[key@].state == before[key@].state
                &&& now.version.0 == (if was.version.0 > revision.0 {
                    was.version.0 as int
                } else {
                    revision.0 + 1
                })
                &&& now.last_pos.0 == (if was.last_pos.0 > position.0 {
                    was.last_pos.0
                } else {
                    position.0
                })
                &&& now.snapshot_at == was.snapshot_at
            }
            &&& forall|other: Seq<char>|
                other != key@ && before.contains_key(other) ==> #[trigger] after[other]
                    == before[other]
        }),
        ({
            let before = old(saving).table();
            let after = final(saving).table();
            &&& after.dom() == before.dom()
            &&& before.contains_key(key@) ==> {
                &&& after[key@].state == before[key@].state
                &&& after[key@].marks.version == before[key@].marks.version
                &&& after[key@].marks.last_pos == before[key@].marks.last_pos
                &&& after[key@].marks.snapshot_at == version
            }
            &&& forall|other: Seq<char>|
                other != key@ && before.contains_key(other) ==> #[trigger] after[other]
                    == before[other]
        }),
{
    assert(final(passing).table().dom() =~= old(passing).table().dom());
    assert(final(saving).table().dom() =~= old(saving).table().dom());
}

/// What is held under a key is what is read of it, and what is removed is gone,
/// with its slot and nothing else.
pub proof fn law_reads_and_removals_are_by_key<B: FoldFns>(
    reg: &AggregatorRegistry<B>,
    dropping: &mut AggregatorRegistry<B>,
    key: &str,
    held: bool,
    state: Option<&B::State>,
    version: StreamRevision,
    saved: StreamRevision,
)
    requires
        call_ensures(AggregatorRegistry::<B>::has_state, (reg, key), held),
        call_ensures(AggregatorRegistry::<B>::get_state, (reg, key), state),
        call_ensures(AggregatorRegistry::<B>::get_version, (reg, key), version),
        call_ensures(AggregatorRegistry::<B>::get_snapshot_at_version, (reg, key), saved),
        call_ensures(AggregatorRegistry::<B>::remove_state, (dropping, key), ()),
    ensures
        held <==> reg.table().contains_key(key@),
        held <==> state is Some,
        state matches Some(s) ==> *s == reg.table()[key@].state && version
            == reg.table()[key@].marks.version && saved == reg.table()[key@].marks.snapshot_at,
        state is None ==> version.0 == 0 && saved.0 == 0,
        ({
            let before = old(dropping).table();
            let after = final(dropping).table();
            &&& !after.contains_key(key@)
            &&& !after.contains_key(prev_key(key@))
            &&& forall|other: Seq<char>|
                other != key@ && other != prev_key(key@) ==> (#[trigger] after.contains_key(other)
                    <==> before.contains_key(other)) && (before.contains_key(other)
                    ==> after[other] == before[other])
        }),
{
}

/// Replaying is applying: an event of a kind that one aggregator of the type
/// folds changes the state as that aggregator applies it, and fails where it
/// cannot; one of another kind changes nothing. A replay of several is one of
/// each in turn.
pub proof fn law_replays_apply_each_event<B: FoldFns>(
    aggs: Seq<AggregatorView<B>>,
    aggregate_type: Seq<char>,
    state: B::State,
    events: Seq<Delivery>,
    next: Delivery,
    j: int,
)
    requires
        forall|i: int|
            0 <= i < aggs.len() && i != j ==> (#[trigger] aggs[i]).aggregate_type != aggregate_type
                || aggs[i].event_prefix != next.event_type,
    ensures
        replayed(aggs, aggregate_type, state, Seq::empty()) == Some(state),
        replayed(aggs, aggregate_type, state, events) is None ==> replayed(
            aggs,
            aggregate_type,
            state,
            events.push(next),
        ) is None,
        replayed(aggs, aggregate_type, state, events) matches Some(mid) ==> replayed(
            aggs,
            aggregate_type,
            state,
            events.push(next),
        ) == (if 0 <= j < aggs.len() && aggs[j].aggregate_type == aggregate_type
            && aggs[j].event_prefix == next.event_type {
            aggs[j].fns.applied(mid, next.payload)
        } else {
            Some(mid)
        }),
{
    assert(events.push(next).drop_last() =~= events);
    if let Some(mid) = replayed(aggs, aggregate_type, state, events) {
        lemma_replay_through_one(aggs, aggs.len(), aggregate_type, mid, next, j);
    }
}

proof fn lemma_replay_through_one<B: FoldFns>(
    aggs: Seq<AggregatorView<B>>,
    n: nat,
    aggregate_type: Seq<char>,
    state: B::State,
    at: Delivery,
    j: int,
)
    requires
        n <= aggs.len(),
        forall|i: int|
            0 <= i < aggs.len() && i != j ==> (#[trigger] aggs[i]).aggregate_type != aggregate_type
                || aggs[i].event_prefix != at.event_type,
    ensures
        replay_upto(aggs, n, aggregate_type, state, at.event_type, at.payload) == (if 0 <= j < n
            && aggs[j].aggregate_type == aggregate_type && aggs[j].event_prefix == at.event_type {
            aggs[j].fns.applied(state, at.payload)
        } else {
            Some(state)
        }),
    decreases n,
{
    if n > 0 {
        lemma_replay_through_one(aggs, (n - 1) as nat, aggregate_type, state, at, j);
        if n - 1 != j {
            let last = aggs[n - 1];
            assert(last.aggregate_type != aggregate_type || last.event_prefix != at.event_type);
        }
    }
}

/// Aggregators take an event one after the other, in registration order, each
/// on what those before it left; the first failure ends the delivery.
pub proof fn law_aggregators_take_turns<B: FoldFns>(
    aggs: Seq<AggregatorView<B>>,
    last: AggregatorView<B>,
    at: Delivery,
    table: Map<Seq<char>, Entry<B::State>>,
)
    ensures
        ({
            let before = deliver(aggs, at, table);
            let after = deliver(aggs.push(last), at, table);
            &&& after == deliver_one(last, at, before)
            &&& before.failure is Some ==> after == before
            &&& last.event_prefix != at.event_type ==> after == before
            &&& deliver(Seq::<AggregatorView<B>>::empty(), at, table).table == table
            &&& deliver(Seq::<AggregatorView<B>>::empty(), at, table).failure is None
        }),
{
    lemma_same_turns(aggs, aggs.push(last), aggs.len(), at, table);
}

proof fn lemma_same_turns<B: FoldFns>(
    a: Seq<AggregatorView<B>>,
    b: Seq<AggregatorView<B>>,
    n: nat,
    at: Delivery,
    table: Map<Seq<char>, Entry<B::State>>,
)
    requires
        n <= a.len(),
        n <= b.len(),
        forall|i: int| 0 <= i < n ==> a[i] == b[i],
    ensures
        deliver_upto(a, n, at, table) == deliver_upto(b, n, at, table),
    decreases n,
{
    if n > 0 {
        lemma_same_turns(a, b, (n - 1) as nat, at, table);
    }
}

/// What one aggregator does in a delivery, whatever was done before it. It adds
/// its own transition or gap to those of the others and loses none.
pub proof fn law_each_aggregator_folds_its_own<B: FoldFns>(
    agg: AggregatorView<B>,
    at: Delivery,
    p: Progress<B::State>,
    id: u128,
)
    requires
        p.failure is None,
        agg.event_prefix == at.event_type,
        agg.fns.extracted(at.payload) == Some(id),
        at.revision < u64::MAX,
    ensures
        ({
            let q = deliver_one(agg, at, p);
            let key = state_key(agg.aggregate_type, id);
            let pre = if p.table.contains_key(key) {
                p.table[key].state
            } else {
                agg.fns.initial()
            };
            let version: int = if p.table.contains_key(key) {
                p.table[key].marks.version.0 as int
            } else {
                0
            };
            let aligned = agg.subject.len() > 0;
            let foreign = aligned && (id != at.subject_id || agg.subject != at.category);
            let folds = if aligned {
                at.revision == version
            } else {
                p.table.contains_key(key) ==> at.position > p.table[key].marks.last_pos.0 || (
                at.position == p.table[key].marks.last_pos.0 && at.revision >= version)
            };
            let post = agg.fns.applied(pre, at.payload);
            &&& q.failure is Some <==> foreign || (folds && post is None)
            &&& q.failure is Some ==> q.table == p.table
            &&& !foreign && folds && post is Some ==> {
                &&& q.outcome.applied
                &&& q.outcome.gaps == p.outcome.gaps
                &&& q.outcome.snapshots == p.outcome.snapshots.insert(key, (pre, post->0))
                &&& q.table[key].state == post->0
                &&& q.table[key].marks.version.0 == at.revision + 1
                &&& q.table[key].marks.last_pos.0 == at.position
                &&& q.table[prev_key(key)].state == pre
            }
            &&& !foreign && !folds ==> q.table == p.table && q.outcome.applied == p.outcome.applied
            &&& !foreign && aligned && at.revision > version ==> q.outcome.gaps.len()
                == p.outcome.gaps.len() + 1 && q.outcome.gaps.drop_last() == p.outcome.gaps
                && q.outcome.gaps.last().aggregate_type == agg.aggregate_type
                && q.outcome.gaps.last().subject == agg.subject && q.outcome.gaps.last().id == id
                && q.outcome.gaps.last().expected == version && q.outcome.snapshots
                == p.outcome.snapshots
            &&& forall|other: Seq<char>|
                other != key && other != prev_key(key) ==> (#[trigger] q.table.contains_key(other)
                    <==> p.table.contains_key(other)) && (p.table.contains_key(other)
                    ==> q.table[other] == p.table[other])
        }),
{
    let key = state_key(agg.aggregate_type, id);
    lemma_prev_key_apart(agg.aggregate_type, id, agg.aggregate_type, id);
    let q = deliver_one(agg, at, p);
    if q.outcome.gaps.len() == p.outcome.gaps.len() + 1 {
        assert(q.outcome.gaps.drop_last() =~= p.outcome.gaps);
    }
}

/// The types of a registry are listed each once, every one of them and no
/// other.
pub proof fn law_types_are_listed_once<B: FoldFns>(
    reg: &AggregatorRegistry<B>,
    types: Vec<&str>,
)
    requires
        call_ensures(AggregatorRegistry::<B>::unique_aggregate_types, (reg,), types),
    ensures
        forall|i: int, j: int|
            0 <= i < j < types@.len() ==> (#[trigger] types@[i])@ != (#[trigger] types@[j])@,
        forall|i: int|
            0 <= i < types@.len() ==> is_a_type(reg.aggs(), (#[trigger] types@[i])@),
        forall|j: int|
            0 <= j < reg.aggs().len() ==> Seq::new(
                types@.len(),
                |i: int| types@[i]@,
            ).contains((#[trigger] reg.aggs()[j]).aggregate_type),
{
    let views = Seq::new(types@.len(), |i: int| types@[i]@);
    assert(views == unique_types(reg.aggs()));
    lemma_unique_types(reg.aggs());
    assert forall|i: int, j: int| 0 <= i < j < types@.len() implies (#[trigger] types@[i])@ != (
    #[trigger] types@[j])@ by {
        assert(views[i] != views[j]);
    }
    assert forall|i: int| 0 <= i < types@.len() implies is_a_type(
        reg.aggs(),
        (#[trigger] types@[i])@,
    ) by {
        assert(is_a_type(reg.aggs(), views[i]));
    }
}

/// Whether an aggregator is of a type.
pub open spec fn is_a_type<B>(aggs: Seq<AggregatorView<B>>, aggregate_type: Seq<char>) -> bool {
    exists|j: int| 0 <= j < aggs.len() && (#[trigger] aggs[j]).aggregate_type == aggregate_type
}

proof fn lemma_unique_types<B>(aggs: Seq<AggregatorView<B>>)
    ensures
        forall|i: int, j: int|
            0 <= i < j < unique_types(aggs).len() ==> (#[trigger] unique_types(aggs)[i]) != (
            #[trigger] unique_types(aggs)[j]),
        forall|i: int|
            0 <= i < unique_types(aggs).len() ==> is_a_type(
                aggs,
                #[trigger] unique_types(aggs)[i],
            ),
        forall|j: int|
            0 <= j < aggs.len() ==> unique_types(aggs).contains(
                (#[trigger] aggs[j]).aggregate_type,
            ),
    decreases aggs.len(),
{
    if aggs.len() > 0 {
        let less = aggs.drop_last();
        lemma_unique_types(less);
        let rest = unique_types(less);
        let all = unique_types(aggs);
        assert forall|i: int| 0 <= i < all.len() implies is_a_type(aggs, #[trigger] all[i]) by {
            if i < rest.len() {
                assert(all[i] == rest[i]);
                assert(is_a_type(less, rest[i]));
                let j = choose|j: int|
                    0 <= j < less.len() && (#[trigger] less[j]).aggregate_type == rest[i];
                assert(aggs[j].aggregate_type == all[i]);
            } else {
                assert(aggs[aggs.len() - 1].aggregate_type == all[i]);
            }
        }
        assert forall|i: int, j: int| 0 <= i < j < all.len() implies (#[trigger] all[i]) != (
        #[trigger] all[j]) by {
            if j < rest.len() {
                assert(rest[i] != rest[j]);
            } else {
                assert(rest.contains(rest[i]));
            }
        }
        assert forall|j: int| 0 <= j < aggs.len() implies all.contains(
            (#[trigger] aggs[j]).aggregate_type,
        ) by {
            if j < less.len() {
                assert(less[j] == aggs[j]);
                assert(rest.contains(less[j].aggregate_type));
                let k = choose|k: int| 0 <= k < rest.len() && rest[k] == less[j].aggregate_type;
                assert(all[k] == aggs[j].aggregate_type);
            } else if rest.contains(aggs[j].aggregate_type) {
                assert(all == rest);
            } else {
                assert(all[rest.len() as int] == aggs[j].aggregate_type);
            }
        }
    }
}

} // verus!
