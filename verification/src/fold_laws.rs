//! What holds of every fold: a redelivery changes nothing, a strict fold
//! converges, and a state at version `v` is the fold of the first `v` events
//! of its stream.

use vstd::prelude::*;

use crate::aggregate::{Aggregate, Apply};
use crate::aggregator::{AggregatorView, BySubject, FoldFns, IdFn, TypedFold};
use crate::codec::Codec;
use crate::event::Event;
use crate::fold::{read_after, repair_upto, restore_seed_of, restored_version, seeded, self_gapped};
use crate::fold_session::{
    ask, ask_tail, fresh_session, next_gap, round, took_snapshot, took_stream, Reached,
    SessionView, Stage, StepView,
};
use crate::registry::{
    deliver, deliver_one, deliver_upto, first_of_type, installed, lemma_first_of_type, marks_at,
    readable, replay_upto, replayed, state_or, turn, GapView, Progress,
};
use crate::restore_laws::{honest_snapshot, law_restore_is_faithful};
use crate::state_table::Entry;
use crate::transitions::{lemma_prev_key_apart, lemma_state_key_injective, state_key};
use crate::types::{Delivery, Snapshot, StreamRevision};

verus! {

/// The version under `key`; zero where nothing is held.
pub open spec fn version_at<S>(table: Map<Seq<char>, Entry<S>>, key: Seq<char>) -> u64 {
    match marks_at(table, key) {
        Some(m) => m.version.0,
        None => 0,
    }
}

/// Every aggregator of the type restores from `category`, which is not empty.
pub open spec fn aligned_type<B>(
    aggs: Seq<AggregatorView<B>>,
    aggregate_type: Seq<char>,
    category: Seq<char>,
) -> bool {
    &&& category.len() > 0
    &&& forall|j: int|
        0 <= j < aggs.len() && (#[trigger] aggs[j]).aggregate_type == aggregate_type
            ==> aggs[j].subject == category
}

/// `stream` holds the events of `{category}-{subject_id}`, revision by
/// revision from zero.
pub open spec fn dense(stream: Seq<Delivery>, category: Seq<char>, subject_id: u128) -> bool {
    &&& stream.len() < u64::MAX
    &&& forall|i: int|
        0 <= i < stream.len() ==> (#[trigger] stream[i]).revision == i && stream[i].category
            == category && stream[i].subject_id == subject_id
}

/// What reading a stream returns: the events after a revision.
pub open spec fn honest_tail(stream: Seq<Delivery>, after: Option<StreamRevision>) -> Seq<Delivery> {
    match after {
        None => stream,
        Some(r) => stream.skip(r.0 + 1),
    }
}

/// A delivery through one aggregator leaves a state alone unless the
/// aggregator folds into exactly that state.
proof fn lemma_other_key_untouched<B: FoldFns>(
    agg: AggregatorView<B>,
    at: Delivery,
    p: Progress<B::State>,
    aggregate_type: Seq<char>,
    id: u128,
)
    requires
        agg.aggregate_type != aggregate_type || agg.event_prefix != at.event_type
            || agg.fns.extracted(at.payload) != Some(id),
    ensures
        ({
            let key = state_key(aggregate_type, id);
            let q = deliver_one(agg, at, p);
            &&& q.table.contains_key(key) == p.table.contains_key(key)
            &&& p.table.contains_key(key) ==> q.table[key] == p.table[key]
            &&& self_gapped(q.outcome.gaps, aggregate_type, id) == self_gapped(
                p.outcome.gaps,
                aggregate_type,
                id,
            )
        }),
{
    let key = state_key(aggregate_type, id);
    let q = deliver_one(agg, at, p);
    if agg.event_prefix == at.event_type && agg.fns.extracted(at.payload) is Some {
        let other = agg.fns.extracted(at.payload)->0;
        let other_key = state_key(agg.aggregate_type, other);
        if other_key == key {
            lemma_state_key_injective(agg.aggregate_type, other, aggregate_type, id);
        }
        lemma_prev_key_apart(aggregate_type, id, agg.aggregate_type, other);
        if q.outcome.gaps.len() > p.outcome.gaps.len() {
            assert(q.outcome.gaps.drop_last() =~= p.outcome.gaps);
            assert forall|i: int| 0 <= i < p.outcome.gaps.len() implies q.outcome.gaps[i]
                == p.outcome.gaps[i] by {}
            if self_gapped(p.outcome.gaps, aggregate_type, id) {
                let i = choose|i: int|
                    0 <= i < p.outcome.gaps.len() && (#[trigger] p.outcome.gaps[i]).aggregate_type
                        == aggregate_type && p.outcome.gaps[i].id == id;
                assert(q.outcome.gaps[i].aggregate_type == aggregate_type);
            }
            if self_gapped(q.outcome.gaps, aggregate_type, id) {
                let i = choose|i: int|
                    0 <= i < q.outcome.gaps.len() && (#[trigger] q.outcome.gaps[i]).aggregate_type
                        == aggregate_type && q.outcome.gaps[i].id == id;
                assert(i < p.outcome.gaps.len());
                assert(p.outcome.gaps[i].aggregate_type == aggregate_type);
            }
        }
    }
}

/// What a delivery does to a state whose version is `v`: it advances by at
/// most the delivered event, and it gaps only on an event past `v`.
proof fn lemma_deliver_versions<B: FoldFns>(
    aggs: Seq<AggregatorView<B>>,
    n: nat,
    at: Delivery,
    table: Map<Seq<char>, Entry<B::State>>,
    aggregate_type: Seq<char>,
    id: u128,
    category: Seq<char>,
)
    requires
        n <= aggs.len(),
        aligned_type(aggs, aggregate_type, category),
        at.revision < u64::MAX,
    ensures
        ({
            let key = state_key(aggregate_type, id);
            let p = deliver_upto(aggs, n, at, table);
            let v = version_at(table, key);
            let w = version_at(p.table, key);
            &&& table.contains_key(key) ==> p.table.contains_key(key)
            &&& !table.contains_key(key) && p.table.contains_key(key) ==> w == v + 1
            &&& w == v || (w == v + 1 && at.revision == v)
            &&& at.revision <= v ==> !self_gapped(p.outcome.gaps, aggregate_type, id)
        }),
    decreases n,
{
    let key = state_key(aggregate_type, id);
    if n > 0 {
        let m = (n - 1) as nat;
        lemma_deliver_versions(aggs, m, at, table, aggregate_type, id, category);
        let p = deliver_upto(aggs, m, at, table);
        let agg = aggs[n - 1];
        if agg.aggregate_type != aggregate_type || agg.event_prefix != at.event_type
            || agg.fns.extracted(at.payload) != Some(id) {
            lemma_other_key_untouched(agg, at, p, aggregate_type, id);
        } else {
            lemma_prev_key_apart(aggregate_type, id, aggregate_type, id);
        }
    }
}

/// A repair of any aggregate never takes a state of an aligned type back.
proof fn lemma_repair_versions<B: FoldFns>(
    aggs: Seq<AggregatorView<B>>,
    repaired_type: Seq<char>,
    repaired_id: u128,
    upto: Option<StreamRevision>,
    tail: Seq<Delivery>,
    n: nat,
    table: Map<Seq<char>, Entry<B::State>>,
    aggregate_type: Seq<char>,
    id: u128,
    category: Seq<char>,
)
    requires
        n <= tail.len(),
        aligned_type(aggs, aggregate_type, category),
        forall|i: int| 0 <= i < tail.len() ==> (#[trigger] tail[i]).revision < u64::MAX,
    ensures
        ({
            let key = state_key(aggregate_type, id);
            let r = repair_upto(aggs, repaired_type, repaired_id, upto, tail, n, table);
            &&& table.contains_key(key) ==> r.table.contains_key(key)
            &&& version_at(r.table, key) >= version_at(table, key)
        }),
    decreases n,
{
    if n > 0 {
        let m = (n - 1) as nat;
        lemma_repair_versions(
            aggs,
            repaired_type,
            repaired_id,
            upto,
            tail,
            m,
            table,
            aggregate_type,
            id,
            category,
        );
        let r = repair_upto(aggs, repaired_type, repaired_id, upto, tail, m, table);
        let e = tail[n - 1];
        lemma_deliver_versions(aggs, aggs.len(), e, r.table, aggregate_type, id, category);
    }
}

/// A strict repair over an honest tail, read from at most the aggregate's
/// version on, carries the version to the bound.
proof fn lemma_strict_repair_reaches_bound<B: FoldFns>(
    aggs: Seq<AggregatorView<B>>,
    aggregate_type: Seq<char>,
    id: u128,
    category: Seq<char>,
    stream: Seq<Delivery>,
    from: u64,
    bound: u64,
    n: nat,
    table: Map<Seq<char>, Entry<B::State>>,
)
    requires
        aligned_type(aggs, aggregate_type, category),
        dense(stream, category, id),
        table.contains_key(state_key(aggregate_type, id)),
        from <= version_at(table, state_key(aggregate_type, id)),
        from <= bound <= stream.len(),
        n <= stream.len() - from,
    ensures
        ({
            let key = state_key(aggregate_type, id);
            let tail = stream.skip(from as int);
            let r = repair_upto(
                aggs,
                aggregate_type,
                id,
                Some(StreamRevision(bound)),
                tail,
                n,
                table,
            );
            r.failure is None ==> {
                &&& r.table.contains_key(key)
                &&& r.stopped == (n > bound - from)
                &&& version_at(r.table, key) >= (if from + n < bound {
                    from + n
                } else {
                    bound as int
                })
            }
        }),
    decreases n,
{
    let key = state_key(aggregate_type, id);
    let tail = stream.skip(from as int);
    let upto = Some(StreamRevision(bound));
    if n > 0 {
        let m = (n - 1) as nat;
        lemma_strict_repair_reaches_bound(
            aggs,
            aggregate_type,
            id,
            category,
            stream,
            from,
            bound,
            m,
            table,
        );
        let r = repair_upto(aggs, aggregate_type, id, upto, tail, m, table);
        if r.failure is None && !r.stopped {
            let e = tail[n - 1];
            assert(e == stream[from + n - 1]);
            lemma_deliver_versions(aggs, aggs.len(), e, r.table, aggregate_type, id, category);
        }
    }
}

/// Seeding an aggregate leaves every version as it was and gives the aggregate
/// an entry.
proof fn lemma_seeded<B: FoldFns>(
    aggs: Seq<AggregatorView<B>>,
    table: Map<Seq<char>, Entry<B::State>>,
    aggregate_type: Seq<char>,
    id: u128,
)
    ensures
        ({
            let t = seeded(aggs, table, aggregate_type, id);
            &&& forall|k: Seq<char>| #[trigger] version_at(t, k) == version_at(table, k)
            &&& forall|k: Seq<char>| #[trigger] table.contains_key(k) ==> t.contains_key(k)
            &&& first_of_type(aggs, aggregate_type) is Some ==> t.contains_key(
                state_key(aggregate_type, id),
            )
        }),
{
}

/// The delivery is one for aggregator `j`, which restores from its stream.
pub open spec fn concerns<B: FoldFns>(aggs: Seq<AggregatorView<B>>, at: Delivery, j: int) -> bool {
    &&& 0 <= j < aggs.len()
    &&& aggs[j].event_prefix == at.event_type
    &&& aggs[j].fns.extracted(at.payload) == Some(at.subject_id)
    &&& aggs[j].subject == at.category
    &&& at.category.len() > 0
}

/// Each restorable type has one stream category, the same for all of its
/// aggregators.
pub open spec fn one_subject_per_type<B>(aggs: Seq<AggregatorView<B>>) -> bool {
    forall|j: int|
        0 <= j < aggs.len() && (#[trigger] aggs[j]).subject.len() > 0 ==> aligned_type(
            aggs,
            aggs[j].aggregate_type,
            aggs[j].subject,
        )
}

/// Every gap that a delivery reports belongs to an aligned aggregator of the
/// event's kind, on the event's own stream, and says the version that the
/// aggregate has.
proof fn lemma_gap_origin<B: FoldFns>(
    aggs: Seq<AggregatorView<B>>,
    n: nat,
    at: Delivery,
    table: Map<Seq<char>, Entry<B::State>>,
    g: int,
)
    requires
        n <= aggs.len(),
        at.revision < u64::MAX,
        0 <= g < deliver_upto(aggs, n, at, table).outcome.gaps.len(),
        one_subject_per_type(aggs),
    ensures
        ({
            let gap = deliver_upto(aggs, n, at, table).outcome.gaps[g];
            let key = state_key(gap.aggregate_type, gap.id);
            &&& gap.id == at.subject_id
            &&& gap.subject == at.category
            &&& gap.expected == version_at(table, key)
            &&& gap.expected < at.revision
            &&& version_at(deliver_upto(aggs, n, at, table).table, key) == gap.expected
            &&& aligned_type(aggs, gap.aggregate_type, at.category)
            &&& first_of_type(aggs, gap.aggregate_type) is Some
            &&& exists|j: int| #[trigger] concerns(aggs, at, j) && aggs[j].aggregate_type
                == gap.aggregate_type
        }),
    decreases n,
{
    if n > 0 {
        let m = (n - 1) as nat;
        let p = deliver_upto(aggs, m, at, table);
        let q = deliver_upto(aggs, n, at, table);
        let agg = aggs[n - 1];
        if g < p.outcome.gaps.len() {
            lemma_gap_origin(aggs, m, at, table, g);
            let gap = p.outcome.gaps[g];
            assert(q.outcome.gaps[g] == gap);
            lemma_deliver_versions(
                aggs,
                n,
                at,
                table,
                gap.aggregate_type,
                gap.id,
                at.category,
            );
        } else {
            let gap = q.outcome.gaps[g];
            assert(aligned_type(aggs, agg.aggregate_type, agg.subject));
            lemma_deliver_versions(aggs, m, at, table, gap.aggregate_type, gap.id, at.category);
            lemma_first_of_type(aggs, gap.aggregate_type);
            assert(concerns(aggs, at, n - 1));
        }
    }
}

/// A delivery fails by a misaligned or an inapplicable event, never otherwise.
proof fn lemma_deliver_failures<B: FoldFns>(
    aggs: Seq<AggregatorView<B>>,
    n: nat,
    at: Delivery,
    table: Map<Seq<char>, Entry<B::State>>,
)
    ensures
        deliver_upto(aggs, n, at, table).failure matches Some(f) ==> f is Misaligned || f is Apply,
    decreases n,
{
    if n > 0 {
        lemma_deliver_failures(aggs, (n - 1) as nat, at, table);
    }
}

proof fn lemma_repair_failures<B: FoldFns>(
    aggs: Seq<AggregatorView<B>>,
    aggregate_type: Seq<char>,
    id: u128,
    upto: Option<StreamRevision>,
    tail: Seq<Delivery>,
    n: nat,
    table: Map<Seq<char>, Entry<B::State>>,
)
    ensures
        repair_upto(aggs, aggregate_type, id, upto, tail, n, table).failure matches Some(f) ==> f
            is Misaligned || f is Apply,
    decreases n,
{
    if n > 0 {
        lemma_repair_failures(aggs, aggregate_type, id, upto, tail, (n - 1) as nat, table);
        let r = repair_upto(aggs, aggregate_type, id, upto, tail, (n - 1) as nat, table);
        lemma_deliver_failures(aggs, aggs.len(), tail[n - 1], r.table);
    }
}

/// A registry that folds one way: each type has one stream category and one
/// initial state, and no event kind is registered twice for a type.
pub open spec fn coherent<B: FoldFns>(aggs: Seq<AggregatorView<B>>) -> bool {
    &&& one_subject_per_type(aggs)
    &&& forall|i: int, j: int|
        0 <= i < aggs.len() && 0 <= j < aggs.len() && (#[trigger] aggs[i]).aggregate_type == (
        #[trigger] aggs[j]).aggregate_type ==> aggs[i].fns.initial() == aggs[j].fns.initial() && (i
            != j ==> aggs[i].event_prefix != aggs[j].event_prefix)
}

/// The state of a type before any event.
pub open spec fn initial_of<B: FoldFns>(
    aggs: Seq<AggregatorView<B>>,
    aggregate_type: Seq<char>,
) -> B::State {
    aggs[first_of_type(aggs, aggregate_type)->0].fns.initial()
}

/// No event of the stream that the type folds is skipped for want of an id: it
/// has one, or its payload does not decode.
pub open spec fn none_skipped<B: FoldFns>(
    aggs: Seq<AggregatorView<B>>,
    aggregate_type: Seq<char>,
    stream: Seq<Delivery>,
) -> bool {
    forall|i: int, j: int|
        0 <= i < stream.len() && 0 <= j < aggs.len() && (#[trigger] aggs[j]).aggregate_type
            == aggregate_type && aggs[j].event_prefix == (#[trigger] stream[i]).event_type
            && aggs[j].fns.extracted(stream[i].payload) is None ==> !readable(
            aggs[j].fns,
            stream[i].payload,
        )
}

/// A payload that no aggregator of its kind can read is fatal, live and in
/// replay alike: its delivery fails, whatever was folded before, and so does
/// its replay onto any state.
pub proof fn law_bad_payload_is_fatal<A: Aggregate + Apply<F> + Codec, F: Event, I: IdFn<F>>(
    aggs: Seq<AggregatorView<TypedFold<A, F, I>>>,
    at: Delivery,
    j: int,
    table: Map<Seq<char>, Entry<A>>,
    state: A,
)
    requires
        0 <= j < aggs.len(),
        aggs[j].event_prefix == at.event_type,
        F::decoded(at.payload) is None,
    ensures
        deliver(aggs, at, table).failure matches Some(f) && f is Apply,
        deliver(aggs, at, table).table == table,
        replay_upto(
            aggs,
            aggs.len(),
            aggs[j].aggregate_type,
            state,
            at.event_type,
            at.payload,
        ) is None,
{
    lemma_bad_payload_fails(aggs, at, aggs.len(), table);
    lemma_bad_payload_stays_fatal(aggs, at, j, aggs.len(), state);
}

proof fn lemma_bad_payload_fails<A: Aggregate + Apply<F> + Codec, F: Event, I: IdFn<F>>(
    aggs: Seq<AggregatorView<TypedFold<A, F, I>>>,
    at: Delivery,
    n: nat,
    table: Map<Seq<char>, Entry<A>>,
)
    requires
        n <= aggs.len(),
        F::decoded(at.payload) is None,
    ensures
        ({
            let p = deliver_upto(aggs, n, at, table);
            &&& p.table == table
            &&& p.failure matches Some(f) ==> f is Apply
            &&& forall|j: int|
                0 <= j < n && (#[trigger] aggs[j]).event_prefix == at.event_type ==> p.failure
                    is Some
        }),
    decreases n,
{
    if n > 0 {
        lemma_bad_payload_fails(aggs, at, (n - 1) as nat, table);
    }
}

proof fn lemma_bad_payload_stays_fatal<A: Aggregate + Apply<F> + Codec, F: Event, I: IdFn<F>>(
    aggs: Seq<AggregatorView<TypedFold<A, F, I>>>,
    at: Delivery,
    j: int,
    n: nat,
    state: A,
)
    requires
        0 <= j < n <= aggs.len(),
        aggs[j].event_prefix == at.event_type,
        F::decoded(at.payload) is None,
    ensures
        replay_upto(aggs, n, aggs[j].aggregate_type, state, at.event_type, at.payload) is None,
    decreases n,
{
    if j < n - 1 {
        lemma_bad_payload_stays_fatal(aggs, at, j, (n - 1) as nat, state);
    }
}

/// Aggregators that find their aggregate by the event's own subject skip no
/// event, so what is said of streams without skipped events holds of every
/// stream.
pub proof fn law_subject_folds_skip_nothing<A: Aggregate + Apply<F> + Codec, F: Event>(
    aggs: Seq<AggregatorView<TypedFold<A, F, BySubject>>>,
    aggregate_type: Seq<char>,
    stream: Seq<Delivery>,
)
    ensures
        none_skipped(aggs, aggregate_type, stream),
{
}

/// The aggregate's entry, if it has one, is the fold of as many of its
/// stream's first events as its version says.
pub open spec fn faithful<B: FoldFns>(
    aggs: Seq<AggregatorView<B>>,
    table: Map<Seq<char>, Entry<B::State>>,
    aggregate_type: Seq<char>,
    id: u128,
    stream: Seq<Delivery>,
) -> bool {
    let key = state_key(aggregate_type, id);
    table.contains_key(key) ==> table[key].marks.version.0 <= stream.len() && replayed(
        aggs,
        aggregate_type,
        initial_of(aggs, aggregate_type),
        stream.take(table[key].marks.version.0 as int),
    ) == Some(table[key].state)
}

/// Replaying an event through a coherent registry is what its one aggregator
/// does with it, or nothing.
proof fn lemma_replay_one<B: FoldFns>(
    aggs: Seq<AggregatorView<B>>,
    n: nat,
    at: Delivery,
    aggregate_type: Seq<char>,
    state: B::State,
)
    requires
        coherent(aggs),
        n <= aggs.len(),
    ensures
        ({
            let r = replay_upto(aggs, n, aggregate_type, state, at.event_type, at.payload);
            &&& forall|j: int|
                0 <= j < n && (#[trigger] aggs[j]).aggregate_type == aggregate_type
                    && aggs[j].event_prefix == at.event_type ==> r == aggs[j].fns.applied(
                    state,
                    at.payload,
                )
            &&& (forall|j: int|
                0 <= j < n && (#[trigger] aggs[j]).aggregate_type == aggregate_type
                    ==> aggs[j].event_prefix != at.event_type) ==> r == Some(state)
        }),
    decreases n,
{
    if n > 0 {
        let m = (n - 1) as nat;
        lemma_replay_one(aggs, m, at, aggregate_type, state);
        let r = replay_upto(aggs, n, aggregate_type, state, at.event_type, at.payload);
        let last = aggs[n - 1];
        if last.aggregate_type == aggregate_type && last.event_prefix == at.event_type {
            assert forall|j: int| 0 <= j < m && (#[trigger] aggs[j]).aggregate_type
                == aggregate_type implies aggs[j].event_prefix != at.event_type by {
                assert(aggs[n - 1].aggregate_type == aggregate_type);
            }
        }
    }
}

/// Delivering an event of the stream keeps the aggregate faithful to it.
pub proof fn law_delivery_keeps_fidelity<B: FoldFns>(
    aggs: Seq<AggregatorView<B>>,
    n: nat,
    table: Map<Seq<char>, Entry<B::State>>,
    aggregate_type: Seq<char>,
    id: u128,
    category: Seq<char>,
    stream: Seq<Delivery>,
    i: int,
)
    requires
        coherent(aggs),
        n <= aggs.len(),
        aligned_type(aggs, aggregate_type, category),
        dense(stream, category, id),
        0 <= i < stream.len(),
        faithful(aggs, table, aggregate_type, id, stream),
    ensures
        faithful(
            aggs,
            deliver_upto(aggs, n, stream[i], table).table,
            aggregate_type,
            id,
            stream,
        ),
    decreases n,
{
    if n > 0 {
        let at = stream[i];
        let key = state_key(aggregate_type, id);
        let m = (n - 1) as nat;
        law_delivery_keeps_fidelity(
            aggs,
            m,
            table,
            aggregate_type,
            id,
            category,
            stream,
            i,
        );
        let p = deliver_upto(aggs, m, at, table);
        let q = deliver_upto(aggs, n, at, table);
        let agg = aggs[n - 1];
        if agg.aggregate_type != aggregate_type || agg.event_prefix != at.event_type
            || agg.fns.extracted(at.payload) != Some(id) {
            lemma_other_key_untouched(agg, at, p, aggregate_type, id);
        } else {
            lemma_prev_key_apart(aggregate_type, id, aggregate_type, id);
            lemma_first_of_type(aggs, aggregate_type);
            let pre = state_or(p.table, key, agg.fns.initial());
            lemma_replay_one(aggs, aggs.len(), at, aggregate_type, pre);
            let first = first_of_type(aggs, aggregate_type)->0;
            assert(aggs[first].fns.initial() == aggs[n - 1].fns.initial());
            let initial = initial_of(aggs, aggregate_type);
            if p.failure is None && turn(true, marks_at(p.table, key), at.revision, at.position)
                is Fold && agg.fns.applied(pre, at.payload) is Some {
                let before = stream.take(i);
                let after = stream.take(i + 1);
                assert(after.drop_last() =~= before);
                assert(after.last() == at);
                if !p.table.contains_key(key) {
                    assert(i == 0);
                    assert(before =~= Seq::<Delivery>::empty());
                }
                assert(replayed(aggs, aggregate_type, initial, before) == Some(pre));
                let post = agg.fns.applied(pre, at.payload)->0;
                assert(replayed(aggs, aggregate_type, initial, after) == Some(post));
                assert(q.table[key].state == post);
                assert(q.table[key].marks.version.0 == i + 1);
            } else {
                assert(q.table == p.table);
            }
        }
    }
}

/// Repairing one aggregate of the stream keeps every aggregate of the stream
/// faithful to it.
proof fn lemma_repair_keeps_fidelity<B: FoldFns>(
    aggs: Seq<AggregatorView<B>>,
    repaired_type: Seq<char>,
    upto: Option<StreamRevision>,
    from: u64,
    n: nat,
    table: Map<Seq<char>, Entry<B::State>>,
    aggregate_type: Seq<char>,
    id: u128,
    category: Seq<char>,
    stream: Seq<Delivery>,
)
    requires
        coherent(aggs),
        aligned_type(aggs, aggregate_type, category),
        aligned_type(aggs, repaired_type, category),
        dense(stream, category, id),
        none_skipped(aggs, aggregate_type, stream),
        from <= version_at(table, state_key(repaired_type, id)),
        from <= stream.len(),
        n <= stream.len() - from,
        faithful(aggs, table, aggregate_type, id, stream),
    ensures
        ({
            let r = repair_upto(
                aggs,
                repaired_type,
                id,
                upto,
                stream.skip(from as int),
                n,
                table,
            );
            let key = state_key(repaired_type, id);
            &&& faithful(aggs, r.table, aggregate_type, id, stream)
            &&& r.failure is None && !r.stopped && r.table.contains_key(key) ==> version_at(
                r.table,
                key,
            ) >= from + n
        }),
    decreases n,
{
    if n > 0 {
        let m = (n - 1) as nat;
        let tail = stream.skip(from as int);
        lemma_repair_keeps_fidelity(
            aggs,
            repaired_type,
            upto,
            from,
            m,
            table,
            aggregate_type,
            id,
            category,
            stream,
        );
        let r = repair_upto(aggs, repaired_type, id, upto, tail, m, table);
        let i = from + n - 1;
        let e = tail[n - 1];
        assert(e == stream[i]);
        if r.failure is None && !r.stopped {
            law_delivery_keeps_fidelity(
                aggs,
                aggs.len(),
                r.table,
                aggregate_type,
                id,
                category,
                stream,
                i,
            );
            lemma_deliver_versions(aggs, aggs.len(), e, r.table, repaired_type, id, category);
            let p = deliver(aggs, e, r.table);
            let key = state_key(repaired_type, id);
            if aggregate_type == repaired_type {
                if p.failure is None && p.table.contains_key(key) && version_at(p.table, key)
                    == i {
                    lemma_no_kind_no_fold(aggs, aggs.len(), e, r.table, aggregate_type, id, category);
                    let s = p.table[key].state;
                    lemma_replay_one(aggs, aggs.len(), e, aggregate_type, s);
                    assert forall|j: int| 0 <= j < aggs.len() && (#[trigger] aggs[j]).aggregate_type
                        == aggregate_type implies aggs[j].event_prefix != e.event_type by {
                        if aggs[j].event_prefix == stream[i].event_type {
                            assert(!readable(aggs[j].fns, stream[i].payload));
                        }
                    }
                    let after = stream.take(i + 1);
                    assert(after.drop_last() =~= stream.take(i));
                    assert(after.last() == e);
                    let initial = initial_of(aggs, aggregate_type);
                    assert(replayed(aggs, aggregate_type, initial, after) == Some(s));
                }
            } else {
                if state_key(aggregate_type, id) == key {
                    lemma_state_key_injective(aggregate_type, id, repaired_type, id);
                }
            }
        }
    }
}

/// If a state's version still stands at the delivered revision behind a
/// delivery without failure, no aggregator of its type takes the event: each of
/// the event's kind found it readable and gave it no id.
proof fn lemma_no_kind_no_fold<B: FoldFns>(
    aggs: Seq<AggregatorView<B>>,
    n: nat,
    at: Delivery,
    table: Map<Seq<char>, Entry<B::State>>,
    aggregate_type: Seq<char>,
    id: u128,
    category: Seq<char>,
)
    requires
        n <= aggs.len(),
        at.revision < u64::MAX,
        at.category == category,
        at.subject_id == id,
        aligned_type(aggs, aggregate_type, category),
        deliver_upto(aggs, n, at, table).failure is None,
        version_at(deliver_upto(aggs, n, at, table).table, state_key(aggregate_type, id))
            == at.revision,
    ensures
        forall|j: int|
            0 <= j < n && (#[trigger] aggs[j]).aggregate_type == aggregate_type
                && aggs[j].event_prefix == at.event_type ==> aggs[j].fns.extracted(at.payload)
                is None && readable(aggs[j].fns, at.payload),
    decreases n,
{
    if n > 0 {
        let m = (n - 1) as nat;
        let p = deliver_upto(aggs, m, at, table);
        let agg = aggs[n - 1];
        lemma_prev_key_apart(aggregate_type, id, aggregate_type, id);
        if agg.aggregate_type != aggregate_type || agg.event_prefix != at.event_type
            || agg.fns.extracted(at.payload) != Some(id) {
            lemma_other_key_untouched(agg, at, p, aggregate_type, id);
            lemma_no_kind_no_fold(aggs, m, at, table, aggregate_type, id, category);
        } else {
            lemma_deliver_versions(aggs, m, at, table, aggregate_type, id, category);
            lemma_deliver_versions(aggs, n, at, table, aggregate_type, id, category);
        }
    }
}

/// Some gap from index `k` on belongs to the type.
pub open spec fn gap_from(gaps: Seq<GapView>, k: int, aggregate_type: Seq<char>) -> bool {
    exists|i: int| k <= i < gaps.len() && (#[trigger] gaps[i]).aggregate_type == aggregate_type
}

/// Behind a delivery without failure, each restorable aggregator it is for has
/// the event, or reported a gap.
proof fn lemma_deliver_accounts<B: FoldFns>(
    aggs: Seq<AggregatorView<B>>,
    n: nat,
    at: Delivery,
    table: Map<Seq<char>, Entry<B::State>>,
    j: int,
)
    requires
        n <= aggs.len(),
        at.revision < u64::MAX,
        one_subject_per_type(aggs),
        concerns(aggs, at, j),
        j < n,
        deliver_upto(aggs, n, at, table).failure is None,
    ensures
        ({
            let p = deliver_upto(aggs, n, at, table);
            ||| version_at(p.table, state_key(aggs[j].aggregate_type, at.subject_id)) > at.revision
            ||| gap_from(p.outcome.gaps, 0, aggs[j].aggregate_type)
        }),
    decreases n,
{
    let m = (n - 1) as nat;
    let name = aggs[j].aggregate_type;
    let p = deliver_upto(aggs, m, at, table);
    let q = deliver_upto(aggs, n, at, table);
    assert(aligned_type(aggs, name, at.category));
    if j < m {
        lemma_deliver_accounts(aggs, m, at, table, j);
        if gap_from(p.outcome.gaps, 0, name) {
            let i = choose|i: int|
                0 <= i < p.outcome.gaps.len() && (#[trigger] p.outcome.gaps[i]).aggregate_type
                    == name;
            assert(q.outcome.gaps[i] == p.outcome.gaps[i]);
        } else {
            let agg = aggs[n - 1];
            if agg.aggregate_type != name || agg.event_prefix != at.event_type
                || agg.fns.extracted(at.payload) != Some(at.subject_id) {
                lemma_other_key_untouched(agg, at, p, name, at.subject_id);
            }
        }
    } else {
        lemma_prev_key_apart(name, at.subject_id, name, at.subject_id);
        let key = state_key(name, at.subject_id);
        if turn(true, marks_at(p.table, key), at.revision, at.position) is Gap {
            assert(q.outcome.gaps[q.outcome.gaps.len() - 1].aggregate_type == name);
        }
    }
}

/// A session answered for `fuel` steps: from an honest stream, and from what
/// `snapshots` stores for each type.
pub open spec fn drive<B: FoldFns>(
    aggs: Seq<AggregatorView<B>>,
    at: Delivery,
    stream: Seq<Delivery>,
    snapshots: spec_fn(Seq<char>) -> Option<Snapshot>,
    reached: Reached<B::State>,
    fuel: nat,
) -> Reached<B::State>
    decreases fuel,
{
    if fuel == 0 {
        reached
    } else {
        match reached.step {
            StepView::ReadStream { after, .. } => drive(
                aggs,
                at,
                stream,
                snapshots,
                took_stream(
                    aggs,
                    reached.table,
                    at,
                    reached.session,
                    honest_tail(stream, after),
                ),
                (fuel - 1) as nat,
            ),
            StepView::LoadSnapshot { aggregate_type, .. } => drive(
                aggs,
                at,
                stream,
                snapshots,
                took_snapshot(aggs, reached.table, reached.session, snapshots(aggregate_type)),
                (fuel - 1) as nat,
            ),
            _ => reached,
        }
    }
}

/// A strict session in its first pass over the gaps, about to take the stream
/// for gap `k`: every aggregate the event is for has caught up or has its gap
/// still ahead.
spec fn on_course<B: FoldFns>(
    aggs: Seq<AggregatorView<B>>,
    at: Delivery,
    reached: Reached<B::State>,
    k: int,
) -> bool {
    let s = reached.session;
    &&& s.strict
    &&& s.rounds_left > 0
    &&& s.stage is RepairTail
    &&& s.next == k
    &&& 0 <= k < s.gaps.len()
    &&& reached.step == (StepView::<B::State>::ReadStream {
        subject: s.gaps[k].subject,
        id: s.gaps[k].id,
        after: read_after(s.gaps[k].expected),
        discard_snapshot: false,
    })
    &&& reached.table.contains_key(state_key(s.gaps[k].aggregate_type, s.gaps[k].id))
    &&& gaps_ahead(aggs, at, reached.table, s.gaps, k)
}

/// Every gap is one of the event's own stream, below the event, and no more
/// than the version the aggregate has by now.
spec fn sound_gaps<B: FoldFns>(
    aggs: Seq<AggregatorView<B>>,
    at: Delivery,
    table: Map<Seq<char>, Entry<B::State>>,
    gaps: Seq<GapView>,
) -> bool {
    forall|i: int|
        0 <= i < gaps.len() ==> {
            let gap = #[trigger] gaps[i];
            &&& gap.id == at.subject_id
            &&& gap.subject == at.category
            &&& gap.expected <= version_at(table, state_key(gap.aggregate_type, gap.id))
            &&& gap.expected < at.revision
            &&& aligned_type(aggs, gap.aggregate_type, at.category)
            &&& first_of_type(aggs, gap.aggregate_type) is Some
        }
}

spec fn gaps_ahead<B: FoldFns>(
    aggs: Seq<AggregatorView<B>>,
    at: Delivery,
    table: Map<Seq<char>, Entry<B::State>>,
    gaps: Seq<GapView>,
    k: int,
) -> bool {
    &&& sound_gaps(aggs, at, table, gaps)
    &&& forall|j: int| #[trigger]
        concerns(aggs, at, j) ==> version_at(
            table,
            state_key(aggs[j].aggregate_type, at.subject_id),
        ) >= at.revision || gap_from(gaps, k, aggs[j].aggregate_type)
}

/// Taking one honest stream moves a strict session on to the next gap or to
/// its end.
proof fn lemma_one_answer<B: FoldFns>(
    aggs: Seq<AggregatorView<B>>,
    at: Delivery,
    stream: Seq<Delivery>,
    reached: Reached<B::State>,
    k: int,
)
    requires
        one_subject_per_type(aggs),
        dense(stream, at.category, at.subject_id),
        at.revision < stream.len(),
        on_course(aggs, at, reached, k),
    ensures
        ({
            let s = reached.session;
            let after = read_after(s.gaps[k].expected);
            let next = took_stream(aggs, reached.table, at, s, honest_tail(stream, after));
            ||| next.step is Done
            ||| (next.step matches StepView::Failed(f) && f !is NotConverged)
            ||| k + 1 < s.gaps.len() && next.session.gaps == s.gaps && on_course(
                aggs,
                at,
                next,
                k + 1,
            )
        }),
{
    let s = reached.session;
    let gap = s.gaps[k];
    let after = read_after(gap.expected);
    let tail = honest_tail(stream, after);
    assert(tail =~= stream.skip(gap.expected as int));
    let upto = Some(StreamRevision(at.revision));
    let key = state_key(gap.aggregate_type, gap.id);
    let end = repair_upto(
        aggs,
        gap.aggregate_type,
        gap.id,
        upto,
        tail,
        tail.len(),
        reached.table,
    );
    lemma_repair_failures(
        aggs,
        gap.aggregate_type,
        gap.id,
        upto,
        tail,
        tail.len(),
        reached.table,
    );
    if end.failure is None {
        lemma_strict_repair_reaches_bound(
            aggs,
            gap.aggregate_type,
            gap.id,
            at.category,
            stream,
            gap.expected,
            at.revision,
            tail.len(),
            reached.table,
        );
        assert forall|i: int| 0 <= i < tail.len() implies (#[trigger] tail[i]).revision
            < u64::MAX by {
            assert(tail[i] == stream[gap.expected + i]);
        }
        assert forall|i: int| 0 <= i < s.gaps.len() implies (#[trigger] s.gaps[i]).expected
            <= version_at(end.table, state_key(s.gaps[i].aggregate_type, s.gaps[i].id)) by {
            lemma_repair_versions(
                aggs,
                gap.aggregate_type,
                gap.id,
                upto,
                tail,
                tail.len(),
                reached.table,
                s.gaps[i].aggregate_type,
                s.gaps[i].id,
                at.category,
            );
        }
        assert forall|j: int| #[trigger] concerns(aggs, at, j) implies version_at(
            end.table,
            state_key(aggs[j].aggregate_type, at.subject_id),
        ) >= at.revision || gap_from(s.gaps, k + 1, aggs[j].aggregate_type) by {
            let name = aggs[j].aggregate_type;
            lemma_repair_versions(
                aggs,
                gap.aggregate_type,
                gap.id,
                upto,
                tail,
                tail.len(),
                reached.table,
                name,
                at.subject_id,
                at.category,
            );
            if gap_from(s.gaps, k, name) && name != gap.aggregate_type {
                let i = choose|i: int|
                    k <= i < s.gaps.len() && (#[trigger] s.gaps[i]).aggregate_type == name;
                assert(i != k);
                assert(s.gaps[i].aggregate_type == name);
            }
        }
        assert(gaps_ahead(aggs, at, end.table, s.gaps, k + 1));
        let over = SessionView { stage: Stage::Finished, ..s };
        if k + 1 < s.gaps.len() {
            let g = s.gaps[k + 1];
            lemma_seeded(aggs, end.table, g.aggregate_type, g.id);
            let t = seeded(aggs, end.table, g.aggregate_type, g.id);
            assert(gaps_ahead(aggs, at, t, s.gaps, k + 1)) by {
                assert forall|i: int| 0 <= i < s.gaps.len() implies (#[trigger] s.gaps[i]).expected
                    <= version_at(t, state_key(s.gaps[i].aggregate_type, s.gaps[i].id)) by {}
                assert forall|j: int| #[trigger] concerns(aggs, at, j) implies version_at(
                    t,
                    state_key(aggs[j].aggregate_type, at.subject_id),
                ) >= at.revision || gap_from(s.gaps, k + 1, aggs[j].aggregate_type) by {}
            }
        } else {
            let p = deliver(aggs, at, end.table);
            lemma_deliver_failures(aggs, aggs.len(), at, end.table);
            if p.outcome.gaps.len() > 0 {
                lemma_gap_origin(aggs, aggs.len(), at, end.table, 0);
                let g = p.outcome.gaps[0];
                let j = choose|j: int| #[trigger] concerns(aggs, at, j) && aggs[j].aggregate_type
                    == g.aggregate_type;
                assert(concerns(aggs, at, j));
                assert(!gap_from(s.gaps, k + 1, g.aggregate_type));
            }
        }
    }
}

/// A strict fold converges: answered from a stream that holds every revision
/// up to the delivered event's, one pass over the gaps of the first round is
/// enough, and the second delivery finds none.
pub proof fn law_strict_fold_converges<B: FoldFns>(
    aggs: Seq<AggregatorView<B>>,
    at: Delivery,
    stream: Seq<Delivery>,
    snapshots: spec_fn(Seq<char>) -> Option<Snapshot>,
    table: Map<Seq<char>, Entry<B::State>>,
    fuel: nat,
)
    requires
        one_subject_per_type(aggs),
        dense(stream, at.category, at.subject_id),
        at.revision < stream.len(),
        fuel >= deliver(aggs, at, table).outcome.gaps.len(),
    ensures
        ({
            let start = round(aggs, table, at, fresh_session(true));
            let end = drive(aggs, at, stream, snapshots, start, fuel);
            end.step is Done || (end.step matches StepView::Failed(f) && f !is NotConverged)
        }),
{
    let p = deliver(aggs, at, table);
    let start = round(aggs, table, at, fresh_session(true));
    lemma_deliver_failures(aggs, aggs.len(), at, table);
    if p.failure is None && p.outcome.gaps.len() > 0 {
        let gaps = p.outcome.gaps;
        assert forall|i: int| 0 <= i < gaps.len() implies {
            let gap = #[trigger] gaps[i];
            &&& gap.id == at.subject_id
            &&& gap.subject == at.category
            &&& gap.expected <= version_at(p.table, state_key(gap.aggregate_type, gap.id))
            &&& gap.expected < at.revision
            &&& aligned_type(aggs, gap.aggregate_type, at.category)
            &&& first_of_type(aggs, gap.aggregate_type) is Some
        } by {
            lemma_gap_origin(aggs, aggs.len(), at, table, i);
        }
        assert forall|j: int| #[trigger] concerns(aggs, at, j) implies version_at(
            p.table,
            state_key(aggs[j].aggregate_type, at.subject_id),
        ) >= at.revision || gap_from(gaps, 0, aggs[j].aggregate_type) by {
            lemma_deliver_accounts(aggs, aggs.len(), at, table, j);
        }
        lemma_seeded(aggs, p.table, gaps[0].aggregate_type, gaps[0].id);
        assert(on_course(aggs, at, start, 0)) by {
            let t = seeded(aggs, p.table, gaps[0].aggregate_type, gaps[0].id);
            assert forall|i: int| 0 <= i < gaps.len() implies (#[trigger] gaps[i]).expected
                <= version_at(t, state_key(gaps[i].aggregate_type, gaps[i].id)) by {}
            assert forall|j: int| #[trigger] concerns(aggs, at, j) implies version_at(
                t,
                state_key(aggs[j].aggregate_type, at.subject_id),
            ) >= at.revision || gap_from(gaps, 0, aggs[j].aggregate_type) by {}
        }
        lemma_drive_ends(aggs, at, stream, snapshots, start, 0, fuel);
    }
}

proof fn lemma_drive_ends<B: FoldFns>(
    aggs: Seq<AggregatorView<B>>,
    at: Delivery,
    stream: Seq<Delivery>,
    snapshots: spec_fn(Seq<char>) -> Option<Snapshot>,
    reached: Reached<B::State>,
    k: int,
    fuel: nat,
)
    requires
        one_subject_per_type(aggs),
        dense(stream, at.category, at.subject_id),
        at.revision < stream.len(),
        on_course(aggs, at, reached, k),
        fuel >= reached.session.gaps.len() - k,
    ensures
        ({
            let end = drive(aggs, at, stream, snapshots, reached, fuel);
            end.step is Done || (end.step matches StepView::Failed(f) && f !is NotConverged)
        }),
    decreases fuel,
{
    lemma_one_answer(aggs, at, stream, reached, k);
    let s = reached.session;
    let after = read_after(s.gaps[k].expected);
    let next = took_stream(aggs, reached.table, at, s, honest_tail(stream, after));
    if next.step is Done || next.step is Failed {
        reveal_with_fuel(drive, 2);
    } else {
        lemma_drive_ends(aggs, at, stream, snapshots, next, k + 1, (fuel - 1) as nat);
    }
}

/// A strict repair takes no aggregate past the bound.
proof fn lemma_strict_repair_stays_below<B: FoldFns>(
    aggs: Seq<AggregatorView<B>>,
    repaired_type: Seq<char>,
    repaired_id: u128,
    bound: u64,
    tail: Seq<Delivery>,
    n: nat,
    table: Map<Seq<char>, Entry<B::State>>,
    aggregate_type: Seq<char>,
    id: u128,
    category: Seq<char>,
)
    requires
        n <= tail.len(),
        aligned_type(aggs, aggregate_type, category),
        forall|i: int| 0 <= i < tail.len() ==> (#[trigger] tail[i]).revision < u64::MAX,
    ensures
        ({
            let key = state_key(aggregate_type, id);
            let r = repair_upto(
                aggs,
                repaired_type,
                repaired_id,
                Some(StreamRevision(bound)),
                tail,
                n,
                table,
            );
            version_at(r.table, key) <= version_at(table, key) || version_at(r.table, key) <= bound
        }),
    decreases n,
{
    if n > 0 {
        let m = (n - 1) as nat;
        lemma_strict_repair_stays_below(
            aggs,
            repaired_type,
            repaired_id,
            bound,
            tail,
            m,
            table,
            aggregate_type,
            id,
            category,
        );
        let upto = Some(StreamRevision(bound));
        let r = repair_upto(aggs, repaired_type, repaired_id, upto, tail, m, table);
        lemma_deliver_versions(aggs, aggs.len(), tail[n - 1], r.table, aggregate_type, id, category);
    }
}

/// What a strict fold keeps, answer by answer, of one aggregate of the stream.
spec fn exact_course<B: FoldFns>(
    aggs: Seq<AggregatorView<B>>,
    at: Delivery,
    stream: Seq<Delivery>,
    aggregate_type: Seq<char>,
    start: u64,
    reached: Reached<B::State>,
) -> bool {
    let s = reached.session;
    let version = version_at(reached.table, state_key(aggregate_type, at.subject_id));
    &&& s.strict
    &&& sound_gaps(aggs, at, reached.table, s.gaps)
    &&& faithful(aggs, reached.table, aggregate_type, at.subject_id, stream)
    &&& version <= start || version <= at.revision + 1
    &&& reached.step !is LoadSnapshot
    &&& reached.step matches StepView::ReadStream { after, .. } ==> {
        &&& s.stage is RepairTail
        &&& 0 <= s.next < s.gaps.len()
        &&& after == read_after(s.gaps[s.next].expected)
    }
    &&& reached.step is Done ==> forall|j: int| #[trigger]
        concerns(aggs, at, j) && aggs[j].aggregate_type == aggregate_type ==> version > at.revision
}

/// Asking for the stream behind a gap keeps the course.
proof fn lemma_ask_keeps_course<B: FoldFns>(
    aggs: Seq<AggregatorView<B>>,
    at: Delivery,
    stream: Seq<Delivery>,
    aggregate_type: Seq<char>,
    start: u64,
    table: Map<Seq<char>, Entry<B::State>>,
    s: SessionView<B::State>,
)
    requires
        s.strict,
        sound_gaps(aggs, at, table, s.gaps),
        0 <= s.next < s.gaps.len(),
        faithful(aggs, table, aggregate_type, at.subject_id, stream),
        version_at(table, state_key(aggregate_type, at.subject_id)) <= start || version_at(
            table,
            state_key(aggregate_type, at.subject_id),
        ) <= at.revision + 1,
    ensures
        exact_course(aggs, at, stream, aggregate_type, start, ask(aggs, table, s)),
{
    let gap = s.gaps[s.next];
    lemma_seeded(aggs, table, gap.aggregate_type, gap.id);
    let t = seeded(aggs, table, gap.aggregate_type, gap.id);
    let key = state_key(aggregate_type, at.subject_id);
    assert(sound_gaps(aggs, at, t, s.gaps)) by {
        assert forall|i: int| 0 <= i < s.gaps.len() implies (#[trigger] s.gaps[i]).expected
            <= version_at(t, state_key(s.gaps[i].aggregate_type, s.gaps[i].id)) by {}
    }
    assert(version_at(t, key) == version_at(table, key));
    if !table.contains_key(key) && t.contains_key(key) {
        lemma_state_key_injective(aggregate_type, at.subject_id, gap.aggregate_type, gap.id);
        assert(stream.take(0) =~= Seq::<Delivery>::empty());
    }
    assert(faithful(aggs, t, aggregate_type, at.subject_id, stream));
}

/// Delivering the event keeps the course.
proof fn lemma_round_keeps_course<B: FoldFns>(
    aggs: Seq<AggregatorView<B>>,
    at: Delivery,
    stream: Seq<Delivery>,
    aggregate_type: Seq<char>,
    start: u64,
    table: Map<Seq<char>, Entry<B::State>>,
    s: SessionView<B::State>,
)
    requires
        coherent(aggs),
        aligned_type(aggs, aggregate_type, at.category),
        dense(stream, at.category, at.subject_id),
        at.revision < stream.len(),
        stream[at.revision as int] == at,
        s.strict,
        sound_gaps(aggs, at, table, s.gaps),
        faithful(aggs, table, aggregate_type, at.subject_id, stream),
        version_at(table, state_key(aggregate_type, at.subject_id)) <= start || version_at(
            table,
            state_key(aggregate_type, at.subject_id),
        ) <= at.revision + 1,
    ensures
        exact_course(aggs, at, stream, aggregate_type, start, round(aggs, table, at, s)),
{
    if s.rounds_left > 0 {
        let p = deliver(aggs, at, table);
        law_delivery_keeps_fidelity(
            aggs,
            aggs.len(),
            table,
            aggregate_type,
            at.subject_id,
            at.category,
            stream,
            at.revision as int,
        );
        lemma_deliver_versions(
            aggs,
            aggs.len(),
            at,
            table,
            aggregate_type,
            at.subject_id,
            at.category,
        );
        assert(sound_gaps(aggs, at, p.table, s.gaps)) by {
            assert forall|i: int| 0 <= i < s.gaps.len() implies (#[trigger] s.gaps[i]).expected
                <= version_at(p.table, state_key(s.gaps[i].aggregate_type, s.gaps[i].id)) by {
                lemma_deliver_versions(
                    aggs,
                    aggs.len(),
                    at,
                    table,
                    s.gaps[i].aggregate_type,
                    s.gaps[i].id,
                    at.category,
                );
            }
        }
        if p.failure is None {
            let gaps = p.outcome.gaps;
            if gaps.len() > 0 {
                assert(sound_gaps(aggs, at, p.table, gaps)) by {
                    assert forall|i: int| 0 <= i < gaps.len() implies {
                        let gap = #[trigger] gaps[i];
                        &&& gap.id == at.subject_id
                        &&& gap.subject == at.category
                        &&& gap.expected <= version_at(
                            p.table,
                            state_key(gap.aggregate_type, gap.id),
                        )
                        &&& gap.expected < at.revision
                        &&& aligned_type(aggs, gap.aggregate_type, at.category)
                        &&& first_of_type(aggs, gap.aggregate_type) is Some
                    } by {
                        lemma_gap_origin(aggs, aggs.len(), at, table, i);
                    }
                }
                let left = SessionView { rounds_left: (s.rounds_left - 1) as u8, ..s };
                lemma_ask_keeps_course(
                    aggs,
                    at,
                    stream,
                    aggregate_type,
                    start,
                    p.table,
                    SessionView { gaps, next: 0, ..left },
                );
            } else {
                assert forall|j: int| #[trigger] concerns(aggs, at, j) && aggs[j].aggregate_type
                    == aggregate_type implies version_at(
                    p.table,
                    state_key(aggregate_type, at.subject_id),
                ) > at.revision by {
                    lemma_deliver_accounts(aggs, aggs.len(), at, table, j);
                }
            }
        }
    }
}

/// Taking an honest stream keeps the course.
proof fn lemma_answer_keeps_course<B: FoldFns>(
    aggs: Seq<AggregatorView<B>>,
    at: Delivery,
    stream: Seq<Delivery>,
    aggregate_type: Seq<char>,
    start: u64,
    reached: Reached<B::State>,
)
    requires
        coherent(aggs),
        aligned_type(aggs, aggregate_type, at.category),
        dense(stream, at.category, at.subject_id),
        none_skipped(aggs, aggregate_type, stream),
        at.revision < stream.len(),
        stream[at.revision as int] == at,
        exact_course(aggs, at, stream, aggregate_type, start, reached),
        reached.step is ReadStream,
    ensures
        ({
            let s = reached.session;
            let after = read_after(s.gaps[s.next].expected);
            exact_course(
                aggs,
                at,
                stream,
                aggregate_type,
                start,
                took_stream(aggs, reached.table, at, s, honest_tail(stream, after)),
            )
        }),
{
    let s = reached.session;
    let gap = s.gaps[s.next];
    let tail = honest_tail(stream, read_after(gap.expected));
    assert(tail =~= stream.skip(gap.expected as int));
    let upto = Some(StreamRevision(at.revision));
    let n = tail.len();
    let end = repair_upto(aggs, gap.aggregate_type, gap.id, upto, tail, n, reached.table);
    assert forall|i: int| 0 <= i < tail.len() implies (#[trigger] tail[i]).revision < u64::MAX by {
        assert(tail[i] == stream[gap.expected + i]);
    }
    lemma_repair_keeps_fidelity(
        aggs,
        gap.aggregate_type,
        upto,
        gap.expected,
        n,
        reached.table,
        aggregate_type,
        at.subject_id,
        at.category,
        stream,
    );
    lemma_strict_repair_stays_below(
        aggs,
        gap.aggregate_type,
        gap.id,
        at.revision,
        tail,
        n,
        reached.table,
        aggregate_type,
        at.subject_id,
        at.category,
    );
    assert(sound_gaps(aggs, at, end.table, s.gaps)) by {
        assert forall|i: int| 0 <= i < s.gaps.len() implies (#[trigger] s.gaps[i]).expected
            <= version_at(end.table, state_key(s.gaps[i].aggregate_type, s.gaps[i].id)) by {
            lemma_repair_versions(
                aggs,
                gap.aggregate_type,
                gap.id,
                upto,
                tail,
                n,
                reached.table,
                s.gaps[i].aggregate_type,
                s.gaps[i].id,
                at.category,
            );
        }
    }
    if end.failure is None {
        let over = SessionView { stage: Stage::Finished, ..s };
        if s.next + 1 < s.gaps.len() {
            lemma_ask_keeps_course(
                aggs,
                at,
                stream,
                aggregate_type,
                start,
                end.table,
                SessionView { next: s.next + 1, ..over },
            );
        } else {
            lemma_round_keeps_course(aggs, at, stream, aggregate_type, start, end.table, over);
        }
    }
}

proof fn lemma_drive_keeps_course<B: FoldFns>(
    aggs: Seq<AggregatorView<B>>,
    at: Delivery,
    stream: Seq<Delivery>,
    snapshots: spec_fn(Seq<char>) -> Option<Snapshot>,
    aggregate_type: Seq<char>,
    start: u64,
    reached: Reached<B::State>,
    fuel: nat,
)
    requires
        coherent(aggs),
        aligned_type(aggs, aggregate_type, at.category),
        dense(stream, at.category, at.subject_id),
        none_skipped(aggs, aggregate_type, stream),
        at.revision < stream.len(),
        stream[at.revision as int] == at,
        exact_course(aggs, at, stream, aggregate_type, start, reached),
    ensures
        exact_course(
            aggs,
            at,
            stream,
            aggregate_type,
            start,
            drive(aggs, at, stream, snapshots, reached, fuel),
        ),
    decreases fuel,
{
    if fuel > 0 && reached.step is ReadStream {
        let s = reached.session;
        let after = read_after(s.gaps[s.next].expected);
        lemma_answer_keeps_course(aggs, at, stream, aggregate_type, start, reached);
        let next = took_stream(aggs, reached.table, at, s, honest_tail(stream, after));
        lemma_drive_keeps_course(
            aggs,
            at,
            stream,
            snapshots,
            aggregate_type,
            start,
            next,
            (fuel - 1) as nat,
        );
    }
}

/// The state is the fold of the log up to the cursor: a strict fold of event
/// `r` into a registry that stands at or before it leaves each aggregate that
/// takes the event at version `r + 1`, holding the fold of exactly the first
/// `r + 1` events of its stream.
pub proof fn law_strict_fold_is_exact<B: FoldFns>(
    aggs: Seq<AggregatorView<B>>,
    at: Delivery,
    stream: Seq<Delivery>,
    snapshots: spec_fn(Seq<char>) -> Option<Snapshot>,
    table: Map<Seq<char>, Entry<B::State>>,
    j: int,
    fuel: nat,
)
    requires
        coherent(aggs),
        concerns(aggs, at, j),
        dense(stream, at.category, at.subject_id),
        none_skipped(aggs, aggs[j].aggregate_type, stream),
        at.revision < stream.len(),
        stream[at.revision as int] == at,
        faithful(aggs, table, aggs[j].aggregate_type, at.subject_id, stream),
        version_at(table, state_key(aggs[j].aggregate_type, at.subject_id)) <= at.revision + 1,
    ensures
        ({
            let name = aggs[j].aggregate_type;
            let key = state_key(name, at.subject_id);
            let start = round(aggs, table, at, fresh_session(true));
            let end = drive(aggs, at, stream, snapshots, start, fuel);
            end.step is Done ==> {
                &&& end.table.contains_key(key)
                &&& end.table[key].marks.version.0 == at.revision + 1
                &&& Some(end.table[key].state) == replayed(
                    aggs,
                    name,
                    initial_of(aggs, name),
                    stream.take(at.revision + 1),
                )
            }
        }),
{
    let name = aggs[j].aggregate_type;
    let v = version_at(table, state_key(name, at.subject_id));
    assert(aligned_type(aggs, name, at.category));
    lemma_round_keeps_course(aggs, at, stream, name, v, table, fresh_session(true));
    let start = round(aggs, table, at, fresh_session(true));
    lemma_drive_keeps_course(aggs, at, stream, snapshots, name, v, start, fuel);
}

/// A strict fold takes no aggregate of the stream past the delivered event.
pub proof fn law_strict_fold_stops_at_event<B: FoldFns>(
    aggs: Seq<AggregatorView<B>>,
    at: Delivery,
    stream: Seq<Delivery>,
    snapshots: spec_fn(Seq<char>) -> Option<Snapshot>,
    table: Map<Seq<char>, Entry<B::State>>,
    aggregate_type: Seq<char>,
    fuel: nat,
)
    requires
        coherent(aggs),
        aligned_type(aggs, aggregate_type, at.category),
        dense(stream, at.category, at.subject_id),
        none_skipped(aggs, aggregate_type, stream),
        at.revision < stream.len(),
        stream[at.revision as int] == at,
        faithful(aggs, table, aggregate_type, at.subject_id, stream),
    ensures
        ({
            let key = state_key(aggregate_type, at.subject_id);
            let start = round(aggs, table, at, fresh_session(true));
            let end = drive(aggs, at, stream, snapshots, start, fuel);
            &&& version_at(end.table, key) <= version_at(table, key) || version_at(end.table, key)
                <= at.revision + 1
            &&& faithful(aggs, end.table, aggregate_type, at.subject_id, stream)
        }),
{
    let v = version_at(table, state_key(aggregate_type, at.subject_id));
    lemma_round_keeps_course(aggs, at, stream, aggregate_type, v, table, fresh_session(true));
    let start = round(aggs, table, at, fresh_session(true));
    lemma_drive_keeps_course(aggs, at, stream, snapshots, aggregate_type, v, start, fuel);
}

/// What any fold keeps, answer by answer, of one aggregate of the stream.
spec fn fair_course<B: FoldFns>(
    aggs: Seq<AggregatorView<B>>,
    at: Delivery,
    stream: Seq<Delivery>,
    snapshots: spec_fn(Seq<char>) -> Option<Snapshot>,
    aggregate_type: Seq<char>,
    reached: Reached<B::State>,
) -> bool {
    let s = reached.session;
    let gap = s.gaps[s.next];
    &&& sound_gaps(aggs, at, reached.table, s.gaps)
    &&& faithful(aggs, reached.table, aggregate_type, at.subject_id, stream)
    &&& reached.step matches StepView::ReadStream { after, .. } ==> {
        &&& 0 <= s.next < s.gaps.len()
        &&& match s.stage {
            Stage::RestoreTail(seed) => after == seed.after && seed == restore_seed_of(
                aggs[first_of_type(aggs, gap.aggregate_type)->0],
                snapshots(gap.aggregate_type),
            ),
            _ => after == read_after(gap.expected),
        }
    }
    &&& reached.step matches StepView::LoadSnapshot { aggregate_type: name, .. } ==> {
        &&& 0 <= s.next < s.gaps.len()
        &&& name == gap.aggregate_type
    }
}

/// What the log and the snapshot store must hold for a fold to be right.
pub open spec fn honest_sources<B: FoldFns>(
    aggs: Seq<AggregatorView<B>>,
    at: Delivery,
    stream: Seq<Delivery>,
    snapshots: spec_fn(Seq<char>) -> Option<Snapshot>,
) -> bool {
    &&& dense(stream, at.category, at.subject_id)
    &&& at.revision < stream.len()
    &&& stream[at.revision as int] == at
    &&& forall|name: Seq<char>| #[trigger]
        honest_snapshot(aggs, name, stream, snapshots(name))
}

proof fn lemma_ask_tail_is_fair<B: FoldFns>(
    aggs: Seq<AggregatorView<B>>,
    at: Delivery,
    stream: Seq<Delivery>,
    snapshots: spec_fn(Seq<char>) -> Option<Snapshot>,
    aggregate_type: Seq<char>,
    table: Map<Seq<char>, Entry<B::State>>,
    s: SessionView<B::State>,
)
    requires
        sound_gaps(aggs, at, table, s.gaps),
        0 <= s.next < s.gaps.len(),
        faithful(aggs, table, aggregate_type, at.subject_id, stream),
    ensures
        fair_course(aggs, at, stream, snapshots, aggregate_type, ask_tail(aggs, table, s)),
        fair_course(aggs, at, stream, snapshots, aggregate_type, ask(aggs, table, s)),
{
    let gap = s.gaps[s.next];
    lemma_seeded(aggs, table, gap.aggregate_type, gap.id);
    let t = seeded(aggs, table, gap.aggregate_type, gap.id);
    let key = state_key(aggregate_type, at.subject_id);
    assert(sound_gaps(aggs, at, t, s.gaps)) by {
        assert forall|i: int| 0 <= i < s.gaps.len() implies (#[trigger] s.gaps[i]).expected
            <= version_at(t, state_key(s.gaps[i].aggregate_type, s.gaps[i].id)) by {}
    }
    if !table.contains_key(key) && t.contains_key(key) {
        lemma_state_key_injective(aggregate_type, at.subject_id, gap.aggregate_type, gap.id);
        assert(stream.take(0) =~= Seq::<Delivery>::empty());
    }
}

proof fn lemma_round_is_fair<B: FoldFns>(
    aggs: Seq<AggregatorView<B>>,
    at: Delivery,
    stream: Seq<Delivery>,
    snapshots: spec_fn(Seq<char>) -> Option<Snapshot>,
    aggregate_type: Seq<char>,
    table: Map<Seq<char>, Entry<B::State>>,
    s: SessionView<B::State>,
)
    requires
        coherent(aggs),
        aligned_type(aggs, aggregate_type, at.category),
        honest_sources(aggs, at, stream, snapshots),
        sound_gaps(aggs, at, table, s.gaps),
        faithful(aggs, table, aggregate_type, at.subject_id, stream),
    ensures
        fair_course(aggs, at, stream, snapshots, aggregate_type, round(aggs, table, at, s)),
{
    if s.rounds_left > 0 {
        let p = deliver(aggs, at, table);
        law_delivery_keeps_fidelity(
            aggs,
            aggs.len(),
            table,
            aggregate_type,
            at.subject_id,
            at.category,
            stream,
            at.revision as int,
        );
        assert(sound_gaps(aggs, at, p.table, s.gaps)) by {
            assert forall|i: int| 0 <= i < s.gaps.len() implies (#[trigger] s.gaps[i]).expected
                <= version_at(p.table, state_key(s.gaps[i].aggregate_type, s.gaps[i].id)) by {
                lemma_deliver_versions(
                    aggs,
                    aggs.len(),
                    at,
                    table,
                    s.gaps[i].aggregate_type,
                    s.gaps[i].id,
                    at.category,
                );
            }
        }
        if p.failure is None && p.outcome.gaps.len() > 0 {
            let gaps = p.outcome.gaps;
            assert(sound_gaps(aggs, at, p.table, gaps)) by {
                assert forall|i: int| 0 <= i < gaps.len() implies {
                    let gap = #[trigger] gaps[i];
                    &&& gap.id == at.subject_id
                    &&& gap.subject == at.category
                    &&& gap.expected <= version_at(p.table, state_key(gap.aggregate_type, gap.id))
                    &&& gap.expected < at.revision
                    &&& aligned_type(aggs, gap.aggregate_type, at.category)
                    &&& first_of_type(aggs, gap.aggregate_type) is Some
                } by {
                    lemma_gap_origin(aggs, aggs.len(), at, table, i);
                }
            }
            let left = SessionView { rounds_left: (s.rounds_left - 1) as u8, ..s };
            lemma_ask_tail_is_fair(
                aggs,
                at,
                stream,
                snapshots,
                aggregate_type,
                p.table,
                SessionView { gaps, next: 0, ..left },
            );
        }
    }
}

proof fn lemma_next_gap_is_fair<B: FoldFns>(
    aggs: Seq<AggregatorView<B>>,
    at: Delivery,
    stream: Seq<Delivery>,
    snapshots: spec_fn(Seq<char>) -> Option<Snapshot>,
    aggregate_type: Seq<char>,
    table: Map<Seq<char>, Entry<B::State>>,
    s: SessionView<B::State>,
)
    requires
        coherent(aggs),
        aligned_type(aggs, aggregate_type, at.category),
        honest_sources(aggs, at, stream, snapshots),
        sound_gaps(aggs, at, table, s.gaps),
        0 <= s.next < s.gaps.len(),
        faithful(aggs, table, aggregate_type, at.subject_id, stream),
    ensures
        fair_course(aggs, at, stream, snapshots, aggregate_type, next_gap(aggs, table, at, s)),
{
    if s.next + 1 < s.gaps.len() {
        lemma_ask_tail_is_fair(
            aggs,
            at,
            stream,
            snapshots,
            aggregate_type,
            table,
            SessionView { next: s.next + 1, ..s },
        );
    } else {
        lemma_round_is_fair(aggs, at, stream, snapshots, aggregate_type, table, s);
    }
}

proof fn lemma_stream_answer_is_fair<B: FoldFns>(
    aggs: Seq<AggregatorView<B>>,
    at: Delivery,
    stream: Seq<Delivery>,
    snapshots: spec_fn(Seq<char>) -> Option<Snapshot>,
    aggregate_type: Seq<char>,
    reached: Reached<B::State>,
    after: Option<StreamRevision>,
)
    requires
        coherent(aggs),
        aligned_type(aggs, aggregate_type, at.category),
        honest_sources(aggs, at, stream, snapshots),
        none_skipped(aggs, aggregate_type, stream),
        fair_course(aggs, at, stream, snapshots, aggregate_type, reached),
        reached.step matches StepView::ReadStream { after: asked, .. } && asked == after,
    ensures
        fair_course(
            aggs,
            at,
            stream,
            snapshots,
            aggregate_type,
            took_stream(aggs, reached.table, at, reached.session, honest_tail(stream, after)),
        ),
{
    let s = reached.session;
    let gap = s.gaps[s.next];
    let tail = honest_tail(stream, after);
    let over = SessionView { stage: Stage::Finished, ..s };
    let gap_key = state_key(gap.aggregate_type, gap.id);
    let key = state_key(aggregate_type, at.subject_id);
    if s.stage is RestoreTail {
        let seed = s.stage->RestoreTail_0;
        if replayed(aggs, gap.aggregate_type, seed.state, tail) is Some {
            let state = replayed(aggs, gap.aggregate_type, seed.state, tail)->0;
            if seed.after is None && tail.len() == 0 {
                lemma_ask_tail_is_fair(
                    aggs,
                    at,
                    stream,
                    snapshots,
                    aggregate_type,
                    reached.table,
                    s,
                );
            } else {
                let t = installed(
                    reached.table,
                    gap_key,
                    state,
                    restored_version(seed.after, tail),
                    seed.snapshot_at,
                );
                assert(honest_snapshot(
                    aggs,
                    gap.aggregate_type,
                    stream,
                    snapshots(gap.aggregate_type),
                ));
                if aggregate_type == gap.aggregate_type {
                    law_restore_is_faithful(
                        aggs,
                        aggregate_type,
                        at.subject_id,
                        at.category,
                        stream,
                        snapshots(gap.aggregate_type),
                        reached.table,
                    );
                } else if key == gap_key {
                    lemma_state_key_injective(
                        aggregate_type,
                        at.subject_id,
                        gap.aggregate_type,
                        gap.id,
                    );
                }
                assert(faithful(aggs, t, aggregate_type, at.subject_id, stream));
                assert(sound_gaps(aggs, at, t, s.gaps)) by {
                    assert forall|i: int| 0 <= i < s.gaps.len() implies (
                    #[trigger] s.gaps[i]).expected <= version_at(
                        t,
                        state_key(s.gaps[i].aggregate_type, s.gaps[i].id),
                    ) by {}
                }
                lemma_next_gap_is_fair(aggs, at, stream, snapshots, aggregate_type, t, over);
            }
        }
    } else {
        assert(tail =~= stream.skip(gap.expected as int));
        let upto = if s.strict {
            Some(StreamRevision(at.revision))
        } else {
            None
        };
        let n = tail.len();
        let end = repair_upto(aggs, gap.aggregate_type, gap.id, upto, tail, n, reached.table);
        assert forall|i: int| 0 <= i < tail.len() implies (#[trigger] tail[i]).revision
            < u64::MAX by {
            assert(tail[i] == stream[gap.expected + i]);
        }
        lemma_repair_keeps_fidelity(
            aggs,
            gap.aggregate_type,
            upto,
            gap.expected,
            n,
            reached.table,
            aggregate_type,
            at.subject_id,
            at.category,
            stream,
        );
        assert(sound_gaps(aggs, at, end.table, s.gaps)) by {
            assert forall|i: int| 0 <= i < s.gaps.len() implies (#[trigger] s.gaps[i]).expected
                <= version_at(end.table, state_key(s.gaps[i].aggregate_type, s.gaps[i].id)) by {
                lemma_repair_versions(
                    aggs,
                    gap.aggregate_type,
                    gap.id,
                    upto,
                    tail,
                    n,
                    reached.table,
                    s.gaps[i].aggregate_type,
                    s.gaps[i].id,
                    at.category,
                );
            }
        }
        if end.failure is None {
            lemma_next_gap_is_fair(aggs, at, stream, snapshots, aggregate_type, end.table, over);
        }
    }
}

proof fn lemma_drive_is_fair<B: FoldFns>(
    aggs: Seq<AggregatorView<B>>,
    at: Delivery,
    stream: Seq<Delivery>,
    snapshots: spec_fn(Seq<char>) -> Option<Snapshot>,
    aggregate_type: Seq<char>,
    reached: Reached<B::State>,
    fuel: nat,
)
    requires
        coherent(aggs),
        aligned_type(aggs, aggregate_type, at.category),
        honest_sources(aggs, at, stream, snapshots),
        none_skipped(aggs, aggregate_type, stream),
        fair_course(aggs, at, stream, snapshots, aggregate_type, reached),
    ensures
        fair_course(
            aggs,
            at,
            stream,
            snapshots,
            aggregate_type,
            drive(aggs, at, stream, snapshots, reached, fuel),
        ),
    decreases fuel,
{
    if fuel > 0 {
        match reached.step {
            StepView::ReadStream { after, .. } => {
                lemma_stream_answer_is_fair(
                    aggs,
                    at,
                    stream,
                    snapshots,
                    aggregate_type,
                    reached,
                    after,
                );
                lemma_drive_is_fair(
                    aggs,
                    at,
                    stream,
                    snapshots,
                    aggregate_type,
                    took_stream(
                        aggs,
                        reached.table,
                        at,
                        reached.session,
                        honest_tail(stream, after),
                    ),
                    (fuel - 1) as nat,
                );
            },
            StepView::LoadSnapshot { aggregate_type: name, .. } => {
                lemma_drive_is_fair(
                    aggs,
                    at,
                    stream,
                    snapshots,
                    aggregate_type,
                    took_snapshot(aggs, reached.table, reached.session, snapshots(name)),
                    (fuel - 1) as nat,
                );
            },
            _ => {},
        }
    }
}

/// Aggregate state is a pure fold of the log: whatever a fold does on the way,
/// with snapshots or without, strict or not, finished or not, each aggregate
/// of the stream stays the fold of as many of its first events as its version
/// says.
pub proof fn law_fold_keeps_fidelity<B: FoldFns>(
    aggs: Seq<AggregatorView<B>>,
    at: Delivery,
    stream: Seq<Delivery>,
    snapshots: spec_fn(Seq<char>) -> Option<Snapshot>,
    table: Map<Seq<char>, Entry<B::State>>,
    aggregate_type: Seq<char>,
    strict: bool,
    fuel: nat,
)
    requires
        coherent(aggs),
        aligned_type(aggs, aggregate_type, at.category),
        honest_sources(aggs, at, stream, snapshots),
        none_skipped(aggs, aggregate_type, stream),
        faithful(aggs, table, aggregate_type, at.subject_id, stream),
    ensures
        ({
            let start = round(aggs, table, at, fresh_session(strict));
            let end = drive(aggs, at, stream, snapshots, start, fuel);
            faithful(aggs, end.table, aggregate_type, at.subject_id, stream)
        }),
{
    lemma_round_is_fair(
        aggs,
        at,
        stream,
        snapshots,
        aggregate_type,
        table,
        fresh_session(strict),
    );
    let start = round(aggs, table, at, fresh_session(strict));
    lemma_drive_is_fair(aggs, at, stream, snapshots, aggregate_type, start, fuel);
}

} // verus!
