//! What holds of restores and snapshots: a restored state is the fold of its
//! stream, and so agrees with a state folded live.

use vstd::prelude::*;

use crate::aggregator::{AggregatorView, FoldFns};
use crate::fold::{restore_seed_of, restored_version};
use crate::fold_laws::{dense, faithful, honest_tail, initial_of, version_at};
use crate::registry::{
    deliver, deliver_one, deliver_upto, first_of_type, installed, replayed, Progress,
};
use crate::state_table::Entry;
use crate::transitions::{lemma_prev_key_apart, lemma_state_key_injective, prev_key, state_key};
use crate::types::{Delivery, Snapshot, StreamRevision};

verus! {

/// Replaying one run of events and then another is replaying both.
pub proof fn law_replay_composes<B: FoldFns>(
    aggs: Seq<AggregatorView<B>>,
    aggregate_type: Seq<char>,
    state: B::State,
    a: Seq<Delivery>,
    b: Seq<Delivery>,
)
    ensures
        replayed(aggs, aggregate_type, state, a + b) == (match replayed(
            aggs,
            aggregate_type,
            state,
            a,
        ) {
            None => None,
            Some(s) => replayed(aggs, aggregate_type, s, b),
        }),
    decreases b.len(),
{
    if b.len() == 0 {
        assert(a + b =~= a);
    } else {
        law_replay_composes(aggs, aggregate_type, state, a, b.drop_last());
        assert((a + b).drop_last() =~= a + b.drop_last());
        assert((a + b).last() == b.last());
    }
}

/// A snapshot holds the fold of its stream up to the revision it names, or
/// nothing that decodes.
pub open spec fn honest_snapshot<B: FoldFns>(
    aggs: Seq<AggregatorView<B>>,
    aggregate_type: Seq<char>,
    stream: Seq<Delivery>,
    snapshot: Option<Snapshot>,
) -> bool {
    snapshot matches Some(s) ==> {
        let fns = aggs[first_of_type(aggs, aggregate_type)->0].fns;
        &&& s.revision.0 < stream.len()
        &&& fns.deserialized(s.state@) matches Some(state) ==> replayed(
            aggs,
            aggregate_type,
            initial_of(aggs, aggregate_type),
            stream.take(s.revision.0 + 1),
        ) == Some(state)
    }
}

/// A restore from an honest snapshot, or from none, holds the fold of the
/// whole stream, at the version of its length.
pub proof fn law_restore_is_faithful<B: FoldFns>(
    aggs: Seq<AggregatorView<B>>,
    aggregate_type: Seq<char>,
    id: u128,
    category: Seq<char>,
    stream: Seq<Delivery>,
    snapshot: Option<Snapshot>,
    table: Map<Seq<char>, Entry<B::State>>,
)
    requires
        dense(stream, category, id),
        honest_snapshot(aggs, aggregate_type, stream, snapshot),
        faithful(aggs, table, aggregate_type, id, stream),
    ensures
        ({
            let key = state_key(aggregate_type, id);
            let seed = restore_seed_of(
                aggs[first_of_type(aggs, aggregate_type)->0],
                snapshot,
            );
            let tail = honest_tail(stream, seed.after);
            let whole = replayed(
                aggs,
                aggregate_type,
                initial_of(aggs, aggregate_type),
                stream,
            );
            &&& replayed(aggs, aggregate_type, seed.state, tail) == whole
            &&& restored_version(seed.after, tail).0 == stream.len()
            &&& whole matches Some(state) ==> {
                let t = installed(
                    table,
                    key,
                    state,
                    restored_version(seed.after, tail),
                    seed.snapshot_at,
                );
                &&& faithful(aggs, t, aggregate_type, id, stream)
                &&& version_at(t, key) == stream.len()
            }
        }),
{
    let seed = restore_seed_of(aggs[first_of_type(aggs, aggregate_type)->0], snapshot);
    let tail = honest_tail(stream, seed.after);
    let initial = initial_of(aggs, aggregate_type);
    match seed.after {
        Some(r) => {
            let head = stream.take(r.0 + 1);
            assert(head + tail =~= stream);
            law_replay_composes(aggs, aggregate_type, initial, head, tail);
        },
        None => {},
    }
    assert(stream.take(stream.len() as int) =~= stream);
}

/// The snapshot saved of a faithful entry is honest, where its state survives
/// its own JSON form.
pub proof fn law_saved_snapshot_is_honest<B: FoldFns>(
    aggs: Seq<AggregatorView<B>>,
    aggregate_type: Seq<char>,
    id: u128,
    stream: Seq<Delivery>,
    table: Map<Seq<char>, Entry<B::State>>,
    snapshot: Snapshot,
)
    requires
        faithful(aggs, table, aggregate_type, id, stream),
        table.contains_key(state_key(aggregate_type, id)),
        version_at(table, state_key(aggregate_type, id)) > 0,
        snapshot.revision.0 + 1 == version_at(table, state_key(aggregate_type, id)),
        ({
            let fns = aggs[first_of_type(aggs, aggregate_type)->0].fns;
            let state = table[state_key(aggregate_type, id)].state;
            &&& fns.serialized(state) == Some(snapshot.state@)
            &&& fns.deserialized(snapshot.state@) == Some(state)
        }),
    ensures
        honest_snapshot(aggs, aggregate_type, stream, Some(snapshot)),
{
}

/// Live fold and restore agree: two faithful entries at one version hold the
/// same state.
pub proof fn law_same_version_same_state<B: FoldFns>(
    aggs: Seq<AggregatorView<B>>,
    aggregate_type: Seq<char>,
    id: u128,
    stream: Seq<Delivery>,
    live: Map<Seq<char>, Entry<B::State>>,
    restored: Map<Seq<char>, Entry<B::State>>,
)
    requires
        faithful(aggs, live, aggregate_type, id, stream),
        faithful(aggs, restored, aggregate_type, id, stream),
        live.contains_key(state_key(aggregate_type, id)),
        restored.contains_key(state_key(aggregate_type, id)),
        version_at(live, state_key(aggregate_type, id)) == version_at(
            restored,
            state_key(aggregate_type, id),
        ),
    ensures
        live[state_key(aggregate_type, id)].state == restored[state_key(aggregate_type, id)].state,
{
}

/// Installing a restored state never takes an entry back.
pub proof fn law_install_is_monotonic<S>(
    table: Map<Seq<char>, Entry<S>>,
    key: Seq<char>,
    state: S,
    version: StreamRevision,
    snapshot_at: StreamRevision,
)
    ensures
        ({
            let t = installed(table, key, state, version, snapshot_at);
            &&& t.contains_key(key)
            &&& version_at(t, key) >= version_at(table, key)
            &&& version_at(t, key) >= version.0
            &&& table.contains_key(key) && version.0 <= version_at(table, key) ==> t == table
        }),
{
}

/// No event kind is registered twice for a type.
pub open spec fn kinds_distinct<B>(aggs: Seq<AggregatorView<B>>) -> bool {
    forall|i: int, j: int|
        0 <= i < j < aggs.len() && (#[trigger] aggs[i]).event_prefix == (
        #[trigger] aggs[j]).event_prefix ==> aggs[i].aggregate_type != aggs[j].aggregate_type
}

/// An aggregator of another type leaves a state and its slot alone.
proof fn lemma_step_leaves_slots<B: FoldFns>(
    agg: AggregatorView<B>,
    at: Delivery,
    p: Progress<B::State>,
    aggregate_type: Seq<char>,
    id: u128,
)
    requires
        agg.aggregate_type != aggregate_type || agg.event_prefix != at.event_type,
    ensures
        ({
            let key = state_key(aggregate_type, id);
            let q = deliver_one(agg, at, p);
            &&& q.table.contains_key(key) == p.table.contains_key(key)
            &&& p.table.contains_key(key) ==> q.table[key] == p.table[key]
            &&& q.table.contains_key(prev_key(key)) == p.table.contains_key(prev_key(key))
            &&& p.table.contains_key(prev_key(key)) ==> q.table[prev_key(key)]
                == p.table[prev_key(key)]
        }),
{
    if agg.event_prefix == at.event_type && agg.fns.extracted(at.payload) is Some {
        let other = agg.fns.extracted(at.payload)->0;
        if state_key(agg.aggregate_type, other) == state_key(aggregate_type, id) {
            lemma_state_key_injective(agg.aggregate_type, other, aggregate_type, id);
        }
        lemma_prev_key_apart(aggregate_type, id, agg.aggregate_type, other);
        lemma_prev_key_apart(agg.aggregate_type, other, aggregate_type, id);
    }
}

/// What the aggregator at `j` left under its key stays to the end.
proof fn lemma_later_steps_leave<B: FoldFns>(
    aggs: Seq<AggregatorView<B>>,
    j: int,
    n: nat,
    at: Delivery,
    table: Map<Seq<char>, Entry<B::State>>,
    id: u128,
)
    requires
        kinds_distinct(aggs),
        0 <= j < n <= aggs.len(),
        aggs[j].event_prefix == at.event_type,
    ensures
        ({
            let key = state_key(aggs[j].aggregate_type, id);
            let p = deliver_upto(aggs, (j + 1) as nat, at, table).table;
            let q = deliver_upto(aggs, n, at, table).table;
            &&& q.contains_key(key) == p.contains_key(key)
            &&& p.contains_key(key) ==> q[key] == p[key]
            &&& q.contains_key(prev_key(key)) == p.contains_key(prev_key(key))
            &&& p.contains_key(prev_key(key)) ==> q[prev_key(key)] == p[prev_key(key)]
        }),
    decreases n,
{
    if j + 1 < n {
        let m = (n - 1) as nat;
        lemma_later_steps_leave(aggs, j, m, at, table, id);
        lemma_step_leaves_slots(
            aggs[n - 1],
            at,
            deliver_upto(aggs, m, at, table),
            aggs[j].aggregate_type,
            id,
        );
    }
}

/// A delivery that ends without failure and without gaps had neither before.
proof fn lemma_clean_throughout<B: FoldFns>(
    aggs: Seq<AggregatorView<B>>,
    m: nat,
    n: nat,
    at: Delivery,
    table: Map<Seq<char>, Entry<B::State>>,
)
    requires
        m <= n,
        deliver_upto(aggs, n, at, table).failure is None,
        deliver_upto(aggs, n, at, table).outcome.gaps.len() == 0,
    ensures
        deliver_upto(aggs, m, at, table).failure is None,
        deliver_upto(aggs, m, at, table).outcome.gaps.len() == 0,
    decreases n,
{
    if m < n {
        lemma_clean_throughout(aggs, m, (n - 1) as nat, at, table);
    }
}

proof fn lemma_redelivery_upto<B: FoldFns>(
    aggs: Seq<AggregatorView<B>>,
    n: nat,
    at: Delivery,
    table: Map<Seq<char>, Entry<B::State>>,
)
    requires
        kinds_distinct(aggs),
        n <= aggs.len(),
        at.revision < u64::MAX,
        deliver(aggs, at, table).failure is None,
        deliver(aggs, at, table).outcome.gaps.len() == 0,
    ensures
        ({
            let done = deliver(aggs, at, table).table;
            let p = deliver_upto(aggs, n, at, table);
            let q = deliver_upto(aggs, n, at, done);
            &&& q.failure is None
            &&& q.table == done
            &&& q.outcome.snapshots == p.outcome.snapshots
            &&& !q.outcome.applied
            &&& q.outcome.gaps.len() == 0
        }),
    decreases n,
{
    if n > 0 {
        let m = (n - 1) as nat;
        lemma_redelivery_upto(aggs, m, at, table);
        lemma_clean_throughout(aggs, m, aggs.len(), at, table);
        lemma_clean_throughout(aggs, n, aggs.len(), at, table);
        let agg = aggs[n - 1];
        if agg.event_prefix == at.event_type && agg.fns.extracted(at.payload) is Some {
            let id = agg.fns.extracted(at.payload)->0;
            lemma_later_steps_leave(aggs, n - 1, aggs.len(), at, table, id);
            lemma_prev_key_apart(agg.aggregate_type, id, agg.aggregate_type, id);
        }
    }
}

/// Folds are idempotent: redelivering an event that was just folded changes no
/// state, reports nothing as applied, and reproduces the same transitions.
pub proof fn law_redelivery_changes_nothing<B: FoldFns>(
    aggs: Seq<AggregatorView<B>>,
    at: Delivery,
    table: Map<Seq<char>, Entry<B::State>>,
)
    requires
        kinds_distinct(aggs),
        at.revision < u64::MAX,
        deliver(aggs, at, table).failure is None,
        deliver(aggs, at, table).outcome.gaps.len() == 0,
    ensures
        ({
            let first = deliver(aggs, at, table);
            let second = deliver(aggs, at, first.table);
            &&& second.failure is None
            &&& second.table == first.table
            &&& second.outcome.snapshots == first.outcome.snapshots
            &&& !second.outcome.applied
            &&& second.outcome.gaps.len() == 0
        }),
{
    lemma_redelivery_upto(aggs, aggs.len(), at, table);
}

} // verus!
