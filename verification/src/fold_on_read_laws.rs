//! Laws of bounded folds: carrying a cached fold on gives what folding from
//! nothing gives.

use vstd::prelude::*;

use crate::aggregator::{AggregatorView, FoldFns};
use crate::failure::Error;
use crate::fold_on_read::{
    batch_deliveries, bounded, feeds, first_custom, first_folding, fold_bounded,
    fold_bounded_start, in_order, in_range, joined, placed, read_all, read_one, resumed, tail_of,
    unread, BoundedFold, FoldOnReadCache, FoldPoint, Reading,
};
use crate::registry::{lemma_first_of_type, AggregatorRegistry};
use crate::text::listed;
use crate::types::{deliveries, Delivery, LogCursor, RecordedEvent, StreamRevision};

verus! {

/// The events of a stream that follow a revision.
pub open spec fn after(events: Seq<Delivery>, tail: Option<StreamRevision>) -> Seq<Delivery>
    decreases events.len(),
{
    if events.len() == 0 {
        Seq::empty()
    } else {
        let rest = after(events.drop_last(), tail);
        if tail matches Some(r) && events.last().revision <= r.0 {
            rest
        } else {
            rest.push(events.last())
        }
    }
}

/// What the streams return when each is read from its tail on.
pub open spec fn unread_tails(
    streams: Seq<Seq<char>>,
    histories: Seq<Seq<Delivery>>,
    tails: Map<Seq<char>, StreamRevision>,
) -> Seq<Seq<Delivery>> {
    Seq::new(histories.len(), |i: int| after(histories[i], tail_of(tails, streams[i])))
}

/// Histories as an append-only log keeps them: one per stream category, each
/// in ascending order of revision and of position.
pub open spec fn histories_fit(
    streams: Seq<Seq<char>>,
    histories: Seq<Seq<Delivery>>,
) -> bool {
    &&& streams.len() == histories.len()
    &&& forall|i: int, j: int| 0 <= i < j < streams.len() ==> streams[i] != streams[j]
    &&& forall|i: int, k: int|
        0 <= i < histories.len() && 0 <= k < histories[i].len() ==> (
        #[trigger] histories[i][k]).category == streams[i]
    &&& forall|i: int, k: int, l: int|
        0 <= i < histories.len() && 0 <= k < l < histories[i].len() ==> (
        #[trigger] histories[i][k]).revision < (#[trigger] histories[i][l]).revision
            && histories[i][k].position < histories[i][l].position
}

/// A cached fold holds what folding the histories from nothing gives.
pub open spec fn sound<B: FoldFns>(
    aggs: Seq<AggregatorView<B>>,
    aggregate_type: Seq<char>,
    histories: Seq<Seq<Delivery>>,
    entry: FoldPoint<B::State>,
) -> bool {
    let cold = bounded(
        aggs,
        aggregate_type,
        entry.folded_to,
        histories,
        unread(aggs, aggregate_type),
    );
    !cold.failed && cold.state == entry.state && cold.folded_to == entry.folded_to && cold.tails
        == entry.tails
}

proof fn lemma_placed_low(low: Seq<Delivery>, high: Seq<Delivery>, e: Delivery)
    requires
        forall|i: int| 0 <= i < high.len() ==> (#[trigger] high[i]).position > e.position,
    ensures
        placed(low + high, e) == placed(low, e) + high,
    decreases high.len(),
{
    if high.len() == 0 {
        assert(low + high =~= low);
        assert(placed(low, e) + high =~= placed(low, e));
    } else {
        let all = low + high;
        assert(all.last() == high.last());
        assert(high[high.len() - 1].position > e.position);
        assert(all.drop_last() =~= low + high.drop_last());
        lemma_placed_low(low, high.drop_last(), e);
        assert(placed(all, e) =~= placed(low, e) + high);
    }
}

proof fn lemma_placed_high(low: Seq<Delivery>, high: Seq<Delivery>, e: Delivery)
    requires
        forall|i: int| 0 <= i < low.len() ==> (#[trigger] low[i]).position <= e.position,
    ensures
        placed(low + high, e) == low + placed(high, e),
    decreases high.len(),
{
    let all = low + high;
    if high.len() == 0 {
        assert(all =~= low);
        if low.len() > 0 {
            assert(low[low.len() - 1].position <= e.position);
        }
        assert(placed(all, e) =~= low + placed(high, e));
    } else {
        assert(all.last() == high.last());
        if high.last().position <= e.position {
            assert(placed(all, e) =~= low + placed(high, e));
        } else {
            assert(all.drop_last() =~= low + high.drop_last());
            lemma_placed_high(low, high.drop_last(), e);
            assert(placed(all, e) =~= low + placed(high, e));
        }
    }
}

/// Ordering keeps the events of a sequence and adds none.
proof fn lemma_in_order_keeps(events: Seq<Delivery>, x: Delivery)
    ensures
        in_order(events).contains(x) <==> events.contains(x),
        in_order(events).len() == events.len(),
    decreases events.len(),
{
    if events.len() > 0 {
        let rest = events.drop_last();
        lemma_in_order_keeps(rest, x);
        lemma_placed_keeps(in_order(rest), events.last(), x);
        if events.contains(x) {
            let i = choose|i: int| 0 <= i < events.len() && events[i] == x;
            if i < rest.len() {
                assert(rest[i] == x);
            }
        }
        if rest.contains(x) {
            let i = choose|i: int| 0 <= i < rest.len() && rest[i] == x;
            assert(events[i] == x);
        }
        assert(events[events.len() - 1] == events.last());
    }
}

proof fn lemma_placed_keeps(events: Seq<Delivery>, e: Delivery, x: Delivery)
    ensures
        placed(events, e).contains(x) <==> events.contains(x) || x == e,
        placed(events, e).len() == events.len() + 1,
    decreases events.len(),
{
    let r = placed(events, e);
    if events.len() == 0 || events.last().position <= e.position {
        assert(r == events.push(e));
        assert(r[events.len() as int] == e);
        if events.contains(x) {
            let i = choose|i: int| 0 <= i < events.len() && events[i] == x;
            assert(r[i] == x);
        }
    } else {
        let rest = events.drop_last();
        let p = placed(rest, e);
        lemma_placed_keeps(rest, e, x);
        assert(r == p.push(events.last()));
        assert(r[p.len() as int] == events.last());
        if p.contains(x) {
            let i = choose|i: int| 0 <= i < p.len() && p[i] == x;
            assert(r[i] == x);
        }
        if r.contains(x) {
            let i = choose|i: int| 0 <= i < r.len() && r[i] == x;
            if i < p.len() {
                assert(p[i] == x);
            }
        }
        if events.contains(x) {
            let i = choose|i: int| 0 <= i < events.len() && events[i] == x;
            if i < rest.len() {
                assert(rest[i] == x);
            }
        }
        if rest.contains(x) {
            let i = choose|i: int| 0 <= i < rest.len() && rest[i] == x;
            assert(events[i] == x);
        }
    }
}

/// The events of a range are those of the sequence within it.
proof fn lemma_in_range_within(events: Seq<Delivery>, low: u64, high: u64, x: Delivery)
    ensures
        in_range(events, low, high).contains(x) <==> events.contains(x) && low < x.position
            && x.position <= high,
    decreases events.len(),
{
    if events.len() > 0 {
        let rest = events.drop_last();
        let kept = in_range(rest, low, high);
        let all = in_range(events, low, high);
        lemma_in_range_within(rest, low, high, x);
        if all.contains(x) {
            let i = choose|i: int| 0 <= i < all.len() && all[i] == x;
            if i < kept.len() {
                assert(kept[i] == x);
            } else {
                assert(x == events.last());
                assert(events[events.len() - 1] == x);
            }
        }
        if kept.contains(x) {
            let i = choose|i: int| 0 <= i < kept.len() && kept[i] == x;
            assert(all[i] == x);
        }
        if rest.contains(x) {
            let i = choose|i: int| 0 <= i < rest.len() && rest[i] == x;
            assert(events[i] == x);
        }
        if events.contains(x) && low < x.position && x.position <= high {
            let i = choose|i: int| 0 <= i < events.len() && events[i] == x;
            if i < rest.len() {
                assert(rest[i] == x);
            } else {
                assert(all[kept.len() as int] == x);
            }
        }
    }
}

proof fn lemma_ordered_range_within(events: Seq<Delivery>, low: u64, high: u64)
    ensures
        forall|i: int|
            0 <= i < in_order(in_range(events, low, high)).len() ==> low < (
            #[trigger] in_order(in_range(events, low, high))[i]).position && in_order(
                in_range(events, low, high),
            )[i].position <= high && events.contains(in_order(in_range(events, low, high))[i]),
{
    let r = in_order(in_range(events, low, high));
    assert forall|i: int| 0 <= i < r.len() implies low < (#[trigger] r[i]).position
        && r[i].position <= high && events.contains(r[i]) by {
        assert(r.contains(r[i]));
        lemma_in_order_keeps(in_range(events, low, high), r[i]);
        lemma_in_range_within(events, low, high, r[i]);
    }
}

/// The events of a range in order are those of its lower part in order, then
/// those of its upper part.
proof fn lemma_ranges_join(events: Seq<Delivery>, low: u64, mid: u64, high: u64)
    requires
        low <= mid <= high,
    ensures
        in_order(in_range(events, low, high)) == in_order(in_range(events, low, mid)) + in_order(
            in_range(events, mid, high),
        ),
    decreases events.len(),
{
    let a = in_order(in_range(events, low, mid));
    let b = in_order(in_range(events, mid, high));
    if events.len() == 0 {
        assert(a + b =~= in_order(in_range(events, low, high)));
    } else {
        let rest = events.drop_last();
        let e = events.last();
        lemma_ranges_join(rest, low, mid, high);
        let ra = in_range(rest, low, mid);
        let rb = in_range(rest, mid, high);
        let rr = in_range(rest, low, high);
        lemma_ordered_range_within(rest, low, mid);
        lemma_ordered_range_within(rest, mid, high);
        assert(rr.push(e).drop_last() =~= rr);
        assert(ra.push(e).drop_last() =~= ra);
        assert(rb.push(e).drop_last() =~= rb);
        if low < e.position && e.position <= mid {
            lemma_placed_low(in_order(ra), in_order(rb), e);
        } else if mid < e.position && e.position <= high {
            lemma_placed_high(in_order(ra), in_order(rb), e);
        }
    }
}

/// Reading one sequence and then another is reading both as one.
proof fn lemma_read_joins<B: FoldFns>(
    aggs: Seq<AggregatorView<B>>,
    aggregate_type: Seq<char>,
    bound: u64,
    a: Seq<Delivery>,
    b: Seq<Delivery>,
    start: Reading<B::State>,
)
    ensures
        read_all(aggs, aggregate_type, bound, a + b, start) == read_all(
            aggs,
            aggregate_type,
            bound,
            b,
            read_all(aggs, aggregate_type, bound, a, start),
        ),
    decreases b.len(),
{
    if b.len() == 0 {
        assert(a + b =~= a);
    } else {
        assert((a + b).drop_last() =~= a + b.drop_last());
        assert((a + b).last() == b.last());
        lemma_read_joins(aggs, aggregate_type, bound, a, b.drop_last(), start);
    }
}

/// The bound only decides what is kept as the state before it.
proof fn lemma_bound_is_not_met<B: FoldFns>(
    aggs: Seq<AggregatorView<B>>,
    aggregate_type: Seq<char>,
    low: u64,
    high: u64,
    events: Seq<Delivery>,
    start: Reading<B::State>,
)
    requires
        forall|i: int| 0 <= i < events.len() ==> (#[trigger] events[i]).position != high,
        start.prev is None,
    ensures
        ({
            let x = read_all(aggs, aggregate_type, low, events, start);
            let y = read_all(aggs, aggregate_type, high, events, start);
            x.failed == y.failed && x.state == y.state && x.folded_to == y.folded_to && x.tails
                == y.tails && y.prev is None
        }),
    decreases events.len(),
{
    if events.len() > 0 {
        let rest = events.drop_last();
        assert forall|i: int| 0 <= i < rest.len() implies (#[trigger] rest[i]).position != high by {
            assert(rest[i] == events[i]);
        }
        assert(events[events.len() - 1].position != high);
        lemma_bound_is_not_met(aggs, aggregate_type, low, high, rest, start);
    }
}

/// A tail is the revision of an event that was read.
proof fn lemma_tails_were_read<B: FoldFns>(
    aggs: Seq<AggregatorView<B>>,
    aggregate_type: Seq<char>,
    bound: u64,
    events: Seq<Delivery>,
    start: Reading<B::State>,
    category: Seq<char>,
) -> (at: int)
    requires
        start.tails == Map::<Seq<char>, StreamRevision>::empty(),
        read_all(aggs, aggregate_type, bound, events, start).tails.contains_key(category),
    ensures
        0 <= at < events.len(),
        events[at].category == category,
        events[at].revision == read_all(
            aggs,
            aggregate_type,
            bound,
            events,
            start,
        ).tails[category].0,
    decreases events.len(),
{
    if events.len() == 0 {
        0
    } else {
        let rest = events.drop_last();
        let before = read_all(aggs, aggregate_type, bound, rest, start);
        let now = read_one(aggs, aggregate_type, bound, events.last(), before);
        if now.tails == before.tails || events.last().category != category {
            lemma_tails_were_read(aggs, aggregate_type, bound, rest, start, category)
        } else {
            events.len() - 1
        }
    }
}

proof fn lemma_joined_holds(batches: Seq<Seq<Delivery>>, x: Delivery) -> (at: (int, int))
    requires
        joined(batches).contains(x),
    ensures
        0 <= at.0 < batches.len(),
        0 <= at.1 < batches[at.0].len(),
        batches[at.0][at.1] == x,
    decreases batches.len(),
{
    let i = choose|i: int| 0 <= i < joined(batches).len() && joined(batches)[i] == x;
    let head = joined(batches.drop_last());
    if batches.len() == 0 {
        (0, 0)
    } else if i < head.len() {
        assert(head[i] == x);
        let at = lemma_joined_holds(batches.drop_last(), x);
        at
    } else {
        assert(batches.last()[i - head.len()] == x);
        (batches.len() - 1, i - head.len())
    }
}

/// Leaving out events below a range does not change the range.
proof fn lemma_after_keeps_range(
    events: Seq<Delivery>,
    tail: Option<StreamRevision>,
    low: u64,
    high: u64,
)
    requires
        forall|i: int|
            0 <= i < events.len() && (#[trigger] events[i]).position > low ==> (tail matches Some(r)
                ==> events[i].revision > r.0),
    ensures
        in_range(after(events, tail), low, high) == in_range(events, low, high),
    decreases events.len(),
{
    if events.len() > 0 {
        let rest = events.drop_last();
        assert forall|i: int| 0 <= i < rest.len() && (#[trigger] rest[i]).position > low implies (
        tail matches Some(r) ==> rest[i].revision > r.0) by {
            assert(rest[i] == events[i]);
        }
        lemma_after_keeps_range(rest, tail, low, high);
        let e = events.last();
        let kept = after(rest, tail);
        assert(e == events[events.len() - 1]);
        assert(kept.push(e).drop_last() =~= kept);
    }
}

proof fn lemma_range_of_joined(
    a: Seq<Seq<Delivery>>,
    b: Seq<Seq<Delivery>>,
    low: u64,
    high: u64,
)
    requires
        a.len() == b.len(),
        forall|i: int|
            0 <= i < a.len() ==> in_range(#[trigger] a[i], low, high) == in_range(b[i], low, high),
    ensures
        in_range(joined(a), low, high) == in_range(joined(b), low, high),
    decreases a.len(),
{
    if a.len() > 0 {
        let ra = a.drop_last();
        let rb = b.drop_last();
        assert forall|i: int| 0 <= i < ra.len() implies in_range(#[trigger] ra[i], low, high)
            == in_range(rb[i], low, high) by {
            assert(ra[i] == a[i]);
        }
        lemma_range_of_joined(ra, rb, low, high);
        lemma_range_joins(joined(ra), a.last(), low, high);
        lemma_range_joins(joined(rb), b.last(), low, high);
        assert(in_range(a[a.len() - 1], low, high) == in_range(b[a.len() - 1], low, high));
    }
}

proof fn lemma_range_joins(a: Seq<Delivery>, b: Seq<Delivery>, low: u64, high: u64)
    ensures
        in_range(a + b, low, high) == in_range(a, low, high) + in_range(b, low, high),
    decreases b.len(),
{
    if b.len() == 0 {
        assert(a + b =~= a);
        assert(in_range(a, low, high) + in_range(b, low, high) =~= in_range(a, low, high));
    } else {
        lemma_range_joins(a, b.drop_last(), low, high);
        assert((a + b).drop_last() =~= a + b.drop_last());
        assert(in_range(a + b, low, high) =~= in_range(a, low, high) + in_range(b, low, high));
    }
}

/// The log is append-only, so a sound cached fold, carried on to a later bound
/// with what its streams hold after their tails, gives exactly what folding
/// the whole histories from nothing gives: both states, the position reached
/// and the tails.
pub proof fn law_cached_fold_is_cold_fold<B: FoldFns>(
    aggs: Seq<AggregatorView<B>>,
    aggregate_type: Seq<char>,
    streams: Seq<Seq<char>>,
    histories: Seq<Seq<Delivery>>,
    entry: FoldPoint<B::State>,
    bound: u64,
)
    requires
        histories_fit(streams, histories),
        sound(aggs, aggregate_type, histories, entry),
        entry.folded_to < bound,
    ensures
        bounded(
            aggs,
            aggregate_type,
            bound,
            unread_tails(streams, histories, entry.tails),
            resumed(entry),
        ) == bounded(aggs, aggregate_type, bound, histories, unread(aggs, aggregate_type)),
{
    let p = entry.folded_to;
    let all = joined(histories);
    let start = unread(aggs, aggregate_type);
    let low = in_order(in_range(all, 0, p));
    let high = in_order(in_range(all, p, bound));
    lemma_ranges_join(all, 0, p, bound);
    lemma_ordered_range_within(all, 0, p);
    lemma_read_joins(aggs, aggregate_type, bound, low, high, start);
    lemma_bound_is_not_met(aggs, aggregate_type, p, bound, low, start);
    let met = read_all(aggs, aggregate_type, bound, low, start);
    assert(met == resumed(entry));
    let rest = unread_tails(streams, histories, entry.tails);
    assert forall|i: int| 0 <= i < rest.len() implies in_range(#[trigger] rest[i], p, bound)
        == in_range(histories[i], p, bound) by {
        let tail = tail_of(entry.tails, streams[i]);
        assert forall|k: int| 0 <= k < histories[i].len() && (
        #[trigger] histories[i][k]).position > p implies (tail matches Some(r)
            ==> histories[i][k].revision > r.0) by {
            if tail is Some {
                let at = lemma_tails_were_read(
                    aggs,
                    aggregate_type,
                    p,
                    low,
                    start,
                    streams[i],
                );
                let x = low[at];
                assert(all.contains(x));
                let place = lemma_joined_holds(histories, x);
                assert(histories[place.0][place.1].category == streams[place.0]);
                assert(place.0 == i);
                if place.1 > k {
                    assert(histories[i][k].position < histories[i][place.1].position);
                } else if place.1 < k {
                    assert(histories[i][place.1].revision < histories[i][k].revision);
                }
            }
        }
        lemma_after_keeps_range(histories[i], tail, p, bound);
    }
    lemma_range_of_joined(rest, histories, p, bound);
}

/// What a bounded fold leaves in the cache is sound, so every later read may
/// carry it on.
pub proof fn law_cache_stays_sound<B: FoldFns>(
    aggs: Seq<AggregatorView<B>>,
    aggregate_type: Seq<char>,
    histories: Seq<Seq<Delivery>>,
    bound: u64,
)
    requires
        !bounded(aggs, aggregate_type, bound, histories, unread(aggs, aggregate_type)).failed,
    ensures
        ({
            let end = bounded(
                aggs,
                aggregate_type,
                bound,
                histories,
                unread(aggs, aggregate_type),
            );
            end.folded_to <= bound && sound(
                aggs,
                aggregate_type,
                histories,
                FoldPoint { state: end.state, folded_to: end.folded_to, tails: end.tails },
            )
        }),
{
    let start = unread(aggs, aggregate_type);
    let all = joined(histories);
    let events = in_order(in_range(all, 0, bound));
    let end = read_all(aggs, aggregate_type, bound, events, start);
    lemma_ordered_range_within(all, 0, bound);
    lemma_folded_to(aggs, aggregate_type, bound, events, start);
    let q = end.folded_to;
    if events.len() > 0 {
        assert(events[events.len() - 1].position == q);
    }
    lemma_ranges_join(all, 0, q, bound);
    let low = in_order(in_range(all, 0, q));
    let high = in_order(in_range(all, q, bound));
    lemma_ordered_range_within(all, q, bound);
    assert(high.len() == 0) by {
        if high.len() > 0 {
            assert(events[events.len() - 1] == high[high.len() - 1]);
            assert(high[high.len() - 1].position > q);
        }
    }
    assert(events =~= low);
    lemma_bound_is_free(aggs, aggregate_type, q, bound, events, start);
}

/// A fold has got to the position of the last event read.
proof fn lemma_folded_to<B: FoldFns>(
    aggs: Seq<AggregatorView<B>>,
    aggregate_type: Seq<char>,
    bound: u64,
    events: Seq<Delivery>,
    start: Reading<B::State>,
)
    requires
        !read_all(aggs, aggregate_type, bound, events, start).failed,
    ensures
        read_all(aggs, aggregate_type, bound, events, start).folded_to == (if events.len() == 0 {
            start.folded_to
        } else {
            events.last().position
        }),
{
}

/// But for the state before it, the bound decides nothing.
proof fn lemma_bound_is_free<B: FoldFns>(
    aggs: Seq<AggregatorView<B>>,
    aggregate_type: Seq<char>,
    low: u64,
    high: u64,
    events: Seq<Delivery>,
    start: Reading<B::State>,
)
    ensures
        ({
            let x = read_all(aggs, aggregate_type, low, events, start);
            let y = read_all(aggs, aggregate_type, high, events, start);
            x.failed == y.failed && x.state == y.state && x.folded_to == y.folded_to && x.tails
                == y.tails
        }),
    decreases events.len(),
{
    if events.len() > 0 {
        lemma_bound_is_free(aggs, aggregate_type, low, high, events.drop_last(), start);
    }
}

/// Where one event of the aggregate stands at the bound, and no other event
/// does, the two states returned are the states before and after it; where
/// none stands there, they are the same.
pub proof fn law_states_around_the_bound<B: FoldFns>(
    aggs: Seq<AggregatorView<B>>,
    aggregate_type: Seq<char>,
    bound: u64,
    events: Seq<Delivery>,
    start: Reading<B::State>,
)
    requires
        start.prev is None,
        forall|i: int| 0 <= i < events.len() - 1 ==> (#[trigger] events[i]).position < bound,
        !read_all(aggs, aggregate_type, bound, events, start).failed,
    ensures
        ({
            let end = read_all(aggs, aggregate_type, bound, events, start);
            if events.len() > 0 && events.last().position == bound && first_folding(
                aggs,
                aggregate_type,
                events.last().event_type,
                aggs.len(),
            ) is Some {
                let i = first_folding(
                    aggs,
                    aggregate_type,
                    events.last().event_type,
                    aggs.len(),
                )->0;
                let before = read_all(aggs, aggregate_type, bound, events.drop_last(), start).state;
                end.prev == Some(before) && aggs[i].fns.applied(before, events.last().payload)
                    == Some(end.state)
            } else {
                end.prev is None
            }
        }),
{
    if events.len() > 0 {
        let rest = events.drop_last();
        assert forall|i: int| 0 <= i < rest.len() implies (#[trigger] rest[i]).position != bound by {
            assert(rest[i] == events[i]);
        }
        lemma_bound_is_not_met(aggs, aggregate_type, bound, bound, rest, start);
    }
}

proof fn lemma_filter_push<T>(s: Seq<T>, x: T, keep: spec_fn(T) -> bool)
    ensures
        s.push(x).filter(keep) == (if keep(x) {
            s.filter(keep).push(x)
        } else {
            s.filter(keep)
        }),
{
    reveal(Seq::filter);
    assert(s.push(x).drop_last() =~= s);
}

proof fn lemma_placed_by_position(events: Seq<Delivery>, e: Delivery, p: u64)
    ensures
        placed(events, e).filter(|d: Delivery| d.position == p) == events.push(e).filter(
            |d: Delivery| d.position == p,
        ),
    decreases events.len(),
{
    let at = |d: Delivery| d.position == p;
    lemma_filter_push(events, e, at);
    if events.len() > 0 && events.last().position > e.position {
        let rest = events.drop_last();
        lemma_placed_by_position(rest, e, p);
        lemma_filter_push(placed(rest, e), events.last(), at);
        lemma_filter_push(rest, e, at);
        lemma_filter_push(rest, events.last(), at);
        assert(rest.push(events.last()) =~= events);
    }
}

proof fn lemma_placed_sorted(events: Seq<Delivery>, e: Delivery)
    requires
        forall|i: int, j: int|
            0 <= i < j < events.len() ==> (#[trigger] events[i]).position <= (
            #[trigger] events[j]).position,
    ensures
        placed(events, e).len() == events.len() + 1,
        forall|i: int, j: int|
            0 <= i < j < placed(events, e).len() ==> (#[trigger] placed(events, e)[i]).position <= (
            #[trigger] placed(events, e)[j]).position,
        forall|i: int|
            0 <= i < placed(events, e).len() ==> (#[trigger] placed(events, e)[i]) == e
                || events.contains(placed(events, e)[i]),
    decreases events.len(),
{
    let all = placed(events, e);
    if events.len() == 0 || events.last().position <= e.position {
        assert forall|i: int| 0 <= i < all.len() implies (#[trigger] all[i]) == e
            || events.contains(all[i]) by {
            if i < events.len() {
                assert(events[i] == all[i]);
            }
        }
    } else {
        let rest = events.drop_last();
        assert forall|i: int, j: int| 0 <= i < j < rest.len() implies (
        #[trigger] rest[i]).position <= (#[trigger] rest[j]).position by {
            assert(events[i].position <= events[j].position);
        }
        lemma_placed_sorted(rest, e);
        let head = placed(rest, e);
        assert forall|i: int| 0 <= i < head.len() implies (#[trigger] head[i]).position
            <= events.last().position by {
            if head[i] != e {
                let k = choose|k: int| 0 <= k < rest.len() && rest[k] == head[i];
                assert(events[k].position <= events[events.len() - 1].position);
            }
        }
        assert forall|i: int| 0 <= i < all.len() implies (#[trigger] all[i]) == e
            || events.contains(all[i]) by {
            if i < head.len() {
                assert(all[i] == head[i]);
                if head[i] != e {
                    let k = choose|k: int| 0 <= k < rest.len() && rest[k] == head[i];
                    assert(events[k] == all[i]);
                }
            } else {
                assert(events[events.len() - 1] == all[i]);
            }
        }
    }
}

proof fn lemma_in_order_facts(events: Seq<Delivery>, p: u64)
    ensures
        in_order(events).len() == events.len(),
        in_order(events).filter(|d: Delivery| d.position == p) == events.filter(
            |d: Delivery| d.position == p,
        ),
        forall|i: int, j: int|
            0 <= i < j < in_order(events).len() ==> (#[trigger] in_order(events)[i]).position <= (
            #[trigger] in_order(events)[j]).position,
    decreases events.len(),
{
    let at = |d: Delivery| d.position == p;
    if events.len() > 0 {
        let rest = events.drop_last();
        lemma_in_order_facts(rest, p);
        lemma_placed_sorted(in_order(rest), events.last());
        lemma_placed_by_position(in_order(rest), events.last(), p);
        lemma_filter_push(in_order(rest), events.last(), at);
        lemma_filter_push(rest, events.last(), at);
        assert(rest.push(events.last()) =~= events);
    }
}

proof fn lemma_in_range_filters(events: Seq<Delivery>, low: u64, high: u64)
    ensures
        in_range(events, low, high) == events.filter(
            |d: Delivery| low < d.position && d.position <= high,
        ),
    decreases events.len(),
{
    let within = |d: Delivery| low < d.position && d.position <= high;
    reveal(Seq::filter);
    if events.len() > 0 {
        lemma_in_range_filters(events.drop_last(), low, high);
        lemma_filter_push(events.drop_last(), events.last(), within);
        assert(events.drop_last().push(events.last()) =~= events);
    }
}

proof fn lemma_joined_flattens(batches: Seq<Seq<Delivery>>)
    ensures
        joined(batches) == batches.flatten_alt(),
    decreases batches.len(),
{
    if batches.len() > 0 {
        lemma_joined_flattens(batches.drop_last());
    }
}

/// A read folds what lies between where it resumes and its bound: of all that
/// was read from the streams exactly the events past the one and up to the
/// other, in order of position, and those of one position in the order in
/// which they were read.
pub proof fn law_reads_fold_the_events_in_between(
    batches: Seq<Seq<Delivery>>,
    low: u64,
    high: u64,
    p: u64,
)
    ensures
        ({
            let events = in_order(in_range(joined(batches), low, high));
            let all = batches.flatten_alt();
            &&& events.len() == all.filter(
                |d: Delivery| low < d.position && d.position <= high,
            ).len()
            &&& forall|i: int, j: int|
                0 <= i < j < events.len() ==> (#[trigger] events[i]).position <= (
                #[trigger] events[j]).position
            &&& events.filter(|d: Delivery| d.position == p) == all.filter(
                |d: Delivery| low < d.position && d.position <= high,
            ).filter(|d: Delivery| d.position == p)
        }),
{
    lemma_joined_flattens(batches);
    lemma_in_range_filters(joined(batches), low, high);
    lemma_in_order_facts(in_range(joined(batches), low, high), p);
}

/// Reading goes event by event: one that an aggregator of the type folds
/// changes the state as that one applies it, and one at the bound leaves the
/// state before it as the previous one; any other changes no state. Each moves
/// the marks to itself. The first that cannot be applied ends the reading.
pub proof fn law_reads_go_event_by_event<B: FoldFns>(
    aggs: Seq<AggregatorView<B>>,
    aggregate_type: Seq<char>,
    bound: u64,
    events: Seq<Delivery>,
    next: Delivery,
    start: Reading<B::State>,
    j: int,
)
    requires
        forall|i: int|
            0 <= i < aggs.len() && i != j ==> (#[trigger] aggs[i]).aggregate_type != aggregate_type
                || aggs[i].event_prefix != next.event_type,
    ensures
        ({
            let before = read_all(aggs, aggregate_type, bound, events, start);
            let after = read_all(aggs, aggregate_type, bound, events.push(next), start);
            let taken = 0 <= j < aggs.len() && aggs[j].aggregate_type == aggregate_type
                && aggs[j].event_prefix == next.event_type;
            let applied = aggs[j].fns.applied(before.state, next.payload);
            &&& read_all(aggs, aggregate_type, bound, Seq::empty(), start) == start
            &&& before.failed ==> after == before
            &&& !before.failed ==> {
                &&& after.failed <==> taken && applied is None
                &&& !after.failed ==> after.folded_to == next.position
                    && after.tails.contains_key(next.category) && after.tails[next.category].0
                    == next.revision
                &&& taken && applied is Some ==> Some(after.state) == applied
                &&& !taken ==> after.state == before.state && after.prev == before.prev
                &&& taken && applied is Some && next.position == bound ==> after.prev == Some(
                    before.state,
                )
                &&& taken && applied is Some && next.position != bound ==> after.prev
                    == before.prev
            }
        }),
{
    assert(events.push(next).drop_last() =~= events);
    lemma_only_folding(aggs, aggs.len(), aggregate_type, next.event_type, j);
}

proof fn lemma_only_folding<B: FoldFns>(
    aggs: Seq<AggregatorView<B>>,
    n: nat,
    aggregate_type: Seq<char>,
    kind: Seq<char>,
    j: int,
)
    requires
        n <= aggs.len(),
        forall|i: int|
            0 <= i < aggs.len() && i != j ==> (#[trigger] aggs[i]).aggregate_type != aggregate_type
                || aggs[i].event_prefix != kind,
    ensures
        first_folding(aggs, aggregate_type, kind, n) == (if 0 <= j < n && aggs[j].aggregate_type
            == aggregate_type && aggs[j].event_prefix == kind {
            Some(j)
        } else {
            None
        }),
    decreases n,
{
    if n > 0 {
        lemma_only_folding(aggs, (n - 1) as nat, aggregate_type, kind, j);
        let last = aggs[n - 1];
    }
}

/// What a bounded read answers: the state that folding the events in between
/// onto where it resumed gives, and the one before the event at the bound, or
/// the same where none stands there. What it got to is kept where it may be,
/// and nothing else in the cache changes.
pub proof fn law_reads_answer_what_was_folded<B: FoldFns>(
    reg: &AggregatorRegistry<B>,
    fold: BoundedFold<B::State>,
    batches: &Vec<Vec<RecordedEvent>>,
    cache: &mut FoldOnReadCache<B::State>,
    states: (B::State, B::State),
)
    requires
        call_ensures(fold_bounded::<B>, (reg, fold, batches, cache), Ok(states)),
    ensures
        ({
            let read = Seq::new(batches@.len(), |i: int| deliveries(batches@[i]@));
            let end = read_all(
                reg.aggs(),
                fold.aggregate_type(),
                fold.bound(),
                in_order(in_range(joined(read), fold.from().folded_to, fold.bound())),
                resumed(fold.from()),
            );
            let key = (fold.aggregate_type(), fold.id());
            &&& !end.failed
            &&& states.1 == end.state
            &&& end.prev matches Some(prev) ==> states.0 == prev
            &&& end.prev is None ==> states.0 == end.state
            &&& fold.cacheable() ==> final(cache)@.contains_key(key) && final(cache)@[key].state
                == end.state && final(cache)@[key].folded_to == end.folded_to
                && final(cache)@[key].tails == end.tails
            &&& !fold.cacheable() ==> final(cache)@ == old(cache)@
            &&& forall|other: (Seq<char>, u128)|
                other != key ==> (#[trigger] final(cache)@.contains_key(other) <==> old(
                    cache)@.contains_key(other)) && (old(cache)@.contains_key(other) ==> final(
                    cache)@[other] == old(cache)@[other])
        }),
        resumed(fold.from()).state == fold.from().state,
        resumed(fold.from()).folded_to == fold.from().folded_to,
        resumed(fold.from()).prev is None,
        !resumed(fold.from()).failed,
{
    assert(batch_deliveries(batches@) =~= Seq::new(
        batches@.len(),
        |i: int| deliveries(batches@[i]@),
    ));
}

/// A read is refused exactly where an aggregator of the type finds its ids by
/// something other than the subject. Else it reads the streams of the type's
/// events, all and no others; it resumes from what is cached where that lies
/// before the bound, and starts from the initial state where it does not.
pub proof fn law_reads_begin_before_the_bound<B: FoldFns>(
    reg: &AggregatorRegistry<B>,
    aggregate_type: &str,
    id: u128,
    bound: LogCursor,
    cache: &mut FoldOnReadCache<B::State>,
    r: Result<BoundedFold<B::State>, Error>,
    j: int,
)
    requires
        call_ensures(fold_bounded_start::<B>, (reg, aggregate_type, id, bound, cache), r),
        0 <= j < reg.aggs().len(),
        reg.aggs()[j].aggregate_type == aggregate_type@,
        forall|k: int|
            0 <= k < j ==> (#[trigger] reg.aggs()[k]).aggregate_type != aggregate_type@,
    ensures
        r is Err <==> exists|i: int|
            0 <= i < reg.aggs().len() && (#[trigger] reg.aggs()[i]).aggregate_type
                == aggregate_type@ && reg.aggs()[i].custom_id,
        r is Err ==> final(cache)@ == old(cache)@,
        r matches Ok(fold) ==> {
            let key = (aggregate_type@, id);
            let cached = old(cache)@.contains_key(key) && old(cache)@[key].folded_to < bound.0;
            &&& fold.aggregate_type() == aggregate_type@
            &&& fold.id() == id
            &&& fold.bound() == bound.0
            &&& forall|c: Seq<char>|
                (exists|k: int|
                    0 <= k < fold.streams().len() && (#[trigger] fold.streams()[k])@ == c)
                    <==> #[trigger] feeds(reg.aggs(), aggregate_type@, c)
            &&& cached ==> fold.from() == old(cache)@[key] && final(cache)@ == old(cache)@.remove(
                key,
            )
            &&& !cached ==> fold.from().state == reg.aggs()[j].fns.initial() && fold.from().folded_to
                == 0 && final(cache)@ == old(cache)@
        },
{
    lemma_first_of_type(reg.aggs(), aggregate_type@);
    lemma_first_custom(reg.aggs(), aggregate_type@, reg.aggs().len());
    if let Ok(fold) = r {
        let key = (aggregate_type@, id);
        if !(old(cache)@.contains_key(key) && old(cache)@[key].folded_to < bound.0) {
            assert(resumed(fold.from()) == unread(reg.aggs(), aggregate_type@));
            assert(resumed(fold.from()).state == fold.from().state);
        }
        assert forall|c: Seq<char>|
            (exists|k: int| 0 <= k < fold.streams().len() && (#[trigger] fold.streams()[k])@ == c)
                <==> #[trigger] feeds(reg.aggs(), aggregate_type@, c) by {
            assert(listed(fold.streams(), c) <==> feeds(reg.aggs(), aggregate_type@, c));
        }
    }
}

proof fn lemma_first_custom<B>(
    aggs: Seq<AggregatorView<B>>,
    aggregate_type: Seq<char>,
    n: nat,
)
    requires
        n <= aggs.len(),
    ensures
        first_custom(aggs, aggregate_type, n) is Some <==> exists|i: int|
            0 <= i < n && (#[trigger] aggs[i]).aggregate_type == aggregate_type
                && aggs[i].custom_id,
    decreases n,
{
    if n > 0 {
        lemma_first_custom(aggs, aggregate_type, (n - 1) as nat);
        let last = aggs[n - 1];
        if last.aggregate_type == aggregate_type && last.custom_id {
            assert(aggs[n - 1].custom_id);
        }
        if exists|i: int|
            0 <= i < n && (#[trigger] aggs[i]).aggregate_type == aggregate_type
                && aggs[i].custom_id {
            let i = choose|i: int|
                0 <= i < n && (#[trigger] aggs[i]).aggregate_type == aggregate_type
                    && aggs[i].custom_id;
            if i < n - 1 {
                assert(aggs[i].custom_id);
            }
        }
    }
}

/// A bounded fold reads the streams that the aggregators of its type take
/// events from: each of them, and no other.
pub proof fn law_reads_take_every_feeding_stream<B: FoldFns>(
    reg: &AggregatorRegistry<B>,
    aggregate_type: &str,
    id: u128,
    bound: LogCursor,
    cache: &mut FoldOnReadCache<B::State>,
    fold: BoundedFold<B::State>,
    k: int,
)
    requires
        call_ensures(fold_bounded_start::<B>, (reg, aggregate_type, id, bound, cache), Ok(fold)),
    ensures
        forall|i: int|
            0 <= i < reg.aggs().len() && (#[trigger] reg.aggs()[i]).aggregate_type
                == aggregate_type@ ==> exists|n: int|
                0 <= n < fold.streams().len() && (#[trigger] fold.streams()[n])@
                    == reg.aggs()[i].event_subject,
        0 <= k < fold.streams().len() ==> exists|i: int|
            0 <= i < reg.aggs().len() && (#[trigger] reg.aggs()[i]).aggregate_type
                == aggregate_type@ && reg.aggs()[i].event_subject == fold.streams()[k]@,
{
    assert forall|i: int|
        0 <= i < reg.aggs().len() && (#[trigger] reg.aggs()[i]).aggregate_type
            == aggregate_type@ implies exists|n: int|
        0 <= n < fold.streams().len() && (#[trigger] fold.streams()[n])@
            == reg.aggs()[i].event_subject by {
        let c = reg.aggs()[i].event_subject;
        assert(feeds(reg.aggs(), aggregate_type@, c));
        assert(listed(fold.streams(), c));
    }
    if 0 <= k < fold.streams().len() {
        let c = fold.streams()[k]@;
        assert(listed(fold.streams(), c));
        assert(feeds(reg.aggs(), aggregate_type@, c));
    }
}

} // verus!
