//! Position-bounded state: an aggregate folded from its subject's history up
//! to a position of the log, with a cache that resumes from an earlier read.
//!
//! Reading the streams is the caller's business: a fold starts by saying which
//! streams it needs and from where, and ends once it is given what was read.

use vstd::prelude::*;

use crate::aggregator::{AggregatorView, FoldFns};
use crate::failure::Error;
use crate::keyed::{Keyed, Table};
use crate::registry::{first_of_type, lemma_first_of_type, refuses_on, AggregatorRegistry};
use crate::text::{
    before, lemma_text_less_total, lemma_text_less_transitive, listed, same, text_less,
};
use crate::types::{deliveries, Delivery, LogCursor, RecordedEvent, StreamRevision};

verus! {

/// The first of the leading `n` aggregators that folds events of a kind into
/// an aggregate type.
pub open spec fn first_folding<B>(
    aggs: Seq<AggregatorView<B>>,
    aggregate_type: Seq<char>,
    kind: Seq<char>,
    n: nat,
) -> Option<int>
    decreases n,
{
    if n == 0 {
        None
    } else {
        match first_folding(aggs, aggregate_type, kind, (n - 1) as nat) {
            Some(i) => Some(i),
            None => if aggs[n - 1].aggregate_type == aggregate_type && aggs[n - 1].event_prefix
                == kind {
                Some(n - 1)
            } else {
                None
            },
        }
    }
}

/// The first of the leading `n` aggregators of a type that finds its ids by
/// something other than the subject id.
pub open spec fn first_custom<B>(
    aggs: Seq<AggregatorView<B>>,
    aggregate_type: Seq<char>,
    n: nat,
) -> Option<int>
    decreases n,
{
    if n == 0 {
        None
    } else {
        match first_custom(aggs, aggregate_type, (n - 1) as nat) {
            Some(i) => Some(i),
            None => if aggs[n - 1].aggregate_type == aggregate_type && aggs[n - 1].custom_id {
                Some(n - 1)
            } else {
                None
            },
        }
    }
}

/// Whether events of an aggregate type are placed in a stream category.
pub open spec fn feeds<B>(
    aggs: Seq<AggregatorView<B>>,
    aggregate_type: Seq<char>,
    category: Seq<char>,
) -> bool {
    exists|i: int|
        0 <= i < aggs.len() && (#[trigger] aggs[i]).aggregate_type == aggregate_type
            && aggs[i].event_subject == category
}

/// Texts in strictly ascending order.
pub open spec fn ascending(list: Seq<String>) -> bool {
    forall|i: int, j: int|
        0 <= i < j < list.len() ==> text_less((#[trigger] list[i])@, (#[trigger] list[j])@)
}

/// The events of a sequence past `low` and up to `high`.
pub open spec fn in_range(events: Seq<Delivery>, low: u64, high: u64) -> Seq<Delivery>
    decreases events.len(),
{
    if events.len() == 0 {
        Seq::empty()
    } else {
        let rest = in_range(events.drop_last(), low, high);
        if low < events.last().position && events.last().position <= high {
            rest.push(events.last())
        } else {
            rest
        }
    }
}

/// All events of several sequences, one sequence after the other.
pub open spec fn joined(batches: Seq<Seq<Delivery>>) -> Seq<Delivery>
    decreases batches.len(),
{
    if batches.len() == 0 {
        Seq::empty()
    } else {
        joined(batches.drop_last()) + batches.last()
    }
}

/// `events` with `e` put behind the last one that is not past it.
pub open spec fn placed(events: Seq<Delivery>, e: Delivery) -> Seq<Delivery>
    decreases events.len(),
{
    if events.len() == 0 || events.last().position <= e.position {
        events.push(e)
    } else {
        placed(events.drop_last(), e).push(events.last())
    }
}

/// Events in order of position; of events at one position the order stays.
pub open spec fn in_order(events: Seq<Delivery>) -> Seq<Delivery>
    decreases events.len(),
{
    if events.len() == 0 {
        events
    } else {
        placed(in_order(events.drop_last()), events.last())
    }
}

/// A bounded fold in progress.
pub struct Reading<S> {
    pub state: S,
    /// The state before the event at the bound.
    pub prev: Option<S>,
    pub folded_to: u64,
    /// The last revision met in each stream category.
    pub tails: Map<Seq<char>, StreamRevision>,
    pub failed: bool,
}

/// What one event does. An event that no aggregator of the type takes only
/// moves the marks.
pub open spec fn read_one<B: FoldFns>(
    aggs: Seq<AggregatorView<B>>,
    aggregate_type: Seq<char>,
    bound: u64,
    e: Delivery,
    r: Reading<B::State>,
) -> Reading<B::State> {
    let tails = r.tails.insert(e.category, StreamRevision(e.revision));
    if r.failed {
        r
    } else {
        match first_folding(aggs, aggregate_type, e.event_type, aggs.len()) {
            None => Reading { tails, folded_to: e.position, ..r },
            Some(i) => match aggs[i].fns.applied(r.state, e.payload) {
                Some(state) => Reading {
                    state,
                    prev: if e.position == bound {
                        Some(r.state)
                    } else {
                        r.prev
                    },
                    tails,
                    folded_to: e.position,
                    failed: false,
                },
                None => Reading { failed: true, ..r },
            },
        }
    }
}

/// What a sequence of events does.
pub open spec fn read_all<B: FoldFns>(
    aggs: Seq<AggregatorView<B>>,
    aggregate_type: Seq<char>,
    bound: u64,
    events: Seq<Delivery>,
    start: Reading<B::State>,
) -> Reading<B::State>
    decreases events.len(),
{
    if events.len() == 0 {
        start
    } else {
        read_one(
            aggs,
            aggregate_type,
            bound,
            events.last(),
            read_all(aggs, aggregate_type, bound, events.drop_last(), start),
        )
    }
}

/// A fold that has read nothing.
pub open spec fn unread<B: FoldFns>(
    aggs: Seq<AggregatorView<B>>,
    aggregate_type: Seq<char>,
) -> Reading<B::State> {
    Reading {
        state: aggs[first_of_type(aggs, aggregate_type)->0].fns.initial(),
        prev: None,
        folded_to: 0,
        tails: Map::empty(),
        failed: false,
    }
}

/// A fold resumed from a cached one.
pub open spec fn resumed<S>(entry: FoldPoint<S>) -> Reading<S> {
    Reading {
        state: entry.state,
        prev: None,
        folded_to: entry.folded_to,
        tails: entry.tails,
        failed: false,
    }
}

/// A bounded fold of what was read from the streams, on top of `start`.
pub open spec fn bounded<B: FoldFns>(
    aggs: Seq<AggregatorView<B>>,
    aggregate_type: Seq<char>,
    bound: u64,
    batches: Seq<Seq<Delivery>>,
    start: Reading<B::State>,
) -> Reading<B::State> {
    read_all(
        aggs,
        aggregate_type,
        bound,
        in_order(in_range(joined(batches), start.folded_to, bound)),
        start,
    )
}

/// Where a fold got to, as mathematics.
pub struct FoldPoint<S> {
    pub state: S,
    pub folded_to: u64,
    pub tails: Map<Seq<char>, StreamRevision>,
}

/// Where a fold got to.
pub struct FoldCacheEntry<S> {
    /// The fold of the subject's events up to `folded_to`.
    state: S,
    /// The position of the last event met.
    folded_to: LogCursor,
    /// The last revision met in each stream.
    stream_tails: Table<String, StreamRevision>,
}

impl<S> FoldCacheEntry<S> {
    pub closed spec fn wf(&self) -> bool {
        self.stream_tails.wf()
    }
}

impl<S> View for FoldCacheEntry<S> {
    type V = FoldPoint<S>;

    closed spec fn view(&self) -> FoldPoint<S> {
        FoldPoint {
            state: self.state,
            folded_to: self.folded_to.0,
            tails: self.stream_tails@,
        }
    }
}

/// The key of a cached fold.
pub struct FoldKey {
    pub aggregate_type: String,
    pub id: u128,
}

impl View for FoldKey {
    type V = (Seq<char>, u128);

    open spec fn view(&self) -> (Seq<char>, u128) {
        (self.aggregate_type@, self.id)
    }
}

impl Keyed for FoldKey {
    fn same_key(&self, other: &Self) -> (is_same: bool) {
        self.id == other.id && same(self.aggregate_type.as_str(), other.aggregate_type.as_str())
    }
}

/// Folds of earlier reads, for one worker.
pub struct FoldOnReadCache<S> {
    entries: Table<FoldKey, FoldCacheEntry<S>>,
}

impl<S> FoldOnReadCache<S> {
    pub closed spec fn wf(&self) -> bool {
        &&& self.entries.wf()
        &&& forall|k: (Seq<char>, u128)| #[trigger]
            self.entries@.contains_key(k) ==> self.entries@[k].wf()
    }

    pub fn new() -> (cache: Self)
        ensures
            cache.wf(),
            cache@ == Map::<(Seq<char>, u128), FoldPoint<S>>::empty(),
    {
        let cache = FoldOnReadCache { entries: Table::new() };
        assert(cache@ =~= Map::<(Seq<char>, u128), FoldPoint<S>>::empty());
        cache
    }
}

impl<S> View for FoldOnReadCache<S> {
    type V = Map<(Seq<char>, u128), FoldPoint<S>>;

    closed spec fn view(&self) -> Map<(Seq<char>, u128), FoldPoint<S>> {
        self.entries@.map_values(|e: FoldCacheEntry<S>| e@)
    }
}

impl<S> Default for FoldOnReadCache<S> {
    fn default() -> (cache: Self)
        ensures
            cache.wf(),
            cache@ == Map::<(Seq<char>, u128), FoldPoint<S>>::empty(),
    {
        FoldOnReadCache::new()
    }
}

/// A bounded fold that waits for its streams to be read.
pub struct BoundedFold<S> {
    aggregate_type: String,
    id: u128,
    bound: LogCursor,
    /// The stream categories to read, in ascending order.
    streams: Vec<String>,
    from: FoldCacheEntry<S>,
    cacheable: bool,
}

impl<S> BoundedFold<S> {
    pub closed spec fn wf(&self) -> bool {
        self.from.wf() && ascending(self.streams@)
    }

    pub closed spec fn aggregate_type(&self) -> Seq<char> {
        self.aggregate_type@
    }

    pub closed spec fn id(&self) -> u128 {
        self.id
    }

    pub closed spec fn bound(&self) -> u64 {
        self.bound.0
    }

    pub closed spec fn from(&self) -> FoldPoint<S> {
        self.from@
    }

    pub closed spec fn cacheable(&self) -> bool {
        self.cacheable
    }

    pub closed spec fn streams(&self) -> Seq<String> {
        self.streams@
    }

    /// How many streams are to be read.
    pub fn stream_count(&self) -> (n: usize)
        ensures
            n == self.streams().len(),
    {
        self.streams.len()
    }

    /// The category of a stream to be read; its id is the aggregate's.
    pub fn stream(&self, i: usize) -> (category: &str)
        requires
            i < self.streams().len(),
        ensures
            category@ == self.streams()[i as int]@,
    {
        self.streams[i].as_str()
    }

    /// The revision after which a stream is to be read; `None` reads all of it.
    pub fn read_after(&self, i: usize) -> (after: Option<StreamRevision>)
        requires
            self.wf(),
            i < self.streams().len(),
        ensures
            after == tail_of(self.from().tails, self.streams()[i as int]@),
    {
        match self.from.stream_tails.get(&self.streams[i]) {
            Some(revision) => Some(*revision),
            None => None,
        }
    }
}

/// The last revision met in a stream category.
pub open spec fn tail_of(
    tails: Map<Seq<char>, StreamRevision>,
    category: Seq<char>,
) -> Option<StreamRevision> {
    if tails.contains_key(category) {
        Some(tails[category])
    } else {
        None
    }
}

/// Why an aggregate with found ids cannot be folded on read.
pub open spec fn custom_id_text(aggregate_type: Seq<char>, event_prefix: Seq<char>) -> Seq<char> {
    "ctx.state_of::<"@ + aggregate_type
        + ">() cannot fold on read: the aggregator over '"@ + event_prefix
        + "' uses a custom id_fn (cross-subject fan-in), so its state is not a single subject's history. Fold it in a projector-maintained read model, or key the aggregate by the event's own subject_id."@
}

fn custom_id_message(aggregate_type: &str, event_prefix: &str) -> (text: String)
    ensures
        text@ == custom_id_text(aggregate_type@, event_prefix@),
{
    let mut text = "ctx.state_of::<".to_owned();
    text.append(aggregate_type);
    text.append(">() cannot fold on read: the aggregator over '");
    text.append(event_prefix);
    text.append(
        "' uses a custom id_fn (cross-subject fan-in), so its state is not a single subject's history. Fold it in a projector-maintained read model, or key the aggregate by the event's own subject_id.",
    );
    text
}

/// Puts a text into an ascending list unless it is there.
fn insert_text(list: &mut Vec<String>, text: &str)
    requires
        ascending(old(list)@),
    ensures
        ascending(final(list)@),
        forall|x: Seq<char>| #[trigger]
            listed(final(list)@, x) <==> listed(old(list)@, x) || x == text@,
{
    let ghost all = list@;
    let mut i: usize = 0;
    while i < list.len() && before(list[i].as_str(), text)
        invariant
            i <= list@.len(),
            list@ == all,
            forall|j: int| 0 <= j < i ==> text_less((#[trigger] list@[j])@, text@),
        decreases list@.len() - i,
    {
        i += 1;
    }
    if i < list.len() && same(list[i].as_str(), text) {
        proof {
            assert(listed(list@, text@));
        }
        return;
    }
    proof {
        if i < all.len() {
            lemma_text_less_total(all[i as int]@, text@);
        }
    }
    list.insert(i, text.to_owned());
    proof {
        let now = list@;
        assert forall|a: int, b: int| 0 <= a < b < now.len() implies text_less(
            (#[trigger] now[a])@,
            (#[trigger] now[b])@,
        ) by {
            if b < i {
                assert(now[a] == all[a] && now[b] == all[b]);
            } else if b == i {
                assert(now[a] == all[a]);
            } else {
                assert(now[b] == all[b - 1]);
                if a < i {
                    assert(now[a] == all[a]);
                } else if a > i {
                    assert(now[a] == all[a - 1]);
                } else {
                    if b - 1 > i {
                        assert(text_less(all[i as int]@, all[b - 1]@));
                        lemma_text_less_transitive(text@, all[i as int]@, all[b - 1]@);
                    }
                }
            }
        }
        assert forall|x: Seq<char>| #[trigger] listed(now, x) <==> listed(all, x) || x == text@ by {
            if listed(now, x) {
                let a = choose|a: int| 0 <= a < now.len() && (#[trigger] now[a])@ == x;
                if a < i {
                    assert(all[a]@ == x);
                } else if a > i {
                    assert(all[a - 1]@ == x);
                }
            }
            if listed(all, x) {
                let a = choose|a: int| 0 <= a < all.len() && (#[trigger] all[a])@ == x;
                if a < i {
                    assert(now[a]@ == x);
                } else {
                    assert(now[a + 1]@ == x);
                }
            }
            if x == text@ {
                assert(now[i as int]@ == x);
            }
        }
    }
}

/// The categories that feed an aggregate type, in ascending order.
fn feeding_streams<B: FoldFns>(reg: &AggregatorRegistry<B>, aggregate_type: &str) -> (streams: Vec<
    String,
>)
    ensures
        ascending(streams@),
        forall|c: Seq<char>| #[trigger]
            listed(streams@, c) <==> feeds(reg.aggs(), aggregate_type@, c),
{
    let mut streams: Vec<String> = Vec::new();
    let mut i: usize = 0;
    let ghost aggs = reg.aggs();
    while i < reg.len()
        invariant
            i <= aggs.len(),
            aggs == reg.aggs(),
            ascending(streams@),
            forall|c: Seq<char>| #[trigger]
                listed(streams@, c) <==> exists|k: int|
                    0 <= k < i && (#[trigger] aggs[k]).aggregate_type == aggregate_type@
                        && aggs[k].event_subject == c,
        decreases aggs.len() - i,
    {
        let agg = reg.aggregator(i);
        let ghost was = streams@;
        if same(agg.aggregate_type.as_str(), aggregate_type) {
            insert_text(&mut streams, agg.event_subject.as_str());
        }
        proof {
            assert forall|c: Seq<char>| #[trigger] listed(streams@, c) <==> exists|k: int|
                0 <= k < i + 1 && (#[trigger] aggs[k]).aggregate_type == aggregate_type@
                    && aggs[k].event_subject == c by {
                assert(aggs[i as int].aggregate_type == agg.aggregate_type@);
                if listed(was, c) {
                    let k = choose|k: int|
                        0 <= k < i && (#[trigger] aggs[k]).aggregate_type == aggregate_type@
                            && aggs[k].event_subject == c;
                    assert(aggs[k].event_subject == c);
                }
            }
        }
        i += 1;
    }
    streams
}

proof fn lemma_first_custom<B>(
    aggs: Seq<AggregatorView<B>>,
    aggregate_type: Seq<char>,
    i: int,
    n: nat,
)
    requires
        0 <= i < n <= aggs.len(),
        aggs[i].aggregate_type == aggregate_type && aggs[i].custom_id,
        first_custom(aggs, aggregate_type, i as nat) is None,
    ensures
        first_custom(aggs, aggregate_type, n) == Some(i),
    decreases n,
{
    if n > i + 1 {
        lemma_first_custom(aggs, aggregate_type, i, (n - 1) as nat);
    }
}

proof fn lemma_first_folding<B>(
    aggs: Seq<AggregatorView<B>>,
    aggregate_type: Seq<char>,
    kind: Seq<char>,
    i: int,
    n: nat,
)
    requires
        0 <= i < n <= aggs.len(),
        aggs[i].aggregate_type == aggregate_type && aggs[i].event_prefix == kind,
        first_folding(aggs, aggregate_type, kind, i as nat) is None,
    ensures
        first_folding(aggs, aggregate_type, kind, n) == Some(i),
    decreases n,
{
    if n > i + 1 {
        lemma_first_folding(aggs, aggregate_type, kind, i, (n - 1) as nat);
    }
}

/// The first aggregator of a type with found ids.
fn find_custom<B: FoldFns>(reg: &AggregatorRegistry<B>, aggregate_type: &str) -> (at: Option<usize>)
    ensures
        match at {
            Some(i) => i < reg.aggs().len() && first_custom(
                reg.aggs(),
                aggregate_type@,
                reg.aggs().len(),
            ) == Some(i as int),
            None => first_custom(reg.aggs(), aggregate_type@, reg.aggs().len()) is None,
        },
{
    let mut i: usize = 0;
    while i < reg.len()
        invariant
            i <= reg.aggs().len(),
            first_custom(reg.aggs(), aggregate_type@, i as nat) is None,
        decreases reg.aggs().len() - i,
    {
        let agg = reg.aggregator(i);
        if agg.custom_id && same(agg.aggregate_type.as_str(), aggregate_type) {
            proof {
                lemma_first_custom(reg.aggs(), aggregate_type@, i as int, reg.aggs().len());
            }
            return Some(i);
        }
        i += 1;
    }
    None
}

/// The first aggregator that folds a kind of event into a type.
fn find_folding<B: FoldFns>(
    reg: &AggregatorRegistry<B>,
    aggregate_type: &str,
    kind: &str,
) -> (at: Option<usize>)
    ensures
        match at {
            Some(i) => i < reg.aggs().len() && first_folding(
                reg.aggs(),
                aggregate_type@,
                kind@,
                reg.aggs().len(),
            ) == Some(i as int),
            None => first_folding(reg.aggs(), aggregate_type@, kind@, reg.aggs().len()) is None,
        },
{
    let mut i: usize = 0;
    while i < reg.len()
        invariant
            i <= reg.aggs().len(),
            first_folding(reg.aggs(), aggregate_type@, kind@, i as nat) is None,
        decreases reg.aggs().len() - i,
    {
        let agg = reg.aggregator(i);
        if same(agg.event_prefix.as_str(), kind) && same(
            agg.aggregate_type.as_str(),
            aggregate_type,
        ) {
            proof {
                lemma_first_folding(reg.aggs(), aggregate_type@, kind@, i as int, reg.aggs().len());
            }
            return Some(i);
        }
        i += 1;
    }
    None
}

/// Whether a cached fold can be carried on to `bound`: it has not met the
/// event there.
pub open spec fn resumes<S>(
    cache: Map<(Seq<char>, u128), FoldPoint<S>>,
    key: (Seq<char>, u128),
    bound: u64,
) -> bool {
    cache.contains_key(key) && cache[key].folded_to < bound
}

/// Begins a bounded fold. A cached fold that lies before the bound is taken
/// out of the cache and carried on; otherwise the fold starts from nothing.
///
/// It fails exactly where an aggregator of the type finds its ids by something
/// other than the subject id: such a state is no single subject's history.
pub fn fold_bounded_start<B: FoldFns>(
    reg: &AggregatorRegistry<B>,
    aggregate_type: &str,
    id: u128,
    bound: LogCursor,
    cache: &mut FoldOnReadCache<B::State>,
) -> (r: Result<BoundedFold<B::State>, Error>)
    requires
        first_of_type(reg.aggs(), aggregate_type@) is Some,
        old(cache).wf(),
    ensures
        final(cache).wf(),
        match first_custom(reg.aggs(), aggregate_type@, reg.aggs().len()) {
            Some(i) => r matches Err(Error::Message(text)) && text@ == custom_id_text(
                aggregate_type@,
                reg.aggs()[i].event_prefix,
            ) && final(cache)@ == old(cache)@,
            None => r matches Ok(fold) && fold.wf() && fold.aggregate_type() == aggregate_type@
                && fold.id() == id && fold.bound() == bound.0 && (forall|c: Seq<char>| #[trigger]
                listed(fold.streams(), c) <==> feeds(reg.aggs(), aggregate_type@, c)) && (
            if resumes(old(cache)@, (aggregate_type@, id), bound.0) {
                fold.from() == old(cache)@[(aggregate_type@, id)] && fold.cacheable() && final(
                    cache)@ == old(cache)@.remove((aggregate_type@, id))
            } else {
                resumed(fold.from()) == unread(reg.aggs(), aggregate_type@) && fold.cacheable()
                    == !old(cache)@.contains_key((aggregate_type@, id)) && final(cache)@ == old(
                    cache)@
            }),
        },
{
    match find_custom(reg, aggregate_type) {
        Some(i) => {
            return Err(
                Error::Message(
                    custom_id_message(aggregate_type, reg.aggregator(i).event_prefix.as_str()),
                ),
            );
        },
        None => {},
    }
    let streams = feeding_streams(reg, aggregate_type);
    proof {
        lemma_first_of_type(reg.aggs(), aggregate_type@);
    }
    let key = FoldKey { aggregate_type: aggregate_type.to_owned(), id };
    let ghost k = key@;
    let (usable, held) = match cache.entries.get(&key) {
        Some(entry) => (entry.folded_to.0 < bound.0, true),
        None => (false, false),
    };
    if usable {
        match cache.entries.take_key(&key) {
            Some(entry) => {
                proof {
                    assert(cache@ =~= old(cache)@.remove(k));
                }
                return Ok(
                    BoundedFold {
                        aggregate_type: aggregate_type.to_owned(),
                        id,
                        bound,
                        streams,
                        from: entry,
                        cacheable: true,
                    },
                );
            },
            None => {},
        }
    }
    let state = match reg.find_first_by_aggregate_type(aggregate_type) {
        Some(agg) => agg.fns.default_state(),
        None => {
            assert(false);
            return Err(Error::msg("no aggregator of the type"));
        },
    };
    let from = FoldCacheEntry {
        state,
        folded_to: LogCursor::zero(),
        stream_tails: Table::new(),
    };
    Ok(
        BoundedFold {
            aggregate_type: aggregate_type.to_owned(),
            id,
            bound,
            streams,
            from,
            cacheable: !held,
        },
    )
}

/// The deliveries of a list of references.
spec fn ref_deliveries(events: Seq<&RecordedEvent>) -> Seq<Delivery> {
    Seq::new(events.len(), |i: int| events[i].delivery())
}

/// The deliveries of several lists.
pub open spec fn batch_deliveries(batches: Seq<Vec<RecordedEvent>>) -> Seq<Seq<Delivery>> {
    Seq::new(batches.len(), |i: int| deliveries(batches[i]@))
}

proof fn lemma_placed_at(events: Seq<Delivery>, e: Delivery, j: int)
    requires
        0 <= j <= events.len(),
        j == 0 || events[j - 1].position <= e.position,
        forall|k: int| j <= k < events.len() ==> (#[trigger] events[k]).position > e.position,
    ensures
        placed(events, e) == events.take(j).push(e) + events.skip(j),
    decreases events.len(),
{
    if j == events.len() {
        assert(events.take(j) =~= events);
        assert(events.take(j).push(e) + events.skip(j) =~= events.push(e));
    } else {
        let rest = events.drop_last();
        assert(events[events.len() - 1].position > e.position);
        lemma_placed_at(rest, e, j);
        assert(rest.take(j) =~= events.take(j));
        assert(placed(events, e) =~= events.take(j).push(e) + events.skip(j));
    }
}

/// Puts an event into an ordered list.
fn place<'a>(list: &mut Vec<&'a RecordedEvent>, e: &'a RecordedEvent)
    ensures
        ref_deliveries(final(list)@) == placed(ref_deliveries(old(list)@), e.delivery()),
{
    let ghost all = list@;
    let mut j: usize = list.len();
    while j > 0 && list[j - 1].position.0 > e.position.0
        invariant
            j <= list@.len(),
            list@ == all,
            forall|k: int| j <= k < all.len() ==> (#[trigger] all[k]).position.0 > e.position.0,
        decreases j,
    {
        j -= 1;
    }
    list.insert(j, e);
    proof {
        let was = ref_deliveries(all);
        assert forall|k: int| j <= k < was.len() implies (#[trigger] was[k]).position
            > e.delivery().position by {
            assert(all[k].position.0 > e.position.0);
        }
        lemma_placed_at(was, e.delivery(), j as int);
        assert(ref_deliveries(list@) =~= was.take(j as int).push(e.delivery()) + was.skip(
            j as int,
        ));
    }
}

/// The events past `low` and up to `high` of several lists, in order of
/// position.
fn merge<'a>(batches: &'a Vec<Vec<RecordedEvent>>, low: LogCursor, high: LogCursor) -> (list: Vec<
    &'a RecordedEvent,
>)
    ensures
        ref_deliveries(list@) == in_order(
            in_range(joined(batch_deliveries(batches@)), low.0, high.0),
        ),
{
    let mut list: Vec<&'a RecordedEvent> = Vec::new();
    let mut i: usize = 0;
    let ghost all = batch_deliveries(batches@);
    assert(all.take(0) =~= Seq::<Seq<Delivery>>::empty());
    assert(ref_deliveries(list@) =~= Seq::<Delivery>::empty());
    while i < batches.len()
        invariant
            i <= batches@.len(),
            all == batch_deliveries(batches@),
            ref_deliveries(list@) == in_order(in_range(joined(all.take(i as int)), low.0, high.0)),
        decreases batches@.len() - i,
    {
        let batch = &batches[i];
        let ghost done = joined(all.take(i as int));
        let ghost here = deliveries(batch@);
        let mut j: usize = 0;
        assert(here.take(0) =~= Seq::<Delivery>::empty());
        assert(done + here.take(0) =~= done);
        while j < batch.len()
            invariant
                j <= batch@.len(),
                here == deliveries(batch@),
                ref_deliveries(list@) == in_order(
                    in_range(done + here.take(j as int), low.0, high.0),
                ),
            decreases batch@.len() - j,
        {
            let e = &batch[j];
            let ghost seen = done + here.take(j as int);
            assert(done + here.take(j + 1) =~= seen.push(here[j as int]));
            assert(seen.push(here[j as int]).drop_last() =~= seen);
            if low.0 < e.position.0 && e.position.0 <= high.0 {
                place(&mut list, e);
                proof {
                    let kept = in_range(seen, low.0, high.0);
                    assert(kept.push(here[j as int]).drop_last() =~= kept);
                }
            }
            j += 1;
        }
        proof {
            assert(here.take(j as int) =~= here);
            assert(all.take(i + 1).drop_last() =~= all.take(i as int));
            assert(all.take(i + 1).last() == here);
        }
        i += 1;
    }
    assert(all.take(i as int) =~= all);
    list
}

proof fn lemma_read_failure_sticks<B: FoldFns>(
    aggs: Seq<AggregatorView<B>>,
    aggregate_type: Seq<char>,
    bound: u64,
    events: Seq<Delivery>,
    n: int,
    start: Reading<B::State>,
)
    requires
        0 <= n <= events.len(),
        read_all(aggs, aggregate_type, bound, events.take(n), start).failed,
    ensures
        read_all(aggs, aggregate_type, bound, events, start).failed,
    decreases events.len() - n,
{
    if n < events.len() {
        assert(events.take(n + 1).drop_last() =~= events.take(n));
        lemma_read_failure_sticks(aggs, aggregate_type, bound, events, n + 1, start);
    } else {
        assert(events.take(n) =~= events);
    }
}

/// Whether `e` tells, in its aggregator's own words, why the first event that
/// cannot be applied is refused.
pub open spec fn tells_bad_read<B: FoldFns>(
    aggs: Seq<AggregatorView<B>>,
    aggregate_type: Seq<char>,
    bound: u64,
    events: Seq<Delivery>,
    start: Reading<B::State>,
    e: Error,
) -> bool {
    exists|i: int|
        {
            let so_far = read_all(aggs, aggregate_type, bound, #[trigger] events.take(i), start);
            let at = first_folding(aggs, aggregate_type, events[i].event_type, aggs.len());
            &&& 0 <= i < events.len()
            &&& !so_far.failed
            &&& at is Some
            &&& e matches Error::Message(words) && refuses_on(
                aggs[at->0].fns,
                so_far.state,
                events[i].payload,
                words@,
            )
        }
}

/// Ends a bounded fold with what was read from its streams: the state up to
/// the bound, and the one before the event at exactly the bound. Where no
/// event of the aggregate stands there, both are the same.
///
/// It fails exactly where an event cannot be applied; a fold taken from the
/// cache is then lost.
pub fn fold_bounded<B: FoldFns>(
    reg: &AggregatorRegistry<B>,
    fold: BoundedFold<B::State>,
    batches: &Vec<Vec<RecordedEvent>>,
    cache: &mut FoldOnReadCache<B::State>,
) -> (r: Result<(B::State, B::State), Error>)
    requires
        first_of_type(reg.aggs(), fold.aggregate_type()) is Some,
        fold.wf(),
        old(cache).wf(),
    ensures
        final(cache).wf(),
        ({
            let end = bounded(
                reg.aggs(),
                fold.aggregate_type(),
                fold.bound(),
                batch_deliveries(batches@),
                resumed(fold.from()),
            );
            match r {
                Ok((prev, curr)) => !end.failed && curr == end.state && prev == (match end.prev {
                    Some(prev) => prev,
                    None => end.state,
                }) && final(cache)@ == (if fold.cacheable() {
                    old(cache)@.insert(
                        (fold.aggregate_type(), fold.id()),
                        FoldPoint {
                            state: end.state,
                            folded_to: end.folded_to,
                            tails: end.tails,
                        },
                    )
                } else {
                    old(cache)@
                }),
                Err(e) => end.failed && final(cache)@ == old(cache)@ && tells_bad_read(
                    reg.aggs(),
                    fold.aggregate_type(),
                    fold.bound(),
                    in_order(
                        in_range(
                            joined(batch_deliveries(batches@)),
                            fold.from().folded_to,
                            fold.bound(),
                        ),
                    ),
                    resumed(fold.from()),
                    e,
                ),
            }
        }),
{
    let ghost aggs = reg.aggs();
    let ghost kind = fold.aggregate_type();
    let ghost start = resumed(fold.from());
    let merged = merge(batches, fold.from.folded_to, fold.bound);
    let ghost events = ref_deliveries(merged@);
    let bound = fold.bound;
    let aggregate_type = fold.aggregate_type;
    let mut state = fold.from.state;
    let mut folded_to = fold.from.folded_to;
    let mut tails = fold.from.stream_tails;
    let mut prev: Option<B::State> = None;
    let mut i: usize = 0;
    assert(events.take(0) =~= Seq::<Delivery>::empty());
    while i < merged.len()
        invariant
            i <= merged@.len(),
            aggs == reg.aggs(),
            kind == aggregate_type@,
            events == ref_deliveries(merged@),
            tails.wf(),
            *cache == *old(cache),
            old(cache).wf(),
            kind == fold.aggregate_type(),
            start == resumed(fold.from()),
            bound.0 == fold.bound(),
            events == in_order(
                in_range(joined(batch_deliveries(batches@)), start.folded_to, bound.0),
            ),
            read_all(aggs, kind, bound.0, events.take(i as int), start) == (Reading {
                state,
                prev,
                folded_to: folded_to.0,
                tails: tails@,
                failed: false,
            }),
        decreases merged@.len() - i,
    {
        let event = merged[i];
        let ghost e = events[i as int];
        let ghost tails_before = tails@;
        let ghost so_far = state;
        assert(events.take(i + 1).drop_last() =~= events.take(i as int));
        assert(events.take(i + 1).last() == e);
        match find_folding(reg, aggregate_type.as_str(), event.event_type.as_str()) {
            None => {},
            Some(a) => {
                let agg = reg.aggregator(a);
                if event.position.0 == bound.0 {
                    prev = Some(agg.fns.clone_state(&state));
                }
                match agg.fns.apply_to(&mut state, &event.payload) {
                    Ok(()) => {},
                    Err(text) => {
                        proof {
                            lemma_read_failure_sticks(aggs, kind, bound.0, events, i + 1, start);
                            assert(refuses_on(agg@.fns, so_far, e.payload, text@));
                        }
                        let told = Error::Message(text);
                        assert(tells_bad_read(aggs, kind, bound.0, events, start, told));
                        return Err(told);
                    },
                }
            },
        }
        tails.put(event.category.clone(), event.revision);
        folded_to = event.position;
        i += 1;
    }
    assert(events.take(i as int) =~= events);
    let (prev, curr) = match reg.find_first_by_aggregate_type(aggregate_type.as_str()) {
        Some(agg) => {
            let curr = agg.fns.clone_state(&state);
            let prev = match prev {
                Some(prev) => prev,
                None => agg.fns.clone_state(&state),
            };
            (prev, curr)
        },
        None => {
            assert(false);
            return Err(Error::msg("no aggregator of the type"));
        },
    };
    if fold.cacheable {
        let key = FoldKey { aggregate_type, id: fold.id };
        let entry = FoldCacheEntry { state, folded_to, stream_tails: tails };
        let ghost k = key@;
        cache.entries.put(key, entry);
        assert(cache@ =~= old(cache)@.insert(k, entry@));
    }
    Ok((prev, curr))
}

} // verus!
