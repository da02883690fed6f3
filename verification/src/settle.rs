//! Waiting for a workflow's causal chain to drain.

use std::collections::{HashMap, HashSet};
use vstd::prelude::*;

use crate::emit::EmitResult;
use crate::keyed::Table;
use crate::types::{traces, LogCursor, RecordedEvent, Trace};

verus! {

/// How many workflows are tracked at most.
pub const SETTLE_TRACKER_CAP: usize = 65536;

/// The furthest position that any event of each workflow's chain has reached.
pub struct SettleTracker {
    hw: HashMap<u128, LogCursor>,
}

/// What is known of a workflow.
pub open spec fn high_water(marks: Map<u128, LogCursor>, wf: u128) -> Option<LogCursor> {
    if marks.contains_key(wf) {
        Some(marks[wf])
    } else {
        None
    }
}

/// Whether no more workflows are tracked than the tracker has room for.
pub open spec fn bounded(marks: Map<u128, LogCursor>) -> bool {
    marks.dom().len() <= SETTLE_TRACKER_CAP
}

/// The later of two positions.
pub open spec fn later_of(a: LogCursor, b: LogCursor) -> LogCursor {
    if b.0 > a.0 {
        b
    } else {
        a
    }
}

impl View for SettleTracker {
    type V = Map<u128, LogCursor>;

    closed spec fn view(&self) -> Map<u128, LogCursor> {
        self.hw@
    }
}

impl SettleTracker {
    pub fn new() -> (tracker: Self)
        ensures
            tracker@ == Map::<u128, LogCursor>::empty(),
            bounded(tracker@),
    {
        SettleTracker { hw: HashMap::new() }
    }

    /// Records the position of an event of a workflow's chain; the furthest
    /// one stays. A new workflow in a full tracker takes the place of some
    /// other.
    pub fn bump(&mut self, wf: u128, pos: LogCursor)
        ensures
            old(self)@.contains_key(wf) ==> final(self)@ == old(self)@.insert(
                wf,
                later_of(old(self)@[wf], pos),
            ),
            !old(self)@.contains_key(wf) && old(self)@.dom().len() < SETTLE_TRACKER_CAP
                ==> final(self)@ == old(self)@.insert(wf, pos),
            !old(self)@.contains_key(wf) && old(self)@.dom().len() >= SETTLE_TRACKER_CAP
                ==> exists|victim: u128| #[trigger]
                old(self)@.contains_key(victim) && final(self)@ == old(self)@.remove(victim).insert(
                    wf,
                    pos,
                ),
            bounded(old(self)@) ==> bounded(final(self)@),
    {
        broadcast use vstd::std_specs::hash::group_hash_axioms;

        let current = match self.hw.get(&wf) {
            Some(c) => Some(*c),
            None => None,
        };
        if let Some(c) = current {
            if pos.0 > c.0 {
                self.hw.insert(wf, pos);
            } else {
                assert(self@.insert(wf, c) =~= self@);
            }
            return;
        }
        if self.hw.len() >= SETTLE_TRACKER_CAP {
            let victim = self.any_tracked();
            self.hw.remove(&victim);
            self.hw.insert(wf, pos);
            assert(old(self)@.contains_key(victim));
            return;
        }
        self.hw.insert(wf, pos);
    }

    /// Some workflow that is tracked.
    fn any_tracked(&self) -> (wf: u128)
        requires
            self@.dom().len() > 0,
        ensures
            self@.contains_key(wf),
    {
        broadcast use vstd::std_specs::hash::group_hash_axioms;

        for k in keys: self.hw.keys()
            invariant
                keys.index() == 0,
                keys.seq().unref().to_set() == self@.dom(),
                keys.seq().len() == self@.dom().len(),
        {
            proof {
                assert(keys.seq().unref()[0] == *k);
                assert(keys.seq().unref().to_set().contains(*k));
            }
            return *k;
        }
        assert(false);
        0
    }

    /// The furthest position of a workflow's chain.
    pub fn get(&self, wf: u128) -> (pos: Option<LogCursor>)
        ensures
            pos == high_water(self@, wf),
    {
        broadcast use vstd::std_specs::hash::group_hash_axioms;

        match self.hw.get(&wf) {
            Some(c) => Some(*c),
            None => None,
        }
    }

    /// Stops tracking a workflow.
    pub fn forget(&mut self, wf: u128)
        ensures
            final(self)@ == old(self)@.remove(wf),
            bounded(old(self)@) ==> bounded(final(self)@),
    {
        broadcast use vstd::std_specs::hash::group_hash_axioms;

        self.hw.remove(&wf);
        assert(self@ =~= old(self)@.remove(wf));
    }
}

/// The position that every consumer must have passed: the furthest of the
/// chain, and never one before the emit's own.
pub open spec fn target(marks: Map<u128, LogCursor>, result: EmitResult) -> LogCursor {
    match high_water(marks, result.workflow_id) {
        Some(pos) => later_of(pos, result.position),
        None => result.position,
    }
}

/// The position to wait for once every consumer has passed `hw`. A workflow
/// that is no longer tracked was crowded out meanwhile; it keeps the position
/// it had.
pub open spec fn next_target(
    marks: Map<u128, LogCursor>,
    result: EmitResult,
    hw: LogCursor,
) -> LogCursor {
    match high_water(marks, result.workflow_id) {
        Some(_) => target(marks, result),
        None => later_of(hw, result.position),
    }
}

/// The later of two positions, decided.
fn later(a: LogCursor, b: LogCursor) -> (pos: LogCursor)
    ensures
        pos == later_of(a, b),
{
    if b.0 > a.0 {
        b
    } else {
        a
    }
}

/// The position to wait for.
pub fn settle_target(tracker: &SettleTracker, result: EmitResult) -> (hw: LogCursor)
    ensures
        hw == target(tracker@, result),
{
    match tracker.get(result.workflow_id) {
        Some(pos) => later(pos, result.position),
        None => result.position,
    }
}

/// Whether a wait is over.
#[derive(Clone, Copy, Debug, PartialEq, Eq, Structural)]
pub enum SettleStep {
    Done,
    /// The chain went on: wait for this position.
    Again { hw: LogCursor },
}

/// Decides whether a workflow has drained, once every consumer has drained it
/// to `hw`: it has where its chain has not gone on meanwhile. It is then no
/// longer tracked.
pub fn settle(tracker: &mut SettleTracker, result: EmitResult, hw: LogCursor) -> (step: SettleStep)
    ensures
        ({
            let next = next_target(old(tracker)@, result, hw);
            if next == hw {
                step == SettleStep::Done && final(tracker)@ == old(tracker)@.remove(
                    result.workflow_id,
                )
            } else {
                step == (SettleStep::Again { hw: next }) && final(tracker)@ == old(tracker)@
            }
        }),
{
    let next = match tracker.get(result.workflow_id) {
        Some(pos) => later(pos, result.position),
        None => later(hw, result.position),
    };
    if next.0 == hw.0 {
        tracker.forget(result.workflow_id);
        SettleStep::Done
    } else {
        SettleStep::Again { hw: next }
    }
}

/// Whether a consumer that reads the log in order has passed a position.
pub open spec fn passed(cursor: Option<LogCursor>, pos: LogCursor) -> bool {
    cursor matches Some(c) && c.0 >= pos.0
}

/// Whether a consumer has passed a position: what a serial consumer answers
/// when asked whether it has drained, and what a caller that waits for one
/// consumer looks for.
pub fn is_observed(cursor: Option<LogCursor>, pos: LogCursor) -> (observed: bool)
    ensures
        observed == passed(cursor, pos),
{
    match cursor {
        Some(c) => c.0 >= pos.0,
        None => false,
    }
}

/// What a scan for child workflows has found.
pub struct ScanView {
    /// Events of the parents.
    pub parent_events: Set<u128>,
    /// The children, each with its furthest position.
    pub children: Map<u128, LogCursor>,
}

/// What one more event adds to a scan. An event of another workflow that a
/// parent's event caused belongs to a child.
pub open spec fn scan_one(parents: Set<u128>, e: Trace, s: ScanView) -> ScanView {
    if parents.contains(e.workflow_id) {
        ScanView { parent_events: s.parent_events.insert(e.event_id), children: s.children }
    } else if e.causation_id matches Some(cause) && s.parent_events.contains(cause) {
        ScanView {
            parent_events: s.parent_events,
            children: s.children.insert(
                e.workflow_id,
                if s.children.contains_key(e.workflow_id) {
                    later_of(s.children[e.workflow_id], LogCursor(e.position))
                } else {
                    LogCursor(e.position)
                },
            ),
        }
    } else {
        s
    }
}

/// What a sequence of events adds to a scan.
pub open spec fn scan_all(parents: Set<u128>, events: Seq<Trace>, s: ScanView) -> ScanView
    decreases events.len(),
{
    if events.len() == 0 {
        s
    } else {
        scan_one(parents, events.last(), scan_all(parents, events.drop_last(), s))
    }
}

/// A scan of the log for workflows that were rooted from inside others.
pub struct ChildScan {
    parent_events: HashSet<u128>,
    children: Table<u128, LogCursor>,
    from: LogCursor,
}

impl View for ChildScan {
    type V = ScanView;

    closed spec fn view(&self) -> ScanView {
        ScanView { parent_events: self.parent_events@, children: self.children@ }
    }
}

impl ChildScan {
    pub closed spec fn wf(&self) -> bool {
        self.children.wf()
    }

    /// Where the log is to be read from next.
    pub closed spec fn from(&self) -> LogCursor {
        self.from
    }

    pub fn new() -> (scan: Self)
        ensures
            scan.wf(),
            scan.from() == LogCursor(0),
            scan@ == (ScanView {
                parent_events: Set::<u128>::empty(),
                children: Map::<u128, LogCursor>::empty(),
            }),
    {
        ChildScan {
            parent_events: HashSet::new(),
            children: Table::new(),
            from: LogCursor::zero(),
        }
    }

    /// Where the log is to be read from next.
    pub fn read_from(&self) -> (from: LogCursor)
        ensures
            from == self.from(),
    {
        self.from
    }

    /// Takes a batch of the log. An empty batch ends the scan.
    pub fn on_batch(&mut self, parents: &HashSet<u128>, batch: &Vec<RecordedEvent>) -> (more: bool)
        requires
            old(self).wf(),
        ensures
            final(self).wf(),
            more == (batch@.len() > 0),
            final(self)@ == scan_all(parents@, traces(batch@), old(self)@),
            final(self).from() == (if batch@.len() > 0 {
                batch@.last().position
            } else {
                old(self).from()
            }),
    {
        broadcast use vstd::std_specs::hash::group_hash_axioms;

        let ghost all = traces(batch@);
        let ghost start = self@;
        let mut i: usize = 0;
        assert(all.take(0) =~= Seq::<Trace>::empty());
        while i < batch.len()
            invariant
                i <= batch@.len(),
                all == traces(batch@),
                self.wf(),
                self.from() == old(self).from(),
                self@ == scan_all(parents@, all.take(i as int), start),
            decreases batch@.len() - i,
        {
            let e = &batch[i];
            let ghost before = self@;
            assert(all.take(i + 1).drop_last() =~= all.take(i as int));
            assert(all.take(i + 1).last() == e.trace());
            if parents.contains(&e.workflow_id) {
                self.parent_events.insert(e.event_id);
            } else if let Some(cause) = e.causation_id {
                if self.parent_events.contains(&cause) {
                    let pos = match self.children.get(&e.workflow_id) {
                        Some(held) => if e.position.0 > held.0 {
                            e.position
                        } else {
                            *held
                        },
                        None => e.position,
                    };
                    self.children.put(e.workflow_id, pos);
                }
            }
            assert(self@.parent_events =~= scan_one(
                parents@,
                e.trace(),
                before,
            ).parent_events);
            assert(self@.children =~= scan_one(parents@, e.trace(), before).children);
            i += 1;
        }
        assert(all.take(i as int) =~= all);
        if batch.len() > 0 {
            self.from = batch[batch.len() - 1].position;
            true
        } else {
            false
        }
    }

    /// The children found, each once, in no particular order.
    pub fn finish(self) -> (list: Vec<EmitResult>)
        requires
            self.wf(),
        ensures
            forall|i: int|
                0 <= i < list@.len() ==> high_water(
                    self@.children,
                    (#[trigger] list@[i]).workflow_id,
                ) == Some(list@[i].position),
            forall|wf: u128| #[trigger]
                self@.children.contains_key(wf) ==> found(list@, wf),
            forall|i: int, j: int|
                0 <= i < j < list@.len() ==> (#[trigger] list@[i]).workflow_id != (
                #[trigger] list@[j]).workflow_id,
    {
        let mut list: Vec<EmitResult> = Vec::new();
        let mut i: usize = 0;
        proof {
            self.children.lemma_row();
        }
        while i < self.children.len()
            invariant
                i <= self.children.count(),
                self.wf(),
                list@.len() == i,
                forall|j: int|
                    0 <= j < self.children.count() ==> self.children@.contains_key(
                        (#[trigger] self.children.row(j)).0@,
                    ) && self.children@[self.children.row(j).0@] == self.children.row(j).1,
                forall|j: int|
                    0 <= j < i ==> (#[trigger] list@[j]).workflow_id == self.children.row(j).0
                        && list@[j].position == self.children.row(j).1,
            decreases self.children.count() - i,
        {
            let row = self.children.at(i);
            list.push(EmitResult { position: row.1, workflow_id: row.0 });
            i += 1;
        }
        proof {
            assert forall|wf: u128| #[trigger] self@.children.contains_key(wf) implies found(
                list@,
                wf,
            ) by {
                assert(self.children@.contains_key(wf));
                let j = choose|j: int|
                    0 <= j < self.children.count() && (#[trigger] self.children.row(j)).0@ == wf;
                assert(list@[j].workflow_id == wf);
            }
            assert forall|a: int, b: int| 0 <= a < b < list@.len() implies (
            #[trigger] list@[a]).workflow_id != (#[trigger] list@[b]).workflow_id by {
                assert(self.children.row(a).0@ != self.children.row(b).0@);
            }
            assert forall|a: int| 0 <= a < list@.len() implies high_water(
                self@.children,
                (#[trigger] list@[a]).workflow_id,
            ) == Some(list@[a].position) by {
                assert(self.children@.contains_key(self.children.row(a).0@));
            }
        }
        list
    }
}

/// Whether a list holds a workflow.
pub open spec fn found(list: Seq<EmitResult>, wf: u128) -> bool {
    exists|i: int| 0 <= i < list.len() && (#[trigger] list[i]).workflow_id == wf
}

/// Settling a workflow and every workflow rooted from inside it: which are
/// done, and which wait.
pub struct TreeSettle {
    pub settled: HashSet<u128>,
    pub queue: Vec<EmitResult>,
}

impl TreeSettle {
    pub fn new(result: EmitResult) -> (tree: Self)
        ensures
            tree.settled@ == Set::<u128>::empty(),
            tree.queue@ == seq![result],
    {
        let mut queue: Vec<EmitResult> = Vec::new();
        queue.push(result);
        assert(queue@ =~= seq![result]);
        TreeSettle { settled: HashSet::new(), queue }
    }

    /// The next workflow to settle. Each is handed out at most once; `None`
    /// once none waits.
    pub fn next_workflow(&mut self) -> (next: Option<EmitResult>)
        ensures
            match next {
                Some(r) => !old(self).settled@.contains(r.workflow_id) && final(self).settled@
                    == old(self).settled@.insert(r.workflow_id) && exists|n: int|
                    0 <= n < old(self).queue@.len() && #[trigger] old(self).queue@[n] == r
                        && final(self).queue@ == old(self).queue@.take(n) && forall|m: int|
                        n < m < old(self).queue@.len() ==> old(self).settled@.contains(
                            (#[trigger] old(self).queue@[m]).workflow_id,
                        ),
                None => final(self).settled@ == old(self).settled@ && final(self).queue@.len() == 0
                    && forall|m: int|
                    0 <= m < old(self).queue@.len() ==> old(self).settled@.contains(
                        (#[trigger] old(self).queue@[m]).workflow_id,
                    ),
            },
    {
        broadcast use vstd::std_specs::hash::group_hash_axioms;

        let ghost all = self.queue@;
        assert(all.take(all.len() as int) =~= all);
        while self.queue.len() > 0
            invariant
                self.settled@ == old(self).settled@,
                all == old(self).queue@,
                self.queue@.len() <= all.len(),
                self.queue@ == all.take(self.queue@.len() as int),
                forall|m: int|
                    self.queue@.len() <= m < all.len() ==> self.settled@.contains(
                        (#[trigger] all[m]).workflow_id,
                    ),
            decreases self.queue@.len(),
        {
            let ghost n = self.queue@.len() - 1;
            let r = match self.queue.pop() {
                Some(r) => r,
                None => {
                    return None;
                },
            };
            assert(self.queue@ =~= all.take(n));
            assert(all[n] == r);
            if !self.settled.contains(&r.workflow_id) {
                self.settled.insert(r.workflow_id);
                return Some(r);
            }
        }
        None
    }

    /// Takes the children that a scan found. No children: all is settled.
    pub fn on_children(&mut self, children: Vec<EmitResult>) -> (done: bool)
        ensures
            done == (children@.len() == 0),
            final(self).settled == old(self).settled,
            final(self).queue@ == old(self).queue@ + children@,
    {
        let done = children.len() == 0;
        let mut more = children;
        self.queue.append(&mut more);
        done
    }
}

/// A position that was recorded for a workflow is never lost to an earlier one:
/// after a bump the tracked position is at least as far as before, and at
/// least as far as the one recorded.
pub proof fn law_high_water_only_rises(
    marks: Map<u128, LogCursor>,
    wf: u128,
    pos: LogCursor,
)
    requires
        marks.contains_key(wf),
    ensures
        ({
            let after = marks.insert(wf, later_of(marks[wf], pos));
            after[wf].0 >= marks[wf].0 && after[wf].0 >= pos.0 && forall|other: u128|
                other != wf ==> high_water(after, other) == #[trigger] high_water(marks, other)
        }),
{
}

/// A wait starts at, and ends only where every consumer has passed, the emit's
/// own position and the furthest of the chain: the target is at or past both,
/// and so is any position at which the wait is over.
pub proof fn law_settled_means_drained(
    marks: Map<u128, LogCursor>,
    result: EmitResult,
    hw: LogCursor,
    cursor: Option<LogCursor>,
)
    requires
        hw == target(marks, result) || hw == next_target(marks, result, hw),
        passed(cursor, hw),
    ensures
        passed(cursor, result.position),
        high_water(marks, result.workflow_id) matches Some(pos) ==> passed(cursor, pos),
{
}

/// A child is found exactly by its cause: an event of another workflow, caused
/// by an event of a parent that stands before it, makes its workflow a child.
pub proof fn law_caused_workflows_are_children(
    parents: Set<u128>,
    events: Seq<Trace>,
    i: int,
    j: int,
)
    requires
        0 <= i < j < events.len(),
        parents.contains(events[i].workflow_id),
        !parents.contains(events[j].workflow_id),
        events[j].causation_id == Some(events[i].event_id),
    ensures
        ({
            let s = scan_all(
                parents,
                events,
                ScanView { parent_events: Set::empty(), children: Map::empty() },
            );
            s.children.contains_key(events[j].workflow_id)
                && s.children[events[j].workflow_id].0 >= events[j].position
        }),
{
    let start = ScanView { parent_events: Set::<u128>::empty(), children: Map::empty() };
    lemma_parent_seen(parents, events, i, j, start);
    lemma_child_seen(parents, events, i, j, events.len() as int, start);
    assert(events.take(events.len() as int) =~= events);
}

proof fn lemma_parent_seen(parents: Set<u128>, events: Seq<Trace>, i: int, n: int, start: ScanView)
    requires
        0 <= i < n <= events.len(),
        parents.contains(events[i].workflow_id),
    ensures
        scan_all(parents, events.take(n), start).parent_events.contains(events[i].event_id),
    decreases n,
{
    assert(events.take(n).drop_last() =~= events.take(n - 1));
    if n > i + 1 {
        lemma_parent_seen(parents, events, i, n - 1, start);
    }
}

proof fn lemma_child_seen(
    parents: Set<u128>,
    events: Seq<Trace>,
    i: int,
    j: int,
    n: int,
    start: ScanView,
)
    requires
        0 <= i < j < n <= events.len(),
        parents.contains(events[i].workflow_id),
        !parents.contains(events[j].workflow_id),
        events[j].causation_id == Some(events[i].event_id),
    ensures
        scan_all(parents, events.take(n), start).children.contains_key(events[j].workflow_id),
        scan_all(parents, events.take(n), start).children[events[j].workflow_id].0
            >= events[j].position,
    decreases n,
{
    assert(events.take(n).drop_last() =~= events.take(n - 1));
    if n > j + 1 {
        lemma_child_seen(parents, events, i, j, n - 1, start);
    } else {
        lemma_parent_seen(parents, events, i, j, start);
    }
}

/// Whether the cause of event `j` of a batch is an event of a parent: one seen
/// before the batch, or one that stands before `j` in it.
pub open spec fn caused_by_parent(
    parents: Set<u128>,
    seen: Set<u128>,
    batch: Seq<RecordedEvent>,
    j: int,
) -> bool {
    batch[j].causation_id matches Some(cause) && (seen.contains(cause) || exists|i: int|
        0 <= i < j && parents.contains((#[trigger] batch[i]).workflow_id) && batch[i].event_id
            == cause)
}

proof fn lemma_scan_is_by_cause(
    parents: Set<u128>,
    batch: Seq<RecordedEvent>,
    start: ScanView,
    n: int,
)
    requires
        0 <= n <= batch.len(),
    ensures
        ({
            let s = scan_all(parents, traces(batch).take(n), start);
            &&& forall|id: u128| #[trigger]
                s.parent_events.contains(id) ==> start.parent_events.contains(id) || exists|i: int|
                    0 <= i < n && parents.contains((#[trigger] batch[i]).workflow_id)
                        && batch[i].event_id == id
            &&& forall|id: u128| #[trigger]
                start.parent_events.contains(id) ==> s.parent_events.contains(id)
            &&& forall|i: int|
                0 <= i < n && parents.contains((#[trigger] batch[i]).workflow_id)
                    ==> s.parent_events.contains(batch[i].event_id)
            &&& forall|wf: u128| #[trigger]
                s.children.contains_key(wf) ==> (start.children.contains_key(wf) && s.children[wf]
                    == start.children[wf]) || exists|j: int|
                    {
                        &&& 0 <= j < n
                        &&& (#[trigger] batch[j]).workflow_id == wf
                        &&& !parents.contains(wf)
                        &&& caused_by_parent(parents, start.parent_events, batch, j)
                        &&& s.children[wf] == batch[j].position
                    }
            &&& forall|wf: u128| #[trigger]
                start.children.contains_key(wf) ==> s.children.contains_key(wf)
                    && s.children[wf].0 >= start.children[wf].0
            &&& forall|j: int|
                0 <= j < n && !parents.contains((#[trigger] batch[j]).workflow_id)
                    && caused_by_parent(parents, start.parent_events, batch, j)
                    ==> s.children.contains_key(batch[j].workflow_id)
                    && s.children[batch[j].workflow_id].0 >= batch[j].position.0
        }),
    decreases n,
{
    let all = traces(batch);
    if n > 0 {
        lemma_scan_is_by_cause(parents, batch, start, n - 1);
        assert(all.take(n).drop_last() =~= all.take(n - 1));
        let before = scan_all(parents, all.take(n - 1), start);
        let s = scan_all(parents, all.take(n), start);
        let e = batch[n - 1];
        assert(all.take(n).last() == e.trace());
        assert(s == scan_one(parents, e.trace(), before));
        if !parents.contains(e.workflow_id) {
            assert(caused_by_parent(parents, start.parent_events, batch, n - 1) <==> (
            e.causation_id matches Some(cause) && before.parent_events.contains(cause))) by {
                if caused_by_parent(parents, start.parent_events, batch, n - 1) {
                    let cause = e.causation_id->0;
                    if !start.parent_events.contains(cause) {
                        let i = choose|i: int|
                            0 <= i < n - 1 && parents.contains((#[trigger] batch[i]).workflow_id)
                                && batch[i].event_id == cause;
                        assert(before.parent_events.contains(batch[i].event_id));
                    }
                }
            }
        }
        assert forall|wf: u128| #[trigger] s.children.contains_key(wf) implies (
        start.children.contains_key(wf) && s.children[wf] == start.children[wf]) || exists|j: int|
            {
                &&& 0 <= j < n
                &&& (#[trigger] batch[j]).workflow_id == wf
                &&& !parents.contains(wf)
                &&& caused_by_parent(parents, start.parent_events, batch, j)
                &&& s.children[wf] == batch[j].position
            } by {
            if before.children.contains_key(wf) && s.children[wf] == before.children[wf] {
                if !(start.children.contains_key(wf) && s.children[wf] == start.children[wf]) {
                    let j = choose|j: int|
                        {
                            &&& 0 <= j < n - 1
                            &&& (#[trigger] batch[j]).workflow_id == wf
                            &&& !parents.contains(wf)
                            &&& caused_by_parent(parents, start.parent_events, batch, j)
                            &&& before.children[wf] == batch[j].position
                        };
                    assert(batch[j].workflow_id == wf);
                }
            } else {
                assert(batch[n - 1].workflow_id == wf);
            }
        }
        assert forall|id: u128| #[trigger] s.parent_events.contains(id) implies (
        start.parent_events.contains(id) || exists|i: int|
            0 <= i < n && parents.contains((#[trigger] batch[i]).workflow_id) && batch[i].event_id
                == id) by {
            if before.parent_events.contains(id) {
                if !start.parent_events.contains(id) {
                    let i = choose|i: int|
                        0 <= i < n - 1 && parents.contains((#[trigger] batch[i]).workflow_id)
                            && batch[i].event_id == id;
                    assert(parents.contains(batch[i].workflow_id));
                }
            } else {
                assert(parents.contains(batch[n - 1].workflow_id));
            }
        }
    } else {
        assert(all.take(0) =~= Seq::<Trace>::empty());
    }
}

/// A batch adds to a scan exactly the children that a parent caused. A workflow
/// is among the children after it only if it was before, or if it is no parent
/// and an event of it in the batch was caused by an event of a parent that
/// stands before that event; and every such workflow is. Its position is the
/// furthest of those events. Events of the parents, and no others, are noted
/// as causes.
pub proof fn law_batches_add_caused_children(
    scan: &mut ChildScan,
    parents: &HashSet<u128>,
    batch: &Vec<RecordedEvent>,
    more: bool,
)
    requires
        call_ensures(ChildScan::on_batch, (scan, parents, batch), more),
    ensures
        more <==> batch@.len() > 0,
        batch@.len() > 0 ==> final(scan).from() == batch@.last().position,
        batch@.len() == 0 ==> final(scan).from() == old(scan).from(),
        forall|wf: u128| #[trigger]
            final(scan)@.children.contains_key(wf) ==> (old(scan)@.children.contains_key(wf)
                && final(scan)@.children[wf] == old(scan)@.children[wf]) || exists|j: int|
                {
                    &&& 0 <= j < batch@.len()
                    &&& (#[trigger] batch@[j]).workflow_id == wf
                    &&& !parents@.contains(wf)
                    &&& caused_by_parent(parents@, old(scan)@.parent_events, batch@, j)
                    &&& final(scan)@.children[wf] == batch@[j].position
                },
        forall|wf: u128| #[trigger]
            old(scan)@.children.contains_key(wf) ==> final(scan)@.children.contains_key(wf)
                && final(scan)@.children[wf].0 >= old(scan)@.children[wf].0,
        forall|j: int|
            0 <= j < batch@.len() && !parents@.contains((#[trigger] batch@[j]).workflow_id)
                && caused_by_parent(parents@, old(scan)@.parent_events, batch@, j)
                ==> final(scan)@.children.contains_key(batch@[j].workflow_id)
                && final(scan)@.children[batch@[j].workflow_id].0 >= batch@[j].position.0,
        forall|id: u128| #[trigger]
            final(scan)@.parent_events.contains(id) <==> old(scan)@.parent_events.contains(id)
                || exists|i: int|
                0 <= i < batch@.len() && parents@.contains((#[trigger] batch@[i]).workflow_id)
                    && batch@[i].event_id == id,
{
    let n = batch@.len() as int;
    lemma_scan_is_by_cause(parents@, batch@, old(scan)@, n);
    assert(traces(batch@).take(n) =~= traces(batch@));
}

/// Whether event `j` of a log was caused by an event of a parent that stands
/// before it.
pub open spec fn caused_before(parents: Set<u128>, log: Seq<RecordedEvent>, j: int) -> bool {
    exists|i: int|
        0 <= i < j && parents.contains((#[trigger] log[i]).workflow_id) && log[j].causation_id
            == Some(log[i].event_id)
}

/// The children of a log are exactly the workflows that a parent caused: a
/// workflow is among them only if it is no parent and some event of it has as
/// its cause the id of an event of a parent that stands before it, and every
/// such workflow is. Its position is that of such an event, and of the
/// furthest of them.
pub proof fn law_children_are_caused(
    parents: Set<u128>,
    log: Seq<RecordedEvent>,
    scan: ChildScan,
    list: Vec<EmitResult>,
)
    requires
        scan@ == scan_all(
            parents,
            traces(log),
            ScanView { parent_events: Set::empty(), children: Map::empty() },
        ),
        call_ensures(ChildScan::finish, (scan,), list),
    ensures
        forall|k: int|
            0 <= k < list@.len() ==> !parents.contains((#[trigger] list@[k]).workflow_id) && exists|
                j: int,
            |
                {
                    &&& 0 <= j < log.len()
                    &&& (#[trigger] log[j]).workflow_id == list@[k].workflow_id
                    &&& log[j].position == list@[k].position
                    &&& caused_before(parents, log, j)
                },
        forall|j: int|
            0 <= j < log.len() && !parents.contains((#[trigger] log[j]).workflow_id)
                && caused_before(parents, log, j) ==> exists|k: int|
                {
                    &&& 0 <= k < list@.len()
                    &&& (#[trigger] list@[k]).workflow_id == log[j].workflow_id
                    &&& list@[k].position.0 >= log[j].position.0
                },
        forall|a: int, b: int|
            0 <= a < b < list@.len() ==> (#[trigger] list@[a]).workflow_id != (
            #[trigger] list@[b]).workflow_id,
{
    let start = ScanView { parent_events: Set::<u128>::empty(), children: Map::empty() };
    let n = log.len() as int;
    lemma_scan_is_by_cause(parents, log, start, n);
    assert(traces(log).take(n) =~= traces(log));
    assert forall|j: int| 0 <= j < n implies (caused_before(parents, log, j)
        <==> #[trigger] caused_by_parent(parents, start.parent_events, log, j)) by {
        if caused_by_parent(parents, start.parent_events, log, j) {
            let cause = log[j].causation_id->0;
            let i = choose|i: int|
                0 <= i < j && parents.contains((#[trigger] log[i]).workflow_id) && log[i].event_id
                    == cause;
            assert(log[j].causation_id == Some(log[i].event_id));
        }
    }
    assert forall|k: int| 0 <= k < list@.len() implies !parents.contains(
        (#[trigger] list@[k]).workflow_id,
    ) && exists|j: int|
        {
            &&& 0 <= j < log.len()
            &&& (#[trigger] log[j]).workflow_id == list@[k].workflow_id
            &&& log[j].position == list@[k].position
            &&& caused_before(parents, log, j)
        } by {
        let wf = list@[k].workflow_id;
        assert(high_water(scan@.children, wf) == Some(list@[k].position));
        assert(scan@.children.contains_key(wf));
        let j = choose|j: int|
            {
                &&& 0 <= j < n
                &&& (#[trigger] log[j]).workflow_id == wf
                &&& !parents.contains(wf)
                &&& caused_by_parent(parents, start.parent_events, log, j)
                &&& scan@.children[wf] == log[j].position
            };
        assert(log[j].workflow_id == wf);
    }
    assert forall|j: int|
        0 <= j < log.len() && !parents.contains((#[trigger] log[j]).workflow_id) && caused_before(
            parents,
            log,
            j,
        ) implies exists|k: int|
        {
            &&& 0 <= k < list@.len()
            &&& (#[trigger] list@[k]).workflow_id == log[j].workflow_id
            &&& list@[k].position.0 >= log[j].position.0
        } by {
        assert(caused_by_parent(parents, start.parent_events, log, j));
        assert(scan@.children.contains_key(log[j].workflow_id));
        assert(found(list@, log[j].workflow_id));
        let k = choose|k: int|
            0 <= k < list@.len() && (#[trigger] list@[k]).workflow_id == log[j].workflow_id;
        assert(high_water(scan@.children, list@[k].workflow_id) == Some(list@[k].position));
    }
}

/// It does not matter where a log is cut into batches: scanning one part and
/// then the other finds what scanning the whole does.
pub proof fn law_scans_continue(
    parents: Set<u128>,
    first: Seq<RecordedEvent>,
    second: Seq<RecordedEvent>,
    start: ScanView,
)
    ensures
        scan_all(parents, traces(second), scan_all(parents, traces(first), start)) == scan_all(
            parents,
            traces(first + second),
            start,
        ),
    decreases second.len(),
{
    if second.len() == 0 {
        assert(first + second =~= first);
    } else {
        law_scans_continue(parents, first, second.drop_last(), start);
        assert(traces(second).drop_last() =~= traces(second.drop_last()));
        assert(traces(first + second).drop_last() =~= traces(first + second.drop_last()));
        assert(traces(first + second).last() == second.last().trace());
    }
}

/// A wait begins at the furthest position of the workflow's chain, and at the
/// emit's own where that is further or no chain is tracked.
pub proof fn law_waits_begin_at_the_furthest(
    tracker: &SettleTracker,
    result: EmitResult,
    hw: LogCursor,
)
    requires
        call_ensures(settle_target, (tracker, result), hw),
    ensures
        hw.0 >= result.position.0,
        tracker@.contains_key(result.workflow_id) ==> hw.0 >= tracker@[result.workflow_id].0,
        hw == result.position || (tracker@.contains_key(result.workflow_id) && hw
            == tracker@[result.workflow_id]),
{
}

/// A wait is over exactly where consumers have been drained as far as the
/// workflow's chain has gone by now: to the furthest position tracked for it
/// and to the emit's own, or only past the latter where the workflow is no
/// longer tracked. Else it goes on to just that position. Only a wait that is
/// over stops the tracking, and of no other workflow.
pub proof fn law_waits_end_at_the_furthest(
    tracker: &mut SettleTracker,
    result: EmitResult,
    hw: LogCursor,
    step: SettleStep,
)
    requires
        call_ensures(settle, (tracker, result, hw), step),
    ensures
        ({
            let wf = result.workflow_id;
            let own = result.position.0;
            let marks = old(tracker)@;
            let furthest: int = if marks.contains_key(wf) {
                if marks[wf].0 > own {
                    marks[wf].0 as int
                } else {
                    own as int
                }
            } else if hw.0 > own {
                hw.0 as int
            } else {
                own as int
            };
            &&& step is Done <==> hw.0 == furthest
            &&& step matches SettleStep::Again { hw: next } ==> next.0 == furthest
            &&& step is Again ==> final(tracker)@ == marks
            &&& step is Done ==> !final(tracker)@.contains_key(wf)
            &&& forall|other: u128|
                other != wf ==> (#[trigger] final(tracker)@.contains_key(other)
                    <==> marks.contains_key(other)) && (marks.contains_key(other)
                    ==> final(tracker)@[other] == marks[other])
        }),
{
}

/// A position that is recorded is kept until a further one comes: afterwards
/// the workflow is tracked at the further of the two. A workflow is only given
/// up for a new one in a full tracker, and then one alone.
pub proof fn law_bumps_only_rise(
    tracker: &mut SettleTracker,
    wf: u128,
    pos: LogCursor,
)
    requires
        call_ensures(SettleTracker::bump, (tracker, wf, pos), ()),
    ensures
        final(tracker)@.contains_key(wf),
        final(tracker)@[wf].0 >= pos.0,
        old(tracker)@.contains_key(wf) ==> final(tracker)@[wf].0 >= old(tracker)@[wf].0 && (
        final(tracker)@[wf] == pos || final(tracker)@[wf] == old(tracker)@[wf]),
        !old(tracker)@.contains_key(wf) ==> final(tracker)@[wf] == pos,
        forall|other: u128| #[trigger]
            final(tracker)@.contains_key(other) && other != wf ==> old(tracker)@.contains_key(other)
                && final(tracker)@[other] == old(tracker)@[other],
        old(tracker)@.contains_key(wf) || old(tracker)@.dom().len() < 65536 ==> forall|other: u128|
            #[trigger] old(tracker)@.contains_key(other) ==> final(tracker)@.contains_key(other),
        old(tracker)@.dom().len() <= 65536 ==> final(tracker)@.dom().len() <= 65536,
        forall|a: u128, b: u128|
            old(tracker)@.contains_key(a) && old(tracker)@.contains_key(b) && a != b ==> (
            #[trigger] final(tracker)@.contains_key(a)) || (
            #[trigger] final(tracker)@.contains_key(b)),
{
}

/// Each workflow of a tree is settled at most once, and a tree is only done
/// with when every workflow in the queue was settled: the one handed out waits
/// in the queue and was not settled, is so from now on, and no other is; none
/// that was not settled leaves the queue without being handed out.
pub proof fn law_tree_settles_each_once(tree: &mut TreeSettle, next: Option<EmitResult>)
    requires
        call_ensures(TreeSettle::next_workflow, (tree,), next),
    ensures
        forall|wf: u128| #[trigger]
            final(tree).settled@.contains(wf) <==> old(tree).settled@.contains(wf) || (
            next matches Some(r) && r.workflow_id == wf),
        next matches Some(r) ==> !old(tree).settled@.contains(r.workflow_id) && old(tree).queue@.contains(r),
        forall|m: int|
            0 <= m < old(tree).queue@.len() ==> final(tree).settled@.contains(
                (#[trigger] old(tree).queue@[m]).workflow_id,
            ) || final(tree).queue@.contains(old(tree).queue@[m]),
        next is None <==> forall|m: int|
            0 <= m < old(tree).queue@.len() ==> old(tree).settled@.contains(
                (#[trigger] old(tree).queue@[m]).workflow_id,
            ),
{
    if let Some(r) = next {
        let n = choose|n: int|
            {
                &&& 0 <= n < old(tree).queue@.len()
                &&& #[trigger] old(tree).queue@[n] == r
                &&& final(tree).queue@ == old(tree).queue@.take(n)
                &&& forall|m: int|
                    n < m < old(tree).queue@.len() ==> old(tree).settled@.contains(
                        (#[trigger] old(tree).queue@[m]).workflow_id,
                    )
            };
        assert forall|m: int| 0 <= m < old(tree).queue@.len() implies final(tree).settled@.contains((#[trigger] old(tree).queue@[m]).workflow_id) || final(tree).queue@.contains(old(tree).queue@[m]) by {
            if m < n {
                assert(final(tree).queue@[m] == old(tree).queue@[m]);
            }
        }
    }
}

/// Children join the queue, all of them and nothing else, and settle nothing;
/// a tree is done with a round exactly where it found none.
pub proof fn law_children_join_the_queue(
    tree: &mut TreeSettle,
    children: Vec<EmitResult>,
    done: bool,
)
    requires
        call_ensures(TreeSettle::on_children, (tree, children), done),
    ensures
        done <==> children@.len() == 0,
        final(tree).settled@ == old(tree).settled@,
        final(tree).queue@.len() == old(tree).queue@.len() + children@.len(),
        forall|i: int|
            0 <= i < old(tree).queue@.len() ==> #[trigger] final(tree).queue@[i]
                == old(tree).queue@[i],
        forall|i: int|
            0 <= i < children@.len() ==> final(tree).queue@[old(tree).queue@.len() + i]
                == #[trigger] children@[i],
{
}

/// A consumer has passed a position exactly where its cursor stands at or
/// beyond it.
pub proof fn law_observed_means_passed(cursor: Option<LogCursor>, pos: LogCursor, observed: bool)
    requires
        call_ensures(is_observed, (cursor, pos), observed),
    ensures
        observed <==> (cursor matches Some(c) && c.0 >= pos.0),
{
}

/// What is forgotten of a workflow is forgotten of no other: its mark is gone,
/// and every other reads as before.
pub proof fn law_forgetting_is_by_workflow(
    before: &SettleTracker,
    tracker: &mut SettleTracker,
    wf: u128,
    other: u128,
    had: Option<LogCursor>,
)
    requires
        *before == *old(tracker),
        call_ensures(SettleTracker::forget, (tracker, wf), ()),
        call_ensures(SettleTracker::get, (before, other), had),
    ensures
        !final(tracker)@.contains_key(wf),
        other != wf ==> (final(tracker)@.contains_key(other) <==> had is Some) && (had matches Some(
            at,
        ) ==> final(tracker)@[other] == at),
{
}

} // verus!
