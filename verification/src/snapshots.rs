//! Which states are due for saving, and what a fold reports of the states it
//! touched.

use vstd::prelude::*;
use vstd::string::StrSliceExecFns;

use crate::aggregator::{AggregatorView, FoldFns};
use crate::ids::{id_chars, id_parse, parsed_id};
use crate::json::{Json, JsonView};
use crate::registry::{first_of_type, lemma_first_of_type, AggregatorRegistry};
use crate::state_table::Entry;
use crate::transitions::{state_key, TransitionSnapshots};
use crate::types::{Snapshot, StreamRevision, Timestamp};

verus! {

/// Where the first colon of a text stands.
pub open spec fn is_first_colon(text: Seq<char>, i: int) -> bool {
    0 <= i < text.len() && text[i] == ':' && forall|j: int| 0 <= j < i ==> text[j] != ':'
}

/// The part of a key before its first colon; the whole key where it has none.
pub open spec fn key_type(key: Seq<char>) -> Seq<char> {
    if exists|i: int| is_first_colon(key, i) {
        key.take(choose|i: int| is_first_colon(key, i))
    } else {
        key
    }
}

/// The part of a key behind its first colon.
pub open spec fn key_rest(key: Seq<char>) -> Option<Seq<char>> {
    if exists|i: int| is_first_colon(key, i) {
        Some(key.skip((choose|i: int| is_first_colon(key, i)) + 1))
    } else {
        None
    }
}

proof fn lemma_split(key: Seq<char>, i: int)
    requires
        is_first_colon(key, i),
    ensures
        key_type(key) == key.take(i),
        key_rest(key) == Some(key.skip(i + 1)),
{
    let c = choose|c: int| is_first_colon(key, c);
    assert(is_first_colon(key, c));
    assert(c == i) by {
        if c < i {
            assert(key[c] != ':');
        } else if i < c {
            assert(key[i] != ':');
        }
    }
}

/// A key of a type whose name has no colon splits into that type and the text
/// of its id.
pub proof fn lemma_state_key_splits(aggregate_type: Seq<char>, id: u128)
    requires
        !aggregate_type.contains(':'),
    ensures
        key_type(state_key(aggregate_type, id)) == aggregate_type,
        key_rest(state_key(aggregate_type, id)) == Some(id_chars(id)),
{
    reveal_strlit(":");
    let key = state_key(aggregate_type, id);
    let i = aggregate_type.len() as int;
    assert(key[i] == ':');
    assert forall|j: int| 0 <= j < i implies key[j] != ':' by {
        assert(key[j] == aggregate_type[j]);
        assert(aggregate_type.contains(aggregate_type[j]));
    }
    lemma_split(key, i);
    assert(key.take(i) =~= aggregate_type);
    assert(key.skip(i + 1) =~= id_chars(id));
}

/// Splits a key at its first colon.
fn split_key(key: &str) -> (parts: (&str, Option<&str>))
    ensures
        parts.0@ == key_type(key@),
        match parts.1 {
            Some(rest) => key_rest(key@) == Some(rest@),
            None => key_rest(key@) is None,
        },
{
    let n = key.unicode_len();
    let mut i: usize = 0;
    while i < n
        invariant
            n == key@.len(),
            i <= n,
            forall|j: int| 0 <= j < i ==> key@[j] != ':',
        decreases n - i,
    {
        if key.get_char(i) == ':' {
            proof {
                lemma_split(key@, i as int);
                assert(key@.subrange(0, i as int) =~= key@.take(i as int));
                assert(key@.subrange(i + 1, n as int) =~= key@.skip(i + 1));
            }
            return (key.substring_char(0, i), Some(key.substring_char(i + 1, n)));
        }
        i += 1;
    }
    (key, None)
}

/// A stored state, as mathematics.
pub struct SnapshotView {
    pub aggregate_type: Seq<char>,
    pub aggregate_id: u128,
    pub revision: StreamRevision,
    pub state: JsonView,
    pub created_at: Timestamp,
}

impl View for Snapshot {
    type V = SnapshotView;

    open spec fn view(&self) -> SnapshotView {
        SnapshotView {
            aggregate_type: self.aggregate_type@,
            aggregate_id: self.aggregate_id,
            revision: self.revision,
            state: self.state@,
            created_at: self.created_at,
        }
    }
}

/// Subtraction that stops at zero.
pub open spec fn less(a: u64, b: u64) -> u64 {
    if a > b {
        (a - b) as u64
    } else {
        0
    }
}

/// The snapshot that is due for a key: the aggregate is restorable, its state
/// is held and serializes, and at least `every` events were folded since it
/// was last saved. It carries the revision of the last event folded.
pub open spec fn due<B: FoldFns>(
    aggs: Seq<AggregatorView<B>>,
    table: Map<Seq<char>, Entry<B::State>>,
    every: u64,
    now: Timestamp,
    key: Seq<char>,
) -> Option<SnapshotView> {
    let id = match key_rest(key) {
        Some(rest) => parsed_id(rest),
        None => None,
    };
    let first = first_of_type(aggs, key_type(key));
    if every == 0 || id is None || first is None || !table.contains_key(key) {
        None
    } else {
        let agg = aggs[first->0];
        let marks = table[key].marks;
        if less(marks.version.0, marks.snapshot_at.0) < every || agg.subject.len() == 0 {
            None
        } else {
            match agg.fns.serialized(table[key].state) {
                Some(state) => Some(
                    SnapshotView {
                        aggregate_type: key_type(key),
                        aggregate_id: id->0,
                        revision: StreamRevision(less(marks.version.0, 1)),
                        state,
                        created_at: now,
                    },
                ),
                None => None,
            }
        }
    }
}

/// A snapshot to be saved. Once it is, the registry is told that `key` was
/// saved at `version`.
pub struct DueSnapshot {
    pub key: String,
    pub version: StreamRevision,
    pub snapshot: Snapshot,
}

/// The snapshot that is due for a key. For a key of a type whose name has no
/// colon it is that type's, and of the id in the key.
pub fn due_snapshot<B: FoldFns>(
    reg: &AggregatorRegistry<B>,
    snapshot_every: u64,
    now: Timestamp,
    key: &str,
) -> (r: Option<DueSnapshot>)
    requires
        reg.wf(),
    ensures
        match r {
            Some(d) => due(reg.aggs(), reg.table(), snapshot_every, now, key@) == Some(d.snapshot@)
                && d.key@ == key@ && d.version == reg.table()[key@].marks.version,
            None => due(reg.aggs(), reg.table(), snapshot_every, now, key@) is None,
        },
        forall|t: Seq<char>, id: u128|
            r is Some && key@ == #[trigger] state_key(t, id) && !t.contains(':')
                ==> r->0.snapshot@.aggregate_type == t && r->0.snapshot@.aggregate_id == id,
{
    if snapshot_every == 0 {
        return None;
    }
    let (aggregate_type, rest) = split_key(key);
    let id = match rest {
        Some(text) => match id_parse(text) {
            Some(id) => id,
            None => {
                return None;
            },
        },
        None => {
            return None;
        },
    };
    let version = reg.get_version(key);
    let snapshot_at = reg.get_snapshot_at_version(key);
    if version.raw().saturating_sub(snapshot_at.raw()) < snapshot_every {
        return None;
    }
    let agg = match reg.find_first_by_aggregate_type(aggregate_type) {
        Some(agg) => agg,
        None => {
            return None;
        },
    };
    if agg.subject.as_str().is_empty() {
        return None;
    }
    let state = match reg.get_state(key) {
        Some(state) => state,
        None => {
            return None;
        },
    };
    let state_json = match agg.fns.serialize_state(state) {
        Ok(json) => json,
        Err(_) => {
            return None;
        },
    };
    proof {
        assert forall|t: Seq<char>, x: u128|
            key@ == #[trigger] state_key(t, x) && !t.contains(':') implies aggregate_type@ == t && id
            == x by {
            lemma_state_key_splits(t, x);
        }
    }
    Some(
        DueSnapshot {
            key: key.to_owned(),
            version,
            snapshot: Snapshot {
                aggregate_type: aggregate_type.to_owned(),
                aggregate_id: id,
                revision: StreamRevision::from_raw(version.raw().saturating_sub(1)),
                state: state_json,
                created_at: now,
            },
        },
    )
}

/// Whether a list holds the snapshot of a key.
pub open spec fn is_saved(list: Seq<DueSnapshot>, key: Seq<char>) -> bool {
    exists|i: int| 0 <= i < list.len() && (#[trigger] list[i]).key@ == key
}

/// Whether a list holds a snapshot of every touched aggregate that is due for
/// one.
pub open spec fn all_due_saved<B: FoldFns>(
    reg: AggregatorRegistry<B>,
    snapshot_every: u64,
    touched: Map<Seq<char>, (B::State, B::State)>,
    now: Timestamp,
    list: Seq<DueSnapshot>,
) -> bool {
    forall|k: Seq<char>| #[trigger]
        touched.contains_key(k) && due(reg.aggs(), reg.table(), snapshot_every, now, k) is Some
            ==> is_saved(list, k)
}

/// The snapshots due among the states that a fold touched: exactly those, each
/// once, in no particular order.
pub fn maybe_save_snapshots<B: FoldFns>(
    reg: &AggregatorRegistry<B>,
    snapshot_every: u64,
    snapshots: &TransitionSnapshots<B::State>,
    now: Timestamp,
) -> (list: Vec<DueSnapshot>)
    requires
        reg.wf(),
        snapshots.wf(),
    ensures
        forall|i: int|
            0 <= i < list@.len() ==> snapshots@.contains_key((#[trigger] list@[i]).key@) && due(
                reg.aggs(),
                reg.table(),
                snapshot_every,
                now,
                list@[i].key@,
            ) == Some(list@[i].snapshot@) && list@[i].version
                == reg.table()[list@[i].key@].marks.version,
        forall|k: Seq<char>| #[trigger]
            snapshots@.contains_key(k) && due(reg.aggs(), reg.table(), snapshot_every, now, k)
                is Some ==> is_saved(list@, k),
        all_due_saved(*reg, snapshot_every, snapshots@, now, list@),
        forall|i: int, j: int|
            0 <= i < j < list@.len() ==> (#[trigger] list@[i]).key@ != (#[trigger] list@[j]).key@,
{
    let pairs = snapshots.iter();
    let mut list: Vec<DueSnapshot> = Vec::new();
    let mut i: usize = 0;
    while i < pairs.len()
        invariant
            i <= pairs@.len(),
            reg.wf(),
            forall|a: int, b: int|
                0 <= a < b < pairs@.len() ==> (#[trigger] pairs@[a]).0@ != (#[trigger] pairs@[b]).0@,
            forall|a: int|
                0 <= a < pairs@.len() ==> snapshots@.contains_key((#[trigger] pairs@[a]).0@),
            forall|a: int|
                0 <= a < list@.len() ==> snapshots@.contains_key((#[trigger] list@[a]).key@) && due(
                    reg.aggs(),
                    reg.table(),
                    snapshot_every,
                    now,
                    list@[a].key@,
                ) == Some(list@[a].snapshot@) && list@[a].version
                    == reg.table()[list@[a].key@].marks.version && exists|j: int|
                    0 <= j < i && (#[trigger] pairs@[j]).0@ == list@[a].key@,
            forall|j: int|
                0 <= j < i && due(
                    reg.aggs(),
                    reg.table(),
                    snapshot_every,
                    now,
                    (#[trigger] pairs@[j]).0@,
                ) is Some ==> is_saved(list@, pairs@[j].0@),
            forall|a: int, b: int|
                0 <= a < b < list@.len() ==> (#[trigger] list@[a]).key@ != (
                #[trigger] list@[b]).key@,
        decreases pairs@.len() - i,
    {
        let key = pairs[i].0;
        let ghost was = list@;
        match due_snapshot(reg, snapshot_every, now, key) {
            Some(d) => {
                list.push(d);
                proof {
                    assert(list@[was.len() as int].key@ == key@);
                    assert forall|x: Seq<char>| #[trigger] is_saved(was, x) implies is_saved(
                        list@,
                        x,
                    ) by {
                        let a = choose|a: int| 0 <= a < was.len() && (#[trigger] was[a]).key@ == x;
                        assert(list@[a].key@ == x);
                    }
                    assert forall|a: int, b: int| 0 <= a < b < list@.len() implies (
                    #[trigger] list@[a]).key@ != (#[trigger] list@[b]).key@ by {
                        if b < was.len() {
                            assert(was[a].key@ != was[b].key@);
                        } else {
                            assert(list@[a] == was[a]);
                            let j = choose|j: int|
                                0 <= j < i && (#[trigger] pairs@[j]).0@ == was[a].key@;
                            assert(pairs@[j].0@ != pairs@[i as int].0@);
                        }
                    }
                }
            },
            None => {},
        }
        i += 1;
    }
    proof {
        assert forall|k: Seq<char>| #[trigger]
            snapshots@.contains_key(k) && due(reg.aggs(), reg.table(), snapshot_every, now, k)
                is Some implies is_saved(list@, k) by {
            let j = choose|j: int| 0 <= j < pairs@.len() && (#[trigger] pairs@[j]).0@ == k;
            assert(pairs@[j].0@ == k);
        }
    }
    list
}

/// What an observer is told of one folded state.
pub struct FoldNotice {
    pub key: String,
    pub state: Json,
}

/// What is reported of a touched state: its JSON form, where its type is
/// registered and it has one.
pub open spec fn notice_of<B: FoldFns>(
    aggs: Seq<AggregatorView<B>>,
    key: Seq<char>,
    next: B::State,
) -> Option<JsonView> {
    match first_of_type(aggs, key_type(key)) {
        Some(i) => aggs[i].fns.serialized(next),
        None => None,
    }
}

/// Whether a list reports a key.
pub open spec fn is_noticed(list: Seq<FoldNotice>, key: Seq<char>) -> bool {
    exists|i: int| 0 <= i < list.len() && (#[trigger] list[i]).key@ == key
}

impl<B: FoldFns> AggregatorRegistry<B> {
    /// What an observer is to be told of the states that a fold touched: each that
    /// has a report, once, in no particular order.
    pub fn notify_observer(
        &self,
        snapshots: &TransitionSnapshots<B::State>,
    ) -> (list: Vec<FoldNotice>)
        requires
            snapshots.wf(),
        ensures
            forall|i: int|
                0 <= i < list@.len() ==> snapshots@.contains_key((#[trigger] list@[i]).key@)
                    && notice_of(self.aggs(), list@[i].key@, snapshots@[list@[i].key@].1) == Some(
                    list@[i].state@,
                ),
            forall|k: Seq<char>| #[trigger]
                snapshots@.contains_key(k) && notice_of(self.aggs(), k, snapshots@[k].1) is Some
                    ==> is_noticed(list@, k),
            forall|i: int, j: int|
                0 <= i < j < list@.len() ==> (#[trigger] list@[i]).key@ != (#[trigger] list@[j]).key@,
    {
        let pairs = snapshots.iter();
        let mut list: Vec<FoldNotice> = Vec::new();
        let mut i: usize = 0;
        while i < pairs.len()
            invariant
                i <= pairs@.len(),
                forall|a: int, b: int|
                    0 <= a < b < pairs@.len() ==> (#[trigger] pairs@[a]).0@ != (#[trigger] pairs@[b]).0@,
                forall|a: int|
                    0 <= a < pairs@.len() ==> snapshots@.contains_key((#[trigger] pairs@[a]).0@)
                        && snapshots@[pairs@[a].0@].1 == *pairs@[a].2,
                forall|a: int|
                    0 <= a < list@.len() ==> snapshots@.contains_key((#[trigger] list@[a]).key@)
                        && notice_of(self.aggs(), list@[a].key@, snapshots@[list@[a].key@].1) == Some(
                        list@[a].state@,
                    ) && exists|j: int| 0 <= j < i && (#[trigger] pairs@[j]).0@ == list@[a].key@,
                forall|j: int|
                    0 <= j < i && notice_of(
                        self.aggs(),
                        (#[trigger] pairs@[j]).0@,
                        snapshots@[pairs@[j].0@].1,
                    ) is Some ==> is_noticed(list@, pairs@[j].0@),
                forall|a: int, b: int|
                    0 <= a < b < list@.len() ==> (#[trigger] list@[a]).key@ != (
                    #[trigger] list@[b]).key@,
            decreases pairs@.len() - i,
        {
            let key = pairs[i].0;
            let ghost was = list@;
            let (aggregate_type, _) = split_key(key);
            if let Some(agg) = self.find_first_by_aggregate_type(aggregate_type) {
                match agg.fns.serialize_state(pairs[i].2) {
                    Ok(state) => {
                        list.push(FoldNotice { key: key.to_owned(), state });
                        proof {
                            assert(list@[was.len() as int].key@ == key@);
                            assert forall|x: Seq<char>| #[trigger] is_noticed(was, x) implies is_noticed(
                                list@,
                                x,
                            ) by {
                                let a = choose|a: int|
                                    0 <= a < was.len() && (#[trigger] was[a]).key@ == x;
                                assert(list@[a].key@ == x);
                            }
                            assert forall|a: int, b: int| 0 <= a < b < list@.len() implies (
                            #[trigger] list@[a]).key@ != (#[trigger] list@[b]).key@ by {
                                if b < was.len() {
                                    assert(was[a].key@ != was[b].key@);
                                } else {
                                    assert(list@[a] == was[a]);
                                    let j = choose|j: int|
                                        0 <= j < i && (#[trigger] pairs@[j]).0@ == was[a].key@;
                                    assert(pairs@[j].0@ != pairs@[i as int].0@);
                                }
                            }
                        }
                    },
                    Err(_) => {},
                }
            }
            i += 1;
        }
        proof {
            assert forall|k: Seq<char>| #[trigger]
                snapshots@.contains_key(k) && notice_of(self.aggs(), k, snapshots@[k].1) is Some implies
                is_noticed(list@, k) by {
                let j = choose|j: int| 0 <= j < pairs@.len() && (#[trigger] pairs@[j]).0@ == k;
                assert(pairs@[j].0@ == k);
            }
        }
        list
    }
}

/// Once a due snapshot is saved, the key is not due again until `every` more
/// events were folded.
pub proof fn law_saved_is_not_due<B: FoldFns>(
    aggs: Seq<AggregatorView<B>>,
    table: Map<Seq<char>, Entry<B::State>>,
    every: u64,
    now: Timestamp,
    key: Seq<char>,
)
    requires
        due(aggs, table, every, now, key) is Some,
    ensures
        due(
            aggs,
            crate::registry::saved_at(table, key, table[key].marks.version),
            every,
            now,
            key,
        ) is None,
{
}

/// A state is saved exactly where saving is on, its aggregate can be restored,
/// it is held, at least as many events were folded since it was last saved as
/// make it due, and it has a JSON form. What is saved is that form, of the type
/// and id in its key, at the revision of the last event folded into it.
pub proof fn law_due_states_are_saved<B: FoldFns>(
    reg: &AggregatorRegistry<B>,
    every: u64,
    now: Timestamp,
    key: &str,
    r: Option<DueSnapshot>,
    aggregate_type: Seq<char>,
    id: u128,
    j: int,
)
    requires
        call_ensures(due_snapshot::<B>, (reg, every, now, key), r),
        key@ == aggregate_type + ":"@ + id_chars(id),
        !aggregate_type.contains(':'),
        parsed_id(id_chars(id)) == Some(id),
        0 <= j < reg.aggs().len(),
        reg.aggs()[j].aggregate_type == aggregate_type,
        forall|k: int|
            0 <= k < j ==> (#[trigger] reg.aggs()[k]).aggregate_type != aggregate_type,
    ensures
        ({
            let agg = reg.aggs()[j];
            let held = reg.table()[key@];
            let form = agg.fns.serialized(held.state);
            &&& r is Some <==> every > 0 && reg.table().contains_key(key@) && agg.subject.len() > 0
                && held.marks.version.0 - held.marks.snapshot_at.0 >= every && form is Some
            &&& r matches Some(due) ==> {
                &&& due.key@ == key@
                &&& due.version == held.marks.version
                &&& due.snapshot.aggregate_type@ == aggregate_type
                &&& due.snapshot.aggregate_id == id
                &&& due.snapshot.revision.0 == held.marks.version.0 - 1
                &&& Some(due.snapshot.state@) == form
                &&& due.snapshot.created_at == now
            }
        }),
{
    lemma_state_key_splits(aggregate_type, id);
    lemma_first_of_type(reg.aggs(), aggregate_type);
}

/// Of the states that a fold touched exactly those that are due are saved, each
/// once, and as each is due on its own.
pub proof fn law_touched_states_are_saved_once<B: FoldFns>(
    reg: &AggregatorRegistry<B>,
    every: u64,
    snapshots: &TransitionSnapshots<B::State>,
    now: Timestamp,
    list: Vec<DueSnapshot>,
    key: &str,
    due: Option<DueSnapshot>,
)
    requires
        call_ensures(maybe_save_snapshots::<B>, (reg, every, snapshots, now), list),
        call_ensures(due_snapshot::<B>, (reg, every, now, key), due),
    ensures
        forall|i: int|
            0 <= i < list@.len() && (#[trigger] list@[i]).key@ == key@ ==> snapshots@.contains_key(
                key@,
            ) && (due matches Some(d) && list@[i].version == d.version && list@[i].snapshot@
                == d.snapshot@),
        snapshots@.contains_key(key@) && due is Some ==> exists|i: int|
            0 <= i < list@.len() && (#[trigger] list@[i]).key@ == key@,
        forall|i: int, j: int|
            0 <= i < j < list@.len() ==> (#[trigger] list@[i]).key@ != (#[trigger] list@[j]).key@,
{
    if snapshots@.contains_key(key@) && due is Some {
        assert(is_saved(list@, key@));
    }
}

/// An observer is told of every state that a fold touched whose aggregate is
/// registered and that has a JSON form: that form, of the state after the
/// fold, once.
pub proof fn law_observers_are_told_the_new_state<B: FoldFns>(
    reg: &AggregatorRegistry<B>,
    snapshots: &TransitionSnapshots<B::State>,
    list: Vec<FoldNotice>,
    aggregate_type: Seq<char>,
    id: u128,
    j: int,
)
    requires
        call_ensures(AggregatorRegistry::<B>::notify_observer, (reg, snapshots), list),
        !aggregate_type.contains(':'),
        0 <= j < reg.aggs().len(),
        reg.aggs()[j].aggregate_type == aggregate_type,
        forall|k: int|
            0 <= k < j ==> (#[trigger] reg.aggs()[k]).aggregate_type != aggregate_type,
    ensures
        ({
            let key = state_key(aggregate_type, id);
            let form = reg.aggs()[j].fns.serialized(snapshots@[key].1);
            &&& (exists|i: int| 0 <= i < list@.len() && (#[trigger] list@[i]).key@ == key)
                <==> snapshots@.contains_key(key) && form is Some
            &&& forall|i: int|
                0 <= i < list@.len() && (#[trigger] list@[i]).key@ == key ==> form == Some(
                    list@[i].state@,
                )
        }),
        forall|i: int, k: int|
            0 <= i < k < list@.len() ==> (#[trigger] list@[i]).key@ != (#[trigger] list@[k]).key@,
{
    let key = state_key(aggregate_type, id);
    lemma_state_key_splits(aggregate_type, id);
    lemma_first_of_type(reg.aggs(), aggregate_type);
    if snapshots@.contains_key(key) && notice_of(reg.aggs(), key, snapshots@[key].1) is Some {
        assert(is_noticed(list@, key));
    }
}

} // verus!
