//! The table behind a registry: aggregate states with their fold watermarks,
//! by text key.
//!
//! Watermarks live in a `DashMap` of integers next to the number of the cell
//! that holds the state, so one entry carries a state and its watermarks
//! together.

use dashmap::DashMap;
use vstd::prelude::*;

use crate::types::{LogCursor, StreamRevision};

verus! {

/// The concurrent hash map of the `dashmap` crate.
#[verifier::external_type_specification]
#[verifier::external_body]
#[verifier::reject_recursive_types(K)]
#[verifier::reject_recursive_types(V)]
#[verifier::reject_recursive_types(S)]
pub struct ExDashMap<K, V, S>(DashMap<K, V, S>);

/// What a map of watermark rows holds: cell number, version, last position
/// and snapshot version, by key.
pub uninterp spec fn rows(map: DashMap<String, (usize, u64, u64, u64)>) -> Map<
    Seq<char>,
    (usize, u64, u64, u64),
>;

/// `DashMap::new`: the map is empty.
#[verifier::external_body]
fn rows_new() -> (map: DashMap<String, (usize, u64, u64, u64)>)
    ensures
        rows(map).dom() == Set::<Seq<char>>::empty(),
{
    DashMap::new()
}

/// `DashMap::get`: the row stored under `key`, copied out, or `None` where the
/// key is absent. The lock guard is dropped before this returns.
#[verifier::external_body]
fn rows_get(map: &DashMap<String, (usize, u64, u64, u64)>, key: &str) -> (row: Option<
    (usize, u64, u64, u64),
>)
    ensures
        row == (if rows(*map).contains_key(key@) {
            Some(rows(*map)[key@])
        } else {
            None
        }),
{
    map.get(key).map(|row| *row.value())
}

/// `DashMap::insert`: afterwards `key` holds `row`, and every other key holds
/// what it held before.
#[verifier::external_body]
fn rows_insert(
    map: &mut DashMap<String, (usize, u64, u64, u64)>,
    key: &str,
    row: (usize, u64, u64, u64),
)
    ensures
        rows(*final(map)) == rows(*old(map)).insert(key@, row),
{
    map.insert(key.to_string(), row);
}

/// `DashMap::remove`: afterwards `key` is absent, and every other key holds
/// what it held before.
#[verifier::external_body]
fn rows_remove(map: &mut DashMap<String, (usize, u64, u64, u64)>, key: &str)
    ensures
        rows(*final(map)) == rows(*old(map)).remove(key@),
{
    map.remove(key);
}

/// The fold watermarks of one entry.
#[derive(Clone, Copy, Debug, PartialEq, Eq, Structural)]
pub struct Marks {
    /// The next revision the entry expects of its own stream.
    pub version: StreamRevision,
    /// The log position of the last folded event.
    pub last_pos: LogCursor,
    /// The version at which the last snapshot was taken; zero if never.
    pub snapshot_at: StreamRevision,
}

/// A state with its watermarks.
pub struct Entry<S> {
    pub state: S,
    pub marks: Marks,
}

/// Aggregate states by key.
pub struct StateTable<S> {
    index: DashMap<String, (usize, u64, u64, u64)>,
    cells: Vec<Option<S>>,
    free: Vec<usize>,
}

impl<S> View for StateTable<S> {
    type V = Map<Seq<char>, Entry<S>>;

    closed spec fn view(&self) -> Map<Seq<char>, Entry<S>> {
        Map::new(
            |k: Seq<char>| rows(self.index).contains_key(k),
            |k: Seq<char>|
                Entry {
                    state: self.cells@[rows(self.index)[k].0 as int]->0,
                    marks: Marks {
                        version: StreamRevision(rows(self.index)[k].1),
                        last_pos: LogCursor(rows(self.index)[k].2),
                        snapshot_at: StreamRevision(rows(self.index)[k].3),
                    },
                },
        )
    }
}

impl<S> StateTable<S> {
    /// Every key has a full cell of its own, and the free cells are empty.
    pub closed spec fn wf(&self) -> bool {
        &&& forall|k: Seq<char>| #[trigger]
            rows(self.index).contains_key(k) ==> rows(self.index)[k].0 < self.cells@.len()
                && self.cells@[rows(self.index)[k].0 as int] is Some
        &&& forall|j: Seq<char>, k: Seq<char>| #[trigger]
            rows(self.index).contains_key(j) && #[trigger] rows(self.index).contains_key(k) && j
                != k ==> rows(self.index)[j].0 != rows(self.index)[k].0
        &&& forall|i: int|
            0 <= i < self.free@.len() ==> (#[trigger] self.free@[i]) < self.cells@.len()
                && self.cells@[self.free@[i] as int] is None
        &&& forall|i: int, j: int|
            0 <= i < j < self.free@.len() ==> self.free@[i] != self.free@[j]
    }

    pub fn new() -> (table: Self)
        ensures
            table.wf(),
            table@ == Map::<Seq<char>, Entry<S>>::empty(),
    {
        let table = StateTable { index: rows_new(), cells: Vec::new(), free: Vec::new() };
        assert(table@ =~= Map::<Seq<char>, Entry<S>>::empty());
        table
    }

    /// Whether `key` has an entry.
    pub fn contains(&self, key: &str) -> (present: bool)
        ensures
            present == self@.contains_key(key@),
    {
        rows_get(&self.index, key).is_some()
    }

    /// The watermarks under `key`.
    pub fn marks(&self, key: &str) -> (marks: Option<Marks>)
        ensures
            marks == (if self@.contains_key(key@) {
                Some(self@[key@].marks)
            } else {
                None
            }),
    {
        match rows_get(&self.index, key) {
            Some(row) => Some(
                Marks {
                    version: StreamRevision(row.1),
                    last_pos: LogCursor(row.2),
                    snapshot_at: StreamRevision(row.3),
                },
            ),
            None => None,
        }
    }

    /// The state under `key`.
    pub fn state(&self, key: &str) -> (state: Option<&S>)
        requires
            self.wf(),
        ensures
            match state {
                Some(state) => self@.contains_key(key@) && *state == self@[key@].state,
                None => !self@.contains_key(key@),
            },
    {
        match rows_get(&self.index, key) {
            Some(row) => self.cells[row.0].as_ref(),
            None => None,
        }
    }

    /// Stores `state` with `marks` under `key`, in place of what was there.
    pub fn put(&mut self, key: &str, state: S, marks: Marks)
        requires
            old(self).wf(),
        ensures
            final(self).wf(),
            final(self)@ == old(self)@.insert(key@, (Entry { state, marks })),
    {
        let slot: usize = match rows_get(&self.index, key) {
            Some(row) => {
                self.cells.set(row.0, Some(state));
                row.0
            },
            None => match self.free.pop() {
                Some(slot) => {
                    self.cells.set(slot, Some(state));
                    slot
                },
                None => {
                    let slot = self.cells.len();
                    self.cells.push(Some(state));
                    slot
                },
            },
        };
        rows_insert(
            &mut self.index,
            key,
            (slot, marks.version.0, marks.last_pos.0, marks.snapshot_at.0),
        );
        assert(self@ =~= old(self)@.insert(key@, Entry { state, marks }));
    }

    /// Replaces the watermarks under `key`, if it has an entry.
    pub fn set_marks(&mut self, key: &str, marks: Marks)
        requires
            old(self).wf(),
        ensures
            final(self).wf(),
            final(self)@ == (if old(self)@.contains_key(key@) {
                old(self)@.insert(key@, (Entry { state: old(self)@[key@].state, marks }))
            } else {
                old(self)@
            }),
    {
        if let Some(row) = rows_get(&self.index, key) {
            rows_insert(
                &mut self.index,
                key,
                (row.0, marks.version.0, marks.last_pos.0, marks.snapshot_at.0),
            );
            assert(self@ =~= old(self)@.insert(
                key@,
                Entry { state: old(self)@[key@].state, marks },
            ));
        }
    }

    /// Drops the entry under `key`, if there is one.
    pub fn remove(&mut self, key: &str)
        requires
            old(self).wf(),
        ensures
            final(self).wf(),
            final(self)@ == old(self)@.remove(key@),
    {
        if let Some(row) = rows_get(&self.index, key) {
            self.cells.set(row.0, None);
            self.free.push(row.0);
            rows_remove(&mut self.index, key);
        }
        assert(self@ =~= old(self)@.remove(key@));
    }
}

} // verus!
