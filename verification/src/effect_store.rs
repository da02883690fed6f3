//! Memoized side effects of reactors.
//!
//! A reaction that calls an external service stores the result under its
//! consumer, trigger and call-site label. A redelivery is answered from what
//! was stored first.

use vstd::prelude::*;

use crate::codec::{undecodable, unencodable, Codec};
use crate::failure::Error;
use crate::json::{Json, JsonView};
use crate::keyed::{Keyed, Table};
use crate::text::same;

verus! {

/// Identifies one memoized effect.
#[derive(Debug)]
pub struct EffectKey {
    /// The reacting consumer.
    pub consumer: String,
    pub trigger_event_id: u128,
    /// The label of the call within the reaction.
    pub label: String,
}

impl View for EffectKey {
    type V = (Seq<char>, u128, Seq<char>);

    open spec fn view(&self) -> (Seq<char>, u128, Seq<char>) {
        (self.consumer@, self.trigger_event_id, self.label@)
    }
}

impl EffectKey {
    pub fn new(consumer: &str, trigger_event_id: u128, label: &str) -> (key: EffectKey)
        ensures
            key@ == (consumer@, trigger_event_id, label@),
    {
        EffectKey { consumer: consumer.to_owned(), trigger_event_id, label: label.to_owned() }
    }

    pub fn copy(&self) -> (key: EffectKey)
        ensures
            key@ == self@,
    {
        EffectKey::new(self.consumer.as_str(), self.trigger_event_id, self.label.as_str())
    }
}

impl Keyed for EffectKey {
    fn same_key(&self, other: &Self) -> (is_same: bool) {
        self.trigger_event_id == other.trigger_event_id && same(
            self.consumer.as_str(),
            other.consumer.as_str(),
        ) && same(self.label.as_str(), other.label.as_str())
    }
}

/// The effects after a write: what is there stays.
pub open spec fn put_once(
    effects: Effects,
    key: (Seq<char>, u128, Seq<char>),
    value: JsonView,
) -> Effects {
    if effects.contains_key(key) {
        effects
    } else {
        effects.insert(key, value)
    }
}

/// The stored results of effects, by consumer, trigger and label.
pub type Effects = Map<(Seq<char>, u128, Seq<char>), JsonView>;

/// The durable memo of effects. Backends implement it.
pub trait EffectStore: Sized {
    spec fn valid(&self) -> bool;

    spec fn effects(&self) -> Effects;

    /// What an earlier execution stored.
    fn get(&self, key: &EffectKey) -> (r: Result<Option<Json>, Error>)
        requires
            self.valid(),
        ensures
            r matches Ok(found) ==> match found {
                Some(value) => self.effects().contains_key(key@) && self.effects()[key@] == value@,
                None => !self.effects().contains_key(key@),
            },
    ;

    /// Stores a value unless there is one, and returns the one that is there
    /// now.
    fn put(&mut self, key: &EffectKey, value: Json) -> (r: Result<Json, Error>)
        requires
            old(self).valid(),
        ensures
            final(self).valid(),
            r matches Ok(canonical) ==> final(self).effects() == put_once(
                old(self).effects(),
                key@,
                value@,
            ) && canonical@ == final(self).effects()[key@],
    ;

    /// Deletes an entry; absent is fine.
    fn remove(&mut self, key: &EffectKey) -> (r: Result<(), Error>)
        requires
            old(self).valid(),
        ensures
            final(self).valid(),
            r is Ok ==> final(self).effects() == old(self).effects().remove(key@),
    ;
}

/// Whether reading the stored result of an effect fails with `e`: the store
/// fails, or what it holds does not decode.
pub open spec fn recall_fails<C: EffectStore, T: Codec>(cache: C, key: EffectKey, e: Error) -> bool {
    ||| call_ensures(C::get, (&cache, &key), Err(e))
    ||| cache.effects().contains_key(key@) && undecodable::<T>(cache.effects()[key@], e)
}

/// Whether storing a value for an effect may fail with `e`.
pub open spec fn put_fails<C: EffectStore>(
    cache: C,
    key: EffectKey,
    value: JsonView,
    e: Error,
) -> bool {
    exists|store: &mut C, json: Json|
        *store == cache && json@ == value && #[trigger] call_ensures(
            C::put,
            (store, &key, json),
            Err(e),
        )
}

/// Whether remembering an effect fails with `e`: reading what is stored does,
/// or nothing is stored and the computation fails, or its result cannot be
/// encoded, stored or decoded.
pub open spec fn remember_fails<C: EffectStore, F: FnOnce() -> Result<T, Error>, T: Codec>(
    cache: C,
    key: EffectKey,
    compute: F,
    e: Error,
) -> bool {
    ||| recall_fails::<C, T>(cache, key, e)
    ||| !cache.effects().contains_key(key@) && compute.ensures((), Err(e))
    ||| !cache.effects().contains_key(key@) && exists|result: T|
        {
            &&& #[trigger] compute.ensures((), Ok(result))
            &&& {
                ||| unencodable(result, e)
                ||| result.encoded() matches Some(value) && (put_fails(cache, key, value, e)
                    || undecodable::<T>(value, e))
            }
        }
}

/// Whether a computation may give a result whose write fails with `e`.
pub open spec fn keep_fails<C: EffectStore, F: FnOnce() -> Result<T, Error>, T: Codec>(
    cache: C,
    key: EffectKey,
    compute: F,
    e: Error,
) -> bool {
    exists|result: T| #[trigger]
        compute.ensures((), Ok(result)) && (result.encoded() matches Some(value) && put_fails(
            cache,
            key,
            value,
            e,
        ))
}

/// What a failed effect leaves of the memo: all as it was, or, where nothing
/// was stored for it and its computation succeeded, the result stored though it
/// does not decode. Where the write itself failed, the store alone knows.
pub open spec fn left_by_failure<C: EffectStore, F: FnOnce() -> Result<T, Error>, T: Codec>(
    before: C,
    after: C,
    key: EffectKey,
    compute: F,
    e: Error,
) -> bool {
    ||| after == before
    ||| !before.effects().contains_key(key@) && exists|result: T|
        {
            &&& #[trigger] compute.ensures((), Ok(result))
            &&& result.encoded() is Some
            &&& after.effects() == before.effects().insert(key@, result.encoded()->0)
        }
    ||| !before.effects().contains_key(key@) && keep_fails::<C, F, T>(before, key, compute, e)
}

/// The stored result of an effect, decoded: `Ok(None)` where there is none, an
/// error where it does not decode or the store fails.
pub fn recall<C: EffectStore, T: Codec>(cache: &C, key: &EffectKey) -> (r: Result<Option<T>, Error>)
    requires
        cache.valid(),
    ensures
        match r {
            Ok(Some(value)) => cache.effects().contains_key(key@) && T::decoded(
                cache.effects()[key@],
            ) == Some(value),
            Ok(None) => !cache.effects().contains_key(key@),
            Err(e) => recall_fails::<C, T>(*cache, *key, e),
        },
{
    match cache.get(key) {
        Ok(Some(cached)) => match T::decode(&cached) {
            Ok(value) => Ok(Some(value)),
            Err(text) => Err(Error::msg(text.as_str())),
        },
        Ok(None) => Ok(None),
        Err(e) => Err(e),
    }
}

/// Stores the result of an effect and returns the canonical one: another
/// execution's where that was stored first.
pub fn keep<C: EffectStore, T: Codec>(cache: &mut C, key: &EffectKey, result: &T) -> (r: Result<
    T,
    Error,
>)
    requires
        old(cache).valid(),
    ensures
        final(cache).valid(),
        match r {
            Ok(value) => result.encoded() is Some && final(cache).effects() == put_once(
                old(cache).effects(),
                key@,
                result.encoded()->0,
            ) && T::decoded(final(cache).effects()[key@]) == Some(value),
            Err(e) => {
                ||| unencodable(*result, e) && *final(cache) == *old(cache)
                ||| exists|store: &mut C, value: Json|
                    *store == *old(cache) && *final(store) == *final(cache) && result.encoded()
                        == Some(value@) && #[trigger] call_ensures(
                        C::put,
                        (store, key, value),
                        Err(e),
                    )
                ||| result.encoded() is Some && final(cache).effects() == put_once(
                    old(cache).effects(),
                    key@,
                    result.encoded()->0,
                ) && undecodable::<T>(final(cache).effects()[key@], e)
            },
        },
{
    match result.encode() {
        Ok(value) => match cache.put(key, value) {
            Ok(canonical) => match T::decode(&canonical) {
                Ok(value) => Ok(value),
                Err(text) => Err(Error::msg(text.as_str())),
            },
            Err(e) => Err(e),
        },
        Err(text) => Err(Error::msg(text.as_str())),
    }
}

/// Runs `compute` only where nothing is stored for `key`; otherwise returns
/// the stored result.
pub fn remember<C: EffectStore, F: FnOnce() -> Result<T, Error>, T: Codec>(
    cache: &mut C,
    key: &EffectKey,
    compute: F,
) -> (r: Result<T, Error>)
    requires
        old(cache).valid(),
        compute.requires(()),
    ensures
        final(cache).valid(),
        match r {
            Ok(value) => if old(cache).effects().contains_key(key@) {
                *final(cache) == *old(cache) && T::decoded(old(cache).effects()[key@]) == Some(
                    value,
                )
            } else {
                exists|result: T|
                    {
                        &&& #[trigger] compute.ensures((), Ok(result))
                        &&& result.encoded() is Some
                        &&& T::decoded(result.encoded()->0) == Some(value)
                        &&& final(cache).effects() == old(cache).effects().insert(
                            key@,
                            result.encoded()->0,
                        )
                    }
            },
            Err(e) => {
                ||| recall_fails::<C, T>(*old(cache), *key, e) && *final(cache) == *old(cache)
                ||| !old(cache).effects().contains_key(key@) && compute.ensures((), Err(e))
                    && *final(cache) == *old(cache)
                ||| !old(cache).effects().contains_key(key@) && exists|result: T|
                    {
                        &&& #[trigger] compute.ensures((), Ok(result))
                        &&& {
                            ||| unencodable(result, e) && *final(cache) == *old(cache)
                            ||| exists|store: &mut C, value: Json|
                                *store == *old(cache) && *final(store) == *final(cache)
                                    && result.encoded() == Some(value@)
                                    && #[trigger] call_ensures(C::put, (store, key, value), Err(e))
                            ||| result.encoded() is Some && final(cache).effects() == old(
                                cache,
                            ).effects().insert(key@, result.encoded()->0) && undecodable::<T>(
                                result.encoded()->0,
                                e,
                            )
                        }
                    }
            },
        },
        r matches Err(e) ==> remember_fails(*old(cache), *key, compute, e) && left_by_failure(
            *old(cache),
            *final(cache),
            *key,
            compute,
            e,
        ),
{
    match recall::<C, T>(cache, key) {
        Ok(Some(value)) => {
            return Ok(value);
        },
        Ok(None) => {},
        Err(e) => {
            return Err(e);
        },
    }
    match compute() {
        Ok(result) => keep(cache, key, &result),
        Err(e) => Err(e),
    }
}

/// An in-memory [`EffectStore`].
pub struct InMemoryEffectStore {
    table: Table<EffectKey, Json>,
}

impl InMemoryEffectStore {
    pub fn new() -> (store: Self)
        ensures
            store.valid(),
            store.effects() == Map::<(Seq<char>, u128, Seq<char>), JsonView>::empty(),
    {
        let store = InMemoryEffectStore { table: Table::new() };
        assert(store.effects() =~= Map::<(Seq<char>, u128, Seq<char>), JsonView>::empty());
        store
    }

    /// Every entry of a trigger, each once, in no particular order.
    pub fn scan_by_trigger(&self, trigger_event_id: u128) -> (found: Vec<(EffectKey, Json)>)
        requires
            self.valid(),
        ensures
            forall|i: int|
                0 <= i < found@.len() ==> (#[trigger] found@[i]).0.trigger_event_id
                    == trigger_event_id && self.effects().contains_key(found@[i].0@)
                    && self.effects()[found@[i].0@] == found@[i].1@,
            forall|k: (Seq<char>, u128, Seq<char>)| #[trigger]
                self.effects().contains_key(k) && k.1 == trigger_event_id ==> scanned(found@, k),
            all_scanned(self.effects(), trigger_event_id, found@),
            forall|i: int, j: int|
                0 <= i < j < found@.len() ==> (#[trigger] found@[i]).0@ != (#[trigger] found@[j]).0@,
    {
        let mut found: Vec<(EffectKey, Json)> = Vec::new();
        let mut i: usize = 0;
        proof {
            self.table.lemma_row();
        }
        while i < self.table.len()
            invariant
                self.valid(),
                i <= self.table.count(),
                forall|j: int|
                    0 <= j < self.table.count() ==> self.table@.contains_key(
                        (#[trigger] self.table.row(j)).0@,
                    ) && self.table@[self.table.row(j).0@] == self.table.row(j).1,
                forall|a: int, b: int|
                    0 <= a < b < self.table.count() ==> (#[trigger] self.table.row(a)).0@ != (
                    #[trigger] self.table.row(b)).0@,
                forall|a: int|
                    0 <= a < found@.len() ==> (#[trigger] found@[a]).0.trigger_event_id
                        == trigger_event_id && self.effects().contains_key(found@[a].0@)
                        && self.effects()[found@[a].0@] == found@[a].1@ && exists|j: int|
                        0 <= j < i && (#[trigger] self.table.row(j)).0@ == found@[a].0@,
                forall|j: int|
                    0 <= j < i && (#[trigger] self.table.row(j)).0.trigger_event_id
                        == trigger_event_id ==> scanned(found@, self.table.row(j).0@),
                forall|a: int, b: int|
                    0 <= a < b < found@.len() ==> (#[trigger] found@[a]).0@ != (
                    #[trigger] found@[b]).0@,
            decreases self.table.count() - i,
        {
            let row = self.table.at(i);
            let ghost before = found@;
            if row.0.trigger_event_id == trigger_event_id {
                found.push((row.0.copy(), row.1.copy()));
                proof {
                    let k = self.table.row(i as int).0@;
                    assert(self.table@.contains_key(k));
                    assert(found@[before.len() as int].0@ == k);
                    assert forall|x: (Seq<char>, u128, Seq<char>)| #[trigger]
                        scanned(before, x) implies scanned(found@, x) by {
                        let a = choose|a: int|
                            0 <= a < before.len() && (#[trigger] before[a]).0@ == x;
                        assert(found@[a].0@ == x);
                    }
                    assert forall|a: int, b: int| 0 <= a < b < found@.len() implies (
                    #[trigger] found@[a]).0@ != (#[trigger] found@[b]).0@ by {
                        if b < before.len() {
                            assert(before[a].0@ != before[b].0@);
                        } else {
                            assert(found@[a] == before[a]);
                            let j = choose|j: int|
                                0 <= j < i && (#[trigger] self.table.row(j)).0@ == before[a].0@;
                            assert(self.table.row(j).0@ != self.table.row(i as int).0@);
                        }
                    }
                }
            }
            i += 1;
        }
        proof {
            assert forall|k: (Seq<char>, u128, Seq<char>)| #[trigger]
                self.effects().contains_key(k) && k.1 == trigger_event_id implies scanned(
                found@,
                k,
            ) by {
                assert(self.table@.contains_key(k));
                let j = choose|j: int|
                    0 <= j < self.table.count() && (#[trigger] self.table.row(j)).0@ == k;
                assert(self.table.row(j).0.trigger_event_id == trigger_event_id);
            }
        }
        found
    }
}

/// Whether a list of entries holds a key.
pub open spec fn scanned(
    found: Seq<(EffectKey, Json)>,
    key: (Seq<char>, u128, Seq<char>),
) -> bool {
    exists|i: int| 0 <= i < found.len() && (#[trigger] found[i]).0@ == key
}

/// Whether a list of entries holds every key of an event.
pub open spec fn all_scanned(
    effects: Map<(Seq<char>, u128, Seq<char>), JsonView>,
    trigger_event_id: u128,
    found: Seq<(EffectKey, Json)>,
) -> bool {
    forall|k: (Seq<char>, u128, Seq<char>)| #[trigger]
        effects.contains_key(k) && k.1 == trigger_event_id ==> scanned(found, k)
}

impl Default for InMemoryEffectStore {
    fn default() -> (store: Self)
        ensures
            store.valid(),
            store.effects() == Map::<(Seq<char>, u128, Seq<char>), JsonView>::empty(),
    {
        InMemoryEffectStore::new()
    }
}

impl EffectStore for InMemoryEffectStore {
    closed spec fn valid(&self) -> bool {
        self.table.wf()
    }

    closed spec fn effects(&self) -> Effects {
        self.table@.map_values(|value: Json| value@)
    }

    fn get(&self, key: &EffectKey) -> (r: Result<Option<Json>, Error>)
        ensures
            r is Ok,
    {
        match self.table.get(key) {
            Some(value) => Ok(Some(value.copy())),
            None => Ok(None),
        }
    }

    fn put(&mut self, key: &EffectKey, value: Json) -> (r: Result<Json, Error>)
        ensures
            r is Ok,
    {
        match self.table.get(key) {
            Some(canonical) => Ok(canonical.copy()),
            None => {
                let canonical = value.copy();
                self.table.add_absent(key.copy(), value);
                assert(self.effects() =~= old(self).effects().insert(key@, value@));
                Ok(canonical)
            },
        }
    }

    fn remove(&mut self, key: &EffectKey) -> (r: Result<(), Error>)
        ensures
            r is Ok,
    {
        self.table.drop_key(key);
        assert(self.effects() =~= old(self).effects().remove(key@));
        Ok(())
    }
}

/// First write wins: a second write of an effect changes nothing and is
/// answered with the first value.
pub proof fn law_first_effect_wins(
    effects: Effects,
    key: (Seq<char>, u128, Seq<char>),
    first: JsonView,
    second: JsonView,
)
    ensures
        put_once(put_once(effects, key, first), key, second) == put_once(effects, key, first),
        !effects.contains_key(key) ==> put_once(put_once(effects, key, first), key, second)[key]
            == first,
{
}

/// Effects of different labels, triggers or consumers do not touch each other.
pub proof fn law_effects_are_independent(
    effects: Effects,
    a: (Seq<char>, u128, Seq<char>),
    b: (Seq<char>, u128, Seq<char>),
    value: JsonView,
)
    requires
        a != b,
    ensures
        put_once(effects, a, value).contains_key(b) == effects.contains_key(b),
        effects.contains_key(b) ==> put_once(effects, a, value)[b] == effects[b],
{
}

/// The first result that is stored for an effect stays: a write is answered
/// with what is stored afterwards, which is what was there, or else what was
/// written. No other effect is touched.
pub proof fn law_writes_are_answered_with_the_first<C: EffectStore>(
    store: &mut C,
    key: &EffectKey,
    value: Json,
    canonical: Json,
)
    requires
        call_ensures(C::put, (store, key, value), Ok(canonical)),
    ensures
        ({
            let k = (key.consumer@, key.trigger_event_id, key.label@);
            let before = old(store).effects();
            let after = final(store).effects();
            &&& after.contains_key(k)
            &&& after[k] == canonical@
            &&& before.contains_key(k) ==> canonical@ == before[k]
            &&& !before.contains_key(k) ==> canonical@ == value@
            &&& forall|other: (Seq<char>, u128, Seq<char>)|
                other != k ==> (#[trigger] after.contains_key(other) <==> before.contains_key(
                    other,
                )) && (before.contains_key(other) ==> after[other] == before[other])
        }),
{
}

/// A read finds what is stored under the consumer, the trigger and the label,
/// and nothing exactly where nothing is; a deletion forgets that alone.
pub proof fn law_reads_and_deletions_are_by_key<C: EffectStore>(
    store: &C,
    dropping: &mut C,
    key: &EffectKey,
    found: Option<Json>,
)
    requires
        call_ensures(C::get, (store, key), Ok(found)),
        call_ensures(C::remove, (dropping, key), Ok(())),
    ensures
        ({
            let k = (key.consumer@, key.trigger_event_id, key.label@);
            &&& found is Some <==> store.effects().contains_key(k)
            &&& found matches Some(value) ==> value@ == store.effects()[k]
            &&& !final(dropping).effects().contains_key(k)
            &&& forall|other: (Seq<char>, u128, Seq<char>)|
                other != k ==> (#[trigger] final(dropping).effects().contains_key(other)
                    <==> old(dropping).effects().contains_key(other)) && (old(
                    dropping).effects().contains_key(other) ==> final(dropping).effects()[other]
                    == old(dropping).effects()[other])
        }),
{
}

/// What was kept is what is recalled: a result that was kept, read again from
/// the memo it left, is the same, and one that was there before is what is
/// given in its place.
pub proof fn law_kept_results_are_recalled<C: EffectStore, T: Codec>(
    cache: &mut C,
    later: &C,
    key: &EffectKey,
    result: &T,
    kept: T,
    found: Option<T>,
)
    requires
        call_ensures(keep::<C, T>, (cache, key, result), Ok(kept)),
        call_ensures(recall::<C, T>, (later, key), Ok(found)),
        later.effects() == final(cache).effects(),
    ensures
        found == Some(kept),
        ({
            let k = (key.consumer@, key.trigger_event_id, key.label@);
            let before = old(cache).effects();
            &&& before.contains_key(k) ==> T::decoded(before[k]) == Some(kept)
            &&& !before.contains_key(k) ==> (result.encoded() matches Some(json) && T::decoded(json)
                == Some(kept))
            &&& forall|other: (Seq<char>, u128, Seq<char>)|
                other != k ==> (#[trigger] final(cache).effects().contains_key(other)
                    <==> before.contains_key(other)) && (before.contains_key(other) ==> final(
                    cache).effects()[other] == before[other])
        }),
{
}

/// What is known of an event's effects is all there is, each once, and nothing
/// of another event's.
pub proof fn law_effects_are_listed_by_event(
    store: &InMemoryEffectStore,
    trigger: u128,
    list: Vec<(EffectKey, Json)>,
    key: EffectKey,
)
    requires
        call_ensures(InMemoryEffectStore::scan_by_trigger, (store, trigger), list),
    ensures
        (exists|i: int| 0 <= i < list@.len() && (#[trigger] list@[i]).0@ == key@)
            <==> store.effects().contains_key(key@) && key.trigger_event_id == trigger,
        forall|i: int|
            0 <= i < list@.len() ==> (#[trigger] list@[i]).1@ == store.effects()[list@[i].0@],
        forall|i: int, j: int|
            0 <= i < j < list@.len() ==> (#[trigger] list@[i]).0@ != (#[trigger] list@[j]).0@,
{
    if store.effects().contains_key(key@) && key.trigger_event_id == trigger {
        let k = key@;
        assert(k.1 == trigger);
        assert(store.effects().contains_key(k));
        assert(scanned(list@, k));
    }
}

/// A remembered effect runs once: what is kept answers without running it and
/// stays; what is not is run, and kept as it was encoded; no other effect
/// changes.
pub proof fn law_remembered_effects_run_once<
    C: EffectStore,
    F: FnOnce() -> Result<T, Error>,
    T: Codec,
>(cache: &mut C, key: &EffectKey, compute: F, value: T)
    requires
        call_ensures(remember::<C, F, T>, (cache, key, compute), Ok(value)),
    ensures
        final(cache).effects().contains_key(key@),
        T::decoded(final(cache).effects()[key@]) == Some(value),
        old(cache).effects().contains_key(key@) ==> *final(cache) == *old(cache),
        !old(cache).effects().contains_key(key@) ==> exists|result: T| #[trigger]
            compute.ensures((), Ok(result)) && result.encoded() == Some(
                final(cache).effects()[key@],
            ),
        forall|other: (Seq<char>, u128, Seq<char>)|
            other != key@ ==> (#[trigger] final(cache).effects().contains_key(other)
                <==> old(cache).effects().contains_key(other)) && final(cache).effects()[other]
                == old(cache).effects()[other],
{
}

} // verus!
