//! One durable decision per consumer and trigger.
//!
//! A reactor may see a trigger more than once. Its outputs reach the log only
//! from a sealed record, and sealing is first-write-wins: of two executions
//! that race, both go on with the batch of the one that sealed first.

use vstd::prelude::*;

use crate::failure::Error;
use crate::json::{
    each_key_once, is_nul_free, law_sanitize_keeps_clean_values, law_sanitized_is_nul_free,
    lemma_sanitized, member_views, Json, JsonView,
};
use crate::keyed::{Keyed, Table};
use crate::output_envelope::{
    decoded_events, durable, durable_all, has_envelope, is_batch, read_batch, write_batch,
};
use crate::text::{listed, lists, same};
use crate::types::{event_views, EventData, EventView, LogCursor, Timestamp};

verus! {

/// The whole output batch of one reaction to one trigger.
#[derive(Debug)]
pub struct DecisionRecord {
    /// The reacting consumer.
    pub consumer: String,
    pub trigger_event_id: u128,
    /// Where the trigger stands in the log.
    pub trigger_position: LogCursor,
    /// In emit order. Empty: the reaction ran and decided nothing.
    pub outputs: Vec<EventData>,
    /// The reaction failed for good.
    pub parked: bool,
    pub sealed_at: Timestamp,
}

/// A decision, as mathematics.
pub struct DecisionView {
    pub consumer: Seq<char>,
    pub trigger_event_id: u128,
    pub trigger_position: LogCursor,
    pub outputs: Seq<EventView>,
    pub parked: bool,
    pub sealed_at: Timestamp,
}

impl View for DecisionRecord {
    type V = DecisionView;

    open spec fn view(&self) -> DecisionView {
        DecisionView {
            consumer: self.consumer@,
            trigger_event_id: self.trigger_event_id,
            trigger_position: self.trigger_position,
            outputs: event_views(self.outputs@),
            parked: self.parked,
            sealed_at: self.sealed_at,
        }
    }
}

impl DecisionView {
    pub open spec fn key(self) -> (Seq<char>, u128) {
        (self.consumer, self.trigger_event_id)
    }

    /// The decision as durable storage keeps it.
    pub open spec fn stored(self) -> DecisionView {
        DecisionView { outputs: durable_all(self.outputs), ..self }
    }

    /// Every output has a durable form.
    pub open spec fn storable(self) -> bool {
        forall|i: int| 0 <= i < self.outputs.len() ==> has_envelope(#[trigger] self.outputs[i])
    }
}

impl DecisionRecord {
    /// A record of a successful reaction.
    pub fn new(
        consumer: &str,
        trigger_event_id: u128,
        trigger_position: LogCursor,
        outputs: Vec<EventData>,
        sealed_at: Timestamp,
    ) -> (rec: DecisionRecord)
        ensures
            rec@ == (DecisionView {
                consumer: consumer@,
                trigger_event_id,
                trigger_position,
                outputs: event_views(outputs@),
                parked: false,
                sealed_at,
            }),
    {
        DecisionRecord {
            consumer: consumer.to_owned(),
            trigger_event_id,
            trigger_position,
            outputs,
            parked: false,
            sealed_at,
        }
    }

    /// The record with its park mark set.
    pub fn with_parked(self, parked: bool) -> (rec: DecisionRecord)
        ensures
            rec@ == (DecisionView { parked, ..self@ }),
    {
        DecisionRecord {
            consumer: self.consumer,
            trigger_event_id: self.trigger_event_id,
            trigger_position: self.trigger_position,
            outputs: self.outputs,
            parked,
            sealed_at: self.sealed_at,
        }
    }

    /// The batch as a JSON array, free of NUL characters. It fails where the
    /// instant of an output lies outside the calendar. Reading it back gives
    /// the batch, sanitized.
    pub fn outputs_to_json(&self) -> (r: Result<Json, Error>)
        ensures
            r is Ok <==> self@.storable(),
            r matches Ok(value) ==> is_batch(value@, self@.outputs) && is_nul_free(value@)
                && decoded_events(value@) == Some(durable_all(self@.outputs)),
    {
        assert(self@.storable() <==> forall|i: int|
            0 <= i < self.outputs@.len() ==> has_envelope((#[trigger] self.outputs@[i])@)) by {
            if self@.storable() {
                assert forall|i: int| 0 <= i < self.outputs@.len() implies has_envelope(
                    (#[trigger] self.outputs@[i])@,
                ) by {
                    assert(has_envelope(self@.outputs[i]));
                }
            }
        }
        match write_batch(&self.outputs) {
            Some(value) => Ok(value),
            None => Err(Error::msg("an output's timestamp is out of range")),
        }
    }

    /// The batch that a stored JSON value holds.
    pub fn outputs_from_json(value: Json) -> (r: Result<Vec<EventData>, Error>)
        ensures
            match r {
                Ok(events) => decoded_events(value@) == Some(event_views(events@)),
                Err(_) => decoded_events(value@) is None,
            },
    {
        match read_batch(&value) {
            Some(events) => Ok(events),
            None => Err(Error::msg("the value is not a batch of output envelopes")),
        }
    }
}

/// The decisions after a seal: a decision that is there stays.
pub open spec fn sealed(
    decisions: Map<(Seq<char>, u128), DecisionView>,
    rec: DecisionView,
) -> Map<(Seq<char>, u128), DecisionView> {
    if decisions.contains_key(rec.key()) {
        decisions
    } else {
        decisions.insert(rec.key(), rec.stored())
    }
}

/// Whether retention may drop a decision: it is of this consumer, old enough,
/// its trigger is at or below the consumer's floor, and it is not parked.
pub open spec fn reclaimable(
    d: DecisionView,
    consumer: Seq<char>,
    aged_before: Timestamp,
    floor: LogCursor,
) -> bool {
    d.consumer == consumer && d.sealed_at.before(aged_before) && d.trigger_position.0 <= floor.0
        && !d.parked
}

/// The decisions that retention leaves.
pub open spec fn retained(
    decisions: Map<(Seq<char>, u128), DecisionView>,
    consumer: Seq<char>,
    aged_before: Timestamp,
    floor: LogCursor,
) -> Map<(Seq<char>, u128), DecisionView> {
    decisions.restrict(
        decisions.dom().filter(
            |k: (Seq<char>, u128)| !reclaimable(decisions[k], consumer, aged_before, floor),
        ),
    )
}

/// Whether a consumer has a decision.
pub open spec fn has_decided(
    decisions: Map<(Seq<char>, u128), DecisionView>,
    consumer: Seq<char>,
) -> bool {
    exists|t: u128| #[trigger] decisions.contains_key((consumer, t))
}

/// Durable, first-write-wins decisions. Backends implement it.
pub trait DecisionStore: Sized {
    spec fn valid(&self) -> bool;

    /// The sealed decisions, by consumer and trigger.
    spec fn decisions(&self) -> Map<(Seq<char>, u128), DecisionView>;

    /// Inserts the decision unless there is one, and returns the one that is
    /// there now. Callers append from what is returned.
    fn seal(&mut self, rec: DecisionRecord) -> (r: Result<DecisionRecord, Error>)
        requires
            old(self).valid(),
        ensures
            final(self).valid(),
            r matches Ok(canonical) ==> final(self).decisions() == sealed(
                old(self).decisions(),
                rec@,
            ) && canonical@ == final(self).decisions()[rec@.key()],
    ;

    /// The decision for a consumer and a trigger.
    fn get(&self, consumer: &str, trigger_event_id: u128) -> (r: Result<
        Option<DecisionRecord>,
        Error,
    >)
        requires
            self.valid(),
        ensures
            r matches Ok(found) ==> match found {
                Some(rec) => self.decisions().contains_key((consumer@, trigger_event_id))
                    && self.decisions()[(consumer@, trigger_event_id)] == rec@,
                None => !self.decisions().contains_key((consumer@, trigger_event_id)),
            },
    ;

    /// Deletes a decision; absent is fine.
    fn remove(&mut self, consumer: &str, trigger_event_id: u128) -> (r: Result<(), Error>)
        requires
            old(self).valid(),
        ensures
            final(self).valid(),
            r is Ok ==> final(self).decisions() == old(self).decisions().remove(
                (consumer@, trigger_event_id),
            ),
    ;

    /// Retention by age and floor. Returns how many decisions were dropped.
    fn remove_reclaimable(
        &mut self,
        consumer: &str,
        aged_before: Timestamp,
        floor: LogCursor,
    ) -> (r: Result<u64, Error>)
        requires
            old(self).valid(),
        ensures
            final(self).valid(),
            r matches Ok(n) ==> final(self).decisions() == retained(
                old(self).decisions(),
                consumer@,
                aged_before,
                floor,
            ) && n == old(self).decisions().dom().len() - final(self).decisions().dom().len(),
    ;

    /// The consumers with decisions, each once; best effort.
    fn list_consumers(&self) -> (r: Result<Vec<String>, Error>)
        requires
            self.valid(),
        ensures
            r matches Ok(list) ==> forall|i: int|
                0 <= i < list@.len() ==> has_decided(self.decisions(), (#[trigger] list@[i])@),
        default_ensures
            r matches Ok(list) && list@.len() == 0,
    {
        Ok(Vec::new())
    }
}

/// The key of a stored decision.
pub struct DecisionKey {
    pub consumer: String,
    pub trigger_event_id: u128,
}

impl View for DecisionKey {
    type V = (Seq<char>, u128);

    open spec fn view(&self) -> (Seq<char>, u128) {
        (self.consumer@, self.trigger_event_id)
    }
}

impl Keyed for DecisionKey {
    fn same_key(&self, other: &Self) -> (is_same: bool) {
        self.trigger_event_id == other.trigger_event_id && same(
            self.consumer.as_str(),
            other.consumer.as_str(),
        )
    }
}

/// A decision as it is kept.
pub struct StoredDecision {
    pub outputs_json: Json,
    pub sealed_at: Timestamp,
    pub trigger_position: LogCursor,
    pub parked: bool,
}

impl StoredDecision {
    /// The decision that a row holds.
    pub open spec fn loaded(self, key: (Seq<char>, u128)) -> DecisionView {
        DecisionView {
            consumer: key.0,
            trigger_event_id: key.1,
            trigger_position: self.trigger_position,
            outputs: decoded_events(self.outputs_json@)->0,
            parked: self.parked,
            sealed_at: self.sealed_at,
        }
    }
}

/// An in-memory [`DecisionStore`] that keeps what durable storage would keep.
pub struct InMemoryDecisionStore {
    table: Table<DecisionKey, StoredDecision>,
}

impl InMemoryDecisionStore {
    /// An empty store.
    pub fn new() -> (store: Self)
        ensures
            store.valid(),
            store.decisions() == Map::<(Seq<char>, u128), DecisionView>::empty(),
    {
        let store = InMemoryDecisionStore { table: Table::new() };
        assert(store.decisions() =~= Map::<(Seq<char>, u128), DecisionView>::empty());
        store
    }

    /// The record that a row holds.
    fn load(&self, consumer: &str, trigger_event_id: u128, row: &StoredDecision) -> (r: Result<
        DecisionRecord,
        Error,
    >)
        ensures
            match r {
                Ok(rec) => decoded_events(row.outputs_json@) is Some && rec@ == row.loaded(
                    (consumer@, trigger_event_id),
                ),
                Err(_) => decoded_events(row.outputs_json@) is None,
            },
    {
        match DecisionRecord::outputs_from_json(row.outputs_json.copy()) {
            Ok(outputs) => Ok(
                DecisionRecord {
                    consumer: consumer.to_owned(),
                    trigger_event_id,
                    trigger_position: row.trigger_position,
                    outputs,
                    parked: row.parked,
                    sealed_at: row.sealed_at,
                },
            ),
            Err(e) => Err(e),
        }
    }
}

impl Default for InMemoryDecisionStore {
    fn default() -> (store: Self)
        ensures
            store.valid(),
            store.decisions() == Map::<(Seq<char>, u128), DecisionView>::empty(),
    {
        InMemoryDecisionStore::new()
    }
}

impl DecisionStore for InMemoryDecisionStore {
    closed spec fn valid(&self) -> bool {
        &&& self.table.wf()
        &&& forall|k: (Seq<char>, u128)| #[trigger]
            self.table@.contains_key(k) ==> decoded_events(self.table@[k].outputs_json@) is Some
    }

    closed spec fn decisions(&self) -> Map<(Seq<char>, u128), DecisionView> {
        Map::new(
            |k: (Seq<char>, u128)| self.table@.contains_key(k),
            |k: (Seq<char>, u128)| self.table@[k].loaded(k),
        )
    }

    /// Fails, and changes nothing, exactly where an output has no durable form.
    fn seal(&mut self, rec: DecisionRecord) -> (r: Result<DecisionRecord, Error>)
        ensures
            r is Ok <==> rec@.storable(),
            r is Err ==> final(self).decisions() == old(self).decisions(),
    {
        let outputs_json = match rec.outputs_to_json() {
            Ok(value) => value,
            Err(e) => {
                return Err(e);
            },
        };
        let key = DecisionKey {
            consumer: rec.consumer.clone(),
            trigger_event_id: rec.trigger_event_id,
        };
        let row = StoredDecision {
            outputs_json,
            sealed_at: rec.sealed_at,
            trigger_position: rec.trigger_position,
            parked: rec.parked,
        };
        let ghost old_map = self.table@;
        let ghost k = key@;
        match self.table.get(&key) {
            Some(canonical) => self.load(rec.consumer.as_str(), rec.trigger_event_id, canonical),
            None => {
                let loaded = self.load(rec.consumer.as_str(), rec.trigger_event_id, &row);
                self.table.add_absent(key, row);
                assert(self.decisions() =~= old(self).decisions().insert(k, rec@.stored()));
                loaded
            },
        }
    }

    fn get(&self, consumer: &str, trigger_event_id: u128) -> (r: Result<
        Option<DecisionRecord>,
        Error,
    >)
        ensures
            r is Ok,
    {
        let key = DecisionKey { consumer: consumer.to_owned(), trigger_event_id };
        match self.table.get(&key) {
            Some(row) => match self.load(consumer, trigger_event_id, row) {
                Ok(rec) => Ok(Some(rec)),
                Err(e) => Err(e),
            },
            None => Ok(None),
        }
    }

    fn remove(&mut self, consumer: &str, trigger_event_id: u128) -> (r: Result<(), Error>)
        ensures
            r is Ok,
    {
        let key = DecisionKey { consumer: consumer.to_owned(), trigger_event_id };
        self.table.drop_key(&key);
        assert(self.decisions() =~= old(self).decisions().remove(key@));
        Ok(())
    }

    fn remove_reclaimable(
        &mut self,
        consumer: &str,
        aged_before: Timestamp,
        floor: LogCursor,
    ) -> (r: Result<u64, Error>)
        ensures
            r is Ok,
    {
        let ghost all = self.decisions();
        let before = self.table.len();
        let mut i: usize = 0;
        assert(all.dom() =~= self.table@.dom());
        while i < self.table.len()
            invariant
                self.valid(),
                i <= self.table.count(),
                self.table.count() <= before,
                all.dom().finite(),
                before == all.dom().len(),
                forall|k: (Seq<char>, u128)| #[trigger]
                    self.decisions().contains_key(k) ==> all.contains_key(k)
                        && self.decisions()[k] == all[k],
                forall|k: (Seq<char>, u128)| #[trigger]
                    all.contains_key(k) && !self.decisions().contains_key(k) ==> reclaimable(
                        all[k],
                        consumer@,
                        aged_before,
                        floor,
                    ),
                forall|j: int|
                    0 <= j < i ==> !reclaimable(
                        self.decisions()[(#[trigger] self.table.row(j)).0@],
                        consumer@,
                        aged_before,
                        floor,
                    ),
            decreases self.table.count() - i,
        {
            proof {
                self.table.lemma_row();
            }
            let row = self.table.at(i);
            let drop = same(row.0.consumer.as_str(), consumer) && row.1.sealed_at.is_before(
                &aged_before,
            ) && row.1.trigger_position.0 <= floor.0 && !row.1.parked;
            assert(self.decisions().contains_key(self.table.row(i as int).0@));
            assert(drop == reclaimable(
                self.decisions()[self.table.row(i as int).0@],
                consumer@,
                aged_before,
                floor,
            ));
            if drop {
                let ghost was = self.decisions();
                let ghost was_table = self.table;
                let taken = self.table.take(i);
                proof {
                    self.table.lemma_row();
                    assert(self.decisions() =~= was.remove(taken.0@));
                    assert forall|j: int| 0 <= j < i implies !reclaimable(
                        self.decisions()[(#[trigger] self.table.row(j)).0@],
                        consumer@,
                        aged_before,
                        floor,
                    ) by {
                        assert(was_table.row(j).0@ != was_table.row(i as int).0@);
                    }
                    assert forall|k: (Seq<char>, u128)| #[trigger]
                        all.contains_key(k) && !self.decisions().contains_key(k) implies reclaimable(
                        all[k],
                        consumer@,
                        aged_before,
                        floor,
                    ) by {
                        if was.contains_key(k) {
                            assert(k == taken.0@);
                        }
                    }
                }
            } else {
                i += 1;
            }
        }
        proof {
            self.table.lemma_row();
            assert(self.decisions().dom() =~= self.table@.dom());
            let kept = retained(all, consumer@, aged_before, floor);
            assert forall|k: (Seq<char>, u128)| #[trigger]
                self.decisions().dom().contains(k) <==> kept.dom().contains(k) by {
                if self.decisions().contains_key(k) {
                    assert(self.table@.contains_key(k));
                    let j = choose|j: int|
                        0 <= j < self.table.count() && (#[trigger] self.table.row(j)).0@ == k;
                    assert(!reclaimable(
                        self.decisions()[self.table.row(j).0@],
                        consumer@,
                        aged_before,
                        floor,
                    ));
                }
            }
            assert(self.decisions() =~= kept);
        }
        Ok((before - self.table.len()) as u64)
    }

    /// Every consumer with a decision, each once.
    fn list_consumers(&self) -> (r: Result<Vec<String>, Error>)
        ensures
            r matches Ok(list) && (forall|c: Seq<char>|
                has_decided(self.decisions(), c) ==> #[trigger] listed(list@, c)) && (forall|
                i: int,
                j: int,
            |
                0 <= i < j < list@.len() ==> (#[trigger] list@[i])@ != (#[trigger] list@[j])@),
    {
        let mut list: Vec<String> = Vec::new();
        let mut i: usize = 0;
        proof {
            self.table.lemma_row();
        }
        while i < self.table.len()
            invariant
                self.valid(),
                i <= self.table.count(),
                forall|j: int|
                    0 <= j < self.table.count() ==> self.table@.contains_key(
                        (#[trigger] self.table.row(j)).0@,
                    ),
                forall|a: int|
                    0 <= a < list@.len() ==> has_decided(self.decisions(), (#[trigger] list@[a])@),
                forall|j: int|
                    0 <= j < i ==> listed(list@, (#[trigger] self.table.row(j)).0.consumer@),
                forall|a: int, b: int|
                    0 <= a < b < list@.len() ==> (#[trigger] list@[a])@ != (#[trigger] list@[b])@,
            decreases self.table.count() - i,
        {
            let row = self.table.at(i);
            let ghost before = list@;
            let ghost c = row.0.consumer@;
            if !lists(&list, row.0.consumer.as_str()) {
                list.push(row.0.consumer.clone());
                proof {
                    assert(self.table@.contains_key(self.table.row(i as int).0@));
                    assert(self.decisions().contains_key((c, row.0.trigger_event_id)));
                    assert(list@[before.len() as int]@ == c);
                    assert forall|x: Seq<char>| #[trigger] listed(before, x) implies listed(
                        list@,
                        x,
                    ) by {
                        let a = choose|a: int| 0 <= a < before.len() && (#[trigger] before[a])@ == x;
                        assert(list@[a]@ == x);
                    }
                    assert forall|a: int, b: int| 0 <= a < b < list@.len() implies (
                    #[trigger] list@[a])@ != (#[trigger] list@[b])@ by {
                        if b < before.len() {
                            assert(before[a]@ != before[b]@);
                        } else {
                            assert(before[a]@ != c);
                        }
                    }
                }
            }
            i += 1;
        }
        proof {
            assert forall|c: Seq<char>| has_decided(self.decisions(), c) implies #[trigger] listed(
                list@,
                c,
            ) by {
                let t = choose|t: u128| #[trigger] self.decisions().contains_key((c, t));
                assert(self.table@.contains_key((c, t)));
                let j = choose|j: int|
                    0 <= j < self.table.count() && (#[trigger] self.table.row(j)).0@ == (c, t);
                assert(self.table.row(j).0.consumer@ == c);
            }
        }
        Ok(list)
    }
}

/// First write wins: once a decision is sealed, no later seal changes what is
/// stored for its consumer and trigger, and every seal is answered with it.
pub proof fn law_first_seal_wins(
    decisions: Map<(Seq<char>, u128), DecisionView>,
    first: DecisionView,
    second: DecisionView,
)
    requires
        first.key() == second.key(),
    ensures
        sealed(sealed(decisions, first), second) == sealed(decisions, first),
        sealed(sealed(decisions, first), second)[second.key()] == sealed(
            decisions,
            first,
        )[first.key()],
{
}

/// A seal is answered with the stored form of its own batch exactly when it is
/// the first, and touches no other decision.
pub proof fn law_seal_is_isolated(
    decisions: Map<(Seq<char>, u128), DecisionView>,
    rec: DecisionView,
    other: (Seq<char>, u128),
)
    requires
        other != rec.key(),
    ensures
        !decisions.contains_key(rec.key()) ==> sealed(decisions, rec)[rec.key()] == rec.stored(),
        sealed(decisions, rec).contains_key(other) == decisions.contains_key(other),
        decisions.contains_key(other) ==> sealed(decisions, rec)[other] == decisions[other],
{
}

/// Retention keeps every parked decision, every one whose trigger is above the
/// floor, every one that is not old enough, and every other consumer's; it
/// changes none that it keeps.
pub proof fn law_retention_is_safe(
    decisions: Map<(Seq<char>, u128), DecisionView>,
    consumer: Seq<char>,
    aged_before: Timestamp,
    floor: LogCursor,
    k: (Seq<char>, u128),
)
    requires
        decisions.contains_key(k),
    ensures
        ({
            let d = decisions[k];
            let kept = retained(decisions, consumer, aged_before, floor);
            &&& d.parked || d.trigger_position.0 > floor.0 || !d.sealed_at.before(aged_before)
                || d.consumer != consumer ==> kept.contains_key(k)
            &&& kept.contains_key(k) ==> kept[k] == d
            &&& !kept.contains_key(k) ==> d.consumer == consumer && !d.parked
        }),
{
}

/// A second retention pass with the same bounds drops nothing more.
pub proof fn law_retention_is_idempotent(
    decisions: Map<(Seq<char>, u128), DecisionView>,
    consumer: Seq<char>,
    aged_before: Timestamp,
    floor: LogCursor,
)
    ensures
        ({
            let kept = retained(decisions, consumer, aged_before, floor);
            retained(kept, consumer, aged_before, floor) == kept
        }),
{
    let kept = retained(decisions, consumer, aged_before, floor);
    assert(retained(kept, consumer, aged_before, floor) =~= kept);
}

/// A seal is answered with what is stored from then on: what was sealed first
/// for the consumer and the trigger, or else the decision given, of that
/// consumer and trigger, at its position and time, parked or not as it was.
/// No other decision is touched.
pub proof fn law_seals_are_answered_with_the_first<S: DecisionStore>(
    store: &mut S,
    rec: DecisionRecord,
    canonical: DecisionRecord,
)
    requires
        call_ensures(S::seal, (store, rec), Ok(canonical)),
    ensures
        ({
            let k = (rec.consumer@, rec.trigger_event_id);
            let before = old(store).decisions();
            let after = final(store).decisions();
            &&& after.contains_key(k)
            &&& after[k] == canonical@
            &&& before.contains_key(k) ==> canonical@ == before[k]
            &&& !before.contains_key(k) ==> {
                &&& canonical.consumer@ == rec.consumer@
                &&& canonical.trigger_event_id == rec.trigger_event_id
                &&& canonical.trigger_position == rec.trigger_position
                &&& canonical.parked == rec.parked
                &&& canonical.sealed_at == rec.sealed_at
                &&& canonical.outputs@.len() == rec.outputs@.len()
                &&& forall|i: int|
                    0 <= i < rec.outputs@.len() ==> {
                        let kept = #[trigger] canonical.outputs@[i];
                        let given = rec.outputs@[i];
                        &&& kept.event_id == given.event_id
                        &&& kept.causation_id == given.causation_id
                        &&& kept.workflow_id == given.workflow_id
                        &&& kept.created_at == given.created_at
                        &&& kept.subject_id == given.subject_id
                        &&& kept.persistent
                        &&& kept.event_type@ == given.event_type@.filter(|c: char| c != '\0')
                        &&& is_nul_free(kept.payload@)
                        &&& is_nul_free(given.payload@) && each_key_once(given.payload@)
                            ==> kept.payload@ == given.payload@
                    }
            }
            &&& forall|other: (Seq<char>, u128)|
                other != k ==> (#[trigger] after.contains_key(other) <==> before.contains_key(
                    other,
                )) && (before.contains_key(other) ==> after[other] == before[other])
        }),
{
    if !old(store).decisions().contains_key((rec.consumer@, rec.trigger_event_id)) {
        assert(canonical@ == rec@.stored());
        let kept = event_views(canonical.outputs@);
        let given = event_views(rec.outputs@);
        assert(kept == durable_all(given));
        assert(kept.len() == canonical.outputs@.len());
        lemma_durable_fields(canonical.outputs@, rec.outputs@);
    }
}

/// What durable storage keeps of a batch of outputs.
proof fn lemma_durable_fields(kept: Seq<EventData>, given: Seq<EventData>)
    requires
        event_views(kept) == durable_all(event_views(given)),
    ensures
        kept.len() == given.len(),
        forall|i: int|
            0 <= i < given.len() ==> {
                let k = #[trigger] kept[i];
                let g = given[i];
                &&& k.event_id == g.event_id
                &&& k.causation_id == g.causation_id
                &&& k.workflow_id == g.workflow_id
                &&& k.created_at == g.created_at
                &&& k.subject_id == g.subject_id
                &&& k.persistent
                &&& k.event_type@ == g.event_type@.filter(|c: char| c != '\0')
                &&& is_nul_free(k.payload@)
                &&& is_nul_free(g.payload@) && each_key_once(g.payload@) ==> k.payload@
                    == g.payload@
                &&& k.category is Some <==> g.category is Some
                &&& k.category matches Some(c) ==> (g.category matches Some(d) && c@ == d@.filter(
                    |c: char| c != '\0',
                ))
                &&& is_nul_free(JsonView::Object(member_views(g.metadata@))) && each_key_once(
                    JsonView::Object(member_views(g.metadata@)),
                ) ==> member_views(k.metadata@) == member_views(g.metadata@)
            },
{
    assert(event_views(kept).len() == kept.len());
    assert(durable_all(event_views(given)).len() == given.len());
    assert forall|i: int| 0 <= i < given.len() implies {
        let k = #[trigger] kept[i];
        let g = given[i];
        &&& k.event_id == g.event_id
        &&& k.causation_id == g.causation_id
        &&& k.workflow_id == g.workflow_id
        &&& k.created_at == g.created_at
        &&& k.subject_id == g.subject_id
        &&& k.persistent
        &&& k.event_type@ == g.event_type@.filter(|c: char| c != '\0')
        &&& is_nul_free(k.payload@)
        &&& is_nul_free(g.payload@) && each_key_once(g.payload@) ==> k.payload@ == g.payload@
        &&& k.category is Some <==> g.category is Some
        &&& k.category matches Some(c) ==> (g.category matches Some(d) && c@ == d@.filter(
            |c: char| c != '\0',
        ))
        &&& is_nul_free(JsonView::Object(member_views(g.metadata@))) && each_key_once(
            JsonView::Object(member_views(g.metadata@)),
        ) ==> member_views(k.metadata@) == member_views(g.metadata@)
    } by {
        assert(event_views(kept)[i] == kept[i]@);
        assert(durable_all(event_views(given))[i] == durable(given[i]@));
        law_sanitized_is_nul_free(given[i].payload@);
        if is_nul_free(given[i].payload@) && each_key_once(given[i].payload@) {
            law_sanitize_keeps_clean_values(given[i].payload@);
        }
        let object = JsonView::Object(member_views(given[i].metadata@));
        if is_nul_free(object) && each_key_once(object) {
            law_sanitize_keeps_clean_values(object);
            lemma_sanitized(object);
        }
    }
}

/// A batch of outputs survives its JSON form: what is read back has every
/// event, in order, with its ids, its cause, its workflow, its stream and its
/// time; texts lose NUL characters alone, and payloads and metadata that hold
/// none are as they were. The form itself holds no NUL character.
pub proof fn law_batches_survive_their_json(
    rec: &DecisionRecord,
    value: Json,
    read: Result<Vec<EventData>, Error>,
)
    requires
        call_ensures(DecisionRecord::outputs_to_json, (rec,), Ok(value)),
        call_ensures(DecisionRecord::outputs_from_json, (value,), read),
    ensures
        is_nul_free(value@),
        read matches Ok(events) && events@.len() == rec.outputs@.len() && forall|i: int|
            0 <= i < rec.outputs@.len() ==> {
                let k = #[trigger] events@[i];
                let g = rec.outputs@[i];
                &&& k.event_id == g.event_id
                &&& k.causation_id == g.causation_id
                &&& k.workflow_id == g.workflow_id
                &&& k.created_at == g.created_at
                &&& k.subject_id == g.subject_id
                &&& k.persistent
                &&& k.event_type@ == g.event_type@.filter(|c: char| c != '\0')
                &&& is_nul_free(g.payload@) && each_key_once(g.payload@) ==> k.payload@
                    == g.payload@
                &&& k.category is Some <==> g.category is Some
                &&& k.category matches Some(c) ==> (g.category matches Some(d) && c@ == d@.filter(
                    |c: char| c != '\0',
                ))
                &&& is_nul_free(JsonView::Object(member_views(g.metadata@))) && each_key_once(
                    JsonView::Object(member_views(g.metadata@)),
                ) ==> member_views(k.metadata@) == member_views(g.metadata@)
            },
{
    if let Ok(events) = read {
        lemma_durable_fields(events@, rec.outputs@);
    }
}

/// A record is what it was made of, not parked; a park mark changes only
/// itself.
pub proof fn law_records_are_what_was_decided(
    consumer: &str,
    trigger_event_id: u128,
    trigger_position: LogCursor,
    outputs: Vec<EventData>,
    sealed_at: Timestamp,
    parked: bool,
    rec: DecisionRecord,
    marked: DecisionRecord,
)
    requires
        call_ensures(
            DecisionRecord::new,
            (consumer, trigger_event_id, trigger_position, outputs, sealed_at),
            rec,
        ),
        call_ensures(DecisionRecord::with_parked, (rec, parked), marked),
    ensures
        rec.consumer@ == consumer@,
        rec.trigger_event_id == trigger_event_id,
        rec.trigger_position == trigger_position,
        event_views(rec.outputs@) == event_views(outputs@),
        rec.sealed_at == sealed_at,
        !rec.parked,
        marked.parked == parked,
        marked.consumer@ == consumer@,
        marked.trigger_event_id == trigger_event_id,
        marked.trigger_position == trigger_position,
        event_views(marked.outputs@) == event_views(outputs@),
        marked.sealed_at == sealed_at,
{
}

/// A read finds what was sealed for the consumer and the trigger, and nothing
/// exactly where nothing was; a deletion forgets that alone.
pub proof fn law_reads_and_deletions_are_by_key<S: DecisionStore>(
    store: &S,
    dropping: &mut S,
    consumer: &str,
    trigger: u128,
    found: Option<DecisionRecord>,
)
    requires
        call_ensures(S::get, (store, consumer, trigger), Ok(found)),
        call_ensures(S::remove, (dropping, consumer, trigger), Ok(())),
    ensures
        found is Some <==> store.decisions().contains_key((consumer@, trigger)),
        found matches Some(rec) ==> rec@ == store.decisions()[(consumer@, trigger)],
        !final(dropping).decisions().contains_key((consumer@, trigger)),
        forall|other: (Seq<char>, u128)|
            other != (consumer@, trigger) ==> (#[trigger] final(dropping).decisions().contains_key(
                other,
            ) <==> old(dropping).decisions().contains_key(other)) && (old(
                dropping).decisions().contains_key(other) ==> final(dropping).decisions()[other]
                == old(dropping).decisions()[other]),
{
}

/// Retention drops exactly the decisions of the consumer that were sealed
/// before the given time, whose triggers stand at or below the floor, and that
/// are not parked. It counts them, and changes no other.
pub proof fn law_retention_drops_what_is_due<S: DecisionStore>(
    store: &mut S,
    consumer: &str,
    aged_before: Timestamp,
    floor: LogCursor,
    n: u64,
    k: (Seq<char>, u128),
)
    requires
        call_ensures(S::remove_reclaimable, (store, consumer, aged_before, floor), Ok(n)),
    ensures
        ({
            let before = old(store).decisions();
            let after = final(store).decisions();
            let d = before[k];
            let due = d.consumer == consumer@ && d.trigger_position.0 <= floor.0 && !d.parked && (
            d.sealed_at.secs < aged_before.secs || (d.sealed_at.secs == aged_before.secs
                && d.sealed_at.nanos < aged_before.nanos));
            &&& after.contains_key(k) <==> before.contains_key(k) && !due
            &&& after.contains_key(k) ==> after[k] == before[k]
            &&& n == before.dom().len() - after.dom().len()
        }),
{
}

} // verus!
