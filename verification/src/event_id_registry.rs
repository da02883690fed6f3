//! An authoritative index of appended event ids.
//!
//! Before an append without expectation the ids of the batch are looked up:
//! all present is a redelivery, none present a new append, and anything
//! between is an error.

use std::collections::HashMap;
use vstd::prelude::*;

use crate::failure::Error;
use crate::types::{LogCursor, StreamRevision};

verus! {

/// A registered event: its id and where the write that landed it ended.
#[derive(Clone, Copy, Debug, PartialEq, Eq, Structural)]
pub struct EventIdEntry {
    pub event_id: u128,
    pub stream_position: LogCursor,
    pub stream_revision: StreamRevision,
}

/// What is registered for an id.
pub open spec fn entry_of(entries: Map<u128, EventIdEntry>, id: u128) -> Option<EventIdEntry> {
    if entries.contains_key(id) {
        Some(entries[id])
    } else {
        None
    }
}

/// The index after `added` were registered in order: an id that is there
/// stays as it is.
pub open spec fn registered(
    entries: Map<u128, EventIdEntry>,
    added: Seq<EventIdEntry>,
) -> Map<u128, EventIdEntry>
    decreases added.len(),
{
    if added.len() == 0 {
        entries
    } else {
        let before = registered(entries, added.drop_last());
        if before.contains_key(added.last().event_id) {
            before
        } else {
            before.insert(added.last().event_id, added.last())
        }
    }
}

/// The index of appended ids. Backends implement it.
pub trait EventIdRegistry: Sized {
    spec fn entries(&self) -> Map<u128, EventIdEntry>;

    /// What is registered for each id, in the order of the ids.
    fn lookup(&self, event_ids: &[u128]) -> (r: Result<Vec<Option<EventIdEntry>>, Error>)
        ensures
            r matches Ok(found) ==> found@.len() == event_ids@.len() && forall|i: int|
                0 <= i < found@.len() ==> #[trigger] found@[i] == entry_of(
                    self.entries(),
                    event_ids@[i],
                ),
    ;

    /// Registers entries, first write wins.
    fn register(&mut self, entries: &[EventIdEntry]) -> (r: Result<(), Error>)
        ensures
            r is Ok ==> final(self).entries() == registered(old(self).entries(), entries@),
    ;
}

/// How a batch stands in the index.
#[derive(Clone, Copy, Debug, PartialEq, Eq, Structural)]
pub enum BatchPresence {
    /// No id is registered.
    Absent,
    /// Every id is registered; `last` is the entry of the last one.
    Redelivery { last: EventIdEntry },
    /// Some ids are registered and some are not.
    PartialOverlap,
}

/// Some item of a lookup was found.
pub open spec fn any_found(found: Seq<Option<EventIdEntry>>) -> bool {
    exists|i: int| 0 <= i < found.len() && (#[trigger] found[i]) is Some
}

/// Every item of a lookup was found.
pub open spec fn all_found(found: Seq<Option<EventIdEntry>>) -> bool {
    forall|i: int| 0 <= i < found.len() ==> (#[trigger] found[i]) is Some
}

/// How a batch stands, given what was found for its ids.
pub open spec fn presence(found: Seq<Option<EventIdEntry>>) -> BatchPresence {
    if !any_found(found) {
        BatchPresence::Absent
    } else if all_found(found) {
        BatchPresence::Redelivery { last: found.last()->0 }
    } else {
        BatchPresence::PartialOverlap
    }
}

/// What is registered for each of a batch of ids.
pub open spec fn found_in(entries: Map<u128, EventIdEntry>, ids: Seq<u128>) -> Seq<
    Option<EventIdEntry>,
> {
    Seq::new(ids.len(), |i: int| entry_of(entries, ids[i]))
}

/// Classifies the outcome of a lookup.
pub fn classify_found(found: &Vec<Option<EventIdEntry>>) -> (p: BatchPresence)
    ensures
        p == presence(found@),
{
    let mut present: usize = 0;
    let mut i: usize = 0;
    while i < found.len()
        invariant
            i <= found@.len(),
            present <= i,
            present == 0 <==> forall|j: int| 0 <= j < i ==> (#[trigger] found@[j]) is None,
            present == i <==> forall|j: int| 0 <= j < i ==> (#[trigger] found@[j]) is Some,
        decreases found@.len() - i,
    {
        if found[i].is_some() {
            present += 1;
        }
        i += 1;
    }
    if present == 0 {
        return BatchPresence::Absent;
    }
    if present < found.len() {
        assert(any_found(found@));
        return BatchPresence::PartialOverlap;
    }
    assert(found@[0] is Some);
    match found[found.len() - 1] {
        Some(last) => BatchPresence::Redelivery { last },
        None => BatchPresence::PartialOverlap,
    }
}

/// Classifies a batch with one lookup. An empty batch is absent, whatever the
/// registry says.
pub fn classify_batch<R: EventIdRegistry>(registry: &R, batch_ids: &[u128]) -> (r: Result<
    BatchPresence,
    Error,
>)
    ensures
        match r {
            Ok(p) => p == presence(found_in(registry.entries(), batch_ids@)),
            Err(e) => batch_ids@.len() > 0 && call_ensures(
                R::lookup,
                (registry, batch_ids),
                Err(e),
            ),
        },
{
    if batch_ids.len() == 0 {
        assert(presence(found_in(registry.entries(), batch_ids@)) == BatchPresence::Absent);
        return Ok(BatchPresence::Absent);
    }
    match registry.lookup(batch_ids) {
        Ok(found) => {
            assert(found@ =~= found_in(registry.entries(), batch_ids@));
            Ok(classify_found(&found))
        },
        Err(e) => Err(e),
    }
}

/// An in-memory [`EventIdRegistry`].
pub struct InMemoryEventIdRegistry {
    inner: HashMap<u128, EventIdEntry>,
}

impl InMemoryEventIdRegistry {
    pub fn new() -> (registry: Self)
        ensures
            registry.entries() == Map::<u128, EventIdEntry>::empty(),
    {
        InMemoryEventIdRegistry { inner: HashMap::new() }
    }
}

impl Default for InMemoryEventIdRegistry {
    fn default() -> (registry: Self)
        ensures
            registry.entries() == Map::<u128, EventIdEntry>::empty(),
    {
        InMemoryEventIdRegistry::new()
    }
}

impl EventIdRegistry for InMemoryEventIdRegistry {
    closed spec fn entries(&self) -> Map<u128, EventIdEntry> {
        self.inner@
    }

    fn lookup(&self, event_ids: &[u128]) -> (r: Result<Vec<Option<EventIdEntry>>, Error>)
        ensures
            r is Ok,
    {
        broadcast use vstd::std_specs::hash::group_hash_axioms;

        let mut found: Vec<Option<EventIdEntry>> = Vec::new();
        let mut i: usize = 0;
        while i < event_ids.len()
            invariant
                i <= event_ids@.len(),
                found@.len() == i,
                forall|j: int|
                    0 <= j < i ==> #[trigger] found@[j] == entry_of(
                        self.entries(),
                        event_ids@[j],
                    ),
            decreases event_ids@.len() - i,
        {
            let entry = match self.inner.get(&event_ids[i]) {
                Some(entry) => Some(*entry),
                None => None,
            };
            found.push(entry);
            i += 1;
        }
        Ok(found)
    }

    fn register(&mut self, entries: &[EventIdEntry]) -> (r: Result<(), Error>)
        ensures
            r is Ok,
    {
        broadcast use vstd::std_specs::hash::group_hash_axioms;

        let mut i: usize = 0;
        assert(entries@.take(0) =~= Seq::<EventIdEntry>::empty());
        while i < entries.len()
            invariant
                i <= entries@.len(),
                self.entries() == registered(old(self).entries(), entries@.take(i as int)),
            decreases entries@.len() - i,
        {
            let entry = entries[i];
            assert(entries@.take(i + 1).drop_last() =~= entries@.take(i as int));
            if !self.inner.contains_key(&entry.event_id) {
                self.inner.insert(entry.event_id, entry);
            }
            i += 1;
        }
        assert(entries@.take(i as int) =~= entries@);
        Ok(())
    }
}

proof fn lemma_registered(
    entries: Map<u128, EventIdEntry>,
    added: Seq<EventIdEntry>,
    id: u128,
)
    ensures
        entries.contains_key(id) ==> registered(entries, added).contains_key(id) && registered(
            entries,
            added,
        )[id] == entries[id],
        forall|i: int|
            0 <= i < added.len() ==> registered(entries, added).contains_key(
                (#[trigger] added[i]).event_id,
            ),
        registered(entries, added).contains_key(id) && !entries.contains_key(id) ==> exists|i: int|
            0 <= i < added.len() && registered(entries, added)[id] == #[trigger] added[i]
                && added[i].event_id == id,
    decreases added.len(),
{
    if added.len() > 0 {
        let head = added.drop_last();
        lemma_registered(entries, head, id);
        assert forall|i: int| 0 <= i < added.len() implies registered(entries, added).contains_key(
            (#[trigger] added[i]).event_id,
        ) by {
            if i < head.len() {
                assert(added[i] == head[i]);
            }
        }
        if registered(entries, added).contains_key(id) && !entries.contains_key(id) {
            if registered(entries, head).contains_key(id) {
                let i = choose|i: int|
                    0 <= i < head.len() && registered(entries, head)[id] == #[trigger] head[i]
                        && head[i].event_id == id;
                assert(added[i] == head[i]);
            } else {
                assert(added[added.len() - 1].event_id == id);
            }
        }
    }
}

/// First write wins: registering never changes an entry that is there, and a
/// batch registered twice is as registered once.
pub proof fn law_first_registration_wins(
    entries: Map<u128, EventIdEntry>,
    added: Seq<EventIdEntry>,
    id: u128,
)
    ensures
        entries.contains_key(id) ==> entry_of(registered(entries, added), id) == entry_of(
            entries,
            id,
        ),
        registered(registered(entries, added), added) == registered(entries, added),
{
    lemma_registered(entries, added, id);
    lemma_same_again(registered(entries, added), added, entries);
}

proof fn lemma_same_again(
    after: Map<u128, EventIdEntry>,
    added: Seq<EventIdEntry>,
    entries: Map<u128, EventIdEntry>,
)
    requires
        forall|i: int| 0 <= i < added.len() ==> after.contains_key((#[trigger] added[i]).event_id),
    ensures
        registered(after, added) == after,
    decreases added.len(),
{
    if added.len() > 0 {
        let head = added.drop_last();
        assert forall|i: int| 0 <= i < head.len() implies after.contains_key(
            (#[trigger] head[i]).event_id,
        ) by {
            assert(head[i] == added[i]);
        }
        lemma_same_again(after, head, entries);
        assert(after.contains_key(added[added.len() - 1].event_id));
    }
}

/// A non-empty batch of ids none of which is registered is absent; once it has
/// been registered as one write it is a redelivery that carries that write's
/// end.
pub proof fn law_registered_batch_is_redelivery(
    entries: Map<u128, EventIdEntry>,
    ids: Seq<u128>,
    position: LogCursor,
    revision: StreamRevision,
)
    requires
        ids.len() > 0,
        forall|i: int| 0 <= i < ids.len() ==> !entries.contains_key(#[trigger] ids[i]),
    ensures
        presence(found_in(entries, ids)) == BatchPresence::Absent,
        ({
            let batch = Seq::new(
                ids.len(),
                |i: int|
                    EventIdEntry {
                        event_id: ids[i],
                        stream_position: position,
                        stream_revision: revision,
                    },
            );
            presence(found_in(registered(entries, batch), ids)) == BatchPresence::Redelivery {
                last: EventIdEntry {
                    event_id: ids.last(),
                    stream_position: position,
                    stream_revision: revision,
                },
            }
        }),
{
    let batch = Seq::new(
        ids.len(),
        |i: int|
            EventIdEntry {
                event_id: ids[i],
                stream_position: position,
                stream_revision: revision,
            },
    );
    let after = registered(entries, batch);
    let found = found_in(after, ids);
    assert(presence(found_in(entries, ids)) == BatchPresence::Absent) by {
        assert forall|i: int| 0 <= i < ids.len() implies (#[trigger] found_in(entries, ids)[i])
            is None by {
            assert(!entries.contains_key(ids[i]));
        }
    }
    assert forall|i: int| 0 <= i < ids.len() implies (#[trigger] found[i]) == Some(
        EventIdEntry { event_id: ids[i], stream_position: position, stream_revision: revision },
    ) by {
        lemma_registered(entries, batch, ids[i]);
        assert(batch[i].event_id == ids[i]);
        assert(!entries.contains_key(ids[i]));
    }
    assert(found[0] is Some);
    assert(found[found.len() - 1] is Some);
}

/// A batch is new exactly where none of its ids is found, a redelivery exactly
/// where each is and there is one, and it overlaps exactly where some are and
/// some are not. A redelivery carries what is registered for the last id.
pub proof fn law_presence_is_all_or_nothing(
    found: &Vec<Option<EventIdEntry>>,
    p: BatchPresence,
)
    requires
        call_ensures(classify_found, (found,), p),
    ensures
        p is Absent <==> forall|i: int| 0 <= i < found@.len() ==> (#[trigger] found@[i]) is None,
        p is Redelivery <==> found@.len() > 0 && forall|i: int|
            0 <= i < found@.len() ==> (#[trigger] found@[i]) is Some,
        p matches BatchPresence::Redelivery { last } ==> found@[found@.len() - 1] == Some(last),
        p is PartialOverlap <==> exists|i: int, j: int|
            0 <= i < found@.len() && 0 <= j < found@.len() && (#[trigger] found@[i]) is Some && (
            #[trigger] found@[j]) is None,
{
    if !any_found(found@) {
        assert forall|i: int| 0 <= i < found@.len() implies (#[trigger] found@[i]) is None by {
            if found@[i] is Some {
                assert(any_found(found@));
            }
        }
        if found@.len() > 0 {
            assert(found@[0] is None);
        }
    } else {
        let i = choose|i: int| 0 <= i < found@.len() && (#[trigger] found@[i]) is Some;
        if !all_found(found@) {
            let j = choose|j: int| 0 <= j < found@.len() && !((#[trigger] found@[j]) is Some);
            assert(found@[i] is Some && found@[j] is None);
        }
    }
}

/// The same of a batch of ids and a registry.
pub proof fn law_batches_are_looked_up<R: EventIdRegistry>(
    registry: &R,
    ids: &[u128],
    p: BatchPresence,
)
    requires
        call_ensures(classify_batch::<R>, (registry, ids), Ok(p)),
    ensures
        p is Absent <==> forall|i: int|
            0 <= i < ids@.len() ==> !registry.entries().contains_key(#[trigger] ids@[i]),
        p is Redelivery <==> ids@.len() > 0 && forall|i: int|
            0 <= i < ids@.len() ==> registry.entries().contains_key(#[trigger] ids@[i]),
        p matches BatchPresence::Redelivery { last } ==> registry.entries()[ids@[ids@.len() - 1]]
            == last,
        p is PartialOverlap <==> exists|i: int, j: int|
            0 <= i < ids@.len() && 0 <= j < ids@.len() && registry.entries().contains_key(
                #[trigger] ids@[i],
            ) && !registry.entries().contains_key(#[trigger] ids@[j]),
{
    let found = found_in(registry.entries(), ids@);
    assert forall|i: int| 0 <= i < ids@.len() implies (registry.entries().contains_key(
        #[trigger] ids@[i],
    ) <==> found[i] is Some) by {}
    if any_found(found) {
        let i = choose|i: int| 0 <= i < found.len() && (#[trigger] found[i]) is Some;
        assert(registry.entries().contains_key(ids@[i]));
        if !all_found(found) {
            let j = choose|j: int| 0 <= j < found.len() && !((#[trigger] found[j]) is Some);
            assert(!registry.entries().contains_key(ids@[j]));
        } else {
            assert forall|j: int| 0 <= j < ids@.len() implies registry.entries().contains_key(
                #[trigger] ids@[j],
            ) by {
                assert(found[j] is Some);
            }
        }
    } else {
        assert forall|i: int| 0 <= i < ids@.len() implies !registry.entries().contains_key(
            #[trigger] ids@[i],
        ) by {
            if found[i] is Some {
                assert(any_found(found));
            }
        }
        if ids@.len() > 0 {
            assert(!registry.entries().contains_key(ids@[0]));
        }
    }
}

/// Registering adds an entry for every id that had none, the first one given,
/// and nothing else; what was there stays. A lookup then finds each as it
/// stands.
pub proof fn law_registering_adds_the_first<R: EventIdRegistry>(
    registry: &mut R,
    added: &[EventIdEntry],
    id: u128,
)
    requires
        call_ensures(R::register, (registry, added), Ok(())),
    ensures
        old(registry).entries().contains_key(id) ==> final(registry).entries().contains_key(id)
            && final(registry).entries()[id] == old(registry).entries()[id],
        final(registry).entries().contains_key(id) <==> old(registry).entries().contains_key(id)
            || exists|i: int| 0 <= i < added@.len() && (#[trigger] added@[i]).event_id == id,
        forall|i: int|
            {
                &&& 0 <= i < added@.len()
                &&& added@[i].event_id == id
                &&& !old(registry).entries().contains_key(id)
                &&& forall|j: int| 0 <= j < i ==> (#[trigger] added@[j]).event_id != id
            } ==> final(registry).entries()[id] == #[trigger] added@[i],
{
    lemma_registered(old(registry).entries(), added@, id);
    if !old(registry).entries().contains_key(id) {
        lemma_first_added(old(registry).entries(), added@, id);
    }
}

proof fn lemma_first_added(
    entries: Map<u128, EventIdEntry>,
    added: Seq<EventIdEntry>,
    id: u128,
)
    requires
        !entries.contains_key(id),
    ensures
        forall|i: int|
            0 <= i < added.len() && added[i].event_id == id && (forall|j: int|
                0 <= j < i ==> (#[trigger] added[j]).event_id != id) ==> registered(
                entries,
                added,
            )[id] == #[trigger] added[i],
    decreases added.len(),
{
    if added.len() > 0 {
        let head = added.drop_last();
        lemma_first_added(entries, head, id);
        lemma_registered(entries, head, id);
        assert forall|i: int|
            0 <= i < added.len() && added[i].event_id == id && (forall|j: int|
                0 <= j < i ==> (#[trigger] added[j]).event_id != id) implies registered(
            entries,
            added,
        )[id] == #[trigger] added[i] by {
            if i < head.len() {
                assert(head[i] == added[i]);
                assert forall|j: int| 0 <= j < i implies (#[trigger] head[j]).event_id != id by {
                    assert(added[j].event_id != id);
                }
                assert(registered(entries, head).contains_key(head[i].event_id));
            } else {
                if registered(entries, head).contains_key(id) {
                    let k = choose|k: int|
                        0 <= k < head.len() && registered(entries, head)[id] == #[trigger] head[k]
                            && head[k].event_id == id;
                    assert(added[k].event_id == id);
                }
            }
        }
    }
}

/// A lookup answers for each id in its place, with what is registered for it.
pub proof fn law_lookups_answer_in_place<R: EventIdRegistry>(
    registry: &R,
    ids: &[u128],
    found: Vec<Option<EventIdEntry>>,
)
    requires
        call_ensures(R::lookup, (registry, ids), Ok(found)),
    ensures
        found@.len() == ids@.len(),
        forall|i: int|
            0 <= i < ids@.len() ==> (match #[trigger] found@[i] {
                Some(entry) => registry.entries().contains_key(ids@[i])
                    && registry.entries()[ids@[i]] == entry,
                None => !registry.entries().contains_key(ids@[i]),
            }),
{
}

} // verus!
