//! Cursor storage per consumer, and the attempt counters of reactors.

use vstd::prelude::*;

use crate::failure::Error;
use crate::types::LogCursor;

verus! {

/// Whether a cursor at `current` moves when asked to advance to `pos`: forward
/// only.
pub open spec fn advances(current: Option<LogCursor>, pos: LogCursor) -> bool {
    match current {
        Some(c) => pos.0 > c.0,
        None => true,
    }
}

/// The monotonic rule, decided.
pub fn should_advance(current: Option<LogCursor>, pos: LogCursor) -> (moves: bool)
    ensures
        moves == advances(current, pos),
{
    match current {
        Some(c) => pos.0 > c.0,
        None => true,
    }
}

/// The cursors of consumers, by name.
pub type Cursors = Map<Seq<char>, LogCursor>;

/// The cursor stored for a consumer.
pub open spec fn cursor_at(cursors: Cursors, consumer_id: Seq<char>) -> Option<LogCursor> {
    if cursors.contains_key(consumer_id) {
        Some(cursors[consumer_id])
    } else {
        None
    }
}

/// The cursors after one was asked to advance.
pub open spec fn advanced(cursors: Cursors, consumer_id: Seq<char>, pos: LogCursor) -> Cursors {
    if advances(cursor_at(cursors, consumer_id), pos) {
        cursors.insert(consumer_id, pos)
    } else {
        cursors
    }
}

/// The consumers whose cursor is strictly ahead of a position.
pub open spec fn ahead_of(cursors: Cursors, tip: LogCursor) -> Set<Seq<char>> {
    cursors.dom().filter(|id: Seq<char>| cursors[id].0 > tip.0)
}

/// The cursors with those ahead of a position brought down to it.
pub open spec fn clamped(cursors: Cursors, tip: LogCursor) -> Cursors {
    cursors.map_values(
        |at: LogCursor|
            if at.0 > tip.0 {
                tip
            } else {
                at
            },
    )
}

/// Cursor reads and writes. Backends implement it.
pub trait CheckpointStore: Sized {
    /// The stored cursors.
    spec fn cursors(&self) -> Cursors;

    fn get(&self, consumer_id: &str) -> (r: Result<Option<LogCursor>, Error>)
        ensures
            r matches Ok(cursor) ==> cursor == cursor_at(self.cursors(), consumer_id@),
    ;

    /// Writes `pos` as it is, backwards too.
    fn set(&mut self, consumer_id: &str, pos: LogCursor) -> (r: Result<(), Error>)
        ensures
            r is Ok ==> final(self).cursors() == old(self).cursors().insert(consumer_id@, pos),
    ;

    /// Moves a cursor forward only; a position at or behind the stored one
    /// changes nothing. As it stands here it fails only where the read of the
    /// stored cursor does, or the write where one is due.
    fn advance(&mut self, consumer_id: &str, pos: LogCursor) -> (r: Result<(), Error>)
        ensures
            r is Ok ==> final(self).cursors() == advanced(old(self).cursors(), consumer_id@, pos),
        default_ensures
            r matches Err(e) ==> ({
                ||| call_ensures(Self::get, (&*old(self), consumer_id), Err(e)) && *final(self)
                    == *old(self)
                ||| advances(cursor_at(old(self).cursors(), consumer_id@), pos) && exists|
                    store: &mut Self,
                |
                    *store == *old(self) && *final(store) == *final(self) && #[trigger] call_ensures(
                        Self::set,
                        (store, consumer_id, pos),
                        Err(e),
                    )
            }),
    {
        let current = match self.get(consumer_id) {
            Ok(current) => current,
            Err(e) => {
                return Err(e);
            },
        };
        if should_advance(current, pos) {
            self.set(consumer_id, pos)
        } else {
            Ok(())
        }
    }

    /// Brings every cursor that is ahead of `tip` down to it and returns how
    /// many were moved. A store that cannot list its consumers moves none.
    fn clamp_ahead_of(&mut self, tip: LogCursor) -> (r: Result<u64, Error>)
        ensures
            r matches Ok(n) ==> {
                ||| n == 0 && final(self).cursors() == old(self).cursors()
                ||| n == ahead_of(old(self).cursors(), tip).len() && final(self).cursors()
                    == clamped(old(self).cursors(), tip)
            },
        default_ensures
            r == Ok::<u64, Error>(0),
            final(self).cursors() == old(self).cursors(),
    {
        Ok(0)
    }
}

/// Attempt counters for reactors on top of cursors. Backends implement it.
pub trait ReactorCheckpoint: CheckpointStore {
    /// The failed attempts so far, by consumer and trigger.
    spec fn attempts(&self) -> Map<(Seq<char>, u128), u32>;

    /// Counts one more failed attempt and returns the count with it.
    fn record_reactor_attempt(&mut self, consumer_id: &str, trigger_id: u128) -> (r: Result<
        u32,
        Error,
    >)
        ensures
            r matches Ok(n) ==> n == 1 + (if old(self).attempts().contains_key(
                (consumer_id@, trigger_id),
            ) {
                old(self).attempts()[(consumer_id@, trigger_id)]
            } else {
                0
            }) && final(self).attempts() == old(self).attempts().insert(
                (consumer_id@, trigger_id),
                n,
            ),
    ;

    /// Forgets the counter.
    fn clear_reactor_attempts(&mut self, consumer_id: &str, trigger_id: u128) -> (r: Result<
        (),
        Error,
    >)
        ensures
            r is Ok ==> final(self).attempts() == old(self).attempts().remove(
                (consumer_id@, trigger_id),
            ),
    ;
}

/// However advances interleave, a cursor never moves back.
pub proof fn law_advance_is_monotonic(
    cursors: Cursors,
    consumer_id: Seq<char>,
    pos: LogCursor,
)
    ensures
        cursor_at(advanced(cursors, consumer_id, pos), consumer_id) matches Some(after) && after.0
            >= pos.0 && (cursor_at(cursors, consumer_id) matches Some(before) ==> after.0
            >= before.0),
        forall|other: Seq<char>|
            other != consumer_id ==> cursor_at(advanced(cursors, consumer_id, pos), other)
                == #[trigger] cursor_at(cursors, other),
{
}

/// The order of two advances does not matter.
pub proof fn law_advances_commute(
    cursors: Cursors,
    consumer_id: Seq<char>,
    a: LogCursor,
    b: LogCursor,
)
    ensures
        advanced(advanced(cursors, consumer_id, a), consumer_id, b) == advanced(
            advanced(cursors, consumer_id, b),
            consumer_id,
            a,
        ),
{
    assert(advanced(advanced(cursors, consumer_id, a), consumer_id, b) =~= advanced(
        advanced(cursors, consumer_id, b),
        consumer_id,
        a,
    ));
}

/// A cursor moves exactly where it is asked to go further than it stands, or
/// stands nowhere yet.
pub proof fn law_cursors_move_forward_only(
    current: Option<LogCursor>,
    pos: LogCursor,
    moves: bool,
)
    requires
        call_ensures(should_advance, (current, pos), moves),
    ensures
        moves <==> (current matches Some(c) ==> pos.0 > c.0),
{
}

/// An advance that succeeds leaves the cursor where it was asked to go, or
/// where it stood if that is further, and moves no other.
pub proof fn law_advance_goes_no_further<C: CheckpointStore>(
    store: &mut C,
    consumer_id: &str,
    pos: LogCursor,
)
    requires
        call_ensures(C::advance, (store, consumer_id, pos), Ok(())),
    ensures
        final(store).cursors().contains_key(consumer_id@),
        ({
            let after = final(store).cursors()[consumer_id@];
            if old(store).cursors().contains_key(consumer_id@) && old(
                store).cursors()[consumer_id@].0 >= pos.0 {
                after == old(store).cursors()[consumer_id@]
            } else {
                after == pos
            }
        }),
        forall|other: Seq<char>|
            other != consumer_id@ ==> (#[trigger] final(store).cursors().contains_key(other)
                <==> old(store).cursors().contains_key(other)) && (old(
                store).cursors().contains_key(other) ==> final(store).cursors()[other] == old(
                store).cursors()[other]),
{
}

/// Clamping brings down exactly the cursors that are ahead, to the tip, and
/// counts them; a store that cannot tell moves none. None is lost or made, and
/// none moves forward.
pub proof fn law_clamping_only_brings_down<C: CheckpointStore>(
    store: &mut C,
    tip: LogCursor,
    n: u64,
)
    requires
        call_ensures(C::clamp_ahead_of, (store, tip), Ok(n)),
    ensures
        final(store).cursors().dom() == old(store).cursors().dom(),
        final(store).cursors() == old(store).cursors() || forall|id: Seq<char>| #[trigger]
            old(store).cursors().contains_key(id) ==> final(store).cursors()[id] == (if old(
                store).cursors()[id].0 > tip.0 {
                tip
            } else {
                old(store).cursors()[id]
            }),
        forall|id: Seq<char>| #[trigger]
            old(store).cursors().contains_key(id) ==> final(store).cursors()[id].0 <= old(
                store).cursors()[id].0,
        n > 0 ==> n == old(store).cursors().dom().filter(
            |id: Seq<char>| old(store).cursors()[id].0 > tip.0,
        ).len(),
{
    assert(final(store).cursors().dom() =~= old(store).cursors().dom());
    assert(ahead_of(old(store).cursors(), tip) =~= old(store).cursors().dom().filter(
        |id: Seq<char>| old(store).cursors()[id].0 > tip.0,
    ));
}

} // verus!
