//! `Aggregate` and `Apply`: state folded from events.

use vstd::prelude::*;

use crate::event::Event;

verus! {

/// State folded from events. What it does with each event is in [`Apply`].
pub trait Aggregate: Sized {
    /// Stable identifier of the aggregate type; part of every state key and of
    /// what is written to disk.
    const NAME: &'static str;

    /// The category of the one stream the aggregate folds from. Empty: the
    /// aggregate fans in from several streams and cannot be restored.
    const SUBJECT: &'static str = "";

    /// Whether the aggregate's event kinds may only be written by the
    /// conditional append path.
    const INVARIANT: bool = false;

    /// The state before any event.
    spec fn initial() -> Self;

    fn initial_state() -> (state: Self)
        ensures
            state == Self::initial(),
    ;

    fn copy_state(&self) -> (state: Self)
        ensures
            state == *self,
    ;
}

/// The fold of one event type. It is pure: no I/O, no wall clock.
pub trait Apply<F: Event>: Aggregate {
    /// The state after `fact`.
    spec fn applied(&self, fact: F) -> Self;

    fn apply(&mut self, fact: &F)
        ensures
            *final(self) == old(self).applied(*fact),
    ;
}

} // verus!
