//! Aggregates of one fact type: the write-side consistency boundary of the
//! outbox engine.

use vstd::prelude::*;

use crate::fact::Fact;

verus! {

/// State folded from the facts of one stream `{CATEGORY}-{id}`.
pub trait Aggregate: Sized {
    type Fact: Fact;

    /// The category of the aggregate's streams.
    const CATEGORY: &'static str;

    /// The state before any fact.
    spec fn initial() -> Self;

    /// The state after a fact.
    spec fn applied(&self, fact: Self::Fact) -> Self;

    fn initial_state() -> (state: Self)
        ensures
            state == Self::initial(),
    ;

    /// The fold of one fact. It is pure: no I/O, no wall clock.
    fn apply(&mut self, fact: &Self::Fact)
        ensures
            *final(self) == old(self).applied(*fact),
    ;
}

} // verus!
