//! Consumers that apply facts of one type to external state.

use vstd::prelude::*;

use crate::failure::Error;
use crate::fact::Fact;
use crate::types::{LogCursor, Metadata, Timestamp};

verus! {

/// What a materializer is told of the event that carries a fact.
pub struct MaterializeContext<'a> {
    pub event_id: u128,
    pub log_position: LogCursor,
    pub occurred_at: Timestamp,
    pub correlation_id: u128,
    pub metadata: &'a Metadata,
}

/// A consumer of facts of one type. Facts are delivered at least once; it has
/// to be idempotent on the event's id.
pub trait Materializer {
    type Fact: Fact;

    /// The consumers that must not be behind this one.
    const DEPENDS_ON: &'static [&'static str];

    /// Applies a fact to external state.
    fn materialize(&mut self, fact: &Self::Fact, ctx: &MaterializeContext<'_>) -> Result<
        (),
        Error,
    >;
}

} // verus!
