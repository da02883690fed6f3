//! Calendar time, injected: what the runtime stamps on envelopes.

use chrono::Utc;
use vstd::prelude::*;

use crate::types::Timestamp;

verus! {

/// A source of calendar timestamps.
pub trait Clock {
    fn now(&self) -> Timestamp;
}

/// Whether a clock may read `at`.
pub open spec fn may_read<K: Clock>(clock: K, at: Timestamp) -> bool {
    call_ensures(K::now, (&clock,), at)
}

/// `chrono::Utc::now`. What it returns rests on the machine's clock, so
/// nothing is claimed of it.
#[verifier::external_body]
fn wall_clock() -> Timestamp {
    let now = Utc::now();
    Timestamp { secs: now.timestamp(), nanos: now.timestamp_subsec_nanos() }
}

/// Real wall-clock time.
#[derive(Clone, Copy, Debug, Default)]
pub struct SystemClock;

impl Clock for SystemClock {
    fn now(&self) -> Timestamp {
        wall_clock()
    }
}

/// A pinned clock: every stamp is the given instant.
#[derive(Clone, Copy, Debug)]
pub struct FixedClock(pub Timestamp);

impl Clock for FixedClock {
    fn now(&self) -> (at: Timestamp)
        ensures
            at == self.0,
    {
        self.0
    }
}

} // verus!
