//! Exclusive leases: at most one process works on a consumer at a time.

use vstd::prelude::*;

use crate::failure::Error;

verus! {

/// An exclusive hold on a consumer; dropping it releases the lease.
pub trait LeaseGuard {

}

/// Acquires the lease of a consumer before it starts to work.
pub trait ConsumerLeasor {
    type Guard: LeaseGuard;

    fn acquire(&self, consumer_id: &str) -> Result<Self::Guard, Error>;
}

} // verus!
