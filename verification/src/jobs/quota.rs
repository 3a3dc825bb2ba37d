//! Quotas on concurrent jobs: counters with an upper bound, and reservations that
//! can be taken back.
use crate::errors::{ErrorView, SubstrateError};
use vstd::prelude::*;

verus! {

/// What a request beyond a quota is answered with.
pub open spec fn quota_exceeded(detail: Seq<char>) -> ErrorView {
    ErrorView::QuotaExceeded { detail, tagged: false }
}

/// Counts one more, up to `max`. A counter that is at `max` stays as it is.
pub fn try_increment(counter: &mut usize, max: usize, detail: &str) -> (r: Result<(), SubstrateError>)
    ensures
        r is Ok <==> *old(counter) < max,
        *final(counter) == (if *old(counter) < max {
            (*old(counter) + 1) as usize
        } else {
            *old(counter)
        }),
        r matches Err(e) ==> e@ == quota_exceeded(detail@),
{
    if *counter >= max {
        return Err(
            SubstrateError::QuotaExceeded { detail: detail.to_owned(), correlation_id: None },
        );
    }
    *counter = *counter + 1;
    Ok(())
}

/// Counts one less, and stops at zero.
pub fn decrement(counter: &mut usize)
    ensures
        *final(counter) == (if *old(counter) == 0 {
            0
        } else {
            (*old(counter) - 1) as usize
        }),
{
    *counter = counter.saturating_sub(1);
}

/// A place under a quota that is taken for the time being.
#[derive(Debug)]
pub struct QuotaGuard {
    count: usize,
}

impl QuotaGuard {
    /// The counter with the place taken.
    pub closed spec fn count(&self) -> usize {
        self.count
    }

    /// Takes a place, where the counter is below `max`.
    pub fn try_acquire(counter: usize, max: usize, detail: &str) -> (r: Result<
        QuotaGuard,
        SubstrateError,
    >)
        ensures
            r is Ok <==> counter < max,
            r matches Ok(g) ==> g.count() == counter + 1,
            r matches Err(e) ==> e@ == quota_exceeded(detail@),
    {
        let mut count: usize = counter;
        match try_increment(&mut count, max, detail) {
            Ok(()) => Ok(QuotaGuard { count }),
            Err(e) => Err(e),
        }
    }

    /// Keeps the place: the counter stays as it is until the job ends.
    pub fn commit(self) -> (counter: usize)
        ensures
            counter == self.count(),
    {
        self.count
    }

    /// Gives the place back.
    pub fn rollback(self) -> (counter: usize)
        ensures
            counter == (if self.count() == 0 {
                0
            } else {
                (self.count() - 1) as usize
            }),
    {
        let mut count: usize = self.count;
        decrement(&mut count);
        count
    }
}

} // verus!
