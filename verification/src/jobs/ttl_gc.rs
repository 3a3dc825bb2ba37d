//! How long ended jobs are kept.
use crate::jobs::entry_state::JobEntry;
use vstd::prelude::*;

verus! {

/// How many nanoseconds a second has.
pub const NANOS_PER_SEC: u128 = 1_000_000_000;

/// Whether a job ended longer ago than ended jobs are kept. Times are nanoseconds
/// since the Unix epoch.
pub open spec fn expired(entry: JobEntry, now: u64, ttl_secs: u64) -> bool {
    match entry.terminal_at {
        Some(t) => now - t > ttl_secs * NANOS_PER_SEC,
        None => false,
    }
}

/// Whether a job ended longer ago than ended jobs are kept.
pub fn is_expired(entry: &JobEntry, now: u64, ttl_secs: u64) -> (r: bool)
    ensures
        r == expired(*entry, now, ttl_secs),
        entry.terminal_at is None ==> !r,
        entry.terminal_at matches Some(t) ==> (r <==> now - t > ttl_secs * 1_000_000_000),
{
    match entry.terminal_at {
        Some(t) => {
            let ttl: u128 = ttl_secs as u128 * NANOS_PER_SEC;
            now > t && (now - t) as u128 > ttl
        },
        None => false,
    }
}

/// What the collector does next.
#[derive(Debug, Clone, Copy, PartialEq, Eq, Structural)]
pub enum GcStep {
    /// Look through the ended jobs.
    Sweep,
    /// End.
    Stop,
}

/// What the collector does once its wait is over or it is told to stop. Being told to
/// stop comes first.
pub fn gc_step(cancelled: bool) -> (r: GcStep)
    ensures
        r == (if cancelled {
            GcStep::Stop
        } else {
            GcStep::Sweep
        }),
{
    if cancelled {
        GcStep::Stop
    } else {
        GcStep::Sweep
    }
}

/// A job is kept for its whole time and not a moment longer, one that has not ended for ever; once
/// its time is over, it stays over.
pub proof fn ended_jobs_are_kept_for_their_time(entry: JobEntry, t: u64, now: u64, later: u64, ttl: u64)
    requires
        entry.terminal_at == Some(t),
        now <= later,
    ensures
        now as int <= t + ttl * 1_000_000_000 ==> !expired(entry, now, ttl),
        now as int > t + ttl * 1_000_000_000 ==> expired(entry, now, ttl),
        expired(entry, now, ttl) ==> expired(entry, later, ttl),
        !expired(JobEntry { terminal_at: None, ..entry }, now, ttl),
{
}

} // verus!
