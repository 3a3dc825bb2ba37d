//! Cancellation on request of the client.
use crate::errors::SubstrateError;
use crate::ids::{crockford_id, JobId};
use crate::jobs::entry_state::{JobSlot, JobState};
use crate::jobs::registry::{no_such_job, InMemoryJobRegistry, RegistryView};
use vstd::prelude::*;

verus! {

/// Cancels the job that a progress token names: the token is the text of the job's id.
pub fn handle_mcp_cancelled(registry: &mut InMemoryJobRegistry, progress_token: &str) -> (r: Result<
    JobState,
    SubstrateError,
>)
    requires
        old(registry).wf(),
    ensures
        final(registry).wf(),
        final(registry).quotas() == old(registry).quotas(),
        match crockford_id(progress_token@) {
            None => {
                &&& r matches Err(e)
                &&& e@ == JobId::malformed()
                &&& final(registry)@ == old(registry)@
            },
            Some(id) => if old(registry)@.jobs.contains_key(id) {
                let slot = old(registry)@.jobs[id];
                &&& r == Ok::<JobState, SubstrateError>(slot.entry.state)
                &&& final(registry)@ == (if slot.entry.state.terminal() {
                    old(registry)@
                } else {
                    RegistryView {
                        jobs: old(registry)@.jobs.insert(
                            id,
                            JobSlot { cancel_requested: true, ..slot },
                        ),
                        ..old(registry)@
                    }
                })
            } else {
                &&& r matches Err(e)
                &&& e@ == no_such_job(JobId { raw: id })
                &&& final(registry)@ == old(registry)@
            },
        },
        r matches Ok(state) ==> crockford_id(progress_token@) matches Some(id) && {
            let slot = old(registry)@.jobs[id];
            &&& old(registry)@.jobs.contains_key(id)
            &&& state == slot.entry.state
            &&& state is Pending || state is Running ==> final(registry)@.jobs == old(
                registry,
            )@.jobs.insert(id, JobSlot { cancel_requested: true, ..slot })
            &&& !(state is Pending) && !(state is Running) ==> final(registry)@ == old(registry)@
        },
        crockford_id(progress_token@) is None ==> (r matches Err(e) && e@ == (
        crate::errors::ErrorView::InvalidArgument {
            offending_field: "job_id"@,
            reason: "not a valid 26-character Crockford base32 string"@,
            tagged: false,
        })),
{
    match JobId::parse_crockford(progress_token) {
        Ok(id) => registry.cancel(id),
        Err(e) => Err(e),
    }
}

} // verus!
