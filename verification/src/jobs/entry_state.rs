//! One job: its state, its result, and the changes that are allowed.
use crate::errors::{ErrorView, SubstrateError};
use crate::ids::JobId;
use crate::text;
use vstd::prelude::*;

verus! {

/// The state of a job.
#[derive(Debug, Clone, Copy, PartialEq, Eq, Structural)]
pub enum JobState {
    Pending,
    Running,
    Succeeded,
    Failed,
    Cancelled,
    TimedOut,
}

impl JobState {
    /// Whether a job in this state has ended.
    pub open spec fn terminal(self) -> bool {
        !(self == JobState::Pending || self == JobState::Running)
    }

    /// Whether a job may go from this state to `next`: it starts to run, and a running
    /// job ends.
    pub open spec fn leads_to(self, next: JobState) -> bool {
        (self == JobState::Pending && next == JobState::Running) || (self == JobState::Running
            && next.terminal())
    }

    /// The name of the state.
    pub open spec fn label(self) -> Seq<char> {
        match self {
            JobState::Pending => "pending"@,
            JobState::Running => "running"@,
            JobState::Succeeded => "succeeded"@,
            JobState::Failed => "failed"@,
            JobState::Cancelled => "cancelled"@,
            JobState::TimedOut => "timed_out"@,
        }
    }

    /// Whether a job in this state has ended.
    pub fn is_terminal(&self) -> (r: bool)
        ensures
            r == self.terminal(),
            r <==> self is Succeeded || self is Failed || self is Cancelled || self is TimedOut,
    {
        match self {
            JobState::Pending => false,
            JobState::Running => false,
            _ => true,
        }
    }

    /// Whether a job may go from this state to `next`.
    pub fn can_transition_to(&self, next: JobState) -> (r: bool)
        ensures
            r == self.leads_to(next),
            self is Pending ==> (r <==> next is Running),
            self is Running ==> (r <==> next is Succeeded || next is Failed || next is Cancelled
                || next is TimedOut),
            !(self is Pending) && !(self is Running) ==> !r,
    {
        match self {
            JobState::Pending => next == JobState::Running,
            JobState::Running => next.is_terminal(),
            _ => false,
        }
    }

    /// The name of the state.
    pub fn name(&self) -> (r: &'static str)
        ensures
            r@ == self.label(),
            match self {
                JobState::Pending => r@ == "pending"@,
                JobState::Running => r@ == "running"@,
                JobState::Succeeded => r@ == "succeeded"@,
                JobState::Failed => r@ == "failed"@,
                JobState::Cancelled => r@ == "cancelled"@,
                JobState::TimedOut => r@ == "timed_out"@,
            },
    {
        match self {
            JobState::Pending => "pending",
            JobState::Running => "running",
            JobState::Succeeded => "succeeded",
            JobState::Failed => "failed",
            JobState::Cancelled => "cancelled",
            JobState::TimedOut => "timed_out",
        }
    }
}

/// A job that has ended stays as it is: no state follows a terminal one.
pub proof fn terminal_states_are_final(state: JobState, next: JobState)
    requires
        state.terminal(),
    ensures
        !state.leads_to(next),
{
}

/// What is known of a job. Times are nanoseconds since the Unix epoch.
#[derive(Debug)]
pub struct JobEntry {
    pub id: JobId,
    pub client_id: String,
    pub tool: String,
    /// The kind of work, as the tool declares it.
    pub bucket: String,
    pub state: JobState,
    pub progress_pct: Option<u8>,
    pub message: Option<String>,
    /// The job's own id.
    pub correlation_id: JobId,
    pub idempotency_key: Option<String>,
    pub started_at: u64,
    pub updated_at: u64,
    /// When the job ended.
    pub terminal_at: Option<u64>,
    pub progress_events_dropped: u64,
}

/// Copies an optional string.
pub(crate) fn copy_text(s: &Option<String>) -> (r: Option<String>)
    ensures
        r == *s,
{
    match s {
        Some(x) => Some(x.clone()),
        None => None,
    }
}

impl JobEntry {
    /// Copies the entry.
    pub fn copied(&self) -> (r: JobEntry)
        ensures
            r == *self,
    {
        JobEntry {
            id: self.id,
            client_id: self.client_id.clone(),
            tool: self.tool.clone(),
            bucket: self.bucket.clone(),
            state: self.state,
            progress_pct: self.progress_pct,
            message: copy_text(&self.message),
            correlation_id: self.correlation_id,
            idempotency_key: copy_text(&self.idempotency_key),
            started_at: self.started_at,
            updated_at: self.updated_at,
            terminal_at: self.terminal_at,
            progress_events_dropped: self.progress_events_dropped,
        }
    }
}

/// How a job ended.
#[derive(Debug)]
pub enum JobResult {
    /// The tool's answer, as JSON text.
    Succeeded(String),
    /// The tool's error, and how it is shown.
    Failed {
        error: SubstrateError,
        shown: String,
    },
    Cancelled,
    TimedOut,
}

impl JobResult {
    /// The state that a job with this result is in.
    pub open spec fn end_state(self) -> JobState {
        match self {
            JobResult::Succeeded(_) => JobState::Succeeded,
            JobResult::Failed { .. } => JobState::Failed,
            JobResult::Cancelled => JobState::Cancelled,
            JobResult::TimedOut => JobState::TimedOut,
        }
    }

    /// The state that a job with this result is in.
    pub fn state(&self) -> (r: JobState)
        ensures
            r == self.end_state(),
            r.terminal(),
            self is Succeeded <==> r is Succeeded,
            self is Failed <==> r is Failed,
            self is Cancelled <==> r is Cancelled,
            self is TimedOut <==> r is TimedOut,
    {
        match self {
            JobResult::Succeeded(_) => JobState::Succeeded,
            JobResult::Failed { .. } => JobState::Failed,
            JobResult::Cancelled => JobState::Cancelled,
            JobResult::TimedOut => JobState::TimedOut,
        }
    }

    /// Copies the result.
    pub fn copied(&self) -> (r: JobResult)
        ensures
            r == *self,
    {
        match self {
            JobResult::Succeeded(v) => JobResult::Succeeded(v.clone()),
            JobResult::Failed { error, shown } => JobResult::Failed {
                error: error.copied(),
                shown: shown.clone(),
            },
            JobResult::Cancelled => JobResult::Cancelled,
            JobResult::TimedOut => JobResult::TimedOut,
        }
    }
}

/// A job with what belongs to it.
#[derive(Debug)]
pub struct JobSlot {
    pub entry: JobEntry,
    /// The result, once the job has ended.
    pub result: Option<JobResult>,
    /// Whether the job was asked to stop.
    pub cancel_requested: bool,
    /// The number of the next progress event.
    pub sequence: u64,
}

/// What a change of state that is not allowed is answered with.
pub open spec fn bad_transition(prev: JobState, next: JobState) -> ErrorView {
    ErrorView::InternalError {
        reason: "invalid state transition "@ + prev.label() + (" -> "@ + next.label()
            + "; current state stays "@) + prev.label(),
        tagged: false,
    }
}

/// The entry of a job that goes to `next` at the time `now`.
pub open spec fn entered(e: JobEntry, next: JobState, now: u64) -> JobEntry {
    JobEntry {
        state: next,
        updated_at: now,
        terminal_at: if next.terminal() {
            Some(now)
        } else {
            e.terminal_at
        },
        ..e
    }
}

impl JobSlot {
    /// A job has a result and an end time exactly when it has ended, and the result
    /// says how.
    pub open spec fn wf(self) -> bool {
        &&& self.entry.state.terminal() <==> self.entry.terminal_at is Some
        &&& self.entry.state.terminal() <==> self.result is Some
        &&& self.result matches Some(r) ==> r.end_state() == self.entry.state
        &&& self.entry.correlation_id == self.entry.id
    }

    /// A job that was just submitted.
    pub fn new(entry: JobEntry) -> (r: JobSlot)
        ensures
            r == (JobSlot { entry, result: None, cancel_requested: false, sequence: 0 }),
    {
        JobSlot { entry, result: None, cancel_requested: false, sequence: 0 }
    }

    /// Copies the slot.
    pub fn copied(&self) -> (r: JobSlot)
        ensures
            r == *self,
    {
        JobSlot {
            entry: self.entry.copied(),
            result: match &self.result {
                Some(x) => Some(x.copied()),
                None => None,
            },
            cancel_requested: self.cancel_requested,
            sequence: self.sequence,
        }
    }

    /// The number of the next progress event; numbers start over after the largest.
    pub fn next_sequence(&mut self) -> (n: u64)
        ensures
            n == old(self).sequence,
            *final(self) == (JobSlot {
                sequence: if n == u64::MAX {
                    0
                } else {
                    (n + 1) as u64
                },
                ..*old(self)
            }),
    {
        let n: u64 = self.sequence;
        self.sequence = n.wrapping_add(1);
        n
    }

    /// Goes to the state `next`. Where that is not allowed, nothing changes.
    pub fn try_transition(&mut self, next: JobState, now: u64) -> (r: Result<
        JobState,
        SubstrateError,
    >)
        ensures
            r is Ok <==> old(self).entry.state.leads_to(next),
            r matches Ok(prev) ==> {
                &&& prev == old(self).entry.state
                &&& *final(self) == JobSlot {
                    entry: entered(old(self).entry, next, now),
                    ..*old(self)
                }
            },
            r matches Err(e) ==> {
                &&& e@ == bad_transition(old(self).entry.state, next)
                &&& *final(self) == *old(self)
            },
            r matches Err(e) ==> e@ == (ErrorView::InternalError {
                reason: "invalid state transition "@ + old(self).entry.state.label() + (" -> "@
                    + next.label() + "; current state stays "@) + old(self).entry.state.label(),
                tagged: false,
            }),
            r is Ok <==> {
                let from = old(self).entry.state;
                ||| from is Pending && next is Running
                ||| from is Running && (next is Succeeded || next is Failed || next is Cancelled
                    || next is TimedOut)
            },
            r is Ok ==> {
                let e = final(self).entry;
                &&& e.state == next
                &&& e.updated_at == now
                &&& e.terminal_at == (if next is Running {
                    old(self).entry.terminal_at
                } else {
                    Some(now)
                })
                &&& e == (JobEntry {
                    state: e.state,
                    updated_at: e.updated_at,
                    terminal_at: e.terminal_at,
                    ..old(self).entry
                })
                &&& final(self).result == old(self).result
            },
    {
        let prev = self.entry.state;
        if !prev.can_transition_to(next) {
            let middle = text::cat3(" -> ", next.name(), "; current state stays ");
            let head = text::cat3("invalid state transition ", prev.name(), middle.as_str());
            let reason = text::cat2(head.as_str(), prev.name());
            return Err(SubstrateError::InternalError { reason, correlation_id: None });
        }
        self.entry.state = next;
        self.entry.updated_at = now;
        if next.is_terminal() {
            self.entry.terminal_at = Some(now);
        }
        Ok(prev)
    }

    /// Ends a running job: its state and its result change together, so that whoever
    /// sees the job ended finds the result. A job that is not running stays as it is.
    pub fn finish(&mut self, result: JobResult, now: u64) -> (ended: bool)
        ensures
            ended == (old(self).entry.state == JobState::Running),
            *final(self) == (if ended {
                JobSlot {
                    entry: entered(old(self).entry, result.end_state(), now),
                    result: Some(result),
                    ..*old(self)
                }
            } else {
                *old(self)
            }),
            old(self).wf() ==> final(self).wf(),
            ended ==> {
                let e = final(self).entry;
                &&& match result {
                    JobResult::Succeeded(_) => e.state is Succeeded,
                    JobResult::Failed { .. } => e.state is Failed,
                    JobResult::Cancelled => e.state is Cancelled,
                    JobResult::TimedOut => e.state is TimedOut,
                }
                &&& e.updated_at == now
                &&& e.terminal_at == Some(now)
                &&& e == (JobEntry {
                    state: e.state,
                    updated_at: now,
                    terminal_at: Some(now),
                    ..old(self).entry
                })
            },
    {
        match self.try_transition(result.state(), now) {
            Ok(_) => {
                self.result = Some(result);
                true
            },
            Err(_) => false,
        }
    }

    /// A copy of what is known of the job.
    pub fn snapshot(&self) -> (r: JobEntry)
        ensures
            r == self.entry,
    {
        self.entry.copied()
    }

    /// Whether the job has ended.
    pub fn is_terminal(&self) -> (r: bool)
        ensures
            r == self.entry.state.terminal(),
    {
        self.entry.state.is_terminal()
    }
}

/// A job runs before it ends, and only once: it can start just from pending, and end just from
/// running, in each of the four ways.
pub proof fn jobs_run_before_they_end(state: JobState, next: JobState)
    ensures
        state.leads_to(JobState::Running) <==> state == JobState::Pending,
        !state.leads_to(JobState::Pending),
        next != JobState::Pending && next != JobState::Running ==> (state.leads_to(next) <==> state
            == JobState::Running),
        !state.leads_to(state),
        state.terminal() <==> !state.leads_to(JobState::Running) && !state.leads_to(
            JobState::Succeeded,
        ),
{
}

/// A change of state is dated, and so is the end; all else about a job stays.
pub proof fn changes_of_state_are_dated(e: JobEntry, next: JobState, now: u64)
    ensures
        entered(e, next, now).state == next,
        entered(e, next, now).updated_at == now,
        next == JobState::Running || next == JobState::Pending ==> entered(e, next, now).terminal_at
            == e.terminal_at,
        next != JobState::Running && next != JobState::Pending ==> entered(e, next, now).terminal_at
            == Some(now),
        entered(e, next, now) == (JobEntry {
            state: next,
            updated_at: now,
            terminal_at: entered(e, next, now).terminal_at,
            ..e
        }),
{
}

} // verus!
