//! Jobs: quotas, states, progress, results and pages.
use substrate::errors::SubstrateError;
use substrate::ids::JobId;
use substrate::jobs::cancel::handle_mcp_cancelled;
use substrate::jobs::entry_state::{JobEntry, JobResult, JobSlot, JobState};
use substrate::jobs::quota::{decrement, try_increment, QuotaGuard};
use substrate::jobs::registry::{
    clone_job_result, clone_substrate_error, decode_cursor, encode_cursor, offset_of, result_after_wait,
    IdempotencyDedupKey, InMemoryJobRegistry, JobQuotas, JobSubmitRequest, PageCursor, ResultStep, WaitOutcome,
};
use substrate::jobs::throttle::ProgressThrottler;
use substrate::jobs::ttl_gc::{gc_step, is_expired, GcStep};

const SECOND: u64 = 1_000_000_000;

fn quotas() -> JobQuotas {
    JobQuotas {
        max_concurrent: 8,
        max_per_client: 4,
        result_max_wait_ms: 30_000,
        result_ttl_secs: 300,
        gc_interval_secs: 60,
    }
}

fn request(client: &str, key: Option<&str>) -> JobSubmitRequest {
    JobSubmitRequest {
        client_id: client.to_owned(),
        tool: "archive_tar_create".to_owned(),
        bucket: "always_async".to_owned(),
        idempotency_key: key.map(str::to_owned),
        args_json: "{\"src\":\"/tmp/test\"}".to_owned(),
    }
}

// ---- Progress -------------------------------------------------------------------

#[test]
fn first_event_always_emits() {
    let mut t = ProgressThrottler::new(250, 1);
    assert!(t.should_emit(1_000_000_000, 0));
}

#[test]
fn suppressed_within_interval_and_below_pct_threshold() {
    let mut t = ProgressThrottler::new(250, 1);
    // First emit at t=1 s (non-zero to avoid zero-elapsed edge case).
    assert!(t.should_emit(1_000_000_000, 0));
    // Second emit 100 ms later, same pct — should be suppressed.
    assert!(!t.should_emit(1_100_000_000, 0));
}

#[test]
fn forced_by_pct_delta() {
    let mut t = ProgressThrottler::new(250, 1);
    // First emit at t=1 s.
    assert!(t.should_emit(1_000_000_000, 0));
    // Only 10 ms elapsed but pct jumped 5 points — should emit.
    assert!(t.should_emit(1_010_000_000, 5));
}

#[test]
fn forced_by_interval() {
    let mut t = ProgressThrottler::new(250, 1);
    assert!(t.should_emit(0, 50));
    // 300 ms elapsed, pct unchanged — should emit due to interval.
    assert!(t.should_emit(300_000_000, 50));
}

// ---- Quotas ---------------------------------------------------------------------

#[test]
fn try_increment_succeeds_below_max() {
    let mut c = 0usize;
    try_increment(&mut c, 2, "test").expect("should succeed");
    assert_eq!(c, 1);
}

#[test]
fn try_increment_fails_at_max() {
    let mut c = 2usize;
    let err = try_increment(&mut c, 2, "test").expect_err("should fail at cap");
    assert_eq!(err.code(), "SUBSTRATE_QUOTA_EXCEEDED");
    assert_eq!(c, 2);
}

#[test]
fn quota_guard_rollback_on_drop() {
    let mut c = 0usize;
    let guard = QuotaGuard::try_acquire(c, 10, "test").expect("should acquire");
    c = guard.rollback();
    assert_eq!(c, 0);
}

#[test]
fn quota_guard_no_rollback_after_commit() {
    let mut c = 0usize;
    let guard = QuotaGuard::try_acquire(c, 10, "test").expect("should acquire");
    c += guard.commit();
    assert_eq!(c, 1);
    decrement(&mut c);
    decrement(&mut c);
    assert_eq!(c, 0, "an empty counter stays empty");
}

#[test]
fn jobs_beyond_a_quota_are_refused() {
    let mut q = quotas();
    q.max_per_client = 2;
    q.max_concurrent = 3;
    let mut reg = InMemoryJobRegistry::new(q);
    let first = reg.submit(request("a", None), 0).expect("first").id;
    reg.submit(request("a", None), 0).expect("second");
    let e = reg.submit(request("a", None), 0).expect_err("client is full");
    assert!(matches!(&e, SubstrateError::QuotaExceeded { detail, .. } if detail.starts_with("per-client")), "{e:?}");
    reg.submit(request("b", None), 0).expect("another client");
    let e = reg.submit(request("c", None), 0).expect_err("all are full");
    assert!(matches!(&e, SubstrateError::QuotaExceeded { detail, .. } if detail.starts_with("global")), "{e:?}");
    assert!(reg.start(first, 1));
    assert!(reg.finish(first, JobResult::Cancelled, 2));
    reg.submit(request("a", None), 3).expect("a job that ended makes room");
}

// ---- The life of a job -------------------------------------------------------------

#[test]
fn submit_returns_pending_immediately() {
    let mut reg = InMemoryJobRegistry::new(quotas());
    let submitted = reg.submit(request("client-1", None), 5).expect("submit should succeed");
    assert!(submitted.is_new);
    let entry = reg.status(submitted.id).expect("status should succeed");
    assert_eq!(entry.state, JobState::Pending, "freshly submitted job must be Pending");
    assert_eq!(entry.started_at, 5);
}

#[test]
fn cancel_on_terminal_job_is_idempotent() {
    let mut reg = InMemoryJobRegistry::new(quotas());
    let id = reg.submit(request("client-2", None), 0).expect("submit should succeed").id;
    assert_eq!(reg.cancel(id).expect("first cancel should succeed"), JobState::Pending);
    assert!(reg.start(id, 1));
    assert!(reg.finish(id, JobResult::Cancelled, 2));
    assert!(!reg.finish(id, JobResult::TimedOut, 3), "a job ends once");
    let state = reg.cancel(id).expect("second cancel should succeed");
    assert!(state.is_terminal(), "second cancel must return terminal state");
}

#[test]
fn submitting_again_with_the_same_key_finds_the_job() {
    let mut reg = InMemoryJobRegistry::new(quotas());
    let first = reg.submit(request("a", Some("k")), 0).expect("first");
    let again = reg.submit(request("a", Some("k")), 1).expect("again");
    assert!(!again.is_new);
    assert_eq!(again.id, first.id);
    let other = reg.submit(request("b", Some("k")), 1).expect("another client");
    assert!(other.is_new);
    let mut changed = request("a", Some("k"));
    changed.args_json = "{}".to_owned();
    assert!(reg.submit(changed, 1).expect("other arguments").is_new);
}

#[test]
fn arguments_are_compared_as_values() {
    let mut reg = InMemoryJobRegistry::new(quotas());
    let mut spaced = request("a", Some("k"));
    spaced.args_json = "{ \"b\": 1, \"a\": [2] }".to_owned();
    let first = reg.submit(spaced, 0).expect("first");
    let mut dense = request("a", Some("k"));
    dense.args_json = "{\"a\":[2],\"b\":1}".to_owned();
    let again = reg.submit(dense, 1).expect("again");
    assert!(!again.is_new);
    assert_eq!(again.id, first.id);
    let mut broken = request("a", Some("k"));
    broken.args_json = "{".to_owned();
    assert!(reg.submit(broken, 2).expect("not JSON").is_new);
}

#[test]
fn keys_hold_the_digest_of_the_arguments() {
    let digest = [0xabu8; 32];
    assert!(IdempotencyDedupKey::with_digest(&request("a", None), &digest).is_none());
    let key = IdempotencyDedupKey::with_digest(&request("a", Some("k")), &digest).expect("key");
    assert!(format!("{key:?}").contains(&"ab".repeat(16)));
    let own = IdempotencyDedupKey::from_request(&request("a", Some("k"))).expect("key");
    let hex = blake3::hash(b"{\"src\":\"/tmp/test\"}").to_hex().to_string();
    assert!(format!("{own:?}").contains(&hex[..32]), "{own:?} {hex}");
}

#[test]
fn results_are_given_or_waited_for() {
    let mut reg = InMemoryJobRegistry::new(quotas());
    let id = reg.submit(request("a", None), 0).expect("submit").id;
    let e = reg.result(id, None).expect_err("not done");
    assert!(matches!(e, SubstrateError::InternalError { .. }), "{e:?}");
    assert!(matches!(reg.result(id, Some(100)), Ok(ResultStep::Wait(100))));
    let e = reg.result(id, Some(30_001)).expect_err("too long");
    assert!(matches!(e, SubstrateError::ResultWaitExceeded { requested_ms: 30_001, cap_ms: 30_000, .. }), "{e:?}");
    reg.start(id, 1);
    reg.finish(id, JobResult::Succeeded("null".to_owned()), 2);
    assert!(matches!(reg.result(id, None), Ok(ResultStep::Ready(JobResult::Succeeded(v))) if v == "null"));
    let e = reg.result(JobId { raw: 1 }, None).expect_err("unknown");
    assert!(matches!(e, SubstrateError::JobNotFound { .. }), "{e:?}");
    assert!(matches!(result_after_wait(WaitOutcome::Fired(Some(JobResult::TimedOut)), 5), Ok(JobResult::TimedOut)));
    assert!(matches!(
        result_after_wait(WaitOutcome::TimedOut, 5),
        Err(SubstrateError::Timeout { elapsed_ms: 5, .. })
    ));
    assert!(result_after_wait(WaitOutcome::Closed, 5).is_err());
    assert!(result_after_wait(WaitOutcome::Fired(None), 5).is_err());
}

#[test]
fn failures_are_handed_out_as_internal_errors() {
    let error = SubstrateError::NotFound { resource: "x".to_owned(), correlation_id: Some(3) };
    let copy = clone_substrate_error(&error, "no such thing: x");
    match &copy {
        SubstrateError::InternalError { reason, correlation_id } => {
            assert_eq!(reason, "[SUBSTRATE_NOT_FOUND] no such thing: x");
            assert_eq!(*correlation_id, Some(3));
        }
        other => panic!("{other:?}"),
    }
    let failed = JobResult::Failed { error, shown: "no such thing: x".to_owned() };
    assert_eq!(failed.state(), JobState::Failed);
    assert!(matches!(clone_job_result(&failed), JobResult::Failed { .. }));
    assert!(matches!(clone_job_result(&JobResult::Cancelled), JobResult::Cancelled));
}

#[test]
fn cancellation_is_asked_for_by_token() {
    let mut reg = InMemoryJobRegistry::new(quotas());
    let id = reg.submit(request("a", None), 0).expect("submit").id;
    assert_eq!(handle_mcp_cancelled(&mut reg, &id.to_crockford()).expect("known"), JobState::Pending);
    assert!(handle_mcp_cancelled(&mut reg, "nonsense").is_err());
    let unknown = JobId { raw: 7 }.to_crockford();
    assert!(matches!(handle_mcp_cancelled(&mut reg, &unknown), Err(SubstrateError::JobNotFound { .. })));
}

fn entry(state: JobState, terminal_at: Option<u64>) -> JobEntry {
    JobEntry {
        id: JobId { raw: 1 },
        client_id: "a".to_owned(),
        tool: "t".to_owned(),
        bucket: "b".to_owned(),
        state,
        progress_pct: None,
        message: None,
        correlation_id: JobId { raw: 2 },
        idempotency_key: None,
        started_at: 0,
        updated_at: 0,
        terminal_at,
        progress_events_dropped: 0,
    }
}

#[test]
fn states_change_along_the_allowed_edges() {
    let mut slot = JobSlot::new(entry(JobState::Pending, None));
    assert_eq!(slot.try_transition(JobState::Running, 1).expect("starts"), JobState::Pending);
    let e = slot.try_transition(JobState::Pending, 2).expect_err("no way back");
    match e {
        SubstrateError::InternalError { reason, .. } => {
            assert_eq!(reason, "invalid state transition running -> pending; current state stays running");
        }
        other => panic!("{other:?}"),
    }
    assert!(slot.finish(JobResult::Succeeded("1".to_owned()), 3));
    assert!(slot.is_terminal());
    assert_eq!(slot.snapshot().terminal_at, Some(3));
    assert!(!slot.finish(JobResult::Cancelled, 4));
    assert!(slot.try_transition(JobState::Running, 5).is_err());
    assert_eq!(slot.next_sequence() + 1, slot.next_sequence());
    assert!(JobState::Pending.can_transition_to(JobState::Running));
    assert!(!JobState::Failed.can_transition_to(JobState::Running));
    assert_eq!(JobState::TimedOut.name(), "timed_out");
    assert_eq!(slot.copied().entry.copied().state, JobState::Succeeded);
}

// ---- Expiry ------------------------------------------------------------------------

#[test]
fn jobs_are_forgotten_after_their_time() {
    let mut reg = InMemoryJobRegistry::new(quotas());
    let done = reg.submit(request("a", Some("k")), 0).expect("submit").id;
    let open = reg.submit(request("a", None), 0).expect("submit").id;
    reg.start(done, 0);
    reg.finish(done, JobResult::Cancelled, 10 * SECOND);
    assert_eq!(reg.sweep_once(300 * SECOND, 300), 0);
    assert_eq!(reg.sweep_once(311 * SECOND, 300), 1);
    assert!(reg.status(done).is_err());
    assert!(reg.status(open).is_ok(), "a job that runs is kept");
    assert!(reg.submit(request("a", Some("k")), 312 * SECOND).expect("anew").is_new);
}

#[test]
fn only_ended_jobs_expire() {
    assert!(!is_expired(&entry(JobState::Running, None), u64::MAX, 1));
    assert!(is_expired(&entry(JobState::Failed, Some(0)), 2 * SECOND, 1));
    assert!(!is_expired(&entry(JobState::Failed, Some(2 * SECOND)), 2 * SECOND, 1));
    assert_eq!(gc_step(true), GcStep::Stop);
    assert_eq!(gc_step(false), GcStep::Sweep);
}

// ---- Pages -------------------------------------------------------------------------

#[test]
fn job_cursors_round_trip() {
    assert_eq!(encode_cursor(50).bytes, b"{\"offset\":50}".to_vec());
    for n in [0u64, 1, 50, u64::MAX] {
        assert_eq!(decode_cursor(&encode_cursor(n)).expect("decode"), n);
    }
    for bad in [&b"\xff"[..], b"{", b"{}", b"{\"offset\":-1}", b"[]"] {
        let e = decode_cursor(&PageCursor { bytes: bad.to_vec() }).expect_err("malformed");
        assert_eq!(e.code(), "SUBSTRATE_INVALID_ARGUMENT");
    }
    assert!(offset_of(None).is_err());
    assert!(offset_of(Some(None)).is_err());
    assert!(matches!(offset_of(Some(Some(3))), Ok(3)));
}

#[test]
fn pages_hold_every_job_of_a_client_once() {
    let mut q = quotas();
    q.max_concurrent = 200;
    q.max_per_client = 200;
    let mut reg = InMemoryJobRegistry::new(q);
    let mut expected = Vec::new();
    for i in 0..120 {
        expected.push(reg.submit(request("a", None), i).expect("submit").id.raw);
        if i % 3 == 0 {
            reg.submit(request("b", None), i).expect("submit");
        }
    }
    let mut seen = Vec::new();
    let mut cursor = None;
    loop {
        let page = reg.list("a", cursor).expect("page");
        assert!(page.jobs.len() <= 50);
        seen.extend(page.jobs.iter().map(|j| j.id.raw));
        cursor = page.next_cursor;
        if cursor.is_none() {
            break;
        }
    }
    seen.sort_unstable();
    expected.sort_unstable();
    assert_eq!(seen, expected);
    assert!(reg.list("nobody", None).expect("empty").jobs.is_empty());
}

// ---- Ids, keys and quotas together -----------------------------------------------

#[test]
fn the_id_matters_only_where_a_job_is_filed() {
    let mut reg = InMemoryJobRegistry::new(JobQuotas { max_concurrent: 2, max_per_client: 1, ..quotas() });
    let id = JobId { raw: 7 };
    let first = reg.submit_as(request("a", Some("k")), id, 0).expect("first");
    assert!(first.is_new);
    assert_eq!(first.id, id);
    let again = reg.submit_as(request("a", Some("k")), id, 1).expect("found again");
    assert!(!again.is_new);
    assert_eq!(again.id, id);
    let over = reg.submit_as(request("a", None), id, 1).expect_err("client quota");
    assert!(matches!(over, SubstrateError::QuotaExceeded { .. }), "{over:?}");
    let taken = reg.submit_as(request("b", None), id, 1).expect_err("id in use");
    assert!(
        matches!(&taken, SubstrateError::InternalError { reason, .. } if reason == "job id is already in use"),
        "{taken:?}"
    );
    let second = reg.submit_as(request("b", None), JobId { raw: 8 }, 1).expect("the place was given back");
    assert!(second.is_new);
    let full = reg.submit_as(request("c", None), JobId { raw: 9 }, 1).expect_err("global quota");
    assert!(matches!(full, SubstrateError::QuotaExceeded { .. }), "{full:?}");
}

#[test]
fn a_job_that_ended_leaves_room() {
    let mut reg = InMemoryJobRegistry::new(JobQuotas { max_concurrent: 1, max_per_client: 1, ..quotas() });
    let first = reg.submit(request("a", None), 0).expect("first").id;
    assert!(reg.submit(request("a", None), 1).is_err());
    assert!(reg.start(first, 1));
    assert!(reg.finish(first, JobResult::Succeeded("null".to_owned()), 2));
    let second = reg.submit(request("a", None), 3).expect("there is room again");
    assert!(second.is_new);
    assert_ne!(second.id, first);
}

#[test]
fn other_keys_lead_to_other_jobs() {
    let mut reg = InMemoryJobRegistry::new(quotas());
    let first = reg.submit(request("a", Some("k")), 0).expect("first").id;
    let other_key = reg.submit(request("a", Some("l")), 0).expect("another key");
    assert!(other_key.is_new);
    let mut other_tool = request("a", Some("k"));
    other_tool.tool = "archive_zip_create".to_owned();
    let other_tool = reg.submit(other_tool, 0).expect("another tool");
    assert!(other_tool.is_new);
    assert!(other_key.id != first && other_tool.id != first && other_key.id != other_tool.id);
    assert_eq!(reg.submit(request("a", Some("k")), 1).expect("again").id, first);
}

#[test]
fn jobs_of_one_time_are_listed_by_id() {
    let many = JobQuotas { max_concurrent: 200, max_per_client: 200, ..quotas() };
    let mut reg = InMemoryJobRegistry::new(many);
    for raw in (0..120u128).rev() {
        reg.submit_as(request("a", None), JobId { raw }, 5).expect("filed");
    }
    reg.submit_as(request("a", None), JobId { raw: 500 }, 4).expect("an older one");
    let mut seen = Vec::new();
    let mut sizes = Vec::new();
    let mut cursor = None;
    loop {
        let page = reg.list("a", cursor).expect("page");
        sizes.push(page.jobs.len());
        seen.extend(page.jobs.iter().map(|e| e.id.raw));
        cursor = page.next_cursor;
        if cursor.is_none() {
            break;
        }
    }
    assert_eq!(sizes, [50, 50, 21]);
    assert_eq!(seen, std::iter::once(500).chain(0..120).collect::<Vec<u128>>());
}
