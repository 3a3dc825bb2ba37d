//! Supervisor processes: commands, records, sweeps and approvals.
use substrate::errors::LaunchError;
use substrate::ids::StackId;
use substrate::launch::control_fifo::{
    frame_bytes, frame_limit, max_command_frame_size, verify_fifo_secure, ControlFrame, FrameEvent, FrameReader,
    SECURE_FIFO_MODE,
};
use substrate::launch::detached::{
    flag_value, is_exit_state, parse_supervise_args, service_request, start_or_now, ControlStep, DetachedSupervisor,
    SuperviseArgs, PARENT_DEATH_SIGKILL,
};
use substrate::launch::names::NameMap;
use substrate::launch::pid_probe::{parse_kinfo_proc, read_pid_stat, PidStat};
use substrate::launch::profile::{
    CommandSpec, DependencyRestartMode, DisconnectPolicy, LaunchProfile, LaunchService, StreamMux,
};
use substrate::launch::reaper::{
    decide, group_signal, reattach_all, stack_label, start_matches, GroupSignal, ReconcileReport, StackSweep, SweepEnd,
    Verdict,
};
use substrate::launch::stack::{StackChild, SupervisorRegistry};
use substrate::launch::supervisor::{ProcessInfo, ServiceOutcome, SubprocessState};
use substrate::launch::supervisor_registry::{
    ancestors, insecure, launch_stacks_root, not_json, not_serialized, reject_world_writable_ancestor, stack_dir,
    state_root, tmp_sibling, verify_dir_secure, Ancestor, SECURE_DIR_MODE,
};
use substrate::launch::trust_store;
use substrate::launch::trust_store::{
    append_bless, auto_bless_allows, build_trust_record, check_trusted, config_hash, not_toml, open_store, store_text,
    FileIdentity, LaunchOperatorConfig, StoreFound, TrustRecord,
};

fn owned(list: &[&str]) -> Vec<String> {
    list.iter().map(|s| (*s).to_owned()).collect()
}

// ---- Commands --------------------------------------------------------------------

fn read_all(limit: usize, stream: &[u8]) -> Vec<FrameEvent> {
    let mut reader = FrameReader::new(limit);
    stream.iter().filter_map(|b| reader.feed(*b)).collect()
}

#[test]
fn commands_that_are_written_are_read() {
    let limit = max_command_frame_size();
    let one = b"{\"type\":\"down\",\"stack_id\":\"01ARZ3NDEKTSV4RRFFQ69G5FAV\"}".to_vec();
    let two = b"{\"type\":\"reload\",\"stack_id\":\"x\",\"profile_path\":null}".to_vec();
    let mut stream = frame_bytes(one.clone(), limit).expect("one");
    assert_eq!(stream.last(), Some(&b'\n'));
    stream.extend(frame_bytes(two.clone(), limit).expect("two"));
    stream.extend_from_slice(b"unfinished");
    let events = read_all(limit, &stream);
    assert_eq!(events.len(), 2);
    assert!(matches!(&events[0], FrameEvent::Line(l) if *l == one));
    assert!(matches!(&events[1], FrameEvent::Line(l) if *l == two));
}

#[test]
fn oversize_frame_is_rejected_before_any_write() {
    let limit = max_command_frame_size();
    assert_eq!(limit, libc::PIPE_BUF - 1);
    let err = frame_bytes(vec![b'x'; limit * 2], limit).expect_err("oversize frame rejected");
    assert!(matches!(err, LaunchError::FrameTooLarge { size } if size == limit * 2), "got {err:?}");
    assert_eq!(frame_bytes(vec![b'x'; limit], limit).expect("fits").len(), libc::PIPE_BUF);
}

#[test]
fn accepted_commands_fit_into_one_write() {
    let limit = frame_limit(512);
    assert_eq!(limit, 511);
    assert_eq!(frame_bytes(vec![b'x'; 511], limit).expect("fits").len(), 512);
    assert!(frame_bytes(vec![b'x'; 512], limit).is_err());
}

#[test]
fn oversized_lines_are_dropped_and_the_next_is_read() {
    let events = read_all(4, b"12345\nabcd\n\n123456789\nxy\n");
    assert_eq!(events.len(), 5);
    assert!(matches!(events[0], FrameEvent::Oversized));
    assert!(matches!(&events[1], FrameEvent::Line(l) if l == b"abcd"));
    assert!(matches!(&events[2], FrameEvent::Line(l) if l.is_empty()));
    assert!(matches!(events[3], FrameEvent::Oversized));
    assert!(matches!(&events[4], FrameEvent::Line(l) if l == b"xy"));
}

#[test]
fn insecure_mode_is_rejected() {
    let err = verify_fifo_secure(b"/s/control.fifo", true, 0o010644, 7, 7).expect_err("0644 fifo rejected");
    assert!(matches!(&err, LaunchError::RegistryInsecure { path } if path == "/s/control.fifo"), "got {err:?}");
    assert!(verify_fifo_secure(b"/s/control.fifo", true, 0o010000 | SECURE_FIFO_MODE, 7, 7).is_ok());
    assert!(verify_fifo_secure(b"/s/control.fifo", true, SECURE_FIFO_MODE, 7, 8).is_err());
}

#[test]
fn non_fifo_node_is_rejected() {
    let err = verify_fifo_secure(b"/s/control.fifo", false, SECURE_FIFO_MODE, 7, 7).expect_err("regular file rejected");
    assert!(matches!(err, LaunchError::RegistryInsecure { .. }), "got {err:?}");
}

// ---- Arguments --------------------------------------------------------------------

const STACK: &str = "01ARZ3NDEKTSV4RRFFQ69G5FAV";

#[test]
fn parse_returns_none_without_flag() {
    let args = owned(&["substrate", "--config", "/x"]);
    assert!(parse_supervise_args(&args).expect("parse").is_none());
}

#[test]
fn parse_extracts_stack_id_and_profile() {
    let args = owned(&["substrate", "--supervise", STACK, "--profile", "/proj/.substrate.toml"]);
    let parsed = parse_supervise_args(&args).expect("parse").expect("present");
    assert_eq!(parsed.stack_id.to_crockford(), STACK);
    assert_eq!(parsed.profile_path, "/proj/.substrate.toml");
    assert_eq!(flag_value(&args, "--profile").map(String::as_str), Some("/proj/.substrate.toml"));
    assert!(flag_value(&args, "--nope").is_none());
}

fn refused(args: &[&str]) -> String {
    match parse_supervise_args(&owned(args)) {
        Err(LaunchError::InvalidProfile { msg }) => msg,
        other => panic!("{other:?}"),
    }
}

#[test]
fn parse_rejects_missing_profile() {
    assert_eq!(
        refused(&["substrate", "--supervise", STACK]),
        "--supervise requires a --profile <path> argument"
    );
    assert_eq!(refused(&["substrate", "--supervise"]), "--supervise requires a <stack_id> argument");
}

#[test]
fn parse_rejects_bad_stack_id() {
    let msg = refused(&["substrate", "--supervise", "not-a-stack-id", "--profile", "/p"]);
    assert!(msg.starts_with("invalid --supervise stack_id 'not-a-stack-id': "), "{msg}");
}

// ---- Supervisors -------------------------------------------------------------------

#[test]
fn exit_states_are_terminal() {
    assert!(is_exit_state(SubprocessState::Failed));
    assert!(is_exit_state(SubprocessState::Succeeded));
    assert!(is_exit_state(SubprocessState::Killed));
    assert!(!is_exit_state(SubprocessState::Running));
    assert!(!is_exit_state(SubprocessState::Ready));
}

fn service(cmd: &[&str], deps: &[&str]) -> LaunchService {
    LaunchService {
        command: CommandSpec::Argv(owned(cmd)),
        args: Vec::new(),
        env: NameMap::new(),
        cwd: None,
        depends_on: owned(deps),
        required: true,
        restart_policy: None,
        health_probe: None,
        env_file: Vec::new(),
        on_dependency_restart: DependencyRestartMode::Restart,
        error_patterns: Vec::new(),
        redact: Vec::new(),
        streams: StreamMux::Multiplexed,
    }
}

fn two_tier_profile() -> LaunchProfile {
    let mut services = NameMap::new();
    services.insert("db".to_owned(), service(&["db"], &[]));
    services.insert("api".to_owned(), service(&["api"], &["db"]));
    LaunchProfile { version: 1, on_client_disconnect: DisconnectPolicy::Detach, orphan_ttl_secs: 3600, services }
}

const START: u64 = 1_770_000_000;

fn supervisor() -> DetachedSupervisor {
    let args = SuperviseArgs {
        stack_id: StackId::parse(STACK).expect("id"),
        profile_path: "/proj/.substrate.toml".to_owned(),
    };
    let mut sup =
        DetachedSupervisor::assemble(args, b"/stacks/x", two_tier_profile(), "blake3:test".to_owned(), 4242, START);
    sup.record_child("db", 101, 1001, 1001, 11, ServiceOutcome::Ready);
    sup.record_child("api", 102, 1002, 1002, 12, ServiceOutcome::Ready);
    sup
}

#[test]
fn spawn_all_binds_sigkill_and_records_children() {
    let sup = supervisor();
    assert_eq!(sup.children.len(), 2, "both services recorded");
    assert!(sup.children.get("db").is_some_and(|c| c.pid >= 2));
    assert_eq!(PARENT_DEATH_SIGKILL, libc::SIGKILL);
    for name in ["db", "api"] {
        let request = service_request(&sup.profile, name, &sup.default_cwd).expect("present").expect("request");
        assert_eq!(request.parent_death_signal, Some(libc::SIGKILL));
        assert_eq!(request.cwd, b"/proj".to_vec());
    }
    assert!(service_request(&sup.profile, "nope", b"/").is_none());
}

#[test]
fn supervisors_run_beside_their_profile() {
    let args = || SuperviseArgs { stack_id: StackId { raw: 1 }, profile_path: "p.toml".to_owned() };
    let sup =
        DetachedSupervisor::assemble(args(), b"/stacks/x", two_tier_profile(), String::new(), u32::MAX, START);
    assert_eq!(sup.default_cwd, b"/stacks/x".to_vec());
    assert_eq!(sup.supervisor_pid, i32::MAX);
    assert_eq!(start_or_now(Some(PidStat { start_time: 5, ppid: 1 }), 9), 5);
    assert_eq!(start_or_now(None, 9), 9);
}

#[test]
fn teardown_stops_dependents_first() {
    assert_eq!(supervisor().teardown_jobs(), vec![102, 101]);
}

#[test]
fn poll_children_records_terminal_exit() {
    let mut sup = supervisor();
    let list = vec![
        ProcessInfo { job_id: 101, state: SubprocessState::Ready },
        ProcessInfo { job_id: 102, state: SubprocessState::Failed },
    ];
    assert!(sup.poll_children(&list));
    assert_eq!(
        sup.children.get("api").map(|c| c.state),
        Some(SubprocessState::Failed),
        "child-exit poll records the terminal transition"
    );
    assert!(!sup.poll_children(&list), "nothing changes twice");
    assert!(!sup.poll_children(&Vec::new()), "a process that is not listed stays as it was");
}

#[test]
fn orphan_ttl_does_not_fire_within_window() {
    let sup = supervisor();
    assert!(sup.check_orphan_ttl(START + 3599).is_none(), "fresh activity keeps the stack up");
    assert!(sup.check_orphan_ttl(0).is_none());
}

#[test]
fn orphan_ttl_ignores_non_detach_policy() {
    let mut sup = supervisor();
    sup.policy = DisconnectPolicy::Shutdown;
    sup.profile.orphan_ttl_secs = 1;
    sup.last_activity_epoch = 0;
    assert!(sup.check_orphan_ttl(START).is_none());
}

#[test]
fn orphan_ttl_fires_and_tears_down_after_window() {
    let mut sup = supervisor();
    sup.profile.orphan_ttl_secs = 1;
    sup.last_activity_epoch = 0;
    let e = sup.check_orphan_ttl(START).expect("an idle detached stack past its TTL is brought down");
    assert_eq!(e.code(), "SUBSTRATE_LAUNCH_STACK_TTL_EXPIRED");
    assert!(matches!(e, LaunchError::StackTtlExpired { stack_id } if stack_id == STACK));
}

#[test]
fn orphan_ttl_disabled_when_zero() {
    let mut sup = supervisor();
    sup.profile.orphan_ttl_secs = 0;
    sup.last_activity_epoch = 0;
    assert!(sup.check_orphan_ttl(START).is_none(), "orphan_ttl_secs == 0 disables detached survival timeout");
}

#[test]
fn registry_snapshot_reflects_live_children() {
    let snapshot = supervisor().registry_snapshot();
    assert_eq!(snapshot.supervisor_pid, 4242);
    assert_eq!(snapshot.start_epoch, START);
    assert_eq!(snapshot.policy, DisconnectPolicy::Detach);
    assert_eq!(snapshot.config_hash, "blake3:test");
    assert_eq!(snapshot.children.len(), 2);
    assert!(snapshot.children.iter().all(|c| c.pid >= 2 && c.pgid >= 2));
    assert_eq!(snapshot.children[0].name, "api");
    assert_eq!(snapshot.children[1].start_epoch, 11);
}

#[test]
fn commands_are_taken_and_count_as_activity() {
    let mut sup = supervisor();
    let reload = ControlFrame::Reload { stack_id: STACK.to_owned(), profile_path: Some("/q.toml".to_owned()) };
    match sup.handle_control(Some(reload), START + 10) {
        ControlStep::Reload(path) => assert_eq!(path.as_deref(), Some("/q.toml")),
        other => panic!("{other:?}"),
    }
    assert_eq!(sup.last_activity_epoch, START + 10);
    assert!(matches!(sup.handle_control(None, START + 20), ControlStep::Closed));
    assert_eq!(sup.last_activity_epoch, START + 10, "a closed pipe is no activity");
    let down = ControlFrame::Down { stack_id: STACK.to_owned() };
    assert!(matches!(sup.handle_control(Some(down), START + 30), ControlStep::Exit));
}

#[test]
fn supervisors_reload_what_changed() {
    let mut sup = supervisor();
    assert_eq!(sup.reload_path(None), b"/proj/.substrate.toml".to_vec());
    assert_eq!(sup.reload_path(Some("/q")), b"/q".to_vec());
    let mut services = NameMap::new();
    let mut db = service(&["db"], &[]);
    db.args = owned(&["--v2"]);
    services.insert("db".to_owned(), db);
    services.insert("web".to_owned(), service(&["web"], &["db"]));
    let new =
        LaunchProfile { version: 1, on_client_disconnect: DisconnectPolicy::Detach, orphan_ttl_secs: 60, services };
    let diff = sup.plan_reload(&new).expect("plan");
    assert_eq!(diff.report.removed, vec!["api"]);
    assert_eq!(diff.report.added, vec!["web"]);
    assert_eq!(diff.report.restarted, vec!["db", "web"], "what depends on a changed service starts anew");
    assert_eq!(diff.start, vec!["db", "web"]);
    assert_eq!(sup.reload_stop(&diff.report), vec![102, 101]);
    assert_eq!(sup.children.len(), 0);
    sup.record_child("db", 201, 2001, 2001, 21, ServiceOutcome::Ready);
    sup.reload_done(new, b"/q".to_vec(), "blake3:new".to_owned());
    assert_eq!(sup.profile_path, b"/q".to_vec());
    assert_eq!(sup.teardown_jobs(), vec![201]);
}

// ---- Processes ---------------------------------------------------------------------

/// What the system says of a process.
fn observed(pid: i32) -> Option<(u64, i32)> {
    let stat = procfs::process::Process::new(pid).ok()?.stat().ok()?;
    Some((stat.starttime, stat.ppid))
}

fn own_pid() -> i32 {
    procfs::process::Process::myself().expect("own process").pid
}

#[test]
fn reads_own_process_start_time_and_ppid() {
    let stat = read_pid_stat(observed(own_pid())).expect("current process must be readable");
    assert!(stat.start_time > 0, "start_time must be non-zero; got {}", stat.start_time);
}

#[test]
fn unlikely_pid_reads_as_gone() {
    assert!(read_pid_stat(observed(i32::MAX)).is_none(), "i32::MAX pid must read as gone");
}

#[test]
fn second_read_is_stable_for_same_process() {
    let first = read_pid_stat(observed(own_pid())).expect("first read");
    let second = read_pid_stat(observed(own_pid())).expect("second read");
    assert_eq!(first.start_time, second.start_time);
}

#[test]
fn records_of_processes_are_read() {
    let mut record = vec![0u8; 648];
    assert_eq!(parse_kinfo_proc(&record), None, "no start");
    record[0..8].copy_from_slice(&1_770_000_000i64.to_le_bytes());
    record[560..564].copy_from_slice(&4242i32.to_le_bytes());
    assert_eq!(parse_kinfo_proc(&record), Some(PidStat { start_time: 1_770_000_000, ppid: 4242 }));
    assert_eq!(parse_kinfo_proc(&record[..647]), None, "cut short");
    record[0..8].copy_from_slice(&(-1i64).to_le_bytes());
    assert_eq!(parse_kinfo_proc(&record), None);
}

#[test]
fn decide_reaps_stale_entry_without_signal() {
    let v = decide(None, 123, DisconnectPolicy::Shutdown, 999);
    assert_eq!(v, Verdict::Reap { signal: false });
}

#[test]
fn decide_clears_recycled_pid() {
    let probe = Some(PidStat { start_time: 222, ppid: 1 });
    assert_eq!(decide(probe, 111, DisconnectPolicy::Detach, 999), Verdict::Recycled);
}

#[test]
fn decide_reattaches_child_still_parented_to_supervisor() {
    let probe = Some(PidStat { start_time: 111, ppid: 4242 });
    assert_eq!(decide(probe, 111, DisconnectPolicy::Shutdown, 4242), Verdict::Reattach);
}

#[test]
fn decide_adopts_orphan_under_detach() {
    let probe = Some(PidStat { start_time: 111, ppid: 1 });
    assert_eq!(decide(probe, 111, DisconnectPolicy::Detach, 4242), Verdict::Adopt);
}

#[test]
fn decide_reaps_orphan_under_shutdown() {
    let probe = Some(PidStat { start_time: 111, ppid: 1 });
    assert_eq!(decide(probe, 111, DisconnectPolicy::Shutdown, 4242), Verdict::Reap { signal: true });
}

fn child(name: &str, pid: i32, start_epoch: u64) -> StackChild {
    StackChild { name: name.to_owned(), pid, pgid: pid, start_epoch }
}

fn record(policy: DisconnectPolicy, children: Vec<StackChild>) -> SupervisorRegistry {
    SupervisorRegistry {
        supervisor_pid: i32::MAX,
        start_epoch: 1,
        policy,
        config_hash: "blake3:test".to_owned(),
        children,
    }
}

/// Sweeps a stack; gives the report, the groups that are ended, and what is left.
fn sweep(
    reg: SupervisorRegistry,
    probe: impl Fn(i32) -> Option<PidStat>,
) -> (ReconcileReport, Vec<(i32, u64)>, SweepEnd) {
    let mut report = ReconcileReport::default();
    let mut ended = Vec::new();
    let mut sweep = StackSweep::new(reg, "s".to_owned());
    while let Some(pid) = sweep.next_pid() {
        let step = sweep.judge(probe(pid), &mut report);
        ended.extend(step.end);
    }
    (report, ended, sweep.finish())
}

#[test]
fn live_supervisor_stack_is_reattached_and_kept() {
    let own = read_pid_stat(observed(own_pid())).expect("own");
    assert!(start_matches(Some(own), own.start_time));
    let reg = record(DisconnectPolicy::Detach, vec![child("web", own_pid(), own.start_time)]);
    let mut report = ReconcileReport::default();
    reattach_all(&reg, &stack_label(b"/stacks/s"), &mut report);
    assert_eq!(report.reattached, vec!["s/web"]);
    assert!(report.adopted.is_empty() && report.reaped.is_empty() && report.recycled.is_empty());
}

#[test]
fn stale_dead_child_is_reaped_and_dir_removed() {
    let reg = record(DisconnectPolicy::Shutdown, vec![child("worker", i32::MAX, 12345)]);
    let (report, ended, end) = sweep(reg, |pid| read_pid_stat(observed(pid)));
    assert_eq!(report.reaped, vec!["s/worker"], "a stale entry is reaped");
    assert!(ended.is_empty());
    assert!(matches!(end, SweepEnd::Remove), "a fully-drained stack registry dir is removed");
}

#[test]
fn recycled_child_is_cleared_without_signal() {
    let own = read_pid_stat(observed(own_pid())).expect("own");
    let reg = record(DisconnectPolicy::Shutdown, vec![child("ghost", own_pid(), own.start_time.wrapping_add(1))]);
    let (report, ended, end) = sweep(reg, |pid| read_pid_stat(observed(pid)));
    assert_eq!(report.recycled.len(), 1, "a pid-recycled entry is cleared");
    assert!(report.reaped.is_empty(), "recycle path must not enter the reap/signal path");
    assert!(ended.is_empty());
    assert!(matches!(end, SweepEnd::Remove), "no survivors -> registry dir removed");
}

#[test]
fn sweeps_keep_adopted_processes_and_end_the_others() {
    let alive = |pid: i32| Some(PidStat { start_time: pid as u64, ppid: 1 });
    let children = || vec![child("a", 10, 10), child("b", 11, 99), child("c", 12, 12)];
    let (report, ended, end) = sweep(record(DisconnectPolicy::Detach, children()), alive);
    assert_eq!(report.adopted, vec!["s/a", "s/c"]);
    assert_eq!(report.recycled, vec!["s/b"]);
    assert!(ended.is_empty());
    match end {
        SweepEnd::Write(left) => {
            assert_eq!(left.children.iter().map(|c| c.pid).collect::<Vec<_>>(), vec![10, 12]);
            assert_eq!(left.config_hash, "blake3:test");
        }
        SweepEnd::Remove => panic!("two are left"),
    }
    let (report, ended, end) = sweep(record(DisconnectPolicy::Shutdown, children()), alive);
    assert_eq!(report.reaped, vec!["s/a", "s/c"]);
    assert_eq!(ended, vec![(10, 10), (12, 12)]);
    assert!(matches!(end, SweepEnd::Remove));
}

#[test]
fn reap_group_does_not_signal_a_dead_leader() {
    assert_eq!(group_signal(read_pid_stat(observed(i32::MAX)), 999, false), None);
    let leader = Some(PidStat { start_time: 5, ppid: 1 });
    assert_eq!(group_signal(leader, 5, false), Some(GroupSignal::Terminate));
    assert_eq!(group_signal(leader, 5, true), Some(GroupSignal::Kill));
    assert_eq!(group_signal(leader, 6, true), None);
}

#[test]
fn empty_root_is_a_no_op() {
    assert!(ReconcileReport::default().is_empty(), "an empty stacks root yields an empty report");
    assert_eq!(stack_label(b"/"), "<unknown-stack>");
}

// ---- Records -----------------------------------------------------------------------

#[test]
fn insecure_permission_is_rejected() {
    let err = verify_dir_secure(b"/s/x", 0o040755, 7, 7).expect_err("0755 dir rejected");
    assert!(matches!(&err, LaunchError::RegistryInsecure { path } if path == "/s/x"), "got {err:?}");
    assert!(verify_dir_secure(b"/s/x", 0o040000 | SECURE_DIR_MODE, 7, 7).is_ok());
    assert!(verify_dir_secure(b"/s/x", SECURE_DIR_MODE, 8, 7).is_err());
}

#[test]
fn world_writable_ancestor_is_rejected() {
    let at = |path: &str, mode: Option<u32>| Ancestor { path: path.as_bytes().to_vec(), mode };
    let found = vec![at("/r/substrate", None), at("/r", Some(0o040777)), at("/", Some(0o041777))];
    let err = reject_world_writable_ancestor(&found).expect_err("world-writable ancestor rejected");
    assert!(matches!(&err, LaunchError::RegistryInsecure { path } if path == "/r"), "got {err:?}");
    assert!(reject_world_writable_ancestor(&vec![at("/r", Some(0o040755))]).is_ok());
    let paths: Vec<String> =
        ancestors(b"/a/b/").iter().map(|p| String::from_utf8_lossy(p).into_owned()).collect();
    let std: Vec<String> =
        std::path::Path::new("/a/b/").ancestors().map(|p| p.to_string_lossy().into_owned()).collect();
    assert_eq!(paths, std);
    assert_eq!(ancestors(b"a/b").len(), 3);
}

#[test]
fn state_root_falls_back_to_local_state_when_xdg_unset() {
    assert_eq!(state_root(None, Some("/home/u")).expect("home"), b"/home/u/.local/state".to_vec());
    assert_eq!(state_root(Some(""), Some("/home/u")).expect("empty"), b"/home/u/.local/state".to_vec());
    assert_eq!(state_root(Some("/xdg"), Some("/home/u")).expect("xdg"), b"/xdg".to_vec());
    let err = state_root(None, None).expect_err("nowhere");
    assert!(matches!(
        err,
        LaunchError::RegistryInsecure { path } if path == "$XDG_STATE_HOME (unset) and $HOME (unresolvable)"
    ));
    assert_eq!(launch_stacks_root(Some("/xdg"), None).expect("root"), b"/xdg/substrate/stacks".to_vec());
    assert_eq!(
        stack_dir(b"/xdg", StackId { raw: 0 }),
        b"/xdg/substrate/stacks/00000000000000000000000000".to_vec()
    );
}

#[test]
fn files_are_written_beside_their_place() {
    let id = 0x0123_4567_89ab_cdef_0123_4567_89ab_cdefu128;
    assert_eq!(
        tmp_sibling(b"/s/supervisor.json", "supervisor.json", id),
        b"/s/.supervisor.json.tmp.0123456789abcdef0123456789abcdef".to_vec()
    );
    assert_eq!(uuid::Uuid::from_u128(id).simple().to_string(), "0123456789abcdef0123456789abcdef");
    assert_eq!(tmp_sibling(b"/", "store", 1), b"./.store.tmp.00000000000000000000000000000001".to_vec());
    let msg = |e: LaunchError| match e {
        LaunchError::InvalidProfile { msg } => msg,
        other => panic!("{other:?}"),
    };
    assert_eq!(msg(not_serialized("e")), "failed to serialize supervisor registry: e");
    assert_eq!(msg(not_json(b"/s", "e")), "supervisor registry /s is not valid JSON: e");
    assert_eq!(msg(trust_store::not_serialized("e")), "failed to serialize trust store: e");
    assert!(matches!(insecure(b"/\xff"), LaunchError::RegistryInsecure { path } if path == "/\u{fffd}"));
}

// ---- Approvals ---------------------------------------------------------------------

#[test]
fn missing_store_loads_empty() {
    assert!(matches!(open_store(b"/t", StoreFound::Missing), Ok(false)));
    assert!(matches!(open_store(b"/t", StoreFound::Mode(0o100600)), Ok(true)));
}

#[test]
fn mode_0644_store_is_rejected() {
    let err = open_store(b"/t", StoreFound::Mode(0o100644)).expect_err("0644 must be rejected");
    assert!(matches!(err, LaunchError::TrustStoreInsecure { path } if path == "/t"));
    assert!(matches!(open_store(b"/t", StoreFound::Failed), Err(LaunchError::TrustStoreInsecure { .. })));
    assert_eq!(store_text(b"/t", b"x".to_vec()).expect("text"), "x");
    assert!(matches!(
        store_text(b"/t", vec![0xff]),
        Err(LaunchError::InvalidProfile { msg }) if msg == "trust store /t is not valid UTF-8"
    ));
    assert!(matches!(
        not_toml(b"/t", "e"),
        LaunchError::InvalidProfile { msg } if msg == "trust store /t is not valid TOML: e"
    ));
}

fn approval(path: &str) -> TrustRecord {
    TrustRecord {
        path: path.to_owned(),
        dev: 66,
        ino: 1234,
        uid: 1000,
        mode: 0o644,
        content: "blake3:abc123".to_owned(),
        blessed_at: "2026-06-30T12:00:00Z".to_owned(),
    }
}

#[test]
fn append_preserves_existing_records() {
    let mut records = Vec::new();
    append_bless(&mut records, approval("/a/.substrate.toml"));
    append_bless(&mut records, approval("/b/.substrate.toml"));
    assert_eq!(records.len(), 2);
    assert_eq!(records[0].path, "/a/.substrate.toml");
}

fn projects() -> LaunchOperatorConfig {
    LaunchOperatorConfig { auto_bless_paths: owned(&["", "/home/dev/projects"]) }
}

#[test]
fn auto_bless_matches_prefix() {
    assert!(auto_bless_allows(&projects(), b"/home/dev/projects/app/.substrate.toml"));
    assert!(auto_bless_allows(&projects(), b"/home/dev/projects"));
}

#[test]
fn auto_bless_rejects_unlisted_path() {
    assert!(!auto_bless_allows(&projects(), b"/tmp/evil/.substrate.toml"));
    assert!(!auto_bless_allows(&projects(), b"/home/dev/projects-evil/.substrate.toml"));
}

#[test]
fn empty_auto_bless_list_allows_nothing() {
    assert!(!auto_bless_allows(&LaunchOperatorConfig::default(), b"/anything/.substrate.toml"));
}

#[test]
fn trust_blesses_without_spawning() {
    let hash = config_hash(b"version = 1\n");
    assert!(hash.starts_with("blake3:"));
    assert_eq!(hash, format!("blake3:{}", blake3::hash(b"version = 1\n").to_hex()));
    let id = FileIdentity { dev: 1, ino: 2, uid: 3, mode: 0o644 };
    let cfg = LaunchOperatorConfig::default();
    let mut records = Vec::new();
    let path = "/repo/.substrate.toml";
    assert!(matches!(
        check_trusted(&records, &cfg, path, id, &hash),
        Err(LaunchError::ProfileNotTrusted { path: p }) if p == path
    ));
    append_bless(&mut records, build_trust_record(path, id, &hash, "2026-06-30T12:00:00Z"));
    assert!(check_trusted(&records, &cfg, path, id, &hash).is_ok());
    assert!(check_trusted(&records, &cfg, path, id, &config_hash(b"version = 2\n")).is_err());
    let moved = FileIdentity { dev: 1, ino: 9, uid: 3, mode: 0o644 };
    assert!(check_trusted(&records, &cfg, path, moved, &hash).is_err());
    assert!(check_trusted(&Vec::new(), &projects(), "/home/dev/projects/x", moved, &hash).is_ok());
}
