//! Stacks: their profiles, orders, environments and lives.
use substrate::errors::{LaunchError, SubstrateError};
use substrate::ids::StackId;
use substrate::launch::bring_up::{blocked_dependency, BringUp};
use substrate::launch::dag::{restart_closure, reverse_topo, topo_order};
use substrate::launch::env_file::{
    check_env_path, check_env_target, env_file_failed, merge_env_files, parse_dotenv, EnvFileFailure,
};
use substrate::launch::names::NameMap;
use substrate::launch::profile::{
    CommandSpec, DependencyRestartMode, DisconnectPolicy, HealthProbe, LaunchProfile, LaunchService, RestartPolicy,
    StreamMux,
};
use substrate::launch::redaction::Redactor;
use substrate::launch::registry::{
    catalog, default_profile_path, detect_project_type, effective_policy, project_dir, signed_text,
    supervisor_ready_step, LaunchRegistry, Spawned, SupervisorStep,
};
use substrate::launch::reload::{compute_reload_report, reverse_order_for};
use substrate::launch::stack::{
    LaunchEventKind, StackChild, StackEntry, StackHandle, StackState, Stream, SupervisorRegistry,
};
use substrate::launch::supervisor::{
    build_request, classify_state, edges_only_differ, is_executable_file, launch_client_id, outcome_state,
    path_candidates, poll_once, profile_dir, readiness_budget, resolve_binary, spawn_fields_differ, wait_ready_step,
    BinaryPlan, ProcessInfo, ServiceOutcome, SubprocessState, WaitStep, NONE_READINESS_BUDGET_MS,
    PROBE_READINESS_BUDGET_MS,
};

const NOW: &str = "2026-06-30T12:00:00Z";

fn owned(list: &[&str]) -> Vec<String> {
    list.iter().map(|s| (*s).to_owned()).collect()
}

fn service(cmd: &[&str], deps: &[&str], mode: DependencyRestartMode) -> LaunchService {
    LaunchService {
        command: CommandSpec::Argv(owned(cmd)),
        args: Vec::new(),
        env: NameMap::new(),
        cwd: None,
        depends_on: owned(deps),
        required: true,
        restart_policy: None,
        health_probe: None,
        env_file: Vec::new(),
        on_dependency_restart: mode,
        error_patterns: Vec::new(),
        redact: Vec::new(),
        streams: StreamMux::Multiplexed,
    }
}

fn plain(cmd: &[&str]) -> LaunchService {
    service(cmd, &[], DependencyRestartMode::Restart)
}

fn profile(services: Vec<(&str, LaunchService)>) -> LaunchProfile {
    let mut map = NameMap::new();
    for (name, s) in services {
        map.insert(name.to_owned(), s);
    }
    LaunchProfile {
        version: 1,
        on_client_disconnect: DisconnectPolicy::Shutdown,
        orphan_ttl_secs: 3600,
        services: map,
    }
}

fn chain(mode: DependencyRestartMode) -> LaunchProfile {
    profile(vec![
        ("a", service(&["bin"], &[], DependencyRestartMode::Restart)),
        ("b", service(&["bin"], &["a"], mode)),
        ("c", service(&["bin"], &["b"], mode)),
    ])
}

fn three_tier_with(api_args: &[&str]) -> LaunchProfile {
    let mut api = service(&["api"], &["db"], DependencyRestartMode::Restart);
    api.args = owned(api_args);
    profile(vec![
        ("db", plain(&["db"])),
        ("api", api),
        ("web", service(&["web"], &["api"], DependencyRestartMode::Restart)),
    ])
}

fn three_tier() -> LaunchProfile {
    three_tier_with(&[])
}

// ---- Orders ----------------------------------------------------------------------

#[test]
fn topo_order_is_dependency_first() {
    let order = topo_order(&chain(DependencyRestartMode::Restart)).expect("order");
    assert_eq!(order, vec!["a", "b", "c"]);
}

#[test]
fn reverse_topo_is_teardown_first() {
    let order = reverse_topo(&chain(DependencyRestartMode::Restart)).expect("order");
    assert_eq!(order, vec!["c", "b", "a"]);
}

#[test]
fn restart_closure_is_transitive_when_all_restart() {
    let closure = restart_closure(&chain(DependencyRestartMode::Restart), &owned(&["a"]));
    assert_eq!(closure, vec!["b", "c"]);
}

#[test]
fn restart_closure_stops_at_ignore_cut_point() {
    let closure = restart_closure(&chain(DependencyRestartMode::Ignore), &owned(&["a"]));
    assert!(closure.is_empty(), "Ignore on b must cut the cascade; got {closure:?}");
}

#[test]
fn restart_closure_empty_when_changed_has_no_dependents() {
    let closure = restart_closure(&chain(DependencyRestartMode::Restart), &owned(&["c"]));
    assert!(closure.is_empty(), "leaf change restarts nothing; got {closure:?}");
}

#[test]
fn reverse_topo_propagates_cycle_error() {
    let p = profile(vec![
        ("x", service(&["bin"], &["y"], DependencyRestartMode::Restart)),
        ("y", service(&["bin"], &["x"], DependencyRestartMode::Restart)),
    ]);
    assert!(matches!(reverse_topo(&p), Err(LaunchError::CycleDetected)));
}

#[test]
fn independent_services_are_ordered_by_name() {
    let p = profile(vec![
        ("zeta", plain(&["z"])),
        ("alpha", service(&["a"], &["mid"], DependencyRestartMode::Restart)),
        ("mid", plain(&["m"])),
    ]);
    let order = topo_order(&p).expect("order");
    let place = |n: &str| order.iter().position(|x| x == n).expect("listed");
    assert!(place("mid") < place("alpha"));
    assert_eq!(order.len(), 3);
}

#[test]
fn names_are_kept_in_order() {
    let mut map: NameMap<u32> = NameMap::new();
    for (name, v) in [("b", 2), ("a", 1), ("c", 3), ("b", 20)] {
        map.insert(name.to_owned(), v);
    }
    assert_eq!(map.len(), 3);
    assert_eq!(map.name_at(0), "a");
    assert_eq!(map.get("b"), Some(&20));
    assert_eq!(map.find("c"), Some(2));
    map.remove("a");
    assert!(!map.contains("a"));
    assert_eq!(*map.val_at(0), 20);
}

// ---- Requests --------------------------------------------------------------------

#[test]
fn build_request_splits_argv_and_appends_args() {
    let mut svc = plain(&["cargo", "run"]);
    svc.args = owned(&["--release"]);
    let req = build_request("api", &svc, b"/work").expect("request");
    assert_eq!(req.binary_path, b"cargo".to_vec());
    assert_eq!(req.args, vec!["run", "--release"]);
    assert_eq!(req.cwd, b"/work".to_vec());
    assert_eq!(req.name.as_deref(), Some("api"));
    assert!(req.elicitation_confirmed);
    assert_eq!(req.parent_death_signal, None);
}

#[test]
fn build_request_rejects_string_command() {
    let mut svc = plain(&["x"]);
    svc.command = CommandSpec::Shell("echo hi".to_owned());
    assert!(matches!(build_request("web", &svc, b"/work"), Err(LaunchError::InvalidProfile { .. })));
    let e = build_request("web", &plain(&[]), b"/work").expect_err("empty");
    assert!(matches!(e, LaunchError::InvalidProfile { msg } if msg == "service 'web' has an empty command"));
}

#[test]
fn classify_state_maps_lifecycle_correctly() {
    assert_eq!(classify_state(SubprocessState::Ready), Some(ServiceOutcome::Ready));
    assert_eq!(classify_state(SubprocessState::Failed), Some(ServiceOutcome::Failed));
    // A probe-gated Service sits in Starting until its probe passes; the readiness
    // poll must keep waiting (None), not treat it as ready.
    assert_eq!(classify_state(SubprocessState::Starting), None);
    assert_eq!(outcome_state(ServiceOutcome::Failed), SubprocessState::Failed);
    let list = vec![ProcessInfo { job_id: 1, state: SubprocessState::Running }];
    assert_eq!(poll_once(&list, 1), Some(ServiceOutcome::Ready));
    assert_eq!(poll_once(&list, 2), None);
    assert_eq!(wait_ready_step(false, None, false), WaitStep::Sleep);
    assert_eq!(wait_ready_step(false, None, true), WaitStep::Settled(ServiceOutcome::Failed));
}

#[test]
fn resolve_binary_absolute_is_unchanged() {
    assert!(matches!(resolve_binary(b"/bin/echo", b"/work"), BinaryPlan::At(p) if p == b"/bin/echo"));
}

#[test]
fn resolve_binary_relative_joins_cwd() {
    assert!(matches!(resolve_binary(b"./gradlew", b"/work"), BinaryPlan::At(p) if p == b"/work/./gradlew"));
    assert!(matches!(resolve_binary(b"bin/tool", b"/srv/app"), BinaryPlan::At(p) if p == b"/srv/app/bin/tool"));
}

#[test]
fn resolve_binary_bare_name_searches_path() {
    assert!(matches!(resolve_binary(b"sh", b"/nonexistent-cwd"), BinaryPlan::Search));
    assert_eq!(path_candidates(b"/usr/bin:/bin", b"sh"), vec![b"/usr/bin/sh".to_vec(), b"/bin/sh".to_vec()]);
}

#[test]
fn is_executable_file_requires_regular_file_and_exec_bit() {
    assert!(!is_executable_file(false, 0o755));
    assert!(!is_executable_file(true, 0o644));
    assert!(is_executable_file(true, 0o755));
    assert!(is_executable_file(true, 0o100));
}

#[test]
fn readiness_budget_scales_with_probe() {
    assert_eq!(readiness_budget(&None), u128::from(NONE_READINESS_BUDGET_MS));
    assert_eq!(readiness_budget(&Some(HealthProbe::NoProbe)), u128::from(NONE_READINESS_BUDGET_MS));
    let port = HealthProbe::PortOpen {
        host: "127.0.0.1".to_owned(),
        port: 8080,
        interval_ms: 500,
        startup_grace_ms: 2_000,
    };
    let budget = readiness_budget(&Some(port));
    assert_eq!(budget, 2_000 + u128::from(PROBE_READINESS_BUDGET_MS));
    assert!(budget > u128::from(NONE_READINESS_BUDGET_MS));
    let log = HealthProbe::LogPattern { regex: "ready".to_owned(), timeout_ms: 5_000 };
    assert!(readiness_budget(&Some(log)) >= 5_000);
}

#[test]
fn spawn_fields_differ_on_args_change() {
    let a = plain(&["bin"]);
    let mut b = plain(&["bin"]);
    b.args = owned(&["--flag"]);
    assert!(spawn_fields_differ(&a, &b));
    assert!(!edges_only_differ(&a, &b));
}

#[test]
fn edges_only_differ_on_depends_on_change() {
    let a = plain(&["bin"]);
    let mut b = plain(&["bin"]);
    b.depends_on = owned(&["db"]);
    assert!(!spawn_fields_differ(&a, &b));
    assert!(edges_only_differ(&a, &b));
}

#[test]
fn metadata_only_change_is_neither_spawn_nor_edge() {
    let a = plain(&["bin"]);
    let mut b = plain(&["bin"]);
    b.restart_policy = Some(RestartPolicy::Always { backoff_ms: 1000 });
    assert!(!spawn_fields_differ(&a, &b));
    assert!(!edges_only_differ(&a, &b));
}

#[test]
fn launch_client_id_is_valid() {
    assert_eq!(launch_client_id(), "launch-orchestrator");
    assert_eq!(profile_dir(b"/p/x.toml"), b"/p".to_vec());
}

// ---- Environments -----------------------------------------------------------------

#[test]
fn parse_dotenv_basic_forms() {
    let content = "\
# a comment
BLANK_BELOW=

KEY=value
export EXPORTED=exp
SPACED = trimmed
DQ=\"hello world\"
SQ='literal $NOPE'
ESC=\"line1\\nline2\"
INLINE=bare # trailing comment
EMPTY_KEY_LINE
=no_key
";
    let m = parse_dotenv(content);
    assert_eq!(m.get("KEY").map(String::as_str), Some("value"));
    assert_eq!(m.get("EXPORTED").map(String::as_str), Some("exp"));
    assert_eq!(m.get("SPACED").map(String::as_str), Some("trimmed"));
    assert_eq!(m.get("DQ").map(String::as_str), Some("hello world"));
    assert_eq!(m.get("SQ").map(String::as_str), Some("literal $NOPE"));
    assert_eq!(m.get("ESC").map(String::as_str), Some("line1\nline2"));
    assert_eq!(m.get("INLINE").map(String::as_str), Some("bare"));
    assert_eq!(m.get("BLANK_BELOW").map(String::as_str), Some(""));
    // Comment line, bare word (no '='), and empty key are all skipped.
    assert!(!m.contains("EMPTY_KEY_LINE"));
    assert!(!m.contains(""));
}

#[test]
fn dotenv_values_end_where_their_quotes_do() {
    let m = parse_dotenv("A=\"x\\\"y\\\\z\" tail\r\nB='q' r\r\nC=a#b\nD=\"open\\\nA2=\u{a0}v\u{3000}\n export  E = \"\\t\\q\"");
    let get = |k: &str| m.get(k).map(String::as_str);
    assert_eq!(get("A"), Some("x\"y\\z"));
    assert_eq!(get("B"), Some("q"));
    assert_eq!(get("C"), Some("a#b"));
    assert_eq!(get("D"), Some("open"));
    assert_eq!(get("A2"), Some("v"));
    assert_eq!(get("E"), Some("\tq"));
    assert_eq!(parse_dotenv("K=1\nK=2").get("K").map(String::as_str), Some("2"));
}

#[test]
fn white_space_is_that_of_std() {
    for n in 0..=0x10ffffu32 {
        let Some(c) = char::from_u32(n) else { continue };
        if c == '\n' || c == '#' || c == '=' {
            continue;
        }
        let m = parse_dotenv(&format!("{c}K{c}=v"));
        assert_eq!(m.contains("K"), c.is_whitespace(), "{n:x}");
        if n > 0x4000 {
            break;
        }
    }
}

#[test]
fn merge_precedence_inline_over_later_over_earlier() {
    let mut inline = NameMap::new();
    inline.insert("C".to_owned(), "3".to_owned());
    let merged = merge_env_files(&inline, &owned(&["A=1\nB=1\nC=1\n", "B=2\nC=2\n"]));
    assert_eq!(merged.get("A").map(String::as_str), Some("1")); // only in a
    assert_eq!(merged.get("B").map(String::as_str), Some("2")); // b overrides a
    assert_eq!(merged.get("C").map(String::as_str), Some("3")); // inline overrides both
    assert_eq!(merged.len(), 3);
}

#[test]
fn rejects_absolute_and_traversal_and_escape() {
    let msg = |e: LaunchError| match e {
        LaunchError::InvalidProfile { msg } => msg,
        other => panic!("{other:?}"),
    };
    assert_eq!(
        msg(check_env_path("/etc/passwd").expect_err("absolute")),
        "env_file '/etc/passwd' must be relative to the profile directory"
    );
    assert_eq!(
        msg(check_env_path("../secret.env").expect_err("climbs")),
        "env_file '../secret.env' must not contain '..'"
    );
    assert!(check_env_path("a/b.env").is_ok());
    assert!(check_env_target("x", b"/p/x", b"/p").is_ok());
    assert_eq!(
        msg(check_env_target("x", b"/pq/x", b"/p").expect_err("outside")),
        "env_file 'x': env_file resolves outside the profile directory"
    );
    assert_eq!(
        msg(env_file_failed("nope.env", EnvFileFailure::Unresolved("gone".to_owned()))),
        "env_file 'nope.env': cannot resolve env_file: gone"
    );
    assert_eq!(
        msg(env_file_failed("x", EnvFileFailure::Task("panic".to_owned()))),
        "env_file 'x' load task failed: panic"
    );
    assert!(msg(env_file_failed("x", EnvFileFailure::NoProfileDir("e".to_owned()))).contains("profile directory: e"));
    assert!(msg(env_file_failed("x", EnvFileFailure::Unreadable("e".to_owned()))).contains("cannot read env_file: e"));
}

// ---- Lives -------------------------------------------------------------------------

/// Brings a stack up with processes that all end up in the given states; gives what was
/// started and what was stopped.
fn bring_up(
    id: StackId,
    p: LaunchProfile,
    outcome: impl Fn(&str) -> ServiceOutcome,
) -> (Result<StackEntry, LaunchError>, Vec<String>, Vec<u128>) {
    let mut spawns = Vec::new();
    let mut stops = Vec::new();
    let mut up = match BringUp::new(id, "/p/.substrate.toml".to_owned(), "blake3:x".to_owned(), DisconnectPolicy::Shutdown, p) {
        Ok(up) => up,
        Err(e) => return (Err(e), spawns, stops),
    };
    let mut job = 100u128;
    while !up.is_done() {
        let step = match up.start_next(b"/state", NOW) {
            Ok(step) => step,
            Err(e) => return (Err(e), spawns, stops),
        };
        spawns.push(String::from_utf8(step.request.binary_path.clone()).expect("utf-8"));
        job += 1;
        up.spawned(job);
        if up.settled(outcome(&step.name), NOW) {
            stops.push(job);
        }
    }
    (Ok(up.finish()), spawns, stops)
}

fn all_ready(_: &str) -> ServiceOutcome {
    ServiceOutcome::Ready
}

const ID: StackId = StackId { raw: 77 };

fn running(p: LaunchProfile) -> (LaunchRegistry, StackHandle) {
    let mut reg = LaunchRegistry::new(b"/state".to_vec());
    let entry = bring_up(ID, p, all_ready).0.expect("up");
    let handle = reg.record(entry);
    (reg, handle)
}

#[test]
fn up_starts_services_in_topological_order() {
    let (entry, spawns, stops) = bring_up(ID, three_tier(), all_ready);
    let entry = entry.expect("up succeeds");
    assert_eq!(entry.handle.state, StackState::Running);
    assert_eq!(spawns, vec!["db", "api", "web"]);
    assert_eq!(entry.handle.services.get("web"), Some(&SubprocessState::Ready));
    assert!(stops.is_empty());
}

#[test]
fn required_dependency_failure_fails_dependents() {
    let fails = |n: &str| if n == "db" { ServiceOutcome::Failed } else { ServiceOutcome::Ready };
    let (entry, spawns, _) = bring_up(ID, three_tier(), fails);
    match entry.expect_err("required dep failure") {
        LaunchError::DependencyFailed { service, dependency } => {
            assert_eq!(service, "api");
            assert_eq!(dependency, "db");
        }
        other => panic!("expected DependencyFailed, got {other:?}"),
    }
    assert!(!spawns.contains(&"api".to_owned()));
}

#[test]
fn failed_services_are_stopped() {
    let (entry, _, stops) = bring_up(ID, profile(vec![("web", plain(&["web"]))]), |_| ServiceOutcome::Failed);
    let entry = entry.expect("up completes (single required service degrades, not errors)");
    assert_eq!(entry.handle.state, StackState::Degraded);
    assert_eq!(entry.handle.services.get("web"), Some(&SubprocessState::Failed));
    assert_eq!(stops.len(), 1, "a service that fails readiness must be stopped");
}

#[test]
fn optional_dependency_failure_does_not_block() {
    let mut cache = plain(&["cache"]);
    cache.required = false;
    let p = profile(vec![("cache", cache), ("web", service(&["web"], &["cache"], DependencyRestartMode::Restart))]);
    let fails = |n: &str| if n == "cache" { ServiceOutcome::Failed } else { ServiceOutcome::Ready };
    let (entry, spawns, _) = bring_up(ID, p, fails);
    let entry = entry.expect("optional dep failure must not error");
    assert_eq!(entry.handle.state, StackState::Degraded);
    assert_eq!(entry.handle.services.get("web"), Some(&SubprocessState::Ready));
    assert_eq!(entry.handle.services.get("cache"), Some(&SubprocessState::Failed));
    assert!(spawns.contains(&"web".to_owned()));
    let mut status = NameMap::new();
    status.insert("db".to_owned(), ServiceOutcome::Failed);
    let p = three_tier();
    assert_eq!(blocked_dependency(&p, p.services.get("api").expect("api"), &status).as_deref(), Some("db"));
}

#[test]
fn cycle_is_rejected_before_any_spawn() {
    let p = profile(vec![
        ("a", service(&["a"], &["b"], DependencyRestartMode::Restart)),
        ("b", service(&["b"], &["a"], DependencyRestartMode::Restart)),
    ]);
    let (entry, spawns, _) = bring_up(ID, p, all_ready);
    let err = entry.expect_err("cycle rejected");
    assert!(matches!(err, LaunchError::CycleDetected), "got {err:?}");
    assert!(spawns.is_empty(), "no service may spawn on a cyclic graph");
}

fn supervisor(hash: &str) -> SupervisorRegistry {
    let child = |name: &str, pid: i32| StackChild { name: name.to_owned(), pid, pgid: pid, start_epoch: 1_770_000_001 };
    SupervisorRegistry {
        supervisor_pid: 4242,
        start_epoch: 1_770_000_000,
        policy: DisconnectPolicy::Detach,
        config_hash: hash.to_owned(),
        children: vec![child("db", 5000), child("api", 5001), child("web", 5002)],
    }
}

#[test]
fn detach_policy_spawns_supervisor_and_returns_detached() {
    let p = three_tier();
    assert_eq!(effective_policy(Some(DisconnectPolicy::Detach), &p), DisconnectPolicy::Detach);
    assert_eq!(effective_policy(None, &p), DisconnectPolicy::Shutdown);
    let published = supervisor("blake3:x");
    assert!(matches!(supervisor_ready_step(Some(&published), "blake3:x", false, ID), SupervisorStep::Ready));
    let mut reg = LaunchRegistry::new(b"/state".to_vec());
    let handle = reg.record_detached(
        ID,
        "/p/.substrate.toml".to_owned(),
        "blake3:x".to_owned(),
        DisconnectPolicy::Detach,
        p,
        published,
        NOW,
    );
    assert_eq!(handle.state, StackState::Detached);
    assert_eq!(handle.policy, DisconnectPolicy::Detach);
    assert!(handle.supervisor.is_some(), "detached handle carries the supervisor registry");
    assert_eq!(handle.services.get("web"), Some(&SubprocessState::Running));
    let (events, _) = reg.logs(ID, None, None).expect("logs");
    assert_eq!(events[0].message, "detached supervisor pid 4242 owns the stack");
    assert_eq!(signed_text(-12), "-12");
    assert_eq!(signed_text(i32::MIN), i32::MIN.to_string());
}

#[test]
fn detach_supervisor_failure_returns_supervisor_unreachable() {
    let other = supervisor("blake3:other");
    assert!(matches!(supervisor_ready_step(Some(&other), "blake3:x", false, ID), SupervisorStep::Sleep));
    match supervisor_ready_step(Some(&other), "blake3:x", true, ID) {
        SupervisorStep::GiveUp(LaunchError::SupervisorUnreachable { stack_id }) => {
            assert_eq!(stack_id, ID.to_crockford());
        }
        other => panic!("{other:?}"),
    }
    assert!(matches!(supervisor_ready_step(None, "blake3:x", false, ID), SupervisorStep::Sleep));
}

#[test]
fn down_cascade_stops_every_service() {
    let (mut reg, handle) = running(three_tier());
    let jobs = reg.down_plan(handle.stack_id).expect("plan");
    assert_eq!(jobs, vec![103, 102, 101], "every service must be cancelled, dependents first");
    assert_eq!(reg.down_done(handle.stack_id, NOW), StackState::Down);
    let after = reg.status(Some(handle.stack_id)).pop().expect("stack present");
    assert_eq!(after.state, StackState::Down);
    assert_eq!(after.services.get("db"), Some(&SubprocessState::Cancelled));
    assert!(matches!(reg.down_plan(StackId { raw: 1 }), Err(LaunchError::SupervisorUnreachable { .. })));
}

#[test]
fn forget_removes_terminal_stack_from_registry() {
    let (mut reg, handle) = running(three_tier());
    assert_eq!(reg.stack_count(), 1);
    reg.down_done(handle.stack_id, NOW);
    reg.forget(handle.stack_id).expect("forget a Down stack");
    assert!(reg.status(Some(handle.stack_id)).is_empty(), "forgotten stack must not appear in status");
    assert!(matches!(reg.forget(handle.stack_id), Err(LaunchError::SupervisorUnreachable { .. })));
}

#[test]
fn forget_rejects_non_terminal_stack() {
    let (mut reg, handle) = running(three_tier());
    let err = reg.forget(handle.stack_id).expect_err("forget on a Running stack must be rejected");
    assert!(matches!(&err, LaunchError::StackNotTerminal { state, .. } if state == "running"), "got {err:?}");
    let after = reg.status(Some(handle.stack_id)).pop().expect("stack still present");
    assert_eq!(after.state, StackState::Running, "stack must be untouched");
}

#[test]
fn reload_cascade_restarts_changed_and_dependents_only() {
    let (mut reg, handle) = running(three_tier());
    assert_eq!(reg.reload_path(handle.stack_id, None).expect("path"), "/p/.substrate.toml");
    assert_eq!(reg.reload_path(handle.stack_id, Some("/q")).expect("path"), "/q");
    let edited = three_tier_with(&["--v2"]);
    let plan = reg.reload_plan(handle.stack_id, &edited).expect("reload");
    assert!(plan.report.restarted.contains(&"api".to_owned()), "api restarted");
    assert!(plan.report.restarted.contains(&"web".to_owned()), "web cascade-restarted");
    assert!(!plan.report.restarted.contains(&"db".to_owned()), "db untouched");
    assert_eq!(plan.start, vec!["api", "web"], "only api and web re-spawn");
    assert_eq!(plan.stop, vec![103, 102]);
    let spawned = vec![
        Spawned { name: "api".to_owned(), job_id: 201, outcome: ServiceOutcome::Ready },
        Spawned { name: "web".to_owned(), job_id: 202, outcome: ServiceOutcome::Failed },
    ];
    reg.apply_reload(handle.stack_id, edited, &plan.report, &spawned, NOW);
    let after = reg.status(Some(handle.stack_id)).pop().expect("present");
    assert_eq!(after.services.get("web"), Some(&SubprocessState::Failed));
    assert_eq!(reg.down_plan(handle.stack_id).expect("plan"), vec![202, 201, 101]);
    let (events, _) = reg.logs(handle.stack_id, None, None).expect("logs");
    assert_eq!(events.last().expect("event").message, "stack reloaded");
}

#[test]
fn reload_metadata_only_restarts_nothing() {
    let app = |max_retries: u32| {
        let mut app = plain(&["app"]);
        app.restart_policy = Some(RestartPolicy::OnFailure { max_retries, backoff_ms: 1000 });
        profile(vec![("app", app)])
    };
    let (mut reg, handle) = running(app(3));
    let plan = reg.reload_plan(handle.stack_id, &app(5)).expect("reload");
    assert!(plan.report.restarted.is_empty(), "metadata-only change restarts nothing");
    assert!(plan.start.is_empty(), "no child re-spawns");
    assert!(plan.stop.is_empty());
}

#[test]
fn reloads_report_what_is_new_gone_and_rewired() {
    let old = profile(vec![("a", plain(&["a"])), ("b", plain(&["b"])), ("c", plain(&["c"]))]);
    let new = profile(vec![
        ("b", service(&["b"], &["c"], DependencyRestartMode::Restart)),
        ("c", plain(&["c"])),
        ("d", plain(&["d"])),
    ]);
    let report = compute_reload_report(&old, &new);
    assert_eq!(report.added, vec!["d"]);
    assert_eq!(report.removed, vec!["a"]);
    assert_eq!(report.edge_only, vec!["b"]);
    assert!(report.restarted.is_empty());
    assert_eq!(reverse_order_for(&three_tier(), &owned(&["db", "web"])), vec!["web", "db"]);
    let (mut reg, handle) = running(old);
    reg.apply_reload(handle.stack_id, new, &report, &Vec::new(), NOW);
    let after = reg.status(Some(handle.stack_id)).pop().expect("present");
    assert!(after.services.get("a").is_none(), "what is gone leaves");
}

#[test]
fn restart_single_service_respawns_and_stays_running() {
    let (mut reg, handle) = running(three_tier());
    let plan = reg.restart_plan(handle.stack_id, "api").expect("plan");
    assert_eq!(plan.stop, Some(102), "old api job cancelled");
    assert_eq!(plan.request.expect("request").binary_path, b"api".to_vec());
    let updated = reg.restart_done(handle.stack_id, "api", 300, ServiceOutcome::Ready, NOW).expect("restart api");
    assert_eq!(updated.services.get("api"), Some(&SubprocessState::Ready));
    assert_eq!(updated.state, StackState::Running);
    let (events, _) = reg.logs(handle.stack_id, Some("api"), None).expect("logs");
    assert_eq!(events.last().expect("event").message, "restarting service 'api'");
    let e = reg.restart_plan(handle.stack_id, "nope").expect_err("unknown");
    assert!(matches!(e, LaunchError::InvalidProfile { msg } if msg == "unknown service 'nope'"));
    assert!(reg.restart_done(StackId { raw: 1 }, "api", 1, ServiceOutcome::Ready, NOW).is_err());
}

#[test]
fn logs_return_lifecycle_events_and_honor_cursor() {
    let (reg, handle) = running(three_tier());
    let (events, cursor) = reg.logs(handle.stack_id, None, None).expect("logs");
    assert!(!events.is_empty(), "lifecycle events must be present");
    assert!(events.iter().any(|e| e.kind == LaunchEventKind::Started));
    assert!(events.iter().any(|e| e.kind == LaunchEventKind::Ready));
    let last_seq = cursor.expect("cursor present");
    let (tail, next) = reg.logs(handle.stack_id, None, Some(&last_seq)).expect("tail");
    assert!(tail.is_empty(), "no events strictly after the last cursor");
    assert_eq!(next, None);
    let e = reg.logs(StackId { raw: 1 }, None, None).expect_err("unknown");
    assert!(matches!(e, SubstrateError::JobNotFound { .. }));
}

#[test]
fn logs_filter_by_service() {
    let (reg, handle) = running(three_tier());
    let (events, _) = reg.logs(handle.stack_id, Some("db"), None).expect("logs db");
    assert!(events.iter().all(|e| e.service.as_deref() == Some("db")));
    assert!(!events.is_empty());
}

#[test]
fn lines_of_output_become_events() {
    let mut entry = bring_up(ID, three_tier(), all_ready).0.expect("up");
    entry.emit_semantic("api", "token=abc here", &vec!["abc".to_owned()], NOW);
    let tail = entry.tail(Some("api"), None);
    let semantic = tail.iter().find(|e| e.kind == LaunchEventKind::Semantic).expect("semantic event present");
    assert_eq!(semantic.stream, Some(Stream::Stdout));
    assert_eq!(semantic.message, "token=[REDACTED] here");
    assert_eq!(semantic.cursor, semantic.seq.to_string());
}

#[test]
fn semantic_event_is_redacted_at_source() {
    let mut entry = bring_up(ID, three_tier(), all_ready).0.expect("up");
    entry.emit_semantic("api", "token=s3cr3t-value here", &vec!["s3cr3t-value".to_owned()], NOW);
    let events = entry.tail(Some("api"), None);
    let semantic = events.iter().find(|e| e.kind == LaunchEventKind::Semantic).expect("semantic event present");
    assert!(!semantic.message.contains("s3cr3t-value"), "secret must be redacted");
    assert!(semantic.message.contains("[REDACTED]"));
}

#[test]
fn secrets_are_masked() {
    let redact = |line: &str, global: &[&str], own: &[&str]| {
        let list = |v: &[&str]| v.iter().map(|s| (*s).to_owned()).collect::<Vec<String>>();
        Redactor::new(&list(global), &list(own)).redact_line(line)
    };
    assert_eq!(redact("a secret and a key", &["secret"], &["key"]), "a [REDACTED] and a [REDACTED]");
    assert_eq!(redact("nothing here", &["secret"], &[""]), "nothing here");
    assert_eq!(redact("xabcabcx", &[], &["abc"]), "x[REDACTED]x");
    assert_eq!(redact("xababay", &[], &["aba"]), "x[REDACTED]y");
    assert_eq!(redact("", &["a"], &[]), "");
    // Where the mask would complete a secret, the line goes; where it holds one, all goes.
    assert_eq!(redact("k12", &["k", "]12"], &[]), "[REDACTED]");
    assert_eq!(redact("has RED", &["RED"], &[]), "");
}

#[test]
fn list_does_not_require_trust() {
    let entries = catalog(&three_tier()).expect("list without trust");
    assert_eq!(entries.len(), 3);
    assert_eq!(entries[0].name, "api");
    assert_eq!(entries[0].command, vec!["api"]);
    assert_eq!(entries[0].depends_on, vec!["db"]);
    assert!(entries[0].required);
    let mut shell = plain(&["x"]);
    shell.command = CommandSpec::Shell("x".to_owned());
    assert!(catalog(&profile(vec![("s", shell)])).is_err());
}

#[test]
fn status_empty_on_new_registry() {
    let reg = LaunchRegistry::new(b"/state".to_vec());
    assert!(reg.status(None).is_empty());
    assert_eq!(reg.state_root(), b"/state");
    assert_eq!(reg.trust_store(), b"/state/launch-trust.toml");
}

#[test]
fn project_types_are_told_by_files_beside_the_profile() {
    assert_eq!(default_profile_path(), ".substrate.toml");
    assert_eq!(project_dir(b".substrate.toml"), b".".to_vec());
    assert_eq!(project_dir(b"/p/x.toml"), b"/p".to_vec());
    assert_eq!(detect_project_type(true, true).as_deref(), Some("rust"));
    assert_eq!(detect_project_type(false, true).as_deref(), Some("node"));
    assert_eq!(detect_project_type(false, false), None);
}
