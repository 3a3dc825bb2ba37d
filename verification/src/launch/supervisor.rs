//! Bringing up one service: the request that starts it, when it is ready, and what
//! changes make it start anew.
use crate::errors::{LaunchError, LaunchErrorView};
use crate::launch::names::{push_text, same_texts, texts, NameMap};
use crate::launch::profile::{
    copy_env, env_view, opt_text, same_command, same_env, shell_refused, CommandSpec, CommandView,
    EnvView, HealthProbe, LaunchService, RestartPolicy, ServiceView,
};
use crate::paths;
use crate::text;
use vstd::prelude::*;
use vstd::utf8::encode_utf8;

verus! {

/// How often a service is asked whether it is ready, in milliseconds.
pub const READINESS_POLL_INTERVAL_MS: u64 = 50;

/// How long a service without a probe may take to become ready.
pub const NONE_READINESS_BUDGET_MS: u64 = 10_000;

/// How long a probe may take to succeed, beyond the grace at the start.
pub const PROBE_READINESS_BUDGET_MS: u64 = 180_000;

/// How long a service may take to become ready, in milliseconds.
pub open spec fn budget(probe: Option<HealthProbe>) -> int {
    match probe {
        None => NONE_READINESS_BUDGET_MS as int,
        Some(HealthProbe::NoProbe) => NONE_READINESS_BUDGET_MS as int,
        Some(HealthProbe::PortOpen { startup_grace_ms, .. }) => startup_grace_ms
            + PROBE_READINESS_BUDGET_MS,
        Some(HealthProbe::HttpGet { startup_grace_ms, .. }) => startup_grace_ms
            + PROBE_READINESS_BUDGET_MS,
        Some(HealthProbe::LogPattern { timeout_ms, .. }) => timeout_ms + 4
            * READINESS_POLL_INTERVAL_MS,
    }
}

/// How long a service may take to become ready, in milliseconds: little without a
/// probe, long with one that waits for a port or an address, and a probe on the log
/// names its own time.
pub fn readiness_budget(probe: &Option<HealthProbe>) -> (r: u128)
    ensures
        r == budget(*probe),
        probe is None ==> r == 10_000,
        probe matches Some(p) ==> p is NoProbe ==> r == 10_000,
        probe matches Some(HealthProbe::PortOpen { startup_grace_ms, .. }) ==> r == startup_grace_ms
            + 180_000,
        probe matches Some(HealthProbe::HttpGet { startup_grace_ms, .. }) ==> r == startup_grace_ms
            + 180_000,
        probe matches Some(HealthProbe::LogPattern { timeout_ms, .. }) ==> r == timeout_ms + 200,
{
    match probe {
        None => NONE_READINESS_BUDGET_MS as u128,
        Some(HealthProbe::NoProbe) => NONE_READINESS_BUDGET_MS as u128,
        Some(HealthProbe::PortOpen { startup_grace_ms, .. }) => *startup_grace_ms as u128
            + PROBE_READINESS_BUDGET_MS as u128,
        Some(HealthProbe::HttpGet { startup_grace_ms, .. }) => *startup_grace_ms as u128
            + PROBE_READINESS_BUDGET_MS as u128,
        Some(HealthProbe::LogPattern { timeout_ms, .. }) => *timeout_ms as u128 + 4
            * READINESS_POLL_INTERVAL_MS as u128,
    }
}

/// Whether a service became ready.
#[derive(Debug, Clone, Copy, PartialEq, Eq, Structural)]
pub enum ServiceOutcome {
    Ready,
    Failed,
}

/// The state of a process.
#[derive(Debug, Clone, Copy, PartialEq, Eq, Structural)]
pub enum SubprocessState {
    Pending,
    Starting,
    Restarting,
    Ready,
    Running,
    Succeeded,
    Failed,
    Cancelled,
    Killed,
    TimedOut,
}

/// What the state of a process says of readiness; nothing while that is open.
pub open spec fn verdict_of(state: SubprocessState) -> Option<ServiceOutcome> {
    match state {
        SubprocessState::Ready | SubprocessState::Running | SubprocessState::Succeeded => Some(
            ServiceOutcome::Ready,
        ),
        SubprocessState::Failed
        | SubprocessState::Cancelled
        | SubprocessState::Killed
        | SubprocessState::TimedOut => Some(ServiceOutcome::Failed),
        SubprocessState::Pending | SubprocessState::Starting | SubprocessState::Restarting => None,
    }
}

/// What the state of a process says of readiness; nothing while that is open.
pub fn classify_state(state: SubprocessState) -> (r: Option<ServiceOutcome>)
    ensures
        r == verdict_of(state),
{
    match state {
        SubprocessState::Ready | SubprocessState::Running | SubprocessState::Succeeded => Some(
            ServiceOutcome::Ready,
        ),
        SubprocessState::Failed
        | SubprocessState::Cancelled
        | SubprocessState::Killed
        | SubprocessState::TimedOut => Some(ServiceOutcome::Failed),
        SubprocessState::Pending | SubprocessState::Starting | SubprocessState::Restarting => None,
    }
}

/// The state that is recorded for a service.
pub open spec fn recorded(outcome: ServiceOutcome) -> SubprocessState {
    match outcome {
        ServiceOutcome::Ready => SubprocessState::Ready,
        ServiceOutcome::Failed => SubprocessState::Failed,
    }
}

/// The state that is recorded for a service.
pub fn outcome_state(outcome: ServiceOutcome) -> (r: SubprocessState)
    ensures
        r == recorded(outcome),
{
    match outcome {
        ServiceOutcome::Ready => SubprocessState::Ready,
        ServiceOutcome::Failed => SubprocessState::Failed,
    }
}

/// A process as it is listed.
#[derive(Debug, Clone, Copy)]
pub struct ProcessInfo {
    pub job_id: u128,
    pub state: SubprocessState,
}

/// Where a job is first listed; the length of the list where it is not.
pub open spec fn first_listed(list: Seq<ProcessInfo>, job_id: u128) -> int
    decreases list.len(),
{
    if list.len() == 0 || list[0].job_id == job_id {
        0
    } else {
        1 + first_listed(list.drop_first(), job_id)
    }
}

/// The state that a job is listed with.
pub open spec fn listed_state(list: Seq<ProcessInfo>, job_id: u128) -> Option<SubprocessState> {
    let i = first_listed(list, job_id);
    if 0 <= i < list.len() {
        Some(list[i].state)
    } else {
        None
    }
}

/// The state that a job is listed with, where it is listed.
pub fn find_state(list: &Vec<ProcessInfo>, job_id: u128) -> (r: Option<SubprocessState>)
    ensures
        r == listed_state(list@, job_id),
{
    let mut i: usize = 0;
    assert(list@.skip(0) =~= list@);
    while i < list.len()
        invariant
            i <= list@.len(),
            first_listed(list@, job_id) == i + first_listed(list@.skip(i as int), job_id),
        decreases list@.len() - i,
    {
        if list[i].job_id == job_id {
            return Some(list[i].state);
        }
        assert(list@.skip(i as int).drop_first() =~= list@.skip(i + 1));
        i = i + 1;
    }
    None
}

/// What one look at the list of processes says of the readiness of a job.
pub fn poll_once(list: &Vec<ProcessInfo>, job_id: u128) -> (r: Option<ServiceOutcome>)
    ensures
        r == (match listed_state(list@, job_id) {
            Some(state) => verdict_of(state),
            None => None,
        }),
{
    match find_state(list, job_id) {
        Some(state) => classify_state(state),
        None => None,
    }
}

/// What a wait for readiness does next.
#[derive(Debug, Clone, Copy, PartialEq, Eq, Structural)]
pub enum WaitStep {
    Settled(ServiceOutcome),
    Sleep,
}

/// Decides a round of a wait: a cancelled wait has failed; then what the look at the
/// processes said counts; then a wait whose time is over has failed.
pub fn wait_ready_step(cancelled: bool, polled: Option<ServiceOutcome>, over: bool) -> (r: WaitStep)
    ensures
        r == (if cancelled {
            WaitStep::Settled(ServiceOutcome::Failed)
        } else if polled is Some {
            WaitStep::Settled(polled->0)
        } else if over {
            WaitStep::Settled(ServiceOutcome::Failed)
        } else {
            WaitStep::Sleep
        }),
{
    if cancelled {
        return WaitStep::Settled(ServiceOutcome::Failed);
    }
    match polled {
        Some(outcome) => WaitStep::Settled(outcome),
        None => if over {
            WaitStep::Settled(ServiceOutcome::Failed)
        } else {
            WaitStep::Sleep
        },
    }
}

// ---- Requests --------------------------------------------------------------

/// What a process reads from.
#[derive(Debug, Clone, Copy, PartialEq, Eq, Structural)]
pub enum StdinKind {
    Closed,
    Piped,
}

/// Where the output of a process is kept.
#[derive(Debug, Clone, Copy, PartialEq, Eq, Structural)]
pub enum CaptureKind {
    InMemory,
    Discarded,
}

/// What starts a process.
#[derive(Debug)]
pub struct SubprocessRequest {
    pub binary_path: Vec<u8>,
    pub args: Vec<String>,
    pub env_allowlist: Vec<String>,
    pub env_override: NameMap<String>,
    pub cwd: Vec<u8>,
    pub stdin_kind: StdinKind,
    pub capture_kind: CaptureKind,
    pub timeout_secs: Option<u64>,
    pub idempotency_key: Option<String>,
    /// Whether the operator has agreed to it.
    pub elicitation_confirmed: bool,
    pub name: Option<String>,
    pub restart_policy: Option<RestartPolicy>,
    pub health_probe: Option<HealthProbe>,
    pub log_rotation: Option<u64>,
    /// The signal that the process gets when its parent dies.
    pub parent_death_signal: Option<i32>,
}

/// What contracts say of a [`SubprocessRequest`].
#[verifier::ext_equal]
pub struct RequestView {
    pub binary_path: Seq<u8>,
    pub args: Seq<Seq<char>>,
    pub env_allowlist: Seq<Seq<char>>,
    pub env_override: EnvView,
    pub cwd: Seq<u8>,
    pub stdin_kind: StdinKind,
    pub capture_kind: CaptureKind,
    pub timeout_secs: Option<u64>,
    pub idempotency_key: Option<Seq<char>>,
    pub elicitation_confirmed: bool,
    pub name: Option<Seq<char>>,
    pub restart_policy: Option<RestartPolicy>,
    pub health_probe: Option<HealthProbe>,
    pub log_rotation: Option<u64>,
    pub parent_death_signal: Option<i32>,
}

impl View for SubprocessRequest {
    type V = RequestView;

    open spec fn view(&self) -> RequestView {
        RequestView {
            binary_path: self.binary_path@,
            args: texts(self.args@),
            env_allowlist: texts(self.env_allowlist@),
            env_override: env_view(self.env_override),
            cwd: self.cwd@,
            stdin_kind: self.stdin_kind,
            capture_kind: self.capture_kind,
            timeout_secs: self.timeout_secs,
            idempotency_key: opt_text(self.idempotency_key),
            elicitation_confirmed: self.elicitation_confirmed,
            name: opt_text(self.name),
            restart_policy: self.restart_policy,
            health_probe: self.health_probe,
            log_rotation: self.log_rotation,
            parent_death_signal: self.parent_death_signal,
        }
    }
}

/// What is said of a request is what its fields hold.
pub proof fn requests_are_seen_as_made(q: SubprocessRequest)
    ensures
        q@.binary_path == q.binary_path@,
        q@.args == texts(q.args@),
        q@.env_allowlist == texts(q.env_allowlist@),
        q@.env_override.names == q.env_override.names(),
        q@.env_override.vals == texts(q.env_override.vals()),
        q@.cwd == q.cwd@,
        q@.stdin_kind == q.stdin_kind,
        q@.capture_kind == q.capture_kind,
        q@.timeout_secs == q.timeout_secs,
        match q.idempotency_key {
            Some(x) => q@.idempotency_key == Some(x@),
            None => q@.idempotency_key is None,
        },
        q@.elicitation_confirmed == q.elicitation_confirmed,
        match q.name {
            Some(x) => q@.name == Some(x@),
            None => q@.name is None,
        },
        q@.restart_policy == q.restart_policy,
        q@.health_probe == q.health_probe,
        q@.log_rotation == q.log_rotation,
        q@.parent_death_signal == q.parent_death_signal,
{
}

/// The request that starts a service, or why there is none. The first word of the
/// command is the program; the rest of it and the service's own arguments follow.
pub open spec fn requested(name: Seq<char>, s: ServiceView, default_cwd: Seq<u8>) -> Result<
    RequestView,
    LaunchErrorView,
> {
    match s.command {
        CommandView::Shell(_) => Err(shell_refused()),
        CommandView::Argv(argv) => if argv.len() == 0 {
            Err(
                LaunchErrorView::InvalidProfile {
                    msg: "service '"@ + name + "' has an empty command"@,
                },
            )
        } else {
            Ok(
                RequestView {
                    binary_path: encode_utf8(argv[0]),
                    args: argv.drop_first() + s.args,
                    env_allowlist: Seq::empty(),
                    env_override: s.env,
                    cwd: match s.cwd {
                        Some(dir) => encode_utf8(dir),
                        None => default_cwd,
                    },
                    stdin_kind: StdinKind::Closed,
                    capture_kind: CaptureKind::InMemory,
                    timeout_secs: None,
                    idempotency_key: None,
                    elicitation_confirmed: true,
                    name: Some(name),
                    restart_policy: s.restart_policy,
                    health_probe: s.health_probe,
                    log_rotation: None,
                    parent_death_signal: None,
                },
            )
        },
    }
}

/// Builds the request that starts a service.
pub fn build_request(name: &str, service: &LaunchService, default_cwd: &[u8]) -> (r: Result<
    SubprocessRequest,
    LaunchError,
>)
    requires
        service.env.wf(),
    ensures
        match requested(name@, service@, default_cwd@) {
            Ok(q) => r matches Ok(x) && x@ == q && x.env_override.wf(),
            Err(e) => r matches Err(x) && x@ == e,
        },
        r is Ok <==> (service.command matches CommandSpec::Argv(argv) && argv@.len() > 0),
        r matches Ok(x) ==> service.command matches CommandSpec::Argv(argv) && {
            &&& x.binary_path@ == encode_utf8(argv@[0]@)
            &&& x.args@.len() == argv@.len() - 1 + service.args@.len()
            &&& forall|k: int| 1 <= k < argv@.len() ==> x.args@[k - 1]@ == #[trigger] argv@[k]@
            &&& forall|k: int|
                0 <= k < service.args@.len() ==> x.args@[argv@.len() - 1 + k]@
                    == #[trigger] service.args@[k]@
            &&& x.env_override@ == service.env@
            &&& x.env_allowlist@.len() == 0
            &&& x.name matches Some(n) && n@ == name@
            &&& x.restart_policy == service.restart_policy
            &&& x.health_probe == service.health_probe
            &&& x.stdin_kind == StdinKind::Closed
            &&& x.capture_kind == CaptureKind::InMemory
            &&& x.timeout_secs is None
            &&& x.idempotency_key is None
            &&& x.elicitation_confirmed
            &&& x.log_rotation is None
            &&& x.parent_death_signal is None
        },
        r matches Ok(x) ==> match service.cwd {
            Some(dir) => x.cwd@ == encode_utf8(dir@),
            None => x.cwd@ == default_cwd@,
        },
        r matches Err(e) ==> e@ == (LaunchErrorView::InvalidProfile {
            msg: if service.command is Shell {
                "command must be an argv array, not a string"@
            } else {
                "service '"@ + name@ + "' has an empty command"@
            },
        }),
{
    let argv = match service.command.argv() {
        Ok(v) => v,
        Err(e) => {
            return Err(e);
        },
    };
    if argv.len() == 0 {
        return Err(
            LaunchError::InvalidProfile {
                msg: text::cat3("service '", name, "' has an empty command"),
            },
        );
    }
    let ghost words = texts(argv@);
    let ghost own = texts(service.args@);
    let mut args: Vec<String> = Vec::new();
    let mut i: usize = 1;
    assert(texts(args@) =~= words.subrange(1, 1));
    while i < argv.len()
        invariant
            words == texts(argv@),
            1 <= i <= argv@.len(),
            texts(args@) == words.subrange(1, i as int),
        decreases argv@.len() - i,
    {
        push_text(&mut args, argv[i].as_str());
        i = i + 1;
        assert(texts(args@) =~= words.subrange(1, i as int));
    }
    assert(texts(args@) =~= words.drop_first());
    let ghost head = texts(args@);
    let mut k: usize = 0;
    assert(head + own.take(0) =~= head);
    while k < service.args.len()
        invariant
            own == texts(service.args@),
            k <= service.args@.len(),
            texts(args@) == head + own.take(k as int),
        decreases service.args@.len() - k,
    {
        push_text(&mut args, service.args[k].as_str());
        k = k + 1;
        assert(texts(args@) =~= head + own.take(k as int));
    }
    assert(own.take(k as int) =~= own);
    let cwd = match &service.cwd {
        Some(dir) => vstd::slice::slice_to_vec(dir.as_str().as_bytes()),
        None => vstd::slice::slice_to_vec(default_cwd),
    };
    let health_probe = match &service.health_probe {
        Some(p) => Some(p.copied()),
        None => None,
    };
    let request = SubprocessRequest {
        binary_path: vstd::slice::slice_to_vec(argv[0].as_str().as_bytes()),
        args,
        env_allowlist: Vec::new(),
        env_override: copy_env(&service.env),
        cwd,
        stdin_kind: StdinKind::Closed,
        capture_kind: CaptureKind::InMemory,
        timeout_secs: None,
        idempotency_key: None,
        elicitation_confirmed: true,
        name: Some(name.to_owned()),
        restart_policy: service.restart_policy,
        health_probe,
        log_rotation: None,
        parent_death_signal: None,
    };
    proof {
        assert(texts(request.env_allowlist@) =~= Seq::<Seq<char>>::empty());
        assert(texts(request.args@) == words.drop_first() + own);
        let command = service.command->Argv_0;
        assert(texts(command@) == words);
        assert(command@.len() == words.len());
        assert(command@[0]@ == words[0]);
        assert(request.args@.len() == texts(request.args@).len());
        assert forall|k: int| 1 <= k < command@.len() implies request.args@[k - 1]@
            == #[trigger] command@[k]@ by {
            assert(texts(request.args@)[k - 1] == words[k]);
        }
        assert forall|k: int| 0 <= k < service.args@.len() implies request.args@[command@.len() - 1
            + k]@ == #[trigger] service.args@[k]@ by {
            assert(texts(request.args@)[command@.len() - 1 + k] == own[k]);
        }
        assert(request.env_allowlist@.len() == 0);
        assert(request.env_override@ == service.env@);
    }
    Ok(request)
}

// ---- Programs --------------------------------------------------------------

/// The byte that separates the directories of a search path.
pub const COLON: u8 = 58;

/// Where a program is looked for.
#[derive(Debug)]
pub enum BinaryPlan {
    /// It is here.
    At(Vec<u8>),
    /// It is searched for in the directories of the search path.
    Search,
}

/// Where a program is looked for: an absolute path is taken as it is, a path with a
/// separator starts from the service's directory, and a bare name is searched for.
pub open spec fn planned_binary(binary: Seq<u8>, cwd: Seq<u8>) -> Option<Seq<u8>> {
    if paths::absolute(binary) {
        Some(binary)
    } else if binary.contains(paths::SLASH) {
        Some(paths::joined(cwd, binary))
    } else {
        None
    }
}

/// Whether a byte occurs in a byte string.
fn has_byte(s: &[u8], b: u8) -> (r: bool)
    ensures
        r == s@.contains(b),
{
    let mut i: usize = 0;
    while i < s.len()
        invariant
            i <= s@.len(),
            forall|j: int| 0 <= j < i ==> s@[j] != b,
        decreases s@.len() - i,
    {
        if s[i] == b {
            assert(s@[i as int] == b);
            return true;
        }
        i = i + 1;
    }
    false
}

/// Settles where a program is looked for.
pub fn resolve_binary(binary: &[u8], cwd: &[u8]) -> (r: BinaryPlan)
    ensures
        match planned_binary(binary@, cwd@) {
            Some(path) => r matches BinaryPlan::At(p) && p@ == path,
            None => r is Search,
        },
        binary@.len() > 0 && binary@[0] == 47 ==> (r matches BinaryPlan::At(p) && p@ == binary@),
        !(binary@.len() > 0 && binary@[0] == 47) && binary@.contains(47u8) ==> (
        r matches BinaryPlan::At(p) && p@ == paths::joined(cwd@, binary@)),
        !binary@.contains(47u8) ==> r is Search,
{
    if paths::is_absolute(binary) {
        return BinaryPlan::At(vstd::slice::slice_to_vec(binary));
    }
    if has_byte(binary, paths::SLASH) {
        return BinaryPlan::At(paths::join(cwd, binary));
    }
    BinaryPlan::Search
}

/// Where the first colon of `s` stands; the length of `s` where it has none.
pub open spec fn first_colon(s: Seq<u8>) -> int
    decreases s.len(),
{
    if s.len() == 0 || s[0] == COLON {
        0
    } else {
        1 + first_colon(s.drop_first())
    }
}

/// The places where a bare name is searched for: each directory of the search path
/// that is not empty, in order, joined with the name.
pub open spec fn candidates(search: Seq<u8>, name: Seq<u8>) -> Seq<Seq<u8>>
    decreases search.len(),
{
    let k = first_colon(search);
    let dir = if 0 <= k <= search.len() {
        search.take(k)
    } else {
        search
    };
    let here = if dir.len() == 0 {
        Seq::empty()
    } else {
        seq![paths::joined(dir, name)]
    };
    if 0 <= k < search.len() {
        here + candidates(search.skip(k + 1), name)
    } else {
        here
    }
}

/// A search path is searched directory by directory, in its order: of `dir:rest` first in the
/// directory before the colon, then in the rest. An empty directory is passed over.
pub proof fn directories_are_searched_in_order(dir: Seq<u8>, rest: Seq<u8>, name: Seq<u8>)
    requires
        forall|i: int| 0 <= i < dir.len() ==> dir[i] != 58,
    ensures
        candidates(dir + seq![58u8] + rest, name) == (if dir.len() > 0 {
            seq![paths::joined(dir, name)]
        } else {
            Seq::<Seq<u8>>::empty()
        }) + candidates(rest, name),
        candidates(dir, name) == (if dir.len() > 0 {
            seq![paths::joined(dir, name)]
        } else {
            Seq::<Seq<u8>>::empty()
        }),
{
    let search = dir + seq![58u8] + rest;
    lemma_first_colon(search);
    lemma_first_colon(dir);
    let k = first_colon(search);
    if k < dir.len() {
        assert(search[k] == dir[k]);
    }
    if k > dir.len() {
        assert(search[dir.len() as int] == COLON);
    }
    assert(k == dir.len());
    assert(search.take(k) =~= dir);
    assert(search.skip(k + 1) =~= rest);
    let f = first_colon(dir);
    if f < dir.len() {
        assert(dir[f] == COLON);
    }
    assert(dir.take(f) =~= dir);
}

/// The byte strings of a list.
pub open spec fn byte_strings(v: Seq<Vec<u8>>) -> Seq<Seq<u8>> {
    Seq::new(v.len(), |i: int| v[i]@)
}

/// The byte strings of a list are its own, one by one.
pub proof fn byte_strings_are_seen_one_by_one(v: Seq<Vec<u8>>)
    ensures
        byte_strings(v).len() == v.len(),
        forall|i: int| 0 <= i < v.len() ==> byte_strings(v)[i] == (#[trigger] v[i])@,
{
}

proof fn lemma_first_colon(s: Seq<u8>)
    ensures
        0 <= first_colon(s) <= s.len(),
        forall|i: int| 0 <= i < first_colon(s) ==> s[i] != COLON,
        first_colon(s) < s.len() ==> s[first_colon(s)] == COLON,
    decreases s.len(),
{
    if s.len() > 0 && s[0] != COLON {
        lemma_first_colon(s.drop_first());
        assert forall|i: int| 0 <= i < first_colon(s) implies s[i] != COLON by {
            if i > 0 {
                assert(s[i] == s.drop_first()[i - 1]);
            }
        }
    }
}

/// Where the first colon at or after `from` stands, or the length.
fn find_colon(s: &[u8], from: usize) -> (k: usize)
    requires
        from <= s@.len(),
    ensures
        from <= k <= s@.len(),
        k - from == first_colon(s@.skip(from as int)),
{
    let mut k: usize = from;
    while k < s.len() && s[k] != COLON
        invariant
            from <= k <= s@.len(),
            forall|i: int| from <= i < k ==> s@[i] != COLON,
        decreases s@.len() - k,
    {
        k = k + 1;
    }
    proof {
        let rest = s@.skip(from as int);
        lemma_first_colon(rest);
        let f = first_colon(rest);
        if f < k - from {
            assert(s@[from + f] != COLON);
            assert(rest[f] == s@[from + f]);
        }
        if k - from < f {
            assert(rest[k - from] == s@[k as int]);
        }
    }
    k
}

/// Lists the places where a bare name is searched for. The first that is an executable
/// file is taken.
pub fn path_candidates(search: &[u8], name: &[u8]) -> (r: Vec<Vec<u8>>)
    ensures
        byte_strings(r@) == candidates(search@, name@),
{
    let mut r: Vec<Vec<u8>> = Vec::new();
    let mut start: usize = 0;
    let mut more = true;
    let ghost all = candidates(search@, name@);
    proof {
        assert(search@.skip(0) =~= search@);
        assert(byte_strings(r@) + all =~= all);
    }
    while more
        invariant
            start <= search@.len(),
            all == candidates(search@, name@),
            more ==> byte_strings(r@) + candidates(search@.skip(start as int), name@) == all,
            !more ==> byte_strings(r@) == all,
        decreases search@.len() - start + if more {
            1int
        } else {
            0int
        },
    {
        let end = find_colon(search, start);
        let ghost rest = search@.skip(start as int);
        let ghost before = byte_strings(r@);
        let dir = paths::copy_range(search, start, end);
        proof {
            lemma_first_colon(rest);
            assert(dir@ =~= rest.take(end - start));
        }
        let ghost here = if dir@.len() == 0 {
            Seq::<Seq<u8>>::empty()
        } else {
            seq![paths::joined(dir@, name@)]
        };
        if dir.len() > 0 {
            r.push(paths::join(&dir, name));
        }
        assert(byte_strings(r@) =~= before + here);
        if end < search.len() {
            proof {
                let next = search@.skip(end + 1);
                assert(rest.skip(end - start + 1) =~= next);
                assert(before + (here + candidates(next, name@)) =~= (before + here) + candidates(
                    next,
                    name@,
                ));
            }
            start = end + 1;
        } else {
            more = false;
        }
    }
    r
}

/// The bits of a mode that allow execution.
pub const EXECUTE_BITS: u32 = 0o111;

/// Whether a file can be executed: a regular file that somebody may execute.
pub fn is_executable_file(is_file: bool, mode: u32) -> (r: bool)
    ensures
        r == (is_file && mode & EXECUTE_BITS != 0),
        r == (is_file && (mode & 0o100 != 0 || mode & 0o010 != 0 || mode & 0o001 != 0)),
{
    assert(mode & 0o111u32 != 0 <==> (mode & 0o100u32 != 0 || mode & 0o010u32 != 0 || mode & 0o001u32
        != 0)) by (bit_vector);
    is_file && mode & EXECUTE_BITS != 0
}

/// The directory of a profile: what its `env_file` paths start from.
pub open spec fn dir_of_profile(path: Seq<u8>) -> Seq<u8> {
    match paths::parent_of(path) {
        Some(dir) => dir,
        None => seq![paths::DOT],
    }
}

/// The directory of a profile.
pub fn profile_dir(profile_path: &[u8]) -> (r: Vec<u8>)
    ensures
        r@ == dir_of_profile(profile_path@),
        match paths::parent_of(profile_path@) {
            Some(dir) => r@ == dir,
            None => r@ == seq![46u8],
        },
{
    match paths::parent(profile_path) {
        Some(dir) => dir,
        None => {
            let mut v: Vec<u8> = Vec::new();
            v.push(paths::DOT);
            assert(v@ =~= seq![paths::DOT]);
            v
        },
    }
}

/// Under which client the processes of all stacks run.
pub fn launch_client_id() -> (r: String)
    ensures
        r@ == "launch-orchestrator"@,
{
    "launch-orchestrator".to_owned()
}

// ---- Changes of a service ----------------------------------------------------

/// Whether a change of a service makes it start anew: its command, its arguments, its
/// environment or its directory is another.
pub open spec fn respawns(old: ServiceView, new: ServiceView) -> bool {
    old.command != new.command || old.args != new.args || old.env != new.env || old.cwd != new.cwd
}

/// Whether two optional strings are the same.
fn same_opt(a: &Option<String>, b: &Option<String>) -> (r: bool)
    ensures
        r == (opt_text(*a) == opt_text(*b)),
        match (a, b) {
            (Some(x), Some(y)) => r == (x@ == y@),
            (None, None) => r,
            _ => !r,
        },
{
    match (a, b) {
        (Some(x), Some(y)) => text::same_text(x.as_str(), y.as_str()),
        (None, None) => true,
        _ => false,
    }
}

/// Whether a change of a service makes it start anew.
pub fn spawn_fields_differ(old: &LaunchService, new: &LaunchService) -> (r: bool)
    requires
        old.env.wf(),
        new.env.wf(),
    ensures
        r == respawns(old@, new@),
        old.command@ != new.command@ ==> r,
        texts(old.args@) != texts(new.args@) ==> r,
        env_view(old.env) != env_view(new.env) ==> r,
        old.env.names() != new.env.names() ==> r,
        texts(old.env.vals()) != texts(new.env.vals()) ==> r,
        old.cwd is Some != new.cwd is Some ==> r,
        (old.cwd matches Some(a) && new.cwd matches Some(b) && a@ != b@) ==> r,
        opt_text(old.cwd) != opt_text(new.cwd) ==> r,
        old.command@ == new.command@ && texts(old.args@) == texts(new.args@) && env_view(old.env)
            == env_view(new.env) && opt_text(old.cwd) == opt_text(new.cwd) ==> !r,
{
    !same_command(&old.command, &new.command) || !same_texts(&old.args, &new.args) || !same_env(
        &old.env,
        &new.env,
    ) || !same_opt(&old.cwd, &new.cwd)
}

/// Whether only what a service depends on has changed, of what matters here.
pub open spec fn rewired(old: ServiceView, new: ServiceView) -> bool {
    !respawns(old, new) && old.depends_on != new.depends_on
}

/// Whether only what a service depends on has changed, of what matters here.
pub fn edges_only_differ(old: &LaunchService, new: &LaunchService) -> (r: bool)
    requires
        old.env.wf(),
        new.env.wf(),
    ensures
        r == rewired(old@, new@),
        r ==> texts(old.depends_on@) != texts(new.depends_on@),
        r ==> old.command@ == new.command@ && texts(old.args@) == texts(new.args@) && env_view(
            old.env,
        ) == env_view(new.env) && opt_text(old.cwd) == opt_text(new.cwd),
{
    !spawn_fields_differ(old, new) && !same_texts(&old.depends_on, &new.depends_on)
}

/// A change of a service is at most one of the two: it starts anew, or it is only wired
/// differently.
pub proof fn changes_exclude_each_other(old: ServiceView, new: ServiceView)
    ensures
        !(respawns(old, new) && rewired(old, new)),
        old == new ==> !respawns(old, new) && !rewired(old, new),
{
}

/// A service whose command is another starts anew, whatever else has changed.
pub proof fn a_new_command_starts_anew(old: ServiceView, new: ServiceView)
    requires
        old.command != new.command,
    ensures
        respawns(old, new),
        !rewired(old, new),
{
}

/// A service whose arguments are others starts anew, whatever else has changed.
pub proof fn new_arguments_start_anew(old: ServiceView, new: ServiceView)
    requires
        old.args != new.args,
    ensures
        respawns(old, new),
        !rewired(old, new),
{
}

/// A service whose environment is another starts anew, whatever else has changed.
pub proof fn a_new_environment_starts_anew(old: ServiceView, new: ServiceView)
    requires
        old.env != new.env,
    ensures
        respawns(old, new),
        !rewired(old, new),
{
}

/// A service whose working directory is another starts anew, whatever else has changed.
pub proof fn a_new_directory_starts_anew(old: ServiceView, new: ServiceView)
    requires
        old.cwd != new.cwd,
    ensures
        respawns(old, new),
        !rewired(old, new),
{
}

/// A service that is started as before goes on: where its command, arguments,
/// environment and directory are the same, it does not start anew, however it is
/// watched, restarted, redacted or wired; it is wired differently just where it depends
/// on other services than before.
pub proof fn other_changes_let_a_service_run(old: ServiceView, new: ServiceView)
    requires
        old.command == new.command,
        old.args == new.args,
        old.env == new.env,
        old.cwd == new.cwd,
    ensures
        !respawns(old, new),
        rewired(old, new) <==> old.depends_on != new.depends_on,
{
}

/// A change works the same in both directions.
pub proof fn changes_are_symmetric(a: ServiceView, b: ServiceView)
    ensures
        respawns(a, b) == respawns(b, a),
        rewired(a, b) == rewired(b, a),
{
}

// ---- What holds of requests --------------------------------------------------

/// A service that names a working directory is started in it, whatever the default is;
/// one that names none is started in the default.
pub proof fn services_start_in_their_directory(
    name: Seq<char>,
    s: ServiceView,
    default_cwd: Seq<u8>,
    other: Seq<u8>,
)
    ensures
        requested(name, s, default_cwd) matches Ok(q) ==> match s.cwd {
            Some(dir) => q.cwd == encode_utf8(dir) && requested(name, s, other) == requested(
                name,
                s,
                default_cwd,
            ),
            None => q.cwd == default_cwd,
        },
        requested(name, s, default_cwd) is Ok == requested(name, s, other) is Ok,
{
}

/// A service is started with the words of its command, then its own arguments: together
/// they are the program and the arguments of the request.
pub proof fn services_start_with_their_words(
    name: Seq<char>,
    s: ServiceView,
    argv: Seq<Seq<char>>,
    default_cwd: Seq<u8>,
)
    requires
        s.command == CommandView::Argv(argv),
    ensures
        requested(name, s, default_cwd) is Ok <==> argv.len() > 0,
        requested(name, s, default_cwd) matches Ok(q) ==> {
            &&& seq![q.binary_path] + q.args.map_values(|w: Seq<char>| encode_utf8(w)) == (argv
                + s.args).map_values(|w: Seq<char>| encode_utf8(w))
            &&& seq![argv[0]] + q.args == argv + s.args
        },
{
    if argv.len() > 0 {
        let q = requested(name, s, default_cwd)->Ok_0;
        assert(seq![argv[0]] + q.args =~= argv + s.args);
        assert(seq![q.binary_path] + q.args.map_values(|w: Seq<char>| encode_utf8(w)) =~= (argv
            + s.args).map_values(|w: Seq<char>| encode_utf8(w)));
    }
}

/// A request carries the service's name, environment, restart policy and probe as they
/// are declared. It is agreed to, reads nothing, keeps its output in memory, and has
/// neither a time limit nor a key of its own.
pub proof fn requests_carry_what_is_declared(
    name: Seq<char>,
    s: ServiceView,
    default_cwd: Seq<u8>,
)
    ensures
        requested(name, s, default_cwd) matches Ok(q) ==> {
            &&& q.name == Some(name)
            &&& q.env_override == s.env
            &&& q.env_allowlist.len() == 0
            &&& q.restart_policy == s.restart_policy
            &&& q.health_probe == s.health_probe
            &&& q.elicitation_confirmed
            &&& q.stdin_kind == StdinKind::Closed
            &&& q.capture_kind == CaptureKind::InMemory
            &&& q.timeout_secs is None && q.idempotency_key is None
            &&& q.log_rotation is None && q.parent_death_signal is None
        },
{
}

/// A command for a shell is never run.
pub proof fn shell_commands_are_refused(name: Seq<char>, s: ServiceView, default_cwd: Seq<u8>)
    requires
        s.command is Shell,
    ensures
        requested(name, s, default_cwd) is Err,
{
}

/// Revisions of a service that do not start anew are started by the same request, save
/// for how it is watched and restarted.
pub proof fn unchanged_services_are_started_alike(
    name: Seq<char>,
    old: ServiceView,
    new: ServiceView,
    default_cwd: Seq<u8>,
)
    requires
        !respawns(old, new),
    ensures
        requested(name, old, default_cwd) is Ok == requested(name, new, default_cwd) is Ok,
        requested(name, old, default_cwd) matches Ok(a) ==> requested(name, new, default_cwd)
            matches Ok(b) && a == (RequestView {
            restart_policy: a.restart_policy,
            health_probe: a.health_probe,
            ..b
        }),
{
}

// ---- What holds of readiness -------------------------------------------------

/// A longer grace, or a longer time for a log probe, lengthens the wait by as much, and
/// nothing else of a probe does; a service without a probe and one with the empty probe
/// wait alike, and shorter than any probe for a port or an address.
pub proof fn waits_grow_with_the_grace(
    host: String,
    other: String,
    port: u16,
    interval: u64,
    a: u64,
    b: u64,
)
    ensures
        budget(None) == budget(Some(HealthProbe::NoProbe)),
        budget(
            Some(
                HealthProbe::PortOpen { host, port, interval_ms: interval, startup_grace_ms: a },
            ),
        ) - a == budget(
            Some(HealthProbe::HttpGet { url: other, interval_ms: b, startup_grace_ms: b }),
        ) - b,
        budget(
            Some(
                HealthProbe::PortOpen { host, port, interval_ms: interval, startup_grace_ms: a },
            ),
        ) > budget(None) + a,
        budget(Some(HealthProbe::LogPattern { regex: host, timeout_ms: a })) - a == budget(
            Some(HealthProbe::LogPattern { regex: other, timeout_ms: b }),
        ) - b,
        budget(Some(HealthProbe::LogPattern { regex: host, timeout_ms: a })) > a,
        budget(None) == 10_000,
        budget(
            Some(
                HealthProbe::PortOpen { host, port, interval_ms: interval, startup_grace_ms: 0 },
            ),
        ) == 180_000,
        budget(Some(HealthProbe::LogPattern { regex: host, timeout_ms: 0 })) == 200,
{
}

/// What is recorded of a service reads back as its outcome.
pub proof fn recorded_outcomes_read_back(outcome: ServiceOutcome)
    ensures
        verdict_of(recorded(outcome)) == Some(outcome),
        recorded(outcome) == SubprocessState::Ready <==> outcome == ServiceOutcome::Ready,
        recorded(outcome) == SubprocessState::Failed <==> outcome == ServiceOutcome::Failed,
{
}

/// A process that is still to come up settles nothing. One that runs or ended well is
/// ready, and every other has failed.
pub proof fn states_settle_readiness(state: SubprocessState)
    ensures
        verdict_of(state) is None <==> state is Pending || state is Starting || state is Restarting,
        verdict_of(state) == Some(ServiceOutcome::Ready) <==> state is Ready || state is Running
            || state is Succeeded,
        verdict_of(state) == Some(ServiceOutcome::Failed) <==> state is Failed || state is Cancelled
            || state is Killed || state is TimedOut,
{
}

/// A job has the state that it is listed with, be it listed last or among others; one
/// that is not listed has none. Where it is listed twice, the first entry counts.
pub proof fn jobs_have_their_listed_state(list: Seq<ProcessInfo>, job_id: u128)
    ensures
        listed_state(list, job_id) is None <==> forall|i: int|
            0 <= i < list.len() ==> (#[trigger] list[i]).job_id != job_id,
        forall|i: int|
            0 <= i < list.len() && (#[trigger] list[i]).job_id == job_id && (forall|j: int|
                0 <= j < i ==> (#[trigger] list[j]).job_id != job_id) ==> listed_state(list, job_id)
                == Some(list[i].state),
    decreases list.len(),
{
    if list.len() > 0 && list[0].job_id != job_id {
        let rest = list.drop_first();
        jobs_have_their_listed_state(rest, job_id);
        lemma_first_listed(rest, job_id);
        if listed_state(rest, job_id) is None {
            assert forall|i: int| 0 <= i < list.len() implies (#[trigger] list[i]).job_id
                != job_id by {
                if i > 0 {
                    assert(list[i] == rest[i - 1]);
                }
            }
        } else {
            let f = first_listed(rest, job_id);
            assert(rest[f] == list[f + 1]);
        }
        assert forall|i: int|
            0 <= i < list.len() && (#[trigger] list[i]).job_id == job_id && (forall|j: int|
                0 <= j < i ==> (#[trigger] list[j]).job_id != job_id) implies listed_state(
            list,
            job_id,
        ) == Some(list[i].state) by {
            assert(rest[i - 1] == list[i]);
            assert forall|j: int| 0 <= j < i - 1 implies (#[trigger] rest[j]).job_id != job_id by {
                assert(rest[j] == list[j + 1]);
            }
        }
    } else if list.len() > 0 {
        assert(list[0].job_id == job_id);
    }
}

proof fn lemma_first_listed(list: Seq<ProcessInfo>, job_id: u128)
    ensures
        0 <= first_listed(list, job_id) <= list.len(),
        first_listed(list, job_id) < list.len() ==> list[first_listed(list, job_id)].job_id
            == job_id,
    decreases list.len(),
{
    if list.len() > 0 && list[0].job_id != job_id {
        lemma_first_listed(list.drop_first(), job_id);
    }
}

} // verus!
