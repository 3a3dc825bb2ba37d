//! A supervisor process: it brings a stack up, watches it, and takes it down when it is
//! told to or when no client has asked for the stack for too long.
use crate::errors::{LaunchError, LaunchErrorView};
use crate::ids::{crockford_id, crockford_text, StackId};
use crate::launch::control_fifo::ControlFrame;
use crate::launch::dag::{cyclic, listed};
use crate::launch::names::{texts, NameMap};
use crate::launch::pid_probe::PidStat;
use crate::launch::profile::{
    env_view, opt_text, CommandView, DisconnectPolicy, LaunchProfile, ProfileView,
};
use crate::launch::reload::{
    added_set, diff_profiles, jobs_of, joined_names, only, reports, restart_set, reverse_order_for,
    teardown_names, teardown_order, ReloadDiff, ReloadReport,
};
use crate::launch::stack::{StackChild, SupervisorRegistry};
use crate::launch::supervisor::{
    build_request, find_state, jobs_have_their_listed_state, listed_state, outcome_state, recorded,
    requested, requests_carry_what_is_declared, services_start_in_their_directory,
    services_start_with_their_words, verdict_of, ProcessInfo, RequestView, ServiceOutcome,
    SubprocessRequest, SubprocessState,
};
use crate::paths;
use crate::text;
use vstd::prelude::*;
use vstd::utf8::encode_utf8;

verus! {

/// The signal that a process gets when its supervisor dies: one that cannot be caught.
pub const PARENT_DEATH_SIGKILL: i32 = 9;

/// The name of the supervisor's log in the directory of its stack.
pub const SUPERVISOR_LOG_FILE: &'static str = "supervisor.log";

/// How often the processes are looked at, in milliseconds.
pub const CHILD_POLL_INTERVAL_MS: u64 = 500;

/// How often it is checked whether clients still ask for the stack.
pub const TTL_TICK_INTERVAL_MS: u64 = 1_000;

/// How often the processes of other stacks are swept.
pub const RECONCILE_SWEEP_INTERVAL_MS: u64 = 5_000;

// ---- Arguments -----------------------------------------------------------------

/// What a supervisor process is started with.
#[derive(Debug)]
pub struct SuperviseArgs {
    pub stack_id: StackId,
    pub profile_path: String,
}

/// Where a word is first among arguments; their number where it is not.
pub open spec fn first_text(args: Seq<Seq<char>>, word: Seq<char>) -> int
    decreases args.len(),
{
    if args.len() == 0 || args[0] == word {
        0
    } else {
        1 + first_text(args.drop_first(), word)
    }
}

/// What follows a word among arguments.
pub open spec fn value_after(args: Seq<Seq<char>>, word: Seq<char>) -> Option<Seq<char>> {
    let i = first_text(args, word);
    if 0 <= i && i + 1 < args.len() {
        Some(args[i + 1])
    } else {
        None
    }
}

/// Where a word is first among arguments.
fn find_text(args: &Vec<String>, word: &str) -> (r: usize)
    ensures
        r <= args@.len(),
        r == first_text(texts(args@), word@),
{
    let ghost all = texts(args@);
    let mut i: usize = 0;
    assert(all.skip(0) =~= all);
    while i < args.len() && !text::same_text(args[i].as_str(), word)
        invariant
            all == texts(args@),
            i <= args@.len(),
            first_text(all, word@) == i + first_text(all.skip(i as int), word@),
        decreases args@.len() - i,
    {
        assert(all.skip(i as int).drop_first() =~= all.skip(i + 1));
        i = i + 1;
    }
    i
}

/// What follows a word among arguments.
pub fn flag_value<'a>(args: &'a Vec<String>, flag: &str) -> (r: Option<&'a String>)
    ensures
        match r {
            Some(s) => value_after(texts(args@), flag@) == Some(s@),
            None => value_after(texts(args@), flag@) is None,
        },
{
    let i = find_text(args, flag);
    if i < args.len() && i + 1 < args.len() {
        Some(&args[i + 1])
    } else {
        None
    }
}

/// What wrong arguments are answered with.
pub open spec fn bad_args(args: Seq<Seq<char>>) -> Option<Seq<char>> {
    let i = first_text(args, "--supervise"@);
    if i >= args.len() {
        None
    } else if i + 1 >= args.len() {
        Some("--supervise requires a <stack_id> argument"@)
    } else if crockford_id(args[i + 1]) is None {
        Some(
            "invalid --supervise stack_id '"@ + args[i + 1]
                + "': not a valid 26-character Crockford base32 string"@,
        )
    } else if value_after(args, "--profile"@) is None {
        Some("--supervise requires a --profile <path> argument"@)
    } else {
        None
    }
}

/// Reads the arguments of a supervisor process. Without the flag the process is none.
pub fn parse_supervise_args(args: &Vec<String>) -> (r: Result<Option<SuperviseArgs>, LaunchError>)
    ensures
        ({
            let all = texts(args@);
            let i = first_text(all, "--supervise"@);
            &&& r is Err <==> bad_args(all) is Some
            &&& r matches Err(e) ==> e@ == (LaunchErrorView::InvalidProfile {
                msg: bad_args(all)->0,
            })
            &&& r matches Ok(found) ==> (found is Some <==> i < all.len())
            &&& r matches Ok(Some(a)) ==> {
                &&& crockford_id(all[i + 1]) == Some(a.stack_id.raw)
                &&& value_after(all, "--profile"@) == Some(a.profile_path@)
            }
        }),
        ({
            let all = texts(args@);
            let i = first_text(all, "--supervise"@);
            let p = first_text(all, "--profile"@);
            if i >= all.len() {
                r matches Ok(None)
            } else if i + 1 >= all.len() {
                r matches Err(e) && e@ == (LaunchErrorView::InvalidProfile {
                    msg: "--supervise requires a <stack_id> argument"@,
                })
            } else if crockford_id(all[i + 1]) is None {
                r matches Err(e) && e@ == (LaunchErrorView::InvalidProfile {
                    msg: "invalid --supervise stack_id '"@ + all[i + 1]
                        + "': not a valid 26-character Crockford base32 string"@,
                })
            } else if p + 1 >= all.len() {
                r matches Err(e) && e@ == (LaunchErrorView::InvalidProfile {
                    msg: "--supervise requires a --profile <path> argument"@,
                })
            } else {
                &&& r matches Ok(Some(a))
                &&& crockford_id(all[i + 1]) == Some(a.stack_id.raw)
                &&& a.profile_path@ == all[p + 1]
            }
        }),
{
    let ghost all = texts(args@);
    let i = find_text(args, "--supervise");
    if i >= args.len() {
        return Ok(None);
    }
    if i + 1 >= args.len() {
        return Err(
            LaunchError::InvalidProfile {
                msg: "--supervise requires a <stack_id> argument".to_owned(),
            },
        );
    }
    let raw = args[i + 1].as_str();
    assert(all[i + 1] == raw@);
    let stack_id = match StackId::parse(raw) {
        Some(id) => id,
        None => {
            return Err(
                LaunchError::InvalidProfile {
                    msg: text::cat3(
                        "invalid --supervise stack_id '",
                        raw,
                        "': not a valid 26-character Crockford base32 string",
                    ),
                },
            );
        },
    };
    proof {
        lemma_first_text(all, "--profile"@);
    }
    match flag_value(args, "--profile") {
        Some(path) => Ok(Some(SuperviseArgs { stack_id, profile_path: path.clone() })),
        None => Err(
            LaunchError::InvalidProfile {
                msg: "--supervise requires a --profile <path> argument".to_owned(),
            },
        ),
    }
}

// ---- State ---------------------------------------------------------------------

/// A process that the supervisor watches.
#[derive(Clone, Copy, Debug, PartialEq, Eq, Structural)]
pub struct ChildRecord {
    pub job_id: u128,
    pub pid: i32,
    pub pgid: i32,
    pub start_epoch: u64,
    pub state: SubprocessState,
}

/// What a supervisor process knows.
#[derive(Debug)]
pub struct DetachedSupervisor {
    pub stack_id: StackId,
    pub profile_path: Vec<u8>,
    pub default_cwd: Vec<u8>,
    pub profile: LaunchProfile,
    pub config_hash: String,
    pub policy: DisconnectPolicy,
    pub children: NameMap<ChildRecord>,
    pub supervisor_pid: i32,
    pub start_epoch: u64,
    /// When a client last asked for the stack.
    pub last_activity_epoch: u64,
}

/// What contracts say of a [`DetachedSupervisor`].
#[verifier::ext_equal]
pub struct DetachedView {
    pub stack_id: StackId,
    pub profile_path: Seq<u8>,
    pub default_cwd: Seq<u8>,
    pub profile: ProfileView,
    pub config_hash: Seq<char>,
    pub policy: DisconnectPolicy,
    pub children: Map<Seq<char>, ChildRecord>,
    pub supervisor_pid: i32,
    pub start_epoch: u64,
    pub last_activity_epoch: u64,
}

impl View for DetachedSupervisor {
    type V = DetachedView;

    open spec fn view(&self) -> DetachedView {
        DetachedView {
            stack_id: self.stack_id,
            profile_path: self.profile_path@,
            default_cwd: self.default_cwd@,
            profile: self.profile@,
            config_hash: self.config_hash@,
            policy: self.policy,
            children: self.children@,
            supervisor_pid: self.supervisor_pid,
            start_epoch: self.start_epoch,
            last_activity_epoch: self.last_activity_epoch,
        }
    }
}

/// What is said of a supervisor is what its fields hold.
pub proof fn watchers_are_seen_as_they_are(d: DetachedSupervisor)
    ensures
        d@.stack_id == d.stack_id,
        d@.profile_path == d.profile_path@,
        d@.default_cwd == d.default_cwd@,
        d@.profile == d.profile@,
        d@.config_hash == d.config_hash@,
        d@.policy == d.policy,
        d@.children == d.children@,
        d@.supervisor_pid == d.supervisor_pid,
        d@.start_epoch == d.start_epoch,
        d@.last_activity_epoch == d.last_activity_epoch,
{
}

/// Where the services of a stack run by default: beside the profile, or in the directory
/// of the stack.
pub open spec fn cwd_beside(profile_path: Seq<u8>, stack_dir: Seq<u8>) -> Seq<u8> {
    match paths::parent_of(profile_path) {
        Some(dir) => if dir.len() > 0 {
            dir
        } else {
            stack_dir
        },
        None => stack_dir,
    }
}

/// When a process started: as the system says, or now where it says nothing.
pub fn start_or_now(probe: Option<PidStat>, now: u64) -> (r: u64)
    ensures
        r == (match probe {
            Some(stat) => stat.start_time,
            None => now,
        }),
{
    match probe {
        Some(stat) => stat.start_time,
        None => now,
    }
}

/// The request that starts a service of a supervised stack: with it the service dies when
/// the supervisor dies.
pub open spec fn bound_request(q: RequestView) -> RequestView {
    RequestView { parent_death_signal: Some(PARENT_DEATH_SIGKILL), ..q }
}

/// The request that starts a service of a profile; none where the profile does not have
/// the service.
pub fn service_request(profile: &LaunchProfile, name: &str, default_cwd: &[u8]) -> (r: Option<
    Result<SubprocessRequest, LaunchError>,
>)
    requires
        profile.wf(),
    ensures
        r is Some <==> profile@.names.contains(name@),
        r matches Some(answer) ==> ({
            let p = profile@;
            let s = p.services[crate::launch::names::place(p.names, name@)];
            match requested(name@, s, default_cwd@) {
                Ok(q) => answer matches Ok(x) && x@ == bound_request(q) && x.env_override.wf(),
                Err(e) => answer matches Err(x) && x@ == e,
            }
        }),
        r matches Some(Ok(x)) ==> forall|i: int|
            0 <= i < profile@.names.len() && #[trigger] profile@.names[i] == name@ ==> {
                let s = profile@.services[i];
                &&& s.command matches CommandView::Argv(argv) && argv.len() > 0
                    && x.binary_path@ == encode_utf8(argv[0]) && seq![argv[0]] + texts(x.args@)
                    == argv + s.args
                &&& env_view(x.env_override) == s.env
                &&& x.cwd@ == match s.cwd {
                    Some(dir) => encode_utf8(dir),
                    None => default_cwd@,
                }
                &&& opt_text(x.name) == Some(name@)
                &&& x.restart_policy == s.restart_policy
                &&& x.health_probe == s.health_probe
                &&& x.elicitation_confirmed
                &&& x.parent_death_signal == Some(9i32)
            },
{
    let ghost p = profile@;
    match profile.services.find(name) {
        Some(k) => {
            let service = profile.services.val_at(k);
            proof {
                assert(p.names[k as int] == name@);
                assert(p.names.contains(name@));
                let q = crate::launch::names::place(p.names, name@);
                assert(exists|j: int| 0 <= j < p.names.len() && p.names[j] == name@);
                crate::launch::names::places_are_unique(p.names, q, k as int);
                assert(p.services[q] == service@);
            }
            match build_request(name, service, default_cwd) {
                Ok(q) => {
                    let mut request = q;
                    let ghost before = request@;
                    request.parent_death_signal = Some(PARENT_DEATH_SIGKILL);
                    assert(request@ =~= bound_request(before));
                    proof {
                        let s = service@;
                        let argv = s.command->Argv_0;
                        services_start_with_their_words(name@, s, argv, default_cwd@);
                        services_start_in_their_directory(name@, s, default_cwd@, default_cwd@);
                        requests_carry_what_is_declared(name@, s, default_cwd@);
                        assert forall|i: int|
                            0 <= i < p.names.len() && #[trigger] p.names[i] == name@ implies p.services[i]
                            == s by {
                            crate::launch::names::places_are_unique(p.names, i, k as int);
                        }
                    }
                    Some(Ok(request))
                },
                Err(e) => Some(Err(e)),
            }
        },
        None => None,
    }
}

/// The jobs of the processes that a supervisor watches.
pub open spec fn child_jobs(children: Map<Seq<char>, ChildRecord>) -> Map<Seq<char>, u128> {
    children.map_values(|c: ChildRecord| c.job_id)
}

/// The jobs of a list of services; a service without one is passed over.
fn collect_child_jobs(names: &Vec<String>, children: &NameMap<ChildRecord>) -> (r: Vec<u128>)
    requires
        children.wf(),
    ensures
        r@ == jobs_of(texts(names@), child_jobs(children@)),
{
    let ghost v = texts(names@);
    let ghost jobs = child_jobs(children@);
    let mut r: Vec<u128> = Vec::new();
    let mut i: usize = 0;
    assert(r@ =~= jobs_of(v.take(0), jobs));
    while i < names.len()
        invariant
            children.wf(),
            v == texts(names@),
            jobs == child_jobs(children@),
            i <= names@.len(),
            r@ == jobs_of(v.take(i as int), jobs),
        decreases names@.len() - i,
    {
        proof {
            assert(v.take(i + 1).drop_last() =~= v.take(i as int));
            assert(v.take(i + 1).last() == names@[i as int]@);
        }
        match children.get(names[i].as_str()) {
            Some(c) => {
                r.push(c.job_id);
            },
            None => {},
        }
        i = i + 1;
    }
    assert(v.take(i as int) =~= v);
    r
}

/// What a supervisor does about a command.
#[derive(Debug)]
pub enum ControlStep {
    /// It takes the stack down and ends.
    Exit,
    /// It reloads the stack, from another profile or its own.
    Reload(Option<String>),
    /// No command will come any more.
    Closed,
}

/// Whether no client has asked for the stack for too long: only a stack that outlives its
/// clients, and that has a limit, can be left alone that long.
pub open spec fn expired(s: DetachedView, now: u64) -> bool {
    &&& s.profile.orphan_ttl_secs != 0
    &&& s.policy == DisconnectPolicy::Detach
    &&& now - s.last_activity_epoch >= s.profile.orphan_ttl_secs
}

/// Whether a process in this state has ended.
pub open spec fn exited(state: SubprocessState) -> bool {
    ||| state is Failed
    ||| state is Cancelled
    ||| state is Killed
    ||| state is TimedOut
    ||| state is Succeeded
}

/// Whether a process in this state has ended.
pub fn is_exit_state(state: SubprocessState) -> (r: bool)
    ensures
        r == exited(state),
        r <==> state is Failed || state is Cancelled || state is Killed || state is TimedOut
            || state is Succeeded,
{
    match state {
        SubprocessState::Failed => true,
        SubprocessState::Cancelled => true,
        SubprocessState::Killed => true,
        SubprocessState::TimedOut => true,
        SubprocessState::Succeeded => true,
        _ => false,
    }
}

/// A process as the list of processes shows it; one that is not listed stays as it was.
pub open spec fn polled(c: ChildRecord, list: Seq<ProcessInfo>) -> ChildRecord {
    match listed_state(list, c.job_id) {
        Some(state) => ChildRecord { state, ..c },
        None => c,
    }
}

/// Takes the state of a process from the list of processes.
fn diff_child(c: ChildRecord, list: &Vec<ProcessInfo>) -> (r: ChildRecord)
    ensures
        r == polled(c, list@),
        r == (ChildRecord { state: r.state, ..c }),
        match listed_state(list@, c.job_id) {
            Some(state) => r.state == state,
            None => r.state == c.state,
        },
{
    match find_state(list, c.job_id) {
        Some(state) => ChildRecord {
            job_id: c.job_id,
            pid: c.pid,
            pgid: c.pgid,
            start_epoch: c.start_epoch,
            state,
        },
        None => c,
    }
}

impl DetachedSupervisor {
    /// The profile and the list of processes are well formed.
    pub open spec fn wf(&self) -> bool {
        &&& self.profile.wf()
        &&& self.children.wf()
    }

    /// A supervisor of a stack that is not brought up yet.
    pub fn assemble(
        args: SuperviseArgs,
        stack_dir: &[u8],
        profile: LaunchProfile,
        config_hash: String,
        pid: u32,
        now: u64,
    ) -> (r: DetachedSupervisor)
        requires
            profile.wf(),
        ensures
            r.wf(),
            r@ == (DetachedView {
                stack_id: args.stack_id,
                profile_path: encode_utf8(args.profile_path@),
                default_cwd: cwd_beside(
                    encode_utf8(args.profile_path@),
                    stack_dir@,
                ),
                profile: profile@,
                config_hash: config_hash@,
                policy: DisconnectPolicy::Detach,
                children: Map::empty(),
                supervisor_pid: if pid <= i32::MAX {
                    pid as i32
                } else {
                    i32::MAX
                },
                start_epoch: now,
                last_activity_epoch: now,
            }),
            r@.default_cwd == match paths::parent_of(encode_utf8(args.profile_path@)) {
                Some(dir) => if dir.len() > 0 {
                    dir
                } else {
                    stack_dir@
                },
                None => stack_dir@,
            },
    {
        let profile_path = vstd::slice::slice_to_vec(args.profile_path.as_str().as_bytes());
        let beside = match paths::parent(&profile_path) {
            Some(dir) => dir,
            None => Vec::new(),
        };
        let default_cwd = if beside.len() > 0 {
            beside
        } else {
            vstd::slice::slice_to_vec(stack_dir)
        };
        let supervisor_pid: i32 = if pid <= i32::MAX as u32 {
            pid as i32
        } else {
            i32::MAX
        };
        DetachedSupervisor {
            stack_id: args.stack_id,
            profile_path,
            default_cwd,
            profile,
            config_hash,
            policy: DisconnectPolicy::Detach,
            children: NameMap::new(),
            supervisor_pid,
            start_epoch: now,
            last_activity_epoch: now,
        }
    }

    /// Records a process that was started.
    pub fn record_child(
        &mut self,
        name: &str,
        job_id: u128,
        pid: i32,
        pgid: i32,
        start_epoch: u64,
        outcome: ServiceOutcome,
    )
        requires
            old(self).wf(),
        ensures
            final(self).wf(),
            final(self)@ == (DetachedView {
                children: old(self)@.children.insert(
                    name@,
                    ChildRecord { job_id, pid, pgid, start_epoch, state: recorded(outcome) },
                ),
                ..old(self)@
            }),
            final(self)@.children[name@].state == (if outcome == ServiceOutcome::Ready {
                SubprocessState::Ready
            } else {
                SubprocessState::Failed
            }),
    {
        let state = outcome_state(outcome);
        self.children.insert(
            name.to_owned(),
            ChildRecord { job_id, pid, pgid, start_epoch, state },
        );
    }

    /// Takes a command; none where no command will come any more. Every command shows that
    /// a client asks for the stack.
    pub fn handle_control(&mut self, frame: Option<ControlFrame>, now: u64) -> (r: ControlStep)
        ensures
            final(self)@ == (match frame {
                Some(_) => DetachedView { last_activity_epoch: now, ..old(self)@ },
                None => old(self)@,
            }),
            final(self).wf() == old(self).wf(),
            match frame {
                Some(ControlFrame::Down { .. }) => r is Exit,
                Some(ControlFrame::Reload { profile_path, .. }) => r == ControlStep::Reload(
                    profile_path,
                ),
                None => r is Closed,
            },
    {
        match frame {
            Some(ControlFrame::Down { .. }) => {
                self.last_activity_epoch = now;
                ControlStep::Exit
            },
            Some(ControlFrame::Reload { profile_path, .. }) => {
                self.last_activity_epoch = now;
                ControlStep::Reload(profile_path)
            },
            None => ControlStep::Closed,
        }
    }

    /// The jobs that are stopped when the stack is taken down, in this order.
    pub fn teardown_jobs(&self) -> (r: Vec<u128>)
        requires
            self.wf(),
        ensures
            exists|v: Seq<Seq<char>>| #[trigger]
                teardown_order(self@.profile, v) && r@ == jobs_of(v, child_jobs(self@.children)),
    {
        let names = teardown_names(&self.profile);
        assert(teardown_order(self@.profile, texts(names@)));
        collect_child_jobs(&names, &self.children)
    }

    /// Takes the states of the processes from the list of processes, and tells whether any
    /// of them changed.
    pub fn poll_children(&mut self, list: &Vec<ProcessInfo>) -> (changed: bool)
        requires
            old(self).wf(),
        ensures
            final(self).wf(),
            final(self)@ == (DetachedView {
                children: old(self)@.children.map_values(|c: ChildRecord| polled(c, list@)),
                ..old(self)@
            }),
            changed <==> exists|n: Seq<char>| #[trigger]
                old(self)@.children.contains_key(n) && polled(old(self)@.children[n], list@)
                    != old(self)@.children[n],
            forall|n: Seq<char>| #[trigger]
                final(self)@.children.contains_key(n) <==> old(self)@.children.contains_key(n),
            forall|n: Seq<char>| #[trigger]
                old(self)@.children.contains_key(n) ==> {
                    let c = old(self)@.children[n];
                    final(self)@.children[n] == match listed_state(list@, c.job_id) {
                        Some(state) => ChildRecord { state, ..c },
                        None => c,
                    }
                },
    {
        let ghost names = self.children.names();
        let ghost vals = self.children.vals();
        let ghost before = self.children@;
        let mut next: NameMap<ChildRecord> = NameMap::new();
        let mut changed = false;
        let mut i: usize = 0;
        proof {
            assert(next.names() =~= names.take(0));
            assert(next.vals() =~= Seq::<ChildRecord>::empty());
        }
        while i < self.children.len()
            invariant
                self.wf(),
                next.wf(),
                names == self.children.names(),
                vals == self.children.vals(),
                names.len() == vals.len(),
                i <= names.len(),
                next.names() == names.take(i as int),
                next.vals().len() == i,
                forall|j: int| 0 <= j < i ==> #[trigger] next.vals()[j] == polled(vals[j], list@),
                changed <==> exists|j: int|
                    0 <= j < i && polled(#[trigger] vals[j], list@) != vals[j],
            decreases names.len() - i,
        {
            let record = *self.children.val_at(i);
            let seen = diff_child(record, list);
            if seen.state != record.state {
                changed = true;
                assert(polled(vals[i as int], list@) != vals[i as int]);
            } else {
                assert(polled(vals[i as int], list@) == vals[i as int]);
            }
            let name = self.children.name_at(i).clone();
            next.append(name, seen);
            i = i + 1;
            assert(next.names() =~= names.take(i as int));
        }
        proof {
            assert(next.names() =~= names);
            assert(next@ =~= before.map_values(|c: ChildRecord| polled(c, list@))) by {
                assert forall|n: Seq<char>| names.contains(n) implies 0
                    <= crate::launch::names::place(names, n) < names.len() by {
                    assert(exists|j: int| 0 <= j < names.len() && names[j] == n);
                }
            }
            if changed {
                let j = choose|j: int|
                    0 <= j < names.len() && polled(#[trigger] vals[j], list@) != vals[j];
                crate::launch::names::pairs_are_kept(names, vals, j);
                assert(before.contains_key(names[j]));
            }
            if exists|n: Seq<char>| #[trigger]
                before.contains_key(n) && polled(before[n], list@) != before[n] {
                let n = choose|n: Seq<char>| #[trigger]
                    before.contains_key(n) && polled(before[n], list@) != before[n];
                let j = choose|j: int| 0 <= j < names.len() && names[j] == n;
                crate::launch::names::pairs_are_kept(names, vals, j);
                assert(polled(vals[j], list@) != vals[j]);
            }
        }
        self.children = next;
        changed
    }

    /// Whether the stack is taken down because no client has asked for it for too long, and
    /// what is recorded then.
    pub fn check_orphan_ttl(&self, now: u64) -> (r: Option<LaunchError>)
        ensures
            r is Some <==> expired(self@, now),
            r is Some <==> self@.policy == DisconnectPolicy::Detach && self@.profile.orphan_ttl_secs
                > 0 && now - self@.last_activity_epoch >= self@.profile.orphan_ttl_secs,
            r matches Some(e) ==> e@ == (LaunchErrorView::StackTtlExpired {
                stack_id: crockford_text(self@.stack_id.raw),
            }),
    {
        let ttl = self.profile.orphan_ttl_secs;
        if ttl == 0 || self.policy != DisconnectPolicy::Detach {
            return None;
        }
        let idle: u64 = if now >= self.last_activity_epoch {
            now - self.last_activity_epoch
        } else {
            0
        };
        if idle < ttl as u64 {
            return None;
        }
        Some(LaunchError::StackTtlExpired { stack_id: self.stack_id.to_crockford() })
    }

    /// What the supervisor records of itself and its processes.
    pub fn registry_snapshot(&self) -> (r: SupervisorRegistry)
        requires
            self.wf(),
        ensures
            r.supervisor_pid == self@.supervisor_pid,
            r.start_epoch == self@.start_epoch,
            r.policy == self@.policy,
            r.config_hash@ == self@.config_hash,
            r.children@.len() == self.children.names().len(),
            forall|i: int|
                0 <= i < r.children@.len() ==> ({
                    let c = #[trigger] r.children@[i];
                    let n = self.children.names()[i];
                    &&& c.name@ == n
                    &&& self@.children.contains_key(n)
                    &&& c.pid == self@.children[n].pid
                    &&& c.pgid == self@.children[n].pgid
                    &&& c.start_epoch == self@.children[n].start_epoch
                }),
    {
        let ghost names = self.children.names();
        let ghost vals = self.children.vals();
        let mut children: Vec<StackChild> = Vec::new();
        let mut i: usize = 0;
        while i < self.children.len()
            invariant
                self.wf(),
                names == self.children.names(),
                vals == self.children.vals(),
                i <= names.len(),
                children@.len() == i,
                forall|j: int|
                    0 <= j < i ==> ({
                        let c = #[trigger] children@[j];
                        &&& c.name@ == names[j]
                        &&& self@.children.contains_key(names[j])
                        &&& c.pid == self@.children[names[j]].pid
                        &&& c.pgid == self@.children[names[j]].pgid
                        &&& c.start_epoch == self@.children[names[j]].start_epoch
                    }),
            decreases names.len() - i,
        {
            let record = self.children.val_at(i);
            let name = self.children.name_at(i).clone();
            proof {
                crate::launch::names::pairs_are_kept(names, vals, i as int);
            }
            children.push(
                StackChild {
                    name,
                    pid: record.pid,
                    pgid: record.pgid,
                    start_epoch: record.start_epoch,
                },
            );
            i = i + 1;
        }
        SupervisorRegistry {
            supervisor_pid: self.supervisor_pid,
            start_epoch: self.start_epoch,
            policy: self.policy,
            config_hash: self.config_hash.clone(),
            children,
        }
    }

    /// The path of the profile that the stack is reloaded from: the one that is given, or
    /// its own.
    pub fn reload_path(&self, given: Option<&str>) -> (r: Vec<u8>)
        ensures
            r@ == (match given {
                Some(path) => encode_utf8(path@),
                None => self@.profile_path,
            }),
    {
        match given {
            Some(path) => vstd::slice::slice_to_vec(path.as_bytes()),
            None => {
                let copy = paths::copy_range(&self.profile_path, 0, self.profile_path.len());
                assert(copy@ =~= self.profile_path@);
                copy
            },
        }
    }

    /// Works out what a reload changes. A profile whose dependencies form a cycle is
    /// refused before anything is stopped.
    pub fn plan_reload(&self, new_profile: &LaunchProfile) -> (r: Result<ReloadDiff, LaunchError>)
        requires
            self.wf(),
            new_profile.wf(),
        ensures
            r is Ok <==> !cyclic(new_profile@),
            r matches Err(e) ==> e@ == LaunchErrorView::CycleDetected,
            r matches Ok(diff) ==> {
                let old = self@.profile;
                let new = new_profile@;
                &&& reports(old, new, diff.report)
                &&& listed(
                    new,
                    added_set(old, new).union(restart_set(old, new)),
                    texts(diff.start@),
                )
            },
    {
        match new_profile.topological_order() {
            Err(e) => Err(e),
            Ok(_order) => {
                assert(new_profile@.start_order(crate::launch::profile::places(_order@)));
                Ok(diff_profiles(&self.profile, new_profile))
            },
        }
    }

    /// Gives up the processes that a reload stops: those of services that are gone or start
    /// anew. Their jobs are stopped in this order.
    pub fn reload_stop(&mut self, report: &ReloadReport) -> (r: Vec<u128>)
        requires
            old(self).wf(),
        ensures
            final(self).wf(),
            exists|v: Seq<Seq<char>>| #[trigger]
                teardown_order(old(self)@.profile, v) && ({
                    let stop = only(
                        v,
                        (texts(report.removed@) + texts(report.restarted@)).to_set(),
                    );
                    &&& r@ == jobs_of(stop, child_jobs(old(self)@.children))
                    &&& final(self)@ == (DetachedView {
                        children: old(self)@.children.remove_keys(stop.to_set()),
                        ..old(self)@
                    })
                }),
    {
        let ghost before = self@;
        let ghost m = self.children@;
        let names = joined_names(&report.removed, &report.restarted);
        let order = reverse_order_for(&self.profile, &names);
        let ghost stop = texts(order@);
        let jobs = collect_child_jobs(&order, &self.children);
        let mut i: usize = 0;
        assert(m.remove_keys(stop.take(0).to_set()) =~= m);
        while i < order.len()
            invariant
                self.children.wf(),
                self.profile.wf(),
                stop == texts(order@),
                i <= order@.len(),
                self.children@ == m.remove_keys(stop.take(i as int).to_set()),
                self@ == (DetachedView { children: self.children@, ..before }),
            decreases order@.len() - i,
        {
            let ghost at = self.children@;
            self.children.remove(order[i].as_str());
            proof {
                let key = order@[i as int]@;
                let next = stop.take(i + 1);
                assert(next =~= stop.take(i as int).push(key));
                assert forall|n: Seq<char>| #[trigger]
                    next.to_set().contains(n) <==> stop.take(i as int).to_set().contains(n) || n
                        == key by {
                    if n == key {
                        assert(next[i as int] == n);
                    }
                    if stop.take(i as int).contains(n) {
                        let j = choose|j: int|
                            0 <= j < stop.take(i as int).len() && stop.take(i as int)[j] == n;
                        assert(next[j] == n);
                    }
                }
                assert(at.remove(key) =~= m.remove_keys(next.to_set()));
            }
            i = i + 1;
        }
        assert(stop.take(i as int) =~= stop);
        jobs
    }

    /// Ends a reload: the new profile takes the place of the old.
    pub fn reload_done(
        &mut self,
        new_profile: LaunchProfile,
        profile_path: Vec<u8>,
        config_hash: String,
    )
        requires
            old(self).wf(),
            new_profile.wf(),
        ensures
            final(self).wf(),
            final(self)@ == (DetachedView {
                profile: new_profile@,
                profile_path: profile_path@,
                config_hash: config_hash@,
                ..old(self)@
            }),
    {
        self.profile = new_profile;
        self.profile_path = profile_path;
        self.config_hash = config_hash;
    }
}

// ---- What holds of supervisors -----------------------------------------------------

/// A command keeps the stack up for as long as the profile says.
pub proof fn commands_keep_the_stack_up(s: DetachedView, asked: u64, now: u64)
    requires
        now - asked < s.profile.orphan_ttl_secs,
    ensures
        !expired(DetachedView { last_activity_epoch: asked, ..s }, now),
{
}

/// A stack that is left alone stays so: once the time is over it is over.
pub proof fn expiry_is_final(s: DetachedView, now: u64, later: u64)
    requires
        expired(s, now),
        now <= later,
    ensures
        expired(s, later),
{
}

/// A stack without a limit, or one that ends with its clients, is never left alone.
pub proof fn unlimited_stacks_never_expire(s: DetachedView, now: u64)
    requires
        s.profile.orphan_ttl_secs == 0 || s.policy == DisconnectPolicy::Shutdown,
    ensures
        !expired(s, now),
{
}

proof fn lemma_only(v: Seq<Seq<char>>, keep: Set<Seq<char>>)
    ensures
        forall|n: Seq<char>| #[trigger]
            only(v, keep).contains(n) <==> v.contains(n) && keep.contains(n),
    decreases v.len(),
{
    if v.len() > 0 {
        let front = v.drop_last();
        lemma_only(front, keep);
        let before = only(front, keep);
        let after = only(v, keep);
        assert forall|n: Seq<char>| #[trigger]
            after.contains(n) <==> v.contains(n) && keep.contains(n) by {
            if after.contains(n) {
                let k = choose|k: int| 0 <= k < after.len() && after[k] == n;
                if k < before.len() {
                    assert(before[k] == n);
                    assert(before.contains(n));
                    let j = choose|j: int| 0 <= j < front.len() && front[j] == n;
                    assert(v[j] == n);
                } else {
                    assert(v[v.len() - 1] == n);
                }
            }
            if v.contains(n) && keep.contains(n) {
                let j = choose|j: int| 0 <= j < v.len() && v[j] == n;
                if j < front.len() {
                    assert(front[j] == n);
                    assert(before.contains(n));
                    let k = choose|k: int| 0 <= k < before.len() && before[k] == n;
                    assert(after[k] == n);
                } else {
                    assert(after[after.len() - 1] == n);
                }
            }
        }
    }
}

/// A reload leaves the processes of all services alone that are neither gone nor start
/// anew.
pub proof fn reloads_leave_the_others_alone(
    children: Map<Seq<char>, ChildRecord>,
    order: Seq<Seq<char>>,
    named: Set<Seq<char>>,
    name: Seq<char>,
)
    requires
        !named.contains(name),
    ensures
        children.remove_keys(only(order, named).to_set()).contains_key(name)
            == children.contains_key(name),
        children.contains_key(name) ==> children.remove_keys(only(order, named).to_set())[name]
            == children[name],
{
    lemma_only(order, named);
}

/// The processes of a supervisor are those of its children, each under the child's name.
pub proof fn children_keep_their_processes(children: Map<Seq<char>, ChildRecord>, n: Seq<char>)
    ensures
        child_jobs(children).contains_key(n) <==> children.contains_key(n),
        children.contains_key(n) ==> child_jobs(children)[n] == children[n].job_id,
{
}

/// The value of a flag is the word behind the first place where the flag stands; a flag that is
/// absent, or the last word, has none.
pub proof fn flags_take_the_next_word(
    before: Seq<Seq<char>>,
    word: Seq<char>,
    value: Seq<char>,
    after: Seq<Seq<char>>,
)
    requires
        !before.contains(word),
    ensures
        value_after(before + seq![word, value] + after, word) == Some(value),
        value_after(before + seq![word], word) is None,
        value_after(before, word) is None,
        first_text(before + seq![word] + after, word) == before.len(),
        first_text(before, word) == before.len(),
    decreases before.len(),
{
    lemma_first_word(before, word, seq![value] + after);
    lemma_first_word(before, word, Seq::empty());
    lemma_first_word(before, word, after);
    assert(before + seq![word] + (seq![value] + after) =~= before + seq![word, value] + after);
    assert(before + seq![word] + Seq::<Seq<char>>::empty() =~= before + seq![word]);
}

proof fn lemma_first_text(args: Seq<Seq<char>>, word: Seq<char>)
    ensures
        0 <= first_text(args, word) <= args.len(),
    decreases args.len(),
{
    if args.len() > 0 && args[0] != word {
        lemma_first_text(args.drop_first(), word);
    }
}

proof fn lemma_first_word(before: Seq<Seq<char>>, word: Seq<char>, after: Seq<Seq<char>>)
    requires
        !before.contains(word),
    ensures
        first_text(before + seq![word] + after, word) == before.len(),
        first_text(before, word) == before.len(),
    decreases before.len(),
{
    let all = before + seq![word] + after;
    if before.len() > 0 {
        let rest = before.drop_first();
        assert(before[0] != word) by {
            if before[0] == word {
                assert(before.contains(word));
            }
        }
        assert(!rest.contains(word)) by {
            if rest.contains(word) {
                let i = choose|i: int| 0 <= i < rest.len() && rest[i] == word;
                assert(before[i + 1] == word);
            }
        }
        lemma_first_word(rest, word, after);
        assert(all.drop_first() =~= rest + seq![word] + after);
        assert(all[0] == before[0]);
    } else {
        assert(all[0] == word);
    }
}

/// A stack that lives on without clients comes down once nothing was asked of it for its whole
/// time: not before that, and not where the time is unlimited or the stack belongs to a client.
pub proof fn stacks_live_for_their_time(s: DetachedView, now: u64)
    ensures
        expired(s, now) <==> s.policy == DisconnectPolicy::Detach && s.profile.orphan_ttl_secs > 0
            && now >= s.last_activity_epoch + s.profile.orphan_ttl_secs,
{
}

/// A process is over just where its readiness can no longer change and it does not run: it ended
/// well, or it failed.
pub proof fn ended_processes_are_settled(state: SubprocessState)
    ensures
        exited(state) <==> state == SubprocessState::Succeeded || verdict_of(state) == Some(
            ServiceOutcome::Failed,
        ),
{
}

/// A look at the processes changes the state of a child and nothing else of it: a child takes the
/// state that its job is listed with, and one whose job is not listed stays as it was.
pub proof fn looks_change_states_only(c: ChildRecord, list: Seq<ProcessInfo>, i: int)
    ensures
        polled(c, list) == (ChildRecord { state: polled(c, list).state, ..c }),
        0 <= i < list.len() && list[i].job_id == c.job_id && (forall|j: int|
            0 <= j < i ==> (#[trigger] list[j]).job_id != c.job_id) ==> polled(c, list).state
            == list[i].state,
        (forall|j: int| 0 <= j < list.len() ==> (#[trigger] list[j]).job_id != c.job_id) ==> polled(
            c,
            list,
        ) == c,
{
    jobs_have_their_listed_state(list, c.job_id);
}

} // verus!
