//! Launch profiles: the services of a stack and what they depend on.
use crate::errors::{LaunchError, LaunchErrorView};
use crate::launch::names::{ascending, places_are_unique, same_texts, texts, NameMap};
use crate::text;
use vstd::prelude::*;

verus! {

/// What becomes of a stack when its client goes away.
#[derive(Debug, Clone, Copy, PartialEq, Eq, Structural)]
pub enum DisconnectPolicy {
    /// It lives on.
    Detach,
    /// It is taken down.
    Shutdown,
}

/// What a service does when something that it depends on is restarted.
#[derive(Debug, Clone, Copy, PartialEq, Eq, Structural)]
pub enum DependencyRestartMode {
    Restart,
    Ignore,
}

/// Whether the output streams of a service are merged.
#[derive(Debug, Clone, Copy, PartialEq, Eq, Structural)]
pub enum StreamMux {
    Multiplexed,
    Separate,
}

/// When a service that ended is started again.
#[derive(Debug, Clone, Copy, PartialEq, Eq, Structural)]
pub enum RestartPolicy {
    Never,
    OnFailure { max_retries: u32, backoff_ms: u64 },
    Always { backoff_ms: u64 },
}

/// How a service shows that it is ready.
#[derive(Debug)]
pub enum HealthProbe {
    NoProbe,
    PortOpen { host: String, port: u16, interval_ms: u64, startup_grace_ms: u64 },
    HttpGet { url: String, interval_ms: u64, startup_grace_ms: u64 },
    LogPattern { regex: String, timeout_ms: u64 },
}

impl HealthProbe {
    /// Copies the probe.
    pub fn copied(&self) -> (r: HealthProbe)
        ensures
            r == *self,
    {
        match self {
            HealthProbe::NoProbe => HealthProbe::NoProbe,
            HealthProbe::PortOpen { host, port, interval_ms, startup_grace_ms } => {
                HealthProbe::PortOpen {
                    host: host.clone(),
                    port: *port,
                    interval_ms: *interval_ms,
                    startup_grace_ms: *startup_grace_ms,
                }
            },
            HealthProbe::HttpGet { url, interval_ms, startup_grace_ms } => HealthProbe::HttpGet {
                url: url.clone(),
                interval_ms: *interval_ms,
                startup_grace_ms: *startup_grace_ms,
            },
            HealthProbe::LogPattern { regex, timeout_ms } => HealthProbe::LogPattern {
                regex: regex.clone(),
                timeout_ms: *timeout_ms,
            },
        }
    }
}

/// What a service runs.
#[derive(Debug)]
pub enum CommandSpec {
    /// A program and its arguments.
    Argv(Vec<String>),
    /// A line for a shell; it is not accepted.
    Shell(String),
}

/// What contracts say of a [`CommandSpec`].
#[verifier::ext_equal]
pub enum CommandView {
    Argv(Seq<Seq<char>>),
    Shell(Seq<char>),
}

impl View for CommandSpec {
    type V = CommandView;

    open spec fn view(&self) -> CommandView {
        match self {
            CommandSpec::Argv(v) => CommandView::Argv(texts(v@)),
            CommandSpec::Shell(s) => CommandView::Shell(s@),
        }
    }
}

/// What is said of a command is what it holds.
pub proof fn commands_are_seen_as_declared(c: CommandSpec)
    ensures
        match c {
            CommandSpec::Argv(v) => c@ == (CommandView::Argv(texts(v@))),
            CommandSpec::Shell(s) => c@ == (CommandView::Shell(s@)),
        },
{
}

/// What a command that is a line for a shell is answered with.
pub open spec fn shell_refused() -> LaunchErrorView {
    LaunchErrorView::InvalidProfile { msg: "command must be an argv array, not a string"@ }
}

impl CommandSpec {
    /// The program and its arguments.
    pub fn argv(&self) -> (r: Result<&Vec<String>, LaunchError>)
        ensures
            match self@ {
                CommandView::Argv(v) => r matches Ok(x) && texts(x@) == v,
                CommandView::Shell(_) => r matches Err(e) && e@ == shell_refused(),
            },
            self matches CommandSpec::Argv(v) ==> r matches Ok(x) && x@ == v@,
            self is Shell ==> (r matches Err(e) && e@ == (LaunchErrorView::InvalidProfile {
                msg: "command must be an argv array, not a string"@,
            })),
    {
        match self {
            CommandSpec::Argv(v) => Ok(v),
            CommandSpec::Shell(_) => Err(
                LaunchError::InvalidProfile {
                    msg: "command must be an argv array, not a string".to_owned(),
                },
            ),
        }
    }
}

/// Whether two commands are the same.
pub fn same_command(a: &CommandSpec, b: &CommandSpec) -> (r: bool)
    ensures
        r == (a@ == b@),
        match (a, b) {
            (CommandSpec::Argv(x), CommandSpec::Argv(y)) => r == (texts(x@) == texts(y@)),
            (CommandSpec::Shell(x), CommandSpec::Shell(y)) => r == (x@ == y@),
            _ => !r,
        },
{
    match (a, b) {
        (CommandSpec::Argv(x), CommandSpec::Argv(y)) => same_texts(x, y),
        (CommandSpec::Shell(x), CommandSpec::Shell(y)) => text::same_text(x.as_str(), y.as_str()),
        _ => false,
    }
}

/// A service of a stack.
#[derive(Debug)]
pub struct LaunchService {
    pub command: CommandSpec,
    pub args: Vec<String>,
    pub env: NameMap<String>,
    pub cwd: Option<String>,
    /// The services that must be ready before this one starts.
    pub depends_on: Vec<String>,
    /// Whether what depends on this service fails with it.
    pub required: bool,
    pub restart_policy: Option<RestartPolicy>,
    pub health_probe: Option<HealthProbe>,
    /// Files with more environment variables.
    pub env_file: Vec<String>,
    pub on_dependency_restart: DependencyRestartMode,
    pub error_patterns: Vec<String>,
    pub redact: Vec<String>,
    pub streams: StreamMux,
}

/// What contracts say of a [`LaunchService`].
#[verifier::ext_equal]
pub struct ServiceView {
    pub command: CommandView,
    pub args: Seq<Seq<char>>,
    pub env: EnvView,
    pub cwd: Option<Seq<char>>,
    pub depends_on: Seq<Seq<char>>,
    pub required: bool,
    pub restart_policy: Option<RestartPolicy>,
    pub health_probe: Option<HealthProbe>,
    pub env_file: Seq<Seq<char>>,
    pub on_dependency_restart: DependencyRestartMode,
    pub error_patterns: Seq<Seq<char>>,
    pub redact: Seq<Seq<char>>,
    pub streams: StreamMux,
}

/// Environment variables: their names in ascending order, and their values.
#[verifier::ext_equal]
pub struct EnvView {
    pub names: Seq<Seq<char>>,
    pub vals: Seq<Seq<char>>,
}

/// The environment variables of a map.
pub open spec fn env_view(env: NameMap<String>) -> EnvView {
    EnvView { names: env.names(), vals: texts(env.vals()) }
}

/// The characters of an optional string.
pub open spec fn opt_text(s: Option<String>) -> Option<Seq<char>> {
    match s {
        Some(x) => Some(x@),
        None => None,
    }
}

impl View for LaunchService {
    type V = ServiceView;

    open spec fn view(&self) -> ServiceView {
        ServiceView {
            command: self.command@,
            args: texts(self.args@),
            env: env_view(self.env),
            cwd: opt_text(self.cwd),
            depends_on: texts(self.depends_on@),
            required: self.required,
            restart_policy: self.restart_policy,
            health_probe: self.health_probe,
            env_file: texts(self.env_file@),
            on_dependency_restart: self.on_dependency_restart,
            error_patterns: texts(self.error_patterns@),
            redact: texts(self.redact@),
            streams: self.streams,
        }
    }
}

/// What is said of a service is what its fields hold.
pub proof fn services_are_seen_as_declared(s: LaunchService)
    ensures
        s@.command == s.command@,
        s@.args == texts(s.args@),
        s@.env.names == s.env.names(),
        s@.env.vals == texts(s.env.vals()),
        match s.cwd {
            Some(x) => s@.cwd == Some(x@),
            None => s@.cwd is None,
        },
        s@.depends_on == texts(s.depends_on@),
        s@.required == s.required,
        s@.restart_policy == s.restart_policy,
        s@.health_probe == s.health_probe,
        s@.env_file == texts(s.env_file@),
        s@.on_dependency_restart == s.on_dependency_restart,
        s@.error_patterns == texts(s.error_patterns@),
        s@.redact == texts(s.redact@),
        s@.streams == s.streams,
{
}

/// Whether two maps hold the same environment variables.
pub fn same_env(a: &NameMap<String>, b: &NameMap<String>) -> (r: bool)
    requires
        a.wf(),
        b.wf(),
    ensures
        r == (env_view(*a) == env_view(*b)),
        r <==> a.names() == b.names() && texts(a.vals()) == texts(b.vals()),
{
    if a.len() != b.len() {
        assert(env_view(*a).names.len() != env_view(*b).names.len());
        return false;
    }
    let mut i: usize = 0;
    while i < a.len()
        invariant
            a.wf(),
            b.wf(),
            a.names().len() == b.names().len(),
            i <= a.names().len(),
            forall|j: int| 0 <= j < i ==> a.names()[j] == b.names()[j],
            forall|j: int| 0 <= j < i ==> texts(a.vals())[j] == texts(b.vals())[j],
        decreases a.names().len() - i,
    {
        if !text::same_text(a.name_at(i).as_str(), b.name_at(i).as_str()) {
            assert(env_view(*a).names[i as int] != env_view(*b).names[i as int]);
            return false;
        }
        if !text::same_text(a.val_at(i).as_str(), b.val_at(i).as_str()) {
            assert(env_view(*a).vals[i as int] != env_view(*b).vals[i as int]);
            return false;
        }
        i = i + 1;
    }
    assert(env_view(*a) =~= env_view(*b));
    true
}

/// Copies environment variables.
pub fn copy_env(env: &NameMap<String>) -> (r: NameMap<String>)
    requires
        env.wf(),
    ensures
        r.wf(),
        env_view(r) == env_view(*env),
        r@ == env@,
{
    let mut r: NameMap<String> = NameMap::new();
    let mut i: usize = 0;
    proof {
        assert(r.vals() =~= env.vals().take(0));
        assert(r.names() =~= env.names().take(0));
    }
    while i < env.len()
        invariant
            env.wf(),
            r.wf(),
            i <= env.names().len(),
            r.names() == env.names().take(i as int),
            r.vals() == env.vals().take(i as int),
        decreases env.names().len() - i,
    {
        r.append(env.name_at(i).clone(), env.val_at(i).clone());
        i = i + 1;
        proof {
            assert(r.names() =~= env.names().take(i as int));
            assert(r.vals() =~= env.vals().take(i as int));
        }
    }
    proof {
        assert(r.names() =~= env.names());
        assert(r.vals() =~= env.vals());
    }
    r
}

/// A launch profile.
#[derive(Debug)]
pub struct LaunchProfile {
    pub version: u32,
    pub on_client_disconnect: DisconnectPolicy,
    /// How long a stack without a client lives on; 0 for ever.
    pub orphan_ttl_secs: u32,
    pub services: NameMap<LaunchService>,
}

/// What contracts say of a [`LaunchProfile`]: its services stand in the order of their
/// names, and are spoken of by their places.
#[verifier::ext_equal]
pub struct ProfileView {
    pub on_client_disconnect: DisconnectPolicy,
    pub orphan_ttl_secs: u32,
    pub names: Seq<Seq<char>>,
    pub services: Seq<ServiceView>,
}

impl View for LaunchProfile {
    type V = ProfileView;

    open spec fn view(&self) -> ProfileView {
        ProfileView {
            on_client_disconnect: self.on_client_disconnect,
            orphan_ttl_secs: self.orphan_ttl_secs,
            names: self.services.names(),
            services: Seq::new(self.services.vals().len(), |i: int| self.services.vals()[i]@),
        }
    }
}

/// What is said of a profile is what its fields hold: its services, each under its name.
pub proof fn profiles_are_seen_as_declared(p: LaunchProfile, i: int)
    requires
        0 <= i < p.services.vals().len(),
    ensures
        p@.on_client_disconnect == p.on_client_disconnect,
        p@.orphan_ttl_secs == p.orphan_ttl_secs,
        p@.names == p.services.names(),
        p@.services.len() == p.services.vals().len(),
        p@.services[i] == p.services.vals()[i]@,
{
}

impl ProfileView {
    /// The names are ascending, and each has a service.
    pub open spec fn wf(self) -> bool {
        ascending(self.names) && self.names.len() == self.services.len()
    }

    /// How many services there are.
    pub open spec fn count(self) -> int {
        self.names.len() as int
    }

    /// Whether service `i` depends on service `j`.
    pub open spec fn depends(self, i: int, j: int) -> bool {
        self.services[i].depends_on.contains(self.names[j])
    }

    /// Whether everything that service `i` depends on is in `placed`.
    pub open spec fn ready(self, placed: Seq<int>, i: int) -> bool {
        forall|j: int| 0 <= j < self.count() && #[trigger] self.depends(i, j) ==> placed.contains(j)
    }

    /// Whether `order` holds every service once.
    pub open spec fn covers(self, order: Seq<int>) -> bool {
        &&& order.len() == self.count()
        &&& order.no_duplicates()
        &&& forall|a: int| 0 <= a < order.len() ==> 0 <= #[trigger] order[a] < self.count()
    }

    /// Whether every service in `order` comes after all that it depends on.
    pub open spec fn dependency_first(self, order: Seq<int>) -> bool {
        forall|a: int| 0 <= a < order.len() ==> self.ready(order.take(a), #[trigger] order[a])
    }

    /// Whether services that could stand at the same place stand in the order of their
    /// names.
    pub open spec fn by_name(self, order: Seq<int>) -> bool {
        forall|a: int, i: int|
            0 <= a < order.len() && 0 <= i < order[a] && !(#[trigger] order.take(a)).contains(i)
                ==> !#[trigger] self.ready(order.take(a), i)
    }

    /// Whether the services can be brought up in this order.
    pub open spec fn start_order(self, order: Seq<int>) -> bool {
        self.covers(order) && self.dependency_first(order)
    }
}

/// Places as whole numbers.
pub open spec fn places(v: Seq<usize>) -> Seq<int> {
    Seq::new(v.len(), |i: int| v[i] as int)
}

proof fn lemma_subset_len(a: Seq<int>, b: Seq<int>)
    requires
        a.no_duplicates(),
        forall|i: int| 0 <= i < a.len() ==> b.contains(#[trigger] a[i]),
    ensures
        a.len() <= b.len(),
{
    a.unique_seq_to_set();
    vstd::seq_lib::seq_to_set_is_finite(a);
    vstd::seq_lib::seq_to_set_is_finite(b);
    assert(a.to_set().subset_of(b.to_set())) by {
        assert forall|x: int| a.to_set().contains(x) implies b.to_set().contains(x) by {
            let i = choose|i: int| 0 <= i < a.len() && a[i] == x;
            assert(b.contains(a[i]));
        }
    }
    vstd::set_lib::lemma_len_subset(a.to_set(), b.to_set());
    b.lemma_cardinality_of_set();
}

proof fn lemma_first_missing(full: Seq<int>, part: Seq<int>, from: int) -> (a: int)
    requires
        0 <= from < full.len(),
        !part.contains(full[from]),
    ensures
        0 <= a <= from,
        !part.contains(full[a]),
        forall|b: int| 0 <= b < a ==> part.contains(#[trigger] full[b]),
    decreases from,
{
    if forall|b: int| 0 <= b < from ==> part.contains(#[trigger] full[b]) {
        from
    } else {
        let b = choose|b: int| 0 <= b < from && !part.contains(#[trigger] full[b]);
        lemma_first_missing(full, part, b)
    }
}

/// Where some services are placed and no other is ready, the services cannot be brought
/// up at all.
proof fn lemma_stuck(p: ProfileView, part: Seq<int>, full: Seq<int>)
    requires
        part.len() < p.count(),
        forall|i: int| 0 <= i < p.count() && !part.contains(i) ==> !#[trigger] p.ready(part, i),
    ensures
        !p.start_order(full),
{
    if p.start_order(full) {
        if forall|i: int| 0 <= i < full.len() ==> part.contains(#[trigger] full[i]) {
            lemma_subset_len(full, part);
        }
        let m = choose|i: int| 0 <= i < full.len() && !part.contains(#[trigger] full[i]);
        let a = lemma_first_missing(full, part, m);
        let i = full[a];
        assert(p.ready(full.take(a), i));
        assert(p.ready(part, i)) by {
            assert forall|j: int| 0 <= j < p.count() && #[trigger] p.depends(i, j) implies
                part.contains(j) by {
                assert(full.take(a).contains(j));
                let b = choose|b: int| 0 <= b < full.take(a).len() && full.take(a)[b] == j;
                assert(part.contains(full[b]));
            }
        }
    }
}

impl LaunchProfile {
    /// The names of the services are ascending, and so are those of their environment
    /// variables.
    pub open spec fn wf(&self) -> bool {
        &&& self.services.wf()
        &&& forall|i: int|
            0 <= i < self.services.vals().len() ==> (#[trigger] self.services.vals()[i]).env.wf()
    }

    /// Whether everything that service `i` depends on, and that the profile holds, is
    /// placed.
    fn is_ready(&self, placed: &Vec<bool>, Ghost(order): Ghost<Seq<int>>, i: usize) -> (r: bool)
        requires
            self.wf(),
            i < self@.count(),
            placed@.len() == self@.count(),
            forall|j: int| 0 <= j < placed@.len() ==> #[trigger] placed@[j] == order.contains(j),
        ensures
            r == self@.ready(order, i as int),
    {
        let service = self.services.val_at(i);
        let ghost p = self@;
        assert(p.services[i as int].depends_on == texts(service.depends_on@));
        let mut d: usize = 0;
        while d < service.depends_on.len()
            invariant
                self.wf(),
                p == self@,
                i < p.count(),
                *service == self.services.vals()[i as int],
                p.services[i as int].depends_on == texts(service.depends_on@),
                placed@.len() == p.count(),
                forall|j: int| 0 <= j < placed@.len() ==> #[trigger] placed@[j] == order.contains(j),
                d <= service.depends_on@.len(),
                forall|k: int, j: int|
                    0 <= k < d && 0 <= j < p.count() && #[trigger] texts(service.depends_on@)[k]
                        == #[trigger] p.names[j] ==> order.contains(j),
            decreases service.depends_on@.len() - d,
        {
            match self.services.find(service.depends_on[d].as_str()) {
                Some(j) => {
                    proof {
                        assert(texts(service.depends_on@)[d as int] == p.names[j as int]);
                        assert(p.depends(i as int, j as int));
                        assert forall|j2: int|
                            0 <= j2 < p.count() && texts(service.depends_on@)[d as int]
                                == #[trigger] p.names[j2] implies j2 == j by {
                            places_are_unique(p.names, j as int, j2);
                        }
                    }
                    if !placed[j] {
                        return false;
                    }
                },
                None => {},
            }
            d = d + 1;
        }
        proof {
            assert forall|j: int| 0 <= j < p.count() && #[trigger] p.depends(i as int, j) implies
                order.contains(j) by {
                let k = choose|k: int|
                    0 <= k < p.services[i as int].depends_on.len()
                        && p.services[i as int].depends_on[k] == p.names[j];
                assert(texts(service.depends_on@)[k] == p.names[j]);
            }
        }
        true
    }

    /// The services in an order in which they can be brought up: each after all that it
    /// depends on, and by name where that leaves a choice. There is none where the
    /// dependencies form a cycle.
    pub fn topological_order(&self) -> (r: Result<Vec<usize>, LaunchError>)
        requires
            self.wf(),
        ensures
            r matches Ok(order) ==> {
                &&& self@.start_order(places(order@))
                &&& self@.by_name(places(order@))
            },
            r matches Err(e) ==> {
                &&& e@ == LaunchErrorView::CycleDetected
                &&& forall|order: Seq<int>| !#[trigger] self@.start_order(order)
            },
    {
        let n = self.services.len();
        let ghost p = self@;
        let mut order: Vec<usize> = Vec::new();
        let mut placed: Vec<bool> = Vec::new();
        while placed.len() < n
            invariant
                n == p.count(),
                placed@.len() <= n,
                forall|j: int| 0 <= j < placed@.len() ==> !#[trigger] placed@[j],
            decreases n - placed@.len(),
        {
            placed.push(false);
        }
        while order.len() < n
            invariant
                self.wf(),
                p == self@,
                n == p.count(),
                placed@.len() == n,
                order@.len() <= n,
                forall|j: int|
                    0 <= j < placed@.len() ==> #[trigger] placed@[j] == places(order@).contains(j),
                places(order@).no_duplicates(),
                forall|a: int|
                    0 <= a < order@.len() ==> 0 <= #[trigger] places(order@)[a] < p.count(),
                p.dependency_first(places(order@)),
                p.by_name(places(order@)),
            decreases n - order@.len(),
        {
            let ghost now = places(order@);
            let mut i: usize = 0;
            let mut found: Option<usize> = None;
            while i < n && found.is_none()
                invariant
                    self.wf(),
                    p == self@,
                    n == p.count(),
                    now == places(order@),
                    placed@.len() == n,
                    forall|j: int|
                        0 <= j < placed@.len() ==> #[trigger] placed@[j] == now.contains(j),
                    i <= n,
                    match found {
                        Some(f) => f < n && !now.contains(f as int) && p.ready(now, f as int)
                            && forall|j: int|
                            0 <= j < f && !now.contains(j) ==> !#[trigger] p.ready(now, j),
                        None => forall|j: int|
                            0 <= j < i && !now.contains(j) ==> !#[trigger] p.ready(now, j),
                    },
                decreases n - i, if found is None {
                    1int
                } else {
                    0int
                },
            {
                if !placed[i] && self.is_ready(&placed, Ghost(now), i) {
                    found = Some(i);
                } else {
                    i = i + 1;
                }
            }
            match found {
                Some(f) => {
                    order.push(f);
                    placed.set(f, true);
                    proof {
                        let after = places(order@);
                        assert(after =~= now.push(f as int));
                        assert forall|j: int| 0 <= j < placed@.len() implies #[trigger] placed@[j]
                            == after.contains(j) by {
                            if j == f {
                                assert(after[now.len() as int] == j);
                            } else if now.contains(j) {
                                let k = choose|k: int| 0 <= k < now.len() && now[k] == j;
                                assert(after[k] == j);
                            }
                        }
                        assert forall|a: int| 0 <= a < after.len() implies p.ready(
                            after.take(a),
                            #[trigger] after[a],
                        ) by {
                            if a < now.len() {
                                assert(after.take(a) =~= now.take(a));
                                assert(after[a] == now[a]);
                            } else {
                                assert(after.take(a) =~= now);
                            }
                        }
                        assert forall|a: int, k: int|
                            0 <= a < after.len() && 0 <= k < after[a] && !(#[trigger] after.take(
                                a,
                            )).contains(k) implies !#[trigger] p.ready(after.take(a), k) by {
                            if a < now.len() {
                                assert(after.take(a) =~= now.take(a));
                                assert(after[a] == now[a]);
                            } else {
                                assert(after.take(a) =~= now);
                            }
                        }
                    }
                },
                None => {
                    proof {
                        assert forall|full: Seq<int>| !#[trigger] p.start_order(full) by {
                            lemma_stuck(p, now, full);
                        }
                    }
                    return Err(LaunchError::CycleDetected);
                },
            }
        }
        Ok(order)
    }
}

} // verus!
