//! Bringing up a stack in a session: service after service, each gated on what it
//! depends on.
use crate::errors::{LaunchError, LaunchErrorView};
use crate::ids::StackId;
use crate::launch::dag::{cyclic, listing_order};
use crate::launch::names::{copy_texts, texts, NameMap};
use crate::launch::profile::{
    env_view, opt_text, places, CommandView, DisconnectPolicy, LaunchProfile, LaunchService,
    ProfileView, ServiceView,
};
use crate::launch::stack::{fresh_entry, EntryView, LaunchEventKind, StackEntry, StackState};
use crate::launch::supervisor::{
    build_request, outcome_state, recorded, requested, requests_carry_what_is_declared,
    services_start_in_their_directory, services_start_with_their_words, ServiceOutcome,
    SubprocessRequest, SubprocessState,
};
use crate::text;
use vstd::prelude::*;
use vstd::utf8::encode_utf8;

verus! {

/// Whether the dependency `dep` of a service keeps it from starting: it failed, and it
/// is required. A dependency that the profile does not hold counts as required.
pub open spec fn blocks(
    p: ProfileView,
    status: Map<Seq<char>, ServiceOutcome>,
    dep: Seq<char>,
) -> bool {
    &&& status.contains_key(dep) && status[dep] == ServiceOutcome::Failed
    &&& p.names.contains(dep) ==> p.services[crate::launch::names::place(p.names, dep)].required
}

/// Where the first dependency that blocks stands in a list; the length of the list where
/// none does.
pub open spec fn first_block(
    p: ProfileView,
    status: Map<Seq<char>, ServiceOutcome>,
    deps: Seq<Seq<char>>,
) -> int
    decreases deps.len(),
{
    if deps.len() == 0 || blocks(p, status, deps[0]) {
        0
    } else {
        1 + first_block(p, status, deps.drop_first())
    }
}

/// The dependency that keeps a service from starting.
pub open spec fn blocked_by(
    p: ProfileView,
    status: Map<Seq<char>, ServiceOutcome>,
    deps: Seq<Seq<char>>,
) -> Option<Seq<char>> {
    let i = first_block(p, status, deps);
    if 0 <= i < deps.len() {
        Some(deps[i])
    } else {
        None
    }
}

/// The first dependency of a service that failed and is required. A failed dependency
/// that is not required blocks nothing.
pub fn blocked_dependency(
    profile: &LaunchProfile,
    service: &LaunchService,
    status: &NameMap<ServiceOutcome>,
) -> (r: Option<String>)
    requires
        profile.wf(),
        status.wf(),
    ensures
        match r {
            Some(dep) => blocked_by(profile@, status@, service@.depends_on) == Some(dep@),
            None => blocked_by(profile@, status@, service@.depends_on) is None,
        },
{
    let ghost p = profile@;
    let ghost deps = texts(service.depends_on@);
    let mut i: usize = 0;
    assert(deps.skip(0) =~= deps);
    while i < service.depends_on.len()
        invariant
            profile.wf(),
            status.wf(),
            p == profile@,
            deps == texts(service.depends_on@),
            i <= deps.len(),
            first_block(p, status@, deps) == i + first_block(p, status@, deps.skip(i as int)),
        decreases deps.len() - i,
    {
        let dep = service.depends_on[i].as_str();
        assert(deps.skip(i as int)[0] == dep@);
        let failed = match status.get(dep) {
            Some(outcome) => *outcome == ServiceOutcome::Failed,
            None => false,
        };
        let required = match profile.services.find(dep) {
            Some(k) => {
                proof {
                    let q = crate::launch::names::place(p.names, dep@);
                    assert(p.names.contains(dep@)) by {
                        assert(p.names[k as int] == dep@);
                    }
                    assert(exists|j: int| 0 <= j < p.names.len() && p.names[j] == dep@);
                    crate::launch::names::places_are_unique(p.names, q, k as int);
                }
                profile.services.val_at(k).required
            },
            None => true,
        };
        if failed && required {
            return Some(service.depends_on[i].clone());
        }
        assert(deps.skip(i as int).drop_first() =~= deps.skip(i + 1));
        i = i + 1;
    }
    None
}

/// What starts the next service.
#[derive(Debug)]
pub struct StartStep {
    pub name: String,
    pub request: SubprocessRequest,
    /// Files with more environment variables.
    pub env_files: Vec<String>,
}

/// A stack that is being brought up.
#[derive(Debug)]
pub struct BringUp {
    entry: StackEntry,
    order: Vec<usize>,
    /// How many services were settled.
    done: usize,
    /// What became of each of them.
    status: NameMap<ServiceOutcome>,
    degraded: bool,
    /// Whether the next service was started and is not settled yet.
    waiting: bool,
}

/// What contracts say of a [`BringUp`].
#[verifier::ext_equal]
pub struct BringUpView {
    pub entry: EntryView,
    /// The places of the services, in the order of bringing up.
    pub order: Seq<int>,
    pub done: int,
    pub status: Map<Seq<char>, ServiceOutcome>,
    pub waiting: bool,
}

impl BringUpView {
    /// The profile of the stack.
    pub open spec fn profile(self) -> ProfileView {
        self.entry.profile
    }

    /// The name of the service that is next.
    pub open spec fn name(self) -> Seq<char> {
        self.profile().names[self.order[self.done]]
    }

    /// The service that is next.
    pub open spec fn service(self) -> ServiceView {
        self.profile().services[self.order[self.done]]
    }

    /// Whether a service that was settled failed.
    pub open spec fn any_failed(self) -> bool {
        exists|n: Seq<char>|
            #![trigger self.status.contains_key(n)]
            self.status.contains_key(n) && self.status[n] == ServiceOutcome::Failed
    }

    /// The services are settled in an order in which they can be brought up, and exactly
    /// those before the next one are.
    pub open spec fn wf(self) -> bool {
        &&& self.profile().wf()
        &&& self.profile().start_order(self.order)
        &&& listing_order(self.profile(), self.order)
        &&& 0 <= self.done <= self.order.len()
        &&& self.waiting ==> self.done < self.order.len()
        &&& forall|n: Seq<char>| #[trigger]
            self.status.contains_key(n) <==> exists|a: int|
                0 <= a < self.done && #[trigger] self.profile().names[self.order[a]] == n
    }
}

impl BringUp {
    /// How far the stack has come.
    pub closed spec fn view(&self) -> BringUpView {
        BringUpView {
            entry: self.entry@,
            order: places(self.order@),
            done: self.done as int,
            status: self.status@,
            waiting: self.waiting,
        }
    }

    /// What is recorded is in order, and it is remembered whether a service failed.
    pub closed spec fn wf(&self) -> bool {
        &&& self@.wf()
        &&& self.entry.wf()
        &&& self.status.wf()
        &&& self.degraded == self@.any_failed()
    }

    /// Starts to bring up a stack. A profile whose dependencies form a cycle is refused
    /// before anything is started.
    pub fn new(
        stack_id: StackId,
        profile_path: String,
        config_hash: String,
        policy: DisconnectPolicy,
        profile: LaunchProfile,
    ) -> (r: Result<BringUp, LaunchError>)
        requires
            profile.wf(),
        ensures
            r is Ok <==> !cyclic(profile@),
            r matches Err(e) ==> e@ == LaunchErrorView::CycleDetected,
            r matches Ok(b) ==> {
                &&& b.wf()
                &&& b@.wf()
                &&& b@.entry == fresh_entry(
                    stack_id,
                    profile_path@,
                    config_hash@,
                    policy,
                    profile@,
                ).with_state(StackState::Starting)
                &&& b@.done == 0
                &&& b@.status == Map::<Seq<char>, ServiceOutcome>::empty()
                &&& !b@.waiting
            },
    {
        let order = match profile.topological_order() {
            Ok(order) => order,
            Err(e) => {
                return Err(e);
            },
        };
        let mut entry = StackEntry::new(stack_id, profile_path, config_hash, policy, profile);
        entry.set_state(StackState::Starting);
        let b = BringUp {
            entry,
            order,
            done: 0,
            status: NameMap::new(),
            degraded: false,
            waiting: false,
        };
        proof {
            assert(b@.profile() == profile@);
            assert(profile@.start_order(places(order@)));
            assert(listing_order(profile@, b@.order));
            assert(!b@.any_failed());
        }
        Ok(b)
    }

    /// Whether every service is settled.
    pub fn is_done(&self) -> (r: bool)
        requires
            self.wf(),
        ensures
            r == (self@.done == self@.order.len()),
            self@.wf(),
    {
        self.done >= self.order.len()
    }

    /// Turns to the next service. It is not started where a dependency that it requires
    /// has failed, or where its command cannot be run; otherwise what starts it comes
    /// back, and it is recorded as starting.
    pub fn start_next(&mut self, state_root: &[u8], now: &str) -> (r: Result<StartStep, LaunchError>)
        requires
            old(self).wf(),
            !old(self)@.waiting,
            old(self)@.done < old(self)@.order.len(),
        ensures
            final(self).wf(),
            final(self)@.wf(),
            ({
                let b = old(self)@;
                let name = b.name();
                match blocked_by(b.profile(), b.status, b.service().depends_on) {
                    Some(dep) => {
                        &&& r matches Err(e)
                        &&& e@ == LaunchErrorView::DependencyFailed { service: name, dependency: dep }
                        &&& final(self)@ == b
                    },
                    None => match requested(name, b.service(), state_root@) {
                        Err(e) => r matches Err(x) && x@ == e && final(self)@ == b,
                        Ok(q) => {
                            &&& r matches Ok(step)
                            &&& step.name@ == name
                            &&& step.request@ == q
                            &&& texts(step.env_files@) == b.service().env_file
                            &&& final(self)@ == BringUpView {
                                entry: b.entry.with_service(
                                    name,
                                    SubprocessState::Starting,
                                ).with_event(
                                    LaunchEventKind::Started,
                                    Some(name),
                                    "starting service '"@ + name + "'"@,
                                    now@,
                                ),
                                waiting: true,
                                ..b
                            }
                        },
                    },
                }
            }),
            r matches Ok(step) ==> {
                let s = old(self)@.service();
                &&& step.name@ == old(self)@.name()
                &&& s.command matches CommandView::Argv(argv) && argv.len() > 0
                    && step.request.binary_path@ == encode_utf8(argv[0]) && seq![argv[0]] + texts(
                    step.request.args@,
                ) == argv + s.args
                &&& env_view(step.request.env_override) == s.env
                &&& step.request.cwd@ == match s.cwd {
                    Some(dir) => encode_utf8(dir),
                    None => state_root@,
                }
                &&& opt_text(step.request.name) == Some(old(self)@.name())
                &&& step.request.restart_policy == s.restart_policy
                &&& step.request.health_probe == s.health_probe
                &&& step.request.elicitation_confirmed
                &&& texts(step.env_files@) == s.env_file
                &&& final(self)@.waiting && final(self)@.done == old(self)@.done
                &&& final(self)@.status == old(self)@.status
            },
    {
        let ghost b = self@;
        let k: usize = self.order[self.done];
        proof {
            assert(places(self.order@)[self.done as int] == k);
            assert(0 <= b.order[b.done] < b.profile().count());
        }
        let name = self.entry.profile.services.name_at(k).clone();
        let service = self.entry.profile.services.val_at(k);
        assert(service@ == b.service());
        match blocked_dependency(&self.entry.profile, service, &self.status) {
            Some(dependency) => {
                return Err(LaunchError::DependencyFailed { service: name, dependency });
            },
            None => {},
        }
        let request = match build_request(name.as_str(), service, state_root) {
            Ok(q) => q,
            Err(e) => {
                return Err(e);
            },
        };
        let env_files = copy_texts(&service.env_file);
        assert(texts(env_files@) == b.service().env_file);
        proof {
            let argv = b.service().command->Argv_0;
            services_start_with_their_words(b.name(), b.service(), argv, state_root@);
            services_start_in_their_directory(b.name(), b.service(), state_root@, state_root@);
            requests_carry_what_is_declared(b.name(), b.service(), state_root@);
        }
        self.entry.set_service(name.as_str(), SubprocessState::Starting);
        let message = text::cat3("starting service '", name.as_str(), "'");
        self.entry.emit(LaunchEventKind::Started, Some(name.as_str()), message, now);
        self.waiting = true;
        proof {
            assert(self@.status == b.status);
            assert(self@.profile() == b.profile());
            assert(self@.order == b.order && self@.done == b.done);
            assert(self@.any_failed() == b.any_failed());
            assert(self@.wf());
        }
        Ok(StartStep { name, request, env_files })
    }

    /// Records the process of the service that was started.
    pub fn spawned(&mut self, job_id: u128)
        requires
            old(self).wf(),
            old(self)@.waiting,
        ensures
            final(self).wf(),
            final(self)@.wf(),
            final(self)@ == (BringUpView {
                entry: old(self)@.entry.with_job(old(self)@.name(), job_id),
                ..old(self)@
            }),
    {
        let ghost b = self@;
        let k: usize = self.order[self.done];
        proof {
            assert(places(self.order@)[self.done as int] == k);
            assert(0 <= b.order[b.done] < b.profile().count());
        }
        let name = self.entry.profile.services.name_at(k).clone();
        self.entry.set_job(name.as_str(), job_id);
    }

    /// Records what became of the service that was started. The result says whether its
    /// process has to be stopped: one that did not become ready is not left running.
    pub fn settled(&mut self, outcome: ServiceOutcome, now: &str) -> (stop: bool)
        requires
            old(self).wf(),
            old(self)@.waiting,
        ensures
            final(self).wf(),
            final(self)@.wf(),
            stop == (outcome == ServiceOutcome::Failed),
            ({
                let b = old(self)@;
                let name = b.name();
                let after = b.entry.with_service(name, recorded(outcome));
                final(self)@ == BringUpView {
                    entry: match outcome {
                        ServiceOutcome::Ready => after.with_event(
                            LaunchEventKind::Ready,
                            Some(name),
                            "service '"@ + name + "' is ready"@,
                            now@,
                        ),
                        ServiceOutcome::Failed => after.with_event(
                            LaunchEventKind::Crashed,
                            Some(name),
                            "service '"@ + name + "' failed readiness"@,
                            now@,
                        ),
                    },
                    done: b.done + 1,
                    status: b.status.insert(name, outcome),
                    waiting: false,
                    ..b
                }
            }),
    {
        let ghost b = self@;
        let k: usize = self.order[self.done];
        proof {
            assert(places(self.order@)[self.done as int] == k);
            assert(0 <= b.order[b.done] < b.profile().count());
        }
        let name = self.entry.profile.services.name_at(k).clone();
        self.entry.set_service(name.as_str(), outcome_state(outcome));
        match outcome {
            ServiceOutcome::Ready => {
                let message = text::cat3("service '", name.as_str(), "' is ready");
                self.entry.emit(LaunchEventKind::Ready, Some(name.as_str()), message, now);
            },
            ServiceOutcome::Failed => {
                let message = text::cat3("service '", name.as_str(), "' failed readiness");
                self.entry.emit(LaunchEventKind::Crashed, Some(name.as_str()), message, now);
            },
        }
        let failed = outcome == ServiceOutcome::Failed;
        self.status.insert(name.clone(), outcome);
        assert(self.done < self.order.len());
        self.done = self.done + 1;
        self.waiting = false;
        if failed {
            self.degraded = true;
        }
        proof {
            let after = self@;
            assert(after.profile() == b.profile());
            assert(after.status == b.status.insert(b.name(), outcome));
            assert forall|n: Seq<char>| #[trigger] after.status.contains_key(n) <==> exists|a: int|
                0 <= a < after.done && #[trigger] after.profile().names[after.order[a]] == n by {
                if after.status.contains_key(n) {
                    if n == b.name() {
                        assert(after.profile().names[after.order[b.done]] == n);
                    } else {
                        assert(b.status.contains_key(n));
                        let a = choose|a: int|
                            0 <= a < b.done && #[trigger] b.profile().names[b.order[a]] == n;
                        assert(after.profile().names[after.order[a]] == n);
                    }
                }
                if exists|a: int|
                    0 <= a < after.done && #[trigger] after.profile().names[after.order[a]] == n {
                    let a = choose|a: int|
                        0 <= a < after.done && #[trigger] after.profile().names[after.order[a]]
                            == n;
                    if a < b.done {
                        assert(b.profile().names[b.order[a]] == n);
                        assert(b.status.contains_key(n));
                    }
                }
            }
            lemma_not_settled(b);
            assert(after.any_failed() == (b.any_failed() || failed)) by {
                if b.any_failed() {
                    let n = choose|n: Seq<char>|
                        #![trigger b.status.contains_key(n)]
                        b.status.contains_key(n) && b.status[n] == ServiceOutcome::Failed;
                    assert(after.status.contains_key(n) && after.status[n]
                        == ServiceOutcome::Failed);
                }
                if failed {
                    assert(after.status.contains_key(b.name()));
                }
                if after.any_failed() {
                    let n = choose|n: Seq<char>|
                        #![trigger after.status.contains_key(n)]
                        after.status.contains_key(n) && after.status[n] == ServiceOutcome::Failed;
                    if n != b.name() {
                        assert(b.status.contains_key(n));
                    }
                }
            }
        }
        failed
    }

    /// Ends bringing up: the stack runs, degraded where a service failed.
    pub fn finish(self) -> (r: StackEntry)
        requires
            self.wf(),
            self@.done == self@.order.len(),
        ensures
            r.wf(),
            r@ == self@.entry.with_state(
                if self@.any_failed() {
                    StackState::Degraded
                } else {
                    StackState::Running
                },
            ),
            r@.handle.state is Degraded || r@.handle.state is Running,
            r@.handle.state is Degraded <==> exists|n: Seq<char>|
                #![trigger self@.status.contains_key(n)]
                self@.status.contains_key(n) && self@.status[n] == ServiceOutcome::Failed,
            r@.job_ids == self@.entry.job_ids,
            r@.handle.services == self@.entry.handle.services,
    {
        let degraded = self.degraded;
        let mut entry = self.entry;
        if degraded {
            entry.set_state(StackState::Degraded);
        } else {
            entry.set_state(StackState::Running);
        }
        entry
    }
}

proof fn lemma_not_settled(b: BringUpView)
    requires
        b.wf(),
        b.done < b.order.len(),
    ensures
        !b.status.contains_key(b.name()),
{
    if b.status.contains_key(b.name()) {
        let a = choose|a: int|
            0 <= a < b.done && #[trigger] b.profile().names[b.order[a]] == b.name();
        crate::launch::names::places_are_unique(
            b.profile().names,
            b.order[a],
            b.order[b.done],
        );
    }
}

/// A service is started only once everything that it requires is ready: where no
/// dependency blocks it, every required service that it depends on was settled as
/// ready.
pub proof fn started_services_have_their_dependencies(b: BringUpView, j: int)
    requires
        b.wf(),
        b.done < b.order.len(),
        blocked_by(b.profile(), b.status, b.service().depends_on) is None,
        0 <= j < b.profile().count(),
        b.profile().depends(b.order[b.done], j),
        b.profile().services[j].required,
    ensures
        b.status.contains_key(b.profile().names[j]),
        b.status[b.profile().names[j]] == ServiceOutcome::Ready,
{
    let p = b.profile();
    let i = b.order[b.done];
    assert(p.ready(b.order.take(b.done), i));
    assert(b.order.take(b.done).contains(j));
    let a = choose|a: int| 0 <= a < b.order.take(b.done).len() && b.order.take(b.done)[a] == j;
    assert(p.names[b.order[a]] == p.names[j]);
    let deps = b.service().depends_on;
    let k = choose|k: int| 0 <= k < deps.len() && deps[k] == p.names[j];
    lemma_no_block(p, b.status, deps, k);
    let q = crate::launch::names::place(p.names, p.names[j]);
    assert(exists|m: int| 0 <= m < p.names.len() && p.names[m] == p.names[j]);
    crate::launch::names::places_are_unique(p.names, q, j);
}

/// A service is kept from starting just where some service that it depends on has failed
/// and is required, and the first such is named.
pub proof fn required_failures_block(
    p: ProfileView,
    status: Map<Seq<char>, ServiceOutcome>,
    deps: Seq<Seq<char>>,
    k: int,
    j: int,
)
    requires
        p.wf(),
        0 <= k < deps.len(),
        0 <= j < p.names.len(),
        deps[k] == p.names[j],
    ensures
        p.services[j].required && status.contains_key(deps[k]) && status[deps[k]]
            == ServiceOutcome::Failed ==> blocked_by(p, status, deps) is Some,
        !p.services[j].required ==> blocked_by(p, status, deps) != Some(deps[k]),
        !status.contains_key(deps[k]) || status[deps[k]] == ServiceOutcome::Ready ==> blocked_by(
            p,
            status,
            deps,
        ) != Some(deps[k]),
        blocked_by(p, status, deps) is Some ==> deps.contains(blocked_by(p, status, deps)->0),
{
    let q = crate::launch::names::place(p.names, deps[k]);
    assert(p.names.contains(deps[k]));
    assert(exists|m: int| 0 <= m < p.names.len() && p.names[m] == deps[k]);
    crate::launch::names::places_are_unique(p.names, q, j);
    if blocked_by(p, status, deps) is None {
        lemma_no_block(p, status, deps, k);
    } else {
        lemma_first_block_blocks(p, status, deps);
    }
}

/// The first of several failed dependencies is the one that is named: what stands before
/// it in the list does not keep the service from starting.
pub proof fn the_first_failure_is_named(
    p: ProfileView,
    status: Map<Seq<char>, ServiceOutcome>,
    head: Seq<Seq<char>>,
    tail: Seq<Seq<char>>,
)
    ensures
        blocked_by(p, status, head + tail) == match blocked_by(p, status, head) {
            Some(dep) => Some(dep),
            None => blocked_by(p, status, tail),
        },
    decreases head.len(),
{
    if head.len() == 0 {
        assert(head + tail =~= tail);
    } else {
        let rest = head.drop_first();
        the_first_failure_is_named(p, status, rest, tail);
        assert((head + tail).drop_first() =~= rest + tail);
        assert((head + tail)[0] == head[0]);
        lemma_first_block_bound(p, status, head);
        lemma_first_block_bound(p, status, rest);
        lemma_first_block_bound(p, status, tail);
        lemma_first_block_bound(p, status, rest + tail);
        lemma_first_block_bound(p, status, head + tail);
    }
}

/// A service that depends on nothing is never kept from starting.
pub proof fn independent_services_start(p: ProfileView, status: Map<Seq<char>, ServiceOutcome>)
    ensures
        blocked_by(p, status, Seq::empty()) is None,
{
}

proof fn lemma_first_block_blocks(
    p: ProfileView,
    status: Map<Seq<char>, ServiceOutcome>,
    deps: Seq<Seq<char>>,
)
    ensures
        blocked_by(p, status, deps) is Some ==> {
            let dep = blocked_by(p, status, deps)->0;
            &&& deps.contains(dep)
            &&& blocks(p, status, dep)
        },
    decreases deps.len(),
{
    lemma_first_block_bound(p, status, deps);
    if deps.len() > 0 && !blocks(p, status, deps[0]) {
        let rest = deps.drop_first();
        lemma_first_block_bound(p, status, rest);
        lemma_first_block_blocks(p, status, rest);
        if blocked_by(p, status, deps) is Some {
            let i = first_block(p, status, deps);
            assert(deps[i] == rest[i - 1]);
        }
    }
}

proof fn lemma_no_block(
    p: ProfileView,
    status: Map<Seq<char>, ServiceOutcome>,
    deps: Seq<Seq<char>>,
    k: int,
)
    requires
        blocked_by(p, status, deps) is None,
        0 <= k < deps.len(),
    ensures
        !blocks(p, status, deps[k]),
    decreases deps.len(),
{
    lemma_first_block_bound(p, status, deps);
    if k > 0 {
        lemma_first_block_bound(p, status, deps.drop_first());
        assert(!blocks(p, status, deps[0]));
        lemma_no_block(p, status, deps.drop_first(), k - 1);
    }
}

proof fn lemma_first_block_bound(
    p: ProfileView,
    status: Map<Seq<char>, ServiceOutcome>,
    deps: Seq<Seq<char>>,
)
    ensures
        0 <= first_block(p, status, deps) <= deps.len(),
    decreases deps.len(),
{
    if deps.len() > 0 {
        lemma_first_block_bound(p, status, deps.drop_first());
    }
}

} // verus!
