//! The stacks of the process: what is planned for them and what is recorded of them.
//!
//! Starting and stopping processes is the caller's. Each operation comes in two parts:
//! a plan of what to stop and start, and the record of what came of it.
use crate::errors::{ErrorView, LaunchError, LaunchErrorView, SubstrateError};
use crate::ids::{crockford_text, StackId};
use crate::launch::dag::{cyclic, listed, reverse_topo};
use crate::launch::names::{copy_texts, texts};
use crate::launch::profile::{
    env_view, opt_text, CommandView, DisconnectPolicy, LaunchProfile, ProfileView, ServiceView,
};
use crate::launch::reload::{
    added_set, collect_jobs, dependents_are_taken_down_first, diff_profiles, jobs_of, joined_names,
    kept_names_stay_in_order, only, processes_follow_their_services, reports, restart_set,
    reverse_order_for, teardown_order, ReloadReport,
};
use crate::launch::stack::{
    event_views, fresh_entry, stack_unreachable, tail_of, unreachable_stack, EntryView, HandleView,
    LaunchEvent, LaunchEventKind, StackEntry, StackHandle, StackState,
    SupervisorRegistry, SupervisorView,
};
use crate::launch::supervisor::{
    build_request, outcome_state, recorded, requested, requests_carry_what_is_declared,
    services_start_in_their_directory, services_start_with_their_words, ServiceOutcome,
    SubprocessRequest, SubprocessState,
};
use crate::paths;
use crate::text;
use vstd::prelude::*;
use vstd::utf8::encode_utf8;

verus! {

/// Stacks by id.
pub type StackMap = dashmap::DashMap<u128, StackEntry>;

/// Names the stacks that a map holds.
pub uninterp spec fn stacks_in(map: StackMap) -> Map<u128, StackEntry>;

/// `dashmap::DashMap::new`: the map is empty.
#[verifier::external_body]
fn stacks_new() -> (r: StackMap)
    ensures
        stacks_in(r) == (Map::<u128, StackEntry>::empty()),
{
    dashmap::DashMap::new()
}

/// `dashmap::DashMap::insert`: the key holds the value, in place of any other.
#[verifier::external_body]
fn stacks_insert(map: &mut StackMap, id: u128, entry: StackEntry)
    ensures
        stacks_in(*final(map)) == stacks_in(*old(map)).insert(id, entry),
{
    map.insert(id, entry);
}

/// `dashmap::DashMap::remove`: the value at the key, where there is one; the map no
/// longer holds the key.
#[verifier::external_body]
fn stacks_remove(map: &mut StackMap, id: u128) -> (r: Option<StackEntry>)
    ensures
        stacks_in(*final(map)) == stacks_in(*old(map)).remove(id),
        match r {
            Some(e) => stacks_in(*old(map)).contains_key(id) && e == stacks_in(*old(map))[id],
            None => !stacks_in(*old(map)).contains_key(id),
        },
{
    map.remove(&id).map(|kv| kv.1)
}

/// `dashmap::DashMap::len`: how many keys the map holds.
#[verifier::external_body]
fn stacks_len(map: &StackMap) -> (n: usize)
    ensures
        n == stacks_in(*map).dom().len(),
{
    map.len()
}

/// `dashmap::DashMap::iter`: every key of the map once, in an order that is left open.
#[verifier::external_body]
fn stacks_ids(map: &StackMap) -> (r: Vec<u128>)
    ensures
        r@.no_duplicates(),
        r@.to_set() == stacks_in(*map).dom(),
{
    map.iter().map(|e| *e.key()).collect()
}

/// `dashmap::DashMap::view`: a copy of the handle of the stack at the key, where there is
/// one.
#[verifier::external_body]
fn stacks_handle(map: &StackMap, id: u128) -> (r: Option<StackHandle>)
    requires
        stacks_in(*map).contains_key(id) ==> stacks_in(*map)[id].handle.services.wf(),
    ensures
        match r {
            Some(h) => stacks_in(*map).contains_key(id) && h@ == stacks_in(*map)[id].handle@
                && h.services.wf(),
            None => !stacks_in(*map).contains_key(id),
        },
{
    map.view(&id, |_k, e| e.handle.copied())
}

/// `dashmap::DashMap::view`: the wanted events of the stack at the key, where there is
/// one.
#[verifier::external_body]
fn stacks_tail(map: &StackMap, id: u128, service: Option<&str>, floor: Option<u64>) -> (r: Option<
    Vec<LaunchEvent>,
>)
    ensures
        match r {
            Some(v) => stacks_in(*map).contains_key(id) && event_views(v@) == tail_of(
                stacks_in(*map)[id]@.events,
                crate::fs_query::response::str_of(service),
                floor,
            ),
            None => !stacks_in(*map).contains_key(id),
        },
{
    map.view(&id, |_k, e| e.tail(service, floor))
}

/// The name of the file that holds what was blessed.
pub open spec fn trust_store_name() -> Seq<char> {
    "launch-trust.toml"@
}

/// The stacks of the process.
pub struct LaunchRegistry {
    stacks: StackMap,
    state_root: Vec<u8>,
    trust_store: Vec<u8>,
}

/// The stacks of a map, by what contracts say of them.
pub open spec fn entry_map(m: Map<u128, StackEntry>) -> Map<u128, EntryView> {
    Map::new(|id: u128| m.contains_key(id), |id: u128| m[id]@)
}

/// How a service is started again.
#[derive(Debug)]
pub struct RestartPlan {
    /// The process that is stopped first.
    pub stop: Option<u128>,
    /// What starts the service then, or why it cannot be started.
    pub request: Result<SubprocessRequest, LaunchError>,
    /// Files with more environment variables.
    pub env_files: Vec<String>,
}

/// How a stack is reloaded.
#[derive(Debug)]
pub struct ReloadPlan {
    pub report: ReloadReport,
    /// The processes that are stopped first, in this order.
    pub stop: Vec<u128>,
    /// The services that are started then, in this order.
    pub start: Vec<String>,
}

/// A service that was started in a reload.
#[derive(Debug)]
pub struct Spawned {
    pub name: String,
    pub job_id: u128,
    pub outcome: ServiceOutcome,
}

/// The stack after some of its services were removed.
pub open spec fn without_all(e: EntryView, names: Seq<Seq<char>>) -> EntryView
    decreases names.len(),
{
    if names.len() == 0 {
        e
    } else {
        without_all(e, names.drop_last()).without_service(names.last())
    }
}

/// The stack after some services were started.
pub open spec fn with_spawned(e: EntryView, spawned: Seq<Spawned>) -> EntryView
    decreases spawned.len(),
{
    if spawned.len() == 0 {
        e
    } else {
        let s = spawned.last();
        with_spawned(e, spawned.drop_last()).with_job(s.name@, s.job_id).with_service(
            s.name@,
            recorded(s.outcome),
        )
    }
}

/// The stack after services were recorded as being in one state.
pub open spec fn with_all(e: EntryView, names: Seq<Seq<char>>, state: SubprocessState) -> EntryView
    decreases names.len(),
{
    if names.len() == 0 {
        e
    } else {
        with_all(e, names.drop_last(), state).with_service(names.last(), state)
    }
}

/// The stack after it was taken down: its services, in the order of taking down, are
/// cancelled.
pub open spec fn taken_down(e: EntryView, names: Seq<Seq<char>>, now: Seq<char>) -> EntryView {
    with_all(e.with_state(StackState::Draining), names, SubprocessState::Cancelled).with_event(
        LaunchEventKind::Exited,
        None,
        "stack drained and brought down"@,
        now,
    ).with_state(StackState::Down)
}

/// A stack that a supervisor process of its own took over.
pub open spec fn detached_entry(
    fresh: EntryView,
    registry: SupervisorView,
    now: Seq<char>,
) -> EntryView {
    let e = with_all(
        fresh.with_state(StackState::Detached),
        registry.children.map_values(|c: crate::launch::stack::StackChild| c.name@),
        SubprocessState::Running,
    ).with_event(
        LaunchEventKind::Started,
        None,
        "detached supervisor pid "@ + signed_decimal(registry.supervisor_pid as int)
            + " owns the stack"@,
        now,
    );
    EntryView { handle: HandleView { supervisor: Some(registry), ..e.handle }, ..e }
}

/// The decimal numeral of a signed number.
pub open spec fn signed_decimal(n: int) -> Seq<char> {
    if n < 0 {
        "-"@ + text::decimal((-n) as nat)
    } else {
        text::decimal(n as nat)
    }
}

/// Prints a signed number in decimal.
pub fn signed_text(n: i32) -> (s: String)
    ensures
        s@ == signed_decimal(n as int),
        n >= 0 ==> s@ == text::decimal(n as nat),
        n < 0 ==> s@ == "-"@ + text::decimal((-(n as int)) as nat),
{
    if n < 0 {
        let magnitude: u64 = (0 - n as i64) as u64;
        text::cat2("-", text::decimal_text(magnitude).as_str())
    } else {
        text::decimal_text(n as u64)
    }
}

impl LaunchRegistry {
    /// The stacks, by id.
    pub closed spec fn view(&self) -> Map<u128, EntryView> {
        entry_map(stacks_in(self.stacks))
    }

    /// The directory for what is kept of stacks.
    pub closed spec fn root(&self) -> Seq<u8> {
        self.state_root@
    }

    /// The file that holds what was blessed.
    pub closed spec fn trust_path(&self) -> Seq<u8> {
        self.trust_store@
    }

    /// Every stack is in order and filed under its own id.
    pub closed spec fn wf(&self) -> bool {
        forall|id: u128| #[trigger]
            stacks_in(self.stacks).contains_key(id) ==> stacks_in(self.stacks)[id].wf()
                && stacks_in(self.stacks)[id].handle.stack_id.raw == id
    }

    /// A registry without stacks.
    pub fn new(state_root: Vec<u8>) -> (r: LaunchRegistry)
        ensures
            r.wf(),
            r@ == Map::<u128, EntryView>::empty(),
            r.root() == state_root@,
            r.trust_path() == paths::joined(state_root@, encode_utf8(trust_store_name())),
            r.trust_path() == paths::joined(state_root@, encode_utf8("launch-trust.toml"@)),
    {
        let name: &str = "launch-trust.toml";
        let trust_store = paths::join(&state_root, name.as_bytes());
        let r = LaunchRegistry { stacks: stacks_new(), state_root, trust_store };
        assert(r@ =~= Map::<u128, EntryView>::empty());
        r
    }

    /// How many stacks there are.
    pub fn stack_count(&self) -> (n: usize)
        ensures
            n == self@.dom().len(),
    {
        assert(self@.dom() =~= stacks_in(self.stacks).dom());
        stacks_len(&self.stacks)
    }

    /// The directory for what is kept of stacks.
    pub fn state_root(&self) -> (r: &Vec<u8>)
        ensures
            r@ == self.root(),
    {
        &self.state_root
    }

    /// The file that holds what was blessed.
    pub fn trust_store(&self) -> (r: &Vec<u8>)
        ensures
            r@ == self.trust_path(),
    {
        &self.trust_store
    }

    /// Files a stack that was brought up, and gives its handle.
    pub fn record(&mut self, entry: StackEntry) -> (r: StackHandle)
        requires
            old(self).wf(),
            entry.wf(),
        ensures
            final(self).wf(),
            final(self).root() == old(self).root(),
            final(self).trust_path() == old(self).trust_path(),
            r@ == entry@.handle,
            final(self)@ == old(self)@.insert(entry@.handle.stack_id.raw, entry@),
    {
        let handle = entry.handle.copied();
        let id: u128 = entry.handle.stack_id.raw;
        let ghost before = self@;
        let ghost v = entry@;
        stacks_insert(&mut self.stacks, id, entry);
        assert(self@ =~= before.insert(id, v));
        handle
    }

    /// Files a stack that a supervisor process of its own took over, and gives its
    /// handle.
    pub fn record_detached(
        &mut self,
        stack_id: StackId,
        profile_path: String,
        config_hash: String,
        policy: DisconnectPolicy,
        profile: LaunchProfile,
        registry: SupervisorRegistry,
        now: &str,
    ) -> (r: StackHandle)
        requires
            old(self).wf(),
            profile.wf(),
        ensures
            final(self).wf(),
            final(self).root() == old(self).root(),
            final(self).trust_path() == old(self).trust_path(),
            ({
                let fresh = fresh_entry(stack_id, profile_path@, config_hash@, policy, profile@);
                let e = detached_entry(fresh, registry@, now@);
                &&& r@ == e.handle
                &&& final(self)@ == old(self)@.insert(stack_id.raw, e)
            }),
    {
        let ghost fresh = fresh_entry(stack_id, profile_path@, config_hash@, policy, profile@);
        let mut entry = StackEntry::new(stack_id, profile_path, config_hash, policy, profile);
        entry.set_state(StackState::Detached);
        let ghost start = entry@;
        let ghost names = registry@.children.map_values(
            |c: crate::launch::stack::StackChild| c.name@,
        );
        let mut i: usize = 0;
        assert(names.take(0) =~= Seq::<Seq<char>>::empty());
        while i < registry.children.len()
            invariant
                names == registry@.children.map_values(
                    |c: crate::launch::stack::StackChild| c.name@,
                ),
                i <= registry.children@.len(),
                entry.wf(),
                entry@ == with_all(start, names.take(i as int), SubprocessState::Running),
                entry.handle.stack_id == stack_id,
            decreases registry.children@.len() - i,
        {
            proof {
                assert(names.take(i + 1).drop_last() =~= names.take(i as int));
                assert(names.take(i + 1).last() == registry.children@[i as int].name@);
            }
            entry.set_service(registry.children[i].name.as_str(), SubprocessState::Running);
            assert(entry@.handle.stack_id == stack_id);
            i = i + 1;
        }
        assert(names.take(i as int) =~= names);
        let message = text::cat3(
            "detached supervisor pid ",
            signed_text(registry.supervisor_pid).as_str(),
            " owns the stack",
        );
        entry.emit(LaunchEventKind::Started, None, message, now);
        let ghost before = entry@;
        entry.handle.supervisor = Some(registry);
        proof {
            assert(entry@.events =~= before.events);
            assert(entry@ =~= detached_entry(fresh, registry@, now@));
        }
        self.record(entry)
    }

    /// The handles of all stacks, or of one.
    pub fn status(&self, stack_id: Option<StackId>) -> (r: Vec<StackHandle>)
        requires
            self.wf(),
        ensures
            match stack_id {
                Some(id) => if self@.contains_key(id.raw) {
                    r@.len() == 1 && r@[0]@ == self@[id.raw].handle
                } else {
                    r@.len() == 0
                },
                None => {
                    &&& forall|i: int|
                        0 <= i < r@.len() ==> self@.contains_key((#[trigger] r@[i]).stack_id.raw)
                            && r@[i]@ == self@[r@[i].stack_id.raw].handle
                    &&& forall|i: int, j: int|
                        0 <= i < j < r@.len() ==> (#[trigger] r@[i]).stack_id != (
                        #[trigger] r@[j]).stack_id
                    &&& r@.len() == self@.dom().len()
                },
            },
    {
        let mut r: Vec<StackHandle> = Vec::new();
        match stack_id {
            Some(id) => {
                match stacks_handle(&self.stacks, id.raw) {
                    Some(h) => {
                        r.push(h);
                    },
                    None => {},
                }
                r
            },
            None => {
                let ids = stacks_ids(&self.stacks);
                let ghost m = stacks_in(self.stacks);
                let mut i: usize = 0;
                while i < ids.len()
                    invariant
                        self.wf(),
                        m == stacks_in(self.stacks),
                        ids@.no_duplicates(),
                        ids@.to_set() == m.dom(),
                        i <= ids@.len(),
                        r@.len() == i,
                        forall|k: int|
                            0 <= k < i ==> self@.contains_key(ids@[k]) && (
                            #[trigger] r@[k]).stack_id.raw == ids@[k] && r@[k]@
                                == self@[ids@[k]].handle,
                    decreases ids@.len() - i,
                {
                    let ghost before = r@;
                    assert(ids@.to_set().contains(ids@[i as int]));
                    match stacks_handle(&self.stacks, ids[i]) {
                        Some(h) => {
                            assert(h@.stack_id == m[ids@[i as int]].handle.stack_id);
                            r.push(h);
                            proof {
                                assert forall|k: int| 0 <= k < i + 1 implies self@.contains_key(
                                    ids@[k],
                                ) && (#[trigger] r@[k]).stack_id.raw == ids@[k] && r@[k]@
                                    == self@[ids@[k]].handle by {
                                    if k < i {
                                        assert(r@[k] == before[k]);
                                    }
                                }
                            }
                        },
                        None => {},
                    }
                    i = i + 1;
                }
                proof {
                    ids@.unique_seq_to_set();
                    assert(self@.dom() =~= m.dom());
                    assert forall|a: int, b: int| 0 <= a < b < r@.len() implies (
                    #[trigger] r@[a]).stack_id != (#[trigger] r@[b]).stack_id by {
                        assert(ids@[a] != ids@[b]);
                    }
                }
                r
            },
        }
    }

    /// The events of a stack after a cursor, where one is given, and of a service, where
    /// one is given; and the cursor that leads on from them. A cursor that is no number
    /// is passed over.
    pub fn logs(&self, stack_id: StackId, service: Option<&str>, since: Option<&str>) -> (r: Result<
        (Vec<LaunchEvent>, Option<String>),
        SubstrateError,
    >)
        ensures
            r is Ok <==> self@.contains_key(stack_id.raw),
            r matches Err(e) ==> e@ == (ErrorView::JobNotFound {
                job_id: crockford_text(stack_id.raw),
                tagged: false,
            }),
            r matches Ok(page) ==> {
                let floor = match since {
                    Some(s) => text::u64_in(s@),
                    None => None,
                };
                let events = tail_of(
                    self@[stack_id.raw].events,
                    crate::fs_query::response::str_of(service),
                    floor,
                );
                &&& event_views(page.0@) == events
                &&& opt_text(page.1) == (if events.len() == 0 {
                    None
                } else {
                    Some(text::decimal(events.last().seq as nat))
                })
            },
    {
        let floor: Option<u64> = match since {
            Some(s) => text::parse_u64(s),
            None => None,
        };
        match stacks_tail(&self.stacks, stack_id.raw, service, floor) {
            Some(events) => {
                let ghost v = event_views(events@);
                let next = if events.len() == 0 {
                    None
                } else {
                    assert(v.last() == events@.last()@);
                    Some(text::decimal_text(events[events.len() - 1].seq))
                };
                Ok((events, next))
            },
            None => Err(
                SubstrateError::JobNotFound {
                    job_id: stack_id.to_crockford(),
                    correlation_id: None,
                },
            ),
        }
    }
}

/// What a service that a profile does not hold is answered with.
pub open spec fn unknown_service(name: Seq<char>) -> LaunchErrorView {
    LaunchErrorView::InvalidProfile { msg: "unknown service '"@ + name + "'"@ }
}

/// Whether a request is the one that starts a service, or the reason why there is none.
pub open spec fn answers_request(
    r: Result<SubprocessRequest, LaunchError>,
    name: Seq<char>,
    s: ServiceView,
    default_cwd: Seq<u8>,
) -> bool {
    match requested(name, s, default_cwd) {
        Ok(q) => r matches Ok(x) && x@ == q && x.env_override.wf(),
        Err(e) => r matches Err(x) && x@ == e,
    }
}

impl LaunchRegistry {
    /// Plans to start a service of a stack again: its process is stopped, then it is
    /// started like at first.
    pub fn restart_plan(&mut self, stack_id: StackId, service_name: &str) -> (r: Result<
        RestartPlan,
        LaunchError,
    >)
        requires
            old(self).wf(),
        ensures
            final(self).wf(),
            final(self)@ == old(self)@,
            final(self).root() == old(self).root(),
            final(self).trust_path() == old(self).trust_path(),
            ({
                let p = old(self)@[stack_id.raw].profile;
                if !old(self)@.contains_key(stack_id.raw) {
                    r matches Err(e) && e@ == unreachable_stack(stack_id)
                } else if !p.names.contains(service_name@) {
                    r matches Err(e) && e@ == unknown_service(service_name@)
                } else {
                    let s = p.services[crate::launch::names::place(p.names, service_name@)];
                    let jobs = old(self)@[stack_id.raw].job_ids;
                    &&& r matches Ok(plan)
                    &&& plan.stop == (if jobs.contains_key(service_name@) {
                        Some(jobs[service_name@])
                    } else {
                        None
                    })
                    &&& answers_request(plan.request, service_name@, s, old(self).root())
                    &&& match requested(service_name@, s, old(self).root()) {
                        Ok(q) => plan.request matches Ok(x) && x@ == q,
                        Err(e) => plan.request matches Err(x) && x@ == e,
                    }
                    &&& texts(plan.env_files@) == s.env_file
                }
            }),
            r is Ok <==> old(self)@.contains_key(stack_id.raw) && old(
                self,
            )@[stack_id.raw].profile.names.contains(service_name@),
            r matches Err(e) ==> e@ == (if old(self)@.contains_key(stack_id.raw) {
                LaunchErrorView::InvalidProfile { msg: "unknown service '"@ + service_name@ + "'"@ }
            } else {
                LaunchErrorView::SupervisorUnreachable { stack_id: crockford_text(stack_id.raw) }
            }),
            r matches Ok(plan) ==> plan.request matches Ok(x) ==> forall|i: int|
                0 <= i < old(self)@[stack_id.raw].profile.names.len() && #[trigger] old(
                    self,
                )@[stack_id.raw].profile.names[i] == service_name@ ==> {
                    let s = old(self)@[stack_id.raw].profile.services[i];
                    &&& s.command matches CommandView::Argv(argv) && argv.len() > 0
                        && x.binary_path@ == encode_utf8(argv[0]) && seq![argv[0]] + texts(x.args@)
                        == argv + s.args
                    &&& env_view(x.env_override) == s.env
                    &&& x.cwd@ == match s.cwd {
                        Some(dir) => encode_utf8(dir),
                        None => old(self).root(),
                    }
                    &&& opt_text(x.name) == Some(service_name@)
                    &&& x.restart_policy == s.restart_policy
                    &&& x.health_probe == s.health_probe
                    &&& texts(plan.env_files@) == s.env_file
                },
    {
        let ghost m = stacks_in(self.stacks);
        let entry = match stacks_remove(&mut self.stacks, stack_id.raw) {
            Some(e) => e,
            None => {
                assert(m.remove(stack_id.raw) =~= m);
                return Err(stack_unreachable(stack_id));
            },
        };
        let ghost p = entry@.profile;
        let r = match entry.profile.services.find(service_name) {
            Some(k) => {
                let service = entry.profile.services.val_at(k);
                proof {
                    assert(p.names[k as int] == service_name@);
                    assert(p.names.contains(service_name@));
                    let q = crate::launch::names::place(p.names, service_name@);
                    assert(exists|j: int| 0 <= j < p.names.len() && p.names[j] == service_name@);
                    crate::launch::names::places_are_unique(p.names, q, k as int);
                    assert(p.services[q] == service@);
                    let argv = service@.command->Argv_0;
                    if service@.command is Argv {
                        services_start_with_their_words(service_name@, service@, argv, self.root());
                    }
                    services_start_in_their_directory(
                        service_name@,
                        service@,
                        self.root(),
                        self.root(),
                    );
                    requests_carry_what_is_declared(service_name@, service@, self.root());
                    assert forall|i: int|
                        0 <= i < p.names.len() && #[trigger] p.names[i] == service_name@ implies p.services[i]
                        == service@ by {
                        crate::launch::names::places_are_unique(p.names, i, k as int);
                    }
                }
                let stop = match entry.job_ids.get(service_name) {
                    Some(job) => Some(*job),
                    None => None,
                };
                let request = build_request(service_name, service, &self.state_root);
                let env_files = copy_texts(&service.env_file);
                Ok(RestartPlan { stop, request, env_files })
            },
            None => Err(
                LaunchError::InvalidProfile {
                    msg: text::cat3("unknown service '", service_name, "'"),
                },
            ),
        };
        stacks_insert(&mut self.stacks, stack_id.raw, entry);
        proof {
            assert(stacks_in(self.stacks) =~= m);
        }
        r
    }

    /// Records a service that was started again, and gives the handle of its stack. The
    /// stack may be gone by then.
    pub fn restart_done(
        &mut self,
        stack_id: StackId,
        service_name: &str,
        job_id: u128,
        outcome: ServiceOutcome,
        now: &str,
    ) -> (r: Result<StackHandle, LaunchError>)
        requires
            old(self).wf(),
        ensures
            final(self).wf(),
            final(self).root() == old(self).root(),
            final(self).trust_path() == old(self).trust_path(),
            if old(self)@.contains_key(stack_id.raw) {
                let e = old(self)@[stack_id.raw].with_job(service_name@, job_id).with_event(
                    LaunchEventKind::Restarting,
                    Some(service_name@),
                    "restarting service '"@ + service_name@ + "'"@,
                    now@,
                ).with_service(service_name@, recorded(outcome));
                &&& r matches Ok(h)
                &&& h@ == e.handle
                &&& final(self)@ == old(self)@.insert(stack_id.raw, e)
            } else {
                &&& r matches Err(e)
                &&& e@ == unreachable_stack(stack_id)
                &&& final(self)@ == old(self)@
            },
            old(self)@.contains_key(stack_id.raw) ==> {
                let before = old(self)@[stack_id.raw];
                let after = final(self)@[stack_id.raw];
                &&& after.job_ids == before.job_ids.insert(service_name@, job_id)
                &&& after.handle == (HandleView {
                    services: before.handle.services.insert(
                        service_name@,
                        if outcome == ServiceOutcome::Ready {
                            SubprocessState::Ready
                        } else {
                            SubprocessState::Failed
                        },
                    ),
                    ..before.handle
                })
                &&& after.profile == before.profile
                &&& after.events.len() == before.events.len() + 1
                &&& after.events.drop_last() == before.events
                &&& after.events.last().kind == LaunchEventKind::Restarting
                &&& after.events.last().service == Some(service_name@)
                &&& after.events.last().message == "restarting service '"@ + service_name@ + "'"@
                &&& after.events.last().timestamp == now@
            },
    {
        let ghost m = stacks_in(self.stacks);
        let ghost before = self@;
        let mut entry = match stacks_remove(&mut self.stacks, stack_id.raw) {
            Some(e) => e,
            None => {
                assert(m.remove(stack_id.raw) =~= m);
                return Err(stack_unreachable(stack_id));
            },
        };
        entry.set_job(service_name, job_id);
        let message = text::cat3("restarting service '", service_name, "'");
        entry.emit(LaunchEventKind::Restarting, Some(service_name), message, now);
        entry.set_service(service_name, outcome_state(outcome));
        let handle = entry.handle.copied();
        let ghost v = entry@;
        stacks_insert(&mut self.stacks, stack_id.raw, entry);
        proof {
            assert(v.handle.stack_id == m[stack_id.raw].handle.stack_id);
            assert(self@ =~= before.insert(stack_id.raw, v));
        }
        Ok(handle)
    }

    /// The path of the profile that a stack is reloaded from: the one that is given, or
    /// the one that it came from.
    pub fn reload_path(&self, stack_id: StackId, profile_path: Option<&str>) -> (r: Result<
        String,
        LaunchError,
    >)
        requires
            self.wf(),
        ensures
            r is Ok <==> self@.contains_key(stack_id.raw),
            r matches Err(e) ==> e@ == unreachable_stack(stack_id),
            r matches Ok(s) ==> s@ == (match profile_path {
                Some(given) => given@,
                None => self@[stack_id.raw].handle.profile_path,
            }),
    {
        match stacks_handle(&self.stacks, stack_id.raw) {
            Some(h) => match profile_path {
                Some(given) => Ok(given.to_owned()),
                None => Ok(h.profile_path),
            },
            None => Err(stack_unreachable(stack_id)),
        }
    }

    /// Plans the reload of a stack from a new profile. A profile whose dependencies form
    /// a cycle is refused before anything is stopped. What is gone or starts anew is
    /// stopped, in the order of taking down; then what is new or starts anew is started,
    /// in the order of bringing up.
    pub fn reload_plan(&mut self, stack_id: StackId, new_profile: &LaunchProfile) -> (r: Result<
        ReloadPlan,
        LaunchError,
    >)
        requires
            old(self).wf(),
            new_profile.wf(),
        ensures
            final(self).wf(),
            final(self)@ == old(self)@,
            final(self).root() == old(self).root(),
            final(self).trust_path() == old(self).trust_path(),
            ({
                let e = old(self)@[stack_id.raw];
                if !old(self)@.contains_key(stack_id.raw) {
                    r matches Err(x) && x@ == unreachable_stack(stack_id)
                } else if cyclic(new_profile@) {
                    r matches Err(x) && x@ == LaunchErrorView::CycleDetected
                } else {
                    &&& r matches Ok(plan)
                    &&& plans_reload(e, new_profile@, plan)
                }
            }),
            r is Ok <==> old(self)@.contains_key(stack_id.raw) && !cyclic(new_profile@),
            r matches Ok(plan) ==> {
                let before = old(self)@[stack_id.raw].profile;
                let new = new_profile@;
                &&& reports(before, new, plan.report)
                &&& listed(
                    new,
                    added_set(before, new).union(restart_set(before, new)),
                    texts(plan.start@),
                )
            },
    {
        let ghost m = stacks_in(self.stacks);
        let entry = match stacks_remove(&mut self.stacks, stack_id.raw) {
            Some(e) => e,
            None => {
                assert(m.remove(stack_id.raw) =~= m);
                return Err(stack_unreachable(stack_id));
            },
        };
        let r = match new_profile.topological_order() {
            Err(e) => Err(e),
            Ok(_order) => {
                assert(new_profile@.start_order(crate::launch::profile::places(_order@)));
                let diff = diff_profiles(&entry.profile, new_profile);
                let stop_names = joined_names(&diff.report.removed, &diff.report.restarted);
                let stop_order = reverse_order_for(&entry.profile, &stop_names);
                let stop = collect_jobs(&stop_order, &entry.job_ids);
                Ok(ReloadPlan { report: diff.report, stop, start: diff.start })
            },
        };
        stacks_insert(&mut self.stacks, stack_id.raw, entry);
        proof {
            assert(stacks_in(self.stacks) =~= m);
        }
        r
    }

    /// Records what came of a reload: what is gone leaves, what was started is filed with
    /// its process and its state, and the new profile takes the place of the old. A stack
    /// that is gone by then stays gone.
    pub fn apply_reload(
        &mut self,
        stack_id: StackId,
        new_profile: LaunchProfile,
        report: &ReloadReport,
        spawned: &Vec<Spawned>,
        now: &str,
    )
        requires
            old(self).wf(),
            new_profile.wf(),
        ensures
            final(self).wf(),
            final(self).root() == old(self).root(),
            final(self).trust_path() == old(self).trust_path(),
            final(self)@ == (if old(self)@.contains_key(stack_id.raw) {
                old(self)@.insert(
                    stack_id.raw,
                    reloaded(
                        old(self)@[stack_id.raw],
                        new_profile@,
                        texts(report.removed@),
                        spawned@,
                        now@,
                    ),
                )
            } else {
                old(self)@
            }),
    {
        let ghost m = stacks_in(self.stacks);
        let ghost before = self@;
        let mut entry = match stacks_remove(&mut self.stacks, stack_id.raw) {
            Some(e) => e,
            None => {
                assert(m.remove(stack_id.raw) =~= m);
                return;
            },
        };
        let ghost e0 = entry@;
        let ghost names = texts(report.removed@);
        let mut i: usize = 0;
        assert(names.take(0) =~= Seq::<Seq<char>>::empty());
        while i < report.removed.len()
            invariant
                names == texts(report.removed@),
                i <= report.removed@.len(),
                entry.wf(),
                entry@ == without_all(e0, names.take(i as int)),
                entry.handle.stack_id == e0.handle.stack_id,
            decreases report.removed@.len() - i,
        {
            let ghost at = entry@;
            let name = report.removed[i].as_str();
            proof {
                assert(names.take(i + 1).drop_last() =~= names.take(i as int));
                assert(names.take(i + 1).last() == name@);
            }
            entry.handle.services.remove(name);
            entry.job_ids.remove(name);
            proof {
                assert(entry@.events =~= at.events);
                assert(entry@ =~= at.without_service(name@));
            }
            i = i + 1;
        }
        assert(names.take(i as int) =~= names);
        let ghost e1 = entry@;
        let mut k: usize = 0;
        assert(spawned@.take(0) =~= Seq::<Spawned>::empty());
        while k < spawned.len()
            invariant
                k <= spawned@.len(),
                entry.wf(),
                entry@ == with_spawned(e1, spawned@.take(k as int)),
                entry.handle.stack_id == e0.handle.stack_id,
            decreases spawned@.len() - k,
        {
            proof {
                assert(spawned@.take(k + 1).drop_last() =~= spawned@.take(k as int));
                assert(spawned@.take(k + 1).last() == spawned@[k as int]);
            }
            entry.set_job(spawned[k].name.as_str(), spawned[k].job_id);
            let ghost mid = entry@;
            entry.set_service(spawned[k].name.as_str(), outcome_state(spawned[k].outcome));
            assert(entry@.handle.stack_id == mid.handle.stack_id);
            k = k + 1;
        }
        assert(spawned@.take(k as int) =~= spawned@);
        let ghost e2 = entry@;
        entry.profile = new_profile;
        proof {
            assert(entry@.events =~= e2.events);
            assert(entry@ =~= EntryView { profile: new_profile@, ..e2 });
        }
        entry.emit(LaunchEventKind::Restarting, None, "stack reloaded".to_owned(), now);
        let ghost v = entry@;
        stacks_insert(&mut self.stacks, stack_id.raw, entry);
        proof {
            assert(self@ =~= before.insert(stack_id.raw, v));
        }
    }

    /// Plans to take a stack down: the processes that are stopped, in the order of taking
    /// down.
    pub fn down_plan(&mut self, stack_id: StackId) -> (r: Result<Vec<u128>, LaunchError>)
        requires
            old(self).wf(),
        ensures
            final(self).wf(),
            final(self)@ == old(self)@,
            final(self).root() == old(self).root(),
            final(self).trust_path() == old(self).trust_path(),
            ({
                let e = old(self)@[stack_id.raw];
                if !old(self)@.contains_key(stack_id.raw) {
                    r matches Err(x) && x@ == unreachable_stack(stack_id)
                } else if cyclic(e.profile) {
                    r matches Err(x) && x@ == LaunchErrorView::CycleDetected
                } else {
                    &&& r matches Ok(jobs)
                    &&& exists|v: Seq<Seq<char>>| #[trigger]
                        teardown_order(e.profile, v) && jobs@ == jobs_of(v, e.job_ids)
                }
            }),
    {
        let ghost m = stacks_in(self.stacks);
        let entry = match stacks_remove(&mut self.stacks, stack_id.raw) {
            Some(e) => e,
            None => {
                assert(m.remove(stack_id.raw) =~= m);
                return Err(stack_unreachable(stack_id));
            },
        };
        let r = match reverse_topo(&entry.profile) {
            Ok(names) => {
                assert(teardown_order(entry@.profile, texts(names@)));
                Ok(collect_jobs(&names, &entry.job_ids))
            },
            Err(e) => Err(e),
        };
        stacks_insert(&mut self.stacks, stack_id.raw, entry);
        proof {
            assert(stacks_in(self.stacks) =~= m);
        }
        r
    }

    /// Records that a stack was taken down. A stack that is gone by then stays gone.
    pub fn down_done(&mut self, stack_id: StackId, now: &str) -> (r: StackState)
        requires
            old(self).wf(),
        ensures
            final(self).wf(),
            final(self).root() == old(self).root(),
            final(self).trust_path() == old(self).trust_path(),
            r == StackState::Down,
            if old(self)@.contains_key(stack_id.raw) {
                let e = old(self)@[stack_id.raw];
                exists|v: Seq<Seq<char>>| #[trigger]
                    teardown_order(e.profile, v) && final(self)@ == old(self)@.insert(
                        stack_id.raw,
                        taken_down(e, v, now@),
                    )
            } else {
                final(self)@ == old(self)@
            },
    {
        let ghost m = stacks_in(self.stacks);
        let ghost before = self@;
        let mut entry = match stacks_remove(&mut self.stacks, stack_id.raw) {
            Some(e) => e,
            None => {
                assert(m.remove(stack_id.raw) =~= m);
                return StackState::Down;
            },
        };
        let ghost e0 = entry@;
        let names = crate::launch::reload::teardown_names(&entry.profile);
        let ghost v = texts(names@);
        entry.set_state(StackState::Draining);
        let ghost e1 = entry@;
        let mut i: usize = 0;
        assert(v.take(0) =~= Seq::<Seq<char>>::empty());
        while i < names.len()
            invariant
                v == texts(names@),
                i <= names@.len(),
                entry.wf(),
                entry@ == with_all(e1, v.take(i as int), SubprocessState::Cancelled),
                entry.handle.stack_id == e0.handle.stack_id,
            decreases names@.len() - i,
        {
            let ghost at = entry@;
            proof {
                assert(v.take(i + 1).drop_last() =~= v.take(i as int));
                assert(v.take(i + 1).last() == names@[i as int]@);
            }
            entry.set_service(names[i].as_str(), SubprocessState::Cancelled);
            assert(entry@.handle.stack_id == at.handle.stack_id);
            i = i + 1;
        }
        assert(v.take(i as int) =~= v);
        entry.emit(
            LaunchEventKind::Exited,
            None,
            "stack drained and brought down".to_owned(),
            now,
        );
        entry.set_state(StackState::Down);
        let ghost last = entry@;
        stacks_insert(&mut self.stacks, stack_id.raw, entry);
        proof {
            assert(last.handle.stack_id == e0.handle.stack_id);
            assert(self@ =~= before.insert(stack_id.raw, last));
            assert(teardown_order(e0.profile, v));
        }
        StackState::Down
    }

    /// Forgets a stack that was taken down. Any other stack is kept.
    pub fn forget(&mut self, stack_id: StackId) -> (r: Result<(), LaunchError>)
        requires
            old(self).wf(),
        ensures
            final(self).wf(),
            final(self).root() == old(self).root(),
            final(self).trust_path() == old(self).trust_path(),
            if !old(self)@.contains_key(stack_id.raw) {
                &&& r matches Err(e)
                &&& e@ == unreachable_stack(stack_id)
                &&& final(self)@ == old(self)@
            } else if old(self)@[stack_id.raw].handle.state != StackState::Down {
                &&& r matches Err(e)
                &&& e@ == LaunchErrorView::StackNotTerminal {
                    stack_id: crockford_text(stack_id.raw),
                    state: old(self)@[stack_id.raw].handle.state.label(),
                }
                &&& final(self)@ == old(self)@
            } else {
                &&& r is Ok
                &&& final(self)@ == old(self)@.remove(stack_id.raw)
            },
    {
        let ghost m = stacks_in(self.stacks);
        let ghost before = self@;
        let entry = match stacks_remove(&mut self.stacks, stack_id.raw) {
            Some(e) => e,
            None => {
                assert(m.remove(stack_id.raw) =~= m);
                return Err(stack_unreachable(stack_id));
            },
        };
        if entry.handle.state != StackState::Down {
            let state = entry.handle.state.name().to_owned();
            stacks_insert(&mut self.stacks, stack_id.raw, entry);
            assert(stacks_in(self.stacks) =~= m);
            return Err(
                LaunchError::StackNotTerminal { stack_id: stack_id.to_crockford(), state },
            );
        }
        assert(self@ =~= before.remove(stack_id.raw));
        Ok(())
    }
}

/// Whether a plan is the one that reloads a stack from a new profile.
pub open spec fn plans_reload(e: EntryView, new: ProfileView, plan: ReloadPlan) -> bool {
    &&& reports(e.profile, new, plan.report)
    &&& listed(
        new,
        added_set(e.profile, new).union(restart_set(e.profile, new)),
        texts(plan.start@),
    )
    &&& exists|v: Seq<Seq<char>>| #[trigger]
        teardown_order(e.profile, v) && plan.stop@ == jobs_of(
            only(
                v,
                (texts(plan.report.removed@) + texts(plan.report.restarted@)).to_set(),
            ),
            e.job_ids,
        )
}

/// The stack after a reload.
pub open spec fn reloaded(
    e: EntryView,
    new: ProfileView,
    removed: Seq<Seq<char>>,
    spawned: Seq<Spawned>,
    now: Seq<char>,
) -> EntryView {
    let filed = with_spawned(without_all(e, removed), spawned);
    (EntryView { profile: new, ..filed }).with_event(
        LaunchEventKind::Restarting,
        None,
        "stack reloaded"@,
        now,
    )
}

// ---- Catalog ---------------------------------------------------------------

/// What a listing says of a service.
#[derive(Debug)]
pub struct ServiceCatalogEntry {
    pub name: String,
    pub command: Vec<String>,
    pub depends_on: Vec<String>,
    pub required: bool,
}

/// Whether an entry is the one of a service.
pub open spec fn catalogued(e: ServiceCatalogEntry, name: Seq<char>, s: ServiceView) -> bool {
    &&& e.name@ == name
    &&& s.command == crate::launch::profile::CommandView::Argv(texts(e.command@))
    &&& texts(e.depends_on@) == s.depends_on
    &&& e.required == s.required
}

/// Lists the services of a profile, in ascending order. A profile whose dependencies
/// form a cycle, or that runs a line for a shell, is refused.
pub fn catalog(profile: &LaunchProfile) -> (r: Result<Vec<ServiceCatalogEntry>, LaunchError>)
    requires
        profile.wf(),
    ensures
        ({
            let p = profile@;
            let shell = exists|i: int|
                0 <= i < p.count() && (#[trigger] p.services[i]).command is Shell;
            &&& r is Ok <==> !cyclic(p) && !shell
            &&& r matches Err(e) ==> e@ == (if cyclic(p) {
                LaunchErrorView::CycleDetected
            } else {
                crate::launch::profile::shell_refused()
            })
            &&& r matches Ok(v) ==> v@.len() == p.count() && forall|i: int|
                0 <= i < p.count() ==> catalogued(#[trigger] v@[i], p.names[i], p.services[i])
            &&& r matches Ok(v) ==> forall|i: int|
                0 <= i < p.count() ==> {
                    let c = #[trigger] v@[i];
                    let s = p.services[i];
                    &&& c.name@ == p.names[i]
                    &&& s.command matches CommandView::Argv(argv) && texts(c.command@) == argv
                    &&& texts(c.depends_on@) == s.depends_on
                    &&& c.required == s.required
                }
        }),
{
    let ghost p = profile@;
    match profile.topological_order() {
        Ok(_order) => {
            assert(p.start_order(crate::launch::profile::places(_order@)));
        },
        Err(e) => {
            return Err(e);
        },
    }
    let mut v: Vec<ServiceCatalogEntry> = Vec::new();
    while v.len() < profile.services.len()
        invariant
            profile.wf(),
            p == profile@,
            !cyclic(p),
            v@.len() <= p.count(),
            forall|k: int|
                0 <= k < v@.len() ==> catalogued(#[trigger] v@[k], p.names[k], p.services[k]),
            forall|k: int| 0 <= k < v@.len() ==> !((#[trigger] p.services[k]).command is Shell),
        decreases p.count() - v@.len(),
    {
        let i = v.len();
        let service = profile.services.val_at(i);
        assert(p.services[i as int] == service@);
        let command = match service.command.argv() {
            Ok(argv) => copy_texts(argv),
            Err(e) => {
                return Err(e);
            },
        };
        let entry = ServiceCatalogEntry {
            name: profile.services.name_at(i).clone(),
            command,
            depends_on: copy_texts(&service.depends_on),
            required: service.required,
        };
        v.push(entry);
    }
    Ok(v)
}

// ---- Supervisors ------------------------------------------------------------

/// How long a supervisor process may take to show itself, in milliseconds.
pub const SUPERVISOR_READY_TIMEOUT_MS: u64 = 10_000;

/// How often it is looked for.
pub const SUPERVISOR_POLL_INTERVAL_MS: u64 = 100;

/// What a wait for a supervisor process does next.
#[derive(Debug)]
pub enum SupervisorStep {
    Ready,
    GiveUp(LaunchError),
    Sleep,
}

/// Decides a round of the wait for a supervisor process: it has shown itself once it has
/// published a record with the hash that is expected; a wait whose time is over is given
/// up.
pub fn supervisor_ready_step(
    published: Option<&SupervisorRegistry>,
    expected_hash: &str,
    over: bool,
    stack_id: StackId,
) -> (r: SupervisorStep)
    ensures
        ({
            let shown = published is Some && published->0@.config_hash == expected_hash@;
            if shown {
                r is Ready
            } else if over {
                r matches SupervisorStep::GiveUp(e) && e@ == unreachable_stack(stack_id)
            } else {
                r is Sleep
            }
        }),
{
    match published {
        Some(registry) => {
            if text::same_text(registry.config_hash.as_str(), expected_hash) {
                return SupervisorStep::Ready;
            }
        },
        None => {},
    }
    if over {
        SupervisorStep::GiveUp(stack_unreachable(stack_id))
    } else {
        SupervisorStep::Sleep
    }
}

// ---- Profiles --------------------------------------------------------------

/// The path of a profile where none is given.
pub fn default_profile_path() -> (r: String)
    ensures
        r@ == ".substrate.toml"@,
{
    ".substrate.toml".to_owned()
}

/// The directory whose files tell the type of a project: the one that holds the profile,
/// or the current one.
pub open spec fn project_dir_of(target: Seq<u8>) -> Seq<u8> {
    match paths::parent_of(target) {
        Some(dir) => if dir.len() == 0 {
            seq![paths::DOT]
        } else {
            dir
        },
        None => seq![paths::DOT],
    }
}

/// The directory whose files tell the type of a project.
pub fn project_dir(target: &[u8]) -> (r: Vec<u8>)
    ensures
        r@ == project_dir_of(target@),
        match paths::parent_of(target@) {
            Some(dir) => r@ == if dir.len() > 0 {
                dir
            } else {
                seq![46u8]
            },
            None => r@ == seq![46u8],
        },
{
    let dir = match paths::parent(target) {
        Some(dir) => dir,
        None => Vec::new(),
    };
    if dir.len() > 0 {
        return dir;
    }
    let mut v: Vec<u8> = Vec::new();
    v.push(paths::DOT);
    assert(v@ =~= seq![paths::DOT]);
    v
}

/// The type of a project, told by the files beside the profile.
pub fn detect_project_type(has_cargo_toml: bool, has_package_json: bool) -> (r: Option<String>)
    ensures
        has_cargo_toml ==> (r matches Some(s) && s@ == "rust"@),
        !has_cargo_toml && has_package_json ==> (r matches Some(s) && s@ == "node"@),
        !has_cargo_toml && !has_package_json ==> r is None,
        opt_text(r) == (if has_cargo_toml {
            Some("rust"@)
        } else if has_package_json {
            Some("node"@)
        } else {
            None
        }),
{
    if has_cargo_toml {
        return Some("rust".to_owned());
    }
    if has_package_json {
        return Some("node".to_owned());
    }
    None
}

/// Who owns a stack that is brought up, and how it ends.
pub fn effective_policy(asked: Option<DisconnectPolicy>, profile: &LaunchProfile) -> (r:
    DisconnectPolicy)
    ensures
        r == (match asked {
            Some(p) => p,
            None => profile@.on_client_disconnect,
        }),
{
    match asked {
        Some(p) => p,
        None => profile.on_client_disconnect,
    }
}

// ---- What holds of stacks ----------------------------------------------------

/// A stack that was taken down can be forgotten, and all its services are recorded as
/// cancelled.
pub proof fn taken_down_stacks_are_down(e: EntryView, names: Seq<Seq<char>>, now: Seq<char>)
    ensures
        taken_down(e, names, now).handle.state == StackState::Down,
        forall|i: int|
            0 <= i < names.len() ==> taken_down(e, names, now).handle.services.contains_key(
                #[trigger] names[i],
            ) && taken_down(e, names, now).handle.services[names[i]] == SubprocessState::Cancelled,
{
    lemma_with_all(e.with_state(StackState::Draining), names, SubprocessState::Cancelled);
}

proof fn lemma_with_all(e: EntryView, names: Seq<Seq<char>>, state: SubprocessState)
    ensures
        forall|i: int|
            0 <= i < names.len() ==> with_all(e, names, state).handle.services.contains_key(
                #[trigger] names[i],
            ) && with_all(e, names, state).handle.services[names[i]] == state,
    decreases names.len(),
{
    if names.len() > 0 {
        lemma_with_all(e, names.drop_last(), state);
        assert forall|i: int| 0 <= i < names.len() implies with_all(
            e,
            names,
            state,
        ).handle.services.contains_key(#[trigger] names[i]) && with_all(
            e,
            names,
            state,
        ).handle.services[names[i]] == state by {
            if i < names.len() - 1 {
                assert(names[i] == names.drop_last()[i]);
            }
        }
    }
}

/// The cursor that a log ends with leads on to exactly the events that come later.
pub proof fn log_cursor_leads_on(events: Seq<crate::launch::stack::EventView>, seq: u64)
    requires
        crate::launch::stack::numbered(events),
        seq < events.len(),
    ensures
        text::u64_in(events[seq as int].cursor) == Some(seq),
        tail_of(events, None, text::u64_in(events[seq as int].cursor)) == events.skip(seq + 1),
{
    text::decimal_round_trip(seq);
    assert(events[seq as int].cursor == text::decimal(seq as nat));
    lemma_tail_is_skip(events, seq);
}

proof fn lemma_tail_is_skip(events: Seq<crate::launch::stack::EventView>, seq: u64)
    requires
        forall|i: int| 0 <= i < events.len() ==> (#[trigger] events[i]).seq == i,
    ensures
        tail_of(events, None, Some(seq)) == (if seq + 1 <= events.len() {
            events.skip(seq + 1)
        } else {
            Seq::empty()
        }),
    decreases events.len(),
{
    if events.len() > 0 {
        let front = events.drop_last();
        assert(events.last() == events[events.len() - 1]);
        assert forall|i: int| 0 <= i < front.len() implies (#[trigger] front[i]).seq == i by {
            assert(front[i] == events[i]);
        }
        lemma_tail_is_skip(front, seq);
        assert(tail_of(events, None, Some(seq)) =~= (if seq + 1 <= events.len() {
            events.skip(seq + 1)
        } else {
            Seq::empty()
        }));
    }
}

/// A reload stops the processes of all services that are gone or start anew, and no others.
pub proof fn reloads_stop_what_is_gone_or_restarted(
    e: EntryView,
    new: ProfileView,
    plan: ReloadPlan,
    n: Seq<char>,
    job: u128,
)
    requires
        e.profile.wf(),
        new.wf(),
        !cyclic(e.profile),
        plans_reload(e, new, plan),
    ensures
        e.profile.names.contains(n) && e.job_ids.contains_key(n) && (texts(
            plan.report.removed@,
        ).contains(n) || texts(plan.report.restarted@).contains(n)) ==> plan.stop@.contains(
            e.job_ids[n],
        ),
        plan.stop@.contains(job) ==> exists|m: Seq<char>| #[trigger]
            e.job_ids.contains_key(m) && e.job_ids[m] == job && (texts(
                plan.report.removed@,
            ).contains(m) || texts(plan.report.restarted@).contains(m)),
{
    let removed = texts(plan.report.removed@);
    let restarted = texts(plan.report.restarted@);
    let both = removed + restarted;
    let v = choose|v: Seq<Seq<char>>| #[trigger]
        teardown_order(e.profile, v) && plan.stop@ == jobs_of(only(v, both.to_set()), e.job_ids);
    let stop = only(v, both.to_set());
    dependents_are_taken_down_first(e.profile, v);
    kept_names_stay_in_order(v, Seq::empty(), both.to_set());
    processes_follow_their_services(stop, Seq::empty(), e.job_ids);
    if e.profile.names.contains(n) && e.job_ids.contains_key(n) && (removed.contains(n)
        || restarted.contains(n)) {
        lemma_in_both(removed, restarted, n);
        assert(both.to_set().contains(n));
        assert(v.contains(n));
        assert(stop.contains(n));
        let a = choose|a: int| 0 <= a < stop.len() && stop[a] == n;
        assert(e.job_ids.contains_key(stop[a]));
    }
    if plan.stop@.contains(job) {
        let m = lemma_job_has_a_service(stop, e.job_ids, job);
        assert(both.to_set().contains(m));
        lemma_in_both(removed, restarted, m);
    }
}

proof fn lemma_in_both(a: Seq<Seq<char>>, b: Seq<Seq<char>>, n: Seq<char>)
    ensures
        (a + b).contains(n) <==> a.contains(n) || b.contains(n),
{
    let both = a + b;
    if a.contains(n) {
        let i = choose|i: int| 0 <= i < a.len() && a[i] == n;
        assert(both[i] == n);
    }
    if b.contains(n) {
        let i = choose|i: int| 0 <= i < b.len() && b[i] == n;
        assert(both[a.len() + i] == n);
    }
    if both.contains(n) {
        let i = choose|i: int| 0 <= i < both.len() && both[i] == n;
        if i < a.len() {
            assert(a[i] == n);
        } else {
            assert(b[i - a.len()] == n);
        }
    }
}

proof fn lemma_job_has_a_service(
    names: Seq<Seq<char>>,
    jobs: Map<Seq<char>, u128>,
    job: u128,
) -> (n: Seq<char>)
    requires
        jobs_of(names, jobs).contains(job),
    ensures
        names.contains(n),
        jobs.contains_key(n),
        jobs[n] == job,
    decreases names.len(),
{
    let all = jobs_of(names, jobs);
    let i = choose|i: int| 0 <= i < all.len() && all[i] == job;
    let front = names.drop_last();
    let before = jobs_of(front, jobs);
    if i < before.len() {
        assert(before[i] == job);
        assert(before.contains(job));
        let n = lemma_job_has_a_service(front, jobs, job);
        lemma_last_or_before(names, n);
        n
    } else {
        lemma_last_or_before(names, names.last());
        names.last()
    }
}

/// Removing services takes them, and their processes, out of a stack, and leaves all else as it is.
pub proof fn removals_leave_the_others_alone(e: EntryView, names: Seq<Seq<char>>, n: Seq<char>)
    ensures
        ({
            let after = without_all(e, names);
            &&& after.handle.services.contains_key(n) <==> e.handle.services.contains_key(n)
                && !names.contains(n)
            &&& after.job_ids.contains_key(n) <==> e.job_ids.contains_key(n) && !names.contains(n)
            &&& !names.contains(n) ==> after.handle.services[n] == e.handle.services[n]
                && after.job_ids[n] == e.job_ids[n]
            &&& after.events == e.events
            &&& after.profile == e.profile
            &&& after.handle == (HandleView { services: after.handle.services, ..e.handle })
        }),
    decreases names.len(),
{
    if names.len() > 0 {
        let front = names.drop_last();
        removals_leave_the_others_alone(e, front, n);
        lemma_last_or_before(names, n);
    }
}

proof fn lemma_last_or_before(names: Seq<Seq<char>>, n: Seq<char>)
    requires
        names.len() > 0,
    ensures
        names.contains(n) <==> names.drop_last().contains(n) || names.last() == n,
{
    let front = names.drop_last();
    if names.contains(n) {
        let i = choose|i: int| 0 <= i < names.len() && names[i] == n;
        if i < front.len() {
            assert(front[i] == n);
        }
    }
    if front.contains(n) {
        let i = choose|i: int| 0 <= i < front.len() && front[i] == n;
        assert(names[i] == n);
    }
    if names.last() == n {
        assert(names[names.len() - 1] == n);
    }
}

/// Setting the state of services sets it for each that is named, and leaves all else as it is.
pub proof fn states_are_set_for_those_named(
    e: EntryView,
    names: Seq<Seq<char>>,
    state: SubprocessState,
    n: Seq<char>,
)
    ensures
        ({
            let after = with_all(e, names, state);
            &&& after.handle.services.contains_key(n) <==> e.handle.services.contains_key(n)
                || names.contains(n)
            &&& names.contains(n) ==> after.handle.services[n] == state
            &&& !names.contains(n) ==> after.handle.services[n] == e.handle.services[n]
            &&& after.job_ids == e.job_ids
            &&& after.events == e.events
            &&& after.profile == e.profile
            &&& after.handle == (HandleView { services: after.handle.services, ..e.handle })
        }),
    decreases names.len(),
{
    if names.len() > 0 {
        states_are_set_for_those_named(e, names.drop_last(), state, n);
        lemma_last_or_before(names, n);
    }
}

/// What was started is filed service by service, with its process and with what became of it; a
/// later start of a service takes the place of an earlier one.
pub proof fn starts_are_filed_one_by_one(e: EntryView, spawned: Seq<Spawned>, s: Spawned)
    ensures
        with_spawned(e, Seq::empty()) == e,
        with_spawned(e, spawned.push(s)).job_ids == with_spawned(e, spawned).job_ids.insert(
            s.name@,
            s.job_id,
        ),
        with_spawned(e, spawned.push(s)).handle.services == with_spawned(
            e,
            spawned,
        ).handle.services.insert(
            s.name@,
            if s.outcome == ServiceOutcome::Ready {
                SubprocessState::Ready
            } else {
                SubprocessState::Failed
            },
        ),
        with_spawned(e, spawned).events == e.events,
        with_spawned(e, spawned).profile == e.profile,
        with_spawned(e, spawned).handle == (HandleView {
            services: with_spawned(e, spawned).handle.services,
            ..e.handle
        }),
    decreases spawned.len(),
{
    assert(spawned.push(s).drop_last() =~= spawned);
    if spawned.len() > 0 {
        starts_are_filed_one_by_one(e, spawned.drop_last(), s);
    }
}

/// A reloaded stack has the new profile; what was removed and not started again is gone, what was
/// neither removed nor started is as it was, and the reload is told in one event.
pub proof fn reloads_are_recorded(
    e: EntryView,
    new: ProfileView,
    removed: Seq<Seq<char>>,
    spawned: Seq<Spawned>,
    now: Seq<char>,
    n: Seq<char>,
)
    requires
        forall|i: int| 0 <= i < spawned.len() ==> (#[trigger] spawned[i]).name@ != n,
    ensures
        ({
            let after = reloaded(e, new, removed, spawned, now);
            &&& after.profile == new
            &&& after.events.len() == e.events.len() + 1
            &&& after.events.drop_last() == e.events
            &&& after.events.last().kind == LaunchEventKind::Restarting
            &&& after.events.last().service is None
            &&& after.events.last().message == "stack reloaded"@
            &&& after.events.last().timestamp == now
            &&& after.handle.state == e.handle.state
            &&& after.handle.services.contains_key(n) <==> e.handle.services.contains_key(n)
                && !removed.contains(n)
            &&& after.job_ids.contains_key(n) <==> e.job_ids.contains_key(n) && !removed.contains(n)
            &&& !removed.contains(n) ==> after.handle.services[n] == e.handle.services[n]
                && after.job_ids[n] == e.job_ids[n]
        }),
{
    let base = without_all(e, removed);
    removals_leave_the_others_alone(e, removed, n);
    lemma_not_started(base, spawned, n);
    let filed = with_spawned(base, spawned);
    if spawned.len() > 0 {
        starts_are_filed_one_by_one(base, spawned.drop_last(), spawned.last());
        assert(spawned.drop_last().push(spawned.last()) =~= spawned);
    }
    let after = reloaded(e, new, removed, spawned, now);
    assert(after.events.drop_last() =~= filed.events);
}

proof fn lemma_not_started(e: EntryView, spawned: Seq<Spawned>, n: Seq<char>)
    requires
        forall|i: int| 0 <= i < spawned.len() ==> (#[trigger] spawned[i]).name@ != n,
    ensures
        ({
            let after = with_spawned(e, spawned);
            &&& after.handle.services.contains_key(n) <==> e.handle.services.contains_key(n)
            &&& after.job_ids.contains_key(n) <==> e.job_ids.contains_key(n)
            &&& after.handle.services[n] == e.handle.services[n]
            &&& after.job_ids[n] == e.job_ids[n]
            &&& after.events == e.events
            &&& after.handle.state == e.handle.state
        }),
    decreases spawned.len(),
{
    if spawned.len() > 0 {
        let front = spawned.drop_last();
        assert forall|i: int| 0 <= i < front.len() implies (#[trigger] front[i]).name@ != n by {
            assert(front[i] == spawned[i]);
        }
        assert(spawned[spawned.len() - 1].name@ != n);
        lemma_not_started(e, front, n);
    }
}

/// A stack that was taken down keeps its processes' numbers and its profile, and its log tells of
/// it in one event; services that were not taken down with it stay as they were.
pub proof fn taking_down_is_recorded(
    e: EntryView,
    names: Seq<Seq<char>>,
    now: Seq<char>,
    n: Seq<char>,
)
    ensures
        ({
            let after = taken_down(e, names, now);
            &&& after.handle.state == StackState::Down
            &&& names.contains(n) ==> after.handle.services.contains_key(n)
                && after.handle.services[n] == SubprocessState::Cancelled
            &&& !names.contains(n) ==> (after.handle.services.contains_key(n)
                <==> e.handle.services.contains_key(n)) && after.handle.services[n]
                == e.handle.services[n]
            &&& after.job_ids == e.job_ids
            &&& after.profile == e.profile
            &&& after.events.len() == e.events.len() + 1
            &&& after.events.drop_last() == e.events
            &&& after.events.last().kind == LaunchEventKind::Exited
            &&& after.events.last().service is None
            &&& after.events.last().message == "stack drained and brought down"@
            &&& after.events.last().timestamp == now
        }),
{
    let draining = e.with_state(StackState::Draining);
    states_are_set_for_those_named(draining, names, SubprocessState::Cancelled, n);
    let after = taken_down(e, names, now);
    assert(after.events.drop_last() =~= e.events);
}

/// A stack that a supervisor owns is detached, names its supervisor, and has the services that the
/// supervisor watches running, and the others as they were.
pub proof fn detached_stacks_name_their_supervisor(
    fresh: EntryView,
    registry: SupervisorView,
    now: Seq<char>,
    i: int,
    n: Seq<char>,
)
    ensures
        ({
            let after = detached_entry(fresh, registry, now);
            &&& after.handle.state == StackState::Detached
            &&& after.handle.supervisor == Some(registry)
            &&& 0 <= i < registry.children.len() ==> after.handle.services.contains_key(
                registry.children[i].name@,
            ) && after.handle.services[registry.children[i].name@] == SubprocessState::Running
            &&& (forall|j: int|
                0 <= j < registry.children.len() ==> (#[trigger] registry.children[j]).name@ != n)
                ==> (after.handle.services.contains_key(n)
                <==> fresh.handle.services.contains_key(n)) && after.handle.services[n]
                == fresh.handle.services[n]
            &&& after.job_ids == fresh.job_ids
            &&& after.profile == fresh.profile
            &&& after.events.drop_last() == fresh.events
            &&& after.events.last().kind == LaunchEventKind::Started
            &&& after.events.last().service is None
            &&& after.events.last().message == "detached supervisor pid "@ + signed_decimal(
                registry.supervisor_pid as int,
            ) + " owns the stack"@
            &&& after.events.last().timestamp == now
        }),
{
    let names = registry.children.map_values(|c: crate::launch::stack::StackChild| c.name@);
    let start = fresh.with_state(StackState::Detached);
    let after = detached_entry(fresh, registry, now);
    if 0 <= i < registry.children.len() {
        assert(names[i] == registry.children[i].name@);
        assert(names.contains(registry.children[i].name@));
        states_are_set_for_those_named(
            start,
            names,
            SubprocessState::Running,
            registry.children[i].name@,
        );
    }
    states_are_set_for_those_named(start, names, SubprocessState::Running, n);
    if names.contains(n) {
        let j = choose|j: int| 0 <= j < names.len() && names[j] == n;
        assert(registry.children[j].name@ == n);
    }
    assert(after.events.drop_last() =~= fresh.events);
}

} // verus!
