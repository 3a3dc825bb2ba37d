//! One stack: its services' states, its processes and its event log.
use crate::errors::{LaunchError, LaunchErrorView};
use crate::ids::StackId;
use crate::launch::names::{texts, NameMap};
use crate::launch::profile::{opt_text, DisconnectPolicy, LaunchProfile, ProfileView};
use crate::launch::redaction::{redacted, Redactor};
use crate::launch::supervisor::SubprocessState;
use crate::text;
use vstd::prelude::*;

verus! {

/// The state of a stack.
#[derive(Debug, Clone, Copy, PartialEq, Eq, Structural)]
pub enum StackState {
    Pending,
    Starting,
    Running,
    /// Up, but a service that is not required failed.
    Degraded,
    Draining,
    Down,
    /// Owned by a supervisor process of its own.
    Detached,
}

impl StackState {
    /// The name of the state.
    pub open spec fn label(self) -> Seq<char> {
        match self {
            StackState::Pending => "pending"@,
            StackState::Starting => "starting"@,
            StackState::Running => "running"@,
            StackState::Degraded => "degraded"@,
            StackState::Draining => "draining"@,
            StackState::Down => "down"@,
            StackState::Detached => "detached"@,
        }
    }

    /// The name of the state.
    pub fn name(&self) -> (r: &'static str)
        ensures
            r@ == self.label(),
            match self {
                StackState::Pending => r@ == "pending"@,
                StackState::Starting => r@ == "starting"@,
                StackState::Running => r@ == "running"@,
                StackState::Degraded => r@ == "degraded"@,
                StackState::Draining => r@ == "draining"@,
                StackState::Down => r@ == "down"@,
                StackState::Detached => r@ == "detached"@,
            },
    {
        match self {
            StackState::Pending => "pending",
            StackState::Starting => "starting",
            StackState::Running => "running",
            StackState::Degraded => "degraded",
            StackState::Draining => "draining",
            StackState::Down => "down",
            StackState::Detached => "detached",
        }
    }
}

/// A process that a supervisor watches, as it is recorded.
#[derive(Debug)]
pub struct StackChild {
    pub name: String,
    pub pid: i32,
    pub pgid: i32,
    /// When the process started, as the system counts it.
    pub start_epoch: u64,
}

impl StackChild {
    /// Copies the record.
    pub fn copied(&self) -> (r: StackChild)
        ensures
            r == *self,
    {
        StackChild {
            name: self.name.clone(),
            pid: self.pid,
            pgid: self.pgid,
            start_epoch: self.start_epoch,
        }
    }
}

/// What a supervisor records of itself and its processes.
#[derive(Debug)]
pub struct SupervisorRegistry {
    pub supervisor_pid: i32,
    pub start_epoch: u64,
    pub policy: DisconnectPolicy,
    pub config_hash: String,
    pub children: Vec<StackChild>,
}

/// What contracts say of a [`SupervisorRegistry`].
#[verifier::ext_equal]
pub struct SupervisorView {
    pub supervisor_pid: i32,
    pub start_epoch: u64,
    pub policy: DisconnectPolicy,
    pub config_hash: Seq<char>,
    pub children: Seq<StackChild>,
}

impl View for SupervisorRegistry {
    type V = SupervisorView;

    open spec fn view(&self) -> SupervisorView {
        SupervisorView {
            supervisor_pid: self.supervisor_pid,
            start_epoch: self.start_epoch,
            policy: self.policy,
            config_hash: self.config_hash@,
            children: self.children@,
        }
    }
}

/// What is said of a supervisor is what its fields hold.
pub proof fn supervisors_are_seen_as_recorded(g: SupervisorRegistry)
    ensures
        g@.supervisor_pid == g.supervisor_pid,
        g@.start_epoch == g.start_epoch,
        g@.policy == g.policy,
        g@.config_hash == g.config_hash@,
        g@.children == g.children@,
{
}

/// Copies a list of records.
pub fn copy_children(v: &Vec<StackChild>) -> (r: Vec<StackChild>)
    ensures
        r@ == v@,
{
    let mut r: Vec<StackChild> = Vec::new();
    let mut i: usize = 0;
    while i < v.len()
        invariant
            i <= v@.len(),
            r@ == v@.take(i as int),
        decreases v@.len() - i,
    {
        r.push(v[i].copied());
        i = i + 1;
        assert(r@ =~= v@.take(i as int));
    }
    assert(r@ =~= v@);
    r
}

impl SupervisorRegistry {
    /// Copies the record.
    pub fn copied(&self) -> (r: SupervisorRegistry)
        ensures
            r@ == self@,
    {
        SupervisorRegistry {
            supervisor_pid: self.supervisor_pid,
            start_epoch: self.start_epoch,
            policy: self.policy,
            config_hash: self.config_hash.clone(),
            children: copy_children(&self.children),
        }
    }
}

/// What clients see of a stack.
#[derive(Debug)]
pub struct StackHandle {
    pub stack_id: StackId,
    pub profile_path: String,
    pub config_hash: String,
    pub policy: DisconnectPolicy,
    pub state: StackState,
    pub services: NameMap<SubprocessState>,
    pub supervisor: Option<SupervisorRegistry>,
}

/// What contracts say of a [`StackHandle`].
#[verifier::ext_equal]
pub struct HandleView {
    pub stack_id: StackId,
    pub profile_path: Seq<char>,
    pub config_hash: Seq<char>,
    pub policy: DisconnectPolicy,
    pub state: StackState,
    pub services: Map<Seq<char>, SubprocessState>,
    pub supervisor: Option<SupervisorView>,
}

impl View for StackHandle {
    type V = HandleView;

    open spec fn view(&self) -> HandleView {
        HandleView {
            stack_id: self.stack_id,
            profile_path: self.profile_path@,
            config_hash: self.config_hash@,
            policy: self.policy,
            state: self.state,
            services: self.services@,
            supervisor: match self.supervisor {
                Some(s) => Some(s@),
                None => None,
            },
        }
    }
}

/// What is said of a handle is what its fields hold.
pub proof fn handles_are_seen_as_recorded(h: StackHandle)
    ensures
        h@.stack_id == h.stack_id,
        h@.profile_path == h.profile_path@,
        h@.config_hash == h.config_hash@,
        h@.policy == h.policy,
        h@.state == h.state,
        h@.services == h.services@,
        match h.supervisor {
            Some(x) => h@.supervisor == Some(x@),
            None => h@.supervisor is None,
        },
{
}

/// Copies the states of services.
fn copy_states(m: &NameMap<SubprocessState>) -> (r: NameMap<SubprocessState>)
    requires
        m.wf(),
    ensures
        r.wf(),
        r@ == m@,
{
    let mut r: NameMap<SubprocessState> = NameMap::new();
    let mut i: usize = 0;
    proof {
        assert(r.vals() =~= m.vals().take(0));
        assert(r.names() =~= m.names().take(0));
    }
    while i < m.len()
        invariant
            m.wf(),
            r.wf(),
            i <= m.names().len(),
            r.names() == m.names().take(i as int),
            r.vals() == m.vals().take(i as int),
        decreases m.names().len() - i,
    {
        r.append(m.name_at(i).clone(), *m.val_at(i));
        i = i + 1;
        proof {
            assert(r.names() =~= m.names().take(i as int));
            assert(r.vals() =~= m.vals().take(i as int));
        }
    }
    proof {
        assert(r.names() =~= m.names());
        assert(r.vals() =~= m.vals());
    }
    r
}

impl StackHandle {
    /// Copies the handle.
    pub fn copied(&self) -> (r: StackHandle)
        requires
            self.services.wf(),
        ensures
            r@ == self@,
            r.services.wf(),
    {
        StackHandle {
            stack_id: self.stack_id,
            profile_path: self.profile_path.clone(),
            config_hash: self.config_hash.clone(),
            policy: self.policy,
            state: self.state,
            services: copy_states(&self.services),
            supervisor: match &self.supervisor {
                Some(s) => Some(s.copied()),
                None => None,
            },
        }
    }
}

// ---- Events ----------------------------------------------------------------

/// What happened in a stack.
#[derive(Debug, Clone, Copy, PartialEq, Eq, Structural)]
pub enum LaunchEventKind {
    Started,
    Ready,
    Crashed,
    Restarting,
    Exited,
    Semantic,
}

/// Which output of a service an event comes from.
#[derive(Debug, Clone, Copy, PartialEq, Eq, Structural)]
pub enum Stream {
    Stdout,
    Stderr,
}

/// An event of a stack.
#[derive(Debug)]
pub struct LaunchEvent {
    pub stack_id: StackId,
    pub service: Option<String>,
    pub kind: LaunchEventKind,
    pub seq: u64,
    /// The number as text: the cursor that leads to what comes after.
    pub cursor: String,
    pub stream: Option<Stream>,
    pub message: String,
    pub exit_code: Option<i32>,
    pub timestamp: String,
}

impl LaunchEvent {
    /// Copies the event.
    pub fn copied(&self) -> (r: LaunchEvent)
        ensures
            r == *self,
    {
        LaunchEvent {
            stack_id: self.stack_id,
            service: match &self.service {
                Some(s) => Some(s.clone()),
                None => None,
            },
            kind: self.kind,
            seq: self.seq,
            cursor: self.cursor.clone(),
            stream: self.stream,
            message: self.message.clone(),
            exit_code: self.exit_code,
            timestamp: self.timestamp.clone(),
        }
    }
}

/// What contracts say of a [`LaunchEvent`].
#[verifier::ext_equal]
pub struct EventView {
    pub stack_id: StackId,
    pub service: Option<Seq<char>>,
    pub kind: LaunchEventKind,
    pub seq: u64,
    pub cursor: Seq<char>,
    pub stream: Option<Stream>,
    pub message: Seq<char>,
    pub exit_code: Option<i32>,
    pub timestamp: Seq<char>,
}

impl View for LaunchEvent {
    type V = EventView;

    open spec fn view(&self) -> EventView {
        EventView {
            stack_id: self.stack_id,
            service: opt_text(self.service),
            kind: self.kind,
            seq: self.seq,
            cursor: self.cursor@,
            stream: self.stream,
            message: self.message@,
            exit_code: self.exit_code,
            timestamp: self.timestamp@,
        }
    }
}

/// What is said of an event is what its fields hold.
pub proof fn events_are_seen_as_recorded(e: LaunchEvent)
    ensures
        e@.stack_id == e.stack_id,
        match e.service {
            Some(x) => e@.service == Some(x@),
            None => e@.service is None,
        },
        e@.kind == e.kind,
        e@.seq == e.seq,
        e@.cursor == e.cursor@,
        e@.stream == e.stream,
        e@.message == e.message@,
        e@.exit_code == e.exit_code,
        e@.timestamp == e.timestamp@,
{
}

/// The events of a list, one by one.
pub open spec fn event_views(v: Seq<LaunchEvent>) -> Seq<EventView> {
    Seq::new(v.len(), |i: int| v[i]@)
}

/// The events of a list are its own, one by one.
pub proof fn events_are_seen_one_by_one(v: Seq<LaunchEvent>)
    ensures
        event_views(v).len() == v.len(),
        forall|i: int| 0 <= i < v.len() ==> event_views(v)[i] == (#[trigger] v[i])@,
{
}

// ---- Stacks ----------------------------------------------------------------

/// A stack with all that belongs to it.
#[derive(Debug)]
pub struct StackEntry {
    pub handle: StackHandle,
    /// The profile that the stack was brought up from, or reloaded from.
    pub profile: LaunchProfile,
    /// The process of each service.
    pub job_ids: NameMap<u128>,
    pub events: Vec<LaunchEvent>,
}

/// What contracts say of a [`StackEntry`].
#[verifier::ext_equal]
pub struct EntryView {
    pub handle: HandleView,
    pub profile: ProfileView,
    pub job_ids: Map<Seq<char>, u128>,
    pub events: Seq<EventView>,
}

impl View for StackEntry {
    type V = EntryView;

    open spec fn view(&self) -> EntryView {
        EntryView {
            handle: self.handle@,
            profile: self.profile@,
            job_ids: self.job_ids@,
            events: event_views(self.events@),
        }
    }
}

/// What is said of a stack is what its fields hold.
pub proof fn stacks_are_seen_as_recorded(e: StackEntry)
    ensures
        e@.handle == e.handle@,
        e@.profile == e.profile@,
        e@.job_ids == e.job_ids@,
        e@.events == event_views(e.events@),
{
}

/// Whether events are numbered from 0 on, and each holds its number as a cursor.
pub open spec fn numbered(events: Seq<EventView>) -> bool {
    forall|i: int|
        0 <= i < events.len() ==> (#[trigger] events[i]).seq == i && events[i].cursor
            == text::decimal(i as nat)
}

/// An event with the next number.
pub open spec fn next_event(
    e: EntryView,
    kind: LaunchEventKind,
    service: Option<Seq<char>>,
    message: Seq<char>,
    now: Seq<char>,
) -> EventView {
    EventView {
        stack_id: e.handle.stack_id,
        service,
        kind,
        seq: e.events.len() as u64,
        cursor: text::decimal(e.events.len()),
        stream: None,
        message,
        exit_code: None,
        timestamp: now,
    }
}

impl EntryView {
    /// The stack with one more event.
    pub open spec fn with_event(
        self,
        kind: LaunchEventKind,
        service: Option<Seq<char>>,
        message: Seq<char>,
        now: Seq<char>,
    ) -> EntryView {
        EntryView {
            events: self.events.push(next_event(self, kind, service, message, now)),
            ..self
        }
    }

    /// The stack with a service in another state.
    pub open spec fn with_service(self, name: Seq<char>, state: SubprocessState) -> EntryView {
        EntryView {
            handle: HandleView { services: self.handle.services.insert(name, state), ..self.handle },
            ..self
        }
    }

    /// The stack in another state.
    pub open spec fn with_state(self, state: StackState) -> EntryView {
        EntryView { handle: HandleView { state, ..self.handle }, ..self }
    }

    /// The stack with the process of a service.
    pub open spec fn with_job(self, name: Seq<char>, job_id: u128) -> EntryView {
        EntryView { job_ids: self.job_ids.insert(name, job_id), ..self }
    }

    /// The stack without a service.
    pub open spec fn without_service(self, name: Seq<char>) -> EntryView {
        EntryView {
            handle: HandleView { services: self.handle.services.remove(name), ..self.handle },
            job_ids: self.job_ids.remove(name),
            ..self
        }
    }
}

/// A stack whose services were not started yet.
pub open spec fn fresh_entry(
    stack_id: StackId,
    profile_path: Seq<char>,
    config_hash: Seq<char>,
    policy: DisconnectPolicy,
    profile: ProfileView,
) -> EntryView {
    EntryView {
        handle: HandleView {
            stack_id,
            profile_path,
            config_hash,
            policy,
            state: StackState::Pending,
            services: Map::new(
                |n: Seq<char>| profile.names.contains(n),
                |n: Seq<char>| SubprocessState::Pending,
            ),
            supervisor: None,
        },
        profile,
        job_ids: Map::empty(),
        events: Seq::empty(),
    }
}

impl StackEntry {
    /// The maps are in order, and the events are numbered.
    pub open spec fn wf(&self) -> bool {
        &&& self.handle.services.wf()
        &&& self.profile.wf()
        &&& self.job_ids.wf()
        &&& numbered(self@.events)
    }

    /// A stack whose services were not started yet.
    pub fn new(
        stack_id: StackId,
        profile_path: String,
        config_hash: String,
        policy: DisconnectPolicy,
        profile: LaunchProfile,
    ) -> (r: StackEntry)
        requires
            profile.wf(),
        ensures
            r.wf(),
            r.profile == profile,
            r@ == fresh_entry(stack_id, profile_path@, config_hash@, policy, profile@),
            r.handle.stack_id == stack_id,
            r.handle.profile_path@ == profile_path@,
            r.handle.config_hash@ == config_hash@,
            r.handle.policy == policy,
            r.handle.state == StackState::Pending,
            r.handle.supervisor is None,
            forall|n: Seq<char>| #[trigger]
                r.handle.services@.contains_key(n) <==> profile@.names.contains(n),
            forall|n: Seq<char>| #[trigger]
                r.handle.services@.contains_key(n) ==> r.handle.services@[n]
                    == SubprocessState::Pending,
            r.job_ids@ == Map::<Seq<char>, u128>::empty(),
            r.events@.len() == 0,
    {
        let mut services: NameMap<SubprocessState> = NameMap::new();
        let mut i: usize = 0;
        let ghost names = profile@.names;
        proof {
            assert(services.names() =~= names.take(0));
        }
        while i < profile.services.len()
            invariant
                profile.wf(),
                names == profile.services.names(),
                services.wf(),
                i <= names.len(),
                services.names() == names.take(i as int),
                forall|k: int|
                    0 <= k < services.vals().len() ==> #[trigger] services.vals()[k]
                        == SubprocessState::Pending,
            decreases names.len() - i,
        {
            let ghost before = services.vals();
            services.append(profile.services.name_at(i).clone(), SubprocessState::Pending);
            i = i + 1;
            proof {
                assert(services.names() =~= names.take(i as int));
                assert(services.vals() =~= before.push(SubprocessState::Pending));
            }
        }
        proof {
            assert(services.names() =~= names);
            assert(services@ =~= Map::new(
                |n: Seq<char>| names.contains(n),
                |n: Seq<char>| SubprocessState::Pending,
            )) by {
                assert forall|n: Seq<char>| names.contains(n) implies #[trigger] services@[n]
                    == SubprocessState::Pending by {
                    let k = crate::launch::names::place(names, n);
                    assert(exists|j: int| 0 <= j < names.len() && names[j] == n);
                    assert(services.vals()[k] == SubprocessState::Pending);
                }
            }
        }
        let r = StackEntry {
            handle: StackHandle {
                stack_id,
                profile_path,
                config_hash,
                policy,
                state: StackState::Pending,
                services,
                supervisor: None,
            },
            profile,
            job_ids: NameMap::new(),
            events: Vec::new(),
        };
        proof {
            assert(r@.events =~= Seq::<EventView>::empty());
            assert(r@ =~= fresh_entry(stack_id, profile_path@, config_hash@, policy, profile@));
        }
        r
    }

    /// Records the state of a service.
    pub fn set_service(&mut self, name: &str, state: SubprocessState)
        requires
            old(self).wf(),
        ensures
            final(self).wf(),
            final(self).profile == old(self).profile,
            final(self)@ == old(self)@.with_service(name@, state),
            final(self).handle.services@ == old(self).handle.services@.insert(name@, state),
            final(self).handle.state == old(self).handle.state,
            final(self).job_ids == old(self).job_ids,
            final(self).events == old(self).events,
    {
        self.handle.services.insert(name.to_owned(), state);
    }

    /// Records the state of the stack.
    pub fn set_state(&mut self, state: StackState)
        requires
            old(self).wf(),
        ensures
            final(self).wf(),
            final(self).profile == old(self).profile,
            final(self)@ == old(self)@.with_state(state),
            final(self).handle.state == state,
            final(self).handle.services == old(self).handle.services,
            final(self).job_ids == old(self).job_ids,
            final(self).events == old(self).events,
    {
        self.handle.state = state;
    }

    /// Records the process of a service.
    pub fn set_job(&mut self, name: &str, job_id: u128)
        requires
            old(self).wf(),
        ensures
            final(self).wf(),
            final(self).profile == old(self).profile,
            final(self)@ == old(self)@.with_job(name@, job_id),
            final(self).job_ids@ == old(self).job_ids@.insert(name@, job_id),
            final(self).handle == old(self).handle,
            final(self).events == old(self).events,
    {
        self.job_ids.insert(name.to_owned(), job_id);
    }

    /// Adds an event with the next number.
    pub fn emit(&mut self, kind: LaunchEventKind, service: Option<&str>, message: String, now: &str)
        requires
            old(self).wf(),
        ensures
            final(self).wf(),
            final(self).profile == old(self).profile,
            final(self)@ == old(self)@.with_event(
                kind,
                crate::fs_query::response::str_of(service),
                message@,
                now@,
            ),
            final(self).handle == old(self).handle,
            final(self).job_ids == old(self).job_ids,
            final(self).events@.len() == old(self).events@.len() + 1,
            final(self).events@.drop_last() == old(self).events@,
            ({
                let e = final(self).events@.last();
                &&& e.stack_id == old(self).handle.stack_id
                &&& e.kind == kind
                &&& e.message@ == message@
                &&& e.timestamp@ == now@
                &&& e.seq == old(self).events@.len() as u64
                &&& e.cursor@ == text::decimal(old(self).events@.len())
                &&& e.stream is None && e.exit_code is None
                &&& match service {
                    Some(s) => e.service matches Some(x) && x@ == s@,
                    None => e.service is None,
                }
            }),
    {
        let seq: u64 = self.events.len() as u64;
        let ghost before = self@;
        let event = LaunchEvent {
            stack_id: self.handle.stack_id,
            service: match service {
                Some(s) => Some(s.to_owned()),
                None => None,
            },
            kind,
            seq,
            cursor: text::decimal_text(seq),
            stream: None,
            message,
            exit_code: None,
            timestamp: now.to_owned(),
        };
        let ghost v = event@;
        self.events.push(event);
        proof {
            assert(self@.events =~= before.events.push(v));
            assert forall|i: int| 0 <= i < self@.events.len() implies (
            #[trigger] self@.events[i]).seq == i && self@.events[i].cursor == text::decimal(
                i as nat,
            ) by {
                if i < before.events.len() {
                    assert(self@.events[i] == before.events[i]);
                }
            }
        }
    }

    /// Adds an event that a line of a service's output stands for, with the next number.
    /// What is to stay secret is masked before the line is stored.
    pub fn emit_semantic(&mut self, service: &str, raw_line: &str, redact: &Vec<String>, now: &str)
        requires
            old(self).wf(),
        ensures
            final(self).wf(),
            final(self).profile == old(self).profile,
            final(self)@ == (EntryView {
                events: old(self)@.events.push(
                    EventView {
                        stream: Some(Stream::Stdout),
                        ..next_event(
                            old(self)@,
                            LaunchEventKind::Semantic,
                            Some(service@),
                            redacted(raw_line@, texts(redact@)),
                            now@,
                        )
                    },
                ),
                ..old(self)@
            }),
            final(self).handle == old(self).handle,
            final(self).job_ids == old(self).job_ids,
            final(self).events@.drop_last() == old(self).events@,
            ({
                let e = final(self).events@.last();
                &&& final(self).events@.len() == old(self).events@.len() + 1
                &&& e.stack_id == old(self).handle.stack_id
                &&& e.kind == LaunchEventKind::Semantic
                &&& e.service matches Some(x) && x@ == service@
                &&& e.message@ == redacted(raw_line@, texts(redact@))
                &&& e.timestamp@ == now@
                &&& e.seq == old(self).events@.len() as u64
                &&& e.cursor@ == text::decimal(old(self).events@.len())
                &&& e.stream == Some(Stream::Stdout) && e.exit_code is None
            }),
    {
        let redactor = Redactor::new(&Vec::new(), redact);
        assert(redactor.secrets() =~= texts(redact@));
        let line = redactor.redact_line(raw_line);
        let seq: u64 = self.events.len() as u64;
        let ghost before = self@;
        let event = LaunchEvent {
            stack_id: self.handle.stack_id,
            service: Some(service.to_owned()),
            kind: LaunchEventKind::Semantic,
            seq,
            cursor: text::decimal_text(seq),
            stream: Some(Stream::Stdout),
            message: line,
            exit_code: None,
            timestamp: now.to_owned(),
        };
        let ghost v = event@;
        self.events.push(event);
        proof {
            assert(self@.events =~= before.events.push(v));
            assert forall|i: int| 0 <= i < self@.events.len() implies (
            #[trigger] self@.events[i]).seq == i && self@.events[i].cursor == text::decimal(
                i as nat,
            ) by {
                if i < before.events.len() {
                    assert(self@.events[i] == before.events[i]);
                }
            }
        }
    }

    /// The events after the number `floor`, where it is given, that are of `service`,
    /// where it is given.
    pub fn tail(&self, service: Option<&str>, floor: Option<u64>) -> (r: Vec<LaunchEvent>)
        ensures
            event_views(r@) == tail_of(
                self@.events,
                crate::fs_query::response::str_of(service),
                floor,
            ),
    {
        let mut r: Vec<LaunchEvent> = Vec::new();
        let mut i: usize = 0;
        let ghost all = self@.events;
        let ghost wanted = crate::fs_query::response::str_of(service);
        assert(event_views(r@) =~= tail_of(all.take(0), wanted, floor));
        while i < self.events.len()
            invariant
                all == self@.events,
                wanted == crate::fs_query::response::str_of(service),
                i <= self.events@.len(),
                event_views(r@) == tail_of(all.take(i as int), wanted, floor),
            decreases self.events@.len() - i,
        {
            let e = &self.events[i];
            let late = match floor {
                Some(f) => e.seq > f,
                None => true,
            };
            let meant = match service {
                Some(s) => match &e.service {
                    Some(t) => text::same_text(t.as_str(), s),
                    None => false,
                },
                None => true,
            };
            let ghost before = event_views(r@);
            proof {
                assert(all.take(i + 1).drop_last() =~= all.take(i as int));
                assert(all.take(i + 1).last() == e@);
            }
            if late && meant {
                let copy = e.copied();
                r.push(copy);
                assert(event_views(r@) =~= before.push(e@));
            }
            i = i + 1;
        }
        assert(all.take(i as int) =~= all);
        r
    }
}

/// Whether an event is after the number `floor`, where it is given, and of `service`,
/// where it is given.
pub open spec fn in_tail(e: EventView, service: Option<Seq<char>>, floor: Option<u64>) -> bool {
    &&& floor matches Some(f) ==> e.seq > f
    &&& service matches Some(s) ==> e.service == Some(s)
}

/// The events after the number `floor` that are of `service`.
pub open spec fn tail_of(events: Seq<EventView>, service: Option<Seq<char>>, floor: Option<u64>) -> Seq<
    EventView,
>
    decreases events.len(),
{
    if events.len() == 0 {
        Seq::empty()
    } else {
        let front = tail_of(events.drop_last(), service, floor);
        if in_tail(events.last(), service, floor) {
            front.push(events.last())
        } else {
            front
        }
    }
}

/// Reading a log in parts loses and repeats nothing: what comes before the number `mid`
/// and after `floor`, and then what comes after `mid`, is what comes after `floor`.
pub proof fn log_parts_join(
    events: Seq<EventView>,
    service: Option<Seq<char>>,
    floor: Option<u64>,
    mid: u64,
)
    requires
        numbered(events),
        floor matches Some(f) ==> f <= mid,
        mid < events.len(),
    ensures
        tail_of(events, service, floor) == tail_of(events.take(mid + 1), service, floor) + tail_of(
            events,
            service,
            Some(mid),
        ),
    decreases events.len(),
{
    let front = events.drop_last();
    let e = events.last();
    assert(e == events[events.len() - 1]);
    if mid == events.len() - 1 {
        assert(events.take(mid + 1) =~= events);
        lemma_nothing_late(events, service, mid);
        assert(tail_of(events, service, floor) + Seq::<EventView>::empty() =~= tail_of(
            events,
            service,
            floor,
        ));
    } else {
        assert(numbered(front)) by {
            assert forall|i: int| 0 <= i < front.len() implies (#[trigger] front[i]).seq == i
                && front[i].cursor == text::decimal(i as nat) by {
                assert(front[i] == events[i]);
            }
        }
        log_parts_join(front, service, floor, mid);
        assert(front.take(mid + 1) =~= events.take(mid + 1));
        assert(tail_of(events, service, floor) =~= tail_of(events.take(mid + 1), service, floor)
            + tail_of(events, service, Some(mid)));
    }
}

proof fn lemma_nothing_late(events: Seq<EventView>, service: Option<Seq<char>>, mid: u64)
    requires
        forall|i: int| 0 <= i < events.len() ==> (#[trigger] events[i]).seq <= mid,
    ensures
        tail_of(events, service, Some(mid)) == Seq::<EventView>::empty(),
    decreases events.len(),
{
    if events.len() > 0 {
        let front = events.drop_last();
        assert(events.last() == events[events.len() - 1]);
        assert forall|i: int| 0 <= i < front.len() implies (#[trigger] front[i]).seq <= mid by {
            assert(front[i] == events[i]);
        }
        lemma_nothing_late(front, service, mid);
    }
}

/// Of a log, those events are read that come after the number that is given and are of the service
/// that is named, in their order, and no others.
pub proof fn logs_are_read_event_by_event(
    a: Seq<EventView>,
    b: Seq<EventView>,
    e: EventView,
    service: Option<Seq<char>>,
    floor: Option<u64>,
)
    ensures
        tail_of(a + b, service, floor) == tail_of(a, service, floor) + tail_of(b, service, floor),
        tail_of(seq![e], service, floor) == if (floor matches Some(f) ==> e.seq > f) && (
        service matches Some(s) ==> e.service == Some(s)) {
            seq![e]
        } else {
            Seq::<EventView>::empty()
        },
        tail_of(Seq::empty(), service, floor) == Seq::<EventView>::empty(),
        tail_of(a, None, None) == a,
    decreases a.len() + b.len(), a.len(),
{
    assert(seq![e].drop_last() =~= Seq::<EventView>::empty());
    assert(tail_of(seq![e].drop_last(), service, floor) == Seq::<EventView>::empty());
    assert(Seq::<EventView>::empty().push(e) =~= seq![e]);
    if b.len() == 0 {
        assert(a + b =~= a);
        assert(tail_of(a, service, floor) + tail_of(b, service, floor) =~= tail_of(
            a,
            service,
            floor,
        ));
    } else {
        logs_are_read_event_by_event(a, b.drop_last(), e, service, floor);
        assert((a + b).drop_last() =~= a + b.drop_last());
        assert((a + b).last() == b.last());
        assert(tail_of(a + b, service, floor) =~= tail_of(a, service, floor) + tail_of(
            b,
            service,
            floor,
        ));
    }
    if a.len() == 0 {
        assert(tail_of(a, None, None) =~= a);
    } else {
        logs_are_read_event_by_event(a.drop_last(), Seq::empty(), e, service, floor);
        assert(a.drop_last().push(a.last()) =~= a);
    }
}

/// What is not known of a stack that cannot be reached.
pub open spec fn unreachable_stack(id: StackId) -> LaunchErrorView {
    LaunchErrorView::SupervisorUnreachable { stack_id: crate::ids::crockford_text(id.raw) }
}

/// The answer for a stack that cannot be reached.
pub fn stack_unreachable(id: StackId) -> (r: LaunchError)
    ensures
        r@ == unreachable_stack(id),
        r@ == (LaunchErrorView::SupervisorUnreachable {
            stack_id: crate::ids::crockford_text(id.raw),
        }),
{
    LaunchError::SupervisorUnreachable { stack_id: id.to_crockford() }
}

} // verus!
