//! What becomes of the processes of stacks whose supervisor is gone.
use crate::codec::{lossy, lossy_text};
use crate::errors::{LaunchError, LaunchErrorView};
use crate::launch::names::{push_text, texts};
use crate::launch::pid_probe::PidStat;
use crate::launch::profile::DisconnectPolicy;
use crate::launch::stack::{StackChild, SupervisorRegistry, SupervisorView};
use crate::paths;
use crate::text;
use vstd::prelude::*;

verus! {

/// How long a group of processes may take to end before it is killed, in milliseconds.
pub const REAP_DRAIN_MS: u64 = 5_000;

/// What a sweep did.
#[derive(Debug)]
pub struct ReconcileReport {
    /// Left alone under a live supervisor.
    pub reattached: Vec<String>,
    /// Left running without one.
    pub adopted: Vec<String>,
    /// Ended, or gone already.
    pub reaped: Vec<String>,
    /// Forgotten: another process has the number.
    pub recycled: Vec<String>,
}

/// What contracts say of a [`ReconcileReport`].
#[verifier::ext_equal]
pub struct ReportView {
    pub reattached: Seq<Seq<char>>,
    pub adopted: Seq<Seq<char>>,
    pub reaped: Seq<Seq<char>>,
    pub recycled: Seq<Seq<char>>,
}

impl View for ReconcileReport {
    type V = ReportView;

    open spec fn view(&self) -> ReportView {
        ReportView {
            reattached: texts(self.reattached@),
            adopted: texts(self.adopted@),
            reaped: texts(self.reaped@),
            recycled: texts(self.recycled@),
        }
    }
}

/// What is said of a report is what its fields hold.
pub proof fn reports_are_seen_as_written(r: ReconcileReport)
    ensures
        r@.reattached == texts(r.reattached@),
        r@.adopted == texts(r.adopted@),
        r@.reaped == texts(r.reaped@),
        r@.recycled == texts(r.recycled@),
{
}

/// The report of a sweep that did nothing.
pub open spec fn no_report() -> ReportView {
    ReportView {
        reattached: Seq::empty(),
        adopted: Seq::empty(),
        reaped: Seq::empty(),
        recycled: Seq::empty(),
    }
}

impl Default for ReconcileReport {
    fn default() -> (r: ReconcileReport)
        ensures
            r@ == no_report(),
    {
        let r = ReconcileReport {
            reattached: Vec::new(),
            adopted: Vec::new(),
            reaped: Vec::new(),
            recycled: Vec::new(),
        };
        assert(r@ =~= no_report());
        r
    }
}

impl ReconcileReport {
    /// Whether the sweep did nothing.
    pub fn is_empty(&self) -> (r: bool)
        ensures
            r == (self@ == no_report()),
            r <==> self.reattached@.len() == 0 && self.adopted@.len() == 0 && self.reaped@.len() == 0
                && self.recycled@.len() == 0,
    {
        let r = self.reattached.len() == 0 && self.adopted.len() == 0 && self.reaped.len() == 0
            && self.recycled.len() == 0;
        proof {
            if r {
                assert(self@ =~= no_report());
            } else {
                assert(self@.reattached.len() == self.reattached@.len());
                assert(self@.adopted.len() == self.adopted@.len());
                assert(self@.reaped.len() == self.reaped@.len());
                assert(self@.recycled.len() == self.recycled@.len());
            }
        }
        r
    }
}

// ---- Decisions -------------------------------------------------------------------

/// What becomes of a recorded process.
#[derive(Clone, Copy, Debug, PartialEq, Eq, Structural)]
pub enum Verdict {
    /// It stays: its supervisor is still its parent.
    Reattach,
    /// It stays, without a supervisor.
    Adopt,
    /// Its record goes; where it runs, it is ended.
    Reap { signal: bool },
    /// Its record goes, and nothing is signalled: another process has its number.
    Recycled,
}

/// Decides what becomes of a recorded process, by what the system says of its number.
pub open spec fn verdict(
    probe: Option<PidStat>,
    recorded_start: u64,
    policy: DisconnectPolicy,
    supervisor_pid: i32,
) -> Verdict {
    match probe {
        None => Verdict::Reap { signal: false },
        Some(stat) => if stat.start_time != recorded_start {
            Verdict::Recycled
        } else if stat.ppid == supervisor_pid {
            Verdict::Reattach
        } else {
            match policy {
                DisconnectPolicy::Detach => Verdict::Adopt,
                DisconnectPolicy::Shutdown => Verdict::Reap { signal: true },
            }
        },
    }
}

/// Decides what becomes of a recorded process, by what the system says of its number.
pub fn decide(
    probe: Option<PidStat>,
    recorded_start: u64,
    policy: DisconnectPolicy,
    supervisor_pid: i32,
) -> (r: Verdict)
    ensures
        r == verdict(probe, recorded_start, policy, supervisor_pid),
        probe is None ==> r == (Verdict::Reap { signal: false }),
        probe matches Some(s) ==> (r is Recycled <==> s.start_time != recorded_start),
        probe matches Some(s) ==> s.start_time == recorded_start ==> (r is Reattach <==> s.ppid
            == supervisor_pid),
        probe matches Some(s) ==> s.start_time == recorded_start && s.ppid != supervisor_pid ==> r
            == (if policy == DisconnectPolicy::Detach {
            Verdict::Adopt
        } else {
            Verdict::Reap { signal: true }
        }),
{
    let stat = match probe {
        Some(stat) => stat,
        None => {
            return Verdict::Reap { signal: false };
        },
    };
    if stat.start_time != recorded_start {
        return Verdict::Recycled;
    }
    if stat.ppid == supervisor_pid {
        return Verdict::Reattach;
    }
    match policy {
        DisconnectPolicy::Detach => Verdict::Adopt,
        DisconnectPolicy::Shutdown => Verdict::Reap { signal: true },
    }
}

/// Whether a process is the one that was recorded: it runs, and it started when the record
/// says.
pub open spec fn same_process(probe: Option<PidStat>, recorded_start: u64) -> bool {
    probe is Some && probe->0.start_time == recorded_start
}

/// Whether a process is the one that was recorded.
pub fn start_matches(probe: Option<PidStat>, recorded_start: u64) -> (r: bool)
    ensures
        r == same_process(probe, recorded_start),
        r <==> (probe matches Some(s) && s.start_time == recorded_start),
{
    match probe {
        Some(stat) => stat.start_time == recorded_start,
        None => false,
    }
}

/// A signal to a group of processes.
#[derive(Clone, Copy, Debug, PartialEq, Eq, Structural)]
pub enum GroupSignal {
    Terminate,
    Kill,
}

/// Decides whether a group of processes is signalled, by what the system says of the
/// number of its leader: first it is asked to end, and after a while it is killed. A group
/// whose leader is not the recorded process is never signalled.
pub fn group_signal(probe: Option<PidStat>, recorded_start: u64, drained: bool) -> (r: Option<
    GroupSignal,
>)
    ensures
        r is Some <==> same_process(probe, recorded_start),
        r matches Some(s) ==> s == (if drained {
            GroupSignal::Kill
        } else {
            GroupSignal::Terminate
        }),
{
    if !start_matches(probe, recorded_start) {
        return None;
    }
    if drained {
        Some(GroupSignal::Kill)
    } else {
        Some(GroupSignal::Terminate)
    }
}

/// How a stack is called in a report: by the name of its directory.
pub open spec fn label_of(dir: Seq<u8>) -> Seq<char> {
    match paths::final_name(dir) {
        Some(name) => lossy_text(name),
        None => "<unknown-stack>"@,
    }
}

/// How a stack is called in a report.
pub fn stack_label(dir: &[u8]) -> (r: String)
    ensures
        r@ == label_of(dir@),
        match paths::final_name(dir@) {
            Some(name) => r@ == lossy_text(name),
            None => r@ == "<unknown-stack>"@,
        },
{
    match paths::file_name(dir) {
        Some(name) => lossy(&name),
        None => "<unknown-stack>".to_owned(),
    }
}

/// How a process is called in a report.
pub open spec fn entry_of(label: Seq<char>, name: Seq<char>) -> Seq<char> {
    label + "/"@ + name
}

impl ReportView {
    /// The report with one process more.
    pub open spec fn with(self, v: Verdict, entry: Seq<char>) -> ReportView {
        match v {
            Verdict::Reattach => ReportView { reattached: self.reattached.push(entry), ..self },
            Verdict::Adopt => ReportView { adopted: self.adopted.push(entry), ..self },
            Verdict::Reap { .. } => ReportView { reaped: self.reaped.push(entry), ..self },
            Verdict::Recycled => ReportView { recycled: self.recycled.push(entry), ..self },
        }
    }
}

impl ReconcileReport {
    /// Reports what became of a process.
    fn enter(&mut self, v: Verdict, entry: String)
        ensures
            final(self)@ == old(self)@.with(v, entry@),
    {
        let ghost before = self@;
        match v {
            Verdict::Reattach => {
                push_text(&mut self.reattached, entry.as_str());
            },
            Verdict::Adopt => {
                push_text(&mut self.adopted, entry.as_str());
            },
            Verdict::Reap { signal: _ } => {
                push_text(&mut self.reaped, entry.as_str());
            },
            Verdict::Recycled => {
                push_text(&mut self.recycled, entry.as_str());
            },
        }
        assert(self@ =~= before.with(v, entry@));
    }
}

// ---- A stack ------------------------------------------------------------------------

/// Whether the record of a process is kept.
pub open spec fn keeps(v: Verdict) -> bool {
    v is Reattach || v is Adopt
}

/// What is recorded of what became of a process.
pub open spec fn noted(v: Verdict, child: StackChild) -> Option<LaunchErrorView> {
    match v {
        Verdict::Reattach => None,
        Verdict::Adopt => Some(LaunchErrorView::OrphanAdopted { name: child.name@ }),
        Verdict::Reap { .. } => Some(LaunchErrorView::OrphanReaped { name: child.name@ }),
        Verdict::Recycled => Some(
            LaunchErrorView::ChildPidRecycled { name: child.name@, pid: child.pid },
        ),
    }
}

/// The records that are kept, by what the system says of each number.
pub open spec fn kept(
    children: Seq<StackChild>,
    probes: Seq<Option<PidStat>>,
    policy: DisconnectPolicy,
    supervisor_pid: i32,
) -> Seq<StackChild>
    decreases probes.len(),
{
    if probes.len() == 0 {
        Seq::empty()
    } else {
        let i = probes.len() - 1;
        let before = kept(children, probes.drop_last(), policy, supervisor_pid);
        if keeps(verdict(probes[i], children[i].start_epoch, policy, supervisor_pid)) {
            before.push(children[i])
        } else {
            before
        }
    }
}

/// What is done about a process.
#[derive(Debug)]
pub struct ChildStep {
    /// The group that is ended, where it is: its number and the start of its leader.
    pub end: Option<(i32, u64)>,
    /// What is recorded.
    pub note: Option<LaunchError>,
}

/// What becomes of the record of a stack.
#[derive(Debug)]
pub enum SweepEnd {
    /// Nothing is left, and its directory is removed.
    Remove,
    /// What is left is written.
    Write(SupervisorRegistry),
}

/// A sweep over the processes of a stack whose supervisor is gone.
pub struct StackSweep {
    registry: SupervisorRegistry,
    label: String,
    next: usize,
    survivors: Vec<StackChild>,
    probes: Ghost<Seq<Option<PidStat>>>,
}

/// Reports the processes of a stack whose supervisor lives: they are left alone.
pub fn reattach_all(registry: &SupervisorRegistry, label: &str, report: &mut ReconcileReport)
    ensures
        final(report)@ == (ReportView {
            reattached: old(report)@.reattached + registry.children@.map_values(
                |c: StackChild| entry_of(label@, c.name@),
            ),
            ..old(report)@
        }),
        forall|i: int|
            0 <= i < registry.children@.len() ==> final(report)@.reattached[old(
                report,
            )@.reattached.len() + i] == label@ + "/"@ + (#[trigger] registry.children@[i]).name@,
{
    let ghost before = report@;
    let ghost all = registry.children@.map_values(|c: StackChild| entry_of(label@, c.name@));
    let mut i: usize = 0;
    while i < registry.children.len()
        invariant
            i <= registry.children@.len(),
            all == registry.children@.map_values(|c: StackChild| entry_of(label@, c.name@)),
            report@ == (ReportView {
                reattached: before.reattached + all.take(i as int),
                ..before
            }),
        decreases registry.children@.len() - i,
    {
        let entry = text::cat3(label, "/", registry.children[i].name.as_str());
        report.enter(Verdict::Reattach, entry);
        i = i + 1;
        assert(report@ =~= (ReportView {
            reattached: before.reattached + all.take(i as int),
            ..before
        }));
    }
    assert(all.take(i as int) =~= all);
}

impl StackSweep {
    /// The record of the stack.
    pub closed spec fn registry(&self) -> SupervisorView {
        self.registry@
    }

    /// How the stack is called.
    pub closed spec fn label(&self) -> Seq<char> {
        self.label@
    }

    /// What the system said of the numbers so far, in the order of the records.
    pub closed spec fn probes(&self) -> Seq<Option<PidStat>> {
        self.probes@
    }

    /// The records so far are kept or not as their numbers say.
    pub closed spec fn wf(&self) -> bool {
        &&& self.next == self.probes@.len()
        &&& self.next <= self.registry.children@.len()
        &&& self.survivors@ == kept(
            self.registry.children@,
            self.probes@,
            self.registry.policy,
            self.registry.supervisor_pid,
        )
    }

    /// Begins a sweep.
    pub fn new(registry: SupervisorRegistry, label: String) -> (r: StackSweep)
        ensures
            r.wf(),
            r.registry() == registry@,
            r.label() == label@,
            r.probes() == Seq::<Option<PidStat>>::empty(),
    {
        StackSweep {
            registry,
            label,
            next: 0,
            survivors: Vec::new(),
            probes: Ghost(Seq::empty()),
        }
    }

    /// The number that the system is asked about next.
    pub fn next_pid(&self) -> (r: Option<i32>)
        requires
            self.wf(),
        ensures
            r == (if self.probes().len() < self.registry().children.len() {
                Some(self.registry().children[self.probes().len() as int].pid)
            } else {
                None
            }),
    {
        if self.next < self.registry.children.len() {
            Some(self.registry.children[self.next].pid)
        } else {
            None
        }
    }

    /// Takes what the system says of the next number, and decides what becomes of the
    /// process.
    pub fn judge(&mut self, probe: Option<PidStat>, report: &mut ReconcileReport) -> (r: ChildStep)
        requires
            old(self).wf(),
            old(self).probes().len() < old(self).registry().children.len(),
        ensures
            final(self).wf(),
            final(self).registry() == old(self).registry(),
            final(self).label() == old(self).label(),
            final(self).probes() == old(self).probes().push(probe),
            ({
                let g = old(self).registry();
                let child = g.children[old(self).probes().len() as int];
                let v = verdict(probe, child.start_epoch, g.policy, g.supervisor_pid);
                &&& final(report)@ == old(report)@.with(v, entry_of(old(self).label(), child.name@))
                &&& r.end == (if v == (Verdict::Reap { signal: true }) {
                    Some((child.pgid, child.start_epoch))
                } else {
                    None
                })
                &&& r.note is Some <==> noted(v, child) is Some
                &&& r.note is Some ==> noted(v, child) == Some(r.note->0@)
            }),
            ({
                let g = old(self).registry();
                let child = g.children[old(self).probes().len() as int];
                let entry = old(self).label() + "/"@ + child.name@;
                let same = probe matches Some(s) && s.start_time == child.start_epoch;
                let ours = probe matches Some(s) && s.ppid == g.supervisor_pid;
                let before = old(report)@;
                let after = final(report)@;
                if probe is None {
                    &&& after == (ReportView { reaped: before.reaped.push(entry), ..before })
                    &&& r.end is None
                    &&& r.note matches Some(e) && e@ == (LaunchErrorView::OrphanReaped {
                        name: child.name@,
                    })
                } else if !same {
                    &&& after == (ReportView { recycled: before.recycled.push(entry), ..before })
                    &&& r.end is None
                    &&& r.note matches Some(e) && e@ == (LaunchErrorView::ChildPidRecycled {
                        name: child.name@,
                        pid: child.pid,
                    })
                } else if ours {
                    &&& after == (ReportView { reattached: before.reattached.push(entry), ..before })
                    &&& r.end is None && r.note is None
                } else if g.policy == DisconnectPolicy::Detach {
                    &&& after == (ReportView { adopted: before.adopted.push(entry), ..before })
                    &&& r.end is None
                    &&& r.note matches Some(e) && e@ == (LaunchErrorView::OrphanAdopted {
                        name: child.name@,
                    })
                } else {
                    &&& after == (ReportView { reaped: before.reaped.push(entry), ..before })
                    &&& r.end == Some((child.pgid, child.start_epoch))
                    &&& r.note matches Some(e) && e@ == (LaunchErrorView::OrphanReaped {
                        name: child.name@,
                    })
                }
            }),
    {
        let ghost before = self.probes@;
        assert(self.next < self.registry.children.len());
        let child = &self.registry.children[self.next];
        let v = decide(
            probe,
            child.start_epoch,
            self.registry.policy,
            self.registry.supervisor_pid,
        );
        let entry = text::cat3(self.label.as_str(), "/", child.name.as_str());
        report.enter(v, entry);
        let mut end: Option<(i32, u64)> = None;
        let note = match v {
            Verdict::Reattach => None,
            Verdict::Adopt => Some(LaunchError::OrphanAdopted { name: child.name.clone() }),
            Verdict::Reap { signal } => {
                if signal {
                    end = Some((child.pgid, child.start_epoch));
                }
                Some(LaunchError::OrphanReaped { name: child.name.clone() })
            },
            Verdict::Recycled => Some(
                LaunchError::ChildPidRecycled { name: child.name.clone(), pid: child.pid },
            ),
        };
        let keep = match v {
            Verdict::Reattach => true,
            Verdict::Adopt => true,
            _ => false,
        };
        if keep {
            let copy = child.copied();
            self.survivors.push(copy);
        }
        proof {
            self.probes@ = before.push(probe);
            assert(before.push(probe).drop_last() =~= before);
        }
        self.next = self.next + 1;
        ChildStep { end, note }
    }

    /// Ends the sweep: what is left is recorded.
    pub fn finish(self) -> (r: SweepEnd)
        requires
            self.wf(),
            self.probes().len() == self.registry().children.len(),
        ensures
            ({
                let g = self.registry();
                let left = kept(g.children, self.probes(), g.policy, g.supervisor_pid);
                match r {
                    SweepEnd::Remove => left.len() == 0,
                    SweepEnd::Write(x) => left.len() > 0 && x@ == (SupervisorView {
                        children: left,
                        ..g
                    }),
                }
            }),
    {
        if self.survivors.len() == 0 {
            return SweepEnd::Remove;
        }
        SweepEnd::Write(
            SupervisorRegistry {
                supervisor_pid: self.registry.supervisor_pid,
                start_epoch: self.registry.start_epoch,
                policy: self.registry.policy,
                config_hash: self.registry.config_hash,
                children: self.survivors,
            },
        )
    }
}

// ---- What holds of sweeps --------------------------------------------------------------

/// A process whose number another one has is never signalled, and its record goes.
pub proof fn strangers_are_left_alone(
    probe: Option<PidStat>,
    recorded_start: u64,
    policy: DisconnectPolicy,
    supervisor_pid: i32,
)
    requires
        !same_process(probe, recorded_start),
    ensures
        verdict(probe, recorded_start, policy, supervisor_pid) != (Verdict::Reap { signal: true }),
        !keeps(verdict(probe, recorded_start, policy, supervisor_pid)),
{
}

/// Only the recorded process is kept, adopted or ended; and one of a stack that outlives
/// its clients is never ended.
pub proof fn detached_processes_are_not_ended(
    probe: Option<PidStat>,
    recorded_start: u64,
    supervisor_pid: i32,
)
    ensures
        verdict(probe, recorded_start, DisconnectPolicy::Detach, supervisor_pid) != (Verdict::Reap {
            signal: true,
        }),
        same_process(probe, recorded_start) ==> keeps(
            verdict(probe, recorded_start, DisconnectPolicy::Detach, supervisor_pid),
        ),
{
}

/// A sweep keeps some of the records, in their order, and adds none.
pub proof fn sweeps_only_drop_records(
    children: Seq<StackChild>,
    probes: Seq<Option<PidStat>>,
    policy: DisconnectPolicy,
    supervisor_pid: i32,
)
    requires
        probes.len() <= children.len(),
    ensures
        kept(children, probes, policy, supervisor_pid).len() <= probes.len(),
        forall|c: StackChild| #[trigger]
            kept(children, probes, policy, supervisor_pid).contains(c) ==> children.contains(c),
    decreases probes.len(),
{
    if probes.len() > 0 {
        let front = probes.drop_last();
        sweeps_only_drop_records(children, front, policy, supervisor_pid);
        let before = kept(children, front, policy, supervisor_pid);
        let after = kept(children, probes, policy, supervisor_pid);
        assert forall|c: StackChild| #[trigger] after.contains(c) implies children.contains(c) by {
            let k = choose|k: int| 0 <= k < after.len() && after[k] == c;
            if k < before.len() {
                assert(before[k] == c);
                assert(before.contains(c));
            } else {
                assert(c == children[probes.len() - 1]);
            }
        }
    }
}

proof fn lemma_kept_again(
    children: Seq<StackChild>,
    probe: spec_fn(StackChild) -> Option<PidStat>,
    policy: DisconnectPolicy,
    supervisor_pid: i32,
    n: int,
)
    requires
        0 <= n <= children.len(),
        forall|i: int|
            0 <= i < n ==> keeps(
                verdict(
                    probe(#[trigger] children[i]),
                    children[i].start_epoch,
                    policy,
                    supervisor_pid,
                ),
            ),
    ensures
        kept(children, children.map_values(probe).take(n), policy, supervisor_pid)
            == children.take(n),
    decreases n,
{
    let probes = children.map_values(probe);
    if n > 0 {
        lemma_kept_again(children, probe, policy, supervisor_pid, n - 1);
        assert(probes.take(n).drop_last() =~= probes.take(n - 1));
        assert(probes.take(n)[n - 1] == probe(children[n - 1]));
        assert(children.take(n) =~= children.take(n - 1).push(children[n - 1]));
    } else {
        assert(children.take(0) =~= Seq::<StackChild>::empty());
        assert(probes.take(0) =~= Seq::<Option<PidStat>>::empty());
    }
}

proof fn lemma_kept_fulfil(
    children: Seq<StackChild>,
    probe: spec_fn(StackChild) -> Option<PidStat>,
    policy: DisconnectPolicy,
    supervisor_pid: i32,
    n: int,
)
    requires
        0 <= n <= children.len(),
    ensures
        ({
            let left = kept(children, children.map_values(probe).take(n), policy, supervisor_pid);
            forall|i: int|
                0 <= i < left.len() ==> keeps(
                    verdict(
                        probe(#[trigger] left[i]),
                        left[i].start_epoch,
                        policy,
                        supervisor_pid,
                    ),
                )
        }),
    decreases n,
{
    let probes = children.map_values(probe);
    if n > 0 {
        lemma_kept_fulfil(children, probe, policy, supervisor_pid, n - 1);
        assert(probes.take(n).drop_last() =~= probes.take(n - 1));
        assert(probes.take(n)[n - 1] == probe(children[n - 1]));
    }
}

/// A second sweep over what the first one left changes nothing, as long as the system says
/// the same of each process.
pub proof fn sweeps_are_idempotent(
    children: Seq<StackChild>,
    probe: spec_fn(StackChild) -> Option<PidStat>,
    policy: DisconnectPolicy,
    supervisor_pid: i32,
)
    ensures
        ({
            let left = kept(children, children.map_values(probe), policy, supervisor_pid);
            kept(left, left.map_values(probe), policy, supervisor_pid) == left
        }),
{
    let probes = children.map_values(probe);
    let left = kept(children, probes, policy, supervisor_pid);
    assert(probes.take(children.len() as int) =~= probes);
    lemma_kept_fulfil(children, probe, policy, supervisor_pid, children.len() as int);
    lemma_kept_again(left, probe, policy, supervisor_pid, left.len() as int);
    assert(left.map_values(probe).take(left.len() as int) =~= left.map_values(probe));
    assert(left.take(left.len() as int) =~= left);
}

/// A record is kept just where its process still runs, under the number and since the moment that
/// are recorded, and is the supervisor's own or may live on without it; records that are kept stay
/// in their order.
pub proof fn living_processes_are_kept(
    children: Seq<StackChild>,
    probes: Seq<Option<PidStat>>,
    probe: Option<PidStat>,
    policy: DisconnectPolicy,
    supervisor_pid: i32,
)
    requires
        probes.len() < children.len(),
    ensures
        kept(children, probes.push(probe), policy, supervisor_pid) == kept(
            children,
            probes,
            policy,
            supervisor_pid,
        ) + (if probe is Some && probe->0.start_time == children[probes.len() as int].start_epoch && (
        probe->0.ppid == supervisor_pid || policy == DisconnectPolicy::Detach) {
            seq![children[probes.len() as int]]
        } else {
            Seq::<StackChild>::empty()
        }),
        kept(children, Seq::empty(), policy, supervisor_pid) == Seq::<StackChild>::empty(),
{
    let all = probes.push(probe);
    let before = kept(children, probes, policy, supervisor_pid);
    assert(all.drop_last() =~= probes);
    assert(before.push(children[probes.len() as int]) =~= before + seq![
        children[probes.len() as int],
    ]);
    assert(before + Seq::<StackChild>::empty() =~= before);
}

/// Every process comes to one of the four ends, and which one follows from who runs under its
/// number now: nobody, another process, the supervisor's own or one that was left behind.
pub proof fn processes_come_to_one_end(
    stat: PidStat,
    recorded_start: u64,
    policy: DisconnectPolicy,
    supervisor_pid: i32,
)
    ensures
        verdict(None, recorded_start, policy, supervisor_pid) == (Verdict::Reap { signal: false }),
        verdict(Some(stat), recorded_start, policy, supervisor_pid) is Recycled
            <==> stat.start_time != recorded_start,
        verdict(Some(stat), recorded_start, policy, supervisor_pid) is Reattach <==> stat.start_time
            == recorded_start && stat.ppid == supervisor_pid,
        verdict(Some(stat), recorded_start, policy, supervisor_pid) is Adopt <==> stat.start_time
            == recorded_start && stat.ppid != supervisor_pid && policy == DisconnectPolicy::Detach,
        verdict(Some(stat), recorded_start, policy, supervisor_pid) == (Verdict::Reap {
            signal: true,
        }) <==> stat.start_time == recorded_start && stat.ppid != supervisor_pid && policy
            == DisconnectPolicy::Shutdown,
{
}

} // verus!
