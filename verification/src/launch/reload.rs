//! What a changed profile means for a stack that runs: which services start, stop or
//! start anew.
use crate::launch::dag::{
    cascade, cascade_flags, cascades, counting, cyclic, dependencies_come_first,
    direct_dependents_are_reached, flagged, lemma_listing_covers, lemma_named, list_flagged, listed,
    listing_order, members_are_listed_once, members_follow_their_dependencies, names_at, picked,
    restarts_need_a_cause, restarts_reach_on, reverse_topo,
};
use crate::launch::names::{has_text, place, places_are_unique, push_text, texts, NameMap};
use crate::launch::profile::{DependencyRestartMode, LaunchProfile, ProfileView};
use crate::launch::supervisor::{edges_only_differ, respawns, rewired, spawn_fields_differ};
use vstd::prelude::*;

verus! {

/// What a reload changes.
#[derive(Debug)]
pub struct ReloadReport {
    /// Services that are new.
    pub added: Vec<String>,
    /// Services that are gone.
    pub removed: Vec<String>,
    /// Services that start anew, in the order of bringing up.
    pub restarted: Vec<String>,
    /// Services that are only wired differently.
    pub edge_only: Vec<String>,
}

/// The services that only the new profile has.
pub open spec fn added_set(old: ProfileView, new: ProfileView) -> Set<int> {
    Set::new(|i: int| 0 <= i < new.count() && !old.names.contains(new.names[i]))
}

/// The services that both profiles have and that start anew for their own changes.
pub open spec fn changed_set(old: ProfileView, new: ProfileView) -> Set<int> {
    Set::new(
        |i: int|
            0 <= i < new.count() && old.names.contains(new.names[i]) && respawns(
                old.services[place(old.names, new.names[i])],
                new.services[i],
            ),
    )
}

/// The services that both profiles have and that are only wired differently.
pub open spec fn rewired_set(old: ProfileView, new: ProfileView) -> Set<int> {
    Set::new(
        |i: int|
            0 <= i < new.count() && old.names.contains(new.names[i]) && rewired(
                old.services[place(old.names, new.names[i])],
                new.services[i],
            ),
    )
}

/// The names of a set of services, in ascending order.
pub open spec fn names_of(p: ProfileView, set: Set<int>) -> Seq<Seq<char>> {
    names_at(p, picked(counting(p.count()), set))
}

/// The services that start anew: those that changed, and those that their restart
/// reaches.
pub open spec fn restart_set(old: ProfileView, new: ProfileView) -> Set<int> {
    changed_set(old, new).union(cascade(new, names_of(new, changed_set(old, new))))
}

/// Whether a report says what a reload from `old` to `new` changes.
pub open spec fn reports(old: ProfileView, new: ProfileView, r: ReloadReport) -> bool {
    &&& texts(r.added@) == names_of(new, added_set(old, new))
    &&& texts(r.removed@) == names_of(old, added_set(new, old))
    &&& texts(r.edge_only@) == names_of(new, rewired_set(old, new))
    &&& listed(new, restart_set(old, new), texts(r.restarted@))
}

/// Names the flagged services in ascending order.
fn names_flagged(profile: &LaunchProfile, flags: &Vec<bool>) -> (r: Vec<String>)
    requires
        profile.wf(),
        flags@.len() == profile@.count(),
    ensures
        texts(r@) == names_of(profile@, flagged(flags@)),
{
    let ghost p = profile@;
    let ghost set = flagged(flags@);
    let mut r: Vec<String> = Vec::new();
    let mut i: usize = 0;
    proof {
        assert(picked(counting(0), set) =~= Seq::<int>::empty());
        assert(texts(r@) =~= names_at(p, picked(counting(0), set)));
    }
    while i < profile.services.len()
        invariant
            profile.wf(),
            p == profile@,
            flags@.len() == p.count(),
            set == flagged(flags@),
            i <= p.count(),
            texts(r@) == names_at(p, picked(counting(i as int), set)),
        decreases p.count() - i,
    {
        let ghost before = picked(counting(i as int), set);
        proof {
            assert(counting(i + 1).drop_last() =~= counting(i as int));
            assert(counting(i + 1).last() == i);
        }
        if flags[i] {
            push_text(&mut r, profile.services.name_at(i).as_str());
            assert(names_at(p, before.push(i as int)) =~= names_at(p, before).push(p.names[i as int]));
        }
        i = i + 1;
    }
    r
}

/// Flags the services of `new` that `old` does not have.
fn flag_added(old: &LaunchProfile, new: &LaunchProfile) -> (flags: Vec<bool>)
    requires
        old.wf(),
        new.wf(),
    ensures
        flags@.len() == new@.count(),
        flagged(flags@) == added_set(old@, new@),
{
    let mut flags: Vec<bool> = Vec::new();
    while flags.len() < new.services.len()
        invariant
            old.wf(),
            new.wf(),
            flags@.len() <= new@.count(),
            forall|k: int|
                0 <= k < flags@.len() ==> #[trigger] flags@[k] == !old@.names.contains(
                    new@.names[k],
                ),
        decreases new@.count() - flags@.len(),
    {
        let i = flags.len();
        let name = new.services.name_at(i);
        let known = match old.services.find(name.as_str()) {
            Some(k) => {
                assert(old@.names[k as int] == name@);
                true
            },
            None => false,
        };
        flags.push(!known);
    }
    assert(flagged(flags@) =~= added_set(old@, new@));
    flags
}

/// Which of the services that both profiles have start anew, and which are only wired
/// differently.
fn flag_changed(old: &LaunchProfile, new: &LaunchProfile) -> (r: (Vec<bool>, Vec<bool>))
    requires
        old.wf(),
        new.wf(),
    ensures
        r.0@.len() == new@.count(),
        r.1@.len() == new@.count(),
        flagged(r.0@) == changed_set(old@, new@),
        flagged(r.1@) == rewired_set(old@, new@),
{
    let mut changed: Vec<bool> = Vec::new();
    let mut wired: Vec<bool> = Vec::new();
    let ghost o = old@;
    let ghost n = new@;
    while changed.len() < new.services.len()
        invariant
            old.wf(),
            new.wf(),
            o == old@,
            n == new@,
            changed@.len() <= n.count(),
            wired@.len() == changed@.len(),
            forall|k: int|
                0 <= k < changed@.len() ==> #[trigger] changed@[k] == (o.names.contains(n.names[k])
                    && respawns(o.services[place(o.names, n.names[k])], n.services[k])),
            forall|k: int|
                0 <= k < wired@.len() ==> #[trigger] wired@[k] == (o.names.contains(n.names[k])
                    && rewired(o.services[place(o.names, n.names[k])], n.services[k])),
        decreases n.count() - changed@.len(),
    {
        let i = changed.len();
        let name = new.services.name_at(i);
        match old.services.find(name.as_str()) {
            Some(k) => {
                let before = old.services.val_at(k);
                let after = new.services.val_at(i);
                proof {
                    assert(o.names[k as int] == n.names[i as int]);
                    assert(o.names.contains(n.names[i as int]));
                    let q = place(o.names, n.names[i as int]);
                    assert(exists|j: int| 0 <= j < o.names.len() && o.names[j] == n.names[i as int]);
                    places_are_unique(o.names, q, k as int);
                    assert(o.services[q] == before@);
                    assert(n.services[i as int] == after@);
                    assert(old.services.vals()[k as int].env.wf());
                    assert(new.services.vals()[i as int].env.wf());
                }
                changed.push(spawn_fields_differ(before, after));
                wired.push(edges_only_differ(before, after));
            },
            None => {
                changed.push(false);
                wired.push(false);
            },
        }
    }
    proof {
        assert(flagged(changed@) =~= changed_set(o, n));
        assert(flagged(wired@) =~= rewired_set(o, n));
    }
    (changed, wired)
}

/// The flags that are set in one list or the other.
fn either(a: &Vec<bool>, b: &Vec<bool>) -> (r: Vec<bool>)
    requires
        a@.len() == b@.len(),
    ensures
        r@.len() == a@.len(),
        flagged(r@) == flagged(a@).union(flagged(b@)),
{
    let mut r: Vec<bool> = Vec::new();
    while r.len() < a.len()
        invariant
            a@.len() == b@.len(),
            r@.len() <= a@.len(),
            forall|k: int| 0 <= k < r@.len() ==> #[trigger] r@[k] == (a@[k] || b@[k]),
        decreases a@.len() - r@.len(),
    {
        let i = r.len();
        r.push(a[i] || b[i]);
    }
    assert(flagged(r@) =~= flagged(a@).union(flagged(b@)));
    r
}

/// What a reload changes, and which services it starts.
#[derive(Debug)]
pub struct ReloadDiff {
    pub report: ReloadReport,
    /// The services that are started, in the order of bringing up: the new ones and
    /// those that start anew.
    pub start: Vec<String>,
}

/// Works out what a reload from `old` to `new` changes.
pub fn diff_profiles(old: &LaunchProfile, new: &LaunchProfile) -> (r: ReloadDiff)
    requires
        old.wf(),
        new.wf(),
    ensures
        reports(old@, new@, r.report),
        listed(
            new@,
            added_set(old@, new@).union(restart_set(old@, new@)),
            texts(r.start@),
        ),
{
    let added_flags = flag_added(old, new);
    let removed_flags = flag_added(new, old);
    let (changed_flags, wired_flags) = flag_changed(old, new);
    let changed = names_flagged(new, &changed_flags);
    let reached = cascade_flags(new, &changed);
    let restart_flags = either(&changed_flags, &reached);
    let start_flags = either(&added_flags, &restart_flags);
    let report = ReloadReport {
        added: names_flagged(new, &added_flags),
        removed: names_flagged(old, &removed_flags),
        restarted: list_flagged(new, &restart_flags),
        edge_only: names_flagged(new, &wired_flags),
    };
    ReloadDiff { report, start: list_flagged(new, &start_flags) }
}

/// Works out what a reload from `old` to `new` changes: services that start anew for
/// their own changes take those along that restart with them; services that are only
/// wired differently go on as they are.
pub fn compute_reload_report(old: &LaunchProfile, new: &LaunchProfile) -> (r: ReloadReport)
    requires
        old.wf(),
        new.wf(),
    ensures
        reports(old@, new@, r),
{
    diff_profiles(old, new).report
}

// ---- Stopping --------------------------------------------------------------

/// The names of a list that are among others.
pub open spec fn only(v: Seq<Seq<char>>, keep: Set<Seq<char>>) -> Seq<Seq<char>>
    decreases v.len(),
{
    if v.len() == 0 {
        Seq::empty()
    } else if keep.contains(v.last()) {
        only(v.drop_last(), keep).push(v.last())
    } else {
        only(v.drop_last(), keep)
    }
}

/// The processes of a list of services; a service without one is passed over.
pub open spec fn jobs_of(names: Seq<Seq<char>>, jobs: Map<Seq<char>, u128>) -> Seq<u128>
    decreases names.len(),
{
    if names.len() == 0 {
        Seq::empty()
    } else if jobs.contains_key(names.last()) {
        jobs_of(names.drop_last(), jobs).push(jobs[names.last()])
    } else {
        jobs_of(names.drop_last(), jobs)
    }
}

/// The services in the order of taking down; none where the dependencies form a cycle.
pub open spec fn teardown_order(p: ProfileView, v: Seq<Seq<char>>) -> bool {
    if crate::launch::dag::cyclic(p) {
        v.len() == 0
    } else {
        exists|order: Seq<int>| #[trigger]
            crate::launch::dag::listing_order(p, order) && v == names_at(p, order).reverse()
    }
}

/// The services in the order of taking down; none where the dependencies form a cycle.
pub fn teardown_names(profile: &LaunchProfile) -> (r: Vec<String>)
    requires
        profile.wf(),
    ensures
        teardown_order(profile@, texts(r@)),
{
    match reverse_topo(profile) {
        Ok(v) => v,
        Err(_) => Vec::new(),
    }
}

/// The members of `set`, in the order of taking down.
pub fn reverse_order_for(profile: &LaunchProfile, set: &Vec<String>) -> (r: Vec<String>)
    requires
        profile.wf(),
    ensures
        exists|v: Seq<Seq<char>>| #[trigger]
            teardown_order(profile@, v) && texts(r@) == only(v, texts(set@).to_set()),
{
    let all = teardown_names(profile);
    let ghost v = texts(all@);
    let ghost keep = texts(set@).to_set();
    let mut r: Vec<String> = Vec::new();
    let mut i: usize = 0;
    assert(texts(r@) =~= only(v.take(0), keep));
    while i < all.len()
        invariant
            v == texts(all@),
            keep == texts(set@).to_set(),
            i <= all@.len(),
            texts(r@) == only(v.take(i as int), keep),
        decreases all@.len() - i,
    {
        proof {
            assert(v.take(i + 1).drop_last() =~= v.take(i as int));
            assert(v.take(i + 1).last() == all@[i as int]@);
        }
        if has_text(set, all[i].as_str()) {
            push_text(&mut r, all[i].as_str());
        }
        i = i + 1;
    }
    assert(v.take(i as int) =~= v);
    r
}

/// The processes of a list of services.
pub fn collect_jobs(names: &Vec<String>, jobs: &NameMap<u128>) -> (r: Vec<u128>)
    requires
        jobs.wf(),
    ensures
        r@ == jobs_of(texts(names@), jobs@),
{
    let ghost v = texts(names@);
    let mut r: Vec<u128> = Vec::new();
    let mut i: usize = 0;
    assert(r@ =~= jobs_of(v.take(0), jobs@));
    while i < names.len()
        invariant
            jobs.wf(),
            v == texts(names@),
            i <= names@.len(),
            r@ == jobs_of(v.take(i as int), jobs@),
        decreases names@.len() - i,
    {
        proof {
            assert(v.take(i + 1).drop_last() =~= v.take(i as int));
            assert(v.take(i + 1).last() == names@[i as int]@);
        }
        match jobs.get(names[i].as_str()) {
            Some(job) => {
                r.push(*job);
            },
            None => {},
        }
        i = i + 1;
    }
    assert(v.take(i as int) =~= v);
    r
}

/// Joins two lists of names.
pub fn joined_names(a: &Vec<String>, b: &Vec<String>) -> (r: Vec<String>)
    ensures
        texts(r@) == texts(a@) + texts(b@),
{
    let mut r = crate::launch::names::copy_texts(a);
    let mut i: usize = 0;
    let ghost head = texts(a@);
    let ghost tail = texts(b@);
    assert(texts(r@) =~= head + tail.take(0));
    while i < b.len()
        invariant
            tail == texts(b@),
            i <= b@.len(),
            texts(r@) == head + tail.take(i as int),
        decreases b@.len() - i,
    {
        push_text(&mut r, b[i].as_str());
        i = i + 1;
        assert(texts(r@) =~= head + tail.take(i as int));
    }
    assert(tail.take(i as int) =~= tail);
    r
}

// ---- What holds of reloads ---------------------------------------------------

/// A profile that is reloaded as it was changes nothing: no service is added, removed,
/// restarted or wired differently.
pub proof fn reload_of_the_same_changes_nothing(p: ProfileView)
    requires
        p.wf(),
    ensures
        added_set(p, p) == Set::<int>::empty(),
        rewired_set(p, p) == Set::<int>::empty(),
        restart_set(p, p) == Set::<int>::empty(),
{
    assert forall|i: int| 0 <= i < p.count() implies {
        &&& p.names.contains(p.names[i])
        &&& #[trigger] p.names[i] == p.names[i]
        &&& place(p.names, p.names[i]) == i
    } by {
        let q = place(p.names, p.names[i]);
        assert(exists|j: int| 0 <= j < p.names.len() && p.names[j] == p.names[i]);
        places_are_unique(p.names, q, i);
    }
    assert(added_set(p, p) =~= Set::empty());
    assert(rewired_set(p, p) =~= Set::empty());
    assert(changed_set(p, p) =~= Set::empty());
    lemma_nothing_picked(counting(p.count()), changed_set(p, p));
    let none = names_of(p, changed_set(p, p));
    assert(none.len() == 0);
    assert forall|i: int| 0 <= i < p.count() implies !cascades(p, none, i) by {
        if cascades(p, none, i) {
            let n = choose|n: nat| #[trigger] crate::launch::dag::reached(p, none, i, n);
            lemma_no_cause(p, none, i, n);
        }
    }
    assert(cascade(p, none) =~= Set::empty());
    assert(restart_set(p, p) =~= Set::empty());
}

proof fn lemma_nothing_picked(order: Seq<int>, set: Set<int>)
    requires
        set == Set::<int>::empty(),
    ensures
        picked(order, set).len() == 0,
    decreases order.len(),
{
    if order.len() > 0 {
        lemma_nothing_picked(order.drop_last(), set);
    }
}

proof fn lemma_no_cause(p: ProfileView, none: Seq<Seq<char>>, i: int, n: nat)
    requires
        none.len() == 0,
    ensures
        !crate::launch::dag::reached(p, none, i, n),
    decreases n,
{
    if crate::launch::dag::reached(p, none, i, n) {
        let j = choose|j: int|
            0 <= j < p.count() && #[trigger] p.depends(i, j) && crate::launch::dag::reached(
                p,
                none,
                j,
                (n - 1) as nat,
            );
        lemma_no_cause(p, none, j, (n - 1) as nat);
    }
}

/// A service that is new is not among those that start anew for their own changes, and
/// a service that is only wired differently does not start anew for its own changes.
pub proof fn reload_kinds_exclude_each_other(old: ProfileView, new: ProfileView, i: int)
    ensures
        !(added_set(old, new).contains(i) && changed_set(old, new).contains(i)),
        !(rewired_set(old, new).contains(i) && changed_set(old, new).contains(i)),
        !(added_set(old, new).contains(i) && rewired_set(old, new).contains(i)),
{
}

proof fn lemma_place(old: ProfileView, name: Seq<char>, j: int)
    requires
        old.wf(),
        0 <= j < old.names.len(),
        old.names[j] == name,
    ensures
        old.names.contains(name),
        place(old.names, name) == j,
{
    let q = place(old.names, name);
    assert(exists|k: int| 0 <= k < old.names.len() && old.names[k] == name);
    places_are_unique(old.names, q, j);
}

proof fn lemma_counting(n: int)
    requires
        n >= 0,
    ensures
        counting(n).no_duplicates(),
        forall|i: int| #[trigger] counting(n).contains(i) <==> 0 <= i < n,
{
    assert forall|i: int| 0 <= i < n implies #[trigger] counting(n).contains(i) by {
        assert(counting(n)[i] == i);
    }
}

/// The names of a set of services are those of its members, each once, in ascending
/// order.
pub proof fn sets_are_named_once(p: ProfileView, set: Set<int>)
    requires
        p.wf(),
    ensures
        names_of(p, set).no_duplicates(),
        forall|i: int|
            0 <= i < p.names.len() ==> (names_of(p, set).contains(#[trigger] p.names[i])
                <==> set.contains(i)),
        forall|a: int|
            0 <= a < names_of(p, set).len() ==> p.names.contains(#[trigger] names_of(p, set)[a]),
        crate::launch::names::ascending(names_of(p, set)),
{
    lemma_counting(p.count());
    lemma_named(p, counting(p.count()), set);
    let v = names_of(p, set);
    assert forall|a: int, b: int| 0 <= a < b < v.len() implies crate::launch::names::name_before(
        #[trigger] v[a],
        #[trigger] v[b],
    ) by {
        let (x, y) = crate::launch::dag::lemma_picked_in_order(counting(p.count()), set, a, b);
        assert(v[a] == p.names[x] && v[b] == p.names[y]);
    }
}

proof fn lemma_respawned(old: ProfileView, new: ProfileView, j: int, i: int)
    requires
        old.wf(),
        new.wf(),
        0 <= j < old.names.len(),
        0 <= i < new.names.len(),
        old.names[j] == new.names[i],
        respawns(old.services[j], new.services[i]),
    ensures
        changed_set(old, new).contains(i),
        restart_set(old, new).contains(i),
        forall|r: ReloadReport| #[trigger]
            reports(old, new, r) ==> texts(r.restarted@).contains(new.names[i]) && !texts(
                r.edge_only@,
            ).contains(new.names[i]),
{
    lemma_place(old, new.names[i], j);
    assert(changed_set(old, new).contains(i));
    assert forall|r: ReloadReport| #[trigger] reports(old, new, r) implies texts(
        r.restarted@,
    ).contains(new.names[i]) && !texts(r.edge_only@).contains(new.names[i]) by {
        members_are_listed_once(new, restart_set(old, new), texts(r.restarted@));
        sets_are_named_once(new, rewired_set(old, new));
    }
}

/// A service that both profiles have and whose command is not what it was is restarted.
pub proof fn a_changed_command_restarts(
    old: ProfileView,
    new: ProfileView,
    j: int,
    i: int,
)
    requires
        old.wf(),
        new.wf(),
        0 <= j < old.names.len(),
        0 <= i < new.names.len(),
        old.names[j] == new.names[i],
        old.services[j].command != new.services[i].command,
    ensures
        restart_set(old, new).contains(i),
        forall|r: ReloadReport| #[trigger]
            reports(old, new, r) ==> texts(r.restarted@).contains(new.names[i]) && !texts(
                r.edge_only@,
            ).contains(new.names[i]),
{
    lemma_respawned(old, new, j, i);
}

/// A service that both profiles have and whose arguments are not what it was is restarted.
pub proof fn changed_arguments_restart(
    old: ProfileView,
    new: ProfileView,
    j: int,
    i: int,
)
    requires
        old.wf(),
        new.wf(),
        0 <= j < old.names.len(),
        0 <= i < new.names.len(),
        old.names[j] == new.names[i],
        old.services[j].args != new.services[i].args,
    ensures
        restart_set(old, new).contains(i),
        forall|r: ReloadReport| #[trigger]
            reports(old, new, r) ==> texts(r.restarted@).contains(new.names[i]) && !texts(
                r.edge_only@,
            ).contains(new.names[i]),
{
    lemma_respawned(old, new, j, i);
}

/// A service that both profiles have and whose environment is not what it was is restarted.
pub proof fn a_changed_environment_restarts(
    old: ProfileView,
    new: ProfileView,
    j: int,
    i: int,
)
    requires
        old.wf(),
        new.wf(),
        0 <= j < old.names.len(),
        0 <= i < new.names.len(),
        old.names[j] == new.names[i],
        old.services[j].env != new.services[i].env,
    ensures
        restart_set(old, new).contains(i),
        forall|r: ReloadReport| #[trigger]
            reports(old, new, r) ==> texts(r.restarted@).contains(new.names[i]) && !texts(
                r.edge_only@,
            ).contains(new.names[i]),
{
    lemma_respawned(old, new, j, i);
}

/// A service that both profiles have and whose working directory is not what it was is restarted.
pub proof fn a_changed_directory_restarts(
    old: ProfileView,
    new: ProfileView,
    j: int,
    i: int,
)
    requires
        old.wf(),
        new.wf(),
        0 <= j < old.names.len(),
        0 <= i < new.names.len(),
        old.names[j] == new.names[i],
        old.services[j].cwd != new.services[i].cwd,
    ensures
        restart_set(old, new).contains(i),
        forall|r: ReloadReport| #[trigger]
            reports(old, new, r) ==> texts(r.restarted@).contains(new.names[i]) && !texts(
                r.edge_only@,
            ).contains(new.names[i]),
{
    lemma_respawned(old, new, j, i);
}

/// A report names as restarted just the services that are restarted, each once, and each after
/// all that it depends on.
pub proof fn reports_name_what_restarts(
    old: ProfileView,
    new: ProfileView,
    r: ReloadReport,
    i: int,
)
    requires
        old.wf(),
        new.wf(),
        reports(old, new, r),
        0 <= i < new.names.len(),
    ensures
        texts(r.restarted@).contains(new.names[i]) <==> restart_set(old, new).contains(i),
        texts(r.restarted@).no_duplicates(),
        texts(r.added@).no_duplicates(),
        texts(r.removed@).no_duplicates(),
        texts(r.edge_only@).no_duplicates(),
        !cyclic(new) ==> forall|a: int, b: int, k: int|
            0 <= a < texts(r.restarted@).len() && 0 <= b < texts(r.restarted@).len() && 0 <= k
                < new.names.len() && #[trigger] texts(r.restarted@)[a] == #[trigger] new.names[k]
                && new.services[k].depends_on.contains(#[trigger] texts(r.restarted@)[b]) ==> b < a,
{
    let set = restart_set(old, new);
    let v = texts(r.restarted@);
    members_are_listed_once(new, set, v);
    sets_are_named_once(new, added_set(old, new));
    sets_are_named_once(old, added_set(new, old));
    sets_are_named_once(new, rewired_set(old, new));
    if !cyclic(new) {
        assert forall|a: int, b: int, k: int|
            0 <= a < v.len() && 0 <= b < v.len() && 0 <= k < new.names.len() && #[trigger] v[a]
                == #[trigger] new.names[k] && new.services[k].depends_on.contains(
                #[trigger] v[b],
            ) implies b < a by {
            members_follow_their_dependencies(new, set, v, a, b, k);
        }
    }
}

/// A restart takes along what restarts with it: a service that depends on a restarted
/// service, and restarts with what it depends on, is restarted too.
pub proof fn restarts_take_dependents_along(old: ProfileView, new: ProfileView, i: int, j: int)
    requires
        new.wf(),
        0 <= i < new.names.len(),
        0 <= j < new.names.len(),
        restart_set(old, new).contains(j),
        new.services[i].depends_on.contains(new.names[j]),
        new.services[i].on_dependency_restart == DependencyRestartMode::Restart,
    ensures
        restart_set(old, new).contains(i),
{
    let set = changed_set(old, new);
    let names = names_of(new, set);
    if set.contains(j) {
        sets_are_named_once(new, set);
        assert(names.contains(new.names[j]));
        direct_dependents_are_reached(new, names, i, new.names[j]);
    } else {
        assert(new.depends(i, j));
        restarts_reach_on(new, names, i, j);
    }
}

/// A service is restarted only for a reason: both profiles have it and what starts it is
/// not what it was, or it restarts with what it depends on and depends on a service that
/// is restarted.
pub proof fn restarts_have_a_reason(old: ProfileView, new: ProfileView, i: int)
    requires
        old.wf(),
        new.wf(),
        restart_set(old, new).contains(i),
    ensures
        0 <= i < new.names.len(),
        ({
            ||| exists|j: int|
                0 <= j < old.names.len() && #[trigger] old.names[j] == new.names[i] && {
                    ||| old.services[j].command != new.services[i].command
                    ||| old.services[j].args != new.services[i].args
                    ||| old.services[j].env != new.services[i].env
                    ||| old.services[j].cwd != new.services[i].cwd
                }
            ||| new.services[i].on_dependency_restart == DependencyRestartMode::Restart && exists|
                k: int,
            |
                0 <= k < new.names.len() && new.services[i].depends_on.contains(
                    #[trigger] new.names[k],
                ) && restart_set(old, new).contains(k)
        }),
{
    let set = changed_set(old, new);
    let names = names_of(new, set);
    if set.contains(i) {
        let j = place(old.names, new.names[i]);
        assert(exists|k: int| 0 <= k < old.names.len() && old.names[k] == new.names[i]);
        assert(old.names[j] == new.names[i]);
    } else {
        restarts_need_a_cause(new, names, i);
        sets_are_named_once(new, set);
        if exists|c: int|
            0 <= c < names.len() && new.services[i].depends_on.contains(#[trigger] names[c]) {
            let c = choose|c: int|
                0 <= c < names.len() && new.services[i].depends_on.contains(#[trigger] names[c]);
            assert(new.names.contains(names[c]));
            let k = choose|k: int| 0 <= k < new.names.len() && new.names[k] == names[c];
            assert(names.contains(new.names[k]));
            assert(set.contains(k));
        } else {
            let k = choose|k: int|
                0 <= k < new.count() && #[trigger] new.depends(i, k) && cascades(new, names, k);
            assert(new.services[i].depends_on.contains(new.names[k]));
            assert(restart_set(old, new).contains(k));
        }
    }
}

/// A service that is started as before, and ignores restarts of what it depends on or
/// depends on nothing, goes on.
pub proof fn unchanged_services_go_on(old: ProfileView, new: ProfileView, j: int, i: int)
    requires
        old.wf(),
        new.wf(),
        0 <= j < old.names.len(),
        0 <= i < new.names.len(),
        old.names[j] == new.names[i],
        old.services[j].command == new.services[i].command,
        old.services[j].args == new.services[i].args,
        old.services[j].env == new.services[i].env,
        old.services[j].cwd == new.services[i].cwd,
        new.services[i].on_dependency_restart == DependencyRestartMode::Ignore
            || new.services[i].depends_on.len() == 0,
    ensures
        !restart_set(old, new).contains(i),
        forall|r: ReloadReport| #[trigger]
            reports(old, new, r) ==> !texts(r.restarted@).contains(new.names[i]),
{
    if restart_set(old, new).contains(i) {
        restarts_have_a_reason(old, new, i);
        if exists|k: int|
            0 <= k < old.names.len() && #[trigger] old.names[k] == new.names[i] && {
                ||| old.services[k].command != new.services[i].command
                ||| old.services[k].args != new.services[i].args
                ||| old.services[k].env != new.services[i].env
                ||| old.services[k].cwd != new.services[i].cwd
            } {
            let k = choose|k: int|
                0 <= k < old.names.len() && #[trigger] old.names[k] == new.names[i] && {
                    ||| old.services[k].command != new.services[i].command
                    ||| old.services[k].args != new.services[i].args
                    ||| old.services[k].env != new.services[i].env
                    ||| old.services[k].cwd != new.services[i].cwd
                };
            places_are_unique(old.names, j, k);
        }
    }
    assert forall|r: ReloadReport| #[trigger] reports(old, new, r) implies !texts(
        r.restarted@,
    ).contains(new.names[i]) by {
        members_are_listed_once(new, restart_set(old, new), texts(r.restarted@));
    }
}

/// A report names as added what only the new profile has, and as removed what only the
/// old one had. What is added is not restarted for changes of its own.
pub proof fn reports_tell_added_from_removed(
    old: ProfileView,
    new: ProfileView,
    r: ReloadReport,
    name: Seq<char>,
)
    requires
        old.wf(),
        new.wf(),
        reports(old, new, r),
    ensures
        texts(r.added@).contains(name) <==> new.names.contains(name) && !old.names.contains(name),
        texts(r.removed@).contains(name) <==> old.names.contains(name) && !new.names.contains(name),
        texts(r.edge_only@).contains(name) ==> new.names.contains(name) && old.names.contains(name),
        texts(r.restarted@).contains(name) ==> new.names.contains(name),
{
    lemma_added(old, new, name);
    lemma_added(new, old, name);
    sets_are_named_once(new, rewired_set(old, new));
    members_are_listed_once(new, restart_set(old, new), texts(r.restarted@));
    if texts(r.edge_only@).contains(name) {
        let a = choose|a: int| 0 <= a < texts(r.edge_only@).len() && texts(r.edge_only@)[a] == name;
        assert(new.names.contains(names_of(new, rewired_set(old, new))[a]));
        let i = choose|i: int| 0 <= i < new.names.len() && new.names[i] == name;
        assert(names_of(new, rewired_set(old, new)).contains(new.names[i]));
    }
    if texts(r.restarted@).contains(name) {
        let a = choose|a: int| 0 <= a < texts(r.restarted@).len() && texts(r.restarted@)[a] == name;
        assert(new.names.contains(texts(r.restarted@)[a]));
    }
}

proof fn lemma_added(old: ProfileView, new: ProfileView, name: Seq<char>)
    requires
        new.wf(),
    ensures
        names_of(new, added_set(old, new)).contains(name) <==> new.names.contains(name)
            && !old.names.contains(name),
{
    let v = names_of(new, added_set(old, new));
    sets_are_named_once(new, added_set(old, new));
    if v.contains(name) {
        let a = choose|a: int| 0 <= a < v.len() && v[a] == name;
        assert(new.names.contains(v[a]));
        let i = choose|i: int| 0 <= i < new.names.len() && new.names[i] == name;
        assert(v.contains(new.names[i]));
    }
    if new.names.contains(name) && !old.names.contains(name) {
        let i = choose|i: int| 0 <= i < new.names.len() && new.names[i] == name;
        assert(added_set(old, new).contains(i));
        assert(v.contains(new.names[i]));
    }
}

/// A service is reported as only wired differently just where it is started as before
/// and depends on other services than before.
pub proof fn reports_tell_wiring_from_restarts(
    old: ProfileView,
    new: ProfileView,
    r: ReloadReport,
    j: int,
    i: int,
)
    requires
        old.wf(),
        new.wf(),
        reports(old, new, r),
        0 <= j < old.names.len(),
        0 <= i < new.names.len(),
        old.names[j] == new.names[i],
    ensures
        texts(r.edge_only@).contains(new.names[i]) <==> {
            &&& old.services[j].command == new.services[i].command
            &&& old.services[j].args == new.services[i].args
            &&& old.services[j].env == new.services[i].env
            &&& old.services[j].cwd == new.services[i].cwd
            &&& old.services[j].depends_on != new.services[i].depends_on
        },
{
    lemma_place(old, new.names[i], j);
    sets_are_named_once(new, rewired_set(old, new));
    assert(rewired_set(old, new).contains(i) == rewired(old.services[j], new.services[i]));
}

/// What a reload starts is what is new and what is restarted, each once, and each after
/// all that it depends on.
pub proof fn reloads_start_what_is_new_or_restarted(
    old: ProfileView,
    new: ProfileView,
    r: ReloadReport,
    start: Seq<Seq<char>>,
    name: Seq<char>,
)
    requires
        old.wf(),
        new.wf(),
        reports(old, new, r),
        listed(new, added_set(old, new).union(restart_set(old, new)), start),
    ensures
        start.no_duplicates(),
        start.contains(name) <==> texts(r.added@).contains(name) || texts(r.restarted@).contains(
            name,
        ),
        !cyclic(new) ==> forall|a: int, b: int, i: int|
            0 <= a < start.len() && 0 <= b < start.len() && 0 <= i < new.names.len()
                && #[trigger] start[a] == #[trigger] new.names[i]
                && new.services[i].depends_on.contains(#[trigger] start[b]) ==> b < a,
{
    let set = added_set(old, new).union(restart_set(old, new));
    members_are_listed_once(new, set, start);
    members_are_listed_once(new, restart_set(old, new), texts(r.restarted@));
    sets_are_named_once(new, added_set(old, new));
    reports_tell_added_from_removed(old, new, r, name);
    if new.names.contains(name) {
        let i = choose|i: int| 0 <= i < new.names.len() && new.names[i] == name;
        assert(start.contains(new.names[i]) <==> set.contains(i));
        assert(texts(r.restarted@).contains(new.names[i]) <==> restart_set(old, new).contains(i));
        assert(texts(r.added@).contains(new.names[i]) <==> added_set(old, new).contains(i));
    } else {
        if start.contains(name) {
            let a = choose|a: int| 0 <= a < start.len() && start[a] == name;
            assert(new.names.contains(start[a]));
        }
    }
    if !cyclic(new) {
        assert forall|a: int, b: int, i: int|
            0 <= a < start.len() && 0 <= b < start.len() && 0 <= i < new.names.len()
                && #[trigger] start[a] == #[trigger] new.names[i]
                && new.services[i].depends_on.contains(#[trigger] start[b]) implies b < a by {
            members_follow_their_dependencies(new, set, start, a, b, i);
        }
    }
}

// ---- What holds of stopping --------------------------------------------------

/// Where services can be brought up, taking down names each of them once, and each before
/// all that it depends on; otherwise it names none.
pub proof fn dependents_are_taken_down_first(p: ProfileView, v: Seq<Seq<char>>)
    requires
        p.wf(),
        teardown_order(p, v),
    ensures
        cyclic(p) ==> v.len() == 0,
        !cyclic(p) ==> {
            &&& v.len() == p.names.len()
            &&& v.no_duplicates()
            &&& forall|n: Seq<char>| #[trigger] v.contains(n) <==> p.names.contains(n)
            &&& forall|a: int, b: int, i: int|
                0 <= a < v.len() && 0 <= b < v.len() && 0 <= i < p.names.len() && #[trigger] v[a]
                    == #[trigger] p.names[i] && p.services[i].depends_on.contains(#[trigger] v[b])
                    ==> a < b
        },
{
    if !cyclic(p) {
        let order = choose|order: Seq<int>| #[trigger]
            listing_order(p, order) && v == names_at(p, order).reverse();
        lemma_listing_covers(p, order);
        let n = order.len();
        let back = order.reverse();
        assert forall|a: int| 0 <= a < n implies #[trigger] v[a] == p.names[back[a]] && 0 <= back[a]
            < p.names.len() by {
            assert(back[a] == order[n - 1 - a]);
            assert(v[a] == names_at(p, order)[n - 1 - a]);
        }
        assert forall|a: int, b: int| 0 <= a < n && 0 <= b < n && a != b implies v[a] != v[b] by {
            if v[a] == v[b] {
                places_are_unique(p.names, back[a], back[b]);
                assert(order[n - 1 - a] == order[n - 1 - b]);
            }
        }
        assert forall|m: Seq<char>| #[trigger] v.contains(m) <==> p.names.contains(m) by {
            if v.contains(m) {
                let a = choose|a: int| 0 <= a < v.len() && v[a] == m;
                assert(p.names[back[a]] == m);
            }
            if p.names.contains(m) {
                let i = choose|i: int| 0 <= i < p.names.len() && p.names[i] == m;
                assert(order.contains(i));
                let k = choose|k: int| 0 <= k < order.len() && order[k] == i;
                assert(back[n - 1 - k] == i);
                assert(v[n - 1 - k] == m);
            }
        }
        assert forall|a: int, b: int, i: int|
            0 <= a < v.len() && 0 <= b < v.len() && 0 <= i < p.names.len() && #[trigger] v[a]
                == #[trigger] p.names[i] && p.services[i].depends_on.contains(
                #[trigger] v[b],
            ) implies a < b by {
            places_are_unique(p.names, back[a], i);
            assert(p.depends(back[a], back[b]));
            assert(order[n - 1 - a] == back[a] && order[n - 1 - b] == back[b]);
            dependencies_come_first(p, order, n - 1 - a, n - 1 - b);
        }
    }
}

/// Of a list of names, those that are kept stay in their order, as often as they stand
/// there, and all others go.
pub proof fn kept_names_stay_in_order(v: Seq<Seq<char>>, w: Seq<Seq<char>>, keep: Set<Seq<char>>)
    ensures
        only(v + w, keep) == only(v, keep) + only(w, keep),
        forall|n: Seq<char>| #[trigger]
            only(seq![n], keep) == if keep.contains(n) {
                seq![n]
            } else {
                Seq::<Seq<char>>::empty()
            },
        (forall|a: int| 0 <= a < v.len() ==> keep.contains(#[trigger] v[a])) ==> only(v, keep) == v,
        forall|n: Seq<char>| #[trigger]
            only(v, keep).contains(n) <==> v.contains(n) && keep.contains(n),
    decreases v.len() + w.len(), v.len(),
{
    assert forall|n: Seq<char>| #[trigger] only(seq![n], keep) == if keep.contains(n) {
        seq![n]
    } else {
        Seq::<Seq<char>>::empty()
    } by {
        assert(seq![n].drop_last() =~= Seq::<Seq<char>>::empty());
        assert(only(seq![n].drop_last(), keep) =~= Seq::<Seq<char>>::empty());
        assert(Seq::<Seq<char>>::empty().push(n) =~= seq![n]);
    }
    if w.len() == 0 {
        assert(v + w =~= v);
        assert(only(v, keep) + only(w, keep) =~= only(v, keep));
    } else {
        kept_names_stay_in_order(v, w.drop_last(), keep);
        assert((v + w).drop_last() =~= v + w.drop_last());
        assert((v + w).last() == w.last());
        assert(only(v + w, keep) =~= only(v, keep) + only(w, keep));
    }
    if v.len() > 0 {
        let head = v.drop_last();
        kept_names_stay_in_order(head, Seq::empty(), keep);
        assert(v =~= head.push(v.last()));
        if forall|a: int| 0 <= a < v.len() ==> keep.contains(#[trigger] v[a]) {
            assert forall|a: int| 0 <= a < head.len() implies keep.contains(#[trigger] head[a]) by {
                assert(head[a] == v[a]);
            }
            assert(keep.contains(v[v.len() - 1]));
            assert(only(v, keep) =~= v);
        }
        let before = only(head, keep);
        assert forall|n: Seq<char>| #[trigger] only(v, keep).contains(n) <==> v.contains(n)
            && keep.contains(n) by {
            if only(v, keep).contains(n) {
                let m = choose|m: int| 0 <= m < only(v, keep).len() && only(v, keep)[m] == n;
                if m < before.len() {
                    assert(before[m] == n);
                    assert(before.contains(n));
                    let k = choose|k: int| 0 <= k < head.len() && head[k] == n;
                    assert(v[k] == n);
                } else {
                    assert(v[v.len() - 1] == n);
                }
            }
            if v.contains(n) && keep.contains(n) {
                let k = choose|k: int| 0 <= k < v.len() && v[k] == n;
                if k < head.len() {
                    assert(head[k] == n);
                    assert(before.contains(n));
                    let m = choose|m: int| 0 <= m < before.len() && before[m] == n;
                    assert(only(v, keep)[m] == n);
                } else {
                    assert(only(v, keep).last() == n);
                    assert(only(v, keep)[only(v, keep).len() - 1] == n);
                }
            }
        }
    }
}

/// The processes of services are listed in the order of the services: one for each that
/// has one.
pub proof fn processes_follow_their_services(
    v: Seq<Seq<char>>,
    w: Seq<Seq<char>>,
    jobs: Map<Seq<char>, u128>,
)
    ensures
        jobs_of(v + w, jobs) == jobs_of(v, jobs) + jobs_of(w, jobs),
        forall|n: Seq<char>| #[trigger]
            jobs_of(seq![n], jobs) == if jobs.contains_key(n) {
                seq![jobs[n]]
            } else {
                Seq::<u128>::empty()
            },
        (forall|a: int| 0 <= a < v.len() ==> jobs.contains_key(#[trigger] v[a])) ==> jobs_of(v, jobs)
            == Seq::new(v.len(), |a: int| jobs[v[a]]),
        forall|a: int|
            0 <= a < v.len() && jobs.contains_key(#[trigger] v[a]) ==> jobs_of(v, jobs).contains(
                jobs[v[a]],
            ),
    decreases v.len() + w.len(), v.len(),
{
    assert forall|n: Seq<char>| #[trigger] jobs_of(seq![n], jobs) == if jobs.contains_key(n) {
        seq![jobs[n]]
    } else {
        Seq::<u128>::empty()
    } by {
        assert(seq![n].drop_last() =~= Seq::<Seq<char>>::empty());
        assert(jobs_of(seq![n].drop_last(), jobs) =~= Seq::<u128>::empty());
        assert(Seq::<u128>::empty().push(jobs[n]) =~= seq![jobs[n]]);
    }
    if w.len() == 0 {
        assert(v + w =~= v);
        assert(jobs_of(v, jobs) + jobs_of(w, jobs) =~= jobs_of(v, jobs));
    } else {
        processes_follow_their_services(v, w.drop_last(), jobs);
        assert((v + w).drop_last() =~= v + w.drop_last());
        assert((v + w).last() == w.last());
        assert(jobs_of(v + w, jobs) =~= jobs_of(v, jobs) + jobs_of(w, jobs));
    }
    if v.len() > 0 {
        let head = v.drop_last();
        let before = jobs_of(head, jobs);
        processes_follow_their_services(head, Seq::empty(), jobs);
        if forall|a: int| 0 <= a < v.len() ==> jobs.contains_key(#[trigger] v[a]) {
            assert forall|a: int| 0 <= a < head.len() implies jobs.contains_key(
                #[trigger] head[a],
            ) by {
                assert(head[a] == v[a]);
            }
            assert(jobs.contains_key(v[v.len() - 1]));
            assert(jobs_of(v, jobs) =~= Seq::new(v.len(), |a: int| jobs[v[a]]));
        }
        assert forall|a: int|
            0 <= a < v.len() && jobs.contains_key(#[trigger] v[a]) implies jobs_of(
            v,
            jobs,
        ).contains(jobs[v[a]]) by {
            if a < head.len() {
                assert(head[a] == v[a]);
                assert(before.contains(jobs[v[a]]));
                let m = choose|m: int| 0 <= m < before.len() && before[m] == jobs[v[a]];
                assert(jobs_of(v, jobs)[m] == jobs[v[a]]);
            } else {
                assert(jobs_of(v, jobs)[before.len() as int] == jobs[v[a]]);
            }
        }
    }
}

} // verus!
