//! The order in which services are brought up and taken down, and which of them a
//! restart reaches.
use crate::errors::{LaunchError, LaunchErrorView};
use crate::launch::names::{has_text, push_text, texts};
use crate::launch::profile::{places, DependencyRestartMode, LaunchProfile, ProfileView};
use vstd::prelude::*;

verus! {

/// The names at a list of places.
pub open spec fn names_at(p: ProfileView, order: Seq<int>) -> Seq<Seq<char>> {
    Seq::new(order.len(), |i: int| p.names[order[i]])
}

/// The members of a set, in a given order.
pub open spec fn picked(order: Seq<int>, set: Set<int>) -> Seq<int>
    decreases order.len(),
{
    if order.len() == 0 {
        Seq::empty()
    } else if set.contains(order.last()) {
        picked(order.drop_last(), set).push(order.last())
    } else {
        picked(order.drop_last(), set)
    }
}

/// The places from 0 up to `n`.
pub open spec fn counting(n: int) -> Seq<int> {
    Seq::new(n as nat, |i: int| i)
}

/// Whether no order exists in which the services can be brought up.
pub open spec fn cyclic(p: ProfileView) -> bool {
    forall|order: Seq<int>| !#[trigger] p.start_order(order)
}

/// Whether `order` is the order in which services are listed: the order of bringing
/// up, or by name where the dependencies form a cycle.
pub open spec fn listing_order(p: ProfileView, order: Seq<int>) -> bool {
    if cyclic(p) {
        order == counting(p.count())
    } else {
        p.start_order(order) && p.by_name(order)
    }
}

proof fn lemma_same_prefix(p: ProfileView, x: Seq<int>, y: Seq<int>, a: int)
    requires
        p.start_order(x),
        p.by_name(x),
        p.start_order(y),
        p.by_name(y),
        0 <= a <= p.count(),
    ensures
        x.take(a) == y.take(a),
    decreases a,
{
    if a > 0 {
        lemma_same_prefix(p, x, y, a - 1);
        let px = x.take(a - 1);
        let py = y.take(a - 1);
        assert(p.ready(px, x[a - 1]));
        assert(p.ready(py, y[a - 1]));
        assert(!px.contains(x[a - 1])) by {
            if px.contains(x[a - 1]) {
                let k = choose|k: int| 0 <= k < px.len() && px[k] == x[a - 1];
                assert(x[k] == x[a - 1]);
            }
        }
        assert(!py.contains(y[a - 1])) by {
            if py.contains(y[a - 1]) {
                let k = choose|k: int| 0 <= k < py.len() && py[k] == y[a - 1];
                assert(y[k] == y[a - 1]);
            }
        }
        assert(x[a - 1] == y[a - 1]);
        assert(x.take(a) =~= px.push(x[a - 1]));
        assert(y.take(a) =~= py.push(y[a - 1]));
    } else {
        assert(x.take(0) =~= y.take(0));
    }
}

/// A profile determines the order in which its services are listed.
pub proof fn listing_order_is_unique(p: ProfileView, x: Seq<int>, y: Seq<int>)
    requires
        listing_order(p, x),
        listing_order(p, y),
    ensures
        x == y,
{
    if !cyclic(p) {
        lemma_same_prefix(p, x, y, p.count());
        assert(x.take(p.count()) =~= x);
        assert(y.take(p.count()) =~= y);
    }
}

/// The names of the services at a list of places.
fn collect_names(profile: &LaunchProfile, order: &Vec<usize>) -> (r: Vec<String>)
    requires
        profile.wf(),
        forall|a: int| 0 <= a < order@.len() ==> 0 <= #[trigger] places(order@)[a] < profile@.count(),
    ensures
        texts(r@) == names_at(profile@, places(order@)),
{
    let mut r: Vec<String> = Vec::new();
    let mut i: usize = 0;
    let ghost all = names_at(profile@, places(order@));
    while i < order.len()
        invariant
            profile.wf(),
            all == names_at(profile@, places(order@)),
            forall|a: int|
                0 <= a < order@.len() ==> 0 <= #[trigger] places(order@)[a] < profile@.count(),
            i <= order@.len(),
            texts(r@) == all.take(i as int),
        decreases order@.len() - i,
    {
        assert(0 <= places(order@)[i as int] < profile@.count());
        let name = profile.services.name_at(order[i]);
        assert(places(order@)[i as int] == order@[i as int]);
        push_text(&mut r, name.as_str());
        i = i + 1;
        assert(texts(r@) =~= all.take(i as int));
    }
    assert(all.take(i as int) =~= all);
    r
}

/// The services in the order of bringing up: each after all that it depends on.
pub fn topo_order(profile: &LaunchProfile) -> (r: Result<Vec<String>, LaunchError>)
    requires
        profile.wf(),
    ensures
        r is Ok <==> !cyclic(profile@),
        r matches Err(e) ==> e@ == LaunchErrorView::CycleDetected,
        r matches Ok(v) ==> exists|order: Seq<int>| #[trigger]
            listing_order(profile@, order) && texts(v@) == names_at(profile@, order),
{
    match profile.topological_order() {
        Ok(order) => {
            let v = collect_names(profile, &order);
            proof {
                assert(listing_order(profile@, places(order@)));
            }
            Ok(v)
        },
        Err(e) => Err(e),
    }
}

/// Reverses a list of strings.
fn reversed(v: Vec<String>) -> (r: Vec<String>)
    ensures
        r@ == v@.reverse(),
{
    let mut rest = v;
    let mut r: Vec<String> = Vec::new();
    let ghost all = rest@;
    while rest.len() > 0
        invariant
            r@ + rest@.reverse() == all.reverse(),
        decreases rest@.len(),
    {
        let ghost before = rest@;
        let ghost done = r@;
        match rest.pop() {
            Some(s) => {
                r.push(s);
                proof {
                    assert(before.reverse() =~= seq![s] + rest@.reverse());
                    assert(r@ + rest@.reverse() =~= done + before.reverse());
                }
            },
            None => {},
        }
    }
    assert(r@ + rest@.reverse() =~= r@);
    r
}

/// The services in the order of taking down: each before all that it depends on.
pub fn reverse_topo(profile: &LaunchProfile) -> (r: Result<Vec<String>, LaunchError>)
    requires
        profile.wf(),
    ensures
        r is Ok <==> !cyclic(profile@),
        r matches Err(e) ==> e@ == LaunchErrorView::CycleDetected,
        r matches Ok(v) ==> exists|order: Seq<int>| #[trigger]
            listing_order(profile@, order) && texts(v@) == names_at(profile@, order).reverse(),
{
    match topo_order(profile) {
        Ok(v) => {
            let ghost fwd = texts(v@);
            let w = reversed(v);
            assert(texts(w@) =~= fwd.reverse());
            Ok(w)
        },
        Err(e) => Err(e),
    }
}

// ---- Restarts --------------------------------------------------------------

/// Whether a restart of the services in `changed` reaches service `i` within `n` steps:
/// it restarts with what it depends on, and it depends on a changed service or on one
/// that was reached before.
pub open spec fn reached(p: ProfileView, changed: Seq<Seq<char>>, i: int, n: nat) -> bool
    decreases n,
{
    &&& n > 0
    &&& p.services[i].on_dependency_restart == DependencyRestartMode::Restart
    &&& (exists|c: int|
        0 <= c < changed.len() && p.services[i].depends_on.contains(#[trigger] changed[c]))
        || (exists|j: int|
        0 <= j < p.count() && #[trigger] p.depends(i, j) && reached(
            p,
            changed,
            j,
            (n - 1) as nat,
        ))
}

/// Whether a restart of the services in `changed` reaches service `i`.
pub open spec fn cascades(p: ProfileView, changed: Seq<Seq<char>>, i: int) -> bool {
    exists|n: nat| #[trigger] reached(p, changed, i, n)
}

/// The services that a restart of those in `changed` reaches.
pub open spec fn cascade(p: ProfileView, changed: Seq<Seq<char>>) -> Set<int> {
    Set::new(|i: int| 0 <= i < p.count() && cascades(p, changed, i))
}

/// The places whose flag is set.
pub open spec fn flagged(flags: Seq<bool>) -> Set<int> {
    Set::new(|i: int| 0 <= i < flags.len() && flags[i])
}

/// Whether service `i` restarts with what it depends on, and depends on a changed service
/// or on one that is flagged.
fn is_hit(profile: &LaunchProfile, changed: &Vec<String>, flags: &Vec<bool>, i: usize) -> (r: bool)
    requires
        profile.wf(),
        flags@.len() == profile@.count(),
        i < profile@.count(),
    ensures
        ({
            let p = profile@;
            r == (p.services[i as int].on_dependency_restart == DependencyRestartMode::Restart && ((
            exists|c: int|
                0 <= c < texts(changed@).len() && p.services[i as int].depends_on.contains(
                    #[trigger] texts(changed@)[c],
                )) || (exists|j: int|
                0 <= j < p.count() && #[trigger] p.depends(i as int, j) && flags@[j])))
        }),
{
    let service = profile.services.val_at(i);
    let ghost p = profile@;
    let ghost deps = texts(service.depends_on@);
    assert(p.services[i as int].depends_on == deps);
    if service.on_dependency_restart != DependencyRestartMode::Restart {
        return false;
    }
    let mut d: usize = 0;
    while d < service.depends_on.len()
        invariant
            profile.wf(),
            p == profile@,
            i < p.count(),
            flags@.len() == p.count(),
            deps == texts(service.depends_on@),
            p.services[i as int].depends_on == deps,
            p.services[i as int].on_dependency_restart == DependencyRestartMode::Restart,
            d <= deps.len(),
            forall|k: int| 0 <= k < d ==> !texts(changed@).contains(#[trigger] deps[k]),
            forall|k: int, j: int|
                0 <= k < d && 0 <= j < p.count() && #[trigger] deps[k] == #[trigger] p.names[j]
                    ==> !flags@[j],
        decreases deps.len() - d,
    {
        let name = service.depends_on[d].as_str();
        assert(deps[d as int] == name@);
        if has_text(changed, name) {
            proof {
                let c = choose|c: int| 0 <= c < texts(changed@).len() && texts(changed@)[c] == name@;
                assert(p.services[i as int].depends_on.contains(texts(changed@)[c]));
            }
            return true;
        }
        match profile.services.find(name) {
            Some(j) => {
                proof {
                    assert(p.depends(i as int, j as int));
                    assert forall|j2: int|
                        0 <= j2 < p.count() && deps[d as int] == #[trigger] p.names[j2] implies j2
                        == j by {
                        crate::launch::names::places_are_unique(p.names, j as int, j2);
                    }
                }
                if flags[j] {
                    return true;
                }
            },
            None => {},
        }
        d = d + 1;
    }
    proof {
        assert forall|c: int| 0 <= c < texts(changed@).len() implies !deps.contains(
            #[trigger] texts(changed@)[c],
        ) by {
            if deps.contains(texts(changed@)[c]) {
                let k = choose|k: int| 0 <= k < deps.len() && deps[k] == texts(changed@)[c];
                assert(texts(changed@).contains(deps[k]));
            }
        }
        assert forall|j: int| 0 <= j < p.count() && #[trigger] p.depends(i as int, j) implies
            !flags@[j] by {
            let k = choose|k: int| 0 <= k < deps.len() && deps[k] == p.names[j];
            assert(deps[k] == p.names[j]);
        }
    }
    false
}

proof fn lemma_closed(p: ProfileView, changed: Seq<Seq<char>>, flags: Seq<bool>, i: int, n: nat)
    requires
        flags.len() == p.count(),
        0 <= i < p.count(),
        reached(p, changed, i, n),
        forall|k: int|
            0 <= k < p.count() && !#[trigger] flags[k] ==> !(
            p.services[k].on_dependency_restart == DependencyRestartMode::Restart && ((exists|c: int|
                0 <= c < changed.len() && p.services[k].depends_on.contains(#[trigger] changed[c]))
                || (exists|j: int|
                0 <= j < p.count() && #[trigger] p.depends(k, j) && flags[j]))),
    ensures
        flags[i],
    decreases n,
{
    if !(exists|c: int|
        0 <= c < changed.len() && p.services[i].depends_on.contains(#[trigger] changed[c])) {
        let j = choose|j: int|
            0 <= j < p.count() && #[trigger] p.depends(i, j) && reached(
                p,
                changed,
                j,
                (n - 1) as nat,
            );
        lemma_closed(p, changed, flags, j, (n - 1) as nat);
    }
}

/// Flags the services that a restart of those in `changed` reaches.
pub fn cascade_flags(profile: &LaunchProfile, changed: &Vec<String>) -> (flags: Vec<bool>)
    requires
        profile.wf(),
    ensures
        flags@.len() == profile@.count(),
        flagged(flags@) == cascade(profile@, texts(changed@)),
{
    let ghost p = profile@;
    let ghost names = texts(changed@);
    let n = profile.services.len();
    let mut flags: Vec<bool> = Vec::new();
    while flags.len() < n
        invariant
            n == p.count(),
            flags@.len() <= n,
            forall|j: int| 0 <= j < flags@.len() ==> !#[trigger] flags@[j],
            unset(flags@) == flags@.len(),
        decreases n - flags@.len(),
    {
        let ghost before = flags@;
        flags.push(false);
        assert(flags@.drop_last() =~= before);
    }
    let mut i: usize = 0;
    // After each new flag the search starts over; there are at most as many flags as
    // services.
    let mut left: usize = n;
    while i < n
        invariant
            profile.wf(),
            p == profile@,
            names == texts(changed@),
            n == p.count(),
            flags@.len() == n,
            i <= n,
            left <= n,
            left == unset(flags@),
            forall|k: int|
                0 <= k < n && #[trigger] flags@[k] ==> cascades(p, names, k),
            forall|k: int|
                0 <= k < i && !#[trigger] flags@[k] ==> !(p.services[k].on_dependency_restart
                    == DependencyRestartMode::Restart && ((exists|c: int|
                    0 <= c < names.len() && p.services[k].depends_on.contains(#[trigger] names[c]))
                    || (exists|j: int|
                    0 <= j < p.count() && #[trigger] p.depends(k, j) && flags@[j]))),
        decreases left, n - i,
    {
        if !flags[i] && is_hit(profile, changed, &flags, i) {
            proof {
                if exists|c: int|
                    0 <= c < names.len() && p.services[i as int].depends_on.contains(
                        #[trigger] names[c],
                    ) {
                    assert(reached(p, names, i as int, 1));
                } else {
                    let j = choose|j: int|
                        0 <= j < p.count() && #[trigger] p.depends(i as int, j) && flags@[j];
                    let m = choose|m: nat| #[trigger] reached(p, names, j, m);
                    assert(reached(p, names, i as int, m + 1));
                }
                lemma_unset_less(flags@, i as int);
            }
            flags.set(i, true);
            left = left - 1;
            i = 0;
        } else {
            i = i + 1;
        }
    }
    proof {
        assert(flagged(flags@) =~= cascade(p, names)) by {
            assert forall|k: int| 0 <= k < n && cascades(p, names, k) implies flags@[k] by {
                let m = choose|m: nat| #[trigger] reached(p, names, k, m);
                lemma_closed(p, names, flags@, k, m);
            }
        }
    }
    flags
}

/// How many flags are not set.
pub open spec fn unset(flags: Seq<bool>) -> nat
    decreases flags.len(),
{
    if flags.len() == 0 {
        0
    } else {
        unset(flags.drop_last()) + if flags.last() {
            0nat
        } else {
            1nat
        }
    }
}

proof fn lemma_unset_less(flags: Seq<bool>, i: int)
    requires
        0 <= i < flags.len(),
        !flags[i],
    ensures
        unset(flags) > 0,
        unset(flags.update(i, true)) == unset(flags) - 1,
    decreases flags.len(),
{
    let after = flags.update(i, true);
    if i == flags.len() - 1 {
        assert(after.drop_last() =~= flags.drop_last());
    } else {
        lemma_unset_less(flags.drop_last(), i);
        assert(after.drop_last() =~= flags.drop_last().update(i, true));
    }
}

/// Whether `v` names the members of a set in the order in which services are listed.
pub open spec fn listed(p: ProfileView, set: Set<int>, v: Seq<Seq<char>>) -> bool {
    exists|order: Seq<int>| #[trigger]
        listing_order(p, order) && v == names_at(p, picked(order, set))
}

/// Names the flagged services in the order of bringing up, or by name where the
/// dependencies form a cycle.
pub fn list_flagged(profile: &LaunchProfile, flags: &Vec<bool>) -> (r: Vec<String>)
    requires
        profile.wf(),
        flags@.len() == profile@.count(),
    ensures
        listed(profile@, flagged(flags@), texts(r@)),
{
    let ghost p = profile@;
    let order: Vec<usize> = match profile.topological_order() {
        Ok(order) => order,
        Err(_) => {
            let n = profile.services.len();
            let mut all: Vec<usize> = Vec::new();
            while all.len() < n
                invariant
                    n == p.count(),
                    all@.len() <= n,
                    forall|k: int| 0 <= k < all@.len() ==> #[trigger] all@[k] == k,
                decreases n - all@.len(),
            {
                let k = all.len();
                all.push(k);
            }
            assert(places(all@) =~= counting(p.count()));
            all
        },
    };
    let ghost o = places(order@);
    assert(listing_order(p, o));
    assert(forall|a: int| 0 <= a < o.len() ==> 0 <= #[trigger] o[a] < p.count());
    let mut kept: Vec<usize> = Vec::new();
    let mut i: usize = 0;
    assert(places(kept@) =~= picked(o.take(0), flagged(flags@)));
    while i < order.len()
        invariant
            p == profile@,
            flags@.len() == p.count(),
            o == places(order@),
            forall|a: int| 0 <= a < o.len() ==> 0 <= #[trigger] o[a] < p.count(),
            i <= order@.len(),
            places(kept@) == picked(o.take(i as int), flagged(flags@)),
            forall|a: int|
                0 <= a < kept@.len() ==> 0 <= #[trigger] places(kept@)[a] < p.count(),
        decreases order@.len() - i,
    {
        let k: usize = order[i];
        let ghost before = places(kept@);
        proof {
            assert(o[i as int] == k);
            assert(o.take(i + 1).drop_last() =~= o.take(i as int));
            assert(o.take(i + 1).last() == k);
        }
        if flags[k] {
            kept.push(k);
            proof {
                assert(places(kept@) =~= before.push(k as int));
            }
        }
        i = i + 1;
    }
    assert(o.take(i as int) =~= o);
    collect_names(profile, &kept)
}

/// The services that must restart when those in `changed` do: the ones that depend on
/// them, directly or through others, and restart with what they depend on. A service
/// that ignores such restarts cuts the chain. They are named in the order of bringing
/// up, or by name where the dependencies form a cycle.
pub fn restart_closure(profile: &LaunchProfile, changed: &Vec<String>) -> (r: Vec<String>)
    requires
        profile.wf(),
    ensures
        listed(profile@, cascade(profile@, texts(changed@)), texts(r@)),
{
    let flags = cascade_flags(profile, changed);
    list_flagged(profile, &flags)
}

// ---- What holds of the orders ------------------------------------------------

/// In the order of bringing up, a service comes after every service that it depends on.
pub proof fn dependencies_come_first(p: ProfileView, order: Seq<int>, a: int, b: int)
    requires
        p.start_order(order),
        0 <= a < order.len(),
        0 <= b < order.len(),
        p.depends(order[a], order[b]),
    ensures
        b < a,
{
    assert(p.ready(order.take(a), order[a]));
    let k = choose|k: int| 0 <= k < order.take(a).len() && order.take(a)[k] == order[b];
    assert(order[k] == order[b]);
}

/// In the order of taking down, which is the reverse, a service comes before every
/// service that it depends on.
pub proof fn dependents_go_first(p: ProfileView, order: Seq<int>, a: int, b: int)
    requires
        p.start_order(order),
        0 <= a < order.len(),
        0 <= b < order.len(),
        p.depends(order.reverse()[a], order.reverse()[b]),
    ensures
        a < b,
{
    let n = order.len();
    dependencies_come_first(p, order, n - 1 - a, n - 1 - b);
}

/// Services that depend on each other in a circle cannot be brought up.
pub proof fn circle_is_cyclic(p: ProfileView, circle: Seq<int>)
    requires
        circle.len() > 0,
        forall|k: int| 0 <= k < circle.len() ==> 0 <= #[trigger] circle[k] < p.count(),
        forall|k: int| 0 <= k < circle.len() - 1 ==> #[trigger] p.depends(circle[k], circle[k + 1]),
        p.depends(circle.last(), circle[0]),
    ensures
        cyclic(p),
{
    assert forall|order: Seq<int>| !#[trigger] p.start_order(order) by {
        if p.start_order(order) {
            let at = lemma_positions(p, order, circle, circle.len() - 1);
            let first = lemma_positions(p, order, circle, 0);
            lemma_circle_descends(p, order, circle, circle.len() - 1);
            dependencies_come_first(p, order, at, first);
            lemma_position_unique(order, first, position(order, circle[0]));
            lemma_position_unique(order, at, position(order, circle.last()));
        }
    }
}

/// The place of a service in an order.
pub open spec fn position(order: Seq<int>, i: int) -> int {
    choose|k: int| 0 <= k < order.len() && order[k] == i
}

proof fn lemma_position_unique(order: Seq<int>, a: int, b: int)
    requires
        order.no_duplicates(),
        0 <= a < order.len(),
        0 <= b < order.len(),
        order[a] == order[b],
    ensures
        a == b,
{
}

proof fn lemma_positions(p: ProfileView, order: Seq<int>, circle: Seq<int>, k: int) -> (at: int)
    requires
        p.start_order(order),
        0 <= k < circle.len(),
        0 <= circle[k] < p.count(),
    ensures
        0 <= at < order.len(),
        order[at] == circle[k],
        at == position(order, circle[k]),
{
    assert(order.contains(circle[k])) by {
        order.unique_seq_to_set();
        vstd::seq_lib::seq_to_set_is_finite(order);
        let all = vstd::set_lib::set_int_range(0, p.count());
        vstd::set_lib::lemma_int_range(0, p.count());
        assert(order.to_set().subset_of(all));
        vstd::set_lib::lemma_subset_equality(order.to_set(), all);
        assert(all.contains(circle[k]));
        assert(order.to_set().contains(circle[k]));
    }
    position(order, circle[k])
}

proof fn lemma_circle_descends(p: ProfileView, order: Seq<int>, circle: Seq<int>, k: int)
    requires
        p.start_order(order),
        forall|i: int| 0 <= i < circle.len() ==> 0 <= #[trigger] circle[i] < p.count(),
        forall|i: int| 0 <= i < circle.len() - 1 ==> #[trigger] p.depends(circle[i], circle[i + 1]),
        0 <= k < circle.len(),
    ensures
        position(order, circle[k]) <= position(order, circle[0]),
    decreases k,
{
    if k > 0 {
        lemma_circle_descends(p, order, circle, k - 1);
        let a = lemma_positions(p, order, circle, k - 1);
        let b = lemma_positions(p, order, circle, k);
        assert(p.depends(circle[k - 1], circle[k - 1 + 1]));
        dependencies_come_first(p, order, a, b);
    }
}

/// A service that ignores restarts of what it depends on is never reached by one.
pub proof fn ignoring_services_are_not_reached(p: ProfileView, changed: Seq<Seq<char>>, i: int)
    requires
        p.services[i].on_dependency_restart == DependencyRestartMode::Ignore,
    ensures
        !cascades(p, changed, i),
{
}

/// A restart reaches on: what restarts with what it depends on, and depends on a service
/// that is reached, is reached too.
pub proof fn restarts_reach_on(p: ProfileView, changed: Seq<Seq<char>>, i: int, j: int)
    requires
        0 <= j < p.count(),
        cascades(p, changed, j),
        p.depends(i, j),
        p.services[i].on_dependency_restart == DependencyRestartMode::Restart,
    ensures
        cascades(p, changed, i),
{
    let n = choose|n: nat| #[trigger] reached(p, changed, j, n);
    assert(reached(p, changed, i, n + 1));
}

/// A service is reached only through another: every service that is reached depends on a
/// changed service, or on one that is reached.
pub proof fn restarts_need_a_cause(p: ProfileView, changed: Seq<Seq<char>>, i: int)
    requires
        cascades(p, changed, i),
    ensures
        (exists|c: int|
            0 <= c < changed.len() && p.services[i].depends_on.contains(#[trigger] changed[c])) || (
        exists|j: int|
            0 <= j < p.count() && #[trigger] p.depends(i, j) && cascades(p, changed, j)),
{
    let n = choose|n: nat| #[trigger] reached(p, changed, i, n);
    if !(exists|c: int|
        0 <= c < changed.len() && p.services[i].depends_on.contains(#[trigger] changed[c])) {
        let j = choose|j: int|
            0 <= j < p.count() && #[trigger] p.depends(i, j) && reached(
                p,
                changed,
                j,
                (n - 1) as nat,
            );
        assert(cascades(p, changed, j));
    }
}

/// A service that restarts with what it depends on, and depends on a changed service, is
/// reached.
pub proof fn direct_dependents_are_reached(
    p: ProfileView,
    changed: Seq<Seq<char>>,
    i: int,
    name: Seq<char>,
)
    requires
        0 <= i < p.count(),
        changed.contains(name),
        p.services[i].depends_on.contains(name),
        p.services[i].on_dependency_restart == DependencyRestartMode::Restart,
    ensures
        cascade(p, changed).contains(i),
{
    let c = choose|c: int| 0 <= c < changed.len() && changed[c] == name;
    assert(p.services[i].depends_on.contains(changed[c]));
    assert(reached(p, changed, i, 1));
}

/// Where nothing changed, nothing is reached.
pub proof fn no_change_reaches_nothing(p: ProfileView, i: int)
    ensures
        !cascade(p, Seq::empty()).contains(i),
{
    if cascades(p, Seq::empty(), i) {
        let n = choose|n: nat| #[trigger] reached(p, Seq::empty(), i, n);
        lemma_no_start(p, i, n);
    }
}

proof fn lemma_no_start(p: ProfileView, i: int, n: nat)
    ensures
        !reached(p, Seq::empty(), i, n),
    decreases n,
{
    if reached(p, Seq::empty(), i, n) {
        let j = choose|j: int|
            0 <= j < p.count() && #[trigger] p.depends(i, j) && reached(
                p,
                Seq::empty(),
                j,
                (n - 1) as nat,
            );
        lemma_no_start(p, j, (n - 1) as nat);
    }
}

/// What more changes reach includes what fewer reach.
pub proof fn more_changes_reach_more(
    p: ProfileView,
    few: Seq<Seq<char>>,
    many: Seq<Seq<char>>,
    i: int,
)
    requires
        forall|n: Seq<char>| #[trigger] few.contains(n) ==> many.contains(n),
        cascade(p, few).contains(i),
    ensures
        cascade(p, many).contains(i),
{
    let n = choose|n: nat| #[trigger] reached(p, few, i, n);
    lemma_reach_grows(p, few, many, i, n);
}

proof fn lemma_reach_grows(
    p: ProfileView,
    few: Seq<Seq<char>>,
    many: Seq<Seq<char>>,
    i: int,
    n: nat,
)
    requires
        forall|n: Seq<char>| #[trigger] few.contains(n) ==> many.contains(n),
        reached(p, few, i, n),
    ensures
        reached(p, many, i, n),
    decreases n,
{
    if exists|c: int|
        0 <= c < few.len() && p.services[i].depends_on.contains(#[trigger] few[c]) {
        let c = choose|c: int|
            0 <= c < few.len() && p.services[i].depends_on.contains(#[trigger] few[c]);
        assert(few.contains(few[c]));
        let d = choose|d: int| 0 <= d < many.len() && many[d] == few[c];
        assert(p.services[i].depends_on.contains(many[d]));
    } else {
        let j = choose|j: int|
            0 <= j < p.count() && #[trigger] p.depends(i, j) && reached(p, few, j, (n - 1) as nat);
        lemma_reach_grows(p, few, many, j, (n - 1) as nat);
    }
}

pub(crate) proof fn lemma_picked(order: Seq<int>, set: Set<int>)
    requires
        order.no_duplicates(),
    ensures
        picked(order, set).no_duplicates(),
        forall|i: int| #[trigger]
            picked(order, set).contains(i) <==> order.contains(i) && set.contains(i),
    decreases order.len(),
{
    if order.len() > 0 {
        let head = order.drop_last();
        let last = order.last();
        let before = picked(head, set);
        lemma_picked(head, set);
        assert(order =~= head.push(last));
        assert(!head.contains(last));
        assert forall|i: int| #[trigger]
            picked(order, set).contains(i) <==> order.contains(i) && set.contains(i) by {
            if order.contains(i) {
                let k = choose|k: int| 0 <= k < order.len() && order[k] == i;
                if k < head.len() {
                    assert(head[k] == i);
                    assert(head.contains(i));
                }
                if set.contains(i) {
                    if k < head.len() {
                        assert(before.contains(i));
                        let m = choose|m: int| 0 <= m < before.len() && before[m] == i;
                        assert(picked(order, set)[m] == i);
                    } else {
                        assert(picked(order, set).last() == i);
                    }
                }
            }
            if picked(order, set).contains(i) {
                let m = choose|m: int|
                    0 <= m < picked(order, set).len() && picked(order, set)[m] == i;
                if m < before.len() {
                    assert(before[m] == i);
                    assert(before.contains(i));
                    let k = choose|k: int| 0 <= k < head.len() && head[k] == i;
                    assert(order[k] == i);
                } else {
                    assert(order[order.len() - 1] == i);
                }
            }
        }
        if set.contains(last) {
            assert(!before.contains(last));
            assert(picked(order, set) == before.push(last));
            assert forall|a: int, b: int|
                0 <= a < before.len() + 1 && 0 <= b < before.len() + 1 && a != b implies before.push(
                last,
            )[a] != before.push(last)[b] by {
                if a < before.len() {
                    assert(before.contains(before[a]));
                }
                if b < before.len() {
                    assert(before.contains(before[b]));
                }
            }
        }
    }
}

/// Picking keeps the order.
pub(crate) proof fn lemma_picked_in_order(order: Seq<int>, set: Set<int>, a: int, b: int) -> (r: (
    int,
    int,
))
    requires
        0 <= a < b < picked(order, set).len(),
    ensures
        0 <= r.0 < r.1 < order.len(),
        order[r.0] == picked(order, set)[a],
        order[r.1] == picked(order, set)[b],
    decreases order.len(),
{
    let head = order.drop_last();
    let before = picked(head, set);
    if b < before.len() {
        lemma_picked_in_order(head, set, a, b)
    } else {
        let x = lemma_picked_place(head, set, a);
        (x, order.len() - 1)
    }
}

proof fn lemma_picked_place(order: Seq<int>, set: Set<int>, a: int) -> (x: int)
    requires
        0 <= a < picked(order, set).len(),
    ensures
        0 <= x < order.len(),
        order[x] == picked(order, set)[a],
    decreases order.len(),
{
    let head = order.drop_last();
    if a < picked(head, set).len() {
        lemma_picked_place(head, set, a)
    } else {
        order.len() - 1
    }
}

pub(crate) proof fn lemma_listing_covers(p: ProfileView, order: Seq<int>)
    requires
        listing_order(p, order),
    ensures
        order.no_duplicates(),
        order.len() == p.count(),
        forall|a: int| 0 <= a < order.len() ==> 0 <= #[trigger] order[a] < p.count(),
        forall|i: int| #[trigger] order.contains(i) <==> 0 <= i < p.count(),
{
    assert forall|i: int| 0 <= i < p.count() implies #[trigger] order.contains(i) by {
        if cyclic(p) {
            assert(order[i] == i);
        } else {
            let one = seq![i];
            assert(one[0] == i);
            let at = lemma_positions(p, order, one, 0);
            assert(order[at] == i);
        }
    }
}

/// A list of services in the order of bringing up names every member of the set, no other
/// service, and none twice.
pub proof fn members_are_listed_once(p: ProfileView, set: Set<int>, v: Seq<Seq<char>>)
    requires
        p.wf(),
        listed(p, set, v),
    ensures
        v.no_duplicates(),
        forall|i: int|
            0 <= i < p.names.len() ==> (v.contains(#[trigger] p.names[i]) <==> set.contains(i)),
        forall|a: int| 0 <= a < v.len() ==> p.names.contains(#[trigger] v[a]),
{
    let order = choose|order: Seq<int>| #[trigger]
        listing_order(p, order) && v == names_at(p, picked(order, set));
    lemma_listing_covers(p, order);
    lemma_named(p, order, set);
}

pub(crate) proof fn lemma_named(p: ProfileView, order: Seq<int>, set: Set<int>)
    requires
        p.wf(),
        order.no_duplicates(),
        forall|i: int| #[trigger] order.contains(i) <==> 0 <= i < p.count(),
    ensures
        ({
            let v = names_at(p, picked(order, set));
            &&& v.no_duplicates()
            &&& forall|i: int|
                0 <= i < p.names.len() ==> (v.contains(#[trigger] p.names[i]) <==> set.contains(i))
            &&& forall|a: int| 0 <= a < v.len() ==> p.names.contains(#[trigger] v[a])
        }),
{
    let chosen = picked(order, set);
    let v = names_at(p, chosen);
    lemma_picked(order, set);
    assert forall|a: int| 0 <= a < v.len() implies p.names.contains(#[trigger] v[a]) && 0
        <= chosen[a] < p.count() by {
        assert(chosen.contains(chosen[a]));
        assert(order.contains(chosen[a]));
        assert(p.names[chosen[a]] == v[a]);
    }
    assert forall|a: int, b: int| 0 <= a < v.len() && 0 <= b < v.len() && a != b implies v[a]
        != v[b] by {
        assert(p.names.contains(v[a]) && p.names.contains(v[b]));
        if v[a] == v[b] {
            crate::launch::names::places_are_unique(p.names, chosen[a], chosen[b]);
        }
    }
    assert forall|i: int| 0 <= i < p.names.len() implies (v.contains(#[trigger] p.names[i])
        <==> set.contains(i)) by {
        if v.contains(p.names[i]) {
            let a = choose|a: int| 0 <= a < v.len() && v[a] == p.names[i];
            assert(p.names.contains(v[a]));
            crate::launch::names::places_are_unique(p.names, chosen[a], i);
            assert(chosen.contains(chosen[a]));
        }
        if set.contains(i) {
            assert(order.contains(i));
            assert(chosen.contains(i));
            let a = choose|a: int| 0 <= a < chosen.len() && chosen[a] == i;
            assert(v[a] == p.names[i]);
        }
    }
}

/// Where the dependencies form no circle, a service is listed after every service that it
/// depends on.
pub proof fn members_follow_their_dependencies(
    p: ProfileView,
    set: Set<int>,
    v: Seq<Seq<char>>,
    a: int,
    b: int,
    i: int,
)
    requires
        p.wf(),
        !cyclic(p),
        listed(p, set, v),
        0 <= a < v.len(),
        0 <= b < v.len(),
        0 <= i < p.names.len(),
        v[a] == p.names[i],
        p.services[i].depends_on.contains(v[b]),
    ensures
        b < a,
{
    let order = choose|order: Seq<int>| #[trigger]
        listing_order(p, order) && v == names_at(p, picked(order, set));
    lemma_listing_covers(p, order);
    lemma_picked(order, set);
    let chosen = picked(order, set);
    assert(chosen.contains(chosen[a]) && chosen.contains(chosen[b]));
    assert(order.contains(chosen[a]) && order.contains(chosen[b]));
    crate::launch::names::places_are_unique(p.names, chosen[a], i);
    assert(p.depends(chosen[a], chosen[b]));
    if a == b {
        let x = lemma_picked_place(order, set, a);
        dependencies_come_first(p, order, x, x);
    }
    if a < b {
        let (x, y) = lemma_picked_in_order(order, set, a, b);
        dependencies_come_first(p, order, x, y);
    }
}

/// In the order of bringing up, every service stands once.
pub proof fn every_service_is_brought_up_once(p: ProfileView, order: Seq<int>, i: int)
    requires
        listing_order(p, order),
        0 <= i < p.names.len(),
    ensures
        order.len() == p.names.len(),
        order.no_duplicates(),
        order.contains(i),
{
    lemma_listing_covers(p, order);
}

/// In the order of bringing up, a service whose name comes earlier is put off only while
/// something that it depends on is still to come.
pub proof fn only_dependencies_put_off(p: ProfileView, order: Seq<int>, a: int, i: int)
    requires
        listing_order(p, order),
        0 <= a < order.len(),
        0 <= i < order[a],
        !order.take(a).contains(i),
    ensures
        exists|j: int|
            0 <= j < p.names.len() && p.services[i].depends_on.contains(#[trigger] p.names[j])
                && !order.take(a).contains(j),
{
    lemma_listing_covers(p, order);
    if cyclic(p) {
        assert(order.take(a)[i] == i);
    } else {
        assert(!p.ready(order.take(a), i));
        let j = choose|j: int|
            0 <= j < p.count() && #[trigger] p.depends(i, j) && !order.take(a).contains(j);
        assert(p.services[i].depends_on.contains(p.names[j]));
    }
}

/// Services can be brought up just where some order has each after all that it depends
/// on.
pub proof fn ordered_services_are_not_cyclic(p: ProfileView, order: Seq<int>)
    requires
        order.len() == p.names.len(),
        order.no_duplicates(),
        forall|a: int| 0 <= a < order.len() ==> 0 <= #[trigger] order[a] < p.names.len(),
        forall|a: int, j: int|
            #![trigger order[a], p.names[j]]
            0 <= a < order.len() && 0 <= j < p.names.len()
                && p.services[order[a]].depends_on.contains(p.names[j]) ==> order.take(a).contains(j),
    ensures
        !cyclic(p),
{
    assert forall|a: int| 0 <= a < order.len() implies p.ready(order.take(a), #[trigger] order[a]) by {
        assert forall|j: int| 0 <= j < p.count() && #[trigger] p.depends(order[a], j) implies order.take(
            a,
        ).contains(j) by {
            assert(p.services[order[a]].depends_on.contains(p.names[j]));
        }
    }
    assert(p.start_order(order));
}

} // verus!
