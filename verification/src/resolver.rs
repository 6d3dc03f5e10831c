//! Putting the services to start in an order in which each comes after what it depends on.

use vstd::prelude::*;
use indexmap::IndexMap;
use crate::config::{
    dependency_names, services_view, strings_view, Command, Service, ServiceState, ServiceView,
};
use crate::error::{DependencyError, ResolveFailure};
use crate::graph::{
    adj_view, ascending_where, graph_closed, has_cycle, ints, is_cyclic_group, is_topological, kahn_order,
    lemma_ascending, lemma_ints_push, lemma_kahn_no_edges, lemma_kahn_order, members,
    topological_order,
};
use crate::outside::{
    entries_after_insert, name_index_entries, name_index_get_full, name_index_insert,
    name_index_len, name_index_new, name_index_value_at,
};

verus! {

// ---------------------------------------------------------------------------------------------
// The name index
// ---------------------------------------------------------------------------------------------

/// The entries of the index that maps each service name to a service: one entry per name, at
/// the place where the name first occurs, holding the position of the last service of that name.
pub open spec fn service_index(svcs: Seq<ServiceView>) -> Seq<(Seq<char>, usize)>
    decreases svcs.len(),
{
    if svcs.len() == 0 {
        Seq::empty()
    } else {
        entries_after_insert(service_index(svcs.drop_last()), svcs.last().name, (svcs.len() - 1) as usize)
    }
}

/// No two entries share a key.
pub open spec fn keys_distinct(entries: Seq<(Seq<char>, usize)>) -> bool {
    forall|i: int, j: int|
        0 <= i < entries.len() && 0 <= j < entries.len() && i != j ==> entries[i].0 != entries[j].0
}

/// Each entry points at a service of its name.
pub open spec fn entries_point_at(entries: Seq<(Seq<char>, usize)>, svcs: Seq<ServiceView>) -> bool {
    forall|i: int|
        0 <= i < entries.len() ==> (#[trigger] entries[i]).1 < svcs.len() && svcs[entries[i].1 as int].name
            == entries[i].0
}

/// The place of the entry whose key is `name`.
pub open spec fn position_of(entries: Seq<(Seq<char>, usize)>, name: Seq<char>) -> Option<int> {
    if exists|i: int| 0 <= i < entries.len() && entries[i].0 == name {
        Some(choose|i: int| 0 <= i < entries.len() && entries[i].0 == name)
    } else {
        None
    }
}

pub proof fn lemma_service_index(svcs: Seq<ServiceView>)
    requires
        svcs.len() <= usize::MAX,
    ensures
        keys_distinct(service_index(svcs)),
        entries_point_at(service_index(svcs), svcs),
        service_index(svcs).len() <= svcs.len(),
        forall|k: int|
            0 <= k < svcs.len() ==> exists|i: int|
                0 <= i < service_index(svcs).len() && service_index(svcs)[i].0 == (#[trigger] svcs[k]).name,
    decreases svcs.len(),
{
    if svcs.len() > 0 {
        let prev = svcs.drop_last();
        lemma_service_index(prev);
        let e = service_index(prev);
        let key = svcs.last().name;
        let cur = service_index(svcs);
        assert(cur == entries_after_insert(e, key, (svcs.len() - 1) as usize));
        if exists|i: int| 0 <= i < e.len() && e[i].0 == key {
            let c = choose|i: int| 0 <= i < e.len() && e[i].0 == key;
            assert(cur == e.update(c, (key, (svcs.len() - 1) as usize)));
            assert forall|i: int| 0 <= i < cur.len() implies (#[trigger] cur[i]).1 < svcs.len()
                && svcs[cur[i].1 as int].name == cur[i].0 by {
                if i != c {
                    assert(cur[i] == e[i]);
                    assert(prev[e[i].1 as int] == svcs[e[i].1 as int]);
                }
            }
            assert forall|k: int| 0 <= k < svcs.len() implies exists|i: int|
                0 <= i < cur.len() && cur[i].0 == (#[trigger] svcs[k]).name by {
                if k < svcs.len() - 1 {
                    assert(prev[k] == svcs[k]);
                    let i = choose|i: int| 0 <= i < e.len() && e[i].0 == prev[k].name;
                    assert(cur[i].0 == e[i].0);
                } else {
                    assert(cur[c].0 == key);
                }
            }
        } else {
            assert(cur == e.push((key, (svcs.len() - 1) as usize)));
            assert forall|i: int| 0 <= i < cur.len() implies (#[trigger] cur[i]).1 < svcs.len()
                && svcs[cur[i].1 as int].name == cur[i].0 by {
                if i < e.len() {
                    assert(cur[i] == e[i]);
                    assert(prev[e[i].1 as int] == svcs[e[i].1 as int]);
                }
            }
            assert forall|k: int| 0 <= k < svcs.len() implies exists|i: int|
                0 <= i < cur.len() && cur[i].0 == (#[trigger] svcs[k]).name by {
                if k < svcs.len() - 1 {
                    assert(prev[k] == svcs[k]);
                    let i = choose|i: int| 0 <= i < e.len() && e[i].0 == prev[k].name;
                    assert(cur[i].0 == e[i].0);
                } else {
                    assert(cur[e.len() as int].0 == key);
                }
            }
        }
    }
}

/// Builds the name index of the services, in the way `IndexMap` collects pairs.
fn build_service_index(services: &Vec<Service>) -> (m: IndexMap<String, usize>)
    ensures
        name_index_entries(m) == service_index(services_view(services@)),
{
    let ghost svcs = services_view(services@);
    let mut m = name_index_new();
    let mut i: usize = 0;
    while i < services.len()
        invariant
            i <= services.len(),
            svcs == services_view(services@),
            name_index_entries(m) == service_index(svcs.subrange(0, i as int)),
        decreases services.len() - i,
    {
        let name = services[i].name.clone();
        name_index_insert(&mut m, name, i);
        proof {
            let next = svcs.subrange(0, i + 1);
            assert(next.drop_last() =~= svcs.subrange(0, i as int));
            assert(next.last() == svcs[i as int]);
        }
        i = i + 1;
    }
    assert(svcs.subrange(0, services.len() as int) =~= svcs);
    m
}

pub proof fn lemma_strings_view_push(v: Seq<String>, s: String)
    ensures
        strings_view(v.push(s)) == strings_view(v).push(s@),
{
    assert(strings_view(v.push(s)) =~= strings_view(v).push(s@));
}

// ---------------------------------------------------------------------------------------------
// Collecting the services in scope
// ---------------------------------------------------------------------------------------------

/// How many places are not yet visited.
pub open spec fn unvisited(v: Seq<bool>) -> nat
    decreases v.len(),
{
    if v.len() == 0 {
        0
    } else {
        unvisited(v.drop_last()) + (if v.last() { 0nat } else { 1nat })
    }
}

pub proof fn lemma_unvisited_update(v: Seq<bool>, p: int)
    requires
        0 <= p < v.len(),
        !v[p],
    ensures
        unvisited(v.update(p, true)) + 1 == unvisited(v),
    decreases v.len(),
{
    let u = v.update(p, true);
    if p == v.len() - 1 {
        assert(u.drop_last() =~= v.drop_last());
    } else {
        assert(u.drop_last() =~= v.drop_last().update(p, true));
        lemma_unvisited_update(v.drop_last(), p);
    }
}

/// A masked service must never be started.
pub open spec fn is_masked(s: ServiceView) -> bool {
    s.state == Some(ServiceState::Masked)
}

/// Depth-first walk over the dependencies, from a stack of names whose top is its last
/// element. A name already visited is skipped; an unknown name or a masked service ends the
/// walk with that failure; a visited service puts its dependencies on the stack, its first
/// dependency on top. The result marks the places of the index that were visited.
pub open spec fn walk(
    entries: Seq<(Seq<char>, usize)>,
    svcs: Seq<ServiceView>,
    work: Seq<Seq<char>>,
    visited: Seq<bool>,
) -> Result<Seq<bool>, ResolveFailure>
    decreases unvisited(visited), work.len(),
{
    if work.len() == 0 {
        Ok(visited)
    } else {
        let name = work.last();
        match position_of(entries, name) {
            None => Err(ResolveFailure::Unknown(name)),
            Some(p) => {
                if !(0 <= p < visited.len()) || visited[p] {
                    walk(entries, svcs, work.drop_last(), visited)
                } else if is_masked(svcs[entries[p].1 as int]) {
                    Err(ResolveFailure::Masked)
                } else {
                    proof {
                        lemma_unvisited_update(visited, p);
                    }
                    walk(
                        entries,
                        svcs,
                        work.drop_last() + dependency_names(svcs[entries[p].1 as int]).reverse(),
                        visited.update(p, true),
                    )
                }
            },
        }
    }
}

/// The walk that starts from the names to start, the first of them on top, nothing visited.
pub open spec fn scope_of(svcs: Seq<ServiceView>, start: Seq<Seq<char>>) -> Result<Seq<bool>, ResolveFailure> {
    let entries = service_index(svcs);
    walk(entries, svcs, start.reverse(), Seq::new(entries.len(), |i: int| false))
}

/// Walks from the named services through their dependencies and marks the places, in the
/// name index, of all it reaches; fails on an unknown name or a masked service.
fn walk_dependency_set(
    names: &Vec<String>,
    index: &IndexMap<String, usize>,
    services: &Vec<Service>,
) -> (r: Result<Vec<bool>, DependencyError>)
    requires
        name_index_entries(*index) == service_index(services_view(services@)),
    ensures
        match r {
            Ok(v) => scope_of(services_view(services@), strings_view(names@)) == Ok::<Seq<bool>, ResolveFailure>(v@),
            Err(e) => scope_of(services_view(services@), strings_view(names@)) == Err::<Seq<bool>, ResolveFailure>(e@),
        },
{
    let ghost svcs = services_view(services@);
    let ghost entries = service_index(svcs);
    let slen = services.len();
    proof {
        assert(svcs.len() == slen);
        lemma_service_index(svcs);
    }
    let n = name_index_len(index);
    let mut visited: Vec<bool> = Vec::new();
    while visited.len() < n
        invariant
            visited.len() <= n,
            forall|i: int| 0 <= i < visited.len() ==> !visited[i],
        decreases n - visited.len(),
    {
        visited.push(false);
    }
    assert(visited@ =~= Seq::new(entries.len(), |i: int| false));
    let mut stack: Vec<String> = Vec::new();
    let mut i: usize = names.len();
    while i > 0
        invariant
            i <= names.len(),
            strings_view(stack@) =~= strings_view(names@).reverse().subrange(0, names.len() - i),
        decreases i,
    {
        i = i - 1;
        let ghost before = stack@;
        stack.push(names[i].clone());
        proof {
            lemma_strings_view_push(before, names@[i as int]);
        }
    }
    assert(strings_view(names@).reverse().subrange(0, names.len() as int) =~= strings_view(names@).reverse());
    let ghost target = scope_of(svcs, strings_view(names@));
    loop
        invariant
            svcs == services_view(services@),
            entries == service_index(svcs),
            name_index_entries(*index) == entries,
            keys_distinct(entries),
            entries_point_at(entries, svcs),
            visited.len() == entries.len(),
            walk(entries, svcs, strings_view(stack@), visited@) == target,
            target == scope_of(svcs, strings_view(names@)),
        decreases unvisited(visited@), stack.len(),
    {
        let ghost work = strings_view(stack@);
        match stack.pop() {
            None => {
                return Ok(visited);
            },
            Some(name) => {
                assert(work.last() == name@);
                assert(strings_view(stack@) =~= work.drop_last());
                match name_index_get_full(index, name.as_str()) {
                    None => {
                        return Err(DependencyError::UnknownDependency(name));
                    },
                    Some((p, si)) => {
                        assert(position_of(entries, name@) == Some(p as int));
                        if visited[p] {
                            continue;
                        }
                        let masked = match services[si].state {
                            Some(ServiceState::Masked) => true,
                            _ => false,
                        };
                        assert(svcs[si as int] == services@[si as int]@);
                        if masked {
                            return Err(DependencyError::MaskedDepedencies);
                        }
                        proof {
                            lemma_unvisited_update(visited@, p as int);
                        }
                        visited.set(p, true);
                        let ghost base = strings_view(stack@);
                        match &services[si].depends {
                            None => {
                                assert(dependency_names(svcs[si as int]).reverse() =~= Seq::<Seq<char>>::empty());
                                assert(base + Seq::<Seq<char>>::empty() =~= base);
                            },
                            Some(deps) => {
                                let ghost dv = strings_view(deps@);
                                assert(dependency_names(svcs[si as int]) == dv);
                                let mut j: usize = deps.len();
                                while j > 0
                                    invariant
                                        j <= deps.len(),
                                        dv == strings_view(deps@),
                                        strings_view(stack@) =~= base + dv.reverse().subrange(0, deps.len() - j),
                                    decreases j,
                                {
                                    j = j - 1;
                                    let ghost before = stack@;
                                    stack.push(deps[j].clone());
                                    proof {
                                        lemma_strings_view_push(before, deps@[j as int]);
                                    }
                                }
                                assert(dv.reverse().subrange(0, deps.len() as int) =~= dv.reverse());
                            },
                        }
                    },
                }
            },
        }
    }
}

/// The names that the service at place `p` of the index depends on.
pub open spec fn deps_at(entries: Seq<(Seq<char>, usize)>, svcs: Seq<ServiceView>, p: int) -> Seq<Seq<char>> {
    dependency_names(svcs[entries[p].1 as int])
}

/// Each dependency of each visited service is on the stack or is a visited service.
pub open spec fn deps_settled(
    entries: Seq<(Seq<char>, usize)>,
    svcs: Seq<ServiceView>,
    work: Seq<Seq<char>>,
    visited: Seq<bool>,
) -> bool {
    forall|p: int, j: int|
        0 <= p < visited.len() && visited[p] && 0 <= j < deps_at(entries, svcs, p).len() ==> work.contains(
            #[trigger] deps_at(entries, svcs, p)[j],
        ) || (position_of(entries, deps_at(entries, svcs, p)[j]) matches Some(q) && 0 <= q < visited.len()
            && visited[q])
}

/// Each dependency of each service in scope is a known service in scope.
pub open spec fn scope_closed(entries: Seq<(Seq<char>, usize)>, svcs: Seq<ServiceView>, scope: Seq<bool>) -> bool {
    forall|p: int, j: int|
        0 <= p < scope.len() && scope[p] && 0 <= j < deps_at(entries, svcs, p).len() ==> (position_of(
            entries,
            #[trigger] deps_at(entries, svcs, p)[j],
        ) matches Some(q) && 0 <= q < scope.len() && scope[q])
}

pub proof fn lemma_walk_closed(
    entries: Seq<(Seq<char>, usize)>,
    svcs: Seq<ServiceView>,
    work: Seq<Seq<char>>,
    visited: Seq<bool>,
)
    requires
        visited.len() == entries.len(),
        deps_settled(entries, svcs, work, visited),
    ensures
        walk(entries, svcs, work, visited) matches Ok(res) ==> res.len() == entries.len() && scope_closed(
            entries,
            svcs,
            res,
        ),
    decreases unvisited(visited), work.len(),
{
    if work.len() == 0 {
        assert forall|p: int, j: int|
            0 <= p < visited.len() && visited[p] && 0 <= j < deps_at(entries, svcs, p).len() implies (position_of(
            entries,
            #[trigger] deps_at(entries, svcs, p)[j],
        ) matches Some(q) && 0 <= q < visited.len() && visited[q]) by {
            assert(!work.contains(deps_at(entries, svcs, p)[j]));
        }
    } else {
        let name = work.last();
        let rest = work.drop_last();
        match position_of(entries, name) {
            None => {},
            Some(p) => {
                assert(0 <= p < entries.len());
                if visited[p] {
                    assert forall|p2: int, j: int|
                        0 <= p2 < visited.len() && visited[p2] && 0 <= j < deps_at(entries, svcs, p2).len() implies rest.contains(
                        #[trigger] deps_at(entries, svcs, p2)[j],
                    ) || (position_of(entries, deps_at(entries, svcs, p2)[j]) matches Some(q) && 0 <= q < visited.len()
                        && visited[q]) by {
                        let d = deps_at(entries, svcs, p2)[j];
                        if work.contains(d) && d != name {
                            let i = choose|i: int| 0 <= i < work.len() && work[i] == d;
                            assert(rest[i] == d);
                        }
                    }
                    lemma_walk_closed(entries, svcs, rest, visited);
                } else if !is_masked(svcs[entries[p].1 as int]) {
                    let nv = visited.update(p, true);
                    let pushed = deps_at(entries, svcs, p).reverse();
                    let nw = rest + pushed;
                    lemma_unvisited_update(visited, p);
                    assert forall|p2: int, j: int|
                        0 <= p2 < nv.len() && nv[p2] && 0 <= j < deps_at(entries, svcs, p2).len() implies nw.contains(
                        #[trigger] deps_at(entries, svcs, p2)[j],
                    ) || (position_of(entries, deps_at(entries, svcs, p2)[j]) matches Some(q) && 0 <= q < nv.len()
                        && nv[q]) by {
                        let d = deps_at(entries, svcs, p2)[j];
                        let dl = deps_at(entries, svcs, p2).len();
                        if p2 == p {
                            assert(pushed[dl - 1 - j] == d);
                            assert(nw[rest.len() + dl - 1 - j] == d);
                        } else if work.contains(d) && d != name {
                            let i = choose|i: int| 0 <= i < work.len() && work[i] == d;
                            assert(nw[i] == d);
                        }
                    }
                    lemma_walk_closed(entries, svcs, nw, nv);
                }
            },
        }
    }
}

// ---------------------------------------------------------------------------------------------
// Ordering the services in scope
// ---------------------------------------------------------------------------------------------

/// The place of a known name, and -1 for an unknown one.
pub open spec fn place_of(entries: Seq<(Seq<char>, usize)>, name: Seq<char>) -> int {
    match position_of(entries, name) {
        Some(q) => q,
        None => -1,
    }
}

/// The places of the dependencies of each service in scope.
pub open spec fn dependency_places(
    entries: Seq<(Seq<char>, usize)>,
    svcs: Seq<ServiceView>,
    scope: Seq<bool>,
) -> Seq<Seq<int>> {
    Seq::new(
        entries.len(),
        |p: int|
            if scope[p] {
                deps_at(entries, svcs, p).map_values(|d: Seq<char>| place_of(entries, d))
            } else {
                Seq::empty()
            },
    )
}

/// The positions, in the list of services, of the services to start, in the order to start
/// them: the named services and all they depend on, each once, ordered by Kahn's algorithm
/// (a service that depends on nothing pending goes first, in the order of the list); or why
/// that cannot be done.
pub open spec fn resolution(svcs: Seq<ServiceView>, start: Seq<Seq<char>>) -> Result<Seq<int>, ResolveFailure> {
    let entries = service_index(svcs);
    match scope_of(svcs, start) {
        Err(f) => Err(f),
        Ok(scope) => {
            let order = kahn_order(scope, dependency_places(entries, svcs, scope));
            if order.len() == members(scope).len() {
                Ok(order.map_values(|p: int| entries[p].1 as int))
            } else {
                Err(ResolveFailure::Cyclic)
            }
        },
    }
}

/// The services of [`resolution`].
pub open spec fn resolved_services(svcs: Seq<ServiceView>, start: Seq<Seq<char>>) -> Result<Seq<ServiceView>, ResolveFailure> {
    match resolution(svcs, start) {
        Ok(idx) => Ok(idx.map_values(|i: int| svcs[i])),
        Err(f) => Err(f),
    }
}

/// The value of an outcome of [`resolve_dependencies`].
pub open spec fn outcome_view(r: Result<Vec<Service>, DependencyError>) -> Result<Seq<ServiceView>, ResolveFailure> {
    match r {
        Ok(v) => Ok(services_view(v@)),
        Err(e) => Err(e@),
    }
}

pub proof fn lemma_members_len(v: Seq<bool>)
    ensures
        members(v).finite(),
        members(v).len() == v.len() - unvisited(v),
    decreases v.len(),
{
    if v.len() == 0 {
        assert(members(v) =~= Set::<int>::empty());
    } else {
        let d = v.drop_last();
        lemma_members_len(d);
        if v.last() {
            assert(members(v) =~= members(d).insert(v.len() - 1));
            assert(!members(d).contains(v.len() - 1));
        } else {
            assert(members(v) =~= members(d));
        }
    }
}

pub proof fn lemma_places_closed(entries: Seq<(Seq<char>, usize)>, svcs: Seq<ServiceView>, scope: Seq<bool>)
    requires
        scope.len() == entries.len(),
        scope_closed(entries, svcs, scope),
    ensures
        graph_closed(scope, dependency_places(entries, svcs, scope)),
{
    let adj = dependency_places(entries, svcs, scope);
    assert forall|p: int, j: int|
        0 <= p < scope.len() && scope[p] && 0 <= j < adj[p].len() implies 0 <= #[trigger] adj[p][j] < scope.len()
        && scope[adj[p][j]] by {
        assert(adj[p][j] == place_of(entries, deps_at(entries, svcs, p)[j]));
    }
}

/// Counts the places in scope.
fn count_marked(v: &Vec<bool>) -> (c: usize)
    ensures
        c == members(v@).len(),
{
    let mut c: usize = 0;
    let mut i: usize = 0;
    while i < v.len()
        invariant
            i <= v.len(),
            c <= i,
            c == i - unvisited(v@.subrange(0, i as int)),
        decreases v.len() - i,
    {
        proof {
            assert(v@.subrange(0, i + 1).drop_last() =~= v@.subrange(0, i as int));
        }
        if v[i] {
            c = c + 1;
        }
        i = i + 1;
    }
    proof {
        assert(v@.subrange(0, v.len() as int) =~= v@);
        lemma_members_len(v@);
    }
    c
}

/// The places of the dependencies of each service in scope.
fn build_dependency_places(index: &IndexMap<String, usize>, services: &Vec<Service>, scope: &Vec<bool>) -> (adj: Vec<
    Vec<usize>,
>)
    requires
        name_index_entries(*index) == service_index(services_view(services@)),
        keys_distinct(service_index(services_view(services@))),
        entries_point_at(service_index(services_view(services@)), services_view(services@)),
        scope.len() == service_index(services_view(services@)).len(),
        scope_closed(service_index(services_view(services@)), services_view(services@), scope@),
    ensures
        adj_view(adj@) == dependency_places(service_index(services_view(services@)), services_view(services@), scope@),
{
    let ghost svcs = services_view(services@);
    let ghost entries = service_index(svcs);
    let n = name_index_len(index);
    let ghost adjs = dependency_places(entries, svcs, scope@);
    let mut adj: Vec<Vec<usize>> = Vec::new();
    let mut p: usize = 0;
    while p < n
        invariant
            svcs == services_view(services@),
            entries == service_index(svcs),
            name_index_entries(*index) == entries,
            keys_distinct(entries),
            entries_point_at(entries, svcs),
            n == entries.len(),
            scope.len() == n,
            scope_closed(entries, svcs, scope@),
            adjs == dependency_places(entries, svcs, scope@),
            p <= n,
            adj.len() == p,
            forall|t: int| 0 <= t < p ==> #[trigger] adj_view(adj@)[t] == adjs[t],
        decreases n - p,
    {
        let mut row: Vec<usize> = Vec::new();
        if scope[p] {
            let si = name_index_value_at(index, p).unwrap();
            let ghost deps = deps_at(entries, svcs, p as int);
            assert(svcs[si as int] == services@[si as int]@);
            match &services[si].depends {
                None => {
                    assert(adjs[p as int] =~= Seq::<int>::empty());
                },
                Some(dv) => {
                    assert(deps == strings_view(dv@));
                    let mut j: usize = 0;
                    while j < dv.len()
                        invariant
                            name_index_entries(*index) == entries,
                            keys_distinct(entries),
                            n == entries.len(),
                            scope.len() == n,
                            0 <= p < n,
                            scope[p as int],
                            scope_closed(entries, svcs, scope@),
                            deps == deps_at(entries, svcs, p as int),
                            deps == strings_view(dv@),
                            adjs == dependency_places(entries, svcs, scope@),
                            j <= dv.len(),
                            ints(row@) =~= adjs[p as int].subrange(0, j as int),
                        decreases dv.len() - j,
                    {
                        let ghost d = deps[j as int];
                        assert(dv@[j as int]@ == d);
                        assert(position_of(entries, deps_at(entries, svcs, p as int)[j as int]) is Some);
                        let found = name_index_get_full(index, dv[j].as_str());
                        assert(found is Some);
                        let (q, _) = found.unwrap();
                        assert(position_of(entries, d) == Some(q as int));
                        let ghost before = row@;
                        row.push(q);
                        proof {
                            lemma_ints_push(before, q);
                        }
                        j = j + 1;
                    }
                },
            }
            assert(ints(row@) =~= adjs[p as int]);
        } else {
            assert(ints(row@) =~= adjs[p as int]);
        }
        let ghost before = adj@;
        let ghost rowv = row@;
        adj.push(row);
        proof {
            assert(adj@[p as int]@ == rowv);
            assert forall|t: int| 0 <= t < p + 1 implies #[trigger] adj_view(adj@)[t] == adjs[t] by {
                if t < p {
                    assert(adj@[t] == before[t]);
                    assert(adj_view(before)[t] == adjs[t]);
                } else {
                    assert(adj_view(adj@)[t] == ints(adj@[t]@));
                }
            }
        }
        p = p + 1;
    }
    assert(adj_view(adj@) =~= adjs);
    adj
}

/// Copies of the services that the entries at the given places point at.
fn services_at(index: &IndexMap<String, usize>, services: &Vec<Service>, order: &Vec<usize>) -> (r: Vec<Service>)
    requires
        name_index_entries(*index) == service_index(services_view(services@)),
        entries_point_at(service_index(services_view(services@)), services_view(services@)),
        forall|i: int| 0 <= i < order.len() ==> #[trigger] order@[i] < service_index(services_view(services@)).len(),
    ensures
        services_view(r@) == ints(order@).map_values(
            |p: int| services_view(services@)[service_index(services_view(services@))[p].1 as int],
        ),
{
    let ghost svcs = services_view(services@);
    let ghost entries = service_index(svcs);
    let ghost kord = ints(order@);
    let mut result: Vec<Service> = Vec::new();
    let mut k: usize = 0;
    while k < order.len()
        invariant
            svcs == services_view(services@),
            entries == service_index(svcs),
            name_index_entries(*index) == entries,
            entries_point_at(entries, svcs),
            kord == ints(order@),
            forall|i: int| 0 <= i < order.len() ==> #[trigger] order@[i] < entries.len(),
            k <= order.len(),
            services_view(result@) =~= kord.subrange(0, k as int).map_values(|p: int| svcs[entries[p].1 as int]),
        decreases order.len() - k,
    {
        assert(order@[k as int] < entries.len());
        let si = name_index_value_at(index, order[k]).unwrap();
        assert(svcs[si as int] == services@[si as int]@);
        let ghost oldr = result@;
        let copy = services[si].clone();
        result.push(copy);
        proof {
            assert(services_view(result@) =~= services_view(oldr).push(svcs[si as int]));
            assert(kord.subrange(0, k + 1) =~= kord.subrange(0, k as int).push(kord[k as int]));
            assert(entries[kord[k as int]].1 == si);
        }
        k = k + 1;
    }
    assert(kord.subrange(0, order.len() as int) =~= kord);
    result
}

/// A scope that the walk from the names to start yields is closed under dependencies.
pub proof fn lemma_scope_closed(svcs: Seq<ServiceView>, start: Seq<Seq<char>>)
    ensures
        scope_of(svcs, start) matches Ok(scope) ==> scope.len() == service_index(svcs).len() && scope_closed(
            service_index(svcs),
            svcs,
            scope,
        ),
{
    let entries = service_index(svcs);
    let none = Seq::new(entries.len(), |i: int| false);
    assert(deps_settled(entries, svcs, start.reverse(), none));
    lemma_walk_closed(entries, svcs, start.reverse(), none);
}

/// Collects the places, in the name index, of the named services and of everything they
/// depend on, directly or not. Fails on an unknown name or a masked service met on the way,
/// and, when the walk succeeds, on services among those collected that depend on each other in
/// a loop.
fn collect_dependency_set(
    names: &Vec<String>,
    index: &IndexMap<String, usize>,
    services: &Vec<Service>,
) -> (r: Result<Vec<bool>, DependencyError>)
    requires
        name_index_entries(*index) == service_index(services_view(services@)),
    ensures
        match r {
            Ok(v) => scope_of(services_view(services@), strings_view(names@)) == Ok::<Seq<bool>, ResolveFailure>(v@)
                && !has_cycle(v@, dependency_places(service_index(services_view(services@)), services_view(services@), v@)),
            Err(e) => match scope_of(services_view(services@), strings_view(names@)) {
                Err(f) => e@ == f,
                Ok(v) => e@ == ResolveFailure::Cyclic && has_cycle(
                    v,
                    dependency_places(service_index(services_view(services@)), services_view(services@), v),
                ),
            },
        },
{
    let ghost svcs = services_view(services@);
    let ghost start = strings_view(names@);
    let ghost entries = service_index(svcs);
    let slen = services.len();
    proof {
        assert(svcs.len() == slen);
        lemma_service_index(svcs);
    }
    let scope = match walk_dependency_set(names, index, services) {
        Ok(s) => s,
        Err(e) => {
            return Err(e);
        },
    };
    let ghost adjs = dependency_places(entries, svcs, scope@);
    proof {
        lemma_scope_closed(svcs, start);
        lemma_places_closed(entries, svcs, scope@);
        lemma_kahn_order(scope@, adjs);
    }
    let adj = build_dependency_places(index, services, &scope);
    let order = topological_order(&scope, &adj);
    let in_scope = count_marked(&scope);
    if order.len() != in_scope {
        return Err(DependencyError::CyclicDepedencies);
    }
    Ok(scope)
}

/// Resolves service dependencies using topological sorting.
///
/// Returns the services in the order they should be started, such that all dependencies of a
/// service come before the service itself: the named services and everything they depend on,
/// each once. Fails on a dependency that is not in the list, on a masked service, and on
/// dependencies that loop.
pub fn resolve_dependencies(start_names: Vec<String>, services: &Vec<Service>) -> (r: Result<
    Vec<Service>,
    DependencyError,
>)
    ensures
        outcome_view(r) == resolved_services(services_view(services@), strings_view(start_names@)),
        r matches Ok(v) ==> sound_order(services_view(v@), strings_view(start_names@)),
{
    let ghost svcs = services_view(services@);
    let ghost start = strings_view(start_names@);
    let slen = services.len();
    proof {
        assert(svcs.len() == slen);
        lemma_service_index(svcs);
    }
    let index = build_service_index(services);
    let ghost entries = service_index(svcs);
    let scope = match collect_dependency_set(&start_names, &index, services) {
        Ok(s) => s,
        Err(e) => {
            proof {
                if scope_of(svcs, start) is Ok {
                    let v = scope_of(svcs, start)->Ok_0;
                    lemma_scope_closed(svcs, start);
                    lemma_places_closed(entries, svcs, v);
                    lemma_kahn_order(v, dependency_places(entries, svcs, v));
                }
            }
            return Err(e);
        },
    };
    let ghost adjs = dependency_places(entries, svcs, scope@);
    proof {
        lemma_scope_closed(svcs, start);
        lemma_places_closed(entries, svcs, scope@);
        lemma_kahn_order(scope@, adjs);
    }
    let adj = build_dependency_places(&index, services, &scope);
    let order = topological_order(&scope, &adj);
    let ghost kord = kahn_order(scope@, adjs);
    assert(forall|i: int| 0 <= i < order.len() ==> #[trigger] order@[i] < entries.len()) by {
        assert forall|i: int| 0 <= i < order.len() implies #[trigger] order@[i] < entries.len() by {
            assert(members(scope@).contains(kord[i]));
            assert(ints(order@)[i] == kord[i]);
        }
    }
    let result = services_at(&index, services, &order);
    proof {
        assert(kord.map_values(|p: int| entries[p].1 as int).map_values(|i: int| svcs[i]) =~= kord.map_values(
            |p: int| svcs[entries[p].1 as int],
        ));
        assert(scope_of(svcs, start) == Ok::<Seq<bool>, ResolveFailure>(scope@));
        law_resolved_services(svcs, start);
    }
    Ok(result)
}

// ---------------------------------------------------------------------------------------------
// What the walk guarantees
// ---------------------------------------------------------------------------------------------

/// The walk keeps what was visited, and visits every name it was given.
pub proof fn lemma_walk_covers(
    entries: Seq<(Seq<char>, usize)>,
    svcs: Seq<ServiceView>,
    work: Seq<Seq<char>>,
    visited: Seq<bool>,
)
    requires
        visited.len() == entries.len(),
    ensures
        walk(entries, svcs, work, visited) matches Ok(res) ==> {
            &&& res.len() == visited.len()
            &&& forall|p: int| 0 <= p < visited.len() && visited[p] ==> #[trigger] res[p]
            &&& forall|i: int|
                0 <= i < work.len() ==> (position_of(entries, #[trigger] work[i]) matches Some(q) && 0 <= q
                    < res.len() && res[q])
        },
    decreases unvisited(visited), work.len(),
{
    if work.len() > 0 {
        let name = work.last();
        let rest = work.drop_last();
        match position_of(entries, name) {
            None => {},
            Some(p) => {
                assert(0 <= p < entries.len());
                if visited[p] {
                    lemma_walk_covers(entries, svcs, rest, visited);
                    if walk(entries, svcs, work, visited) is Ok {
                        let res = walk(entries, svcs, work, visited)->Ok_0;
                        assert forall|i: int| 0 <= i < work.len() implies (position_of(entries, #[trigger] work[i]) matches Some(q)
                            && 0 <= q < res.len() && res[q]) by {
                            if i < work.len() - 1 {
                                assert(rest[i] == work[i]);
                            }
                        }
                    }
                } else if !is_masked(svcs[entries[p].1 as int]) {
                    let nv = visited.update(p, true);
                    let nw = rest + deps_at(entries, svcs, p).reverse();
                    lemma_unvisited_update(visited, p);
                    lemma_walk_covers(entries, svcs, nw, nv);
                    if walk(entries, svcs, work, visited) is Ok {
                        let res = walk(entries, svcs, work, visited)->Ok_0;
                        assert(walk(entries, svcs, work, visited) == walk(entries, svcs, nw, nv));
                        assert forall|q: int| 0 <= q < visited.len() && visited[q] implies #[trigger] res[q] by {
                            assert(nv[q]);
                        }
                        assert forall|i: int| 0 <= i < work.len() implies (position_of(entries, #[trigger] work[i]) matches Some(q)
                            && 0 <= q < res.len() && res[q]) by {
                            if i < work.len() - 1 {
                                assert(nw[i] == work[i]);
                            } else {
                                assert(nv[p]);
                            }
                        }
                    }
                }
            },
        }
    }
}

/// A set of names that holds the names to start and, with each name, the dependencies of every
/// service of that name.
pub open spec fn closed_name_set(svcs: Seq<ServiceView>, start: Seq<Seq<char>>, names: Set<Seq<char>>) -> bool {
    &&& forall|k: int| 0 <= k < start.len() ==> names.contains(#[trigger] start[k])
    &&& forall|i: int, j: int|
        0 <= i < svcs.len() && names.contains(svcs[i].name) && 0 <= j < dependency_names(svcs[i]).len()
            ==> names.contains(#[trigger] dependency_names(svcs[i])[j])
}

/// The walk stays within any closed set of names: what it visits, the unknown name it stops
/// at, and the masked service it stops at all carry names of the set; and it visits no masked
/// service.
pub proof fn lemma_walk_within(
    entries: Seq<(Seq<char>, usize)>,
    svcs: Seq<ServiceView>,
    start: Seq<Seq<char>>,
    names: Set<Seq<char>>,
    work: Seq<Seq<char>>,
    visited: Seq<bool>,
)
    requires
        entries_point_at(entries, svcs),
        forall|k: int|
            0 <= k < svcs.len() ==> exists|i: int| 0 <= i < entries.len() && entries[i].0 == (#[trigger] svcs[k]).name,
        visited.len() == entries.len(),
        closed_name_set(svcs, start, names),
        forall|i: int| 0 <= i < work.len() ==> names.contains(#[trigger] work[i]),
        forall|p: int|
            0 <= p < visited.len() && #[trigger] visited[p] ==> names.contains(entries[p].0) && !is_masked(
                svcs[entries[p].1 as int],
            ),
    ensures
        match walk(entries, svcs, work, visited) {
            Ok(res) => forall|p: int|
                0 <= p < res.len() && #[trigger] res[p] ==> names.contains(entries[p].0) && !is_masked(
                    svcs[entries[p].1 as int],
                ),
            Err(ResolveFailure::Unknown(x)) => names.contains(x) && forall|i: int|
                0 <= i < svcs.len() ==> (#[trigger] svcs[i]).name != x,
            Err(ResolveFailure::Masked) => exists|i: int|
                0 <= i < svcs.len() && names.contains((#[trigger] svcs[i]).name) && is_masked(svcs[i]),
            Err(ResolveFailure::Cyclic) => false,
        },
    decreases unvisited(visited), work.len(),
{
    if work.len() > 0 {
        let name = work.last();
        let rest = work.drop_last();
        assert(names.contains(work[work.len() - 1]));
        assert forall|i: int| 0 <= i < rest.len() implies names.contains(#[trigger] rest[i]) by {
            assert(rest[i] == work[i]);
        }
        match position_of(entries, name) {
            None => {
                assert forall|i: int| 0 <= i < svcs.len() implies (#[trigger] svcs[i]).name != name by {
                    if svcs[i].name == name {
                        let e = choose|e: int| 0 <= e < entries.len() && entries[e].0 == svcs[i].name;
                        assert(entries[e].0 == name);
                    }
                }
            },
            Some(p) => {
                assert(0 <= p < entries.len());
                if visited[p] {
                    lemma_walk_within(entries, svcs, start, names, rest, visited);
                } else if is_masked(svcs[entries[p].1 as int]) {
                    assert(names.contains(svcs[entries[p].1 as int].name));
                } else {
                    let nv = visited.update(p, true);
                    let si = entries[p].1 as int;
                    let dn = deps_at(entries, svcs, p);
                    let nw = rest + dn.reverse();
                    lemma_unvisited_update(visited, p);
                    assert(svcs[si].name == name);
                    assert forall|i: int| 0 <= i < nw.len() implies names.contains(#[trigger] nw[i]) by {
                        if i >= rest.len() {
                            let j = dn.len() - 1 - (i - rest.len());
                            assert(nw[i] == dn[j]);
                            assert(names.contains(dependency_names(svcs[si])[j]));
                        }
                    }
                    lemma_walk_within(entries, svcs, start, names, nw, nv);
                }
            },
        }
    }
}

// ---------------------------------------------------------------------------------------------
// Laws of the resolution
// ---------------------------------------------------------------------------------------------

/// The facts about a successful resolution that the laws below share.
proof fn lemma_resolution_facts(svcs: Seq<ServiceView>, start: Seq<Seq<char>>)
    requires
        svcs.len() <= usize::MAX,
        resolution(svcs, start) is Ok,
    ensures
        ({
            let entries = service_index(svcs);
            let scope = scope_of(svcs, start)->Ok_0;
            let adj = dependency_places(entries, svcs, scope);
            let order = kahn_order(scope, adj);
            &&& scope_of(svcs, start) is Ok
            &&& scope.len() == entries.len()
            &&& scope_closed(entries, svcs, scope)
            &&& resolution(svcs, start)->Ok_0 == order.map_values(|p: int| entries[p].1 as int)
            &&& is_topological(order, adj)
            &&& order.no_duplicates()
            &&& forall|i: int| 0 <= i < order.len() ==> #[trigger] members(scope).contains(order[i])
            &&& forall|q: int| #[trigger] members(scope).contains(q) ==> order.contains(q)
            &&& keys_distinct(entries)
            &&& entries_point_at(entries, svcs)
        }),
{
    let entries = service_index(svcs);
    lemma_service_index(svcs);
    lemma_scope_closed(svcs, start);
    let scope = scope_of(svcs, start)->Ok_0;
    lemma_places_closed(entries, svcs, scope);
    lemma_kahn_order(scope, dependency_places(entries, svcs, scope));
}

/// Some service among the first `k` of `idx` carries the name `name`.
pub open spec fn named_before(svcs: Seq<ServiceView>, idx: Seq<int>, k: int, name: Seq<char>) -> bool {
    exists|m: int| 0 <= m < k && #[trigger] svcs[idx[m]].name == name
}

/// In a resolved order, every dependency of each service is a service that comes earlier.
pub proof fn law_dependencies_come_first(svcs: Seq<ServiceView>, start: Seq<Seq<char>>)
    requires
        svcs.len() <= usize::MAX,
    ensures
        resolution(svcs, start) matches Ok(idx) ==> forall|k: int, j: int|
            0 <= k < idx.len() && 0 <= j < dependency_names(svcs[idx[k]]).len() ==> named_before(
                svcs,
                idx,
                k,
                #[trigger] dependency_names(svcs[idx[k]])[j],
            ),
{
    if resolution(svcs, start) is Ok {
        lemma_resolution_facts(svcs, start);
        let entries = service_index(svcs);
        let scope = scope_of(svcs, start)->Ok_0;
        let adj = dependency_places(entries, svcs, scope);
        let order = kahn_order(scope, adj);
        let idx = resolution(svcs, start)->Ok_0;
        assert forall|k: int, j: int|
            0 <= k < idx.len() && 0 <= j < dependency_names(svcs[idx[k]]).len() implies named_before(
            svcs,
            idx,
            k,
            #[trigger] dependency_names(svcs[idx[k]])[j],
        ) by {
            let p = order[k];
            assert(members(scope).contains(p));
            assert(idx[k] == entries[p].1 as int);
            let d = deps_at(entries, svcs, p)[j];
            assert(dependency_names(svcs[idx[k]])[j] == d);
            let q = position_of(entries, d)->Some_0;
            assert(adj[p][j] == q);
            let m = choose|m: int| 0 <= m < k && order[m] == #[trigger] adj[order[k]][j];
            assert(idx[m] == entries[q].1 as int);
            assert(svcs[idx[m]].name == d);
        }
    }
}

/// A resolved order holds each service at most once, holds a service of each name to start,
/// and holds no masked service.
pub proof fn law_resolution_contents(svcs: Seq<ServiceView>, start: Seq<Seq<char>>)
    requires
        svcs.len() <= usize::MAX,
    ensures
        resolution(svcs, start) matches Ok(idx) ==> {
            &&& idx.no_duplicates()
            &&& forall|k: int| 0 <= k < idx.len() ==> 0 <= #[trigger] idx[k] < svcs.len() && !is_masked(svcs[idx[k]])
            &&& forall|s: int| 0 <= s < start.len() ==> exists|k: int| 0 <= k < idx.len() && svcs[idx[k]].name == #[trigger] start[s]
        },
{
    if resolution(svcs, start) is Ok {
        lemma_resolution_facts(svcs, start);
        let entries = service_index(svcs);
        let scope = scope_of(svcs, start)->Ok_0;
        let adj = dependency_places(entries, svcs, scope);
        let order = kahn_order(scope, adj);
        let idx = resolution(svcs, start)->Ok_0;
        let none = Seq::new(entries.len(), |i: int| false);
        lemma_walk_covers(entries, svcs, start.reverse(), none);
        lemma_service_index(svcs);
        lemma_walk_within(entries, svcs, start, Set::full(), start.reverse(), none);
        assert forall|a: int, b: int| 0 <= a < idx.len() && 0 <= b < idx.len() && a != b implies idx[a] != idx[b] by {
            assert(members(scope).contains(order[a]));
            assert(members(scope).contains(order[b]));
            if idx[a] == idx[b] {
                assert(entries[order[a]].0 == entries[order[b]].0);
            }
        }
        assert forall|k: int| 0 <= k < idx.len() implies 0 <= #[trigger] idx[k] < svcs.len() && !is_masked(svcs[idx[k]]) by {
            assert(members(scope).contains(order[k]));
            assert(scope[order[k]]);
        }
        assert forall|s: int| 0 <= s < start.len() implies exists|k: int| 0 <= k < idx.len() && svcs[idx[k]].name == #[trigger] start[s] by {
            let w = start.reverse();
            let i = start.len() - 1 - s;
            assert(w[i] == start[s]);
            let q = position_of(entries, w[i])->Some_0;
            assert(members(scope).contains(q));
            assert(order.contains(q));
            let k = choose|k: int| 0 <= k < order.len() && order[k] == q;
            assert(idx[k] == entries[q].1 as int);
        }
    }
}

/// The resolution stays within any closed set of names: the services it orders, the unknown
/// name it reports, and the masked service that makes it fail all carry names of the set; an
/// unknown name is the name of no service.
pub proof fn law_resolution_within(svcs: Seq<ServiceView>, start: Seq<Seq<char>>, names: Set<Seq<char>>)
    requires
        svcs.len() <= usize::MAX,
        closed_name_set(svcs, start, names),
    ensures
        match resolution(svcs, start) {
            Ok(idx) => forall|k: int| 0 <= k < idx.len() ==> names.contains(#[trigger] svcs[idx[k]].name),
            Err(ResolveFailure::Unknown(x)) => names.contains(x) && forall|i: int|
                0 <= i < svcs.len() ==> (#[trigger] svcs[i]).name != x,
            Err(ResolveFailure::Masked) => exists|i: int|
                0 <= i < svcs.len() && names.contains((#[trigger] svcs[i]).name) && is_masked(svcs[i]),
            Err(ResolveFailure::Cyclic) => true,
        },
{
    let entries = service_index(svcs);
    let none = Seq::new(entries.len(), |i: int| false);
    lemma_service_index(svcs);
    assert forall|i: int| 0 <= i < start.reverse().len() implies names.contains(#[trigger] start.reverse()[i]) by {
        assert(start.reverse()[i] == start[start.len() - 1 - i]);
    }
    lemma_walk_within(entries, svcs, start, names, start.reverse(), none);
    if resolution(svcs, start) is Ok {
        lemma_resolution_facts(svcs, start);
        let scope = scope_of(svcs, start)->Ok_0;
        let order = kahn_order(scope, dependency_places(entries, svcs, scope));
        let idx = resolution(svcs, start)->Ok_0;
        assert forall|k: int| 0 <= k < idx.len() implies names.contains(#[trigger] svcs[idx[k]].name) by {
            assert(members(scope).contains(order[k]));
            assert(scope[order[k]]);
        }
    }
}

/// The resolution fails for cyclic dependencies exactly when the services in scope have
/// dependencies that loop.
pub proof fn law_cycle_reported_exactly(svcs: Seq<ServiceView>, start: Seq<Seq<char>>)
    requires
        svcs.len() <= usize::MAX,
    ensures
        (resolution(svcs, start) == Err::<Seq<int>, ResolveFailure>(ResolveFailure::Cyclic)) <==> (scope_of(svcs, start) matches Ok(scope)
            && has_cycle(scope, dependency_places(service_index(svcs), svcs, scope))),
{
    let entries = service_index(svcs);
    lemma_service_index(svcs);
    lemma_scope_closed(svcs, start);
    let none = Seq::new(entries.len(), |i: int| false);
    lemma_walk_within(entries, svcs, start, Set::full(), start.reverse(), none);
    if scope_of(svcs, start) is Ok {
        let scope = scope_of(svcs, start)->Ok_0;
        lemma_places_closed(entries, svcs, scope);
        lemma_kahn_order(scope, dependency_places(entries, svcs, scope));
    }
}

/// The names of the services at the places `idx`.
pub open spec fn names_at(svcs: Seq<ServiceView>, idx: Seq<int>) -> Set<Seq<char>> {
    Set::new(|n: Seq<char>| exists|k: int| 0 <= k < idx.len() && #[trigger] svcs[idx[k]].name == n)
}

/// With distinct names, a resolved order holds exactly the least set of names that holds the
/// names to start and the dependencies of each service named in it: its names form such a set,
/// and they lie within every such set.
pub proof fn law_resolution_is_closure(svcs: Seq<ServiceView>, start: Seq<Seq<char>>)
    requires
        svcs.len() <= usize::MAX,
        forall|i: int, j: int| 0 <= i < svcs.len() && 0 <= j < svcs.len() && i != j ==> svcs[i].name != svcs[j].name,
    ensures
        resolution(svcs, start) matches Ok(idx) ==> {
            &&& closed_name_set(svcs, start, names_at(svcs, idx))
            &&& forall|names: Set<Seq<char>>| #[trigger] closed_name_set(svcs, start, names) ==> names_at(svcs, idx).subset_of(names)
        },
{
    if resolution(svcs, start) is Ok {
        let idx = resolution(svcs, start)->Ok_0;
        let r = names_at(svcs, idx);
        law_resolution_contents(svcs, start);
        law_dependencies_come_first(svcs, start);
        assert forall|k: int| 0 <= k < start.len() implies r.contains(#[trigger] start[k]) by {
            let m = choose|m: int| 0 <= m < idx.len() && svcs[idx[m]].name == start[k];
            assert(svcs[idx[m]].name == start[k]);
        }
        assert forall|i: int, j: int|
            0 <= i < svcs.len() && r.contains(svcs[i].name) && 0 <= j < dependency_names(svcs[i]).len()
            implies r.contains(#[trigger] dependency_names(svcs[i])[j]) by {
            let k = choose|k: int| 0 <= k < idx.len() && #[trigger] svcs[idx[k]].name == svcs[i].name;
            assert(idx[k] == i);
            let d = dependency_names(svcs[idx[k]])[j];
            assert(named_before(svcs, idx, k, d));
            let m = choose|m: int| 0 <= m < k && #[trigger] svcs[idx[m]].name == d;
            assert(svcs[idx[m]].name == d);
        }
        assert forall|names: Set<Seq<char>>| #[trigger] closed_name_set(svcs, start, names) implies r.subset_of(names) by {
            law_resolution_within(svcs, start, names);
            assert forall|n: Seq<char>| r.contains(n) implies names.contains(n) by {
                let k = choose|k: int| 0 <= k < idx.len() && #[trigger] svcs[idx[k]].name == n;
            }
        }
    }
}

/// With distinct names, the index holds each service at its own place.
pub proof fn lemma_index_of_distinct_names(svcs: Seq<ServiceView>)
    requires
        svcs.len() <= usize::MAX,
        forall|i: int, j: int| 0 <= i < svcs.len() && 0 <= j < svcs.len() && i != j ==> svcs[i].name != svcs[j].name,
    ensures
        service_index(svcs) == Seq::new(svcs.len(), |i: int| (svcs[i].name, i as usize)),
    decreases svcs.len(),
{
    if svcs.len() > 0 {
        let prev = svcs.drop_last();
        lemma_index_of_distinct_names(prev);
        let e = service_index(prev);
        let key = svcs.last().name;
        assert(!exists|i: int| 0 <= i < e.len() && e[i].0 == key) by {
            if exists|i: int| 0 <= i < e.len() && e[i].0 == key {
                let i = choose|i: int| 0 <= i < e.len() && e[i].0 == key;
                assert(prev[i] == svcs[i]);
            }
        }
        assert(service_index(svcs) =~= Seq::new(svcs.len(), |i: int| (svcs[i].name, i as usize)));
    }
}

/// The order of the list is kept: when the services have distinct names and none of those to
/// start depends on anything, they come in the order in which the list holds them.
pub proof fn law_list_order_kept(svcs: Seq<ServiceView>, start: Seq<Seq<char>>)
    requires
        svcs.len() <= usize::MAX,
        forall|i: int, j: int| 0 <= i < svcs.len() && 0 <= j < svcs.len() && i != j ==> svcs[i].name != svcs[j].name,
    ensures
        resolution(svcs, start) matches Ok(idx) ==> ((forall|k: int| 0 <= k < idx.len() ==> #[trigger] dependency_names(svcs[idx[k]]).len() == 0)
            ==> forall|a: int, b: int| 0 <= a < b < idx.len() ==> #[trigger] idx[a] < #[trigger] idx[b]),
{
    if resolution(svcs, start) is Ok {
        let idx = resolution(svcs, start)->Ok_0;
        if forall|k: int| 0 <= k < idx.len() ==> #[trigger] dependency_names(svcs[idx[k]]).len() == 0 {
            lemma_resolution_facts(svcs, start);
            lemma_index_of_distinct_names(svcs);
            let entries = service_index(svcs);
            let scope = scope_of(svcs, start)->Ok_0;
            let adj = dependency_places(entries, svcs, scope);
            let order = kahn_order(scope, adj);
            assert forall|s: int| 0 <= s < scope.len() && scope[s] implies #[trigger] adj[s].len() == 0 by {
                assert(members(scope).contains(s));
                let k = choose|k: int| 0 <= k < order.len() && order[k] == s;
                assert(idx[k] == entries[s].1 as int);
                assert(dependency_names(svcs[idx[k]]).len() == 0);
            }
            lemma_places_closed(entries, svcs, scope);
            lemma_kahn_no_edges(scope, adj);
            lemma_ascending(scope.len() as int, |s: int| scope[s] && adj[s].len() == 0);
            assert forall|a: int, b: int| 0 <= a < b < idx.len() implies #[trigger] idx[a] < #[trigger] idx[b] by {
                assert(idx[a] == order[a]);
                assert(idx[b] == order[b]);
            }
        }
    }
}

// ---------------------------------------------------------------------------------------------
// Building services
// ---------------------------------------------------------------------------------------------

/// A service named `name` that runs `sh -c ':'`, depends on `dependencies` (none when the list
/// is empty), is in the state `state`, and has nothing else set.
pub fn build_service(name: &str, dependencies: Vec<&str>, state: Option<ServiceState>) -> (s: Service)
    ensures
        s.name@ == name@,
        s.cmd@ == crate::config::CommandView::Text("sh -c ':'"@),
        s.state == state,
        s.pwd is None && s.cond is None && s.env is None && s.required is None && s.restart is None
            && s.wait is None && s.create_window is None && s.tags is None,
        dependencies.len() == 0 ==> s.depends is None,
        dependencies.len() > 0 ==> (s.depends matches Some(d) && strings_view(d@) == dependencies@.map_values(
            |x: &str| x@,
        )),
{
    let depends = if dependencies.len() == 0 {
        None
    } else {
        let mut d: Vec<String> = Vec::new();
        let mut i: usize = 0;
        while i < dependencies.len()
            invariant
                i <= dependencies.len(),
                strings_view(d@) =~= dependencies@.subrange(0, i as int).map_values(|x: &str| x@),
            decreases dependencies.len() - i,
        {
            let ghost before = d@;
            d.push(dependencies[i].to_owned());
            proof {
                assert(strings_view(d@) =~= strings_view(before).push(dependencies@[i as int]@));
                assert(dependencies@.subrange(0, i + 1) =~= dependencies@.subrange(0, i as int).push(
                    dependencies@[i as int],
                ));
            }
            i = i + 1;
        }
        assert(dependencies@.subrange(0, dependencies.len() as int) =~= dependencies@);
        Some(d)
    };
    Service {
        name: name.to_owned(),
        cmd: Command::String("sh -c ':'".to_owned()),
        pwd: None,
        cond: None,
        env: None,
        required: None,
        restart: None,
        wait: None,
        create_window: None,
        state,
        tags: None,
        depends,
    }
}

/// When a closed set of names holds only names of services, none of them masked, the only
/// way the resolution can fail is a loop among the dependencies.
pub proof fn law_only_cycles_fail(svcs: Seq<ServiceView>, start: Seq<Seq<char>>, names: Set<Seq<char>>)
    requires
        svcs.len() <= usize::MAX,
        closed_name_set(svcs, start, names),
        forall|n: Seq<char>| #[trigger] names.contains(n) ==> exists|i: int| 0 <= i < svcs.len() && svcs[i].name == n,
        forall|i: int| 0 <= i < svcs.len() && names.contains(#[trigger] svcs[i].name) ==> !is_masked(svcs[i]),
    ensures
        resolution(svcs, start) is Ok || resolution(svcs, start) == Err::<Seq<int>, ResolveFailure>(ResolveFailure::Cyclic),
{
    law_resolution_within(svcs, start, names);
    if let Err(ResolveFailure::Unknown(x)) = resolution(svcs, start) {
        assert(names.contains(x));
    }
}

/// An order of services that starts what it must: each dependency of a service is the name of
/// a service before it, no service is masked, and each name to start is the name of one of
/// them.
pub open spec fn sound_order(order: Seq<ServiceView>, start: Seq<Seq<char>>) -> bool {
    &&& forall|k: int, j: int|
        0 <= k < order.len() && 0 <= j < dependency_names(order[k]).len() ==> comes_before(
            order,
            k,
            #[trigger] dependency_names(order[k])[j],
        )
    &&& forall|k: int| 0 <= k < order.len() ==> !is_masked(#[trigger] order[k])
    &&& forall|t: int| 0 <= t < start.len() ==> order_names(order).contains(#[trigger] start[t])
}

/// Some service before place `k` of the order carries the name `name`.
pub open spec fn comes_before(order: Seq<ServiceView>, k: int, name: Seq<char>) -> bool {
    exists|m: int| 0 <= m < k && #[trigger] order[m].name == name
}

/// The names of the services of an order.
pub open spec fn order_names(order: Seq<ServiceView>) -> Set<Seq<char>> {
    Set::new(|n: Seq<char>| exists|k: int| 0 <= k < order.len() && #[trigger] order[k].name == n)
}

/// The services that [`resolve_dependencies`] returns start what they must: every dependency of
/// a service comes before it, none is masked, and every name to start is there. With distinct
/// names, their names are exactly the least set that holds the names to start and is closed
/// under dependencies.
pub proof fn law_resolved_services(svcs: Seq<ServiceView>, start: Seq<Seq<char>>)
    requires
        svcs.len() <= usize::MAX,
    ensures
        resolved_services(svcs, start) matches Ok(order) ==> {
            &&& sound_order(order, start)
            &&& (forall|i: int, j: int| 0 <= i < svcs.len() && 0 <= j < svcs.len() && i != j ==> svcs[i].name != svcs[j].name)
                ==> {
                &&& closed_name_set(svcs, start, order_names(order))
                &&& forall|names: Set<Seq<char>>| #[trigger] closed_name_set(svcs, start, names) ==> order_names(order).subset_of(names)
            }
        },
{
    if resolution(svcs, start) is Ok {
        let idx = resolution(svcs, start)->Ok_0;
        let order = idx.map_values(|i: int| svcs[i]);
        law_dependencies_come_first(svcs, start);
        law_resolution_contents(svcs, start);
        assert forall|k: int, j: int|
            0 <= k < order.len() && 0 <= j < dependency_names(order[k]).len() implies comes_before(
            order,
            k,
            #[trigger] dependency_names(order[k])[j],
        ) by {
            assert(order[k] == svcs[idx[k]]);
            let d = dependency_names(svcs[idx[k]])[j];
            assert(named_before(svcs, idx, k, d));
            let m = choose|m: int| 0 <= m < k && #[trigger] svcs[idx[m]].name == d;
            assert(order[m] == svcs[idx[m]]);
        }
        assert forall|k: int| 0 <= k < order.len() implies !is_masked(#[trigger] order[k]) by {
            assert(order[k] == svcs[idx[k]]);
        }
        assert forall|t: int| 0 <= t < start.len() implies order_names(order).contains(#[trigger] start[t]) by {
            let k = choose|k: int| 0 <= k < idx.len() && svcs[idx[k]].name == #[trigger] start[t];
            assert(order[k] == svcs[idx[k]]);
        }
        assert(order_names(order) =~= names_at(svcs, idx)) by {
            assert forall|n: Seq<char>| order_names(order).contains(n) implies names_at(svcs, idx).contains(n) by {
                let k = choose|k: int| 0 <= k < order.len() && #[trigger] order[k].name == n;
                assert(order[k] == svcs[idx[k]]);
            }
            assert forall|n: Seq<char>| names_at(svcs, idx).contains(n) implies order_names(order).contains(n) by {
                let k = choose|k: int| 0 <= k < idx.len() && #[trigger] svcs[idx[k]].name == n;
                assert(order[k] == svcs[idx[k]]);
            }
        }
        assert(sound_order(order, start));
        assert(resolved_services(svcs, start) == Ok::<Seq<ServiceView>, ResolveFailure>(order));
        if forall|i: int, j: int| 0 <= i < svcs.len() && 0 <= j < svcs.len() && i != j ==> svcs[i].name != svcs[j].name {
            law_resolution_is_closure(svcs, start);
            assert(closed_name_set(svcs, start, order_names(order)));
        }
    }
}

/// Two strictly increasing sequences with the same elements are equal.
pub proof fn lemma_increasing_unique(a: Seq<int>, b: Seq<int>)
    requires
        forall|i: int, j: int| 0 <= i < j < a.len() ==> #[trigger] a[i] < #[trigger] a[j],
        forall|i: int, j: int| 0 <= i < j < b.len() ==> #[trigger] b[i] < #[trigger] b[j],
        forall|x: int| a.contains(x) <==> b.contains(x),
    ensures
        a == b,
    decreases a.len() + b.len(),
{
    if a.len() == 0 {
        if b.len() > 0 {
            assert(b.contains(b[0]));
        }
        assert(a =~= b);
    } else if b.len() == 0 {
        assert(a.contains(a[0]));
    } else {
        let x = a.last();
        let y = b.last();
        assert(a.contains(x));
        assert(b.contains(y));
        let iy = choose|i: int| 0 <= i < a.len() && a[i] == y;
        let ix = choose|i: int| 0 <= i < b.len() && b[i] == x;
        if iy < a.len() - 1 {
            assert(a[iy] < a[a.len() - 1]);
        }
        if ix < b.len() - 1 {
            assert(b[ix] < b[b.len() - 1]);
        }
        assert(x == y);
        let a2 = a.drop_last();
        let b2 = b.drop_last();
        assert forall|z: int| a2.contains(z) <==> b2.contains(z) by {
            if a2.contains(z) {
                let i = choose|i: int| 0 <= i < a2.len() && a2[i] == z;
                assert(a[i] < a[a.len() - 1]);
                assert(a.contains(z));
                let j = choose|j: int| 0 <= j < b.len() && b[j] == z;
                assert(j != b.len() - 1);
                assert(b2[j] == z);
            }
            if b2.contains(z) {
                let i = choose|i: int| 0 <= i < b2.len() && b2[i] == z;
                assert(b[i] < b[b.len() - 1]);
                assert(b.contains(z));
                let j = choose|j: int| 0 <= j < a.len() && a[j] == z;
                assert(j != a.len() - 1);
                assert(a2[j] == z);
            }
        }
        lemma_increasing_unique(a2, b2);
        assert(a =~= a2.push(x));
        assert(b =~= b2.push(y));
    }
}

/// With distinct names and no dependencies, when each name to start names a service that is
/// not masked, the order is the list of services kept to those named, in the list's order,
/// whatever the order of the names to start.
pub proof fn law_list_filtered(svcs: Seq<ServiceView>, start: Seq<Seq<char>>)
    requires
        svcs.len() <= usize::MAX,
        forall|i: int, j: int| 0 <= i < svcs.len() && 0 <= j < svcs.len() && i != j ==> svcs[i].name != svcs[j].name,
        forall|i: int| 0 <= i < svcs.len() ==> #[trigger] dependency_names(svcs[i]).len() == 0,
        forall|k: int| 0 <= k < start.len() ==> exists|i: int| 0 <= i < svcs.len() && svcs[i].name == #[trigger] start[k]
            && !is_masked(svcs[i]),
    ensures
        resolution(svcs, start) == Ok::<Seq<int>, ResolveFailure>(
            ascending_where(svcs.len() as int, |i: int| start.contains(svcs[i].name)),
        ),
{
    let named = Set::new(|n: Seq<char>| start.contains(n));
    assert forall|k: int| 0 <= k < start.len() implies named.contains(#[trigger] start[k]) by {
        assert(start.contains(start[k]));
    }
    assert(closed_name_set(svcs, start, named));
    law_resolution_within(svcs, start, named);
    law_cycle_reported_exactly(svcs, start);
    match resolution(svcs, start) {
        Err(ResolveFailure::Unknown(x)) => {
            let k = choose|k: int| 0 <= k < start.len() && start[k] == x;
            let i = choose|i: int| 0 <= i < svcs.len() && svcs[i].name == #[trigger] start[k] && !is_masked(svcs[i]);
            assert(svcs[i].name == x);
        },
        Err(ResolveFailure::Masked) => {
            let i = choose|i: int| 0 <= i < svcs.len() && named.contains((#[trigger] svcs[i]).name) && is_masked(svcs[i]);
            let k = choose|k: int| 0 <= k < start.len() && start[k] == svcs[i].name;
            let i2 = choose|i2: int| 0 <= i2 < svcs.len() && svcs[i2].name == #[trigger] start[k] && !is_masked(svcs[i2]);
            assert(i2 != i);
        },
        Err(ResolveFailure::Cyclic) => {
            let entries = service_index(svcs);
            let scope = scope_of(svcs, start)->Ok_0;
            let adj = dependency_places(entries, svcs, scope);
            lemma_service_index(svcs);
            lemma_scope_closed(svcs, start);
            let group = choose|group: Set<int>| #[trigger] is_cyclic_group(scope, adj, group);
            let p = choose|p: int| group.contains(p);
            assert(adj[p].len() == 0) by {
                assert(entries[p].1 < svcs.len());
                assert(dependency_names(svcs[entries[p].1 as int]).len() == 0);
            }
        },
        Ok(idx) => {
            let pred = |i: int| start.contains(svcs[i].name);
            let asc = ascending_where(svcs.len() as int, pred);
            law_list_order_kept(svcs, start);
            law_resolution_contents(svcs, start);
            lemma_ascending(svcs.len() as int, pred);
            assert forall|x: int| idx.contains(x) <==> asc.contains(x) by {
                if idx.contains(x) {
                    let k = choose|k: int| 0 <= k < idx.len() && idx[k] == x;
                    assert(named.contains(svcs[idx[k]].name));
                    assert(pred(x));
                }
                if asc.contains(x) {
                    let i = choose|i: int| 0 <= i < asc.len() && asc[i] == x;
                    assert(pred(x));
                    let k = choose|k: int| 0 <= k < start.len() && start[k] == svcs[x].name;
                    let m = choose|m: int| 0 <= m < idx.len() && svcs[idx[m]].name == #[trigger] start[k];
                    assert(idx[m] == x);
                }
            }
            lemma_increasing_unique(idx, asc);
        },
    }
}

} // verus!
