//! The dependency resolver: the order in which the transformations of a
//! stack run.
//!
//! Every transformation comes after all of those that it depends on.  Where
//! the dependencies leave a choice, the transformation that the descriptor
//! declares first comes first, so that one descriptor always has one order.

use crate::descriptor::{
    all_known, check_transformations, is_transformation_fault,
    lemma_transformation_fault_unique, names_of_transformations,
    transformation_names, transformations_valid, StructuralError,
    StructuralErrorView, TransformationConfig, TransformationView,
};
use crate::graph::{
    acyclic, depends_on, is_blocking_cycle, is_cycle, is_permutation, lemma_blocking_cycle_unique,
    lemma_schedule_complete_iff_acyclic, respects_dependencies, schedule_of, well_formed,
    DependencyGraph,
};
use crate::text::{copy_string, find_name, index_of, is_first_index, lemma_index_of, views};
use vstd::prelude::*;

verus! {

/// The transformations named in `cycle` depend on each other in a circle:
/// each on the next, and the last on the first.
#[derive(Debug, Clone)]
pub struct CyclicDependencyError {
    pub cycle: Vec<String>,
}

/// Why the transformations cannot be ordered.
#[derive(Debug, Clone)]
pub enum ResolveError {
    /// A name occurs twice, or a dependency names no transformation.
    Structure(StructuralError),
    /// The dependencies run in a circle.
    Cycle(CyclicDependencyError),
}

/// The outcome of resolving, as contracts speak of it.
pub enum Resolution {
    /// The names of the transformations in the order in which they run.
    Order(Seq<Seq<char>>),
    /// The first fault of the structure.
    Fault(StructuralErrorView),
    /// The names of the transformations of a dependency cycle.
    Cycle(Seq<Seq<char>>),
}

/// The outcome that `r` stands for.
pub open spec fn resolution_of(r: Result<Vec<String>, ResolveError>) -> Resolution {
    match r {
        Ok(order) => Resolution::Order(views(order@)),
        Err(ResolveError::Structure(e)) => Resolution::Fault(e@),
        Err(ResolveError::Cycle(c)) => Resolution::Cycle(views(c.cycle@)),
    }
}

/// The dependency graph of the transformations: node `i` is the `i`-th
/// transformation, and its edges lead to the transformations that its
/// dependencies name.
pub open spec fn dependency_edges(ts: Seq<TransformationView>) -> Seq<Seq<usize>> {
    Seq::new(
        ts.len(),
        |i: int|
            Seq::new(
                ts[i].depends_on.len(),
                |k: int| index_of(transformation_names(ts), ts[i].depends_on[k]) as usize,
            ),
    )
}

/// The names of the transformations at the positions `nodes`.
pub open spec fn names_at(ts: Seq<TransformationView>, nodes: Seq<usize>) -> Seq<Seq<char>> {
    nodes.map_values(|i: usize| ts[i as int].name)
}

/// `order` holds the name of every transformation once.
pub open spec fn is_name_permutation(ts: Seq<TransformationView>, order: Seq<Seq<char>>) -> bool {
    &&& order.len() == ts.len()
    &&& order.no_duplicates()
    &&& forall|i: int| 0 <= i < ts.len() ==> order.contains((#[trigger] ts[i]).name)
}

/// The name `x` stands among the first `p` names of `order`.
pub open spec fn stands_before(order: Seq<Seq<char>>, p: int, x: Seq<char>) -> bool {
    order.take(p).contains(x)
}

/// In `order` every transformation stands after all of those that it
/// depends on.
pub open spec fn dependencies_first(ts: Seq<TransformationView>, order: Seq<Seq<char>>) -> bool {
    forall|p: int, i: int, k: int|
        0 <= p < order.len() && 0 <= i < ts.len() && ts[i].name == order[p] && 0 <= k
            < ts[i].depends_on.len() ==> #[trigger] stands_before(order, p, ts[i].depends_on[k])
}

/// The transformation named `a` lists `b` among its dependencies.
pub open spec fn name_depends_on(ts: Seq<TransformationView>, a: Seq<char>, b: Seq<char>) -> bool {
    exists|i: int| 0 <= i < ts.len() && (#[trigger] ts[i]).name == a && ts[i].depends_on.contains(b)
}

/// The names of `cycle` depend on each other in a circle.
pub open spec fn is_name_cycle(ts: Seq<TransformationView>, cycle: Seq<Seq<char>>) -> bool {
    &&& cycle.len() > 0
    &&& forall|t: int|
        0 <= t < cycle.len() ==> name_depends_on(
            ts,
            #[trigger] cycle[t],
            cycle[if t + 1 < cycle.len() { t + 1 } else { 0 }],
        )
}

/// `r` is what resolving the transformations `ts` yields.
///
/// Where their structure is at fault, the first fault.  Else, where their
/// dependencies run in a circle, the names of the cycle that keeps the
/// first unplaceable transformation from being placed.  Else the order that
/// places, step by step, the first declared transformation whose
/// dependencies are all placed.
pub open spec fn is_resolution(ts: Seq<TransformationView>, r: Resolution) -> bool {
    let g = dependency_edges(ts);
    match r {
        Resolution::Fault(e) => is_transformation_fault(ts, e),
        Resolution::Cycle(names) => {
            &&& transformations_valid(ts)
            &&& !acyclic(g)
            &&& exists|cycle: Seq<usize>|
                #![trigger is_blocking_cycle(g, schedule_of(g), cycle)]
                is_blocking_cycle(g, schedule_of(g), cycle) && names == names_at(ts, cycle)
        },
        Resolution::Order(names) => {
            &&& transformations_valid(ts)
            &&& acyclic(g)
            &&& names == names_at(ts, schedule_of(g))
        },
    }
}

/// The dependency graph of transformations whose structure is sound.
pub fn dependency_graph(ts: &Vec<TransformationConfig>) -> (g: DependencyGraph)
    requires
        transformations_valid(views(ts@)),
    ensures
        g@ == dependency_edges(views(ts@)),
        g.wf(),
{
    let names = names_of_transformations(ts);
    let ghost tv = views(ts@);
    let ghost all = transformation_names(tv);
    let mut edges: Vec<Vec<usize>> = Vec::new();
    let mut i: usize = 0;
    while i < ts.len()
        invariant
            i <= ts@.len(),
            tv == views(ts@),
            all == transformation_names(tv),
            views(names@) == all,
            transformations_valid(tv),
            edges@.len() == i,
            forall|a: int| 0 <= a < i ==> (#[trigger] edges@[a])@ == dependency_edges(tv)[a],
            forall|a: int, b: int|
                0 <= a < i && 0 <= b < edges@[a]@.len() ==> (#[trigger] edges@[a]@[b]) < ts@.len(),
        decreases ts@.len() - i,
    {
        let deps = &ts[i].depends_on;
        assert(tv[i as int].depends_on == views(deps@));
        assert(all_known(tv[i as int].depends_on, all));
        let mut row: Vec<usize> = Vec::new();
        let mut k: usize = 0;
        while k < deps.len()
            invariant
                i < ts@.len(),
                k <= deps@.len(),
                tv[i as int].depends_on == views(deps@),
                all_known(views(deps@), all),
                views(names@) == all,
                all.len() == ts@.len(),
                row@.len() == k,
                forall|b: int| 0 <= b < k ==> (#[trigger] row@[b]) == index_of(all, views(deps@)[b]) as usize,
                forall|b: int| 0 <= b < k ==> (#[trigger] row@[b]) < ts@.len(),
            decreases deps@.len() - k,
        {
            let found = find_name(&names, &deps[k]);
            assert(all.contains(views(deps@)[k as int]));
            // Every dependency names a transformation, so one is found.
            let j = match found {
                Some(j) => j,
                None => 0,
            };
            proof {
                let x = views(deps@)[k as int];
                assert(is_first_index(all, x, j as int));
                let c = index_of(all, x);
                assert(is_first_index(all, x, c));
                assert(c == j);
            }
            row.push(j);
            k += 1;
        }
        assert(row@ =~= dependency_edges(tv)[i as int]);
        edges.push(row);
        i += 1;
    }
    let g = DependencyGraph { edges };
    assert(g@ =~= dependency_edges(tv));
    assert(well_formed(g@)) by {
        assert forall|a: int, b: int| 0 <= a < g@.len() && 0 <= b < g@[a].len() implies (#[trigger] g@[a][b])
            < g@.len() by {
            assert(edges@[a]@[b] < ts@.len());
        }
    }
    g
}

/// The names of the transformations at the positions `nodes`, in that
/// order.
pub fn names_of_nodes(ts: &Vec<TransformationConfig>, nodes: &Vec<usize>) -> (r: Vec<String>)
    requires
        forall|p: int| 0 <= p < nodes@.len() ==> (#[trigger] nodes@[p]) < ts@.len(),
    ensures
        views(r@) == names_at(views(ts@), nodes@),
{
    let mut r: Vec<String> = Vec::new();
    let mut p: usize = 0;
    while p < nodes.len()
        invariant
            p <= nodes@.len(),
            forall|q: int| 0 <= q < nodes@.len() ==> (#[trigger] nodes@[q]) < ts@.len(),
            r@.len() == p,
            forall|q: int| 0 <= q < p ==> r@[q]@ == ts@[nodes@[q] as int].name@,
        decreases nodes@.len() - p,
    {
        r.push(copy_string(&ts[nodes[p]].name));
        p += 1;
    }
    assert(views(r@) =~= names_at(views(ts@), nodes@));
    r
}

/// Orders the transformations so that each comes after all of those that
/// it depends on; where the dependencies leave a choice, the one declared
/// first comes first.  Fails with the first fault of the structure, or with
/// a dependency cycle where there is one: never with a part of an order.
pub fn resolve_order(ts: &Vec<TransformationConfig>) -> (r: Result<Vec<String>, ResolveError>)
    ensures
        is_resolution(views(ts@), resolution_of(r)),
        r matches Ok(order) ==> is_name_permutation(views(ts@), views(order@)) && dependencies_first(
            views(ts@),
            views(order@),
        ),
        r matches Err(ResolveError::Cycle(c)) ==> is_name_cycle(views(ts@), views(c.cycle@)),
{
    match check_transformations(ts) {
        Err(e) => {
            return Err(ResolveError::Structure(e));
        },
        Ok(()) => {},
    }
    let ghost tv = views(ts@);
    let n = ts.len();
    assert(tv.len() == n);
    let g = dependency_graph(ts);
    match g.topological_order() {
        Ok(nodes) => {
            let order = names_of_nodes(ts, &nodes);
            proof {
                lemma_order_of_names(tv, nodes@);
            }
            Ok(order)
        },
        Err(nodes) => {
            proof {
                assert forall|p: int| 0 <= p < nodes@.len() implies (#[trigger] nodes@[p]) < ts@.len() by {
                    assert(depends_on(
                        g@,
                        nodes@[p] as int,
                        nodes@[if p + 1 < nodes@.len() { p + 1 } else { 0 }] as int,
                    ));
                }
            }
            let cycle = names_of_nodes(ts, &nodes);
            proof {
                lemma_cycle_of_names(tv, nodes@);
            }
            Err(ResolveError::Cycle(CyclicDependencyError { cycle }))
        },
    }
}

/// An edge of the dependency graph leads to the transformation that the
/// dependency names.
pub proof fn lemma_edge_names_dependency(ts: Seq<TransformationView>, a: int, k: int)
    requires
        transformations_valid(ts),
        ts.len() <= usize::MAX,
        0 <= a < ts.len(),
        0 <= k < ts[a].depends_on.len(),
    ensures
        dependency_edges(ts)[a].len() == ts[a].depends_on.len(),
        dependency_edges(ts)[a][k] < ts.len(),
        ts[dependency_edges(ts)[a][k] as int].name == ts[a].depends_on[k],
{
    let all = transformation_names(ts);
    let x = ts[a].depends_on[k];
    assert(all_known(ts[a].depends_on, all));
    assert(all.contains(x));
    lemma_index_of(all, x);
}

/// The names along a permutation of the nodes that respects the
/// dependencies hold every name once, each after the names that it depends
/// on.
pub proof fn lemma_order_of_names(ts: Seq<TransformationView>, nodes: Seq<usize>)
    requires
        transformations_valid(ts),
        ts.len() <= usize::MAX,
        is_permutation(dependency_edges(ts), nodes),
        respects_dependencies(dependency_edges(ts), nodes),
    ensures
        is_name_permutation(ts, names_at(ts, nodes)),
        dependencies_first(ts, names_at(ts, nodes)),
{
    let g = dependency_edges(ts);
    let all = transformation_names(ts);
    let order = names_at(ts, nodes);
    assert forall|a: int, b: int| 0 <= a < order.len() && 0 <= b < order.len() && a != b implies order[a]
        != order[b] by {
        assert(nodes[a] != nodes[b]);
        assert(all[nodes[a] as int] != all[nodes[b] as int]);
    }
    assert forall|i: int| 0 <= i < ts.len() implies order.contains((#[trigger] ts[i]).name) by {
        assert(nodes.contains(i as usize));
        let p = choose|p: int| 0 <= p < nodes.len() && nodes[p] == i as usize;
        assert(order[p] == ts[i].name);
    }
    assert forall|p: int, i: int, k: int|
        0 <= p < order.len() && 0 <= i < ts.len() && ts[i].name == order[p] && 0 <= k
            < ts[i].depends_on.len() implies #[trigger] stands_before(order, p, ts[i].depends_on[k]) by {
        let n = nodes[p] as int;
        assert(all[n] == all[i]);
        assert(n == i);
        lemma_edge_names_dependency(ts, i, k);
        let d = g[i][k];
        assert(nodes.take(p).contains(g[nodes[p] as int][k]));
        let q = choose|q: int| 0 <= q < nodes.take(p).len() && nodes.take(p)[q] == d;
        assert(order.take(p)[q] == ts[i].depends_on[k]);
    }
}

/// The names along a dependency cycle of the graph depend on each other in
/// a circle.
pub proof fn lemma_cycle_of_names(ts: Seq<TransformationView>, nodes: Seq<usize>)
    requires
        transformations_valid(ts),
        ts.len() <= usize::MAX,
        is_cycle(dependency_edges(ts), nodes),
    ensures
        is_name_cycle(ts, names_at(ts, nodes)),
{
    let g = dependency_edges(ts);
    let cycle = names_at(ts, nodes);
    assert forall|t: int| 0 <= t < cycle.len() implies name_depends_on(
        ts,
        #[trigger] cycle[t],
        cycle[if t + 1 < cycle.len() { t + 1 } else { 0 }],
    ) by {
        let next = if t + 1 < cycle.len() { t + 1 } else { 0 };
        let a = nodes[t] as int;
        let b = nodes[next];
        assert(depends_on(g, a, b as int));
        let k = choose|k: int| 0 <= k < g[a].len() && g[a][k] == b;
        lemma_edge_names_dependency(ts, a, k);
        assert(ts[a].depends_on[k] == ts[b as int].name);
        assert(ts[a].name == cycle[t]);
        assert(ts[a].depends_on.contains(cycle[next]));
    }
}

/// The dependency graph of transformations whose structure is sound has
/// edges between its own nodes only.
pub proof fn lemma_dependency_edges_wf(ts: Seq<TransformationView>)
    requires
        transformations_valid(ts),
        ts.len() <= usize::MAX,
    ensures
        well_formed(dependency_edges(ts)),
{
    let g = dependency_edges(ts);
    assert forall|i: int, k: int| 0 <= i < g.len() && 0 <= k < g[i].len() implies (#[trigger] g[i][k])
        < g.len() by {
        lemma_edge_names_dependency(ts, i, k);
    }
}

/// Transformations whose structure is sound resolve to an order exactly
/// when their dependencies do not run in a circle.  The order holds every
/// transformation once, each after all of those that it depends on.  Where
/// they do run in a circle, resolving yields a cycle and no order, not
/// even a part of one.
pub proof fn lemma_resolution_of_sound_transformations(ts: Seq<TransformationView>)
    requires
        transformations_valid(ts),
        ts.len() <= usize::MAX,
    ensures
        ({
            let g = dependency_edges(ts);
            let order = names_at(ts, schedule_of(g));
            &&& acyclic(g) ==> is_resolution(ts, Resolution::Order(order)) && is_name_permutation(
                ts,
                order,
            ) && dependencies_first(ts, order)
            &&& !acyclic(g) ==> exists|names: Seq<Seq<char>>|
                #![trigger is_name_cycle(ts, names)]
                is_resolution(ts, Resolution::Cycle(names)) && is_name_cycle(ts, names)
            &&& forall|r: Resolution| #[trigger] is_resolution(ts, r) ==> (r is Order <==> acyclic(g))
        }),
{
    let g = dependency_edges(ts);
    lemma_dependency_edges_wf(ts);
    lemma_schedule_complete_iff_acyclic(g);
    if acyclic(g) {
        lemma_order_of_names(ts, schedule_of(g));
    } else {
        let c = choose|c: Seq<usize>| is_blocking_cycle(g, schedule_of(g), c) && is_cycle(g, c);
        lemma_cycle_of_names(ts, c);
        let names = names_at(ts, c);
        assert(is_resolution(ts, Resolution::Cycle(names)));
    }
    assert forall|r: Resolution| #[trigger] is_resolution(ts, r) implies (r is Order <==> acyclic(g)) by {
        if let Resolution::Fault(e) = r {
            lemma_transformation_fault_unique(ts, e, e);
        }
    }
}

/// Resolving is deterministic: one list of transformations has one
/// outcome, be it an order, a fault or a cycle.
pub proof fn lemma_resolution_unique(ts: Seq<TransformationView>, a: Resolution, b: Resolution)
    requires
        is_resolution(ts, a),
        is_resolution(ts, b),
    ensures
        a == b,
{
    let g = dependency_edges(ts);
    match (a, b) {
        (Resolution::Fault(ea), Resolution::Fault(eb)) => {
            lemma_transformation_fault_unique(ts, ea, eb);
        },
        (Resolution::Fault(ea), _) => {
            lemma_transformation_fault_unique(ts, ea, ea);
        },
        (_, Resolution::Fault(eb)) => {
            lemma_transformation_fault_unique(ts, eb, eb);
        },
        (Resolution::Cycle(na), Resolution::Cycle(nb)) => {
            let ca = choose|cycle: Seq<usize>|
                #![trigger is_blocking_cycle(g, schedule_of(g), cycle)]
                is_blocking_cycle(g, schedule_of(g), cycle) && na == names_at(ts, cycle);
            let cb = choose|cycle: Seq<usize>|
                #![trigger is_blocking_cycle(g, schedule_of(g), cycle)]
                is_blocking_cycle(g, schedule_of(g), cycle) && nb == names_at(ts, cycle);
            lemma_blocking_cycle_unique(g, schedule_of(g), ca, cb);
        },
        _ => {},
    }
}

} // verus!
