//! The plan of a run: the backends of a stack and its entities in the
//! order in which they are executed, each with the entities that it waits
//! for.  The transformations come first, in resolved order; the serving
//! targets follow in declaration order, each after the transformations
//! that it reads from.

use crate::adapters::{ToolConfig, ToolConfigView};
use crate::compiler::{
    compile, distinct, distinct_names, is_compilation, serving_tools,
    serving_types, stack_tools, transformation_tools, transformation_types, types_of_serving,
    types_of_transformations, CompileError, CompiledBackendView,
};
use crate::descriptor::{
    is_first_fault, names_of_transformations, seconds_of, structurally_valid,
    transformation_names, ParseError, StackDescriptor, StackView, StructuralError,
    TransformationView,
};
use crate::graph::{
    acyclic, is_permutation, respects_dependencies, schedule_of, DependencyGraph,
};
use crate::orchestrator::{
    engine_wf, DeclarativeEngine, EngineView, EntityStatus, InFlight, PlannedEntity,
    PlannedEntityView, Validation,
};
use crate::resolver::{
    dependency_edges, dependency_graph, is_name_cycle, is_resolution, lemma_cycle_of_names,
    names_at, names_of_nodes, CyclicDependencyError, Resolution,
};
use crate::text::{
    copy_string, find_name, index_of, is_first_index, lemma_index_is, lemma_index_of_unique,
    views,
};
use vstd::prelude::*;
use vstd::string::StringExecFns;

verus! {

/// Why no run can be prepared for a descriptor.
#[derive(Debug, Clone)]
pub enum EngineError {
    /// The structure of the descriptor is at fault.
    Structure(StructuralError),
    /// The timeout of the descriptor is no whole number of seconds, so
    /// that the calls of the run would have no limit.
    Timeout(ParseError),
    /// The dependencies of the transformations run in a circle.
    Cycle(CyclicDependencyError),
    /// A tool has no adapter, or an adapter could not render an entity.
    Compile(CompileError),
}

/// The words that report an unreadable timeout.
pub open spec fn timeout_message(timeout: Seq<char>) -> Seq<char> {
    "the timeout '"@ + timeout + "' is not a whole number of seconds"@
}

/// The tool configuration of a run: the root that is given, and the
/// environment that is given, else that of the descriptor, where it names
/// one.
pub open spec fn run_config(d: StackView, config: ToolConfigView) -> ToolConfigView {
    ToolConfigView {
        path: config.path,
        environment: if config.environment is Some {
            config.environment
        } else if d.environment.len() > 0 {
            Some(d.environment)
        } else {
            None
        },
    }
}

/// The tool configuration of a run.
pub fn tools_of_run(d: &StackDescriptor, config: &ToolConfig) -> (r: ToolConfig)
    ensures
        r@ == run_config(d@, config@),
{
    let environment = match &config.environment {
        Some(e) => Some(copy_string(e)),
        None => if d.environment.as_str().unicode_len() > 0 {
            Some(copy_string(&d.environment))
        } else {
            None
        },
    };
    ToolConfig { path: copy_string(&config.path), environment }
}

/// Where each of the nodes `targets` stands in the order `nodes`.
pub open spec fn node_positions(nodes: Seq<usize>, targets: Seq<usize>) -> Seq<usize> {
    targets.map_values(|n: usize| index_of(nodes, n) as usize)
}

/// Where the transformations that a serving target reads from stand in the
/// order `nodes`.  Data sources that name a source stand nowhere: nothing
/// is executed for a source.
pub open spec fn upstream(ts: Seq<TransformationView>, nodes: Seq<usize>, sources: Seq<Seq<char>>) -> Seq<
    usize,
>
    decreases sources.len(),
{
    if sources.len() == 0 {
        Seq::empty()
    } else {
        let rest = upstream(ts, nodes, sources.drop_last());
        let names = transformation_names(ts);
        if names.contains(sources.last()) {
            rest.push(index_of(nodes, index_of(names, sources.last()) as usize) as usize)
        } else {
            rest
        }
    }
}

/// The plan entry of the transformation that stands at position `i` of the
/// order `nodes`.
pub open spec fn planned_transformation(d: StackView, nodes: Seq<usize>, i: int) -> PlannedEntityView {
    let t = d.transformations[nodes[i] as int];
    PlannedEntityView {
        name: t.name,
        backend: index_of(transformation_tools(d), t.transform_type) as usize,
        depends_on: node_positions(nodes, dependency_edges(d.transformations)[nodes[i] as int]),
    }
}

/// The plan entry of the `j`-th serving target.
pub open spec fn planned_serving(d: StackView, nodes: Seq<usize>, j: int) -> PlannedEntityView {
    let v = d.serving[j];
    PlannedEntityView {
        name: v.name,
        backend: (transformation_tools(d).len() + index_of(serving_tools(d), v.serving_type)) as usize,
        depends_on: upstream(d.transformations, nodes, v.data_sources),
    }
}

/// The plan: the transformations in the order `nodes`, then the serving
/// targets in declaration order.
pub open spec fn planned_entities(d: StackView, nodes: Seq<usize>) -> Seq<PlannedEntityView> {
    Seq::new(
        nodes.len() + d.serving.len(),
        |i: int|
            if i < nodes.len() {
                planned_transformation(d, nodes, i)
            } else {
                planned_serving(d, nodes, i - nodes.len())
            },
    )
}

/// The state in which a run begins: nothing validated, nothing decided.
pub open spec fn initial_state(d: StackView, nodes: Seq<usize>, backends: Seq<CompiledBackendView>) -> EngineView {
    let entities = planned_entities(d, nodes);
    EngineView {
        backends,
        validations: Seq::new(backends.len(), |b: int| Validation::Waiting),
        entities,
        statuses: Seq::new(entities.len(), |e: int| EntityStatus::Pending),
        attempts: Seq::new(entities.len(), |e: int| 0u64),
        retries: d.orchestration.retries,
        timeout: seconds_of(d.orchestration.timeout).unwrap(),
        validated: 0,
        cursor: 0,
        in_flight: InFlight::Nothing,
        aborted: false,
    }
}

/// Every item of a list occurs among its distinct items.
pub proof fn lemma_distinct_covers(s: Seq<Seq<char>>, i: int)
    requires
        0 <= i < s.len(),
    ensures
        distinct(s).contains(s[i]),
    decreases s.len(),
{
    let rest = distinct(s.drop_last());
    if i == s.len() - 1 {
        if !rest.contains(s.last()) {
            assert(rest.push(s.last())[rest.len() as int] == s.last());
        }
    } else {
        lemma_distinct_covers(s.drop_last(), i);
        let k = choose|k: int| 0 <= k < rest.len() && rest[k] == s.drop_last()[i];
        if !rest.contains(s.last()) {
            assert(rest.push(s.last())[k] == s[i]);
        }
    }
}

/// For each node, where it stands in `nodes`.
fn positions(nodes: &Vec<usize>) -> (r: Vec<usize>)
    requires
        nodes@.no_duplicates(),
        forall|k: int| 0 <= k < nodes@.len() ==> (#[trigger] nodes@[k]) < nodes@.len(),
    ensures
        r@.len() == nodes@.len(),
        forall|k: int| 0 <= k < nodes@.len() ==> r@[(#[trigger] nodes@[k]) as int] == k,
{
    let n = nodes.len();
    let mut r: Vec<usize> = Vec::new();
    let mut f: usize = 0;
    while f < n
        invariant
            f <= n,
            r@.len() == f,
        decreases n - f,
    {
        r.push(0);
        f += 1;
    }
    let mut i: usize = 0;
    while i < n
        invariant
            n == nodes@.len(),
            i <= n,
            r@.len() == n,
            nodes@.no_duplicates(),
            forall|k: int| 0 <= k < nodes@.len() ==> (#[trigger] nodes@[k]) < nodes@.len(),
            forall|k: int| 0 <= k < i ==> r@[(#[trigger] nodes@[k]) as int] == k,
        decreases n - i,
    {
        r.set(nodes[i], i);
        i += 1;
    }
    r
}

/// The plan entries of the transformations, in the order `nodes`.
fn plan_transformations(
    d: &StackDescriptor,
    g: &DependencyGraph,
    nodes: &Vec<usize>,
    places: &Vec<usize>,
    tools: &Vec<String>,
) -> (r: Vec<PlannedEntity>)
    requires
        g@ == dependency_edges(d@.transformations),
        g.wf(),
        is_permutation(g@, nodes@),
        respects_dependencies(g@, nodes@),
        places@.len() == nodes@.len(),
        forall|k: int| 0 <= k < nodes@.len() ==> places@[(#[trigger] nodes@[k]) as int] == k,
        views(tools@) == transformation_tools(d@),
    ensures
        r@.len() == nodes@.len(),
        forall|i: int| 0 <= i < r@.len() ==> (#[trigger] r@[i])@ == planned_transformation(d@, nodes@, i),
        forall|i: int| 0 <= i < r@.len() ==> (#[trigger] r@[i]).backend < tools@.len(),
        forall|i: int, k: int|
            0 <= i < r@.len() && 0 <= k < r@[i].depends_on@.len() ==> (#[trigger] r@[i].depends_on@[k]) < i,
{
    let ghost dv = d@;
    let ghost tv = dv.transformations;
    let mut r: Vec<PlannedEntity> = Vec::new();
    let mut i: usize = 0;
    while i < nodes.len()
        invariant
            i <= nodes@.len(),
            dv == d@,
            tv == dv.transformations,
            g@ == dependency_edges(tv),
            g.wf(),
            is_permutation(g@, nodes@),
            respects_dependencies(g@, nodes@),
            places@.len() == nodes@.len(),
            forall|k: int| 0 <= k < nodes@.len() ==> places@[(#[trigger] nodes@[k]) as int] == k,
            views(tools@) == transformation_tools(dv),
            r@.len() == i,
            forall|x: int| 0 <= x < i ==> (#[trigger] r@[x])@ == planned_transformation(dv, nodes@, x),
            forall|x: int| 0 <= x < i ==> (#[trigger] r@[x]).backend < tools@.len(),
            forall|x: int, k: int|
                0 <= x < i && 0 <= k < r@[x].depends_on@.len() ==> (#[trigger] r@[x].depends_on@[k]) < x,
        decreases nodes@.len() - i,
    {
        let node = nodes[i];
        assert(tv == views(d.transformations@));
        assert(g@.len() == tv.len());
        assert(nodes@[i as int] < g@.len());
        let t = &d.transformations[node];
        assert(tv[node as int] == d.transformations@[node as int]@);
        let found = find_name(tools, &t.transform_type);
        proof {
            assert(transformation_types(tv)[node as int] == t.transform_type@);
            lemma_distinct_covers(transformation_types(tv), node as int);
        }
        // The tools hold the type of every transformation, so it is found.
        let backend = match found {
            Some(b) => b,
            None => 0,
        };
        proof {
            lemma_index_is(views(tools@), t.transform_type@, backend as int);
        }
        let edges = &g.edges[node];
        assert(edges@ == g@[node as int]);
        let mut depends_on: Vec<usize> = Vec::new();
        let mut k: usize = 0;
        while k < edges.len()
            invariant
                k <= edges@.len(),
                i < nodes@.len(),
                node == nodes@[i as int],
                edges@ == g@[node as int],
                g.wf(),
                is_permutation(g@, nodes@),
                respects_dependencies(g@, nodes@),
                places@.len() == nodes@.len(),
                forall|j: int| 0 <= j < nodes@.len() ==> places@[(#[trigger] nodes@[j]) as int] == j,
                depends_on@.len() == k,
                forall|j: int|
                    0 <= j < k ==> (#[trigger] depends_on@[j]) == index_of(nodes@, edges@[j]) as usize
                        && depends_on@[j] < i,
            decreases edges@.len() - k,
        {
            let target = edges[k];
            assert(g@[node as int][k as int] < g@.len());
            let place = places[target];
            proof {
                assert(nodes@.take(i as int).contains(g@[nodes@[i as int] as int][k as int]));
                let q = choose|q: int|
                    0 <= q < nodes@.take(i as int).len() && nodes@.take(i as int)[q] == target;
                assert(nodes@[q] == target);
                lemma_index_of_unique(nodes@, q);
                assert(places@[nodes@[q] as int] == q);
            }
            depends_on.push(place);
            k += 1;
        }
        assert(depends_on@ =~= node_positions(nodes@, g@[node as int]));
        r.push(PlannedEntity { name: copy_string(&t.name), backend, depends_on });
        i += 1;
    }
    r
}

/// Where the transformations that `sources` name stand in the order
/// `nodes`.
fn plan_upstream(
    names: &Vec<String>,
    places: &Vec<usize>,
    sources: &Vec<String>,
    Ghost(ts): Ghost<Seq<TransformationView>>,
    Ghost(nodes): Ghost<Seq<usize>>,
) -> (r: Vec<usize>)
    requires
        views(names@) == transformation_names(ts),
        is_permutation(dependency_edges(ts), nodes),
        places@.len() == nodes.len(),
        forall|k: int| 0 <= k < nodes.len() ==> places@[(#[trigger] nodes[k]) as int] == k,
    ensures
        r@ == upstream(ts, nodes, views(sources@)),
        forall|k: int| 0 <= k < r@.len() ==> (#[trigger] r@[k]) < nodes.len(),
{
    let ghost sv = views(sources@);
    let mut r: Vec<usize> = Vec::new();
    let mut i: usize = 0;
    assert(sv.take(0) =~= Seq::empty());
    while i < sources.len()
        invariant
            i <= sources@.len(),
            sv == views(sources@),
            views(names@) == transformation_names(ts),
            is_permutation(dependency_edges(ts), nodes),
            places@.len() == nodes.len(),
            forall|k: int| 0 <= k < nodes.len() ==> places@[(#[trigger] nodes[k]) as int] == k,
            r@ == upstream(ts, nodes, sv.take(i as int)),
            forall|k: int| 0 <= k < r@.len() ==> (#[trigger] r@[k]) < nodes.len(),
        decreases sources@.len() - i,
    {
        proof {
            assert(sv.take(i + 1).drop_last() =~= sv.take(i as int));
            assert(sv.take(i + 1).last() == sources@[i as int]@);
        }
        if let Some(j) = find_name(names, &sources[i]) {
            proof {
                let all = transformation_names(ts);
                assert(all.contains(sources@[i as int]@));
                lemma_index_is(all, sources@[i as int]@, j as int);
                assert(nodes.contains(j));
                let q = choose|q: int| 0 <= q < nodes.len() && nodes[q] == j;
                lemma_index_of_unique(nodes, q);
                assert(places@[nodes[q] as int] == q);
            }
            r.push(places[j]);
        }
        i += 1;
    }
    assert(sv.take(sources@.len() as int) =~= sv);
    r
}

impl DeclarativeEngine {
    /// Prepares the run of a stack: checks the structure of the
    /// descriptor and its timeout, orders its transformations, compiles an
    /// artifact for each tool, and lays out the plan.  The tools run in the
    /// environment that `config` gives, else in that of the descriptor,
    /// else in `remote`.  Nothing is validated or executed yet.  Fails with
    /// the first fault of the structure; else with a timeout that is no
    /// whole number of seconds; else with a dependency cycle, where there
    /// is one; else with the first tool that does not compile.
    pub fn new(d: &StackDescriptor, config: &ToolConfig) -> (r: Result<DeclarativeEngine, EngineError>)
        ensures
            match r {
                Ok(engine) => {
                    let nodes = schedule_of(dependency_edges(d@.transformations));
                    &&& structurally_valid(d@)
                    &&& seconds_of(d@.orchestration.timeout) is Some
                    &&& acyclic(dependency_edges(d@.transformations))
                    &&& is_compilation(
                        d@,
                        names_at(d@.transformations, nodes),
                        run_config(d@, config@),
                        Ok(engine@.backends),
                    )
                    &&& engine@ == initial_state(d@, nodes, engine@.backends)
                    &&& engine.wf()
                },
                Err(EngineError::Structure(e)) => is_first_fault(d@, e@),
                Err(EngineError::Timeout(e)) => {
                    &&& structurally_valid(d@)
                    &&& seconds_of(d@.orchestration.timeout) is None
                    &&& e.message@ == timeout_message(d@.orchestration.timeout)
                },
                Err(EngineError::Cycle(c)) => {
                    &&& structurally_valid(d@)
                    &&& seconds_of(d@.orchestration.timeout) is Some
                    &&& is_resolution(d@.transformations, Resolution::Cycle(views(c.cycle@)))
                    &&& is_name_cycle(d@.transformations, views(c.cycle@))
                },
                Err(EngineError::Compile(e)) => {
                    let nodes = schedule_of(dependency_edges(d@.transformations));
                    &&& structurally_valid(d@)
                    &&& seconds_of(d@.orchestration.timeout) is Some
                    &&& acyclic(dependency_edges(d@.transformations))
                    &&& is_compilation(
                        d@,
                        names_at(d@.transformations, nodes),
                        run_config(d@, config@),
                        Err(e@),
                    )
                },
            },
    {
        match d.validate_structure() {
            Err(e) => {
                return Err(EngineError::Structure(e));
            },
            Ok(()) => {},
        }
        let timeout = match d.orchestration.timeout_seconds() {
            Some(seconds) => seconds,
            None => {
                let mut message = String::from_str("the timeout '");
                message.append(d.orchestration.timeout.as_str());
                message.append("' is not a whole number of seconds");
                return Err(EngineError::Timeout(ParseError { message }));
            },
        };
        let tools = tools_of_run(d, config);
        let ghost dv = d@;
        let ghost tv = dv.transformations;
        let n = d.transformations.len();
        assert(tv == views(d.transformations@));
        assert(tv.len() == n);
        let g = dependency_graph(&d.transformations);
        let nodes = match g.topological_order() {
            Ok(nodes) => nodes,
            Err(nodes) => {
                proof {
                    assert forall|p: int| 0 <= p < nodes@.len() implies (#[trigger] nodes@[p]) < n by {
                        assert(crate::graph::depends_on(
                            g@,
                            nodes@[p] as int,
                            nodes@[if p + 1 < nodes@.len() { p + 1 } else { 0 }] as int,
                        ));
                    }
                }
                let cycle = names_of_nodes(&d.transformations, &nodes);
                proof {
                    lemma_cycle_of_names(tv, nodes@);
                }
                return Err(EngineError::Cycle(CyclicDependencyError { cycle }));
            },
        };
        let order = names_of_nodes(&d.transformations, &nodes);
        let backends = match compile(d, &order, &tools) {
            Ok(backends) => backends,
            Err(e) => {
                return Err(EngineError::Compile(e));
            },
        };
        let places = positions(&nodes);
        let first = distinct_names(&types_of_transformations(&d.transformations));
        let second = distinct_names(&types_of_serving(&d.serving));
        let names = names_of_transformations(&d.transformations);
        assert(backends@.len() == first@.len() + second@.len()) by {
            assert(views(backends@).len() == stack_tools(dv).len());
            assert(views(first@).len() == first@.len());
            assert(views(second@).len() == second@.len());
        }
        let total = backends.len();
        let mut entities = plan_transformations(d, &g, &nodes, &places, &first);
        let mut j: usize = 0;
        while j < d.serving.len()
            invariant
                j <= d.serving@.len(),
                dv == d@,
                tv == dv.transformations,
                n == nodes@.len(),
                g@ == dependency_edges(tv),
                is_permutation(g@, nodes@),
                places@.len() == nodes@.len(),
                forall|k: int| 0 <= k < nodes@.len() ==> places@[(#[trigger] nodes@[k]) as int] == k,
                views(names@) == transformation_names(tv),
                views(first@) == transformation_tools(dv),
                views(second@) == serving_tools(dv),
                backends@.len() == first@.len() + second@.len(),
                total == backends@.len(),
                entities@.len() == n + j,
                forall|i: int| 0 <= i < n ==> (#[trigger] entities@[i])@ == planned_transformation(dv, nodes@, i),
                forall|i: int|
                    n <= i < n + j ==> (#[trigger] entities@[i])@ == planned_serving(dv, nodes@, i - n),
                forall|i: int| 0 <= i < entities@.len() ==> (#[trigger] entities@[i]).backend < backends@.len(),
                forall|i: int, k: int|
                    0 <= i < entities@.len() && 0 <= k < entities@[i].depends_on@.len() ==> (
                    #[trigger] entities@[i].depends_on@[k]) < i,
            decreases d.serving@.len() - j,
        {
            let target = &d.serving[j];
            assert(dv.serving[j as int] == d.serving@[j as int]@);
            let found = find_name(&second, &target.serving_type);
            proof {
                assert(serving_types(dv.serving)[j as int] == target.serving_type@);
                lemma_distinct_covers(serving_types(dv.serving), j as int);
            }
            // The tools hold the type of every serving target, so it is found.
            let place = match found {
                Some(b) => b,
                None => 0,
            };
            proof {
                assert(views(second@).contains(target.serving_type@));
                assert(is_first_index(views(second@), target.serving_type@, place as int));
                assert(place < second@.len());
                lemma_index_is(views(second@), target.serving_type@, place as int);
            }
            let depends_on = plan_upstream(&names, &places, &target.data_sources, Ghost(tv), Ghost(nodes@));
            entities.push(
                PlannedEntity { name: copy_string(&target.name), backend: first.len() + place, depends_on },
            );
            j += 1;
        }
        let mut validations: Vec<Validation> = Vec::new();
        let mut b: usize = 0;
        while b < backends.len()
            invariant
                b <= backends@.len(),
                validations@.len() == b,
                forall|i: int| 0 <= i < b ==> #[trigger] validations@[i] == Validation::Waiting,
            decreases backends@.len() - b,
        {
            validations.push(Validation::Waiting);
            b += 1;
        }
        let mut statuses: Vec<EntityStatus> = Vec::new();
        let mut attempts: Vec<u64> = Vec::new();
        let mut e: usize = 0;
        while e < entities.len()
            invariant
                e <= entities@.len(),
                statuses@.len() == e,
                attempts@.len() == e,
                forall|i: int| 0 <= i < e ==> #[trigger] statuses@[i] == EntityStatus::Pending,
                forall|i: int| 0 <= i < e ==> #[trigger] attempts@[i] == 0,
            decreases entities@.len() - e,
        {
            statuses.push(EntityStatus::Pending);
            attempts.push(0);
            e += 1;
        }
        let engine = DeclarativeEngine {
            backends,
            validations,
            entities,
            statuses,
            attempts,
            retries: d.orchestration.retries,
            timeout,
            validated: 0,
            cursor: 0,
            in_flight: InFlight::Nothing,
            aborted: false,
        };
        proof {
            let s = engine@;
            assert(s.entities =~= planned_entities(dv, nodes@));
            let t = initial_state(dv, nodes@, s.backends);
            assert(s.validations =~= t.validations);
            assert(s.statuses =~= t.statuses);
            assert(s.attempts =~= t.attempts);
            assert(s.retries == t.retries);
            assert(s.timeout == t.timeout);
            assert(s == t);
            assert forall|x: int| 0 <= x < s.entities.len() implies (#[trigger] s.entities[x]).backend
                < s.backends.len() by {
                assert(s.entities[x] == engine.entities@[x]@);
            }
            assert forall|x: int, k: int|
                0 <= x < s.entities.len() && 0 <= k < s.entities[x].depends_on.len() implies (
            #[trigger] s.entities[x].depends_on[k]) < x by {
                assert(s.entities[x] == engine.entities@[x]@);
                assert(engine.entities@[x].depends_on@[k] < x);
            }
            assert(engine_wf(s));
        }
        Ok(engine)
    }
}

} // verus!
