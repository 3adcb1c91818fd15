//! The config compiler: one artifact for each backend tool that the
//! descriptor names, rendered by the tool's adapter from the entities that
//! belong to it.

use crate::adapters::{
    create_serving_tool, create_transformation_tool, is_serving_tool, is_transformation_tool,
    same_text,
    run_environment, serving_blame, serving_execution, serving_location, serving_rendering,
    serving_validation, transformation_divider, transformation_execution,
    transformation_location, transformation_rendering, transformation_validation, BackendCommand, CommandView, RenderError, RenderErrorView,
    ServingTool, ToolConfig, ToolConfigView, TransformationTool, UnsupportedToolError,
};
use crate::descriptor::{
    names_of_transformations, transformation_names, ServingTarget, ServingView, StackDescriptor,
    StackView, TransformationConfig, TransformationView,
};
use crate::text::{
    copy_string, copy_strings, find_name, index_of, is_first_index, join, join_strings, views,
};
use vstd::prelude::*;

verus! {

/// The configuration text of one backend tool and where it belongs.
#[derive(Debug, Clone)]
pub struct CompiledArtifact {
    pub tool_type: String,
    pub destination: String,
    pub text: String,
}

/// An artifact, as contracts speak of it.
pub struct ArtifactView {
    pub tool_type: Seq<char>,
    pub destination: Seq<char>,
    pub text: Seq<char>,
}

impl View for CompiledArtifact {
    type V = ArtifactView;

    open spec fn view(&self) -> ArtifactView {
        ArtifactView { tool_type: self.tool_type@, destination: self.destination@, text: self.text@ }
    }
}

/// A backend tool ready to run: its artifact and the calls that validate
/// and execute it.
#[derive(Debug, Clone)]
pub struct CompiledBackend {
    pub artifact: CompiledArtifact,
    pub validate: BackendCommand,
    pub execute: BackendCommand,
}

/// A compiled backend, as contracts speak of it.
pub struct CompiledBackendView {
    pub artifact: ArtifactView,
    pub validate: CommandView,
    pub execute: CommandView,
}

impl View for CompiledBackend {
    type V = CompiledBackendView;

    open spec fn view(&self) -> CompiledBackendView {
        CompiledBackendView {
            artifact: self.artifact@,
            validate: self.validate@,
            execute: self.execute@,
        }
    }
}

/// Why a stack cannot be compiled.
#[derive(Debug, Clone)]
pub enum CompileError {
    /// An entity names a tool that has no adapter.
    UnsupportedTool(UnsupportedToolError),
    /// An adapter could not render an entity.
    Render(RenderError),
}

/// A compile error, as contracts speak of it.
pub enum CompileErrorView {
    UnsupportedTool(Seq<char>),
    Render(RenderErrorView),
}

impl View for CompileError {
    type V = CompileErrorView;

    open spec fn view(&self) -> CompileErrorView {
        match self {
            CompileError::UnsupportedTool(e) => CompileErrorView::UnsupportedTool(e.tool_type@),
            CompileError::Render(e) => CompileErrorView::Render(e@),
        }
    }
}

/// What `r` stands for in contracts.
pub open spec fn backend_result(r: Result<CompiledBackend, CompileError>) -> Result<
    CompiledBackendView,
    CompileErrorView,
> {
    match r {
        Ok(b) => Ok(b@),
        Err(e) => Err(e@),
    }
}

/// What `r` stands for in contracts.
pub open spec fn compile_result(r: Result<Vec<CompiledBackend>, CompileError>) -> Result<
    Seq<CompiledBackendView>,
    CompileErrorView,
> {
    match r {
        Ok(b) => Ok(views(b@)),
        Err(e) => Err(e@),
    }
}

/// The items of `s` without repetitions, each where it first occurs.
pub open spec fn distinct(s: Seq<Seq<char>>) -> Seq<Seq<char>>
    decreases s.len(),
{
    if s.len() == 0 {
        Seq::empty()
    } else {
        let rest = distinct(s.drop_last());
        if rest.contains(s.last()) {
            rest
        } else {
            rest.push(s.last())
        }
    }
}

/// The tool identifiers of the transformations, in declaration order.
pub open spec fn transformation_types(ts: Seq<TransformationView>) -> Seq<Seq<char>> {
    ts.map_values(|t: TransformationView| t.transform_type)
}

/// The tool identifiers of the serving targets, in declaration order.
pub open spec fn serving_types(vs: Seq<ServingView>) -> Seq<Seq<char>> {
    vs.map_values(|v: ServingView| v.serving_type)
}

/// The transformation named `name`, where there is one and the tool `kind`
/// compiles it.
pub open spec fn pick(ts: Seq<TransformationView>, name: Seq<char>, kind: Seq<char>) -> Option<
    TransformationView,
> {
    let names = transformation_names(ts);
    if names.contains(name) && ts[index_of(names, name)].transform_type == kind {
        Some(ts[index_of(names, name)])
    } else {
        None
    }
}

/// The resolved order restricted to the tool `kind`: the transformations
/// that `order` names and that `kind` compiles, in the order of `order`.
pub open spec fn selected(ts: Seq<TransformationView>, order: Seq<Seq<char>>, kind: Seq<char>) -> Seq<
    TransformationView,
>
    decreases order.len(),
{
    if order.len() == 0 {
        Seq::empty()
    } else {
        let rest = selected(ts, order.drop_last(), kind);
        match pick(ts, order.last(), kind) {
            Some(t) => rest.push(t),
            None => rest,
        }
    }
}

/// The serving targets that the tool `kind` serves, in declaration order.
pub open spec fn served(vs: Seq<ServingView>, kind: Seq<char>) -> Seq<ServingView>
    decreases vs.len(),
{
    if vs.len() == 0 {
        Seq::empty()
    } else {
        let rest = served(vs.drop_last(), kind);
        if vs.last().serving_type == kind {
            rest.push(vs.last())
        } else {
            rest
        }
    }
}

/// Every entity was rendered.
pub open spec fn all_rendered(outs: Seq<Option<Seq<char>>>) -> bool {
    forall|k: int| 0 <= k < outs.len() ==> (#[trigger] outs[k]) is Some
}

/// The texts of the renderings.
pub open spec fn texts(outs: Seq<Option<Seq<char>>>) -> Seq<Seq<char>> {
    outs.map_values(|o: Option<Seq<char>>| o.unwrap())
}

/// Position `k` holds the first entity that was not rendered.
pub open spec fn is_first_unrendered(outs: Seq<Option<Seq<char>>>, k: int) -> bool {
    &&& 0 <= k < outs.len()
    &&& outs[k] is None
    &&& all_rendered(outs.take(k))
}

/// What the tool `kind` makes of each of its transformations.
pub open spec fn transformation_renderings(
    ts: Seq<TransformationView>,
    order: Seq<Seq<char>>,
    kind: Seq<char>,
) -> Seq<Option<Seq<char>>> {
    selected(ts, order, kind).map_values(|t: TransformationView| transformation_rendering(kind, t))
}

/// `r` is what compiling the transformations of the tool `kind` yields: an
/// artifact that holds the renderings of its transformations in resolved
/// order; or that `kind` has no adapter; or the first transformation that
/// its adapter could not render.
pub open spec fn is_transformation_backend(
    ts: Seq<TransformationView>,
    order: Seq<Seq<char>>,
    kind: Seq<char>,
    config: ToolConfigView,
    r: Result<CompiledBackendView, CompileErrorView>,
) -> bool {
    let outs = transformation_renderings(ts, order, kind);
    match r {
        Ok(b) => {
            &&& is_transformation_tool(kind)
            &&& all_rendered(outs)
            &&& b == CompiledBackendView {
                artifact: ArtifactView {
                    tool_type: kind,
                    destination: transformation_location(kind, config.path),
                    text: join(texts(outs), transformation_divider(kind)),
                },
                validate: transformation_validation(kind),
                execute: transformation_execution(kind, run_environment(config.environment)),
            }
        },
        Err(CompileErrorView::UnsupportedTool(k)) => !is_transformation_tool(kind) && k == kind,
        Err(CompileErrorView::Render(e)) => {
            &&& is_transformation_tool(kind)
            &&& exists|k: int| #[trigger]
                is_first_unrendered(outs, k) && e == RenderErrorView {
                    entity: selected(ts, order, kind)[k].name,
                    tool: kind,
                }
        },
    }
}

/// `r` is what compiling the serving targets of the tool `kind` yields: an
/// artifact that holds one document listing its serving targets in
/// declaration order; or that `kind` has no adapter; or the serving target
/// that its adapter blames for not rendering them.
pub open spec fn is_serving_backend(
    vs: Seq<ServingView>,
    kind: Seq<char>,
    config: ToolConfigView,
    r: Result<CompiledBackendView, CompileErrorView>,
) -> bool {
    let text = serving_rendering(kind, served(vs, kind));
    match r {
        Ok(b) => {
            &&& is_serving_tool(kind)
            &&& text is Some
            &&& b == CompiledBackendView {
                artifact: ArtifactView {
                    tool_type: kind,
                    destination: serving_location(kind, config.path),
                    text: text.unwrap(),
                },
                validate: serving_validation(kind),
                execute: serving_execution(kind),
            }
        },
        Err(CompileErrorView::UnsupportedTool(k)) => !is_serving_tool(kind) && k == kind,
        Err(CompileErrorView::Render(e)) => {
            &&& is_serving_tool(kind)
            &&& text is None
            &&& e == RenderErrorView { entity: serving_blame(kind, served(vs, kind)), tool: kind }
        },
    }
}

/// The items of `v` without repetitions, each where it first occurs.
pub fn distinct_names(v: &Vec<String>) -> (r: Vec<String>)
    ensures
        views(r@) == distinct(views(v@)),
{
    let mut r: Vec<String> = Vec::new();
    let mut i: usize = 0;
    assert(views(v@).take(0) =~= Seq::empty());
    while i < v.len()
        invariant
            i <= v@.len(),
            views(r@) == distinct(views(v@).take(i as int)),
        decreases v@.len() - i,
    {
        let ghost next = views(v@).take(i + 1);
        assert(next.drop_last() =~= views(v@).take(i as int));
        assert(next.last() == v@[i as int]@);
        if find_name(&r, &v[i]).is_none() {
            let ghost before = views(r@);
            r.push(copy_string(&v[i]));
            assert(views(r@) =~= before.push(v@[i as int]@));
        }
        i += 1;
    }
    assert(views(v@).take(v@.len() as int) =~= views(v@));
    r
}

/// The tool identifiers of the transformations, in declaration order.
pub fn types_of_transformations(ts: &Vec<TransformationConfig>) -> (r: Vec<String>)
    ensures
        views(r@) == transformation_types(views(ts@)),
{
    let mut r: Vec<String> = Vec::new();
    let mut i: usize = 0;
    while i < ts.len()
        invariant
            i <= ts@.len(),
            r@.len() == i,
            forall|j: int| 0 <= j < i ==> (#[trigger] r@[j])@ == ts@[j].transform_type@,
        decreases ts@.len() - i,
    {
        r.push(copy_string(&ts[i].transform_type));
        i += 1;
    }
    assert(views(r@) =~= transformation_types(views(ts@)));
    r
}

/// The tool identifiers of the serving targets, in declaration order.
pub fn types_of_serving(vs: &Vec<ServingTarget>) -> (r: Vec<String>)
    ensures
        views(r@) == serving_types(views(vs@)),
{
    let mut r: Vec<String> = Vec::new();
    let mut i: usize = 0;
    while i < vs.len()
        invariant
            i <= vs@.len(),
            r@.len() == i,
            forall|j: int| 0 <= j < i ==> (#[trigger] r@[j])@ == vs@[j].serving_type@,
        decreases vs@.len() - i,
    {
        r.push(copy_string(&vs[i].serving_type));
        i += 1;
    }
    assert(views(r@) =~= serving_types(views(vs@)));
    r
}

/// Compiles the transformations of the tool `kind`: its adapter renders
/// each transformation that `order` names and that belongs to the tool, in
/// the order of `order`, and the renderings make one artifact.  Fails where
/// `kind` has no adapter, and where the adapter cannot render one of them.
pub fn compile_transformations(
    kind: &str,
    ts: &Vec<TransformationConfig>,
    order: &Vec<String>,
    config: &ToolConfig,
) -> (r: Result<CompiledBackend, CompileError>)
    ensures
        is_transformation_backend(views(ts@), views(order@), kind@, config@, backend_result(r)),
{
    let tool = match create_transformation_tool(kind, config) {
        Ok(tool) => tool,
        Err(e) => {
            return Err(CompileError::UnsupportedTool(e));
        },
    };
    let names = names_of_transformations(ts);
    let ghost tv = views(ts@);
    let ghost ov = views(order@);
    let mut rendered: Vec<String> = Vec::new();
    let mut p: usize = 0;
    assert(ov.take(0) =~= Seq::empty());
    while p < order.len()
        invariant
            p <= order@.len(),
            tv == views(ts@),
            ov == views(order@),
            views(names@) == transformation_names(tv),
            is_transformation_tool(kind@),
            tool.kind() == kind@,
            tool.location() == transformation_location(kind@, config@.path),
            tool.divider() == transformation_divider(kind@),
            tool.validation() == transformation_validation(kind@),
            tool.execution() == transformation_execution(kind@, run_environment(config@.environment)),
            forall|c: TransformationView| #[trigger]
                tool.rendering(c) == transformation_rendering(kind@, c),
            all_rendered(transformation_renderings(tv, ov.take(p as int), kind@)),
            views(rendered@) == texts(transformation_renderings(tv, ov.take(p as int), kind@)),
        decreases order@.len() - p,
    {
        let ghost before = selected(tv, ov.take(p as int), kind@);
        let ghost outs_before = transformation_renderings(tv, ov.take(p as int), kind@);
        proof {
            assert(ov.take(p + 1).drop_last() =~= ov.take(p as int));
            assert(ov.take(p + 1).last() == order@[p as int]@);
        }
        let found = find_name(&names, &order[p]);
        let mut chosen: Option<usize> = None;
        if let Some(i) = found {
            proof {
                let all = transformation_names(tv);
                let x = order@[p as int]@;
                assert(is_first_index(all, x, i as int));
                assert(all.contains(x));
                let c = index_of(all, x);
                assert(is_first_index(all, x, c));
                assert(c == i);
            }
            if same_text(ts[i].transform_type.as_str(), kind) {
                chosen = Some(i);
            }
        }
        match chosen {
            Some(i) => {
                assert(pick(tv, order@[p as int]@, kind@) == Some(tv[i as int]));
                assert(selected(tv, ov.take(p + 1), kind@) == before.push(tv[i as int]));
                match tool.generate_config(&ts[i]) {
                    Ok(text) => {
                        let ghost old_texts = views(rendered@);
                        rendered.push(text);
                        proof {
                            let outs = transformation_renderings(tv, ov.take(p + 1), kind@);
                            assert(outs =~= outs_before.push(Some(text@)));
                            assert(views(rendered@) =~= old_texts.push(text@));
                            assert(texts(outs) =~= texts(outs_before).push(text@));
                        }
                    },
                    Err(e) => {
                        proof {
                            lemma_selected_grows(tv, ov, kind@, p + 1);
                            let all = transformation_renderings(tv, ov, kind@);
                            let k = before.len() as int;
                            let outs = transformation_renderings(tv, ov.take(p + 1), kind@);
                            assert(outs =~= outs_before.push(None));
                            assert(all.take(k + 1) == outs);
                            assert(all[k] == outs[k]);
                            assert(all.take(k) =~= outs.take(k));
                            assert(outs.take(k) =~= outs_before);
                            assert(selected(tv, ov, kind@).take(k + 1) == selected(tv, ov.take(p + 1), kind@));
                            assert(selected(tv, ov, kind@)[k] == selected(tv, ov, kind@).take(k + 1)[k]);
                            assert(is_first_unrendered(all, k));
                        }
                        return Err(CompileError::Render(e));
                    },
                }
            },
            None => {
                assert(pick(tv, order@[p as int]@, kind@) is None);
                assert(selected(tv, ov.take(p + 1), kind@) == before);
            },
        }
        p += 1;
    }
    assert(ov.take(order@.len() as int) =~= ov);
    let separator = tool.separator();
    let text = join_strings(&rendered, separator.as_str());
    Ok(
        CompiledBackend {
            artifact: CompiledArtifact {
                tool_type: tool.tool_type(),
                destination: tool.destination(),
                text,
            },
            validate: tool.validate(),
            execute: tool.execute(),
        },
    )
}

/// The entities selected from the first `q` names of the order are the
/// first of those selected from the whole order, and so are their
/// renderings.
pub proof fn lemma_selected_grows(
    ts: Seq<TransformationView>,
    order: Seq<Seq<char>>,
    kind: Seq<char>,
    q: int,
)
    requires
        0 <= q <= order.len(),
    ensures
        selected(ts, order.take(q), kind).len() <= selected(ts, order, kind).len(),
        selected(ts, order, kind).take(selected(ts, order.take(q), kind).len() as int) == selected(
            ts,
            order.take(q),
            kind,
        ),
        transformation_renderings(ts, order, kind).take(
            selected(ts, order.take(q), kind).len() as int,
        ) == transformation_renderings(ts, order.take(q), kind),
    decreases order.len() - q,
{
    let part = selected(ts, order.take(q), kind);
    let whole = selected(ts, order, kind);
    if q == order.len() {
        assert(order.take(q) =~= order);
        assert(whole.take(whole.len() as int) =~= whole);
    } else {
        lemma_selected_grows(ts, order, kind, q + 1);
        let next = selected(ts, order.take(q + 1), kind);
        assert(order.take(q + 1).drop_last() =~= order.take(q));
        assert(whole.take(part.len() as int) =~= whole.take(next.len() as int).take(part.len() as int));
        assert(next.take(part.len() as int) =~= part);
    }
    assert(transformation_renderings(ts, order, kind).take(part.len() as int)
        =~= transformation_renderings(ts, order.take(q), kind));
}

/// A copy of a serving target.
pub fn copy_target(t: &ServingTarget) -> (r: ServingTarget)
    ensures
        r@ == t@,
{
    ServingTarget {
        name: copy_string(&t.name),
        serving_type: copy_string(&t.serving_type),
        template: copy_string(&t.template),
        data_sources: copy_strings(&t.data_sources),
        config: t.config.clone(),
    }
}

/// The serving targets that the tool `kind` serves, in declaration order.
pub fn targets_of(vs: &Vec<ServingTarget>, kind: &str) -> (r: Vec<ServingTarget>)
    ensures
        views(r@) == served(views(vs@), kind@),
{
    let ghost sv = views(vs@);
    let mut r: Vec<ServingTarget> = Vec::new();
    let mut p: usize = 0;
    assert(sv.take(0) =~= Seq::empty());
    while p < vs.len()
        invariant
            p <= vs@.len(),
            sv == views(vs@),
            views(r@) == served(sv.take(p as int), kind@),
        decreases vs@.len() - p,
    {
        proof {
            assert(sv.take(p + 1).drop_last() =~= sv.take(p as int));
            assert(sv.take(p + 1).last() == vs@[p as int]@);
        }
        if same_text(vs[p].serving_type.as_str(), kind) {
            let ghost before = views(r@);
            r.push(copy_target(&vs[p]));
            assert(views(r@) =~= before.push(vs@[p as int]@));
        }
        p += 1;
    }
    assert(sv.take(vs@.len() as int) =~= sv);
    r
}

/// Compiles the serving targets of the tool `kind`: its adapter renders
/// the serving targets that belong to the tool as one document, which
/// lists them in declaration order.  Fails where `kind` has no adapter,
/// and where the adapter cannot render them.
pub fn compile_serving(kind: &str, vs: &Vec<ServingTarget>, config: &ToolConfig) -> (r: Result<
    CompiledBackend,
    CompileError,
>)
    ensures
        is_serving_backend(views(vs@), kind@, config@, backend_result(r)),
{
    let tool = match create_serving_tool(kind, config) {
        Ok(tool) => tool,
        Err(e) => {
            return Err(CompileError::UnsupportedTool(e));
        },
    };
    let targets = targets_of(vs, kind);
    match tool.generate_config(&targets) {
        Ok(text) => Ok(
            CompiledBackend {
                artifact: CompiledArtifact {
                    tool_type: tool.tool_type(),
                    destination: tool.destination(),
                    text,
                },
                validate: tool.validate(),
                execute: tool.execute(),
            },
        ),
        Err(e) => Err(CompileError::Render(e)),
    }
}

/// The transformation tools of the stack, each where a transformation
/// first names it.
pub open spec fn transformation_tools(d: StackView) -> Seq<Seq<char>> {
    distinct(transformation_types(d.transformations))
}

/// The serving tools of the stack, each where a serving target first names
/// it.
pub open spec fn serving_tools(d: StackView) -> Seq<Seq<char>> {
    distinct(serving_types(d.serving))
}

/// The tools of the stack in the order in which they are compiled: those
/// of the transformations, then those of the serving targets.
pub open spec fn stack_tools(d: StackView) -> Seq<Seq<char>> {
    transformation_tools(d) + serving_tools(d)
}

/// `r` is what compiling the `i`-th tool of the stack yields.
pub open spec fn is_backend_at(
    d: StackView,
    order: Seq<Seq<char>>,
    config: ToolConfigView,
    i: int,
    r: Result<CompiledBackendView, CompileErrorView>,
) -> bool {
    let first = transformation_tools(d);
    if i < first.len() {
        is_transformation_backend(d.transformations, order, first[i], config, r)
    } else {
        is_serving_backend(d.serving, serving_tools(d)[i - first.len()], config, r)
    }
}

/// The `i`-th tool of the stack compiles.
pub open spec fn compiles_at(d: StackView, order: Seq<Seq<char>>, config: ToolConfigView, i: int) -> bool {
    exists|b: CompiledBackendView| is_backend_at(d, order, config, i, Ok(b))
}

/// `r` is what compiling the stack yields: one backend for each tool, in
/// the order of `stack_tools`; or the error of the first tool that does not
/// compile.
pub open spec fn is_compilation(
    d: StackView,
    order: Seq<Seq<char>>,
    config: ToolConfigView,
    r: Result<Seq<CompiledBackendView>, CompileErrorView>,
) -> bool {
    let tools = stack_tools(d);
    match r {
        Ok(backends) => {
            &&& backends.len() == tools.len()
            &&& forall|i: int|
                0 <= i < tools.len() ==> is_backend_at(d, order, config, i, Ok(#[trigger] backends[i]))
        },
        Err(e) => exists|i: int|
            {
                &&& 0 <= i < tools.len()
                &&& forall|j: int| 0 <= j < i ==> #[trigger] compiles_at(d, order, config, j)
                &&& #[trigger] is_backend_at(d, order, config, i, Err(e))
            },
    }
}

/// The calls of a compiled stack: every backend has the validation call
/// of its tool, a serving tool as much as a transformation tool, and the
/// execution call of its tool in the environment of the run.
pub proof fn lemma_compiled_calls(
    d: StackView,
    order: Seq<Seq<char>>,
    config: ToolConfigView,
    backends: Seq<CompiledBackendView>,
    i: int,
)
    requires
        is_compilation(d, order, config, Ok(backends)),
        0 <= i < stack_tools(d).len(),
    ensures
        backends[i].artifact.tool_type == stack_tools(d)[i],
        i < transformation_tools(d).len() ==> {
            &&& backends[i].validate == transformation_validation(stack_tools(d)[i])
            &&& backends[i].execute == transformation_execution(
                stack_tools(d)[i],
                run_environment(config.environment),
            )
        },
        i >= transformation_tools(d).len() ==> {
            &&& backends[i].validate == serving_validation(stack_tools(d)[i])
            &&& backends[i].execute == serving_execution(stack_tools(d)[i])
        },
{
    assert(is_backend_at(d, order, config, i, Ok(backends[i])));
}

/// Compiles the stack: one backend for each tool that a transformation or
/// a serving target names, with the artifact that the tool's adapter
/// renders from its entities.  The transformations of a tool stand in its
/// artifact in the resolved order `order`.  The first tool that has no
/// adapter, or whose adapter cannot render an entity, fails the whole.
pub fn compile(d: &StackDescriptor, order: &Vec<String>, config: &ToolConfig) -> (r: Result<
    Vec<CompiledBackend>,
    CompileError,
>)
    ensures
        is_compilation(d@, views(order@), config@, compile_result(r)),
{
    let first = distinct_names(&types_of_transformations(&d.transformations));
    let second = distinct_names(&types_of_serving(&d.serving));
    let ghost dv = d@;
    let ghost ov = views(order@);
    let ghost cv = config@;
    let mut backends: Vec<CompiledBackend> = Vec::new();
    let mut i: usize = 0;
    while i < first.len()
        invariant
            i <= first@.len(),
            dv == d@,
            ov == views(order@),
            cv == config@,
            views(first@) == transformation_tools(dv),
            backends@.len() == i,
            forall|j: int| 0 <= j < i ==> is_backend_at(dv, ov, cv, j, Ok((#[trigger] backends@[j])@)),
        decreases first@.len() - i,
    {
        assert(views(first@)[i as int] == first@[i as int]@);
        match compile_transformations(first[i].as_str(), &d.transformations, order, config) {
            Ok(b) => {
                backends.push(b);
            },
            Err(e) => {
                proof {
                    assert(is_backend_at(dv, ov, cv, i as int, Err(e@)));
                    assert forall|j: int| 0 <= j < i implies #[trigger] compiles_at(dv, ov, cv, j) by {
                        assert(is_backend_at(dv, ov, cv, j, Ok(backends@[j]@)));
                    }
                }
                return Err(e);
            },
        }
        i += 1;
    }
    let mut k: usize = 0;
    while k < second.len()
        invariant
            k <= second@.len(),
            dv == d@,
            ov == views(order@),
            cv == config@,
            views(first@) == transformation_tools(dv),
            views(second@) == serving_tools(dv),
            backends@.len() == first@.len() + k,
            forall|j: int|
                0 <= j < first@.len() + k ==> is_backend_at(dv, ov, cv, j, Ok((#[trigger] backends@[j])@)),
        decreases second@.len() - k,
    {
        assert(views(second@)[k as int] == second@[k as int]@);
        match compile_serving(second[k].as_str(), &d.serving, config) {
            Ok(b) => {
                backends.push(b);
            },
            Err(e) => {
                proof {
                    assert(is_backend_at(dv, ov, cv, first@.len() + k, Err(e@)));
                    assert forall|j: int| 0 <= j < first@.len() + k implies #[trigger] compiles_at(
                        dv,
                        ov,
                        cv,
                        j,
                    ) by {
                        assert(is_backend_at(dv, ov, cv, j, Ok(backends@[j]@)));
                    }
                }
                return Err(e);
            },
        }
        k += 1;
    }
    proof {
        let all = views(backends@);
        assert forall|j: int| 0 <= j < stack_tools(dv).len() implies is_backend_at(
            dv,
            ov,
            cv,
            j,
            Ok(#[trigger] all[j]),
        ) by {
            assert(all[j] == backends@[j]@);
        }
    }
    Ok(backends)
}

} // verus!
