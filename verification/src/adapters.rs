//! Capability adapters: what each backend tool needs to be handed and how
//! it is called.  An adapter renders the configuration text of its tool
//! and names the commands that validate and execute it; nothing else in
//! the engine knows a tool's syntax.

use crate::descriptor::{
    Aggregation, AggregationView, Column, ColumnView, ServingTarget, ServingView,
    TransformationConfig, TransformationView,
};
use crate::text::{copy_string, join, join_strings, views};
use crate::yaml::{
    entry_keys, yaml_doc, yaml_docs, yaml_emit, yaml_entries, yaml_mapping, yaml_sequence,
    yaml_string, yaml_text, YamlDoc,
};
use vstd::prelude::*;
use vstd::string::StringExecFns;

verus! {

/// Where the backend tools of a stack live and in which environment they
/// run.
#[derive(Debug, Clone)]
pub struct ToolConfig {
    /// The root of the stack.  Empty for the current directory.
    pub path: String,
    /// The environment of the run.  Where none is given, the tools run in
    /// `remote`.
    pub environment: Option<String>,
}

/// A tool configuration, as contracts speak of it.
pub struct ToolConfigView {
    pub path: Seq<char>,
    pub environment: Option<Seq<char>>,
}

impl View for ToolConfig {
    type V = ToolConfigView;

    open spec fn view(&self) -> ToolConfigView {
        ToolConfigView {
            path: self.path@,
            environment: match self.environment {
                Some(e) => Some(e@),
                None => None,
            },
        }
    }
}

/// The environment in which the tools run: the one that is given, and
/// `remote` where none is.
pub open spec fn run_environment(environment: Option<Seq<char>>) -> Seq<char> {
    match environment {
        Some(e) => e,
        None => "remote"@,
    }
}

/// The file `relative` under the root `path`; `relative` itself where the
/// root is empty.
pub open spec fn under(path: Seq<char>, relative: Seq<char>) -> Seq<char> {
    if path.len() == 0 {
        relative
    } else {
        path + "/"@ + relative
    }
}

/// The file `relative` under the root `path`.
pub fn place_under(path: &String, relative: &str) -> (r: String)
    ensures
        r@ == under(path@, relative@),
{
    if path.as_str().unicode_len() == 0 {
        String::from_str(relative)
    } else {
        let mut r = copy_string(path);
        r.append("/");
        r.append(relative);
        assert(r@ =~= path@ + "/"@ + relative@);
        r
    }
}

/// The environment of a run.
pub fn environment_of(config: &ToolConfig) -> (r: String)
    ensures
        r@ == run_environment(config@.environment),
{
    match &config.environment {
        Some(e) => copy_string(e),
        None => String::from_str("remote"),
    }
}

/// A call of a backend tool: the program and its arguments.
#[derive(Debug, Clone)]
pub struct BackendCommand {
    pub program: String,
    pub args: Vec<String>,
}

/// A command, as contracts speak of it.
pub struct CommandView {
    pub program: Seq<char>,
    pub args: Seq<Seq<char>>,
}

impl View for BackendCommand {
    type V = CommandView;

    open spec fn view(&self) -> CommandView {
        CommandView { program: self.program@, args: views(self.args@) }
    }
}

/// The adapter of `tool` could not render the configuration of `entity`.
#[derive(Debug, Clone)]
pub struct RenderError {
    pub entity: String,
    pub tool: String,
}

/// A render error, as contracts speak of it.
pub struct RenderErrorView {
    pub entity: Seq<char>,
    pub tool: Seq<char>,
}

impl View for RenderError {
    type V = RenderErrorView;

    open spec fn view(&self) -> RenderErrorView {
        RenderErrorView { entity: self.entity@, tool: self.tool@ }
    }
}

/// No adapter is known for the tool identifier `tool_type`.
#[derive(Debug, Clone)]
pub struct UnsupportedToolError {
    pub tool_type: String,
}

/// The adapter of a transformation tool.
pub trait TransformationTool {
    /// The identifier of the tool.
    spec fn kind(&self) -> Seq<char>;

    /// Where the tool expects its configuration.
    spec fn location(&self) -> Seq<char>;

    /// What stands between the configurations of two transformations in
    /// one artifact.
    spec fn divider(&self) -> Seq<char>;

    /// The configuration text of one transformation, or `None` where it
    /// cannot be rendered.
    spec fn rendering(&self, config: TransformationView) -> Option<Seq<char>>;

    /// The call that validates the tool's configuration.
    spec fn validation(&self) -> CommandView;

    /// The call that runs the tool.
    spec fn execution(&self) -> CommandView;

    /// The identifier of the tool.
    fn tool_type(&self) -> (r: String)
        ensures
            r@ == self.kind(),
    ;

    /// Where the tool expects its configuration.
    fn destination(&self) -> (r: String)
        ensures
            r@ == self.location(),
    ;

    /// What stands between the configurations of two entities in one
    /// artifact.
    fn separator(&self) -> (r: String)
        ensures
            r@ == self.divider(),
    ;

    /// Renders the configuration of one transformation in the tool's own
    /// syntax.  The text depends on `config` alone.
    fn generate_config(&self, config: &TransformationConfig) -> (r: Result<String, RenderError>)
        ensures
            match r {
                Ok(text) => self.rendering(config@) == Some(text@),
                Err(e) => self.rendering(config@) is None && e@ == (RenderErrorView {
                    entity: config@.name,
                    tool: self.kind(),
                }),
            },
    ;

    /// The call that validates the tool's configuration.  It is named,
    /// not made: whoever drives the run makes it.
    fn validate(&self) -> (r: BackendCommand)
        ensures
            r@ == self.validation(),
    ;

    /// The call that runs the tool.  It is named, not made.
    fn execute(&self) -> (r: BackendCommand)
        ensures
            r@ == self.execution(),
    ;
}

/// The adapter of a serving tool.
pub trait ServingTool {
    /// The identifier of the tool.
    spec fn kind(&self) -> Seq<char>;

    /// Where the tool expects its configuration.
    spec fn location(&self) -> Seq<char>;

    /// The configuration text of the serving targets `targets`, or `None`
    /// where it cannot be rendered.
    spec fn rendering(&self, targets: Seq<ServingView>) -> Option<Seq<char>>;

    /// The serving target that is named when `targets` cannot be rendered.
    spec fn blame(&self, targets: Seq<ServingView>) -> Seq<char>;

    /// The call that validates the tool's configuration.
    spec fn validation(&self) -> CommandView;

    /// The call that starts the tool.
    spec fn execution(&self) -> CommandView;

    /// The identifier of the tool.
    fn tool_type(&self) -> (r: String)
        ensures
            r@ == self.kind(),
    ;

    /// Where the tool expects its configuration.
    fn destination(&self) -> (r: String)
        ensures
            r@ == self.location(),
    ;

    /// Renders the configuration of the serving targets `targets` in the
    /// tool's own syntax, as one document that lists them in the order
    /// given.  The text depends on `targets` alone.
    fn generate_config(&self, targets: &Vec<ServingTarget>) -> (r: Result<String, RenderError>)
        ensures
            match r {
                Ok(text) => self.rendering(views(targets@)) == Some(text@),
                Err(e) => self.rendering(views(targets@)) is None && e@ == (RenderErrorView {
                    entity: self.blame(views(targets@)),
                    tool: self.kind(),
                }),
            },
    ;

    /// The call that validates the tool's configuration.  It is named,
    /// not made: whoever drives the run makes it.
    fn validate(&self) -> (r: BackendCommand)
        ensures
            r@ == self.validation(),
    ;

    /// The call that runs the tool.  It is named, not made.
    fn execute(&self) -> (r: BackendCommand)
        ensures
            r@ == self.execution(),
    ;
}

/// A YAML string for each name.
pub open spec fn text_docs(names: Seq<Seq<char>>) -> Seq<YamlDoc> {
    names.map_values(|s: Seq<char>| YamlDoc::Text(s))
}

/// A mapping with string keys, by its entries in order.
pub open spec fn table(entries: Seq<(Seq<char>, YamlDoc)>) -> YamlDoc {
    YamlDoc::Table(entries.map_values(|e: (Seq<char>, YamlDoc)| (YamlDoc::Text(e.0), e.1)))
}

/// A column as SDF reads it.
pub open spec fn column_doc(c: ColumnView) -> YamlDoc {
    table(seq![("name"@, YamlDoc::Text(c.name)), ("data_type"@, YamlDoc::Text(c.data_type))])
}

/// An aggregation as SDF reads it.
pub open spec fn aggregation_doc(a: AggregationView) -> YamlDoc {
    table(seq![("column"@, YamlDoc::Text(a.column)), ("function"@, YamlDoc::Text(a.function))])
}

/// The SDF workspace document of one transformation.
pub open spec fn sdf_document(c: TransformationView) -> YamlDoc {
    table(
        seq![
            (
                "workspace"@,
                table(
                    seq![
                        ("name"@, YamlDoc::Text(c.name)),
                        ("dependencies"@, YamlDoc::List(text_docs(c.depends_on))),
                        (
                            "transformations"@,
                            table(
                                seq![
                                    (
                                        c.name,
                                        table(
                                            seq![
                                                (
                                                    "columns"@,
                                                    YamlDoc::List(
                                                        c.columns.map_values(|x: ColumnView| column_doc(x)),
                                                    ),
                                                ),
                                                (
                                                    "aggregations"@,
                                                    YamlDoc::List(
                                                        c.aggregations.map_values(
                                                            |x: AggregationView| aggregation_doc(x),
                                                        ),
                                                    ),
                                                ),
                                            ],
                                        ),
                                    ),
                                ],
                            ),
                        ),
                    ],
                ),
            ),
        ],
    )
}

/// One serving target as Rill reads it: a dashboard, with the target's own
/// `config` passed on as it is.
pub open spec fn dashboard_doc(t: ServingView) -> YamlDoc {
    table(
        seq![
            ("name"@, YamlDoc::Text(t.name)),
            ("type"@, YamlDoc::Text(t.serving_type)),
            ("template"@, YamlDoc::Text(t.template)),
            ("data_sources"@, YamlDoc::List(text_docs(t.data_sources))),
            ("config"@, t.config),
        ],
    )
}

/// The Rill document of the serving targets `targets`: one mapping whose
/// `dashboards` lists a dashboard for each, in the order given.
pub open spec fn rill_document(targets: Seq<ServingView>) -> YamlDoc {
    table(seq![("dashboards"@, YamlDoc::List(targets.map_values(|t: ServingView| dashboard_doc(t))))])
}

/// Position `k` holds the first serving target that Rill cannot render on
/// its own.
pub open spec fn is_first_unrenderable(targets: Seq<ServingView>, k: int) -> bool {
    &&& 0 <= k < targets.len()
    &&& yaml_text(rill_document(seq![targets[k]])) is None
    &&& forall|j: int| 0 <= j < k ==> yaml_text(rill_document(seq![#[trigger] targets[j]])) is Some
}

/// The serving target that is named when Rill cannot render `targets`: the
/// first that cannot be rendered on its own.  Where each can, no one target
/// is to blame, and the name is empty.
pub open spec fn rill_blame(targets: Seq<ServingView>) -> Seq<char> {
    if exists|k: int| is_first_unrenderable(targets, k) {
        targets[choose|k: int| is_first_unrenderable(targets, k)].name
    } else {
        Seq::empty()
    }
}

/// One aggregation as a term of a `SELECT` list.
pub open spec fn aggregation_term(a: AggregationView) -> Seq<char> {
    a.function + "("@ + a.column + ") as "@ + a.column
}

/// The terms of the aggregations, in order.
pub open spec fn aggregation_terms(aggs: Seq<AggregationView>) -> Seq<Seq<char>> {
    aggs.map_values(|a: AggregationView| aggregation_term(a))
}

/// The names of the columns, in order.
pub open spec fn column_names(columns: Seq<ColumnView>) -> Seq<Seq<char>> {
    columns.map_values(|c: ColumnView| c.name)
}

/// The dbt model of one transformation: a table that selects the
/// aggregations, grouped by the columns.
pub open spec fn dbt_model(c: TransformationView) -> Seq<char> {
    "\n            {{ config(\n                materialized='table',\n                depends_on=["@
        + join(c.depends_on, ", "@) + "]\n            ) }}\n\n            SELECT \n                "@
        + join(aggregation_terms(c.aggregations), ",\n    "@)
        + "\n            FROM source_table\n            GROUP BY "@ + join(
        column_names(c.columns),
        ", "@,
    ) + "\n            "@
}

/// A key with its value.
fn entry(key: &str, value: serde_yaml::Value) -> (r: (String, serde_yaml::Value))
    ensures
        r.0@ == key@,
        r.1 == value,
{
    (String::from_str(key), value)
}

/// The YAML sequence of the strings `names`.
fn text_list(names: &Vec<String>) -> (v: serde_yaml::Value)
    ensures
        yaml_doc(v) == YamlDoc::List(text_docs(views(names@))),
{
    let mut items: Vec<serde_yaml::Value> = Vec::new();
    let mut i: usize = 0;
    while i < names.len()
        invariant
            i <= names@.len(),
            items@.len() == i,
            forall|j: int| 0 <= j < i ==> yaml_doc(#[trigger] items@[j]) == YamlDoc::Text(names@[j]@),
        decreases names@.len() - i,
    {
        items.push(yaml_string(names[i].as_str()));
        i += 1;
    }
    assert(yaml_docs(items@) =~= text_docs(views(names@)));
    yaml_sequence(items)
}

/// The YAML mapping with one entry.
pub(crate) fn table_of_one(key: &str, value: serde_yaml::Value) -> (v: serde_yaml::Value)
    ensures
        yaml_doc(v) == table(seq![(key@, yaml_doc(value))]),
{
    let mut entries: Vec<(String, serde_yaml::Value)> = Vec::new();
    entries.push(entry(key, value));
    assert(entry_keys(entries@).no_duplicates());
    assert(yaml_entries(entries@) =~= seq![(key@, yaml_doc(value))].map_values(
        |e: (Seq<char>, YamlDoc)| (YamlDoc::Text(e.0), e.1),
    ));
    yaml_mapping(entries)
}

/// The YAML mapping with two entries.
fn table_of_two(k1: &str, v1: serde_yaml::Value, k2: &str, v2: serde_yaml::Value) -> (v:
    serde_yaml::Value)
    requires
        k1@ != k2@,
    ensures
        yaml_doc(v) == table(seq![(k1@, yaml_doc(v1)), (k2@, yaml_doc(v2))]),
{
    let mut entries: Vec<(String, serde_yaml::Value)> = Vec::new();
    entries.push(entry(k1, v1));
    entries.push(entry(k2, v2));
    assert(entry_keys(entries@).no_duplicates());
    assert(yaml_entries(entries@) =~= seq![(k1@, yaml_doc(v1)), (k2@, yaml_doc(v2))].map_values(
        |e: (Seq<char>, YamlDoc)| (YamlDoc::Text(e.0), e.1),
    ));
    yaml_mapping(entries)
}

/// A column as a YAML mapping.
fn column_value(c: &Column) -> (v: serde_yaml::Value)
    ensures
        yaml_doc(v) == column_doc(c@),
{
    proof {
        reveal_strlit("name");
        reveal_strlit("data_type");
        assert("name"@.len() != "data_type"@.len());
    }
    table_of_two("name", yaml_string(c.name.as_str()), "data_type", yaml_string(c.data_type.as_str()))
}

/// An aggregation as a YAML mapping.
fn aggregation_value(a: &Aggregation) -> (v: serde_yaml::Value)
    ensures
        yaml_doc(v) == aggregation_doc(a@),
{
    proof {
        reveal_strlit("column");
        reveal_strlit("function");
        assert("column"@.len() != "function"@.len());
    }
    table_of_two(
        "column",
        yaml_string(a.column.as_str()),
        "function",
        yaml_string(a.function.as_str()),
    )
}

/// The columns as a YAML sequence.
fn column_list(columns: &Vec<Column>) -> (v: serde_yaml::Value)
    ensures
        yaml_doc(v) == YamlDoc::List(views(columns@).map_values(|x: ColumnView| column_doc(x))),
{
    let mut items: Vec<serde_yaml::Value> = Vec::new();
    let mut i: usize = 0;
    while i < columns.len()
        invariant
            i <= columns@.len(),
            items@.len() == i,
            forall|j: int| 0 <= j < i ==> yaml_doc(#[trigger] items@[j]) == column_doc(columns@[j]@),
        decreases columns@.len() - i,
    {
        items.push(column_value(&columns[i]));
        i += 1;
    }
    assert(yaml_docs(items@) =~= views(columns@).map_values(|x: ColumnView| column_doc(x)));
    yaml_sequence(items)
}

/// The aggregations as a YAML sequence.
fn aggregation_list(aggs: &Vec<Aggregation>) -> (v: serde_yaml::Value)
    ensures
        yaml_doc(v) == YamlDoc::List(views(aggs@).map_values(|x: AggregationView| aggregation_doc(x))),
{
    let mut items: Vec<serde_yaml::Value> = Vec::new();
    let mut i: usize = 0;
    while i < aggs.len()
        invariant
            i <= aggs@.len(),
            items@.len() == i,
            forall|j: int| 0 <= j < i ==> yaml_doc(#[trigger] items@[j]) == aggregation_doc(aggs@[j]@),
        decreases aggs@.len() - i,
    {
        items.push(aggregation_value(&aggs[i]));
        i += 1;
    }
    assert(yaml_docs(items@) =~= views(aggs@).map_values(|x: AggregationView| aggregation_doc(x)));
    yaml_sequence(items)
}

/// The SDF workspace of one transformation as a YAML value.
fn sdf_value(config: &TransformationConfig) -> (v: serde_yaml::Value)
    ensures
        yaml_doc(v) == sdf_document(config@),
{
    proof {
        reveal_strlit("columns");
        reveal_strlit("aggregations");
        assert("columns"@.len() != "aggregations"@.len());
    }
    let body = table_of_two(
        "columns",
        column_list(&config.columns),
        "aggregations",
        aggregation_list(&config.aggregations),
    );
    let transformations = table_of_one(config.name.as_str(), body);
    let mut entries: Vec<(String, serde_yaml::Value)> = Vec::new();
    let name = yaml_string(config.name.as_str());
    let dependencies = text_list(&config.depends_on);
    entries.push(entry("name", name));
    entries.push(entry("dependencies", dependencies));
    entries.push(entry("transformations", transformations));
    proof {
        reveal_strlit("name");
        reveal_strlit("dependencies");
        reveal_strlit("transformations");
        assert("name"@.len() != "dependencies"@.len());
        assert("name"@.len() != "transformations"@.len());
        assert("dependencies"@.len() != "transformations"@.len());
        assert(entry_keys(entries@).no_duplicates());
        assert(yaml_entries(entries@) =~= seq![
            ("name"@, yaml_doc(name)),
            ("dependencies"@, yaml_doc(dependencies)),
            ("transformations"@, yaml_doc(transformations)),
        ].map_values(|e: (Seq<char>, YamlDoc)| (YamlDoc::Text(e.0), e.1)));
    }
    let workspace = yaml_mapping(entries);
    table_of_one("workspace", workspace)
}

/// The adapter of SDF, which keeps its workspace under `workspace_path`
/// and runs in `environment`.
#[derive(Debug, Clone)]
pub struct SdfAdapter {
    pub workspace_path: String,
    pub environment: String,
}

impl TransformationTool for SdfAdapter {
    open spec fn kind(&self) -> Seq<char> {
        "sdf"@
    }

    open spec fn location(&self) -> Seq<char> {
        under(self.workspace_path@, "transform/workspace.sdf.yml"@)
    }

    open spec fn divider(&self) -> Seq<char> {
        "---\n"@
    }

    open spec fn rendering(&self, config: TransformationView) -> Option<Seq<char>> {
        yaml_text(sdf_document(config))
    }

    open spec fn validation(&self) -> CommandView {
        CommandView { program: "sdf"@, args: seq!["check"@] }
    }

    open spec fn execution(&self) -> CommandView {
        CommandView { program: "sdf"@, args: seq!["run"@, "-e"@, self.environment@, "--show"@, "all"@] }
    }

    fn tool_type(&self) -> (r: String) {
        String::from_str("sdf")
    }

    /// The workspace file under the workspace path.
    fn destination(&self) -> (r: String) {
        place_under(&self.workspace_path, "transform/workspace.sdf.yml")
    }

    fn separator(&self) -> (r: String) {
        String::from_str("---\n")
    }

    /// The workspace document of `config` as YAML text: its name, its
    /// dependencies, and its columns and aggregations under its name.
    fn generate_config(&self, config: &TransformationConfig) -> (r: Result<String, RenderError>) {
        let document = sdf_value(config);
        match yaml_emit(&document) {
            Ok(text) => Ok(text),
            Err(_) => Err(
                RenderError { entity: copy_string(&config.name), tool: String::from_str("sdf") },
            ),
        }
    }

    /// `sdf check`.
    fn validate(&self) -> (r: BackendCommand) {
        let mut args: Vec<String> = Vec::new();
        args.push(String::from_str("check"));
        assert(views(args@) =~= seq!["check"@]);
        BackendCommand { program: String::from_str("sdf"), args }
    }

    /// `sdf run -e <environment> --show all`: the environment of the run is
    /// passed on as it is, as one argument.
    fn execute(&self) -> (r: BackendCommand) {
        let mut args: Vec<String> = Vec::new();
        args.push(String::from_str("run"));
        args.push(String::from_str("-e"));
        args.push(copy_string(&self.environment));
        args.push(String::from_str("--show"));
        args.push(String::from_str("all"));
        assert(views(args@) =~= seq!["run"@, "-e"@, self.environment@, "--show"@, "all"@]);
        BackendCommand { program: String::from_str("sdf"), args }
    }
}

/// The terms of the aggregations for a `SELECT` list.
fn aggregation_term_list(aggs: &Vec<Aggregation>) -> (r: Vec<String>)
    ensures
        views(r@) == aggregation_terms(views(aggs@)),
{
    let mut r: Vec<String> = Vec::new();
    let mut i: usize = 0;
    while i < aggs.len()
        invariant
            i <= aggs@.len(),
            r@.len() == i,
            forall|j: int| 0 <= j < i ==> (#[trigger] r@[j])@ == aggregation_term(aggs@[j]@),
        decreases aggs@.len() - i,
    {
        let a = &aggs[i];
        let mut term = copy_string(&a.function);
        term.append("(");
        term.append(a.column.as_str());
        term.append(") as ");
        term.append(a.column.as_str());
        r.push(term);
        i += 1;
    }
    assert(views(r@) =~= aggregation_terms(views(aggs@)));
    r
}

/// The names of the columns.
fn column_name_list(columns: &Vec<Column>) -> (r: Vec<String>)
    ensures
        views(r@) == column_names(views(columns@)),
{
    let mut r: Vec<String> = Vec::new();
    let mut i: usize = 0;
    while i < columns.len()
        invariant
            i <= columns@.len(),
            r@.len() == i,
            forall|j: int| 0 <= j < i ==> (#[trigger] r@[j])@ == columns@[j].name@,
        decreases columns@.len() - i,
    {
        r.push(copy_string(&columns[i].name));
        i += 1;
    }
    assert(views(r@) =~= column_names(views(columns@)));
    r
}

/// The adapter of dbt, which keeps its project at `project_path`.
#[derive(Debug, Clone)]
pub struct DbtAdapter {
    pub project_path: String,
}

impl TransformationTool for DbtAdapter {
    open spec fn kind(&self) -> Seq<char> {
        "dbt"@
    }

    open spec fn location(&self) -> Seq<char> {
        under(self.project_path@, "transform/models/stack.sql"@)
    }

    open spec fn divider(&self) -> Seq<char> {
        ""@
    }

    open spec fn rendering(&self, config: TransformationView) -> Option<Seq<char>> {
        Some(dbt_model(config))
    }

    open spec fn validation(&self) -> CommandView {
        CommandView { program: "dbt"@, args: seq!["compile"@] }
    }

    open spec fn execution(&self) -> CommandView {
        CommandView { program: "dbt"@, args: seq!["run"@] }
    }

    fn tool_type(&self) -> (r: String) {
        String::from_str("dbt")
    }

    /// The model file of the stack under the project path.
    fn destination(&self) -> (r: String) {
        place_under(&self.project_path, "transform/models/stack.sql")
    }

    fn separator(&self) -> (r: String) {
        String::from_str("")
    }

    /// The dbt model of `config`.  Never fails.
    fn generate_config(&self, config: &TransformationConfig) -> (r: Result<String, RenderError>) {
        let dependencies = join_strings(&config.depends_on, ", ");
        let terms = join_strings(&aggregation_term_list(&config.aggregations), ",\n    ");
        let columns = join_strings(&column_name_list(&config.columns), ", ");
        let mut text = String::from_str(
            "\n            {{ config(\n                materialized='table',\n                depends_on=[",
        );
        text.append(dependencies.as_str());
        text.append("]\n            ) }}\n\n            SELECT \n                ");
        text.append(terms.as_str());
        text.append("\n            FROM source_table\n            GROUP BY ");
        text.append(columns.as_str());
        text.append("\n            ");
        Ok(text)
    }

    /// `dbt compile`.
    fn validate(&self) -> (r: BackendCommand) {
        let mut args: Vec<String> = Vec::new();
        args.push(String::from_str("compile"));
        assert(views(args@) =~= seq!["compile"@]);
        BackendCommand { program: String::from_str("dbt"), args }
    }

    /// `dbt run`.
    fn execute(&self) -> (r: BackendCommand) {
        let mut args: Vec<String> = Vec::new();
        args.push(String::from_str("run"));
        assert(views(args@) =~= seq!["run"@]);
        BackendCommand { program: String::from_str("dbt"), args }
    }
}

/// One serving target as a YAML mapping.
fn dashboard_value(target: &ServingTarget) -> (v: serde_yaml::Value)
    ensures
        yaml_doc(v) == dashboard_doc(target@),
{
    let name = yaml_string(target.name.as_str());
    let kind = yaml_string(target.serving_type.as_str());
    let template = yaml_string(target.template.as_str());
    let data_sources = text_list(&target.data_sources);
    let config = target.config.clone();
    let mut entries: Vec<(String, serde_yaml::Value)> = Vec::new();
    entries.push(entry("name", name));
    entries.push(entry("type", kind));
    entries.push(entry("template", template));
    entries.push(entry("data_sources", data_sources));
    entries.push(entry("config", config));
    proof {
        reveal_strlit("name");
        reveal_strlit("type");
        reveal_strlit("template");
        reveal_strlit("data_sources");
        reveal_strlit("config");
        assert("name"@[0] != "type"@[0]);
        assert("name"@.len() == 4 && "type"@.len() == 4 && "template"@.len() == 8);
        assert("data_sources"@.len() == 12 && "config"@.len() == 6);
        let keys = entry_keys(entries@);
        assert(keys =~= seq!["name"@, "type"@, "template"@, "data_sources"@, "config"@]);
        assert(keys.no_duplicates());
        assert(yaml_entries(entries@) =~= seq![
            ("name"@, YamlDoc::Text(target@.name)),
            ("type"@, YamlDoc::Text(target@.serving_type)),
            ("template"@, YamlDoc::Text(target@.template)),
            ("data_sources"@, YamlDoc::List(text_docs(target@.data_sources))),
            ("config"@, target@.config),
        ].map_values(|e: (Seq<char>, YamlDoc)| (YamlDoc::Text(e.0), e.1)));
    }
    yaml_mapping(entries)
}

/// The Rill document of `targets` as a YAML value.
fn rill_value(targets: &Vec<ServingTarget>) -> (v: serde_yaml::Value)
    ensures
        yaml_doc(v) == rill_document(views(targets@)),
{
    let mut dashboards: Vec<serde_yaml::Value> = Vec::new();
    let mut i: usize = 0;
    while i < targets.len()
        invariant
            i <= targets@.len(),
            dashboards@.len() == i,
            forall|j: int| 0 <= j < i ==> yaml_doc(#[trigger] dashboards@[j]) == dashboard_doc(targets@[j]@),
        decreases targets@.len() - i,
    {
        dashboards.push(dashboard_value(&targets[i]));
        i += 1;
    }
    assert(yaml_docs(dashboards@) =~= views(targets@).map_values(|t: ServingView| dashboard_doc(t)));
    table_of_one("dashboards", yaml_sequence(dashboards))
}

/// Whether Rill can render `target` on its own.
fn renders_alone(target: &ServingTarget) -> (r: bool)
    ensures
        r == (yaml_text(rill_document(seq![target@])) is Some),
{
    let mut dashboards: Vec<serde_yaml::Value> = Vec::new();
    dashboards.push(dashboard_value(target));
    assert(yaml_docs(dashboards@) =~= seq![target@].map_values(|t: ServingView| dashboard_doc(t)));
    let document = table_of_one("dashboards", yaml_sequence(dashboards));
    yaml_emit(&document).is_ok()
}

/// The name of the first of `targets` that Rill cannot render on its own,
/// or the empty name.
fn blamed_target(targets: &Vec<ServingTarget>) -> (r: String)
    ensures
        r@ == rill_blame(views(targets@)),
{
    let ghost all = views(targets@);
    let mut i: usize = 0;
    while i < targets.len()
        invariant
            i <= targets@.len(),
            all == views(targets@),
            forall|j: int| 0 <= j < i ==> yaml_text(rill_document(seq![#[trigger] all[j]])) is Some,
        decreases targets@.len() - i,
    {
        assert(all[i as int] == targets@[i as int]@);
        if !renders_alone(&targets[i]) {
            proof {
                assert(is_first_unrenderable(all, i as int));
                let k = choose|k: int| is_first_unrenderable(all, k);
                if k < i {
                    assert(yaml_text(rill_document(seq![all[k]])) is Some);
                } else if i < k {
                    assert(yaml_text(rill_document(seq![all[i as int]])) is Some);
                }
            }
            return copy_string(&targets[i].name);
        }
        i += 1;
    }
    proof {
        if exists|k: int| is_first_unrenderable(all, k) {
            let k = choose|k: int| is_first_unrenderable(all, k);
            assert(yaml_text(rill_document(seq![all[k]])) is Some);
        }
    }
    String::new()
}

/// The adapter of Rill, which reads its configuration at `config_path`.
#[derive(Debug, Clone)]
pub struct RillAdapter {
    pub config_path: String,
}

impl ServingTool for RillAdapter {
    open spec fn kind(&self) -> Seq<char> {
        "rill"@
    }

    open spec fn location(&self) -> Seq<char> {
        self.config_path@
    }

    open spec fn rendering(&self, targets: Seq<ServingView>) -> Option<Seq<char>> {
        yaml_text(rill_document(targets))
    }

    open spec fn blame(&self, targets: Seq<ServingView>) -> Seq<char> {
        rill_blame(targets)
    }

    open spec fn validation(&self) -> CommandView {
        CommandView { program: "rill"@, args: seq!["validate"@] }
    }

    open spec fn execution(&self) -> CommandView {
        CommandView { program: "rill"@, args: seq!["start"@] }
    }

    fn tool_type(&self) -> (r: String) {
        String::from_str("rill")
    }

    fn destination(&self) -> (r: String) {
        copy_string(&self.config_path)
    }

    /// The document of `targets` as YAML text: one mapping whose
    /// `dashboards` lists a dashboard for each target, in the order given.
    /// Where the text cannot be made, the error names the first target
    /// that cannot be rendered on its own.
    fn generate_config(&self, targets: &Vec<ServingTarget>) -> (r: Result<String, RenderError>) {
        let document = rill_value(targets);
        match yaml_emit(&document) {
            Ok(text) => Ok(text),
            Err(_) => Err(RenderError { entity: blamed_target(targets), tool: String::from_str("rill") }),
        }
    }

    /// `rill validate`: Rill checks the project and starts nothing.
    fn validate(&self) -> (r: BackendCommand) {
        let mut args: Vec<String> = Vec::new();
        args.push(String::from_str("validate"));
        assert(views(args@) =~= seq!["validate"@]);
        BackendCommand { program: String::from_str("rill"), args }
    }

    /// `rill start`.
    fn execute(&self) -> (r: BackendCommand) {
        let mut args: Vec<String> = Vec::new();
        args.push(String::from_str("start"));
        assert(views(args@) =~= seq!["start"@]);
        BackendCommand { program: String::from_str("rill"), args }
    }
}

/// Whether two texts are the same.
pub fn same_text(a: &str, b: &str) -> (r: bool)
    ensures
        r == (a@ == b@),
{
    String::from_str(a) == String::from_str(b)
}

/// Whether an adapter for the transformation tool `kind` exists.
pub open spec fn is_transformation_tool(kind: Seq<char>) -> bool {
    kind == "sdf"@ || kind == "dbt"@
}

/// Whether an adapter for the serving tool `kind` exists.
pub open spec fn is_serving_tool(kind: Seq<char>) -> bool {
    kind == "rill"@
}

/// What the transformation tool `kind` makes of one transformation.
pub open spec fn transformation_rendering(kind: Seq<char>, c: TransformationView) -> Option<Seq<char>> {
    if kind == "sdf"@ {
        yaml_text(sdf_document(c))
    } else {
        Some(dbt_model(c))
    }
}

/// Where the transformation tool `kind` expects its configuration, when
/// the stack lives at `path`.
pub open spec fn transformation_location(kind: Seq<char>, path: Seq<char>) -> Seq<char> {
    if kind == "sdf"@ {
        under(path, "transform/workspace.sdf.yml"@)
    } else {
        under(path, "transform/models/stack.sql"@)
    }
}

/// What stands between two transformations in an artifact of the tool
/// `kind`.
pub open spec fn transformation_divider(kind: Seq<char>) -> Seq<char> {
    if kind == "sdf"@ {
        "---\n"@
    } else {
        ""@
    }
}

/// The call that validates the transformation tool `kind`.
pub open spec fn transformation_validation(kind: Seq<char>) -> CommandView {
    if kind == "sdf"@ {
        CommandView { program: "sdf"@, args: seq!["check"@] }
    } else {
        CommandView { program: "dbt"@, args: seq!["compile"@] }
    }
}

/// The call that runs the transformation tool `kind` in `environment`.
pub open spec fn transformation_execution(kind: Seq<char>, environment: Seq<char>) -> CommandView {
    if kind == "sdf"@ {
        CommandView { program: "sdf"@, args: seq!["run"@, "-e"@, environment, "--show"@, "all"@] }
    } else {
        CommandView { program: "dbt"@, args: seq!["run"@] }
    }
}

/// Where the serving tool `kind` expects its configuration, when the
/// stack lives at `path`.
pub open spec fn serving_location(kind: Seq<char>, path: Seq<char>) -> Seq<char> {
    under(path, "serve/rill.yaml"@)
}

/// What the serving tool `kind` makes of its serving targets: one document
/// that lists them in the order given.
pub open spec fn serving_rendering(kind: Seq<char>, targets: Seq<ServingView>) -> Option<Seq<char>> {
    yaml_text(rill_document(targets))
}

/// The serving target that the serving tool `kind` names when it cannot
/// render `targets`.
pub open spec fn serving_blame(kind: Seq<char>, targets: Seq<ServingView>) -> Seq<char> {
    rill_blame(targets)
}

/// The call that validates the serving tool `kind`.
pub open spec fn serving_validation(kind: Seq<char>) -> CommandView {
    CommandView { program: "rill"@, args: seq!["validate"@] }
}

/// The call that starts the serving tool `kind`.
pub open spec fn serving_execution(kind: Seq<char>) -> CommandView {
    CommandView { program: "rill"@, args: seq!["start"@] }
}

/// The adapter of the transformation tool that `tool_type` names: `sdf` or
/// `dbt`, at the root of the stack and in the environment of the run.  Any
/// other identifier is reported, not acted on.
pub fn create_transformation_tool(tool_type: &str, config: &ToolConfig) -> (r: Result<
    Box<dyn TransformationTool>,
    UnsupportedToolError,
>)
    ensures
        r is Ok <==> is_transformation_tool(tool_type@),
        match r {
            Ok(tool) => {
                &&& tool.kind() == tool_type@
                &&& tool.location() == transformation_location(tool_type@, config@.path)
                &&& tool.divider() == transformation_divider(tool_type@)
                &&& tool.validation() == transformation_validation(tool_type@)
                &&& tool.execution() == transformation_execution(
                    tool_type@,
                    run_environment(config@.environment),
                )
                &&& forall|c: TransformationView| #[trigger]
                    tool.rendering(c) == transformation_rendering(tool_type@, c)
            },
            Err(e) => e.tool_type@ == tool_type@,
        },
{
    proof {
        reveal_strlit("sdf");
        reveal_strlit("dbt");
        assert("sdf"@[0] != "dbt"@[0]);
    }
    if same_text(tool_type, "sdf") {
        Ok(
            Box::new(
                SdfAdapter {
                    workspace_path: copy_string(&config.path),
                    environment: environment_of(config),
                },
            ),
        )
    } else if same_text(tool_type, "dbt") {
        Ok(Box::new(DbtAdapter { project_path: copy_string(&config.path) }))
    } else {
        Err(UnsupportedToolError { tool_type: String::from_str(tool_type) })
    }
}

/// The adapter of the serving tool that `tool_type` names: `rill`, which
/// reads its configuration from `serve/rill.yaml` under the root of the
/// stack.  Any other identifier is reported, not acted on.
pub fn create_serving_tool(tool_type: &str, config: &ToolConfig) -> (r: Result<
    Box<dyn ServingTool>,
    UnsupportedToolError,
>)
    ensures
        r is Ok <==> is_serving_tool(tool_type@),
        match r {
            Ok(tool) => {
                &&& tool.kind() == tool_type@
                &&& tool.location() == serving_location(tool_type@, config@.path)
                &&& tool.validation() == serving_validation(tool_type@)
                &&& tool.execution() == serving_execution(tool_type@)
                &&& forall|t: Seq<ServingView>| #[trigger]
                    tool.rendering(t) == serving_rendering(tool_type@, t)
                &&& forall|t: Seq<ServingView>| #[trigger] tool.blame(t) == serving_blame(tool_type@, t)
            },
            Err(e) => e.tool_type@ == tool_type@,
        },
{
    if same_text(tool_type, "rill") {
        Ok(Box::new(RillAdapter { config_path: place_under(&config.path, "serve/rill.yaml") }))
    } else {
        Err(UnsupportedToolError { tool_type: String::from_str(tool_type) })
    }
}

} // verus!
