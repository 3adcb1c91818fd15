//! The one-line notation for a stack.  It is a sketch so far: every
//! expression stands for the same stack, the example that the notation was
//! drawn up for.  The notation gives each column one aggregation at most,
//! so that in a stack read from it no column is aggregated twice.

use crate::adapters::{table, table_of_one};
use crate::descriptor::{
    aggregated_once, aggregation_columns, Aggregation, AggregationView, Column, ColumnView, OrchestrationPolicy, ParseError, PolicyView,
    ServingTarget, ServingView, Source, SourceView, StackDescriptor, StackView,
    TransformationConfig, TransformationView,
};
use crate::yaml::{
    entry_keys, yaml_docs, yaml_entries, yaml_mapping, yaml_sequence, yaml_string, YamlDoc,
};
use vstd::prelude::*;
use vstd::string::StringExecFns;

verus! {

/// The example stack: case counts from DuckDB, summed by country with SDF,
/// shown on a Rill dashboard.  It names no environment, and each of its
/// calls may take an hour.
pub open spec fn example_stack() -> StackView {
    StackView {
        name: ""@,
        description: ""@,
        environment: ""@,
        sources: seq![
            SourceView {
                name: "duckdb"@,
                source_type: "duckdb"@,
                config: table(seq![("query"@, YamlDoc::Text("SELECT * FROM covid_data"@))]),
            },
        ],
        transformations: seq![
            TransformationView {
                name: "transform"@,
                depends_on: Seq::empty(),
                transform_type: "sdf"@,
                columns: seq![ColumnView { name: "country"@, data_type: ""@ }],
                aggregations: seq![
                    AggregationView { column: "cases"@, function: "sum"@ },
                    AggregationView { column: "deaths"@, function: "sum"@ },
                ],
            },
        ],
        serving: seq![
            ServingView {
                name: "serve"@,
                serving_type: "rill"@,
                template: "github://covid/covid_dashboard.md"@,
                data_sources: seq!["transform"@],
                config: YamlDoc::Table(Seq::empty()),
            },
        ],
        orchestration: PolicyView {
            schedule: ""@,
            retries: 0,
            timeout: "3600"@,
            notifications: YamlDoc::List(Seq::empty()),
        },
    }
}

/// Reads a stack from the one-line notation.  So far the expression is not
/// looked at: the answer is the example stack, whatever it says.
pub fn parse_dsl_expression(expression: &str) -> (r: Result<StackDescriptor, ParseError>)
    ensures
        r matches Ok(d) && d@ == example_stack() && forall|i: int|
            0 <= i < d@.transformations.len() ==> aggregated_once(#[trigger] d@.transformations[i]),
{
    let query = table_of_one("query", yaml_string("SELECT * FROM covid_data"));
    let mut sources: Vec<Source> = Vec::new();
    sources.push(
        Source {
            name: String::from_str("duckdb"),
            source_type: String::from_str("duckdb"),
            config: query,
        },
    );
    let mut columns: Vec<Column> = Vec::new();
    columns.push(Column { name: String::from_str("country"), data_type: String::from_str("") });
    let mut aggregations: Vec<Aggregation> = Vec::new();
    aggregations.push(
        Aggregation { column: String::from_str("cases"), function: String::from_str("sum") },
    );
    aggregations.push(
        Aggregation { column: String::from_str("deaths"), function: String::from_str("sum") },
    );
    let mut transformations: Vec<TransformationConfig> = Vec::new();
    transformations.push(
        TransformationConfig {
            name: String::from_str("transform"),
            depends_on: Vec::new(),
            transform_type: String::from_str("sdf"),
            columns,
            aggregations,
        },
    );
    let mut data_sources: Vec<String> = Vec::new();
    data_sources.push(String::from_str("transform"));
    let no_entries: Vec<(String, serde_yaml::Value)> = Vec::new();
    assert(entry_keys(no_entries@).no_duplicates());
    assert(yaml_entries(no_entries@) =~= Seq::empty());
    let no_items: Vec<serde_yaml::Value> = Vec::new();
    assert(yaml_docs(no_items@) =~= Seq::empty());
    let mut serving: Vec<ServingTarget> = Vec::new();
    serving.push(
        ServingTarget {
            name: String::from_str("serve"),
            serving_type: String::from_str("rill"),
            template: String::from_str("github://covid/covid_dashboard.md"),
            data_sources,
            config: yaml_mapping(no_entries),
        },
    );
    let d = StackDescriptor {
        name: String::from_str(""),
        description: String::from_str(""),
        environment: String::from_str(""),
        sources,
        transformations,
        serving,
        orchestration: OrchestrationPolicy {
            schedule: String::from_str(""),
            retries: 0,
            timeout: String::from_str("3600"),
            notifications: yaml_sequence(no_items),
        },
    };
    proof {
        let v = d@;
        let w = example_stack();
        assert(v.sources =~= w.sources);
        assert(d.transformations@[0]@.depends_on =~= Seq::empty());
        assert(d.transformations@[0]@.columns =~= w.transformations[0].columns);
        assert(d.transformations@[0]@.aggregations =~= w.transformations[0].aggregations);
        assert(v.transformations =~= w.transformations);
        assert(d.serving@[0]@.data_sources =~= w.serving[0].data_sources);
        assert(v.serving =~= w.serving);
        reveal_strlit("cases");
        reveal_strlit("deaths");
        assert("cases"@.len() != "deaths"@.len());
        assert(aggregation_columns(v.transformations[0]) =~= seq!["cases"@, "deaths"@]);
        assert(aggregated_once(v.transformations[0]));
    }
    Ok(d)
}

} // verus!
