use ddse::adapters::{DbtAdapter, RillAdapter, SdfAdapter, ServingTool, ToolConfig, TransformationTool};
use ddse::compiler::{
    compile, compile_serving, compile_transformations, distinct_names, CompileError,
};
use ddse::descriptor::{
    Aggregation, Column, OrchestrationPolicy, ServingTarget, StackDescriptor, TransformationConfig,
};
use ddse::dsl::parse_dsl_expression;
use ddse::resolver::resolve_order;

fn step(name: &str, depends_on: &[&str], kind: &str) -> TransformationConfig {
    TransformationConfig {
        name: name.to_string(),
        depends_on: depends_on.iter().map(|s| s.to_string()).collect(),
        transform_type: kind.to_string(),
        columns: vec![Column { name: "country".to_string(), data_type: "string".to_string() }],
        aggregations: vec![Aggregation { column: "cases".to_string(), function: "sum".to_string() }],
    }
}

fn board(name: &str, kind: &str, reads: &[&str]) -> ServingTarget {
    ServingTarget {
        name: name.to_string(),
        serving_type: kind.to_string(),
        template: "github://t/board.md".to_string(),
        data_sources: reads.iter().map(|s| s.to_string()).collect(),
        config: serde_yaml::Value::Null,
    }
}

fn described(transformations: Vec<TransformationConfig>, serving: Vec<ServingTarget>) -> StackDescriptor {
    StackDescriptor {
        name: "stack".to_string(),
        description: String::new(),
        environment: "local".to_string(),
        sources: Vec::new(),
        transformations,
        serving,
        orchestration: OrchestrationPolicy {
            schedule: String::new(),
            retries: 1,
            timeout: "30".to_string(),
            notifications: serde_yaml::Value::Null,
        },
    }
}

fn root() -> ToolConfig {
    ToolConfig { path: "workspace".to_string(), environment: None }
}

#[test]
fn one_artifact_for_each_tool() {
    let d = described(
        vec![step("agg", &["raw"], "dbt"), step("raw", &[], "sdf"), step("top", &["agg"], "dbt")],
        vec![board("board", "rill", &["top"])],
    );
    let order = resolve_order(&d.transformations).unwrap();
    let backends = compile(&d, &order, &root()).unwrap();
    let tools: Vec<&str> = backends.iter().map(|b| b.artifact.tool_type.as_str()).collect();
    assert_eq!(tools, vec!["dbt", "sdf", "rill"]);
    let places: Vec<&str> = backends.iter().map(|b| b.artifact.destination.as_str()).collect();
    assert_eq!(
        places,
        vec![
            "workspace/transform/models/stack.sql",
            "workspace/transform/workspace.sdf.yml",
            "workspace/serve/rill.yaml"
        ]
    );
    assert_eq!(backends[0].validate.args, vec!["compile"]);
    assert_eq!(backends[0].execute.args, vec!["run"]);
    assert_eq!(backends[1].validate.args, vec!["check"]);
    assert_eq!(backends[1].execute.args, vec!["run", "-e", "remote", "--show", "all"]);
    assert_eq!(backends[2].validate.program, "rill");
    assert_eq!(backends[2].validate.args, vec!["validate"]);
    assert_eq!(backends[2].execute.program, "rill");
}

#[test]
fn artifact_holds_its_entities_in_resolved_order() {
    let d = described(vec![step("agg", &["raw"], "dbt"), step("raw", &[], "dbt")], Vec::new());
    let order = resolve_order(&d.transformations).unwrap();
    let backends = compile(&d, &order, &root()).unwrap();
    assert_eq!(backends.len(), 1);
    let dbt = DbtAdapter { project_path: String::new() };
    let raw = dbt.generate_config(&d.transformations[1]).unwrap();
    let agg = dbt.generate_config(&d.transformations[0]).unwrap();
    assert_eq!(backends[0].artifact.text, format!("{}{}", raw, agg));
}

#[test]
fn sdf_documents_are_separated() {
    let d = described(vec![step("raw", &[], "sdf"), step("agg", &["raw"], "sdf")], Vec::new());
    let order = resolve_order(&d.transformations).unwrap();
    let backend = compile_transformations("sdf", &d.transformations, &order, &root()).unwrap();
    let sdf = SdfAdapter { workspace_path: String::new(), environment: String::new() };
    let raw = sdf.generate_config(&d.transformations[0]).unwrap();
    let agg = sdf.generate_config(&d.transformations[1]).unwrap();
    assert_eq!(backend.artifact.text, format!("{}---\n{}", raw, agg));
    assert_eq!(backend.artifact.tool_type, "sdf");
}

#[test]
fn artifact_is_restricted_to_its_tool() {
    let d = described(
        vec![step("raw", &[], "sdf"), step("agg", &["raw"], "dbt"), step("top", &["agg"], "sdf")],
        Vec::new(),
    );
    let order = resolve_order(&d.transformations).unwrap();
    let backend = compile_transformations("dbt", &d.transformations, &order, &root()).unwrap();
    let dbt = DbtAdapter { project_path: String::new() };
    assert_eq!(backend.artifact.text, dbt.generate_config(&d.transformations[1]).unwrap());
    // Names that the order holds but no transformation has are passed over.
    let odd = vec!["ghost".to_string(), "agg".to_string()];
    let backend = compile_transformations("dbt", &d.transformations, &odd, &root()).unwrap();
    assert_eq!(backend.artifact.text, dbt.generate_config(&d.transformations[1]).unwrap());
}

#[test]
fn unknown_transformation_tool_fails_the_compilation() {
    let d = described(vec![step("raw", &[], "sdf"), step("odd", &["raw"], "foo")], Vec::new());
    let order = resolve_order(&d.transformations).unwrap();
    match compile(&d, &order, &root()) {
        Err(CompileError::UnsupportedTool(e)) => assert_eq!(e.tool_type, "foo"),
        other => panic!("unexpected: {:?}", other),
    }
}

#[test]
fn unknown_serving_tool_fails_the_compilation() {
    let d = described(vec![step("raw", &[], "sdf")], vec![board("board", "grafana", &["raw"])]);
    let order = resolve_order(&d.transformations).unwrap();
    match compile(&d, &order, &root()) {
        Err(CompileError::UnsupportedTool(e)) => assert_eq!(e.tool_type, "grafana"),
        other => panic!("unexpected: {:?}", other),
    }
    match compile_serving("grafana", &d.serving, &root()) {
        Err(CompileError::UnsupportedTool(e)) => assert_eq!(e.tool_type, "grafana"),
        other => panic!("unexpected: {:?}", other),
    }
}

#[test]
fn serving_targets_stand_in_declaration_order() {
    let targets = vec![board("second", "rill", &[]), board("first", "rill", &[])];
    let backend = compile_serving("rill", &targets, &root()).unwrap();
    let rill = RillAdapter { config_path: String::new() };
    assert_eq!(backend.artifact.text, rill.generate_config(&targets).unwrap());
    let doc: serde_yaml::Value = serde_yaml::from_str(&backend.artifact.text).unwrap();
    let dashboards = doc.get("dashboards").unwrap().as_sequence().unwrap();
    assert_eq!(dashboards.len(), 2);
    assert_eq!(dashboards[0].get("name").unwrap().as_str(), Some("second"));
    assert_eq!(dashboards[1].get("name").unwrap().as_str(), Some("first"));
    assert_eq!(dashboards[0].get("template").unwrap().as_str(), Some("github://t/board.md"));
    assert_eq!(backend.validate.args, vec!["validate"]);
    assert_eq!(backend.artifact.destination, "workspace/serve/rill.yaml");
}

#[test]
fn empty_stack_compiles_to_nothing() {
    let d = described(Vec::new(), Vec::new());
    assert!(compile(&d, &Vec::new(), &root()).unwrap().is_empty());
}

#[test]
fn compiling_twice_gives_the_same_artifacts() {
    let d = described(
        vec![step("raw", &[], "sdf"), step("agg", &["raw"], "dbt")],
        vec![board("board", "rill", &["agg"])],
    );
    let order = resolve_order(&d.transformations).unwrap();
    let first = compile(&d, &order, &root()).unwrap();
    let second = compile(&d, &order, &root()).unwrap();
    assert_eq!(first.len(), second.len());
    for (a, b) in first.iter().zip(second.iter()) {
        assert_eq!(a.artifact.text, b.artifact.text);
        assert_eq!(a.artifact.tool_type, b.artifact.tool_type);
    }
}

#[test]
fn distinct_names_keep_first_occurrences() {
    let v: Vec<String> = ["dbt", "sdf", "dbt", "rill", "sdf"].iter().map(|s| s.to_string()).collect();
    assert_eq!(distinct_names(&v), vec!["dbt", "sdf", "rill"]);
    assert!(distinct_names(&Vec::new()).is_empty());
}

#[test]
fn every_expression_is_the_example_stack() {
    let d = parse_dsl_expression("ingest duckdb | sum cases by country | serve").unwrap();
    assert_eq!(d.sources.len(), 1);
    assert_eq!(d.sources[0].name, "duckdb");
    assert_eq!(d.sources[0].config.get("query").unwrap().as_str(), Some("SELECT * FROM covid_data"));
    assert_eq!(d.transformations.len(), 1);
    let t = &d.transformations[0];
    assert_eq!(t.transform_type, "sdf");
    assert_eq!(t.columns[0].name, "country");
    assert_eq!(t.aggregations.len(), 2);
    assert_eq!(t.aggregations[0].column, "cases");
    assert_eq!(t.aggregations[1].column, "deaths");
    assert_eq!(t.aggregations[1].function, "sum");
    assert_eq!(d.serving[0].template, "github://covid/covid_dashboard.md");
    assert_eq!(d.serving[0].serving_type, "rill");
    assert_eq!(d.orchestration.retries, 0);
    assert!(d.validate_structure().is_ok());
    let other = parse_dsl_expression("").unwrap();
    assert_eq!(format!("{:?}", other), format!("{:?}", d));
}
