use ddse::adapters::{
    create_serving_tool, create_transformation_tool, environment_of, place_under, same_text,
    DbtAdapter, RillAdapter, SdfAdapter, ServingTool, ToolConfig, TransformationTool,
};
use ddse::descriptor::{Aggregation, Column, ServingTarget, TransformationConfig};
use ddse::text::{copy_strings, find_name, join_strings};

fn sample() -> TransformationConfig {
    TransformationConfig {
        name: "agg".to_string(),
        depends_on: vec!["raw".to_string(), "base".to_string()],
        transform_type: "dbt".to_string(),
        columns: vec![
            Column { name: "country".to_string(), data_type: "string".to_string() },
            Column { name: "day".to_string(), data_type: "date".to_string() },
        ],
        aggregations: vec![
            Aggregation { column: "cases".to_string(), function: "sum".to_string() },
            Aggregation { column: "deaths".to_string(), function: "max".to_string() },
        ],
    }
}

fn at(path: &str) -> ToolConfig {
    ToolConfig { path: path.to_string(), environment: None }
}

fn sdf_at(path: &str) -> SdfAdapter {
    SdfAdapter { workspace_path: path.to_string(), environment: "remote".to_string() }
}

fn target(name: &str, reads: &[&str]) -> ServingTarget {
    let mut config = serde_yaml::Mapping::new();
    config.insert(serde_yaml::Value::String("refresh".to_string()), serde_yaml::Value::Bool(true));
    ServingTarget {
        name: name.to_string(),
        serving_type: "rill".to_string(),
        template: "github://covid/covid_dashboard.md".to_string(),
        data_sources: reads.iter().map(|s| s.to_string()).collect(),
        config: serde_yaml::Value::Mapping(config),
    }
}

#[test]
fn dbt_model_text() {
    let dbt = DbtAdapter { project_path: "transform".to_string() };
    let text = dbt.generate_config(&sample()).unwrap();
    let expected = "\n            {{ config(\n                materialized='table',\n                depends_on=[raw, base]\n            ) }}\n\n            SELECT \n                sum(cases) as cases,\n    max(deaths) as deaths\n            FROM source_table\n            GROUP BY country, day\n            ";
    assert_eq!(text, expected);
}

#[test]
fn dbt_model_of_an_empty_transformation() {
    let dbt = DbtAdapter { project_path: "transform".to_string() };
    let empty = TransformationConfig {
        name: "nothing".to_string(),
        depends_on: Vec::new(),
        transform_type: "dbt".to_string(),
        columns: Vec::new(),
        aggregations: Vec::new(),
    };
    let text = dbt.generate_config(&empty).unwrap();
    let expected = "\n            {{ config(\n                materialized='table',\n                depends_on=[]\n            ) }}\n\n            SELECT \n                \n            FROM source_table\n            GROUP BY \n            ";
    assert_eq!(text, expected);
}

#[test]
fn sdf_workspace_text() {
    let sdf = sdf_at("");
    let text = sdf.generate_config(&sample()).unwrap();
    let expected = "workspace:\n  name: agg\n  dependencies:\n  - raw\n  - base\n  transformations:\n    agg:\n      columns:\n      - name: country\n        data_type: string\n      - name: day\n        data_type: date\n      aggregations:\n      - column: cases\n        function: sum\n      - column: deaths\n        function: max\n";
    assert_eq!(text, expected);
}

#[test]
fn sdf_workspace_reads_back() {
    let sdf = sdf_at("w");
    let text = sdf.generate_config(&sample()).unwrap();
    let doc: serde_yaml::Value = serde_yaml::from_str(&text).unwrap();
    let workspace = doc.get("workspace").unwrap();
    assert_eq!(workspace.get("name").unwrap().as_str(), Some("agg"));
    let deps = workspace.get("dependencies").unwrap().as_sequence().unwrap();
    assert_eq!(deps.len(), 2);
    assert_eq!(deps[1].as_str(), Some("base"));
    let body = workspace.get("transformations").unwrap().get("agg").unwrap();
    let columns = body.get("columns").unwrap().as_sequence().unwrap();
    assert_eq!(columns[1].get("data_type").unwrap().as_str(), Some("date"));
    let aggs = body.get("aggregations").unwrap().as_sequence().unwrap();
    assert_eq!(aggs[0].get("function").unwrap().as_str(), Some("sum"));
    assert_eq!(aggs[1].get("column").unwrap().as_str(), Some("deaths"));
}

#[test]
fn rendering_is_repeatable_and_leaves_the_config_alone() {
    let config = sample();
    let before = format!("{:?}", config);
    let sdf = sdf_at("w");
    let dbt = DbtAdapter { project_path: "p".to_string() };
    assert_eq!(sdf.generate_config(&config).unwrap(), sdf.generate_config(&config).unwrap());
    assert_eq!(dbt.generate_config(&config).unwrap(), dbt.generate_config(&config).unwrap());
    assert_eq!(format!("{:?}", config), before);
}

#[test]
fn rill_dashboard_text() {
    let rill = RillAdapter { config_path: "serve/rill.yaml".to_string() };
    let targets = vec![target("board", &["agg"])];
    let text = rill.generate_config(&targets).unwrap();
    let expected = "dashboards:\n- name: board\n  type: rill\n  template: github://covid/covid_dashboard.md\n  data_sources:\n  - agg\n  config:\n    refresh: true\n";
    assert_eq!(text, expected);
    assert_eq!(targets[0].config.get("refresh"), Some(&serde_yaml::Value::Bool(true)));
}

#[test]
fn sdf_commands() {
    let sdf = sdf_at("w");
    let check = sdf.validate();
    assert_eq!(check.program, "sdf");
    assert_eq!(check.args, vec!["check"]);
    let run = sdf.execute();
    assert_eq!(run.program, "sdf");
    assert_eq!(run.args, vec!["run", "-e", "remote", "--show", "all"]);
    assert_eq!(sdf.tool_type(), "sdf");
    assert_eq!(sdf.destination(), "w/transform/workspace.sdf.yml");
    assert_eq!(sdf_at("").destination(), "transform/workspace.sdf.yml");
    assert_eq!(sdf.separator(), "---\n");
}

#[test]
fn dbt_commands() {
    let dbt = DbtAdapter { project_path: "p".to_string() };
    let compile = dbt.validate();
    assert_eq!(compile.program, "dbt");
    assert_eq!(compile.args, vec!["compile"]);
    let run = dbt.execute();
    assert_eq!(run.program, "dbt");
    assert_eq!(run.args, vec!["run"]);
    assert_eq!(dbt.tool_type(), "dbt");
    assert_eq!(dbt.destination(), "p/transform/models/stack.sql");
    assert_eq!(dbt.separator(), "");
}

#[test]
fn rill_commands() {
    let rill = RillAdapter { config_path: "serve/rill.yaml".to_string() };
    let validate = rill.validate();
    assert_eq!(validate.program, "rill");
    assert_eq!(validate.args, vec!["validate"]);
    let start = rill.execute();
    assert_eq!(start.program, "rill");
    assert_eq!(start.args, vec!["start"]);
    assert_eq!(rill.tool_type(), "rill");
    assert_eq!(rill.destination(), "serve/rill.yaml");
}

#[test]
fn registry_knows_sdf_and_dbt() {
    let sdf = create_transformation_tool("sdf", &at("here")).ok().unwrap();
    assert_eq!(sdf.tool_type(), "sdf");
    assert_eq!(sdf.destination(), "here/transform/workspace.sdf.yml");
    assert_eq!(sdf.execute().args, vec!["run", "-e", "remote", "--show", "all"]);
    assert_eq!(sdf.validate().args, vec!["check"]);
    let dbt = create_transformation_tool("dbt", &at("there")).ok().unwrap();
    assert_eq!(dbt.tool_type(), "dbt");
    assert_eq!(dbt.destination(), "there/transform/models/stack.sql");
    assert_eq!(dbt.generate_config(&sample()).unwrap(), DbtAdapter { project_path: String::new() }.generate_config(&sample()).unwrap());
}

#[test]
fn registry_reports_an_unknown_tool() {
    match create_transformation_tool("foo", &at("x")) {
        Err(e) => assert_eq!(e.tool_type, "foo"),
        Ok(_) => panic!("foo has no adapter"),
    }
    match create_transformation_tool("SDF", &at("x")) {
        Err(e) => assert_eq!(e.tool_type, "SDF"),
        Ok(_) => panic!("identifiers are case-sensitive"),
    }
    match create_transformation_tool("rill", &at("x")) {
        Err(e) => assert_eq!(e.tool_type, "rill"),
        Ok(_) => panic!("rill transforms nothing"),
    }
}

#[test]
fn registry_of_serving_tools() {
    let rill = create_serving_tool("rill", &at("root")).ok().unwrap();
    assert_eq!(rill.tool_type(), "rill");
    assert_eq!(rill.destination(), "root/serve/rill.yaml");
    assert_eq!(rill.validate().args, vec!["validate"]);
    let here = create_serving_tool("rill", &at("")).ok().unwrap();
    assert_eq!(here.destination(), "serve/rill.yaml");
    match create_serving_tool("sdf", &at("x")) {
        Err(e) => assert_eq!(e.tool_type, "sdf"),
        Ok(_) => panic!("sdf serves nothing"),
    }
}

#[test]
fn text_helpers() {
    let parts = vec!["a".to_string(), "b".to_string(), "c".to_string()];
    assert_eq!(join_strings(&parts, ", "), "a, b, c");
    assert_eq!(join_strings(&parts[..1].to_vec(), ", "), "a");
    assert_eq!(join_strings(&Vec::new(), ", "), "");
    assert_eq!(find_name(&parts, &"b".to_string()), Some(1));
    assert_eq!(find_name(&parts, &"z".to_string()), None);
    let twice = vec!["x".to_string(), "y".to_string(), "x".to_string()];
    assert_eq!(find_name(&twice, &"x".to_string()), Some(0));
    assert_eq!(copy_strings(&parts), parts);
    assert!(same_text("sdf", "sdf"));
    assert!(!same_text("sdf", "sdf "));
}

#[test]
fn rill_lists_every_target_in_one_document() {
    let rill = RillAdapter { config_path: "serve/rill.yaml".to_string() };
    let targets = vec![target("second", &["agg"]), target("first", &[])];
    let text = rill.generate_config(&targets).unwrap();
    let expected = "dashboards:\n- name: second\n  type: rill\n  template: github://covid/covid_dashboard.md\n  data_sources:\n  - agg\n  config:\n    refresh: true\n- name: first\n  type: rill\n  template: github://covid/covid_dashboard.md\n  data_sources: []\n  config:\n    refresh: true\n";
    assert_eq!(text, expected);
    let doc: serde_yaml::Value = serde_yaml::from_str(&text).unwrap();
    let dashboards = doc.get("dashboards").unwrap().as_sequence().unwrap();
    assert_eq!(dashboards.len(), 2);
    assert_eq!(dashboards[0].get("name").unwrap().as_str(), Some("second"));
    assert_eq!(dashboards[1].get("name").unwrap().as_str(), Some("first"));
    assert_eq!(rill.generate_config(&targets).unwrap(), text);
}

#[test]
fn rill_document_of_no_targets() {
    let rill = RillAdapter { config_path: "serve/rill.yaml".to_string() };
    assert_eq!(rill.generate_config(&Vec::new()).unwrap(), "dashboards: []\n");
}

#[test]
fn sdf_runs_in_the_environment_of_the_run() {
    let prod = ToolConfig { path: String::new(), environment: Some("prod".to_string()) };
    let sdf = create_transformation_tool("sdf", &prod).ok().unwrap();
    assert_eq!(sdf.execute().program, "sdf");
    assert_eq!(sdf.execute().args, vec!["run", "-e", "prod", "--show", "all"]);
    assert_eq!(sdf.validate().args, vec!["check"]);
    let odd = ToolConfig { path: String::new(), environment: Some("my env".to_string()) };
    let sdf = create_transformation_tool("sdf", &odd).ok().unwrap();
    assert_eq!(sdf.execute().args, vec!["run", "-e", "my env", "--show", "all"]);
    let dbt = create_transformation_tool("dbt", &prod).ok().unwrap();
    assert_eq!(dbt.execute().args, vec!["run"]);
    assert_eq!(environment_of(&prod), "prod");
    assert_eq!(environment_of(&at("x")), "remote");
}

#[test]
fn files_under_a_root() {
    assert_eq!(place_under(&"root".to_string(), "serve/rill.yaml"), "root/serve/rill.yaml");
    assert_eq!(place_under(&String::new(), "serve/rill.yaml"), "serve/rill.yaml");
    assert_eq!(place_under(&".".to_string(), "a"), "./a");
}
