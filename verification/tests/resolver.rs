use ddse::descriptor::{
    EntityKind, OrchestrationPolicy, ServingTarget, Source, StackDescriptor, StructuralError,
    TransformationConfig,
};
use ddse::graph::DependencyGraph;
use ddse::resolver::{resolve_order, ResolveError};

fn transformation(name: &str, depends_on: &[&str], kind: &str) -> TransformationConfig {
    TransformationConfig {
        name: name.to_string(),
        depends_on: depends_on.iter().map(|s| s.to_string()).collect(),
        transform_type: kind.to_string(),
        columns: Vec::new(),
        aggregations: Vec::new(),
    }
}

fn stack(transformations: Vec<TransformationConfig>) -> StackDescriptor {
    StackDescriptor {
        name: "stack".to_string(),
        description: String::new(),
        environment: "local".to_string(),
        sources: Vec::new(),
        transformations,
        serving: Vec::new(),
        orchestration: OrchestrationPolicy {
            schedule: "0 * * * *".to_string(),
            retries: 0,
            timeout: "1h".to_string(),
            notifications: serde_yaml::Value::Null,
        },
    }
}

fn names(order: &[String]) -> Vec<&str> {
    order.iter().map(|s| s.as_str()).collect()
}

#[test]
fn dependency_comes_first() {
    let ts = vec![transformation("raw", &[], "sdf"), transformation("agg", &["raw"], "sdf")];
    let order = resolve_order(&ts).unwrap();
    assert_eq!(names(&order), vec!["raw", "agg"]);
}

#[test]
fn dependency_wins_over_declaration_order() {
    let ts = vec![transformation("agg", &["raw"], "sdf"), transformation("raw", &[], "sdf")];
    let order = resolve_order(&ts).unwrap();
    assert_eq!(names(&order), vec!["raw", "agg"]);
}

#[test]
fn declaration_order_breaks_ties() {
    let ts = vec![
        transformation("c", &[], "sdf"),
        transformation("a", &[], "sdf"),
        transformation("b", &[], "sdf"),
    ];
    let order = resolve_order(&ts).unwrap();
    assert_eq!(names(&order), vec!["c", "a", "b"]);
}

#[test]
fn first_declared_ready_transformation_is_next() {
    // z waits for y; x and y are free.  After x and y, z is ready and is
    // declared before w.
    let ts = vec![
        transformation("z", &["y"], "sdf"),
        transformation("x", &[], "sdf"),
        transformation("y", &[], "sdf"),
        transformation("w", &["x"], "sdf"),
    ];
    let order = resolve_order(&ts).unwrap();
    assert_eq!(names(&order), vec!["x", "y", "z", "w"]);
}

#[test]
fn diamond_is_ordered() {
    let ts = vec![
        transformation("report", &["left", "right"], "dbt"),
        transformation("left", &["base"], "dbt"),
        transformation("right", &["base"], "dbt"),
        transformation("base", &[], "dbt"),
    ];
    let order = resolve_order(&ts).unwrap();
    assert_eq!(names(&order), vec!["base", "left", "right", "report"]);
    for t in &ts {
        let at = order.iter().position(|n| *n == t.name).unwrap();
        for dep in &t.depends_on {
            let dep_at = order.iter().position(|n| n == dep).unwrap();
            assert!(dep_at < at);
        }
    }
}

#[test]
fn no_transformations_no_order() {
    let order = resolve_order(&Vec::new()).unwrap();
    assert!(order.is_empty());
}

#[test]
fn repeated_dependency_counts_once() {
    let ts = vec![transformation("b", &["a", "a"], "sdf"), transformation("a", &[], "sdf")];
    let order = resolve_order(&ts).unwrap();
    assert_eq!(names(&order), vec!["a", "b"]);
}

#[test]
fn resolving_twice_gives_the_same_order() {
    let ts = vec![
        transformation("d", &["b", "c"], "sdf"),
        transformation("b", &["a"], "sdf"),
        transformation("c", &["a"], "dbt"),
        transformation("a", &[], "sdf"),
        transformation("e", &[], "dbt"),
    ];
    let first = resolve_order(&ts).unwrap();
    let second = resolve_order(&ts).unwrap();
    assert_eq!(first, second);
    assert_eq!(names(&first), vec!["a", "b", "c", "d", "e"]);
}

#[test]
fn missing_dependency_is_a_structural_error() {
    let ts = vec![transformation("x", &["y"], "sdf")];
    match resolve_order(&ts) {
        Err(ResolveError::Structure(StructuralError::UnknownDependency { transformation, missing })) => {
            assert_eq!(transformation, "x");
            assert_eq!(missing, "y");
        }
        other => panic!("unexpected: {:?}", other),
    }
    match stack(ts).validate_structure() {
        Err(StructuralError::UnknownDependency { transformation, missing }) => {
            assert_eq!(transformation, "x");
            assert_eq!(missing, "y");
        }
        other => panic!("unexpected: {:?}", other),
    }
}

#[test]
fn two_transformations_in_a_circle() {
    let ts = vec![transformation("a", &["b"], "sdf"), transformation("b", &["a"], "sdf")];
    match resolve_order(&ts) {
        Err(ResolveError::Cycle(e)) => assert_eq!(names(&e.cycle), vec!["a", "b"]),
        other => panic!("unexpected: {:?}", other),
    }
}

#[test]
fn self_dependency_is_a_cycle_of_one() {
    let ts = vec![transformation("free", &[], "sdf"), transformation("x", &["x"], "sdf")];
    match resolve_order(&ts) {
        Err(ResolveError::Cycle(e)) => assert_eq!(names(&e.cycle), vec!["x"]),
        other => panic!("unexpected: {:?}", other),
    }
}

#[test]
fn cycle_names_only_its_members() {
    // tail waits for the circle but is not on it; head is placed.
    let ts = vec![
        transformation("head", &[], "sdf"),
        transformation("tail", &["p"], "sdf"),
        transformation("p", &["head", "q"], "sdf"),
        transformation("q", &["r"], "sdf"),
        transformation("r", &["p"], "sdf"),
    ];
    match resolve_order(&ts) {
        Err(ResolveError::Cycle(e)) => assert_eq!(names(&e.cycle), vec!["p", "q", "r"]),
        other => panic!("unexpected: {:?}", other),
    }
}

#[test]
fn duplicate_transformation_name_is_reported() {
    let ts = vec![
        transformation("a", &[], "sdf"),
        transformation("b", &[], "sdf"),
        transformation("a", &[], "dbt"),
    ];
    match resolve_order(&ts) {
        Err(ResolveError::Structure(StructuralError::DuplicateName { kind, name })) => {
            assert_eq!(kind, EntityKind::Transformation);
            assert_eq!(name, "a");
        }
        other => panic!("unexpected: {:?}", other),
    }
}

#[test]
fn duplicate_is_reported_before_missing_dependency() {
    let ts = vec![
        transformation("a", &["nowhere"], "sdf"),
        transformation("a", &[], "sdf"),
    ];
    match resolve_order(&ts) {
        Err(ResolveError::Structure(StructuralError::DuplicateName { name, .. })) => {
            assert_eq!(name, "a")
        }
        other => panic!("unexpected: {:?}", other),
    }
}

#[test]
fn graph_schedule_takes_lowest_ready_node() {
    // 0 waits for 2; 1 and 2 are free.
    let g = DependencyGraph { edges: vec![vec![2], vec![], vec![]] };
    assert_eq!(g.schedule(), vec![1, 2, 0]);
    assert_eq!(g.topological_order(), Ok(vec![1, 2, 0]));
}

#[test]
fn graph_schedule_stops_at_a_cycle() {
    // 1 and 2 wait for each other, 3 waits for 2, 0 is free.
    let g = DependencyGraph { edges: vec![vec![], vec![2], vec![1], vec![2]] };
    assert_eq!(g.schedule(), vec![0]);
    assert_eq!(g.topological_order(), Err(vec![1, 2]));
}

#[test]
fn graph_cycle_is_found_behind_a_tail() {
    // 0 waits for 1, which waits for 2, which waits for 1.
    let g = DependencyGraph { edges: vec![vec![1], vec![2], vec![1]] };
    assert_eq!(g.topological_order(), Err(vec![1, 2]));
}

#[test]
fn structure_of_a_sound_stack_is_accepted() {
    let mut d = stack(vec![transformation("raw", &[], "sdf"), transformation("agg", &["raw"], "sdf")]);
    d.sources.push(Source {
        name: "events".to_string(),
        source_type: "duckdb".to_string(),
        config: serde_yaml::Value::Null,
    });
    d.serving.push(ServingTarget {
        name: "board".to_string(),
        serving_type: "rill".to_string(),
        template: "github://t/board.md".to_string(),
        data_sources: vec!["agg".to_string(), "events".to_string()],
        config: serde_yaml::Value::Null,
    });
    assert!(d.validate_structure().is_ok());
}

#[test]
fn unknown_data_source_is_reported() {
    let mut d = stack(vec![transformation("raw", &[], "sdf")]);
    d.serving.push(ServingTarget {
        name: "board".to_string(),
        serving_type: "rill".to_string(),
        template: String::new(),
        data_sources: vec!["raw".to_string(), "ghost".to_string()],
        config: serde_yaml::Value::Null,
    });
    match d.validate_structure() {
        Err(StructuralError::UnknownDataSource { serving_target, missing }) => {
            assert_eq!(serving_target, "board");
            assert_eq!(missing, "ghost");
        }
        other => panic!("unexpected: {:?}", other),
    }
}

#[test]
fn duplicate_source_is_reported_first() {
    let mut d = stack(vec![transformation("x", &["y"], "sdf")]);
    for _ in 0..2 {
        d.sources.push(Source {
            name: "events".to_string(),
            source_type: "duckdb".to_string(),
            config: serde_yaml::Value::Null,
        });
    }
    match d.validate_structure() {
        Err(StructuralError::DuplicateName { kind, name }) => {
            assert_eq!(kind, EntityKind::Source);
            assert_eq!(name, "events");
        }
        other => panic!("unexpected: {:?}", other),
    }
}

#[test]
fn duplicate_serving_target_is_reported() {
    let mut d = stack(Vec::new());
    for _ in 0..2 {
        d.serving.push(ServingTarget {
            name: "board".to_string(),
            serving_type: "rill".to_string(),
            template: String::new(),
            data_sources: Vec::new(),
            config: serde_yaml::Value::Null,
        });
    }
    match d.validate_structure() {
        Err(StructuralError::DuplicateName { kind, name }) => {
            assert_eq!(kind, EntityKind::ServingTarget);
            assert_eq!(name, "board");
        }
        other => panic!("unexpected: {:?}", other),
    }
}

#[test]
fn same_name_in_two_classes_is_no_fault() {
    let mut d = stack(vec![transformation("events", &[], "sdf")]);
    d.sources.push(Source {
        name: "events".to_string(),
        source_type: "duckdb".to_string(),
        config: serde_yaml::Value::Null,
    });
    assert!(d.validate_structure().is_ok());
}

#[test]
fn structural_errors_in_words() {
    let e = StructuralError::UnknownDependency {
        transformation: "x".to_string(),
        missing: "y".to_string(),
    };
    assert_eq!(e.message(), "transformation 'x' depends on 'y', which is not declared");
    let e = StructuralError::DuplicateName { kind: EntityKind::ServingTarget, name: "b".to_string() };
    assert_eq!(e.message(), "duplicate serving target name 'b'");
    let e = StructuralError::UnknownDataSource {
        serving_target: "board".to_string(),
        missing: "ghost".to_string(),
    };
    assert_eq!(e.message(), "serving target 'board' reads from 'ghost', which is not declared");
}

#[test]
fn graph_with_a_stray_edge_is_not_well_formed() {
    assert!(DependencyGraph { edges: vec![vec![1], vec![]] }.is_well_formed());
    assert!(!DependencyGraph { edges: vec![vec![2], vec![]] }.is_well_formed());
    assert!(DependencyGraph { edges: Vec::new() }.is_well_formed());
}

fn policy(timeout: &str) -> OrchestrationPolicy {
    OrchestrationPolicy {
        schedule: String::new(),
        retries: 0,
        timeout: timeout.to_string(),
        notifications: serde_yaml::Value::Null,
    }
}

#[test]
fn timeout_in_whole_seconds() {
    assert_eq!(policy("0").timeout_seconds(), Some(0));
    assert_eq!(policy("7").timeout_seconds(), Some(7));
    assert_eq!(policy("3600").timeout_seconds(), Some(3600));
    assert_eq!(policy("007").timeout_seconds(), Some(7));
    assert_eq!(policy("18446744073709551615").timeout_seconds(), Some(u64::MAX));
}

#[test]
fn timeout_that_is_no_number_of_seconds() {
    assert_eq!(policy("").timeout_seconds(), None);
    assert_eq!(policy("1h").timeout_seconds(), None);
    assert_eq!(policy(" 30").timeout_seconds(), None);
    assert_eq!(policy("-1").timeout_seconds(), None);
    assert_eq!(policy("3.5").timeout_seconds(), None);
    assert_eq!(policy("18446744073709551616").timeout_seconds(), None);
    assert_eq!(policy("99999999999999999999999").timeout_seconds(), None);
    assert_eq!(policy("999999999999999999999x").timeout_seconds(), None);
}
