use ddse::adapters::ToolConfig;
use ddse::compiler::CompileError;
use ddse::descriptor::{
    OrchestrationPolicy, ServingTarget, Source, StackDescriptor, StructuralError,
    TransformationConfig,
};
use ddse::orchestrator::{
    call_outcome, Action, BackendState, CallOutcome, DeclarativeEngine, EntityStatus, InFlight,
    RunOutcome, Validation,
};
use ddse::plan::EngineError;

fn job(name: &str, depends_on: &[&str], kind: &str) -> TransformationConfig {
    TransformationConfig {
        name: name.to_string(),
        depends_on: depends_on.iter().map(|s| s.to_string()).collect(),
        transform_type: kind.to_string(),
        columns: Vec::new(),
        aggregations: Vec::new(),
    }
}

fn dashboard(name: &str, reads: &[&str]) -> ServingTarget {
    ServingTarget {
        name: name.to_string(),
        serving_type: "rill".to_string(),
        template: String::new(),
        data_sources: reads.iter().map(|s| s.to_string()).collect(),
        config: serde_yaml::Value::Null,
    }
}

fn pipeline(
    transformations: Vec<TransformationConfig>,
    serving: Vec<ServingTarget>,
    retries: u32,
) -> StackDescriptor {
    StackDescriptor {
        name: "stack".to_string(),
        description: String::new(),
        environment: "local".to_string(),
        sources: vec![Source {
            name: "events".to_string(),
            source_type: "duckdb".to_string(),
            config: serde_yaml::Value::Null,
        }],
        transformations,
        serving,
        orchestration: OrchestrationPolicy {
            schedule: String::new(),
            retries,
            timeout: "30".to_string(),
            notifications: serde_yaml::Value::Null,
        },
    }
}

fn engine(d: &StackDescriptor) -> DeclarativeEngine {
    DeclarativeEngine::new(d, &ToolConfig { path: "ws".to_string(), environment: None }).unwrap()
}

fn validated(action: &Action) -> usize {
    match action {
        Action::Validate { backend, .. } => *backend,
        other => panic!("expected a validation, got {:?}", other),
    }
}

fn executed(action: &Action) -> (usize, u64) {
    match action {
        Action::Execute { entity, attempt, .. } => (*entity, *attempt),
        other => panic!("expected an execution, got {:?}", other),
    }
}

fn finished(action: &Action) -> RunOutcome {
    match action {
        Action::Finish { outcome } => *outcome,
        other => panic!("expected the end, got {:?}", other),
    }
}

#[test]
fn plan_puts_transformations_first() {
    let d = pipeline(
        vec![job("agg", &["raw"], "dbt"), job("raw", &[], "sdf")],
        vec![dashboard("board", &["agg", "events"])],
        2,
    );
    let e = engine(&d);
    let names: Vec<&str> = e.entities.iter().map(|x| x.name.as_str()).collect();
    assert_eq!(names, vec!["raw", "agg", "board"]);
    let tools: Vec<&str> = e.backends.iter().map(|b| b.artifact.tool_type.as_str()).collect();
    assert_eq!(tools, vec!["dbt", "sdf", "rill"]);
    assert_eq!(e.entities[0].backend, 1);
    assert_eq!(e.entities[1].backend, 0);
    assert_eq!(e.entities[2].backend, 2);
    assert!(e.entities[0].depends_on.is_empty());
    assert_eq!(e.entities[1].depends_on, vec![0]);
    // The source `events` is no entity: the board waits for `agg` only.
    assert_eq!(e.entities[2].depends_on, vec![1]);
    assert_eq!(e.retries, 2);
    assert_eq!(e.timeout, 30);
    assert_eq!(e.in_flight, InFlight::Nothing);
    assert!(e.is_well_formed());
    assert_eq!(e.backend_state(0), BackendState::Compiled);
}

#[test]
fn a_run_validates_everything_before_it_executes() {
    let d = pipeline(
        vec![job("raw", &[], "sdf"), job("agg", &["raw"], "dbt")],
        vec![dashboard("board", &["agg"])],
        0,
    );
    let mut e = engine(&d);
    let a = e.run_stack(None);
    assert_eq!(validated(&a), 0);
    match &a {
        Action::Validate { command, .. } => {
            assert_eq!(command.program, "sdf");
            assert_eq!(command.args, vec!["check"]);
        }
        _ => unreachable!(),
    }
    assert!(e.attempts.iter().all(|n| *n == 0));
    let a = e.run_stack(Some(CallOutcome::Succeeded));
    assert_eq!(validated(&a), 1);
    assert_eq!(e.backend_state(0), BackendState::Validated);
    assert_eq!(e.backend_state(1), BackendState::Compiled);
    assert!(e.attempts.iter().all(|n| *n == 0));
    // The serving tool is validated like the others, before anything runs.
    let a = e.run_stack(Some(CallOutcome::Succeeded));
    assert_eq!(validated(&a), 2);
    match &a {
        Action::Validate { command, .. } => {
            assert_eq!(command.program, "rill");
            assert_eq!(command.args, vec!["validate"]);
        }
        _ => unreachable!(),
    }
    assert_eq!(e.backend_state(2), BackendState::Compiled);
    assert!(e.attempts.iter().all(|n| *n == 0));
    let a = e.run_stack(Some(CallOutcome::Succeeded));
    assert_eq!(executed(&a), (0, 1));
    assert!(e.validations.iter().all(|v| *v == Validation::Passed));
    match &a {
        Action::Execute { command, .. } => {
            assert_eq!(command.program, "sdf");
            assert_eq!(command.args, vec!["run", "-e", "local", "--show", "all"]);
        }
        _ => unreachable!(),
    }
    let a = e.run_stack(Some(CallOutcome::Succeeded));
    assert_eq!(executed(&a), (1, 1));
    assert_eq!(e.backend_state(0), BackendState::Executed);
    let a = e.run_stack(Some(CallOutcome::Succeeded));
    assert_eq!(executed(&a), (2, 1));
    match &a {
        Action::Execute { command, .. } => assert_eq!(command.program, "rill"),
        _ => unreachable!(),
    }
    let a = e.run_stack(Some(CallOutcome::Succeeded));
    assert_eq!(finished(&a), RunOutcome::Completed);
    assert!(e.statuses.iter().all(|s| *s == EntityStatus::Succeeded));
    assert_eq!(e.attempts, vec![1, 1, 1]);
    for b in 0..3 {
        assert_eq!(e.backend_state(b), BackendState::Executed);
    }
    assert!(e.is_well_formed());
    // The run stays finished.
    assert_eq!(finished(&e.run_stack(None)), RunOutcome::Completed);
}

#[test]
fn failed_validation_ends_the_run_before_any_execution() {
    let d = pipeline(vec![job("raw", &[], "sdf"), job("agg", &["raw"], "dbt")], Vec::new(), 3);
    let mut e = engine(&d);
    assert_eq!(validated(&e.run_stack(None)), 0);
    assert_eq!(validated(&e.run_stack(Some(CallOutcome::Succeeded))), 1);
    let a = e.run_stack(Some(CallOutcome::Failed));
    assert_eq!(finished(&a), RunOutcome::ValidationFailed { backend: 1 });
    assert!(e.attempts.iter().all(|n| *n == 0));
    assert!(e.statuses.iter().all(|s| *s == EntityStatus::Pending));
    assert_eq!(e.backend_state(0), BackendState::Validated);
    assert_eq!(e.backend_state(1), BackendState::Failed);
    assert_eq!(finished(&e.run_stack(None)), RunOutcome::ValidationFailed { backend: 1 });
    assert_eq!(
        finished(&e.run_stack(Some(CallOutcome::Succeeded))),
        RunOutcome::ValidationFailed { backend: 1 }
    );
    assert!(e.is_well_formed());
}

#[test]
fn validation_that_times_out_has_failed() {
    let d = pipeline(vec![job("raw", &[], "sdf")], Vec::new(), 3);
    let mut e = engine(&d);
    assert_eq!(validated(&e.run_stack(None)), 0);
    let a = e.run_stack(Some(CallOutcome::TimedOut));
    assert_eq!(finished(&a), RunOutcome::ValidationFailed { backend: 0 });
}

#[test]
fn failure_halts_the_dependents_only() {
    // b waits for a; c is on its own; the board reads from b.
    let d = pipeline(
        vec![job("a", &[], "sdf"), job("b", &["a"], "sdf"), job("c", &[], "sdf")],
        vec![dashboard("board", &["b"]), dashboard("other", &["c"])],
        0,
    );
    let mut e = engine(&d);
    assert_eq!(validated(&e.run_stack(None)), 0);
    assert_eq!(validated(&e.run_stack(Some(CallOutcome::Succeeded))), 1);
    let a = e.run_stack(Some(CallOutcome::Succeeded));
    assert_eq!(executed(&a), (0, 1));
    // a fails; b is skipped, c is executed.
    let a = e.run_stack(Some(CallOutcome::Failed));
    assert_eq!(executed(&a), (2, 1));
    assert_eq!(e.statuses[0], EntityStatus::Failed);
    assert_eq!(e.statuses[1], EntityStatus::Skipped);
    assert_eq!(e.attempts[1], 0);
    // c succeeds; the board is skipped with b, the other dashboard runs.
    let a = e.run_stack(Some(CallOutcome::Succeeded));
    assert_eq!(executed(&a), (4, 1));
    assert_eq!(e.statuses[3], EntityStatus::Skipped);
    let a = e.run_stack(Some(CallOutcome::Succeeded));
    assert_eq!(finished(&a), RunOutcome::ExecutionFailed { entity: 0, attempts: 1 });
    assert_eq!(
        e.statuses,
        vec![
            EntityStatus::Failed,
            EntityStatus::Skipped,
            EntityStatus::Succeeded,
            EntityStatus::Skipped,
            EntityStatus::Succeeded
        ]
    );
    assert_eq!(e.attempts, vec![1, 0, 1, 0, 1]);
    assert_eq!(e.backend_state(0), BackendState::Failed);
    assert_eq!(e.backend_state(1), BackendState::Validated);
    assert!(e.is_well_formed());
}

#[test]
fn failed_execution_is_tried_again() {
    let d = pipeline(vec![job("a", &[], "dbt"), job("b", &["a"], "dbt")], Vec::new(), 2);
    let mut e = engine(&d);
    assert_eq!(validated(&e.run_stack(None)), 0);
    assert_eq!(executed(&e.run_stack(Some(CallOutcome::Succeeded))), (0, 1));
    assert_eq!(executed(&e.run_stack(Some(CallOutcome::Failed))), (0, 2));
    assert_eq!(executed(&e.run_stack(Some(CallOutcome::TimedOut))), (0, 3));
    // The third attempt succeeds: the run goes on.
    assert_eq!(executed(&e.run_stack(Some(CallOutcome::Succeeded))), (1, 1));
    assert_eq!(e.attempts[0], 3);
    assert_eq!(finished(&e.run_stack(Some(CallOutcome::Succeeded))), RunOutcome::Completed);
}

#[test]
fn retries_run_out() {
    let d = pipeline(vec![job("a", &[], "dbt"), job("b", &["a"], "dbt")], Vec::new(), 2);
    let mut e = engine(&d);
    assert_eq!(validated(&e.run_stack(None)), 0);
    assert_eq!(executed(&e.run_stack(Some(CallOutcome::Succeeded))), (0, 1));
    assert_eq!(executed(&e.run_stack(Some(CallOutcome::Failed))), (0, 2));
    assert_eq!(executed(&e.run_stack(Some(CallOutcome::Failed))), (0, 3));
    let a = e.run_stack(Some(CallOutcome::TimedOut));
    assert_eq!(finished(&a), RunOutcome::ExecutionFailed { entity: 0, attempts: 3 });
    assert_eq!(e.statuses, vec![EntityStatus::Failed, EntityStatus::Skipped]);
    assert_eq!(e.attempts, vec![3, 0]);
}

#[test]
fn a_step_without_an_outcome_asks_again() {
    let d = pipeline(vec![job("a", &[], "sdf")], Vec::new(), 1);
    let mut e = engine(&d);
    assert_eq!(validated(&e.run_stack(None)), 0);
    assert_eq!(validated(&e.run_stack(None)), 0);
    assert_eq!(executed(&e.run_stack(Some(CallOutcome::Succeeded))), (0, 1));
    assert_eq!(executed(&e.run_stack(None)), (0, 1));
    assert_eq!(e.attempts[0], 0);
    assert_eq!(finished(&e.run_stack(Some(CallOutcome::Succeeded))), RunOutcome::Completed);
}

#[test]
fn the_two_phases_of_a_step() {
    let d = pipeline(vec![job("a", &[], "sdf")], vec![dashboard("board", &["a"])], 0);
    let mut e = engine(&d);
    match e.validate() {
        Some(Action::Validate { backend, .. }) => assert_eq!(backend, 0),
        other => panic!("unexpected: {:?}", other),
    }
    // The validation passes, as `run_stack` would record it.
    e.validations[0] = Validation::Passed;
    e.validated = 1;
    e.in_flight = InFlight::Nothing;
    assert!(e.is_well_formed());
    match e.validate() {
        Some(Action::Validate { backend, command }) => {
            assert_eq!(backend, 1);
            assert_eq!(command.program, "rill");
        }
        other => panic!("unexpected: {:?}", other),
    }
    e.validations[1] = Validation::Passed;
    e.validated = 2;
    e.in_flight = InFlight::Nothing;
    assert!(e.is_well_formed());
    assert!(e.validate().is_none());
    assert_eq!(e.validated, 2);
    assert_eq!(executed(&e.execute()), (0, 1));
    assert_eq!(e.in_flight, InFlight::Execution(0));
}

#[test]
fn an_empty_stack_completes_at_once() {
    let mut d = pipeline(Vec::new(), Vec::new(), 0);
    d.sources.clear();
    let mut e = engine(&d);
    assert_eq!(finished(&e.run_stack(None)), RunOutcome::Completed);
}

#[test]
fn tampered_state_is_not_well_formed() {
    let d = pipeline(vec![job("a", &[], "sdf"), job("b", &["a"], "sdf")], Vec::new(), 0);
    let mut e = engine(&d);
    e.statuses[1] = EntityStatus::Succeeded;
    assert!(!e.is_well_formed());
    let mut e = engine(&d);
    e.attempts[0] = 1;
    assert!(!e.is_well_formed());
    let mut e = engine(&d);
    e.entities[0].depends_on.push(1);
    assert!(!e.is_well_formed());
    let mut e = engine(&d);
    e.in_flight = InFlight::Execution(0);
    assert!(!e.is_well_formed());
}

#[test]
fn no_run_for_an_unknown_tool() {
    let d = pipeline(vec![job("raw", &[], "sdf"), job("odd", &["raw"], "foo")], Vec::new(), 0);
    match DeclarativeEngine::new(&d, &ToolConfig { path: "ws".to_string(), environment: None }) {
        Err(EngineError::Compile(CompileError::UnsupportedTool(e))) => assert_eq!(e.tool_type, "foo"),
        other => panic!("unexpected: {:?}", other.map(|_| ())),
    }
}

#[test]
fn no_run_for_a_cycle() {
    let d = pipeline(vec![job("a", &["b"], "sdf"), job("b", &["a"], "sdf")], Vec::new(), 0);
    match DeclarativeEngine::new(&d, &ToolConfig { path: "ws".to_string(), environment: None }) {
        Err(EngineError::Cycle(c)) => assert_eq!(c.cycle, vec!["a", "b"]),
        other => panic!("unexpected: {:?}", other.map(|_| ())),
    }
}

#[test]
fn no_run_for_a_faulty_structure() {
    let d = pipeline(vec![job("x", &["y"], "sdf")], Vec::new(), 0);
    match DeclarativeEngine::new(&d, &ToolConfig { path: "ws".to_string(), environment: None }) {
        Err(EngineError::Structure(StructuralError::UnknownDependency { transformation, missing })) => {
            assert_eq!(transformation, "x");
            assert_eq!(missing, "y");
        }
        other => panic!("unexpected: {:?}", other.map(|_| ())),
    }
}

#[test]
fn only_exit_code_zero_is_success() {
    assert_eq!(call_outcome(Some(0), false), CallOutcome::Succeeded);
    assert_eq!(call_outcome(Some(1), false), CallOutcome::Failed);
    assert_eq!(call_outcome(Some(-1), false), CallOutcome::Failed);
    assert_eq!(call_outcome(None, false), CallOutcome::Failed);
    assert_eq!(call_outcome(Some(0), true), CallOutcome::TimedOut);
    assert_eq!(call_outcome(None, true), CallOutcome::TimedOut);
}

#[test]
fn rejected_dashboards_end_the_run_before_any_execution() {
    let d = pipeline(vec![job("raw", &[], "sdf")], vec![dashboard("board", &["raw"])], 2);
    let mut e = engine(&d);
    assert_eq!(validated(&e.run_stack(None)), 0);
    let a = e.run_stack(Some(CallOutcome::Succeeded));
    assert_eq!(validated(&a), 1);
    match &a {
        Action::Validate { command, .. } => {
            assert_eq!(command.program, "rill");
            assert_eq!(command.args, vec!["validate"]);
        }
        _ => unreachable!(),
    }
    let a = e.run_stack(Some(CallOutcome::Failed));
    assert_eq!(finished(&a), RunOutcome::ValidationFailed { backend: 1 });
    assert!(e.attempts.iter().all(|n| *n == 0));
    assert!(e.statuses.iter().all(|s| *s == EntityStatus::Pending));
    assert_eq!(e.backend_state(0), BackendState::Validated);
    assert_eq!(e.backend_state(1), BackendState::Failed);
    assert_eq!(finished(&e.run_stack(None)), RunOutcome::ValidationFailed { backend: 1 });
}

#[test]
fn a_run_in_prod_executes_sdf_in_prod() {
    let d = pipeline(vec![job("raw", &[], "sdf")], vec![dashboard("board", &["raw"])], 0);
    let prod = ToolConfig { path: String::new(), environment: Some("prod".to_string()) };
    let mut e = DeclarativeEngine::new(&d, &prod).unwrap();
    assert_eq!(validated(&e.run_stack(None)), 0);
    assert_eq!(validated(&e.run_stack(Some(CallOutcome::Succeeded))), 1);
    match e.run_stack(Some(CallOutcome::Succeeded)) {
        Action::Execute { entity, command, .. } => {
            assert_eq!(entity, 0);
            assert_eq!(command.program, "sdf");
            assert_eq!(command.args, vec!["run", "-e", "prod", "--show", "all"]);
        }
        other => panic!("unexpected: {:?}", other),
    }
    match e.run_stack(Some(CallOutcome::Succeeded)) {
        Action::Execute { entity, command, .. } => {
            assert_eq!(entity, 1);
            assert_eq!(command.program, "rill");
            assert_eq!(command.args, vec!["start"]);
        }
        other => panic!("unexpected: {:?}", other),
    }
    assert_eq!(finished(&e.run_stack(Some(CallOutcome::Succeeded))), RunOutcome::Completed);
    let places: Vec<&str> = e.backends.iter().map(|b| b.artifact.destination.as_str()).collect();
    assert_eq!(places, vec!["transform/workspace.sdf.yml", "serve/rill.yaml"]);
}

#[test]
fn a_run_without_an_environment_is_remote() {
    let mut d = pipeline(vec![job("raw", &[], "sdf")], Vec::new(), 0);
    d.environment = String::new();
    let mut e = engine(&d);
    assert_eq!(validated(&e.run_stack(None)), 0);
    match e.run_stack(Some(CallOutcome::Succeeded)) {
        Action::Execute { command, .. } => {
            assert_eq!(command.args, vec!["run", "-e", "remote", "--show", "all"]);
        }
        other => panic!("unexpected: {:?}", other),
    }
    d.environment = "staging".to_string();
    let mut e = engine(&d);
    assert_eq!(validated(&e.run_stack(None)), 0);
    match e.run_stack(Some(CallOutcome::Succeeded)) {
        Action::Execute { command, .. } => {
            assert_eq!(command.args, vec!["run", "-e", "staging", "--show", "all"]);
        }
        other => panic!("unexpected: {:?}", other),
    }
}

#[test]
fn no_run_without_a_readable_timeout() {
    let mut d = pipeline(vec![job("raw", &[], "sdf")], Vec::new(), 0);
    d.orchestration.timeout = "1h".to_string();
    match DeclarativeEngine::new(&d, &ToolConfig { path: "ws".to_string(), environment: None }) {
        Err(EngineError::Timeout(e)) => {
            assert_eq!(e.message, "the timeout '1h' is not a whole number of seconds")
        }
        other => panic!("unexpected: {:?}", other.map(|_| ())),
    }
    d.orchestration.timeout = String::new();
    match DeclarativeEngine::new(&d, &ToolConfig { path: "ws".to_string(), environment: None }) {
        Err(EngineError::Timeout(e)) => {
            assert_eq!(e.message, "the timeout '' is not a whole number of seconds")
        }
        other => panic!("unexpected: {:?}", other.map(|_| ())),
    }
    // A faulty structure is reported first.
    d.transformations[0].depends_on.push("ghost".to_string());
    match DeclarativeEngine::new(&d, &ToolConfig { path: "ws".to_string(), environment: None }) {
        Err(EngineError::Structure(_)) => {}
        other => panic!("unexpected: {:?}", other.map(|_| ())),
    }
}

#[test]
fn the_example_stack_runs() {
    let d = ddse::dsl::parse_dsl_expression("anything").unwrap();
    let mut e = DeclarativeEngine::new(&d, &ToolConfig { path: String::new(), environment: None }).unwrap();
    assert_eq!(e.timeout, 3600);
    assert_eq!(validated(&e.run_stack(None)), 0);
    assert_eq!(validated(&e.run_stack(Some(CallOutcome::Succeeded))), 1);
    match e.run_stack(Some(CallOutcome::Succeeded)) {
        Action::Execute { command, .. } => {
            assert_eq!(command.args, vec!["run", "-e", "remote", "--show", "all"]);
        }
        other => panic!("unexpected: {:?}", other),
    }
}
