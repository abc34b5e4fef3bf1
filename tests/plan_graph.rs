use missiongraph::executor::PlanRun;
use missiongraph::graph::build_dependency_levels;
use missiongraph::{build_trace_skeleton, validate_ast, Ast, AstTask, TRACE_VERSION};

fn task(name: &str, after: &[&str]) -> AstTask {
    AstTask {
        name: name.to_string(),
        worker: String::new(),
        after: after.iter().map(|s| s.to_string()).collect(),
        timeout_seconds: None,
        retries: None,
        retry_if: None,
        backoff_seconds: None,
        jitter_seconds: None,
    }
}

fn plan(version: &str, goal: &str, tasks: Vec<AstTask>) -> Ast {
    Ast {
        ast_version: version.to_string(),
        goal: goal.to_string(),
        tasks,
        constraints: vec![],
        verify: vec![],
    }
}

#[test]
fn rejects_unsupported_ast_version() {
    let ast = plan("9.9", "x", vec![]);
    let err = validate_ast(&ast).expect_err("version mismatch should fail");
    assert!(err.contains("unsupported ast_version"));
}

#[test]
fn emits_trace_skeleton_with_contract_version() {
    let ast = plan("1.1", "hello", vec![task("a", &[]), task("b", &["a"])]);
    validate_ast(&ast).expect("ast should validate");
    let trace = build_trace_skeleton(&ast);
    assert_eq!(trace.trace_version, TRACE_VERSION);
    assert_eq!(trace.goal, "hello");
    assert_eq!(trace.execution.mode, "sequential");
    assert_eq!(trace.execution.max_parallel, 1);
    assert_eq!(
        trace.execution.levels,
        vec![vec!["a".to_string()], vec!["b".to_string()]]
    );
    assert_eq!(trace.task_order, vec!["a".to_string(), "b".to_string()]);
}

#[test]
fn rejects_cycle_in_plan() {
    let ast = plan("1.1", "cycle", vec![task("a", &["b"]), task("b", &["a"])]);
    let err = validate_ast(&ast).expect_err("cyclic plan should fail");
    assert!(err.contains("cycle detected in plan"));
}

#[test]
fn emits_parallel_levels_for_fanout_plan() {
    let ast = plan(
        "1.1",
        "fanout",
        vec![
            task("lint", &[]),
            task("test_suite", &[]),
            task("deploy_prod", &["lint", "test_suite"]),
        ],
    );
    validate_ast(&ast).expect("ast should validate");
    let trace = build_trace_skeleton(&ast);
    assert_eq!(trace.execution.mode, "parallel");
    assert_eq!(trace.execution.max_parallel, 2);
    assert_eq!(
        trace.execution.levels,
        vec![
            vec!["lint".to_string(), "test_suite".to_string()],
            vec!["deploy_prod".to_string()]
        ]
    );
    assert_eq!(
        trace.task_order,
        vec![
            "lint".to_string(),
            "test_suite".to_string(),
            "deploy_prod".to_string()
        ]
    );
}

#[test]
fn version_mismatch_message_is_exact() {
    let ast = plan("9.9", "x", vec![task("a", &[])]);
    assert_eq!(
        validate_ast(&ast).unwrap_err(),
        "unsupported ast_version '9.9', expected '1.1'"
    );
}

#[test]
fn cycle_message_names_both_tasks() {
    let ast = plan("1.1", "cycle", vec![task("a", &["b"]), task("b", &["a"])]);
    assert_eq!(validate_ast(&ast).unwrap_err(), "cycle detected in plan: a, b");
}

#[test]
fn cycle_message_lists_only_unresolved_tasks() {
    let ast = plan(
        "1.1",
        "g",
        vec![task("root", &[]), task("x", &["root", "y"]), task("y", &["x"]), task("z", &["root"])],
    );
    assert_eq!(
        build_dependency_levels(&ast).unwrap_err(),
        "cycle detected in plan: x, y"
    );
}

#[test]
fn self_dependency_is_a_cycle() {
    let ast = plan("1.1", "g", vec![task("a", &["a"])]);
    assert_eq!(validate_ast(&ast).unwrap_err(), "cycle detected in plan: a");
}

#[test]
fn duplicate_name_is_rejected_first() {
    let ast = plan("1.1", "g", vec![task("a", &[]), task("b", &["zzz"]), task("a", &[])]);
    assert_eq!(validate_ast(&ast).unwrap_err(), "duplicate task name 'a'");
}

#[test]
fn unknown_dependency_is_reported() {
    let ast = plan("1.1", "g", vec![task("a", &[]), task("b", &["a", "ghost"]), task("c", &["nope"])]);
    assert_eq!(
        validate_ast(&ast).unwrap_err(),
        "task 'b' depends on unknown task 'ghost'"
    );
}

#[test]
fn empty_plan_has_no_levels_and_width_one() {
    let ast = plan("1.1", "nothing", vec![]);
    assert_eq!(build_dependency_levels(&ast).unwrap(), Vec::<Vec<String>>::new());
    let trace = build_trace_skeleton(&ast);
    assert_eq!(trace.execution.max_parallel, 1);
    assert_eq!(trace.execution.mode, "sequential");
    assert!(trace.task_order.is_empty());
}

#[test]
fn siblings_follow_parent_order_then_declaration_order() {
    // c completes under b (its last parent in level order), d and e under a.
    let ast = plan(
        "1.1",
        "g",
        vec![
            task("a", &[]),
            task("b", &[]),
            task("c", &["b", "a"]),
            task("d", &["a"]),
            task("e", &["a", "a"]),
            task("f", &["c", "d"]),
        ],
    );
    let levels = build_dependency_levels(&ast).unwrap();
    assert_eq!(
        levels,
        vec![
            vec!["a".to_string(), "b".to_string()],
            vec!["d".to_string(), "e".to_string(), "c".to_string()],
            vec!["f".to_string()],
        ]
    );
}

#[test]
fn every_dependency_precedes_its_task_in_order() {
    let ast = plan(
        "1.1",
        "g",
        vec![task("deploy", &["build", "test"]), task("test", &["build"]), task("build", &[]), task("docs", &[])],
    );
    let trace = build_trace_skeleton(&ast);
    let pos = |n: &str| trace.task_order.iter().position(|x| x == n).unwrap();
    for t in &ast.tasks {
        for d in &t.after {
            assert!(pos(d) < pos(&t.name));
        }
    }
    assert_eq!(trace.task_order.len(), 4);
}

#[test]
fn skeleton_falls_back_to_one_level_when_graph_is_ill_formed() {
    let ast = plan("1.1", "g", vec![task("a", &["b"]), task("b", &["a"])]);
    let trace = build_trace_skeleton(&ast);
    assert_eq!(trace.execution.levels, vec![vec!["a".to_string(), "b".to_string()]]);
    assert_eq!(trace.execution.mode, "parallel");
    assert_eq!(trace.execution.max_parallel, 2);
    assert_eq!(trace.status, "failed");
}

#[test]
fn skeleton_order_is_the_order_the_run_uses() {
    let ast = plan(
        "1.1",
        "fanout",
        vec![task("lint", &[]), task("test_suite", &[]), task("deploy_prod", &["lint", "test_suite"])],
    );
    let trace = build_trace_skeleton(&ast);
    let run = PlanRun::start(&ast).ok().unwrap();
    assert_eq!(run.task_order, trace.task_order);
    assert_eq!(run.levels, trace.execution.levels);
    let again = build_trace_skeleton(&ast);
    assert_eq!(again.task_order, trace.task_order);
}

#[test]
fn run_does_not_start_on_invalid_plan() {
    let ast = plan("2.0", "g", vec![]);
    assert_eq!(
        PlanRun::start(&ast).err().unwrap(),
        "unsupported ast_version '2.0', expected '1.1'"
    );
}
