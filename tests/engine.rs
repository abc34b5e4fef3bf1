use missiongraph::attempt::{
    attempt_report, report_from_output, backoff_factor, decimal_text, default_provenance, finalize_run_task_report, format_seconds,
    merge_error, should_retry, AttemptOutcome, RetryRun, TaskPolicy, TaskReport, WORKER_EXIT_NONZERO,
    WORKER_OUTPUT_JSON_INVALID, WORKER_TIMEOUT,
};
use missiongraph::executor::{precheck_task, sorted_unique, PlanRun};
use missiongraph::expr::{compare_values, eval_boolean_expression, find_binary_operator, resolve_operand, resolve_path};
use missiongraph::json::{json_equal, lookup_entry, Json, JsonNumber};
use missiongraph::report::{evaluate_constraints, summarize_verify, VerifyReport};
use missiongraph::strings::trim_text;
use missiongraph::{Ast, AstConstraint, AstTask, AstVerify};

fn s(x: &str) -> String {
    x.to_string()
}

fn obj(entries: Vec<(&str, Json)>) -> Json {
    Json::Object(entries.into_iter().map(|(k, v)| (k.to_string(), v)).collect())
}

fn num(n: u64) -> Json {
    Json::Number(JsonNumber::PosInt(n))
}

fn ctx(entries: Vec<(&str, Json)>) -> Vec<(String, Json)> {
    entries.into_iter().map(|(k, v)| (k.to_string(), v)).collect()
}

fn task(name: &str, after: &[&str]) -> AstTask {
    AstTask {
        name: s(name),
        worker: s("workers/w.py"),
        after: after.iter().map(|x| s(x)).collect(),
        timeout_seconds: None,
        retries: None,
        retry_if: None,
        backoff_seconds: None,
        jitter_seconds: None,
    }
}

fn policy(retries: u32, retry_if: &str) -> TaskPolicy {
    TaskPolicy {
        timeout_seconds: None,
        retries,
        retry_if: s(retry_if),
        backoff_seconds: None,
        jitter_seconds: None,
    }
}

fn exited(code: Option<i32>, timed_out: bool, stdout: &str) -> AttemptOutcome {
    AttemptOutcome::Exited { exit_code: code, timed_out, stdout: s(stdout), stderr: String::new() }
}

fn report_for(p: &TaskPolicy, attempt: u32, max: u32, outcome: AttemptOutcome) -> TaskReport {
    attempt_report("t", "w.py", "/base/w.py", p, attempt, max, s("1.000"), s("2.000"), outcome)
}

fn text_of(j: &Json) -> Option<&str> {
    match j {
        Json::Str(x) => Some(x.as_str()),
        _ => None,
    }
}

// ----- expressions -----

#[test]
fn finds_first_operator_outside_strings() {
    assert_eq!(find_binary_operator("a >= 3"), Some((2, ">=")));
    assert_eq!(find_binary_operator("\"x<y\" == b"), Some((6, "==")));
    assert_eq!(find_binary_operator("\"a\\\"<\" != c"), Some((7, "!=")));
    assert_eq!(find_binary_operator("a < b"), Some((2, "<")));
    assert_eq!(find_binary_operator("flag"), None);
}

#[test]
fn resolves_dotted_paths() {
    let c = ctx(vec![("tests", obj(vec![("passed", num(5)), ("failed", num(0))]))]);
    assert!(json_equal(&resolve_path(&c, "tests.passed").unwrap(), &num(5)));
    assert!(resolve_path(&c, "tests.missing").is_none());
    assert!(resolve_path(&c, "tests.passed.deeper").is_none());
    assert!(resolve_path(&c, "nothing").is_none());
}

#[test]
fn operand_prefers_json_literal() {
    let c = ctx(vec![("5", s_json("shadow"))]);
    assert!(json_equal(&resolve_operand("5", &c).ok().unwrap(), &num(5)));
    assert!(json_equal(&resolve_operand("\"hi\"", &c).ok().unwrap(), &s_json("hi")));
    assert_eq!(resolve_operand("missing.key", &c).err().unwrap(), "unresolved identifier: missing.key");
}

fn s_json(x: &str) -> Json {
    Json::Str(s(x))
}

#[test]
fn compares_numbers_strings_and_structures() {
    assert_eq!(compare_values(&num(5), &num(0), ">").unwrap(), true);
    let half = resolve_operand("1.5", &vec![]).ok().unwrap();
    assert_eq!(compare_values(&half, &num(2), "<").unwrap(), true);
    assert_eq!(compare_values(&half, &num(1), "<=").unwrap(), false);
    assert_eq!(compare_values(&s_json("abc"), &s_json("abd"), "<").unwrap(), true);
    assert_eq!(compare_values(&s_json("b"), &s_json("abc"), ">=").unwrap(), true);
    let a = obj(vec![("x", num(1)), ("y", num(2))]);
    let b = obj(vec![("y", num(2)), ("x", num(1))]);
    assert_eq!(compare_values(&a, &b, "==").unwrap(), true);
    assert_eq!(compare_values(&a, &num(1), "!=").unwrap(), true);
    assert_eq!(
        compare_values(&Json::Bool(true), &num(1), "<").unwrap_err(),
        "unsupported comparison: bool < number"
    );
    assert_eq!(compare_values(&num(1), &num(1), "=~").unwrap_err(), "unsupported operator: =~");
}

#[test]
fn integer_and_float_are_not_equal_but_order_together() {
    let one_float = resolve_operand("1.0", &vec![]).ok().unwrap();
    assert_eq!(compare_values(&num(1), &one_float, "==").unwrap(), false);
    assert_eq!(compare_values(&num(1), &one_float, ">=").unwrap(), true);
    let zero = resolve_operand("0.0", &vec![]).ok().unwrap();
    let neg_zero = resolve_operand("-0.0", &vec![]).ok().unwrap();
    assert_eq!(compare_values(&zero, &neg_zero, "==").unwrap(), true);
}

#[test]
fn evaluates_verify_expressions() {
    let c = ctx(vec![("tests", obj(vec![("passed", num(5))])), ("ready", Json::Bool(true))]);
    assert_eq!(eval_boolean_expression("  tests.passed > 0 ", &c).unwrap(), true);
    assert_eq!(eval_boolean_expression("ready", &c).unwrap(), true);
    assert_eq!(eval_boolean_expression("   ", &c).unwrap_err(), "empty expression");
    assert_eq!(eval_boolean_expression("== 3", &c).unwrap_err(), "invalid binary expression: == 3");
    assert_eq!(
        eval_boolean_expression("tests.passed", &c).unwrap_err(),
        "expression did not resolve to bool: tests.passed"
    );
    assert_eq!(eval_boolean_expression("nope > 1", &c).unwrap_err(), "unresolved identifier: nope");
}

#[test]
fn trims_unicode_white_space() {
    assert_eq!(trim_text("\u{2003} a b \t\n"), "a b");
    assert_eq!(trim_text("   "), "");
}

// ----- reports -----

#[test]
fn constraint_reports_cover_each_outcome() {
    let vars = ctx(vec![("tests", obj(vec![("failed", num(0)), ("name", s_json("x"))]))]);
    let cs = vec![
        AstConstraint { key: s("tests.failed"), op: s("=="), value: num(0), line: 3 },
        AstConstraint { key: s("tests.unknown"), op: s("=="), value: num(0), line: 4 },
        AstConstraint { key: s("tests.name"), op: s("<"), value: num(2), line: 5 },
        AstConstraint { key: s("tests.failed"), op: s(">"), value: num(1), line: 6 },
    ];
    let r = evaluate_constraints(&cs, &vars);
    assert_eq!(r[0].expression, "tests.failed == 0");
    assert_eq!(r[0].passed, Some(true));
    assert_eq!(r[1].passed, None);
    assert_eq!(r[1].reason.as_deref(), Some("unresolved key: tests.unknown"));
    assert_eq!(r[2].passed, Some(false));
    assert_eq!(r[2].reason.as_deref(), Some("unsupported comparison: string < number"));
    assert_eq!(r[3].passed, Some(false));
    assert_eq!(r[3].reason, None);
    assert_eq!(r[3].line, 6);
}

#[test]
fn constraint_expression_writes_value_as_json() {
    let vars = ctx(vec![]);
    let cs = vec![AstConstraint { key: s("k"), op: s("=="), value: s_json("a\"b"), line: 1 }];
    let r = evaluate_constraints(&cs, &vars);
    assert_eq!(r[0].expression, "k == \"a\\\"b\"");
}

#[test]
fn summary_counts_failures() {
    let reports = vec![
        VerifyReport { line: 1, expression: s("a"), passed: true, reason: None },
        VerifyReport { line: 2, expression: s("b"), passed: false, reason: Some(s("why")) },
        VerifyReport { line: 3, expression: s("c"), passed: false, reason: None },
    ];
    let sum = summarize_verify(&reports);
    assert_eq!((sum.total, sum.passed, sum.failed), (3, 1, 2));
    assert_eq!(sum.failures[0].line, 2);
    assert_eq!(sum.failures[0].reason.as_deref(), Some("why"));
    assert_eq!(sum.failures[1].expression, "c");
}

// ----- attempts -----

#[test]
fn merge_error_appends_to_non_blank() {
    assert_eq!(merge_error(Some("boom"), "exit 3"), "boom; exit 3");
    assert_eq!(merge_error(Some("  "), "exit 3"), "exit 3");
    assert_eq!(merge_error(None, "exit 3"), "exit 3");
}

#[test]
fn decimal_and_seconds_text() {
    assert_eq!(decimal_text(-42), "-42");
    assert_eq!(decimal_text(0), "0");
    assert_eq!(decimal_text(i32::MIN), "-2147483648");
    assert_eq!(format_seconds("0.10"), "0.1");
    assert_eq!(format_seconds("1.0"), "1");
    assert_eq!(format_seconds("100"), "100");
}

#[test]
fn finalization_downgrades_ok_with_nonzero_exit() {
    let r = report_for(&policy(0, "error"), 1, 1, exited(Some(3), false, "{\"status\":\"ok\",\"error\":\"partial\"}"));
    assert_eq!(r.status.as_deref(), Some("error"));
    assert_eq!(r.error_code.as_deref(), Some(WORKER_EXIT_NONZERO));
    assert_eq!(r.error.as_deref(), Some("partial; worker exited with return code 3"));
    assert!(!r.ok);
}

#[test]
fn finalize_fills_defaults() {
    let r = finalize_run_task_report(TaskReport {
        ok: false,
        task: s("t"),
        worker: None,
        worker_path: None,
        exit_code: Some(0),
        status: None,
        confidence: None,
        output: None,
        error_code: None,
        provenance: None,
        error: None,
        started_at: None,
        finished_at: None,
        stderr: None,
    });
    assert!(r.ok);
    assert_eq!(r.status.as_deref(), Some("ok"));
    assert!(matches!(r.confidence, Some(JsonNumber::Float(ref t)) if t == "0.5"));
}

#[test]
fn empty_stdout_with_zero_exit_is_ok() {
    let r = report_for(&policy(0, "error"), 1, 1, exited(Some(0), false, "  \n"));
    assert!(r.ok);
    assert!(matches!(r.confidence, Some(JsonNumber::Float(ref t)) if t == "0.5"));
}

#[test]
fn empty_stdout_with_nonzero_exit_is_exit_error() {
    let r = report_for(&policy(0, "error"), 1, 1, exited(Some(2), false, ""));
    assert!(!r.ok);
    assert_eq!(r.error_code.as_deref(), Some(WORKER_EXIT_NONZERO));
    assert_eq!(r.error.as_deref(), Some("worker exited with return code 2"));
}

#[test]
fn invalid_and_non_object_stdout_are_rejected() {
    let r = report_for(&policy(0, "error"), 1, 1, exited(Some(0), false, "not json"));
    assert_eq!(r.error_code.as_deref(), Some(WORKER_OUTPUT_JSON_INVALID));
    assert!(r.error.as_deref().unwrap().starts_with("worker output is not valid JSON: "));
    let r = report_for(&policy(0, "error"), 1, 1, exited(Some(0), false, "[1,2]"));
    assert_eq!(r.error.as_deref(), Some("worker output must be a JSON object"));
}

#[test]
fn worker_object_fields_are_read() {
    let out = "{\"status\":\"ok\",\"confidence\":1,\"output\":7,\"provenance\":{\"model\":\"m\",\"worker\":\"fake\"}}";
    let r = report_for(&policy(0, "error"), 1, 1, exited(Some(0), false, out));
    assert!(r.ok);
    assert!(matches!(r.confidence, Some(JsonNumber::Float(ref t)) if t == "1.0"));
    let output = r.output.unwrap();
    assert!(json_equal(&output, &obj(vec![("value", num(7))])));
    match r.provenance.unwrap() {
        Json::Object(es) => {
            assert_eq!(text_of(lookup_entry(&es, "model").unwrap()), Some("m"));
            assert_eq!(text_of(lookup_entry(&es, "worker").unwrap()), Some("/base/w.py"));
            assert_eq!(text_of(lookup_entry(&es, "command").unwrap()), Some("python3 /base/w.py"));
        },
        _ => panic!("provenance must be an object"),
    }
}

#[test]
fn timeout_wins_over_stdout() {
    let mut p = policy(1, "timeout");
    p.timeout_seconds = Some(JsonNumber::Float(s("0.1")));
    let r = report_for(&p, 1, 2, exited(Some(0), true, "{\"status\":\"ok\"}"));
    assert_eq!(r.error_code.as_deref(), Some(WORKER_TIMEOUT));
    assert_eq!(r.error.as_deref(), Some("worker timed out after 0.1s"));
    assert_eq!(r.exit_code, None);
    assert!(!r.ok);
}

#[test]
fn engine_failures_are_runtime_errors() {
    let r = report_for(&policy(0, "error"), 1, 1, AttemptOutcome::LaunchFailed(s("no python3")));
    assert_eq!(r.error_code.as_deref(), Some("RUNTIME_EXECUTION_FAILURE"));
    assert_eq!(r.error.as_deref(), Some("failed to launch worker: no python3"));
    assert!(matches!(r.confidence, Some(JsonNumber::Float(ref t)) if t == "0.0"));
}

#[test]
fn provenance_lists_policy_values() {
    let p = TaskPolicy {
        timeout_seconds: Some(JsonNumber::Float(s("2.5"))),
        retries: 2,
        retry_if: s("worker_failure"),
        backoff_seconds: Some(JsonNumber::Float(s("0.0"))),
        jitter_seconds: Some(JsonNumber::Float(s("0.5"))),
    };
    match default_provenance("/w.py", Some(-1), "w.py", &p, 2, 3, None) {
        Json::Object(es) => {
            let keys: Vec<&str> = es.iter().map(|(k, _)| k.as_str()).collect();
            assert_eq!(
                keys,
                vec!["worker", "command", "worker_ref", "return_code", "attempt", "max_attempts", "timeout_seconds",
                    "retries", "retry_if", "jitter_seconds"]
            );
            assert!(matches!(lookup_entry(&es, "return_code"), Some(Json::Number(JsonNumber::NegInt(-1)))));
        },
        _ => panic!("provenance must be an object"),
    }
}

#[test]
fn retry_predicate_follows_policy() {
    let failed = |code: &str| {
        let mut r = report_for(&policy(0, "error"), 1, 1, exited(Some(1), false, ""));
        r.error_code = Some(s(code));
        r
    };
    assert!(!should_retry(&policy(0, "error"), &failed(WORKER_TIMEOUT)));
    assert!(should_retry(&policy(1, "error"), &failed("CUSTOM")));
    assert!(should_retry(&policy(1, "timeout"), &failed(WORKER_TIMEOUT)));
    assert!(!should_retry(&policy(1, "timeout"), &failed(WORKER_EXIT_NONZERO)));
    assert!(should_retry(&policy(1, "worker_failure"), &failed(WORKER_OUTPUT_JSON_INVALID)));
    assert!(!should_retry(&policy(1, "worker_failure"), &failed("CUSTOM")));
    assert!(!should_retry(&policy(1, "sometimes"), &failed(WORKER_TIMEOUT)));
}

#[test]
fn backoff_doubles_and_saturates() {
    assert_eq!(backoff_factor(1), 1);
    assert_eq!(backoff_factor(3), 4);
    assert_eq!(backoff_factor(40), u32::MAX);
}

#[test]
fn timeout_retry_makes_two_attempts() {
    let mut p = policy(1, "timeout");
    p.timeout_seconds = Some(JsonNumber::Float(s("0.1")));
    let mut run = RetryRun::new(p);
    let mut made = 0;
    while let Some(attempt) = run.next_attempt() {
        made += 1;
        let r = report_for(&run.policy, attempt, run.max_attempts, exited(None, true, ""));
        run.record(r);
    }
    assert_eq!(made, 2);
    let fin = run.finish();
    assert_eq!(fin.error_code.as_deref(), Some(WORKER_TIMEOUT));
    match fin.provenance.unwrap() {
        Json::Object(es) => match lookup_entry(&es, "attempts") {
            Some(Json::Array(a)) => assert_eq!(a.len(), 2),
            _ => panic!("attempts must be listed"),
        },
        _ => panic!("provenance must be an object"),
    }
}

#[test]
fn ok_attempt_stops_retries() {
    let mut run = RetryRun::new(policy(3, "error"));
    let a = run.next_attempt().unwrap();
    let r = report_for(&run.policy, a, run.max_attempts, exited(Some(0), false, ""));
    run.record(r);
    assert_eq!(run.next_attempt(), None);
    assert_eq!(run.attempts, 1);
    assert!(run.finish().ok);
}

#[test]
fn prechecks_reject_before_spawning() {
    let t = task("a", &["b"]);
    let r = precheck_task(&t, "/x/w.py", true, false).unwrap();
    assert_eq!(
        r.error.as_deref(),
        Some("run-task prototype only supports dependency-free tasks; 'a' depends on: b")
    );
    let mut blank = task("a", &[]);
    blank.worker = s("  ");
    assert_eq!(
        precheck_task(&blank, "/x", true, false).unwrap().error.as_deref(),
        Some("task 'a' has empty worker path")
    );
    let r = precheck_task(&task("a", &[]), "/x/w.py", false, true).unwrap();
    assert_eq!(r.error.as_deref(), Some("worker path does not exist: /x/w.py"));
    assert_eq!(r.worker_path.as_deref(), Some("/x/w.py"));
    assert!(precheck_task(&task("a", &["b"]), "/x/w.py", true, true).is_none());
}

#[test]
fn capabilities_are_sorted_and_unique() {
    let caps = vec![s("net"), s("fs"), s("net"), s("cpu")];
    assert_eq!(sorted_unique(&caps), vec![s("cpu"), s("fs"), s("net")]);
}

// ----- plan runs -----

fn hello_plan() -> Ast {
    Ast {
        ast_version: s("1.1"),
        goal: s("hello"),
        tasks: vec![task("a", &[]), task("b", &["a"])],
        constraints: vec![AstConstraint { key: s("tests.failed"), op: s("=="), value: num(0), line: 7 }],
        verify: vec![AstVerify { expression: s("tests.passed > 0"), line: 8 }],
    }
}

fn run_with(ast: &Ast, stdouts: &[(i32, &str)]) -> missiongraph::Trace {
    let mut run = PlanRun::start(ast).ok().unwrap();
    let mut k = 0;
    while let Some(i) = run.next_task(ast) {
        let t = &ast.tasks[i];
        let payload = missiongraph::executor::build_payload(ast, t, &run.task_values, &run.variables);
        assert!(matches!(payload, Json::Object(_)));
        let p = TaskPolicy::from_task(t);
        let (code, out) = stdouts[k];
        k += 1;
        let r = attempt_report(&t.name, &t.worker, "/w.py", &p, 1, 1, s("1.000"), s("2.000"), exited(Some(code), false, out));
        run.record(r, "3.000");
    }
    run.finish(ast, s("0.000"), s("9.000"), &vec![s("b"), s("a")])
}

#[test]
fn constraint_and_verify_pass_on_promoted_variables() {
    let ast = hello_plan();
    let trace = run_with(&ast, &[(0, "{\"output\":{\"tests\":{\"passed\":5,\"failed\":0}}}"), (0, "")]);
    assert_eq!(trace.status, "ok");
    assert_eq!(trace.constraints[0].passed, Some(true));
    assert_eq!(trace.verify[0].passed, true);
    assert_eq!(
        (trace.verify_summary.total, trace.verify_summary.passed, trace.verify_summary.failed),
        (1, 1, 0)
    );
    assert!(trace.verify_summary.failures.is_empty());
    assert_eq!(trace.execution.mode, "sequential");
    assert_eq!(trace.execution.max_parallel, 1);
    assert_eq!(trace.capabilities, vec![s("a"), s("b")]);
}

#[test]
fn failure_halts_the_run() {
    let ast = hello_plan();
    let trace = run_with(&ast, &[(1, "")]);
    assert_eq!(trace.tasks.len(), 1);
    assert_eq!(trace.task_order, vec![s("a"), s("b")]);
    assert_eq!(trace.status, "failed");
    assert_eq!(trace.constraints[0].passed, None);
}

#[test]
fn task_names_are_never_promoted() {
    let ast = hello_plan();
    let mut run = PlanRun::start(&ast).ok().unwrap();
    let p = TaskPolicy::from_task(&ast.tasks[0]);
    let out = "{\"output\":{\"a\":1,\"b\":2,\"c\":3}}";
    let r = attempt_report("a", "w.py", "/w.py", &p, 1, 1, s("1"), s("2"), exited(Some(0), false, out));
    run.record(r, "3");
    assert!(lookup_entry(&run.variables, "a").is_none());
    assert!(json_equal(lookup_entry(&run.variables, "b").unwrap(), &num(2)));
    assert!(json_equal(lookup_entry(&run.variables, "c").unwrap(), &num(3)));
    match lookup_entry(&run.task_values, "a") {
        Some(Json::Object(es)) => assert_eq!(text_of(lookup_entry(es, "status").unwrap()), Some("ok")),
        _ => panic!("task value must be an object"),
    }
}

#[test]
fn output_classification_takes_parse_result() {
    let base = |code: i32| TaskReport {
        ok: false,
        task: s("t"),
        worker: Some(s("w.py")),
        worker_path: Some(s("/w.py")),
        exit_code: Some(code),
        status: None,
        confidence: None,
        output: None,
        error_code: None,
        provenance: None,
        error: None,
        started_at: Some(s("1")),
        finished_at: Some(s("2")),
        stderr: None,
    };
    let p = policy(0, "error");
    let r = report_from_output(base(0), Err(s("expected value")), "/w.py", "w.py", &p, 1, 1);
    assert_eq!(r.error.as_deref(), Some("worker output is not valid JSON: expected value"));
    assert_eq!(r.error_code.as_deref(), Some(WORKER_OUTPUT_JSON_INVALID));
    let r = report_from_output(base(0), Ok(Json::Array(vec![])), "/w.py", "w.py", &p, 1, 1);
    assert_eq!(r.error.as_deref(), Some("worker output must be a JSON object"));
    let out = obj(vec![("status", s_json("ok")), ("error", s_json("note"))]);
    let r = report_from_output(base(4), Ok(out), "/w.py", "w.py", &p, 1, 1);
    assert_eq!(r.status.as_deref(), Some("error"));
    assert_eq!(r.error.as_deref(), Some("note; worker exited with return code 4"));
    let r = report_from_output(base(0), Ok(obj(vec![("status", s_json("skipped"))])), "/w.py", "w.py", &p, 1, 1);
    assert_eq!(r.status.as_deref(), Some("skipped"));
    assert!(!r.ok);
}

#[test]
fn downgrade_keeps_a_worker_error_code() {
    let out = "{\"status\":\"ok\",\"error_code\":\"CUSTOM\"}";
    let r = report_for(&policy(0, "error"), 1, 1, exited(Some(3), false, out));
    assert_eq!(r.status.as_deref(), Some("error"));
    assert_eq!(r.error_code.as_deref(), Some("CUSTOM"));
    assert_eq!(r.error.as_deref(), Some("worker exited with return code 3"));
    assert!(!r.ok);
}

#[test]
fn skeleton_summary_is_zero() {
    let ast = Ast { ast_version: s("1.1"), goal: s("g"), tasks: vec![task("a", &[])], constraints: vec![], verify: vec![] };
    let t = missiongraph::build_trace_skeleton(&ast);
    assert_eq!((t.verify_summary.total, t.verify_summary.passed, t.verify_summary.failed), (0, 0, 0));
    assert_eq!(t.started_at, "<ts>");
    assert_eq!(t.finished_at, "<ts>");
}

#[test]
fn positive_value_in_negative_variant_compares_as_binary64() {
    let big = Json::Number(JsonNumber::NegInt(9007199254740993));
    let two53 = Json::Number(JsonNumber::PosInt(9007199254740992));
    assert_eq!(compare_values(&big, &two53, "<").unwrap(), false);
    assert_eq!(compare_values(&big, &two53, ">=").unwrap(), true);
    let small = Json::Number(JsonNumber::NegInt(3));
    assert_eq!(compare_values(&small, &num(4), "<").unwrap(), true);
}
