//! The plan executor: which task runs next, the payload it receives, how its
//! result feeds the shared context, when the run halts, and the final trace.
//! The caller performs each attempt and hands back the report.

use crate::attempt::{opt_view, ReportView, TaskReport, RUNTIME_EXECUTION_FAILURE};
use crate::expr::{compare_text, text_order};
use crate::graph::{
    acyclic, build_dependency_levels, deps_known, flatten_levels, layering_outcome, levels_view, names_unique, ordered_levels,
    valid_layering, lemma_layering_is_unique, lemma_dependencies_come_first,
};
use crate::json::{
    empty_object, entries_after_set, entries_view, entry_lookup, lemma_lookup_after_set, lemma_object_view,
    keys_distinct, lookup_entry, set_entry, Json, JsonNumber, JsonView, NumberView, Order,
};
use crate::plan::{Ast, AstTask};
use crate::report::{evaluate_constraints, evaluate_verify, summarize_verify, ConstraintReport};
use crate::strings::{concat_str, join_strings, joined, str_eq, trim_text, trimmed};
use crate::trace::{
    flatten_names, names_view, skeleton_levels, validate_ast, validation_outcome, ExecutionInfo, Trace, TraceTask,
};
use crate::TRACE_VERSION;
use vstd::prelude::*;

verus! {

// ---------------------------------------------------------------------------
// Checks before any attempt.

pub open spec fn failed_check_view(task: AstTask, worker_path: Option<Seq<char>>, message: Seq<char>) -> ReportView {
    ReportView {
        ok: false,
        task: task.name@,
        worker: Some(task.worker@),
        worker_path: worker_path,
        exit_code: None,
        status: None,
        confidence: None,
        output: None,
        error_code: Some(RUNTIME_EXECUTION_FAILURE@),
        provenance: None,
        error: Some(message),
        started_at: None,
        finished_at: None,
        stderr: None,
    }
}

/// The engine's own checks before a task's worker is started: dependencies
/// (unless allowed), a non-blank worker reference, and an existing worker path.
pub open spec fn precheck_view(task: AstTask, worker_path: Seq<char>, path_exists: bool, allow_deps: bool) -> Option<ReportView> {
    if !allow_deps && task.after.len() > 0 {
        Some(failed_check_view(task, None,
            "run-task prototype only supports dependency-free tasks; '"@ + task.name@ + "' depends on: "@
                + joined(task.after@.map_values(|s: String| s@), ", "@)))
    } else if trimmed(task.worker@).len() == 0 {
        Some(failed_check_view(task, None, "task '"@ + task.name@ + "' has empty worker path"@))
    } else if !path_exists {
        Some(failed_check_view(task, Some(worker_path), "worker path does not exist: "@ + worker_path))
    } else {
        None
    }
}

pub open spec fn report_opt_view(r: Option<TaskReport>) -> Option<ReportView> {
    match r {
        Some(x) => Some(x@),
        None => None,
    }
}

fn failed_check(task: &AstTask, worker_path: Option<String>, message: String) -> (r: TaskReport)
    ensures
        r@ == failed_check_view(*task, opt_view(worker_path), message@),
{
    TaskReport {
        ok: false,
        task: task.name.clone(),
        worker: Some(task.worker.clone()),
        worker_path,
        exit_code: None,
        status: None,
        confidence: None,
        output: None,
        error_code: Some(String::from_str(RUNTIME_EXECUTION_FAILURE)),
        provenance: None,
        error: Some(message),
        started_at: None,
        finished_at: None,
        stderr: None,
    }
}

/// The report of a failed check before the worker is started, if any.
pub fn precheck_task(task: &AstTask, worker_path: &str, path_exists: bool, allow_deps: bool) -> (r: Option<TaskReport>)
    ensures
        report_opt_view(r) == precheck_view(*task, worker_path@, path_exists, allow_deps),
{
    if !allow_deps && task.after.len() > 0 {
        let a = concat_str("run-task prototype only supports dependency-free tasks; '", task.name.as_str());
        let b = concat_str(a.as_str(), "' depends on: ");
        let deps = join_strings(&task.after, ", ");
        let m = concat_str(b.as_str(), deps.as_str());
        return Some(failed_check(task, None, m));
    }
    if trim_text(task.worker.as_str()).unicode_len() == 0 {
        let a = concat_str("task '", task.name.as_str());
        let m = concat_str(a.as_str(), "' has empty worker path");
        return Some(failed_check(task, None, m));
    }
    if !path_exists {
        let m = concat_str("worker path does not exist: ", worker_path);
        return Some(failed_check(task, Some(String::from_str(worker_path)), m));
    }
    None
}

// ---------------------------------------------------------------------------
// Trace records.

pub open spec fn str_or(o: Option<Seq<char>>, d: Seq<char>) -> Seq<char> {
    match o {
        Some(s) => s,
        None => d,
    }
}

/// A trace record's view: (task, worker, status, confidence, output,
/// error_code, error, started_at, finished_at, provenance, stderr).
pub open spec fn trace_task_fields(t: TraceTask) -> (Seq<char>, Seq<char>, Seq<char>, NumberView, JsonView, Option<Seq<char>>, Option<Seq<char>>, Seq<char>, Seq<char>, JsonView, Option<Seq<char>>) {
    (t.task@, t.worker@, t.status@, t.confidence@, t.output@, opt_view(t.error_code), opt_view(t.error), t.started_at@, t.finished_at@, t.provenance@, opt_view(t.stderr))
}

/// A report as it stands in the trace: missing fields take their defaults
/// (no worker, status `error`, confidence 0, empty output and provenance, the
/// current time).
pub open spec fn trace_record(r: ReportView, now: Seq<char>) -> (Seq<char>, Seq<char>, Seq<char>, NumberView, JsonView, Option<Seq<char>>, Option<Seq<char>>, Seq<char>, Seq<char>, JsonView, Option<Seq<char>>) {
    (
        r.task,
        str_or(r.worker, Seq::empty()),
        str_or(r.status, "error"@),
        match r.confidence { Some(c) => c, None => NumberView::Float("0.0"@) },
        match r.output { Some(o) => o, None => JsonView::Object(Seq::empty()) },
        r.error_code,
        r.error,
        str_or(r.started_at, now),
        str_or(r.finished_at, now),
        match r.provenance { Some(p) => p, None => JsonView::Object(Seq::empty()) },
        r.stderr,
    )
}

fn text_or(o: Option<String>, d: &str) -> (r: String)
    ensures
        r@ == str_or(opt_view(o), d@),
{
    match o {
        Some(s) => s,
        None => String::from_str(d),
    }
}

/// The trace record of a task report.
pub fn report_to_trace_task(report: TaskReport, now: &str) -> (r: TraceTask)
    ensures
        trace_task_fields(r) == trace_record(report@, now@),
{
    let ghost rv = report@;
    let TaskReport { ok, task, worker, worker_path, exit_code, status, confidence, output, error_code, provenance, error, started_at, finished_at, stderr } = report;
    let confidence = match confidence {
        Some(c) => c,
        None => JsonNumber::Float(String::from_str("0.0")),
    };
    let output = match output {
        Some(o) => o,
        None => empty_object(),
    };
    let provenance = match provenance {
        Some(p) => p,
        None => empty_object(),
    };
    proof {
        reveal_strlit("");
        assert(""@ =~= Seq::<char>::empty());
    }
    TraceTask {
        task,
        worker: text_or(worker, ""),
        status: text_or(status, "error"),
        confidence,
        output,
        error_code,
        error,
        started_at: text_or(started_at, now),
        finished_at: text_or(finished_at, now),
        provenance,
        stderr,
    }
}

pub open spec fn text_json(o: Option<Seq<char>>) -> JsonView {
    match o {
        Some(s) => JsonView::Str(s),
        None => JsonView::Null,
    }
}

/// A trace record as a JSON object (`stderr` only when present).
pub open spec fn trace_task_json(t: TraceTask) -> JsonView {
    let head = seq![
        ("task"@, JsonView::Str(t.task@)),
        ("worker"@, JsonView::Str(t.worker@)),
        ("status"@, JsonView::Str(t.status@)),
        ("confidence"@, JsonView::Number(t.confidence@)),
        ("output"@, t.output@),
        ("error_code"@, text_json(opt_view(t.error_code))),
        ("error"@, text_json(opt_view(t.error))),
        ("started_at"@, JsonView::Str(t.started_at@)),
        ("finished_at"@, JsonView::Str(t.finished_at@)),
        ("provenance"@, t.provenance@),
    ];
    match t.stderr {
        Some(s) => JsonView::Object(head.push(("stderr"@, JsonView::Str(s@)))),
        None => JsonView::Object(head),
    }
}

fn push_field(es: &mut Vec<(String, Json)>, key: &str, value: Json)
    ensures
        entries_view(final(es)@) == entries_view(old(es)@).push((key@, value@)),
{
    let ghost before = es@;
    es.push((String::from_str(key), value));
    assert(entries_view(es@) =~= entries_view(before).push((key@, value@)));
}

fn text_value(o: &Option<String>) -> (r: Json)
    ensures
        r@ == text_json(opt_view(*o)),
{
    match o {
        Some(s) => Json::Str(s.clone()),
        None => Json::Null,
    }
}

/// A trace record as a JSON object.
pub fn trace_task_value(t: &TraceTask) -> (r: Json)
    ensures
        r@ == trace_task_json(*t),
{
    let mut es: Vec<(String, Json)> = Vec::new();
    push_field(&mut es, "task", Json::Str(t.task.clone()));
    push_field(&mut es, "worker", Json::Str(t.worker.clone()));
    push_field(&mut es, "status", Json::Str(t.status.clone()));
    push_field(&mut es, "confidence", Json::Number(t.confidence.duplicate()));
    push_field(&mut es, "output", t.output.duplicate());
    push_field(&mut es, "error_code", text_value(&t.error_code));
    push_field(&mut es, "error", text_value(&t.error));
    push_field(&mut es, "started_at", Json::Str(t.started_at.clone()));
    push_field(&mut es, "finished_at", Json::Str(t.finished_at.clone()));
    push_field(&mut es, "provenance", t.provenance.duplicate());
    match &t.stderr {
        Some(s) => push_field(&mut es, "stderr", Json::Str(s.clone())),
        None => {},
    }
    proof {
        lemma_object_view(es);
    }
    assert(Json::Object(es)@ =~= trace_task_json(*t)) by {
        if let JsonView::Object(a) = trace_task_json(*t) {
            assert(entries_view(es@) =~= a);
        }
    }
    Json::Object(es)
}

// ---------------------------------------------------------------------------
// Context propagation.

/// The shared variables after promoting the first `n` output entries of an
/// ok task: each key that is not a task name is set, in order.
pub open spec fn promoted(vars: Seq<(Seq<char>, JsonView)>, out: Seq<(Seq<char>, JsonView)>, task_values: Seq<(Seq<char>, JsonView)>, n: int) -> Seq<(Seq<char>, JsonView)>
    decreases n,
{
    if n <= 0 {
        vars
    } else {
        let prev = promoted(vars, out, task_values, n - 1);
        if entry_lookup(task_values, out[n - 1].0) is Some {
            prev
        } else {
            entries_after_set(prev, out[n - 1].0, out[n - 1].1)
        }
    }
}

/// Promotion sets every output key that is not a task name to its output
/// value, and leaves task-name keys as they were.
pub proof fn lemma_promotion_rule(vars: Seq<(Seq<char>, JsonView)>, out: Seq<(Seq<char>, JsonView)>, task_values: Seq<(Seq<char>, JsonView)>, i: int)
    requires
        keys_distinct(out),
        0 <= i < out.len(),
    ensures
        entry_lookup(task_values, out[i].0) is None ==> entry_lookup(promoted(vars, out, task_values, out.len() as int), out[i].0) == Some(out[i].1),
        entry_lookup(task_values, out[i].0) is Some ==> entry_lookup(promoted(vars, out, task_values, out.len() as int), out[i].0) == entry_lookup(vars, out[i].0),
{
    lemma_promotion_prefix(vars, out, task_values, i, out.len() as int);
}

proof fn lemma_promotion_prefix(vars: Seq<(Seq<char>, JsonView)>, out: Seq<(Seq<char>, JsonView)>, task_values: Seq<(Seq<char>, JsonView)>, i: int, n: int)
    requires
        keys_distinct(out),
        0 <= i < out.len(),
        0 <= n <= out.len(),
    ensures
        n > i && entry_lookup(task_values, out[i].0) is None ==> entry_lookup(promoted(vars, out, task_values, n), out[i].0) == Some(out[i].1),
        (n <= i || entry_lookup(task_values, out[i].0) is Some) ==> entry_lookup(promoted(vars, out, task_values, n), out[i].0) == entry_lookup(vars, out[i].0),
    decreases n,
{
    if n > 0 {
        lemma_promotion_prefix(vars, out, task_values, i, n - 1);
        let prev = promoted(vars, out, task_values, n - 1);
        if entry_lookup(task_values, out[n - 1].0) is None {
            lemma_lookup_after_set(prev, out[n - 1].0, out[n - 1].1, out[i].0);
            if n - 1 != i {
                assert(out[n - 1].0 != out[i].0);
            }
        }
    }
}

/// Promotes the output entries of an ok task into the shared variables.
pub fn promote_outputs(variables: &mut Vec<(String, Json)>, out: &Vec<(String, Json)>, task_values: &Vec<(String, Json)>)
    ensures
        entries_view(final(variables)@) == promoted(entries_view(old(variables)@), entries_view(out@), entries_view(task_values@), out.len() as int),
{
    let ghost ov = entries_view(out@);
    let mut i: usize = 0;
    while i < out.len()
        invariant
            i <= out.len(),
            ov == entries_view(out@),
            entries_view(variables@) == promoted(entries_view(old(variables)@), ov, entries_view(task_values@), i as int),
        decreases out.len() - i,
    {
        match lookup_entry(task_values, out[i].0.as_str()) {
            Some(_) => {},
            None => {
                set_entry(variables, out[i].0.clone(), out[i].1.duplicate());
            },
        }
        i += 1;
    }
}

/// The dependency values a task receives: each listed dependency that has a
/// task value, set in order.
pub open spec fn dependency_entries(after: Seq<Seq<char>>, task_values: Seq<(Seq<char>, JsonView)>, n: int) -> Seq<(Seq<char>, JsonView)>
    decreases n,
{
    if n <= 0 {
        Seq::empty()
    } else {
        let prev = dependency_entries(after, task_values, n - 1);
        match entry_lookup(task_values, after[n - 1]) {
            Some(v) => entries_after_set(prev, after[n - 1], v),
            None => prev,
        }
    }
}

pub open spec fn constraint_json(c: crate::plan::AstConstraint) -> JsonView {
    JsonView::Object(seq![
        ("key"@, JsonView::Str(c.key@)),
        ("op"@, JsonView::Str(c.op@)),
        ("value"@, c.value@),
        ("line"@, JsonView::Number(NumberView::PosInt(c.line))),
    ])
}

/// The payload a task's worker receives.
pub open spec fn payload_json(ast: Ast, task: AstTask, task_values: Seq<(Seq<char>, JsonView)>, variables: Seq<(Seq<char>, JsonView)>) -> JsonView {
    JsonView::Object(seq![
        ("task"@, JsonView::Str(task.name@)),
        ("goal"@, JsonView::Str(ast.goal@)),
        ("constraints"@, JsonView::Array(ast.constraints@.map_values(|c: crate::plan::AstConstraint| constraint_json(c)))),
        ("dependencies"@, JsonView::Object(dependency_entries(task.after@.map_values(|s: String| s@), task_values, task.after.len() as int))),
        ("variables"@, JsonView::Object(variables)),
    ])
}

fn copy_entries(es: &Vec<(String, Json)>) -> (r: Vec<(String, Json)>)
    ensures
        entries_view(r@) == entries_view(es@),
{
    let mut out: Vec<(String, Json)> = Vec::new();
    let mut i: usize = 0;
    while i < es.len()
        invariant
            i <= es.len(),
            entries_view(out@) =~= entries_view(es@).subrange(0, i as int),
        decreases es.len() - i,
    {
        let k = es[i].0.clone();
        let v = es[i].1.duplicate();
        let ghost before = out@;
        out.push((k, v));
        assert(entries_view(out@) =~= entries_view(before).push((k@, v@)));
        assert(entries_view(es@).subrange(0, i + 1) =~= entries_view(es@).subrange(0, i as int).push((k@, v@)));
        i += 1;
    }
    assert(entries_view(es@).subrange(0, es.len() as int) =~= entries_view(es@));
    out
}

/// The payload a task's worker receives.
pub fn build_payload(ast: &Ast, task: &AstTask, task_values: &Vec<(String, Json)>, variables: &Vec<(String, Json)>) -> (r: Json)
    ensures
        r@ == payload_json(*ast, *task, entries_view(task_values@), entries_view(variables@)),
{
    let mut constraints: Vec<Json> = Vec::new();
    let mut i: usize = 0;
    while i < ast.constraints.len()
        invariant
            i <= ast.constraints.len(),
            constraints.len() == i,
            forall|k: int| 0 <= k < i ==> (#[trigger] constraints@[k])@ == constraint_json(ast.constraints@[k]),
        decreases ast.constraints.len() - i,
    {
        let c = &ast.constraints[i];
        let mut es: Vec<(String, Json)> = Vec::new();
        push_field(&mut es, "key", Json::Str(c.key.clone()));
        push_field(&mut es, "op", Json::Str(c.op.clone()));
        push_field(&mut es, "value", c.value.duplicate());
        push_field(&mut es, "line", Json::Number(JsonNumber::PosInt(c.line)));
        proof {
            lemma_object_view(es);
            if let JsonView::Object(a) = constraint_json(*c) {
                assert(entries_view(es@) =~= a);
            }
        }
        constraints.push(Json::Object(es));
        i += 1;
    }
    let carr = Json::Array(constraints);
    assert(carr@ == JsonView::Array(ast.constraints@.map_values(|c: crate::plan::AstConstraint| constraint_json(c)))) by {
        if let JsonView::Array(t) = carr@ {
            assert(t =~= ast.constraints@.map_values(|c: crate::plan::AstConstraint| constraint_json(c)));
        }
    }
    let ghost after = task.after@.map_values(|s: String| s@);
    let mut deps: Vec<(String, Json)> = Vec::new();
    let mut k: usize = 0;
    while k < task.after.len()
        invariant
            k <= task.after.len(),
            after == task.after@.map_values(|s: String| s@),
            entries_view(deps@) == dependency_entries(after, entries_view(task_values@), k as int),
        decreases task.after.len() - k,
    {
        match lookup_entry(task_values, task.after[k].as_str()) {
            Some(v) => {
                set_entry(&mut deps, task.after[k].clone(), v.duplicate());
            },
            None => {},
        }
        k += 1;
    }
    let vars = copy_entries(variables);
    let mut es: Vec<(String, Json)> = Vec::new();
    push_field(&mut es, "task", Json::Str(task.name.clone()));
    push_field(&mut es, "goal", Json::Str(ast.goal.clone()));
    push_field(&mut es, "constraints", carr);
    proof {
        lemma_object_view(deps);
        lemma_object_view(vars);
    }
    push_field(&mut es, "dependencies", Json::Object(deps));
    push_field(&mut es, "variables", Json::Object(vars));
    proof {
        lemma_object_view(es);
    }
    assert(Json::Object(es)@ =~= payload_json(*ast, *task, entries_view(task_values@), entries_view(variables@))) by {
        if let JsonView::Object(a) = payload_json(*ast, *task, entries_view(task_values@), entries_view(variables@)) {
            assert(entries_view(es@) =~= a);
        }
    }
    Json::Object(es)
}

// ---------------------------------------------------------------------------
// Capabilities.

proof fn lemma_text_order_flip(a: Seq<char>, b: Seq<char>)
    ensures
        text_order(a, b) == Order::Greater ==> text_order(b, a) == Order::Less,
        text_order(a, b) == Order::Equal ==> a == b,
    decreases a.len(),
{
    if a.len() > 0 && b.len() > 0 && a[0] == b[0] {
        lemma_text_order_flip(a.drop_first(), b.drop_first());
        if text_order(a, b) == Order::Equal {
            assert(a =~= seq![a[0]] + a.drop_first());
            assert(b =~= seq![b[0]] + b.drop_first());
        }
    } else if a.len() == 0 && b.len() == 0 {
        assert(a =~= b);
    }
}

/// Strictly ascending, adjacent pair by adjacent pair.
pub open spec fn ascending(v: Seq<Seq<char>>) -> bool {
    forall|i: int| 0 <= i < v.len() - 1 ==> #[trigger] text_order(v[i], v[i + 1]) == Order::Less
}

proof fn lemma_insert_ascending(ov: Seq<Seq<char>>, p: int, x: Seq<char>)
    requires
        ascending(ov),
        0 <= p <= ov.len(),
        p > 0 ==> text_order(ov[p - 1], x) == Order::Less,
        p < ov.len() ==> text_order(x, ov[p]) == Order::Less,
    ensures
        ascending(ov.insert(p, x)),
{
    let nv = ov.insert(p, x);
    assert forall|q: int| 0 <= q < nv.len() - 1 implies #[trigger] text_order(nv[q], nv[q + 1]) == Order::Less by {
        if q < p - 1 {
            assert(nv[q] == ov[q] && nv[q + 1] == ov[q + 1]);
            assert(text_order(ov[q], ov[q + 1]) == Order::Less);
        } else if q == p - 1 {
            assert(nv[q] == ov[q] && nv[q + 1] == x);
        } else if q == p {
            assert(nv[q] == x && nv[q + 1] == ov[q]);
        } else {
            assert(nv[q] == ov[q - 1] && nv[q + 1] == ov[q]);
            let k = q - 1;
            assert(text_order(ov[k], ov[k + 1]) == Order::Less);
            assert(k + 1 == q);
        }
    }
}

proof fn lemma_insert_contains(ov: Seq<Seq<char>>, p: int, x: Seq<char>, y: Seq<char>)
    requires
        0 <= p <= ov.len(),
    ensures
        ov.insert(p, x).contains(y) <==> (ov.contains(y) || y == x),
{
    let nv = ov.insert(p, x);
    if nv.contains(y) {
        let k = choose|k: int| 0 <= k < nv.len() && nv[k] == y;
        if k < p {
            assert(ov[k] == y);
        } else if k > p {
            assert(ov[k - 1] == y);
        }
    }
    if ov.contains(y) {
        let m = choose|m: int| 0 <= m < ov.len() && ov[m] == y;
        if m < p {
            assert(nv[m] == y);
        } else {
            assert(nv[m + 1] == y);
        }
    }
    if y == x {
        assert(nv[p] == y);
    }
}

proof fn lemma_push_contains(pre: Seq<Seq<char>>, x: Seq<char>, y: Seq<char>)
    ensures
        pre.push(x).contains(y) <==> (pre.contains(y) || y == x),
{
    let post = pre.push(x);
    if post.contains(y) {
        let k = choose|k: int| 0 <= k < post.len() && post[k] == y;
        if k < pre.len() {
            assert(pre[k] == y);
        }
    }
    if pre.contains(y) {
        let k = choose|k: int| 0 <= k < pre.len() && pre[k] == y;
        assert(post[k] == y);
    }
    if y == x {
        assert(post[pre.len() as int] == y);
    }
}

/// Inserts `x` into an ascending list unless it is already there.
fn insert_sorted(out: &mut Vec<String>, x: &String)
    requires
        ascending(names_view(*old(out))),
    ensures
        ascending(names_view(*final(out))),
        forall|y: Seq<char>| #[trigger] names_view(*final(out)).contains(y) <==> (names_view(*old(out)).contains(y) || y == x@),
{
    let ghost ov = names_view(*out);
    let mut p: usize = 0;
    while p < out.len() && compare_text(x.as_str(), out[p].as_str()) == Order::Greater
        invariant
            p <= out.len(),
            ov == names_view(*out),
            forall|q: int| 0 <= q < p ==> text_order(x@, #[trigger] ov[q]) == Order::Greater,
        decreases out.len() - p,
    {
        p += 1;
    }
    if p < out.len() && compare_text(x.as_str(), out[p].as_str()) == Order::Equal {
        proof {
            lemma_text_order_flip(x@, ov[p as int]);
            assert forall|y: Seq<char>| #[trigger] ov.contains(y) <==> (ov.contains(y) || y == x@) by {
                if y == x@ {
                    assert(ov[p as int] == y);
                }
            }
        }
        return;
    }
    out.insert(p, x.clone());
    proof {
        assert(names_view(*out) =~= ov.insert(p as int, x@));
        if p > 0 {
            lemma_text_order_flip(x@, ov[p - 1]);
        }
        lemma_insert_ascending(ov, p as int, x@);
        assert forall|y: Seq<char>| #[trigger] names_view(*out).contains(y) <==> (ov.contains(y) || y == x@) by {
            lemma_insert_contains(ov, p as int, x@, y);
        }
    }
}

/// The strings sorted ascending with repeats removed.
pub fn sorted_unique(items: &Vec<String>) -> (r: Vec<String>)
    ensures
        ascending(names_view(r)),
        forall|x: Seq<char>| names_view(r).contains(x) <==> names_view(*items).contains(x),
{
    let mut out: Vec<String> = Vec::new();
    let mut i: usize = 0;
    while i < items.len()
        invariant
            i <= items.len(),
            ascending(names_view(out)),
            forall|x: Seq<char>| #[trigger] names_view(out).contains(x) <==> names_view(*items).subrange(0, i as int).contains(x),
        decreases items.len() - i,
    {
        let ghost before = names_view(out);
        insert_sorted(&mut out, &items[i]);
        proof {
            let pre = names_view(*items).subrange(0, i as int);
            let post = names_view(*items).subrange(0, i + 1);
            assert(post =~= pre.push(items@[i as int]@));
            assert forall|y: Seq<char>| #[trigger] names_view(out).contains(y) <==> post.contains(y) by {
                lemma_push_contains(pre, items@[i as int]@, y);
            }
        }
        i += 1;
    }
    assert(names_view(*items).subrange(0, items.len() as int) =~= names_view(*items));
    out
}

// ---------------------------------------------------------------------------
// The run.

pub open spec fn task_ok(t: TraceTask) -> bool {
    t.status@ == "ok"@
}

/// A plan run in progress: tasks run one at a time in `task_order`; the run
/// halts at the first task that is not ok.
pub struct PlanRun {
    pub goal: String,
    pub levels: Vec<Vec<String>>,
    pub task_order: Vec<String>,
    pub task_values: Vec<(String, Json)>,
    pub variables: Vec<(String, Json)>,
    pub tasks: Vec<TraceTask>,
    pub halted: bool,
}

pub open spec fn output_entries(t: TraceTask) -> Option<Seq<(Seq<char>, JsonView)>> {
    match t.output@ {
        JsonView::Object(es) => Some(es),
        _ => None,
    }
}

impl PlanRun {
    pub open spec fn wf(&self) -> bool {
        &&& self.tasks.len() <= self.task_order.len()
        &&& names_view(self.task_order) == flatten_levels(levels_view(self.levels@))
        &&& forall|i: int| 0 <= i < self.tasks.len() ==> (#[trigger] self.tasks@[i]).task@ == self.task_order@[i]@
        &&& forall|i: int| 0 <= i < self.tasks.len() - 1 ==> task_ok(#[trigger] self.tasks@[i])
        &&& self.halted == (self.tasks.len() > 0 && !task_ok(self.tasks@.last()))
    }

    /// Starts a run of a plan that passes validation.
    pub fn start(ast: &Ast) -> (r: Result<PlanRun, String>)
        ensures
            validation_outcome(*ast, match r {
                Ok(_) => Ok::<(), Seq<char>>(()),
                Err(e) => Err(e@),
            }),
            match r {
                Ok(run) => {
                    &&& run.wf()
                    &&& run.tasks.len() == 0
                    &&& !run.halted
                    &&& run.goal@ == ast.goal@
                    &&& valid_layering(ast.tasks@, levels_view(run.levels@))
                    &&& ordered_levels(ast.tasks@, levels_view(run.levels@))
                    &&& names_unique(ast.tasks@) && deps_known(ast.tasks@) && acyclic(ast.tasks@)
                    &&& run.task_values.len() == 0
                    &&& run.variables.len() == 0
                },
                Err(_) => true,
            },
    {
        match validate_ast(ast) {
            Ok(()) => {},
            Err(m) => {
                return Err(m);
            },
        }
        let layered = build_dependency_levels(ast);
        let levels = match layered {
            Ok(l) => l,
            Err(m) => {
                assert(false);
                return Err(m);
            },
        };
        let task_order = flatten_names(&levels);
        Ok(PlanRun {
            goal: ast.goal.clone(),
            levels,
            task_order,
            task_values: Vec::new(),
            variables: Vec::new(),
            tasks: Vec::new(),
            halted: false,
        })
    }

    /// The index (in the plan) of the task to run next, if the run goes on.
    pub fn next_task(&self, ast: &Ast) -> (r: Option<usize>)
        requires
            self.wf(),
        ensures
            (self.halted || self.tasks.len() == self.task_order.len()) ==> r is None,
            !self.halted && self.tasks.len() < self.task_order.len() ==> match r {
                Some(i) => i < ast.tasks.len() && ast.tasks@[i as int].name@ == self.task_order@[self.tasks.len() as int]@,
                None => !crate::graph::is_task_name(ast.tasks@, self.task_order@[self.tasks.len() as int]@),
            },
    {
        if self.halted || self.tasks.len() >= self.task_order.len() {
            return None;
        }
        let name = &self.task_order[self.tasks.len()];
        let mut i: usize = 0;
        while i < ast.tasks.len()
            invariant
                !self.halted,
                self.tasks.len() < self.task_order.len(),
                *name == self.task_order@[self.tasks.len() as int],
                i <= ast.tasks.len(),
                forall|j: int| 0 <= j < i ==> ast.tasks@[j].name@ != name@,
            decreases ast.tasks.len() - i,
        {
            if ast.tasks[i].name == *name {
                return Some(i);
            }
            i += 1;
        }
        None
    }

    /// Records the report of the task just run: its trace record, its task
    /// value, the promotion of its output, and whether the run halts.
    pub fn record(&mut self, report: TaskReport, now: &str)
        requires
            old(self).wf(),
            !old(self).halted,
            old(self).tasks.len() < old(self).task_order.len(),
            report.task@ == old(self).task_order@[old(self).tasks.len() as int]@,
        ensures
            final(self).wf(),
            final(self).levels == old(self).levels,
            final(self).task_order == old(self).task_order,
            final(self).goal == old(self).goal,
            final(self).tasks.len() == old(self).tasks.len() + 1,
            forall|i: int| 0 <= i < old(self).tasks.len() ==> final(self).tasks@[i] == old(self).tasks@[i],
            trace_task_fields(final(self).tasks@.last()) == trace_record(report@, now@),
            entries_view(final(self).task_values@) == entries_after_set(entries_view(old(self).task_values@), report.task@,
                trace_task_json(final(self).tasks@.last())),
            entries_view(final(self).variables@) == if task_ok(final(self).tasks@.last()) && output_entries(final(self).tasks@.last()) is Some {
                let es = output_entries(final(self).tasks@.last())->Some_0;
                promoted(entries_view(old(self).variables@), es, entries_view(final(self).task_values@), es.len() as int)
            } else {
                entries_view(old(self).variables@)
            },
            final(self).halted == !task_ok(final(self).tasks@.last()),
            crate::attempt::output_keys_distinct(report@) && task_ok(final(self).tasks@.last())
                && output_entries(final(self).tasks@.last()) is Some ==> (
                forall|i: int| 0 <= i < output_entries(final(self).tasks@.last())->Some_0.len() ==> {
                    let e = #[trigger] output_entries(final(self).tasks@.last())->Some_0[i];
                    &&& entry_lookup(entries_view(final(self).task_values@), e.0) is None ==> entry_lookup(entries_view(final(self).variables@), e.0) == Some(e.1)
                    &&& entry_lookup(entries_view(final(self).task_values@), e.0) is Some ==> entry_lookup(entries_view(final(self).variables@), e.0) == entry_lookup(entries_view(old(self).variables@), e.0)
                }),
    {
        let ghost rv = report@;
        let name = report.task.clone();
        let t = report_to_trace_task(report, now);
        let value = trace_task_value(&t);
        set_entry(&mut self.task_values, name, value);
        let ok = str_eq(t.status.as_str(), "ok");
        if ok {
            match &t.output {
                Json::Object(es) => {
                    proof {
                        lemma_object_view(*es);
                    }
                    promote_outputs(&mut self.variables, es, &self.task_values);
                },
                _ => {},
            }
        }
        let ghost before = self.tasks@;
        self.tasks.push(t);
        self.halted = !ok;
        proof {
            assert(self.tasks@ == before.push(t));
            assert forall|i: int| 0 <= i < self.tasks.len() - 1 implies task_ok(#[trigger] self.tasks@[i]) by {
                assert(self.tasks@[i] == before[i]);
            }
            assert forall|i: int| 0 <= i < self.tasks.len() implies (#[trigger] self.tasks@[i]).task@ == self.task_order@[i]@ by {
                if i < before.len() {
                    assert(self.tasks@[i] == before[i]);
                }
            }
            if crate::attempt::output_keys_distinct(rv) && task_ok(t) {
                if let Some(es) = output_entries(t) {
                    assert(trace_task_fields(t) == trace_record(rv, now@));
                    assert(t.output@ == match rv.output {
                        Some(o) => o,
                        None => JsonView::Object(Seq::empty()),
                    });
                    assert(keys_distinct(es));
                    assert forall|i: int| 0 <= i < es.len() implies {
                        let e = #[trigger] es[i];
                        &&& entry_lookup(entries_view(self.task_values@), e.0) is None ==> entry_lookup(entries_view(self.variables@), e.0) == Some(e.1)
                        &&& entry_lookup(entries_view(self.task_values@), e.0) is Some ==> entry_lookup(entries_view(self.variables@), e.0) == entry_lookup(entries_view(old(self).variables@), e.0)
                    } by {
                        lemma_promotion_rule(entries_view(old(self).variables@), es, entries_view(self.task_values@), i);
                    }
                }
            }
        }
    }

    /// The final trace: constraints and verify checks evaluated over the
    /// context the run left, and the overall status.
    pub fn finish(self, ast: &Ast, started_at: String, finished_at: String, capabilities: &Vec<String>) -> (r: Trace)
        requires
            self.wf(),
        ensures
            r.trace_version@ == TRACE_VERSION@,
            r.goal@ == self.goal@,
            r.started_at@ == started_at@,
            r.finished_at@ == finished_at@,
            ascending(names_view(r.capabilities)),
            forall|x: Seq<char>| names_view(r.capabilities).contains(x) <==> names_view(*capabilities).contains(x),
            r.execution.mode@ == "sequential"@,
            r.execution.max_parallel == 1,
            r.execution.levels == self.levels,
            r.task_order == self.task_order,
            r.tasks == self.tasks,
            r.constraints.len() == ast.constraints.len(),
            forall|i: int| 0 <= i < r.constraints.len() ==> crate::report::constraint_report_for(#[trigger] r.constraints@[i],
                ast.constraints@[i], entries_view(self.variables@)),
            r.verify.len() == ast.verify.len(),
            forall|i: int| 0 <= i < r.verify.len() ==> crate::report::verify_report_for(#[trigger] r.verify@[i], ast.verify@[i],
                crate::report::context_with(entries_view(self.variables@), entries_view(self.task_values@))),
            r.verify_summary.total == r.verify.len(),
            r.verify_summary.failures@.map_values(|f: crate::report::VerifyFailure| crate::report::failure_view(f))
                == crate::report::failures_upto(r.verify@, r.verify.len() as int),
            r.verify_summary.failed == r.verify_summary.failures.len(),
            r.verify_summary.passed == r.verify_summary.total - r.verify_summary.failed,
            (r.status@ == "ok"@) == (
                (forall|i: int| 0 <= i < r.tasks.len() ==> task_ok(#[trigger] r.tasks@[i]))
                && (forall|i: int| 0 <= i < r.constraints.len() ==> (#[trigger] r.constraints@[i]).passed != Some(false))
                && r.verify_summary.failed == 0),
            r.status@ == "ok"@ || r.status@ == "failed"@,
    {
        let constraints = evaluate_constraints(&ast.constraints, &self.variables);
        let verify = evaluate_verify(&ast.verify, &self.task_values, &self.variables);
        let summary = summarize_verify(&verify);
        let all_ok = all_tasks_ok(&self.tasks);
        let constraints_ok = no_failed_constraint(&constraints);
        let overall = all_ok && constraints_ok && summary.failed == 0;
        proof {
            reveal_strlit("ok");
            reveal_strlit("failed");
            assert("failed"@.len() == 6);
            assert("failed"@ != "ok"@);
        }
        let PlanRun { goal, levels, task_order, task_values, variables, tasks, halted } = self;
        Trace {
            trace_version: String::from_str(TRACE_VERSION),
            goal,
            status: if overall {
                String::from_str("ok")
            } else {
                String::from_str("failed")
            },
            started_at,
            finished_at,
            capabilities: sorted_unique(capabilities),
            execution: ExecutionInfo { mode: String::from_str("sequential"), max_parallel: 1, levels },
            task_order,
            tasks,
            constraints,
            verify,
            verify_summary: summary,
        }
    }
}

fn all_tasks_ok(tasks: &Vec<TraceTask>) -> (r: bool)
    ensures
        r == forall|k: int| 0 <= k < tasks.len() ==> task_ok(#[trigger] tasks@[k]),
{
    let mut i: usize = 0;
    while i < tasks.len()
        invariant
            i <= tasks.len(),
            forall|k: int| 0 <= k < i ==> task_ok(#[trigger] tasks@[k]),
        decreases tasks.len() - i,
    {
        if !str_eq(tasks[i].status.as_str(), "ok") {
            return false;
        }
        i += 1;
    }
    true
}

fn no_failed_constraint(reports: &Vec<ConstraintReport>) -> (r: bool)
    ensures
        r == forall|k: int| 0 <= k < reports.len() ==> (#[trigger] reports@[k]).passed != Some(false),
{
    let mut j: usize = 0;
    while j < reports.len()
        invariant
            j <= reports.len(),
            forall|k: int| 0 <= k < j ==> (#[trigger] reports@[k]).passed != Some(false),
        decreases reports.len() - j,
    {
        if reports[j].passed == Some(false) {
            return false;
        }
        j += 1;
    }
    true
}

/// In every state of a run, the tasks that ran are the first ones of
/// `task_order`, in that order, and only the last of them can have failed:
/// after a failure nothing more runs, though `task_order` still lists every task.
pub proof fn lemma_halting_on_failure(run: PlanRun, i: int)
    requires
        run.wf(),
        0 <= i < run.tasks.len(),
        !task_ok(run.tasks@[i]),
    ensures
        i == run.tasks.len() - 1,
        run.halted,
        run.tasks.len() <= run.task_order.len(),
        forall|k: int| 0 <= k < run.tasks.len() ==> (#[trigger] run.tasks@[k]).task@ == run.task_order@[k]@,
{
    if i < run.tasks.len() - 1 {
        assert(task_ok(run.tasks@[i]));
    }
}

/// The skeleton of a valid plan shows the order its run uses: the skeleton's
/// levels, and so its `task_order`, are the run's.
pub proof fn lemma_skeleton_is_run_order(
    tasks: Seq<AstTask>,
    layered: Result<Seq<Seq<Seq<char>>>, Seq<char>>,
    run_levels: Seq<Seq<Seq<char>>>,
)
    requires
        names_unique(tasks),
        deps_known(tasks),
        acyclic(tasks),
        layering_outcome(tasks, layered),
        valid_layering(tasks, run_levels),
        ordered_levels(tasks, run_levels),
    ensures
        skeleton_levels(tasks, layered) == run_levels,
        flatten_levels(skeleton_levels(tasks, layered)) == flatten_levels(run_levels),
{
    lemma_layering_is_unique(tasks, layered->Ok_0, run_levels);
}

/// Two runs of the same valid plan use the same levels and the same
/// `task_order`, whatever their workers do.
pub proof fn lemma_runs_share_order(tasks: Seq<AstTask>, a: PlanRun, b: PlanRun)
    requires
        names_unique(tasks),
        a.wf(),
        b.wf(),
        valid_layering(tasks, levels_view(a.levels@)),
        ordered_levels(tasks, levels_view(a.levels@)),
        valid_layering(tasks, levels_view(b.levels@)),
        ordered_levels(tasks, levels_view(b.levels@)),
    ensures
        levels_view(a.levels@) == levels_view(b.levels@),
        names_view(a.task_order) == names_view(b.task_order),
{
    lemma_layering_is_unique(tasks, levels_view(a.levels@), levels_view(b.levels@));
}

/// In a run's `task_order`, every dependency of a task stands before it.
pub proof fn lemma_run_order_respects_dependencies(tasks: Seq<AstTask>, run: PlanRun, i: int, k: int, q: int)
    requires
        run.wf(),
        valid_layering(tasks, levels_view(run.levels@)),
        0 <= i < tasks.len(),
        0 <= k < tasks[i].after.len(),
        0 <= q < run.task_order.len(),
        run.task_order@[q]@ == tasks[i].name@,
    ensures
        exists|p: int| 0 <= p < q && run.task_order@[p]@ == tasks[i].after@[k]@,
{
    let order = names_view(run.task_order);
    assert(order[q] == tasks[i].name@);
    lemma_dependencies_come_first(tasks, levels_view(run.levels@), i, k, q);
    let p = choose|p: int| 0 <= p < q && flatten_levels(levels_view(run.levels@))[p] == tasks[i].after@[k]@;
    assert(order[p] == run.task_order@[p]@);
}

} // verus!
