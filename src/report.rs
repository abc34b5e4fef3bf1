//! Post-run evaluation of a plan's constraints and verify checks, and the
//! verify summary.

use crate::expr::{comparison, expression_value, path_value, resolve_path, compare_values, eval_boolean_expression};
use crate::json::{entries_after_set, entries_view, json_text, serialized, set_entry, Json, JsonView};
use crate::plan::{AstConstraint, AstVerify};
use crate::strings::concat_str;
use vstd::prelude::*;

verus! {

/// The outcome of one constraint. `passed` is absent when the key did not resolve.
pub struct ConstraintReport {
    pub line: u64,
    pub expression: String,
    pub passed: Option<bool>,
    pub reason: Option<String>,
}

/// The outcome of one verify check.
pub struct VerifyReport {
    pub line: u64,
    pub expression: String,
    pub passed: bool,
    pub reason: Option<String>,
}

/// A failed verify check as the summary lists it.
pub struct VerifyFailure {
    pub line: u64,
    pub expression: String,
    pub reason: Option<String>,
}

pub struct VerifySummary {
    pub total: usize,
    pub passed: usize,
    pub failed: usize,
    pub failures: Vec<VerifyFailure>,
}

pub open spec fn opt_text(o: Option<String>) -> Option<Seq<char>> {
    match o {
        Some(s) => Some(s@),
        None => None,
    }
}

/// How a constraint is written in its report: `<key> <op> <json value>`.
pub open spec fn constraint_text(c: AstConstraint) -> Seq<char> {
    c.key@ + " "@ + c.op@ + " "@ + serialized(c.value@)
}

pub open spec fn unresolved_key_message(key: Seq<char>) -> Seq<char> {
    "unresolved key: "@ + key
}

/// (passed, reason) of a constraint against the shared variables.
pub open spec fn constraint_verdict(c: AstConstraint, vars: Seq<(Seq<char>, JsonView)>) -> (Option<bool>, Option<Seq<char>>) {
    match path_value(vars, c.key@) {
        None => (None, Some(unresolved_key_message(c.key@))),
        Some(lv) => match comparison(lv, c.value@, c.op@) {
            Ok(b) => (Some(b), None),
            Err(m) => (Some(false), Some(m)),
        },
    }
}

pub open spec fn constraint_report_for(r: ConstraintReport, c: AstConstraint, vars: Seq<(Seq<char>, JsonView)>) -> bool {
    &&& r.line == c.line
    &&& r.expression@ == constraint_text(c)
    &&& (r.passed, opt_text(r.reason)) == constraint_verdict(c, vars)
}

/// Evaluates one constraint against the shared variables.
pub fn evaluate_constraint(c: &AstConstraint, variables: &Vec<(String, Json)>) -> (r: ConstraintReport)
    ensures
        constraint_report_for(r, *c, entries_view(variables@)),
{
    let v1 = concat_str(c.key.as_str(), " ");
    let v2 = concat_str(&v1, c.op.as_str());
    let v3 = concat_str(&v2, " ");
    let vt = json_text(&c.value);
    let expression = concat_str(&v3, vt.as_str());
    match resolve_path(variables, c.key.as_str()) {
        None => ConstraintReport {
            line: c.line,
            expression,
            passed: None,
            reason: Some(concat_str("unresolved key: ", c.key.as_str())),
        },
        Some(left) => match compare_values(&left, &c.value, c.op.as_str()) {
            Ok(b) => ConstraintReport { line: c.line, expression, passed: Some(b), reason: None },
            Err(m) => ConstraintReport { line: c.line, expression, passed: Some(false), reason: Some(m) },
        },
    }
}

/// Evaluates every constraint, in order.
pub fn evaluate_constraints(constraints: &Vec<AstConstraint>, variables: &Vec<(String, Json)>) -> (r: Vec<ConstraintReport>)
    ensures
        r.len() == constraints.len(),
        forall|i: int| 0 <= i < r.len() ==> constraint_report_for(#[trigger] r@[i], constraints@[i], entries_view(variables@)),
{
    let mut out: Vec<ConstraintReport> = Vec::new();
    let mut i: usize = 0;
    while i < constraints.len()
        invariant
            i <= constraints.len(),
            out.len() == i,
            forall|k: int| 0 <= k < i ==> constraint_report_for(#[trigger] out@[k], constraints@[k], entries_view(variables@)),
        decreases constraints.len() - i,
    {
        out.push(evaluate_constraint(&constraints[i], variables));
        i += 1;
    }
    out
}

/// The context verify checks see: the shared variables, then every task value
/// set over them in order (task names win).
pub open spec fn context_with(vars: Seq<(Seq<char>, JsonView)>, tvs: Seq<(Seq<char>, JsonView)>) -> Seq<(Seq<char>, JsonView)>
    decreases tvs.len(),
{
    if tvs.len() == 0 {
        vars
    } else {
        entries_after_set(context_with(vars, tvs.drop_last()), tvs.last().0, tvs.last().1)
    }
}

/// Builds the verify context from the shared variables and the task values.
pub fn verify_context(task_values: &Vec<(String, Json)>, variables: &Vec<(String, Json)>) -> (r: Vec<(String, Json)>)
    ensures
        entries_view(r@) == context_with(entries_view(variables@), entries_view(task_values@)),
{
    let mut ctx: Vec<(String, Json)> = Vec::new();
    let mut i: usize = 0;
    while i < variables.len()
        invariant
            i <= variables.len(),
            entries_view(ctx@) =~= entries_view(variables@).subrange(0, i as int),
        decreases variables.len() - i,
    {
        let k = variables[i].0.clone();
        let v = variables[i].1.duplicate();
        let ghost before = ctx@;
        ctx.push((k, v));
        proof {
            assert(ctx@ =~= before.push((k, v)));
            assert(entries_view(ctx@) =~= entries_view(before).push((k@, v@)));
            assert(entries_view(variables@).subrange(0, i + 1) =~= entries_view(variables@).subrange(0, i as int).push((k@, v@)));
        }
        i += 1;
    }
    assert(entries_view(variables@).subrange(0, variables.len() as int) =~= entries_view(variables@));
    let mut j: usize = 0;
    while j < task_values.len()
        invariant
            j <= task_values.len(),
            entries_view(ctx@) == context_with(entries_view(variables@), entries_view(task_values@).subrange(0, j as int)),
        decreases task_values.len() - j,
    {
        let k = task_values[j].0.clone();
        let v = task_values[j].1.duplicate();
        set_entry(&mut ctx, k, v);
        proof {
            let tv = entries_view(task_values@);
            assert(tv.subrange(0, j + 1).drop_last() =~= tv.subrange(0, j as int));
        }
        j += 1;
    }
    assert(entries_view(task_values@).subrange(0, task_values.len() as int) =~= entries_view(task_values@));
    ctx
}

/// (passed, reason) of a verify check in a context.
pub open spec fn verify_verdict(check: AstVerify, ctx: Seq<(Seq<char>, JsonView)>) -> (bool, Option<Seq<char>>) {
    match expression_value(check.expression@, ctx) {
        Ok(b) => (b, None),
        Err(m) => (false, Some(m)),
    }
}

pub open spec fn verify_report_for(r: VerifyReport, check: AstVerify, ctx: Seq<(Seq<char>, JsonView)>) -> bool {
    &&& r.line == check.line
    &&& r.expression@ == check.expression@
    &&& (r.passed, opt_text(r.reason)) == verify_verdict(check, ctx)
}

/// Evaluates every verify check, in order, against the shared variables and
/// the task values.
pub fn evaluate_verify(checks: &Vec<AstVerify>, task_values: &Vec<(String, Json)>, variables: &Vec<(String, Json)>) -> (r: Vec<VerifyReport>)
    ensures
        r.len() == checks.len(),
        forall|i: int| 0 <= i < r.len() ==> verify_report_for(#[trigger] r@[i], checks@[i],
            context_with(entries_view(variables@), entries_view(task_values@))),
{
    let ctx = verify_context(task_values, variables);
    let mut out: Vec<VerifyReport> = Vec::new();
    let mut i: usize = 0;
    while i < checks.len()
        invariant
            i <= checks.len(),
            out.len() == i,
            entries_view(ctx@) == context_with(entries_view(variables@), entries_view(task_values@)),
            forall|k: int| 0 <= k < i ==> verify_report_for(#[trigger] out@[k], checks@[k], entries_view(ctx@)),
        decreases checks.len() - i,
    {
        let check = &checks[i];
        let report = match eval_boolean_expression(check.expression.as_str(), &ctx) {
            Ok(b) => VerifyReport { line: check.line, expression: check.expression.clone(), passed: b, reason: None },
            Err(m) => VerifyReport { line: check.line, expression: check.expression.clone(), passed: false, reason: Some(m) },
        };
        out.push(report);
        i += 1;
    }
    out
}

pub open spec fn failure_view(f: VerifyFailure) -> (u64, Seq<char>, Option<Seq<char>>) {
    (f.line, f.expression@, opt_text(f.reason))
}

/// The failed checks among the first `i` reports, in order.
pub open spec fn failures_upto(reports: Seq<VerifyReport>, i: int) -> Seq<(u64, Seq<char>, Option<Seq<char>>)>
    decreases i,
{
    if i <= 0 {
        Seq::empty()
    } else if !reports[i - 1].passed {
        failures_upto(reports, i - 1).push((reports[i - 1].line, reports[i - 1].expression@, opt_text(reports[i - 1].reason)))
    } else {
        failures_upto(reports, i - 1)
    }
}

/// Counts the verify reports and lists the failed ones.
pub fn summarize_verify(reports: &Vec<VerifyReport>) -> (r: VerifySummary)
    ensures
        r.total == reports.len(),
        r.failures@.map_values(|f: VerifyFailure| failure_view(f)) == failures_upto(reports@, reports.len() as int),
        r.failed == r.failures.len(),
        r.passed == r.total - r.failed,
{
    let mut failures: Vec<VerifyFailure> = Vec::new();
    let mut i: usize = 0;
    while i < reports.len()
        invariant
            i <= reports.len(),
            failures.len() <= i,
            failures@.map_values(|f: VerifyFailure| failure_view(f)) == failures_upto(reports@, i as int),
        decreases reports.len() - i,
    {
        let item = &reports[i];
        if !item.passed {
            let reason = match &item.reason {
                Some(m) => Some(m.clone()),
                None => None,
            };
            let f = VerifyFailure { line: item.line, expression: item.expression.clone(), reason };
            let ghost before = failures@.map_values(|f: VerifyFailure| failure_view(f));
            failures.push(f);
            assert(failures@.map_values(|f: VerifyFailure| failure_view(f)) =~= before.push(failure_view(f)));
        }
        i += 1;
    }
    let total = reports.len();
    let failed = failures.len();
    VerifySummary { total, passed: total - failed, failed, failures }
}

} // verus!
