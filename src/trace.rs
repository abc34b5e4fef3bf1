//! The plan's version gate, the structural trace skeleton, and the trace
//! document the engine emits.

use crate::graph::{build_dependency_levels, flatten_levels, layering_outcome, levels_view, result_view};
use crate::json::{Json, JsonNumber};
use crate::plan::{Ast, AstTask};
use crate::report::{ConstraintReport, VerifyReport, VerifySummary};
use crate::strings::{concat_str, str_eq};
use crate::AST_VERSION;
use crate::TRACE_VERSION;
use vstd::prelude::*;

verus! {

/// How the tasks were (or could be) scheduled.
pub struct ExecutionInfo {
    pub mode: String,
    pub max_parallel: usize,
    pub levels: Vec<Vec<String>>,
}

/// One task's record in the trace.
pub struct TraceTask {
    pub task: String,
    pub worker: String,
    pub status: String,
    pub confidence: JsonNumber,
    pub output: Json,
    pub error_code: Option<String>,
    pub error: Option<String>,
    pub started_at: String,
    pub finished_at: String,
    pub provenance: Json,
    pub stderr: Option<String>,
}

/// The audit record of a plan: its structure, what ran, and the checks.
pub struct Trace {
    pub trace_version: String,
    pub goal: String,
    pub status: String,
    pub started_at: String,
    pub finished_at: String,
    pub capabilities: Vec<String>,
    pub execution: ExecutionInfo,
    pub task_order: Vec<String>,
    pub tasks: Vec<TraceTask>,
    pub constraints: Vec<ConstraintReport>,
    pub verify: Vec<VerifyReport>,
    pub verify_summary: VerifySummary,
}

pub open spec fn version_message(v: Seq<char>) -> Seq<char> {
    "unsupported ast_version '"@ + v + "', expected '"@ + AST_VERSION@ + "'"@
}

pub open spec fn unit_result_view(r: Result<(), String>) -> Result<(), Seq<char>> {
    match r {
        Ok(()) => Ok(()),
        Err(e) => Err(e@),
    }
}

/// A plan is accepted when its version is the supported one and its graph
/// layers; otherwise the first failing check gives the error.
pub open spec fn validation_outcome(ast: Ast, r: Result<(), Seq<char>>) -> bool {
    &&& ast.ast_version@ != AST_VERSION@ ==> r == Err::<(), Seq<char>>(version_message(ast.ast_version@))
    &&& ast.ast_version@ == AST_VERSION@ ==> exists|lr: Result<Seq<Seq<Seq<char>>>, Seq<char>>| {
        &&& #[trigger] layering_outcome(ast.tasks@, lr)
        &&& r == match lr {
            Ok(_) => Ok::<(), Seq<char>>(()),
            Err(m) => Err(m),
        }
    }
}

/// Checks the plan's version and the structure of its task graph.
pub fn validate_ast(ast: &Ast) -> (r: Result<(), String>)
    ensures
        validation_outcome(*ast, unit_result_view(r)),
{
    if !str_eq(ast.ast_version.as_str(), AST_VERSION) {
        let a = concat_str("unsupported ast_version '", ast.ast_version.as_str());
        let b = concat_str(a.as_str(), "', expected '");
        let c = concat_str(b.as_str(), AST_VERSION);
        return Err(concat_str(c.as_str(), "'"));
    }
    let levels = build_dependency_levels(ast);
    let ghost lr = result_view(levels);
    match levels {
        Ok(_) => Ok(()),
        Err(m) => Err(m),
    }
}

/// The largest level width, or 1 without levels.
pub open spec fn widest(levels: Seq<Seq<Seq<char>>>) -> nat
    decreases levels.len(),
{
    if levels.len() == 0 {
        1
    } else if levels.len() == 1 {
        levels[0].len()
    } else {
        let w = widest(levels.drop_last());
        if levels.last().len() > w { levels.last().len() } else { w }
    }
}

/// Some level holds more than one task.
pub open spec fn has_wide_level(levels: Seq<Seq<Seq<char>>>) -> bool {
    exists|l: int| 0 <= l < levels.len() && #[trigger] levels[l].len() > 1
}

pub open spec fn mode_of(levels: Seq<Seq<Seq<char>>>) -> Seq<char> {
    if has_wide_level(levels) { "parallel"@ } else { "sequential"@ }
}

/// The levels of the skeleton: the layering when the plan layers; otherwise
/// every task in one level, in declaration order (no level for no tasks).
pub open spec fn skeleton_levels(tasks: Seq<AstTask>, layered: Result<Seq<Seq<Seq<char>>>, Seq<char>>) -> Seq<Seq<Seq<char>>> {
    match layered {
        Ok(l) => l,
        Err(_) => if tasks.len() == 0 {
            Seq::empty()
        } else {
            seq![tasks.map_values(|t: AstTask| t.name@)]
        },
    }
}

pub open spec fn names_view(v: Vec<String>) -> Seq<Seq<char>> {
    v@.map_values(|s: String| s@)
}

fn push_name(out: &mut Vec<String>, s: String)
    ensures
        names_view(*final(out)) == names_view(*old(out)).push(s@),
{
    let ghost before = out@;
    out.push(s);
    assert(names_view(*out) =~= before.map_values(|s: String| s@).push(s@));
}

/// The levels one after the other.
pub fn flatten_names(levels: &Vec<Vec<String>>) -> (r: Vec<String>)
    ensures
        names_view(r) == flatten_levels(levels_view(levels@)),
{
    let ghost lv = levels_view(levels@);
    let mut out: Vec<String> = Vec::new();
    let mut l: usize = 0;
    while l < levels.len()
        invariant
            l <= levels.len(),
            lv == levels_view(levels@),
            names_view(out) == flatten_levels(lv.subrange(0, l as int)),
        decreases levels.len() - l,
    {
        let row = &levels[l];
        let ghost start = names_view(out);
        let mut j: usize = 0;
        while j < row.len()
            invariant
                l < levels.len(),
                *row == levels@[l as int],
                j <= row.len(),
                names_view(out) =~= start + row@.subrange(0, j as int).map_values(|s: String| s@),
            decreases row.len() - j,
        {
            push_name(&mut out, row[j].clone());
            assert(row@.subrange(0, j + 1).map_values(|s: String| s@) =~= row@.subrange(0, j as int).map_values(|s: String| s@).push(row@[j as int]@));
            j += 1;
        }
        proof {
            assert(row@.subrange(0, row.len() as int) =~= row@);
            assert(lv.subrange(0, l + 1).drop_last() =~= lv.subrange(0, l as int));
            assert(lv[l as int] == row@.map_values(|s: String| s@));
        }
        l += 1;
    }
    assert(lv.subrange(0, levels.len() as int) =~= lv);
    out
}

/// The widest level's width, or 1 without levels.
pub fn max_level_width(levels: &Vec<Vec<String>>) -> (r: usize)
    ensures
        r == widest(levels_view(levels@)),
{
    let ghost lv = levels_view(levels@);
    if levels.len() == 0 {
        return 1;
    }
    let mut w: usize = levels[0].len();
    let mut l: usize = 1;
    while l < levels.len()
        invariant
            1 <= l <= levels.len(),
            lv == levels_view(levels@),
            w == widest(lv.subrange(0, l as int)),
        decreases levels.len() - l,
    {
        assert(lv.subrange(0, l + 1).drop_last() =~= lv.subrange(0, l as int));
        if levels[l].len() > w {
            w = levels[l].len();
        }
        l += 1;
    }
    assert(lv.subrange(0, levels.len() as int) =~= lv);
    w
}

/// Whether some level holds more than one task.
pub fn any_wide_level(levels: &Vec<Vec<String>>) -> (r: bool)
    ensures
        r == has_wide_level(levels_view(levels@)),
{
    let mut l: usize = 0;
    while l < levels.len()
        invariant
            l <= levels.len(),
            forall|k: int| 0 <= k < l ==> levels_view(levels@)[k].len() <= 1,
        decreases levels.len() - l,
    {
        if levels[l].len() > 1 {
            assert(levels_view(levels@)[l as int].len() > 1);
            return true;
        }
        l += 1;
    }
    false
}

fn empty_summary() -> (r: VerifySummary)
    ensures
        r.total == 0,
        r.passed == 0,
        r.failed == 0,
        r.failures.len() == 0,
{
    VerifySummary { total: 0, passed: 0, failed: 0, failures: Vec::new() }
}

/// The trace skeleton of a plan: its structure, before anything runs.
pub fn build_trace_skeleton(ast: &Ast) -> (r: Trace)
    ensures
        r.trace_version@ == TRACE_VERSION@,
        r.goal@ == ast.goal@,
        r.status@ == "failed"@,
        exists|lr: Result<Seq<Seq<Seq<char>>>, Seq<char>>| #[trigger] layering_outcome(ast.tasks@, lr)
            && levels_view(r.execution.levels@) == skeleton_levels(ast.tasks@, lr),
        names_view(r.task_order) == flatten_levels(levels_view(r.execution.levels@)),
        r.execution.max_parallel == widest(levels_view(r.execution.levels@)),
        r.execution.mode@ == mode_of(levels_view(r.execution.levels@)),
        r.tasks.len() == 0,
        r.constraints.len() == 0,
        r.verify.len() == 0,
        r.capabilities.len() == 0,
        r.started_at@ == "<ts>"@,
        r.finished_at@ == "<ts>"@,
        r.verify_summary.total == 0,
        r.verify_summary.passed == 0,
        r.verify_summary.failed == 0,
        r.verify_summary.failures.len() == 0,
{
    let layered = build_dependency_levels(ast);
    let ghost lr = result_view(layered);
    let levels = match layered {
        Ok(l) => l,
        Err(_) => {
            let mut fallback: Vec<String> = Vec::new();
            let mut i: usize = 0;
            while i < ast.tasks.len()
                invariant
                    i <= ast.tasks.len(),
                    names_view(fallback) =~= ast.tasks@.subrange(0, i as int).map_values(|t: AstTask| t.name@),
                decreases ast.tasks.len() - i,
            {
                push_name(&mut fallback, ast.tasks[i].name.clone());
                assert(ast.tasks@.subrange(0, i + 1).map_values(|t: AstTask| t.name@) =~= ast.tasks@.subrange(0, i as int).map_values(|t: AstTask| t.name@).push(ast.tasks@[i as int].name@));
                i += 1;
            }
            assert(ast.tasks@.subrange(0, ast.tasks.len() as int) =~= ast.tasks@);
            let mut all: Vec<Vec<String>> = Vec::new();
            if fallback.len() > 0 {
                all.push(fallback);
            }
            assert(levels_view(all@) =~= skeleton_levels(ast.tasks@, lr));
            all
        },
    };
    let task_order = flatten_names(&levels);
    let max_parallel = max_level_width(&levels);
    let mode = if any_wide_level(&levels) {
        String::from_str("parallel")
    } else {
        String::from_str("sequential")
    };
    Trace {
        trace_version: String::from_str(TRACE_VERSION),
        goal: ast.goal.clone(),
        status: String::from_str("failed"),
        started_at: String::from_str("<ts>"),
        finished_at: String::from_str("<ts>"),
        capabilities: Vec::new(),
        execution: ExecutionInfo { mode, max_parallel, levels },
        task_order,
        tasks: Vec::new(),
        constraints: Vec::new(),
        verify: Vec::new(),
        verify_summary: empty_summary(),
    }
}

} // verus!
