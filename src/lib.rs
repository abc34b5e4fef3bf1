//! Plan execution engine: dependency layering of a task graph, per-attempt
//! result finalization, retry decisions, context propagation between tasks,
//! and evaluation of constraints and verify checks over the final context.

pub mod attempt;
pub mod executor;
pub mod expr;
pub mod graph;
pub mod json;
pub mod plan;
pub mod report;
pub mod strings;
pub mod trace;

pub use graph::build_dependency_levels;
pub use plan::{Ast, AstConstraint, AstTask, AstVerify};
pub use report::VerifySummary;
pub use trace::{build_trace_skeleton, validate_ast, ExecutionInfo, Trace};

use vstd::prelude::*;

verus! {

/// The plan document version this engine accepts.
pub const AST_VERSION: &'static str = "1.1";

/// The trace document version this engine emits.
pub const TRACE_VERSION: &'static str = "1.1";

} // verus!
