//! The plan document as the engine reads it.

use crate::json::{Json, JsonNumber, NumberView, zero_text};
use vstd::prelude::*;

verus! {

/// A number of seconds strictly greater than zero.
pub open spec fn positive_seconds(n: NumberView) -> bool {
    match n {
        NumberView::PosInt(u) => u > 0,
        NumberView::NegInt(_) => false,
        NumberView::Float(t) => !zero_text(t) && t.len() > 0 && t[0] != '-',
    }
}

pub fn is_positive_seconds(n: &JsonNumber) -> (r: bool)
    ensures
        r == positive_seconds(n@),
{
    match n {
        JsonNumber::PosInt(u) => *u > 0,
        JsonNumber::NegInt(_) => false,
        JsonNumber::Float(t) => {
            let s = t.as_str();
            let zero = crate::strings::str_eq(s, "0.0") || crate::strings::str_eq(s, "-0.0");
            !zero && s.unicode_len() > 0 && s.get_char(0) != '-'
        },
    }
}

/// One task of a plan: a named unit of work bound to a worker program, with
/// its retry policy. Durations are numbers of seconds.
pub struct AstTask {
    pub name: String,
    pub worker: String,
    pub after: Vec<String>,
    pub timeout_seconds: Option<JsonNumber>,
    pub retries: Option<u32>,
    pub retry_if: Option<String>,
    pub backoff_seconds: Option<JsonNumber>,
    pub jitter_seconds: Option<JsonNumber>,
}

/// A plan-level constraint: `key op value`, checked after the run.
pub struct AstConstraint {
    pub key: String,
    pub op: String,
    pub value: Json,
    pub line: u64,
}

/// A free-form verify expression, checked after the run.
pub struct AstVerify {
    pub expression: String,
    pub line: u64,
}

/// A parsed plan document.
pub struct Ast {
    pub ast_version: String,
    pub goal: String,
    pub tasks: Vec<AstTask>,
    pub constraints: Vec<AstConstraint>,
    pub verify: Vec<AstVerify>,
}

} // verus!
