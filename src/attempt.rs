//! One attempt of one task: classifying what the worker did into a task
//! report, finalizing its status, and the engine's provenance record.

use crate::json::{
    keys_distinct, lemma_lookup_is_entry, well_keyed, as_binary64, binary64_form, empty_object, lemma_object_view, entries_after_set, entries_view, entry_lookup, lookup_entry, parse_json, parsed_json, set_entry, Json, JsonNumber,
    JsonView, NumberView,
};
use crate::expr::json_result_view;
use crate::plan::{is_positive_seconds, positive_seconds};
use crate::strings::{concat_str, str_eq, trim_text, trimmed};
use vstd::prelude::*;

verus! {

pub const RUNTIME_EXECUTION_FAILURE: &'static str = "RUNTIME_EXECUTION_FAILURE";

pub const WORKER_OUTPUT_JSON_INVALID: &'static str = "WORKER_OUTPUT_JSON_INVALID";

pub const WORKER_EXIT_NONZERO: &'static str = "WORKER_EXIT_NONZERO";

pub const WORKER_TIMEOUT: &'static str = "WORKER_TIMEOUT";

/// What a task attempt (or an engine check before it) produced. Absent fields
/// were not determined.
pub struct TaskReport {
    pub ok: bool,
    pub task: String,
    pub worker: Option<String>,
    pub worker_path: Option<String>,
    pub exit_code: Option<i32>,
    pub status: Option<String>,
    pub confidence: Option<JsonNumber>,
    pub output: Option<Json>,
    pub error_code: Option<String>,
    pub provenance: Option<Json>,
    pub error: Option<String>,
    pub started_at: Option<String>,
    pub finished_at: Option<String>,
    pub stderr: Option<String>,
}

pub open spec fn opt_view(o: Option<String>) -> Option<Seq<char>> {
    match o {
        Some(s) => Some(s@),
        None => None,
    }
}

// ---------------------------------------------------------------------------
// Decimal text.

pub open spec fn digit_char(d: nat) -> char {
    if d == 0 { '0' } else if d == 1 { '1' } else if d == 2 { '2' } else if d == 3 { '3' } else if d == 4 { '4' }
    else if d == 5 { '5' } else if d == 6 { '6' } else if d == 7 { '7' } else if d == 8 { '8' } else { '9' }
}

/// The decimal digits of `n`.
pub open spec fn digits(n: nat) -> Seq<char>
    decreases n,
{
    if n < 10 {
        seq![digit_char(n)]
    } else {
        digits(n / 10).push(digit_char(n % 10))
    }
}

/// The decimal text of an integer.
pub open spec fn decimal(i: int) -> Seq<char> {
    if i < 0 {
        seq!['-'] + digits((-i) as nat)
    } else {
        digits(i as nat)
    }
}

fn digit_text(d: u64) -> (r: &'static str)
    requires
        d < 10,
    ensures
        r@ == seq![digit_char(d as nat)],
{
    proof {
        reveal_strlit("0");
        reveal_strlit("1");
        reveal_strlit("2");
        reveal_strlit("3");
        reveal_strlit("4");
        reveal_strlit("5");
        reveal_strlit("6");
        reveal_strlit("7");
        reveal_strlit("8");
        reveal_strlit("9");
    }
    let r = if d == 0 { "0" } else if d == 1 { "1" } else if d == 2 { "2" } else if d == 3 { "3" } else if d == 4 { "4" }
    else if d == 5 { "5" } else if d == 6 { "6" } else if d == 7 { "7" } else if d == 8 { "8" } else { "9" };
    assert(r@ =~= seq![digit_char(d as nat)]);
    r
}

fn digits_text(n: u64) -> (r: String)
    ensures
        r@ == digits(n as nat),
    decreases n,
{
    if n < 10 {
        String::from_str(digit_text(n))
    } else {
        let mut s = digits_text(n / 10);
        s.append(digit_text(n % 10));
        s
    }
}

/// The decimal text of an `i32`.
pub fn decimal_text(i: i32) -> (r: String)
    ensures
        r@ == decimal(i as int),
{
    if i < 0 {
        let m = (-(i as i64)) as u64;
        let d = digits_text(m);
        proof {
            reveal_strlit("-");
        }
        let r = concat_str("-", d.as_str());
        assert(r@ =~= seq!['-'] + digits((-(i as int)) as nat));
        r
    } else {
        digits_text(i as u64)
    }
}

// ---------------------------------------------------------------------------
// Finalization.

/// An existing error message that is not blank gets the new one appended
/// after `; `; otherwise the new message stands alone.
pub open spec fn merged_error(existing: Option<Seq<char>>, new_message: Seq<char>) -> Seq<char> {
    match existing {
        Some(v) if trimmed(v).len() > 0 => v + "; "@ + new_message,
        _ => new_message,
    }
}

pub fn merge_error(existing: Option<&str>, new_message: &str) -> (r: String)
    ensures
        r@ == merged_error(
            match existing {
                Some(v) => Some(v@),
                None => None,
            },
            new_message@,
        ),
{
    match existing {
        Some(value) => {
            if trim_text(value).unicode_len() > 0 {
                let a = concat_str(value, "; ");
                concat_str(a.as_str(), new_message)
            } else {
                String::from_str(new_message)
            }
        },
        None => String::from_str(new_message),
    }
}

/// The status once settled: the reported one, else `ok` for a zero exit code
/// and `error` otherwise.
pub open spec fn settled_status(status: Option<Seq<char>>, exit_code: Option<i32>) -> Seq<char> {
    match status {
        Some(s) => s,
        None => if exit_code == Some(0i32) { "ok"@ } else { "error"@ },
    }
}

pub open spec fn exit_label(exit_code: Option<i32>) -> Seq<char> {
    match exit_code {
        Some(c) => decimal(c as int),
        None => "unknown"@,
    }
}

/// A report claiming `ok` with a non-zero (or unknown) exit code is downgraded.
pub open spec fn downgraded(status: Option<Seq<char>>, exit_code: Option<i32>) -> bool {
    exit_code != Some(0i32) && settled_status(status, exit_code) == "ok"@
}

pub open spec fn final_status(status: Option<Seq<char>>, exit_code: Option<i32>) -> Seq<char> {
    if downgraded(status, exit_code) {
        "error"@
    } else {
        settled_status(status, exit_code)
    }
}

/// The default confidence for a settled status (before any downgrade).
pub open spec fn default_confidence(status: Seq<char>) -> Seq<char> {
    if status == "ok"@ { "0.5"@ } else { "0.0"@ }
}

pub open spec fn number_opt_view(o: Option<JsonNumber>) -> Option<NumberView> {
    match o {
        Some(n) => Some(n@),
        None => None,
    }
}

/// The mathematical form of a task report.
pub struct ReportView {
    pub ok: bool,
    pub task: Seq<char>,
    pub worker: Option<Seq<char>>,
    pub worker_path: Option<Seq<char>>,
    pub exit_code: Option<i32>,
    pub status: Option<Seq<char>>,
    pub confidence: Option<NumberView>,
    pub output: Option<JsonView>,
    pub error_code: Option<Seq<char>>,
    pub provenance: Option<JsonView>,
    pub error: Option<Seq<char>>,
    pub started_at: Option<Seq<char>>,
    pub finished_at: Option<Seq<char>>,
    pub stderr: Option<Seq<char>>,
}

pub open spec fn json_opt_view(o: Option<Json>) -> Option<JsonView> {
    match o {
        Some(j) => Some(j@),
        None => None,
    }
}

impl View for TaskReport {
    type V = ReportView;

    open spec fn view(&self) -> ReportView {
        ReportView {
            ok: self.ok,
            task: self.task@,
            worker: opt_view(self.worker),
            worker_path: opt_view(self.worker_path),
            exit_code: self.exit_code,
            status: opt_view(self.status),
            confidence: number_opt_view(self.confidence),
            output: json_opt_view(self.output),
            error_code: opt_view(self.error_code),
            provenance: json_opt_view(self.provenance),
            error: opt_view(self.error),
            started_at: opt_view(self.started_at),
            finished_at: opt_view(self.finished_at),
            stderr: opt_view(self.stderr),
        }
    }
}

/// A report finalized: status and confidence settled, an `ok` with a non-zero
/// (or unknown) exit code downgraded (with `WORKER_EXIT_NONZERO` as its code
/// when it had none), and `ok` set.
pub open spec fn finalize_view(b: ReportView) -> ReportView {
    let st = b.status;
    let code = b.exit_code;
    ReportView {
        ok: final_status(st, code) == "ok"@,
        status: Some(final_status(st, code)),
        confidence: match b.confidence {
            Some(c) => Some(c),
            None => Some(NumberView::Float(default_confidence(settled_status(st, code)))),
        },
        error_code: if downgraded(st, code) && b.error_code is None {
            Some(WORKER_EXIT_NONZERO@)
        } else {
            b.error_code
        },
        error: if downgraded(st, code) {
            Some(merged_error(b.error, "worker exited with return code "@ + exit_label(code)))
        } else {
            b.error
        },
        ..b
    }
}

fn is_text(o: &Option<String>, t: &str) -> (r: bool)
    ensures
        r == (opt_view(*o) == Some(t@)),
{
    match o {
        Some(s) => str_eq(s.as_str(), t),
        None => false,
    }
}

/// Settles status and confidence, downgrades an `ok` with a non-zero exit
/// code, and sets `ok`.
pub fn finalize_run_task_report(report: TaskReport) -> (r: TaskReport)
    ensures
        r@ == finalize_view(report@),
{
    let ghost before = report;
    let mut report = report;
    if report.status.is_none() {
        report.status = Some(if report.exit_code == Some(0i32) {
            String::from_str("ok")
        } else {
            String::from_str("error")
        });
    }
    if report.confidence.is_none() {
        report.confidence = Some(if is_text(&report.status, "ok") {
            JsonNumber::Float(String::from_str("0.5"))
        } else {
            JsonNumber::Float(String::from_str("0.0"))
        });
    }
    if report.exit_code != Some(0i32) && is_text(&report.status, "ok") {
        let label = match report.exit_code {
            Some(code) => decimal_text(code),
            None => String::from_str("unknown"),
        };
        let message = concat_str("worker exited with return code ", label.as_str());
        let existing = match &report.error {
            Some(e) => Some(e.as_str()),
            None => None,
        };
        let merged = merge_error(existing, message.as_str());
        report.status = Some(String::from_str("error"));
        if report.error_code.is_none() {
            report.error_code = Some(String::from_str(WORKER_EXIT_NONZERO));
        }
        report.error = Some(merged);
    }
    report.ok = is_text(&report.status, "ok");
    proof {
        reveal_strlit("ok");
        reveal_strlit("error");
    }
    report
}

// ---------------------------------------------------------------------------
// Retry policy.

fn copy_number(o: &Option<JsonNumber>) -> (r: Option<JsonNumber>)
    ensures
        number_opt_view(r) == number_opt_view(*o),
{
    match o {
        Some(n) => Some(n.duplicate()),
        None => None,
    }
}

/// A task's retry policy, with the plan's defaults filled in.
pub struct TaskPolicy {
    pub timeout_seconds: Option<JsonNumber>,
    pub retries: u32,
    pub retry_if: String,
    pub backoff_seconds: Option<JsonNumber>,
    pub jitter_seconds: Option<JsonNumber>,
}

pub open spec fn max_attempts_of(retries: u32) -> u32 {
    if retries == u32::MAX { u32::MAX } else { (retries + 1) as u32 }
}

impl TaskPolicy {
    pub fn from_task(task: &crate::plan::AstTask) -> (r: TaskPolicy)
        ensures
            r.retries == match task.retries {
                Some(n) => n,
                None => 0,
            },
            r.retry_if@ == match task.retry_if {
                Some(s) => s@,
                None => "error"@,
            },
            number_opt_view(r.timeout_seconds) == number_opt_view(task.timeout_seconds),
            number_opt_view(r.backoff_seconds) == number_opt_view(task.backoff_seconds),
            number_opt_view(r.jitter_seconds) == number_opt_view(task.jitter_seconds),
    {
        TaskPolicy {
            timeout_seconds: copy_number(&task.timeout_seconds),
            retries: match task.retries {
                Some(n) => n,
                None => 0,
            },
            retry_if: match &task.retry_if {
                Some(s) => s.clone(),
                None => String::from_str("error"),
            },
            backoff_seconds: copy_number(&task.backoff_seconds),
            jitter_seconds: copy_number(&task.jitter_seconds),
        }
    }

    /// `retries + 1`, saturating.
    pub fn max_attempts(&self) -> (r: u32)
        ensures
            r == max_attempts_of(self.retries),
    {
        self.retries.saturating_add(1)
    }
}

/// Whether a non-ok attempt should be retried under the policy.
pub open spec fn retry_wanted(retries: u32, retry_if: Seq<char>, status: Option<Seq<char>>, error_code: Option<Seq<char>>) -> bool {
    if retries == 0 {
        false
    } else if status == Some("ok"@) {
        false
    } else if retry_if == "error"@ {
        true
    } else if retry_if == "timeout"@ {
        error_code == Some(WORKER_TIMEOUT@)
    } else if retry_if == "worker_failure"@ {
        error_code == Some(WORKER_TIMEOUT@) || error_code == Some(WORKER_EXIT_NONZERO@)
            || error_code == Some(WORKER_OUTPUT_JSON_INVALID@) || error_code == Some(RUNTIME_EXECUTION_FAILURE@)
    } else {
        false
    }
}

pub fn should_retry(policy: &TaskPolicy, report: &TaskReport) -> (r: bool)
    ensures
        r == retry_wanted(policy.retries, policy.retry_if@, opt_view(report.status), opt_view(report.error_code)),
{
    if policy.retries == 0 {
        return false;
    }
    if is_text(&report.status, "ok") {
        return false;
    }
    let rif = policy.retry_if.as_str();
    if str_eq(rif, "error") {
        true
    } else if str_eq(rif, "timeout") {
        is_text(&report.error_code, WORKER_TIMEOUT)
    } else if str_eq(rif, "worker_failure") {
        is_text(&report.error_code, WORKER_TIMEOUT) || is_text(&report.error_code, WORKER_EXIT_NONZERO)
            || is_text(&report.error_code, WORKER_OUTPUT_JSON_INVALID) || is_text(&report.error_code, RUNTIME_EXECUTION_FAILURE)
    } else {
        false
    }
}

/// 2 to the power `e`, saturating at `u32::MAX`.
pub open spec fn pow2_saturating(e: nat) -> u32
    decreases e,
{
    if e == 0 {
        1
    } else {
        let p = pow2_saturating((e - 1) as nat);
        if p as int * 2 > u32::MAX { u32::MAX } else { (p * 2) as u32 }
    }
}

/// The backoff multiplier before retrying after attempt `attempt`:
/// `2^(attempt-1)`, saturating.
pub fn backoff_factor(attempt: u32) -> (r: u32)
    ensures
        r == pow2_saturating(if attempt == 0 { 0 } else { (attempt - 1) as nat }),
{
    let e: u32 = if attempt == 0 { 0 } else { attempt - 1 };
    let mut r: u32 = 1;
    let mut k: u32 = 0;
    while k < e
        invariant
            k <= e,
            r == pow2_saturating(k as nat),
        decreases e - k,
    {
        r = if r > u32::MAX / 2 { u32::MAX } else { r * 2 };
        k += 1;
    }
    r
}

// ---------------------------------------------------------------------------
// Provenance.

pub open spec fn code_view(exit_code: Option<i32>) -> JsonView {
    match exit_code {
        Some(c) => if c >= 0 {
            JsonView::Number(NumberView::PosInt(c as u64))
        } else {
            JsonView::Number(NumberView::NegInt(c as i64))
        },
        None => JsonView::Null,
    }
}

/// Keys the engine always writes and a worker cannot override.
pub open spec fn reserved_key(k: Seq<char>) -> bool {
    k == "worker"@ || k == "command"@ || k == "worker_ref"@ || k == "return_code"@
}

pub open spec fn provenance_head(path: Seq<char>, exit_code: Option<i32>, worker_ref: Seq<char>) -> Seq<(Seq<char>, JsonView)> {
    seq![
        ("worker"@, JsonView::Str(path)),
        ("command"@, JsonView::Str("python3 "@ + path)),
        ("worker_ref"@, JsonView::Str(worker_ref)),
        ("return_code"@, code_view(exit_code)),
    ]
}

pub open spec fn with_attempts(e: Seq<(Seq<char>, JsonView)>, attempt: u32, max_attempts: u32) -> Seq<(Seq<char>, JsonView)> {
    if max_attempts > 1 {
        e.push(("attempt"@, JsonView::Number(NumberView::PosInt(attempt as u64)))).push(
            ("max_attempts"@, JsonView::Number(NumberView::PosInt(max_attempts as u64))),
        )
    } else {
        e
    }
}

pub open spec fn with_policy(e1: Seq<(Seq<char>, JsonView)>, policy: TaskPolicy) -> Seq<(Seq<char>, JsonView)> {
    let e2 = match policy.timeout_seconds {
        Some(t) => e1.push(("timeout_seconds"@, JsonView::Number(t@))),
        None => e1,
    };
    let e3 = if policy.retries > 0 {
        e2.push(("retries"@, JsonView::Number(NumberView::PosInt(policy.retries as u64))))
    } else {
        e2
    };
    let e4 = if policy.retry_if@ != "error"@ {
        e3.push(("retry_if"@, JsonView::Str(policy.retry_if@)))
    } else {
        e3
    };
    let e5 = match policy.backoff_seconds {
        Some(b) if positive_seconds(b@) => e4.push(("backoff_seconds"@, JsonView::Number(b@))),
        _ => e4,
    };
    match policy.jitter_seconds {
        Some(j) if positive_seconds(j@) => e5.push(("jitter_seconds"@, JsonView::Number(j@))),
        _ => e5,
    }
}

/// The engine's own provenance entries for an attempt.
pub open spec fn engine_provenance(
    path: Seq<char>,
    exit_code: Option<i32>,
    worker_ref: Seq<char>,
    policy: TaskPolicy,
    attempt: u32,
    max_attempts: u32,
) -> Seq<(Seq<char>, JsonView)> {
    with_policy(with_attempts(provenance_head(path, exit_code, worker_ref), attempt, max_attempts), policy)
}

/// The entries after merging in the first `n` worker entries, skipping reserved keys.
pub open spec fn merge_worker_entries(base: Seq<(Seq<char>, JsonView)>, wes: Seq<(Seq<char>, JsonView)>, n: int) -> Seq<(Seq<char>, JsonView)>
    decreases n,
{
    if n <= 0 {
        base
    } else {
        let prev = merge_worker_entries(base, wes, n - 1);
        if reserved_key(wes[n - 1].0) {
            prev
        } else {
            entries_after_set(prev, wes[n - 1].0, wes[n - 1].1)
        }
    }
}

/// The provenance record of an attempt: the engine's entries, then the
/// worker's own entries when it gave an object.
pub open spec fn provenance_view(
    path: Seq<char>,
    exit_code: Option<i32>,
    worker_ref: Seq<char>,
    policy: TaskPolicy,
    attempt: u32,
    max_attempts: u32,
    worker_provenance: Option<JsonView>,
) -> JsonView {
    let base = engine_provenance(path, exit_code, worker_ref, policy, attempt, max_attempts);
    match worker_provenance {
        Some(JsonView::Object(wes)) => JsonView::Object(merge_worker_entries(base, wes, wes.len() as int)),
        _ => JsonView::Object(base),
    }
}

fn code_json(exit_code: Option<i32>) -> (r: Json)
    ensures
        r@ == code_view(exit_code),
{
    match exit_code {
        Some(c) => if c >= 0 {
            Json::Number(JsonNumber::PosInt(c as u64))
        } else {
            Json::Number(JsonNumber::NegInt(c as i64))
        },
        None => Json::Null,
    }
}

fn push_entry(es: &mut Vec<(String, Json)>, key: &str, value: Json)
    ensures
        entries_view(final(es)@) == entries_view(old(es)@).push((key@, value@)),
{
    let ghost before = es@;
    es.push((String::from_str(key), value));
    assert(entries_view(es@) =~= entries_view(before).push((key@, value@)));
}

fn is_reserved(k: &str) -> (r: bool)
    ensures
        r == reserved_key(k@),
{
    str_eq(k, "worker") || str_eq(k, "command") || str_eq(k, "worker_ref") || str_eq(k, "return_code")
}

fn policy_entries(es: &mut Vec<(String, Json)>, policy: &TaskPolicy)
    ensures
        entries_view(final(es)@) == with_policy(entries_view(old(es)@), *policy),
{
    let ghost e1 = entries_view(es@);
    match &policy.timeout_seconds {
        Some(t) => push_entry(es, "timeout_seconds", Json::Number(t.duplicate())),
        None => {},
    }
    if policy.retries > 0 {
        push_entry(es, "retries", Json::Number(JsonNumber::PosInt(policy.retries as u64)));
    }
    if !str_eq(policy.retry_if.as_str(), "error") {
        push_entry(es, "retry_if", Json::Str(policy.retry_if.clone()));
    }
    match &policy.backoff_seconds {
        Some(b) => if is_positive_seconds(b) {
            push_entry(es, "backoff_seconds", Json::Number(b.duplicate()));
        },
        None => {},
    }
    match &policy.jitter_seconds {
        Some(j) => if is_positive_seconds(j) {
            push_entry(es, "jitter_seconds", Json::Number(j.duplicate()));
        },
        None => {},
    }
    proof {
        reveal_strlit("error");
    }
}

fn engine_entries(
    worker_path: &str,
    exit_code: Option<i32>,
    worker_ref: &str,
    policy: &TaskPolicy,
    attempt: u32,
    max_attempts: u32,
) -> (r: Vec<(String, Json)>)
    ensures
        entries_view(r@) == engine_provenance(worker_path@, exit_code, worker_ref@, *policy, attempt, max_attempts),
{
    let mut es: Vec<(String, Json)> = Vec::new();
    push_entry(&mut es, "worker", Json::Str(String::from_str(worker_path)));
    push_entry(&mut es, "command", Json::Str(concat_str("python3 ", worker_path)));
    push_entry(&mut es, "worker_ref", Json::Str(String::from_str(worker_ref)));
    push_entry(&mut es, "return_code", code_json(exit_code));
    assert(entries_view(es@) =~= provenance_head(worker_path@, exit_code, worker_ref@));
    if max_attempts > 1 {
        push_entry(&mut es, "attempt", Json::Number(JsonNumber::PosInt(attempt as u64)));
        push_entry(&mut es, "max_attempts", Json::Number(JsonNumber::PosInt(max_attempts as u64)));
    }
    policy_entries(&mut es, policy);
    es
}

/// The provenance record of an attempt.
pub fn default_provenance(
    worker_path: &str,
    exit_code: Option<i32>,
    worker_ref: &str,
    policy: &TaskPolicy,
    attempt: u32,
    max_attempts: u32,
    worker_provenance: Option<Json>,
) -> (r: Json)
    ensures
        r@ == provenance_view(worker_path@, exit_code, worker_ref@, *policy, attempt, max_attempts, json_opt_view(worker_provenance)),
{
    let mut es = engine_entries(worker_path, exit_code, worker_ref, policy, attempt, max_attempts);
    let ghost base = entries_view(es@);
    match worker_provenance {
        Some(Json::Object(wes)) => {
            let ghost wv = entries_view(wes@);
            let mut i: usize = 0;
            while i < wes.len()
                invariant
                    i <= wes.len(),
                    wv == entries_view(wes@),
                    entries_view(es@) == merge_worker_entries(base, wv, i as int),
                decreases wes.len() - i,
            {
                if !is_reserved(wes[i].0.as_str()) {
                    set_entry(&mut es, wes[i].0.clone(), wes[i].1.duplicate());
                }
                i += 1;
            }
            proof {
                let r = Json::Object(es);
                assert(json_opt_view(Some(Json::Object(wes))) == Some(JsonView::Object(wv))) by {
                    if let JsonView::Object(t) = Json::Object(wes)@ {
                        assert(t =~= wv);
                    }
                }
            }
            let r = Json::Object(es);
            assert(r@ == JsonView::Object(entries_view(es@))) by {
                if let JsonView::Object(t) = r@ {
                    assert(t =~= entries_view(es@));
                }
            }
            r
        },
        _ => {
            let r = Json::Object(es);
            assert(r@ == JsonView::Object(entries_view(es@))) by {
                if let JsonView::Object(t) = r@ {
                    assert(t =~= entries_view(es@));
                }
            }
            r
        },
    }
}

// ---------------------------------------------------------------------------
// Classifying an attempt.

/// What running the worker process once came to.
pub enum AttemptOutcome {
    /// The process could not be started; the text describes why.
    LaunchFailed(String),
    /// The payload could not be written to the worker's input.
    StdinFailed(String),
    /// Waiting for the process failed.
    WaitFailed(String),
    /// The process ended (or was killed at its deadline), with what it wrote.
    Exited { exit_code: Option<i32>, timed_out: bool, stdout: String, stderr: String },
}

/// Drops trailing zeros of a fraction, then a bare trailing point.
pub open spec fn drop_zeros(t: Seq<char>) -> Seq<char>
    decreases t.len(),
{
    if t.len() > 0 && t.last() == '0' {
        drop_zeros(t.drop_last())
    } else {
        t
    }
}

pub open spec fn strip_fraction_zeros(t: Seq<char>) -> Seq<char> {
    if t.contains('.') {
        let z = drop_zeros(t);
        if z.len() > 0 && z.last() == '.' {
            z.drop_last()
        } else {
            z
        }
    } else {
        t
    }
}

/// How a timeout is written in the timeout message (no timeout reads as 0).
pub open spec fn seconds_text(n: Option<NumberView>) -> Seq<char> {
    match n {
        None => "0"@,
        Some(NumberView::PosInt(u)) => digits(u as nat),
        Some(NumberView::NegInt(i)) => decimal(i as int),
        Some(NumberView::Float(t)) => strip_fraction_zeros(t),
    }
}

pub fn format_seconds(t: &str) -> (r: String)
    ensures
        r@ == strip_fraction_zeros(t@),
{
    let n = t.unicode_len();
    let mut has_point = false;
    let mut i: usize = 0;
    while i < n
        invariant
            n == t@.len(),
            i <= n,
            has_point == t@.subrange(0, i as int).contains('.'),
        decreases n - i,
    {
        let ghost pre = t@.subrange(0, i as int);
        assert(t@.subrange(0, i + 1) =~= pre.push(t@[i as int]));
        if t.get_char(i) == '.' {
            has_point = true;
            assert(t@.subrange(0, i + 1)[i as int] == '.');
        } else {
            proof {
                let post = t@.subrange(0, i + 1);
                if post.contains('.') {
                    let k = choose|k: int| 0 <= k < post.len() && post[k] == '.';
                    assert(pre[k] == '.');
                }
            }
        }
        i += 1;
    }
    assert(t@.subrange(0, n as int) =~= t@);
    if !has_point {
        return String::from_str(t);
    }
    let mut j: usize = n;
    while j > 0 && t.get_char(j - 1) == '0'
        invariant
            n == t@.len(),
            j <= n,
            drop_zeros(t@) == drop_zeros(t@.subrange(0, j as int)),
        decreases j,
    {
        assert(t@.subrange(0, j as int).drop_last() =~= t@.subrange(0, j - 1));
        j -= 1;
    }
    assert(drop_zeros(t@.subrange(0, j as int)) == t@.subrange(0, j as int));
    if j > 0 && t.get_char(j - 1) == '.' {
        assert(t@.subrange(0, j as int).drop_last() =~= t@.subrange(0, j - 1));
        String::from_str(t.substring_char(0, j - 1))
    } else {
        String::from_str(t.substring_char(0, j))
    }
}

fn timeout_text(n: &Option<JsonNumber>) -> (r: String)
    ensures
        r@ == seconds_text(number_opt_view(*n)),
{
    match n {
        None => String::from_str("0"),
        Some(JsonNumber::PosInt(u)) => digits_text(*u),
        Some(JsonNumber::NegInt(i)) => {
            if *i < 0 {
                let m = (-(*i as i128)) as u64;
                let d = digits_text(m);
                proof {
                    reveal_strlit("-");
                }
                let r = concat_str("-", d.as_str());
                assert(r@ =~= decimal(*i as int));
                r
            } else {
                digits_text(*i as u64)
            }
        },
        Some(JsonNumber::Float(t)) => format_seconds(t.as_str()),
    }
}

/// The text stored under `key` in worker output entries, when it is a string.
pub open spec fn text_field(es: Seq<(Seq<char>, JsonView)>, key: Seq<char>) -> Option<Seq<char>> {
    match entry_lookup(es, key) {
        Some(JsonView::Str(s)) => Some(s),
        _ => None,
    }
}

/// The confidence a worker reported, read as a binary64 number.
pub open spec fn number_field(es: Seq<(Seq<char>, JsonView)>, key: Seq<char>) -> Option<NumberView> {
    match entry_lookup(es, key) {
        Some(JsonView::Number(n)) => Some(binary64_form(n)),
        _ => None,
    }
}

/// A worker's `output`: an object as given, any other value wrapped as
/// `{"value": ...}`, nothing as `{}`.
pub open spec fn output_field(es: Seq<(Seq<char>, JsonView)>) -> JsonView {
    match entry_lookup(es, "output"@) {
        None => JsonView::Object(Seq::empty()),
        Some(JsonView::Object(o)) => JsonView::Object(o),
        Some(v) => JsonView::Object(seq![("value"@, v)]),
    }
}

/// A report for a failure before the worker could produce anything.
pub open spec fn engine_failure_view(base: ReportView, message: Seq<char>, provenance: JsonView) -> ReportView {
    ReportView {
        status: Some("error"@),
        confidence: Some(NumberView::Float("0.0"@)),
        output: Some(JsonView::Object(Seq::empty())),
        error_code: Some(RUNTIME_EXECUTION_FAILURE@),
        error: Some(message),
        provenance: Some(provenance),
        ..base
    }
}

/// The report of one attempt that produced output, once that output is parsed
/// (`parsed`: the value, or the parser's message), before finalization.
pub open spec fn parsed_output_view(
    b: ReportView,
    parsed: Result<JsonView, Seq<char>>,
    path: Seq<char>,
    worker_ref: Seq<char>,
    policy: TaskPolicy,
    attempt: u32,
    max_attempts: u32,
) -> ReportView {
    let code = b.exit_code;
    let failed = ReportView {
        status: Some("error"@),
        confidence: Some(NumberView::Float("0.0"@)),
        output: Some(JsonView::Object(Seq::empty())),
        provenance: Some(provenance_view(path, code, worker_ref, policy, attempt, max_attempts, None)),
        ..b
    };
    match parsed {
        Err(m) => ReportView {
            error_code: Some(WORKER_OUTPUT_JSON_INVALID@),
            error: Some("worker output is not valid JSON: "@ + m),
            ..failed
        },
        Ok(JsonView::Object(es)) => ReportView {
            status: text_field(es, "status"@),
            confidence: number_field(es, "confidence"@),
            error: text_field(es, "error"@),
            error_code: text_field(es, "error_code"@),
            output: Some(output_field(es)),
            provenance: Some(provenance_view(path, code, worker_ref, policy, attempt, max_attempts, entry_lookup(es, "provenance"@))),
            ..b
        },
        Ok(_) => ReportView {
            error_code: Some(WORKER_OUTPUT_JSON_INVALID@),
            error: Some("worker output must be a JSON object"@),
            ..failed
        },
    }
}

/// The report of one attempt before finalization.
pub open spec fn attempt_view(
    task: Seq<char>,
    worker_ref: Seq<char>,
    path: Seq<char>,
    policy: TaskPolicy,
    attempt: u32,
    max_attempts: u32,
    started_at: Seq<char>,
    finished_at: Seq<char>,
    outcome: AttemptOutcome,
) -> ReportView {
    let base = ReportView {
        ok: false,
        task: task,
        worker: Some(worker_ref),
        worker_path: Some(path),
        exit_code: None,
        status: None,
        confidence: None,
        output: None,
        error_code: None,
        provenance: None,
        error: None,
        started_at: Some(started_at),
        finished_at: Some(finished_at),
        stderr: None,
    };
    let engine_prov = provenance_view(path, None, worker_ref, policy, attempt, max_attempts, None);
    match outcome {
        AttemptOutcome::LaunchFailed(d) => engine_failure_view(base, "failed to launch worker: "@ + d@, engine_prov),
        AttemptOutcome::StdinFailed(d) => engine_failure_view(base, "failed to write worker stdin: "@ + d@, engine_prov),
        AttemptOutcome::WaitFailed(d) => engine_failure_view(base, "failed waiting for worker process: "@ + d@, engine_prov),
        AttemptOutcome::Exited { exit_code, timed_out, stdout, stderr } => {
            let code = if timed_out { None } else { exit_code };
            let err = trimmed(stderr@);
            let b = ReportView { exit_code: code, stderr: if err.len() > 0 { Some(err) } else { None }, ..base };
            let prov = provenance_view(path, code, worker_ref, policy, attempt, max_attempts, None);
            let failed = ReportView {
                status: Some("error"@),
                confidence: Some(NumberView::Float("0.0"@)),
                output: Some(JsonView::Object(Seq::empty())),
                provenance: Some(prov),
                ..b
            };
            let out = trimmed(stdout@);
            if timed_out {
                ReportView {
                    error_code: Some(WORKER_TIMEOUT@),
                    error: Some("worker timed out after "@ + seconds_text(number_opt_view(policy.timeout_seconds)) + "s"@),
                    ..failed
                }
            } else if out.len() == 0 {
                if code == Some(0i32) {
                    ReportView {
                        status: Some("ok"@),
                        confidence: Some(NumberView::Float("0.5"@)),
                        output: Some(JsonView::Object(Seq::empty())),
                        provenance: Some(prov),
                        ..b
                    }
                } else {
                    ReportView {
                        error_code: Some(WORKER_EXIT_NONZERO@),
                        error: Some("worker exited with return code "@ + exit_label(code)),
                        ..failed
                    }
                }
            } else {
                parsed_output_view(b, parsed_json(out), path, worker_ref, policy, attempt, max_attempts)
            }
        },
    }
}

fn text_entry(es: &Vec<(String, Json)>, key: &str) -> (r: Option<String>)
    ensures
        opt_view(r) == text_field(entries_view(es@), key@),
{
    match lookup_entry(es, key) {
        Some(Json::Str(s)) => Some(s.clone()),
        _ => None,
    }
}

fn number_entry(es: &Vec<(String, Json)>, key: &str) -> (r: Option<JsonNumber>)
    ensures
        number_opt_view(r) == number_field(entries_view(es@), key@),
{
    match lookup_entry(es, key) {
        Some(Json::Number(n)) => Some(as_binary64(n)),
        _ => None,
    }
}

fn output_entry(es: &Vec<(String, Json)>) -> (r: Json)
    ensures
        r@ == output_field(entries_view(es@)),
{
    match lookup_entry(es, "output") {
        None => empty_object(),
        Some(v) => match v {
            Json::Object(_) => v.duplicate(),
            _ => {
                let mut w: Vec<(String, Json)> = Vec::new();
                push_entry(&mut w, "value", v.duplicate());
                proof {
                    lemma_object_view(w);
                    assert(entries_view(w@) =~= seq![("value"@, v@)]);
                }
                Json::Object(w)
            },
        },
    }
}

fn opt_duplicate(o: Option<&Json>) -> (r: Option<Json>)
    ensures
        json_opt_view(r) == match o {
            Some(j) => Some(j@),
            None => None,
        },
{
    match o {
        Some(j) => Some(j.duplicate()),
        None => None,
    }
}

/// The report of an attempt whose worker wrote output, from what the JSON
/// parser made of that output, finalized.
pub fn report_from_output(
    report: TaskReport,
    parsed: Result<Json, String>,
    worker_path: &str,
    worker_ref: &str,
    policy: &TaskPolicy,
    attempt: u32,
    max_attempts: u32,
) -> (r: TaskReport)
    ensures
        r@ == finalize_view(parsed_output_view(report@, json_result_view(parsed), worker_path@, worker_ref@, *policy, attempt, max_attempts)),
{
    let mut report = report;
    let code = report.exit_code;
    match parsed {
        Err(m) => {
            report.error = Some(concat_str("worker output is not valid JSON: ", m.as_str()));
            report.error_code = Some(String::from_str(WORKER_OUTPUT_JSON_INVALID));
            report.status = Some(String::from_str("error"));
            report.confidence = Some(JsonNumber::Float(String::from_str("0.0")));
            report.output = Some(empty_object());
            report.provenance = Some(default_provenance(worker_path, code, worker_ref, policy, attempt, max_attempts, None));
            finalize_run_task_report(report)
        },
        Ok(Json::Object(es)) => {
            proof {
                lemma_object_view(es);
            }
            report.status = text_entry(&es, "status");
            report.confidence = number_entry(&es, "confidence");
            report.error = text_entry(&es, "error");
            report.error_code = text_entry(&es, "error_code");
            report.output = Some(output_entry(&es));
            let wp = opt_duplicate(lookup_entry(&es, "provenance"));
            report.provenance = Some(default_provenance(worker_path, code, worker_ref, policy, attempt, max_attempts, wp));
            finalize_run_task_report(report)
        },
        Ok(_) => {
            report.error = Some(String::from_str("worker output must be a JSON object"));
            report.error_code = Some(String::from_str(WORKER_OUTPUT_JSON_INVALID));
            report.status = Some(String::from_str("error"));
            report.confidence = Some(JsonNumber::Float(String::from_str("0.0")));
            report.output = Some(empty_object());
            report.provenance = Some(default_provenance(worker_path, code, worker_ref, policy, attempt, max_attempts, None));
            finalize_run_task_report(report)
        },
    }
}

/// The report's output, when an object, has distinct keys.
pub open spec fn output_keys_distinct(r: ReportView) -> bool {
    match r.output {
        Some(JsonView::Object(o)) => keys_distinct(o),
        _ => true,
    }
}

proof fn lemma_output_field_distinct(es: Seq<(Seq<char>, JsonView)>)
    requires
        well_keyed(JsonView::Object(es)),
    ensures
        match output_field(es) {
            JsonView::Object(o) => keys_distinct(o),
            _ => true,
        },
{
    if entry_lookup(es, "output"@) is Some {
        lemma_lookup_is_entry(es, "output"@);
        let i = choose|i: int| 0 <= i < es.len() && es[i].1 == entry_lookup(es, "output"@)->Some_0;
        assert(well_keyed(es[i].1));
    }
}

/// The report of one attempt, finalized, from what the worker process did.
pub fn attempt_report(
    task: &str,
    worker_ref: &str,
    worker_path: &str,
    policy: &TaskPolicy,
    attempt: u32,
    max_attempts: u32,
    started_at: String,
    finished_at: String,
    outcome: AttemptOutcome,
) -> (r: TaskReport)
    ensures
        r@ == finalize_view(attempt_view(task@, worker_ref@, worker_path@, *policy, attempt, max_attempts, started_at@, finished_at@, outcome)),
        output_keys_distinct(r@),
{
    let ghost spec_outcome = outcome;
    let mut report = TaskReport {
        ok: false,
        task: String::from_str(task),
        worker: Some(String::from_str(worker_ref)),
        worker_path: Some(String::from_str(worker_path)),
        exit_code: None,
        status: None,
        confidence: None,
        output: None,
        error_code: None,
        provenance: None,
        error: None,
        started_at: Some(started_at),
        finished_at: Some(finished_at),
        stderr: None,
    };
    let message = match &outcome {
        AttemptOutcome::LaunchFailed(d) => Some(concat_str("failed to launch worker: ", d.as_str())),
        AttemptOutcome::StdinFailed(d) => Some(concat_str("failed to write worker stdin: ", d.as_str())),
        AttemptOutcome::WaitFailed(d) => Some(concat_str("failed waiting for worker process: ", d.as_str())),
        AttemptOutcome::Exited { .. } => None,
    };
    match message {
        Some(m) => {
            report.error = Some(m);
            report.error_code = Some(String::from_str(RUNTIME_EXECUTION_FAILURE));
            report.status = Some(String::from_str("error"));
            report.confidence = Some(JsonNumber::Float(String::from_str("0.0")));
            report.output = Some(empty_object());
            report.provenance = Some(default_provenance(worker_path, None, worker_ref, policy, attempt, max_attempts, None));
            return finalize_run_task_report(report);
        },
        None => {},
    }
    match outcome {
        AttemptOutcome::Exited { exit_code, timed_out, stdout, stderr } => {
            let code = if timed_out { None } else { exit_code };
            report.exit_code = code;
            let err = trim_text(stderr.as_str());
            if err.unicode_len() > 0 {
                report.stderr = Some(String::from_str(err));
            }
            let out = trim_text(stdout.as_str());
            if timed_out || out.unicode_len() == 0 && code != Some(0i32) {
                report.status = Some(String::from_str("error"));
                report.confidence = Some(JsonNumber::Float(String::from_str("0.0")));
                report.output = Some(empty_object());
                report.provenance = Some(default_provenance(worker_path, code, worker_ref, policy, attempt, max_attempts, None));
                if timed_out {
                    report.error_code = Some(String::from_str(WORKER_TIMEOUT));
                    let a = concat_str("worker timed out after ", timeout_text(&policy.timeout_seconds).as_str());
                    report.error = Some(concat_str(a.as_str(), "s"));
                } else {
                    report.error_code = Some(String::from_str(WORKER_EXIT_NONZERO));
                    let label = match code {
                        Some(c) => decimal_text(c),
                        None => String::from_str("unknown"),
                    };
                    report.error = Some(concat_str("worker exited with return code ", label.as_str()));
                }
                return finalize_run_task_report(report);
            }
            if out.unicode_len() == 0 {
                report.status = Some(String::from_str("ok"));
                report.confidence = Some(JsonNumber::Float(String::from_str("0.5")));
                report.output = Some(empty_object());
                report.provenance = Some(default_provenance(worker_path, code, worker_ref, policy, attempt, max_attempts, None));
                return finalize_run_task_report(report);
            }
            let parsed = parse_json(out);
            let ghost pv = json_result_view(parsed);
            let r = report_from_output(report, parsed, worker_path, worker_ref, policy, attempt, max_attempts);
            proof {
                if let Ok(JsonView::Object(es)) = pv {
                    lemma_output_field_distinct(es);
                }
            }
            r
        },
        _ => {
            assert(false);
            finalize_run_task_report(report)
        },
    }
}

// ---------------------------------------------------------------------------
// Laws of a single attempt.

/// A worker that outlives its deadline yields `WORKER_TIMEOUT`, whatever it
/// wrote before it was stopped.
pub proof fn lemma_timeout_precedence(
    task: Seq<char>,
    worker_ref: Seq<char>,
    path: Seq<char>,
    policy: TaskPolicy,
    attempt: u32,
    max_attempts: u32,
    started_at: Seq<char>,
    finished_at: Seq<char>,
    exit_code: Option<i32>,
    stdout: String,
    stderr: String,
)
    ensures
        ({
            let r = finalize_view(attempt_view(task, worker_ref, path, policy, attempt, max_attempts, started_at, finished_at,
                AttemptOutcome::Exited { exit_code, timed_out: true, stdout, stderr }));
            &&& r.error_code == Some(WORKER_TIMEOUT@)
            &&& r.status == Some("error"@)
            &&& !r.ok
        }),
{
    reveal_strlit("ok");
    reveal_strlit("error");
    assert("error"@.len() == 5);
    assert("error"@ != "ok"@);
}

/// The worker wrote an object whose `status` is a string other than `ok` and `error`.
pub open spec fn reports_other_status(stdout: Seq<char>) -> bool {
    let out = trimmed(stdout);
    out.len() > 0 && match parsed_json(out) {
        Ok(JsonView::Object(es)) => match text_field(es, "status"@) {
            Some(s) => s != "ok"@ && s != "error"@,
            None => false,
        },
        _ => false,
    }
}

/// An attempt whose worker exited with a non-zero code ends with status
/// `error`, also when the worker claimed `ok`. (A worker that reports some
/// third status keeps it, and is left out.)
pub proof fn lemma_nonzero_exit_is_error(
    task: Seq<char>,
    worker_ref: Seq<char>,
    path: Seq<char>,
    policy: TaskPolicy,
    attempt: u32,
    max_attempts: u32,
    started_at: Seq<char>,
    finished_at: Seq<char>,
    code: i32,
    stdout: String,
    stderr: String,
)
    requires
        code != 0,
        !reports_other_status(stdout@),
    ensures
        ({
            let r = finalize_view(attempt_view(task, worker_ref, path, policy, attempt, max_attempts, started_at, finished_at,
                AttemptOutcome::Exited { exit_code: Some(code), timed_out: false, stdout, stderr }));
            &&& r.status == Some("error"@)
            &&& !r.ok
        }),
{
    reveal_strlit("ok");
    reveal_strlit("error");
    assert("error"@.len() == 5);
    assert("error"@ != "ok"@);
    let out = trimmed(stdout@);
    if out.len() > 0 {
        match parsed_json(out) {
            Ok(JsonView::Object(es)) => {
                let st = text_field(es, "status"@);
                assert(st is None || st == Some("ok"@) || st == Some("error"@));
            },
            _ => {},
        }
    }
}

// ---------------------------------------------------------------------------
// Retry controller.

/// The attempt-history entry of one attempt.
pub open spec fn opt_text_json(o: Option<Seq<char>>) -> JsonView {
    match o {
        Some(s) => JsonView::Str(s),
        None => JsonView::Null,
    }
}

pub open spec fn attempt_summary_view(attempt: u32, r: ReportView) -> JsonView {
    JsonView::Object(seq![
        ("attempt"@, JsonView::Number(NumberView::PosInt(attempt as u64))),
        ("status"@, opt_text_json(r.status)),
        ("error_code"@, opt_text_json(r.error_code)),
        ("error"@, opt_text_json(r.error)),
        ("started_at"@, opt_text_json(r.started_at)),
        ("finished_at"@, opt_text_json(r.finished_at)),
    ])
}

fn opt_text_value(o: &Option<String>) -> (r: Json)
    ensures
        r@ == opt_text_json(opt_view(*o)),
{
    match o {
        Some(s) => Json::Str(s.clone()),
        None => Json::Null,
    }
}

/// The attempt-history entry of one attempt.
pub fn attempt_summary(attempt: u32, report: &TaskReport) -> (r: Json)
    ensures
        r@ == attempt_summary_view(attempt, report@),
{
    let mut es: Vec<(String, Json)> = Vec::new();
    push_entry(&mut es, "attempt", Json::Number(JsonNumber::PosInt(attempt as u64)));
    push_entry(&mut es, "status", opt_text_value(&report.status));
    push_entry(&mut es, "error_code", opt_text_value(&report.error_code));
    push_entry(&mut es, "error", opt_text_value(&report.error));
    push_entry(&mut es, "started_at", opt_text_value(&report.started_at));
    push_entry(&mut es, "finished_at", opt_text_value(&report.finished_at));
    proof {
        lemma_object_view(es);
    }
    assert(entries_view(es@) =~= seq![
        ("attempt"@, JsonView::Number(NumberView::PosInt(attempt as u64))),
        ("status"@, opt_text_json(report@.status)),
        ("error_code"@, opt_text_json(report@.error_code)),
        ("error"@, opt_text_json(report@.error)),
        ("started_at"@, opt_text_json(report@.started_at)),
        ("finished_at"@, opt_text_json(report@.finished_at)),
    ]);
    Json::Object(es)
}

/// The attempts of one task under its retry policy. The caller runs each
/// attempt it is asked for, records the report, and sleeps the backoff
/// between attempts.
pub struct RetryRun {
    pub policy: TaskPolicy,
    pub max_attempts: u32,
    pub attempts: u32,
    pub history: Vec<Json>,
    pub last: Option<TaskReport>,
    pub finished: bool,
}

/// Whether attempts stop after this report.
pub open spec fn stops_after(policy: TaskPolicy, r: ReportView, attempt: u32, max_attempts: u32) -> bool {
    r.status == Some("ok"@) || !retry_wanted(policy.retries, policy.retry_if@, r.status, r.error_code) || attempt == max_attempts
}

impl RetryRun {
    pub open spec fn wf(&self) -> bool {
        &&& self.max_attempts == max_attempts_of(self.policy.retries)
        &&& self.history.len() == self.attempts
        &&& self.attempts <= self.max_attempts
        &&& (self.attempts == self.max_attempts ==> self.finished)
        &&& (self.attempts > 0 <==> self.last is Some)
        &&& (self.finished ==> self.attempts > 0)
    }

    pub fn new(policy: TaskPolicy) -> (r: RetryRun)
        ensures
            r.wf(),
            r.attempts == 0,
            !r.finished,
            r.policy == policy,
    {
        let max_attempts = policy.max_attempts();
        RetryRun { policy, max_attempts, attempts: 0, history: Vec::new(), last: None, finished: false }
    }

    /// The number of the attempt to run next, if any.
    pub fn next_attempt(&self) -> (r: Option<u32>)
        requires
            self.wf(),
        ensures
            r == if self.finished {
                None::<u32>
            } else {
                Some((self.attempts + 1) as u32)
            },
    {
        if self.finished {
            None
        } else {
            Some(self.attempts + 1)
        }
    }

    /// Records the report of the attempt just run.
    pub fn record(&mut self, report: TaskReport)
        requires
            old(self).wf(),
            !old(self).finished,
        ensures
            final(self).wf(),
            final(self).policy == old(self).policy,
            final(self).attempts == old(self).attempts + 1,
            final(self).history@.map_values(|j: Json| j@) == old(self).history@.map_values(|j: Json| j@).push(
                attempt_summary_view((old(self).attempts + 1) as u32, report@),
            ),
            final(self).last == Some(report),
            final(self).finished == stops_after(old(self).policy, report@, (old(self).attempts + 1) as u32, old(self).max_attempts),
    {
        let attempt = self.attempts + 1;
        let summary = attempt_summary(attempt, &report);
        let ghost before = self.history@;
        self.history.push(summary);
        assert(self.history@.map_values(|j: Json| j@) =~= before.map_values(|j: Json| j@).push(summary@));
        let is_ok = is_text(&report.status, "ok");
        let retry = should_retry(&self.policy, &report);
        self.finished = is_ok || !retry || attempt == self.max_attempts;
        self.attempts = attempt;
        self.last = Some(report);
    }

    /// The backoff multiplier to apply before the next attempt.
    pub fn backoff_multiplier(&self) -> (r: u32)
        ensures
            r == pow2_saturating(if self.attempts == 0 { 0 } else { (self.attempts - 1) as nat }),
    {
        backoff_factor(self.attempts)
    }

    /// The final report: the last attempt's, with the attempt history added
    /// to its provenance when more than one attempt was allowed.
    pub fn finish(self) -> (r: TaskReport)
        requires
            self.wf(),
            self.finished,
        ensures
            ({
                let last = self.last->Some_0@;
                &&& self.max_attempts <= 1 ==> r@ == last
                &&& self.max_attempts > 1 ==> r@ == ReportView {
                    provenance: Some(JsonView::Object(entries_after_set(
                        match last.provenance {
                            Some(JsonView::Object(es)) => es,
                            _ => Seq::empty(),
                        },
                        "attempts"@,
                        JsonView::Array(self.history@.map_values(|j: Json| j@)),
                    ))),
                    ..last
                }
            }),
    {
        let RetryRun { policy, max_attempts, attempts, history, last, finished } = self;
        let mut report = match last {
            Some(r) => r,
            None => {
                assert(false);
                return TaskReport {
                    ok: false, task: String::new(), worker: None, worker_path: None, exit_code: None, status: None,
                    confidence: None, output: None, error_code: None, provenance: None, error: None, started_at: None,
                    finished_at: None, stderr: None,
                };
            },
        };
        if max_attempts > 1 {
            let ghost hv = history@.map_values(|j: Json| j@);
            let mut es: Vec<(String, Json)> = match report.provenance {
                Some(Json::Object(es)) => {
                    proof {
                        lemma_object_view(es);
                    }
                    es
                },
                _ => Vec::new(),
            };
            let arr = Json::Array(history);
            assert(arr@ == JsonView::Array(hv)) by {
                if let JsonView::Array(t) = arr@ {
                    assert(t =~= hv);
                }
            }
            set_entry(&mut es, String::from_str("attempts"), arr);
            proof {
                lemma_object_view(es);
            }
            report.provenance = Some(Json::Object(es));
        }
        report
    }
}

/// Every state of a task's retries has made at most `retries + 1` attempts
/// and holds one history entry per attempt made.
pub proof fn lemma_retry_bound(run: RetryRun)
    requires
        run.wf(),
    ensures
        run.attempts <= run.policy.retries as int + 1,
        run.history.len() == run.attempts,
{
}

} // verus!
