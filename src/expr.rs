//! The expression evaluator: operand resolution against a context, value
//! comparison, and verify expressions of the form `<lhs> <op> <rhs>` or a
//! single boolean operand.

use crate::json::{
    compare_numbers, entries_view, entry_lookup, json_eq, json_equal, kind_name, lookup_entry,
    parse_json, parsed_json, value_type_name, Json, JsonView, Order, numeric_order,
};
use crate::strings::{concat_str, str_eq, trim_text, trimmed};
use vstd::prelude::*;

verus! {

// ---------------------------------------------------------------------------
// Operator scanning.

/// Reading state after one more character: (inside a string literal, the
/// previous character was an escaping backslash).
pub open spec fn quote_step(st: (bool, bool), c: char) -> (bool, bool) {
    if st.0 {
        if st.1 {
            (true, false)
        } else if c == '\\' {
            (true, true)
        } else if c == '"' {
            (false, false)
        } else {
            (true, false)
        }
    } else if c == '"' {
        (true, false)
    } else {
        (false, false)
    }
}

/// Reading state after the first `i` characters of `s`.
pub open spec fn quote_state(s: Seq<char>, i: int) -> (bool, bool)
    decreases i,
{
    if i <= 0 {
        (false, false)
    } else {
        quote_step(quote_state(s, i - 1), s[i - 1])
    }
}

/// The operator spelled at position `i`, longest first.
pub open spec fn op_spelled_at(s: Seq<char>, i: int) -> Option<Seq<char>> {
    let two = i + 1 < s.len();
    if two && s[i] == '=' && s[i + 1] == '=' {
        Some("=="@)
    } else if two && s[i] == '!' && s[i + 1] == '=' {
        Some("!="@)
    } else if two && s[i] == '>' && s[i + 1] == '=' {
        Some(">="@)
    } else if two && s[i] == '<' && s[i + 1] == '=' {
        Some("<="@)
    } else if s[i] == '>' {
        Some(">"@)
    } else if s[i] == '<' {
        Some("<"@)
    } else {
        None
    }
}

/// The operator that starts at position `i` outside any string literal.
pub open spec fn operator_at(s: Seq<char>, i: int) -> Option<Seq<char>> {
    if 0 <= i < s.len() && !quote_state(s, i).0 {
        op_spelled_at(s, i)
    } else {
        None
    }
}

/// `i` is the first position where an operator starts outside string literals.
pub open spec fn first_operator_at(s: Seq<char>, i: int) -> bool {
    &&& operator_at(s, i) is Some
    &&& forall|j: int| 0 <= j < i ==> operator_at(s, j) is None
}

fn op_text_at(s: &str, n: usize, i: usize) -> (r: Option<&'static str>)
    requires
        n == s@.len(),
        i < n,
    ensures
        match r {
            Some(op) => op_spelled_at(s@, i as int) == Some(op@),
            None => op_spelled_at(s@, i as int) is None,
        },
{
    let c = s.get_char(i);
    let d = if i + 1 < n {
        s.get_char(i + 1)
    } else {
        ' '
    };
    let two = i + 1 < n;
    if two && c == '=' && d == '=' {
        Some("==")
    } else if two && c == '!' && d == '=' {
        Some("!=")
    } else if two && c == '>' && d == '=' {
        Some(">=")
    } else if two && c == '<' && d == '=' {
        Some("<=")
    } else if c == '>' {
        Some(">")
    } else if c == '<' {
        Some("<")
    } else {
        None
    }
}

/// The first top-level binary operator of an expression and its position (in
/// characters), skipping string literals with their backslash escapes.
pub fn find_binary_operator(expression: &str) -> (r: Option<(usize, &'static str)>)
    ensures
        match r {
            Some((i, op)) => first_operator_at(expression@, i as int) && operator_at(expression@, i as int) == Some(op@),
            None => forall|j: int| 0 <= j < expression@.len() ==> operator_at(expression@, j) is None,
        },
{
    let n = expression.unicode_len();
    let mut in_string = false;
    let mut escaped = false;
    let mut index: usize = 0;
    while index < n
        invariant
            n == expression@.len(),
            index <= n,
            quote_state(expression@, index as int) == (in_string, escaped),
            forall|j: int| 0 <= j < index ==> operator_at(expression@, j) is None,
        decreases n - index,
    {
        let c = expression.get_char(index);
        if in_string {
            if escaped {
                escaped = false;
            } else if c == '\\' {
                escaped = true;
            } else if c == '"' {
                in_string = false;
            }
            index += 1;
        } else {
            if c == '"' {
                in_string = true;
                index += 1;
            } else {
                match op_text_at(expression, n, index) {
                    Some(op) => {
                        return Some((index, op));
                    },
                    None => {},
                }
                index += 1;
            }
        }
    }
    None
}

// ---------------------------------------------------------------------------
// Dotted paths.

/// The `.`-separated segments of the first `i` characters of `s`.
pub open spec fn segments_upto(s: Seq<char>, i: int) -> Seq<Seq<char>>
    decreases i,
{
    if i <= 0 {
        seq![Seq::empty()]
    } else {
        let p = segments_upto(s, i - 1);
        if s[i - 1] == '.' {
            p.push(Seq::empty())
        } else {
            p.update(p.len() - 1, p.last().push(s[i - 1]))
        }
    }
}

/// The `.`-separated segments of `s` (never empty: `""` has one empty segment).
pub open spec fn dot_segments(s: Seq<char>) -> Seq<Seq<char>> {
    segments_upto(s, s.len() as int)
}

proof fn lemma_segments_nonempty(s: Seq<char>, i: int)
    ensures
        segments_upto(s, i).len() >= 1,
    decreases i,
{
    if i > 0 {
        lemma_segments_nonempty(s, i - 1);
    }
}

/// Follows `segs[k..]` down through nested objects from `v`.
pub open spec fn descend(v: JsonView, segs: Seq<Seq<char>>, k: int) -> Option<JsonView>
    decreases segs.len() - k,
{
    if k >= segs.len() || k < 0 {
        Some(v)
    } else {
        match v {
            JsonView::Object(es) => match entry_lookup(es, segs[k]) {
                Some(w) => descend(w, segs, k + 1),
                None => None,
            },
            _ => None,
        }
    }
}

/// The value a dotted path names in a context: its first segment is a key of
/// the context, each further one a key of the object reached so far.
pub open spec fn path_value(ctx: Seq<(Seq<char>, JsonView)>, path: Seq<char>) -> Option<JsonView> {
    let segs = dot_segments(path);
    match entry_lookup(ctx, segs[0]) {
        Some(v) => descend(v, segs, 1),
        None => None,
    }
}

fn split_dots(path: &str) -> (r: Vec<&str>)
    ensures
        r@.map_values(|s: &str| s@) == dot_segments(path@),
{
    let n = path.unicode_len();
    let mut out: Vec<&str> = Vec::new();
    let mut start: usize = 0;
    let mut i: usize = 0;
    proof {
        let e = out@.map_values(|s: &str| s@);
        assert(e =~= Seq::<Seq<char>>::empty());
        assert(path@.subrange(0, 0) =~= Seq::<char>::empty());
        assert(e.push(path@.subrange(0, 0)) =~= seq![Seq::<char>::empty()]);
    }
    while i < n
        invariant
            n == path@.len(),
            start <= i <= n,
            segments_upto(path@, i as int) == out@.map_values(|s: &str| s@).push(path@.subrange(start as int, i as int)),
        decreases n - i,
    {
        let c = path.get_char(i);
        if c == '.' {
            let seg = path.substring_char(start, i);
            let ghost before = out@.map_values(|s: &str| s@);
            out.push(seg);
            assert(out@.map_values(|s: &str| s@) =~= before.push(seg@));
            start = i + 1;
            assert(path@.subrange(start as int, i + 1) =~= Seq::<char>::empty());
        } else {
            assert(path@.subrange(start as int, i + 1) =~= path@.subrange(start as int, i as int).push(c));
        }
        i += 1;
    }
    let last = path.substring_char(start, n);
    let ghost before = out@.map_values(|s: &str| s@);
    out.push(last);
    assert(out@.map_values(|s: &str| s@) =~= before.push(last@));
    out
}

/// The value a dotted path names in a context, if any.
pub fn resolve_path(context: &Vec<(String, Json)>, path: &str) -> (r: Option<Json>)
    ensures
        match r {
            Some(v) => path_value(entries_view(context@), path@) == Some(v@),
            None => path_value(entries_view(context@), path@) is None,
        },
{
    let segs = split_dots(path);
    let ghost sv = segs@.map_values(|s: &str| s@);
    proof {
        lemma_segments_nonempty(path@, path@.len() as int);
    }
    let mut current: &Json = match lookup_entry(context, segs[0]) {
        Some(v) => v,
        None => {
            return None;
        },
    };
    let mut k: usize = 1;
    while k < segs.len()
        invariant
            sv == segs@.map_values(|s: &str| s@),
            sv == dot_segments(path@),
            1 <= k <= segs.len(),
            path_value(entries_view(context@), path@) == descend(current@, sv, k as int),
        decreases segs.len() - k,
    {
        match current {
            Json::Object(es) => {
                proof {
                    assert(current@ == JsonView::Object(entries_view(es@))) by {
                        if let JsonView::Object(t) = current@ {
                            assert(t =~= entries_view(es@));
                        }
                    }
                }
                match lookup_entry(es, segs[k]) {
                    Some(v) => {
                        current = v;
                    },
                    None => {
                        return None;
                    },
                }
            },
            _ => {
                return None;
            },
        }
        k += 1;
    }
    Some(current.duplicate())
}

// ---------------------------------------------------------------------------
// Operands.

pub open spec fn unresolved_message(token: Seq<char>) -> Seq<char> {
    "unresolved identifier: "@ + token
}

/// An operand is a JSON literal if it parses as one, else a dotted path.
pub open spec fn resolved_operand(
    parsed: Result<JsonView, Seq<char>>,
    token: Seq<char>,
    ctx: Seq<(Seq<char>, JsonView)>,
) -> Result<JsonView, Seq<char>> {
    match parsed {
        Ok(v) => Ok(v),
        Err(_) => match path_value(ctx, token) {
            Some(v) => Ok(v),
            None => Err(unresolved_message(token)),
        },
    }
}

pub open spec fn operand_value(token: Seq<char>, ctx: Seq<(Seq<char>, JsonView)>) -> Result<JsonView, Seq<char>> {
    resolved_operand(parsed_json(token), token, ctx)
}

pub open spec fn json_result_view(r: Result<Json, String>) -> Result<JsonView, Seq<char>> {
    match r {
        Ok(v) => Ok(v@),
        Err(e) => Err(e@),
    }
}

/// Resolves an operand given what the JSON parser made of it.
pub fn resolve_parsed(parsed: Result<Json, String>, token: &str, context: &Vec<(String, Json)>) -> (r: Result<Json, String>)
    ensures
        json_result_view(r) == resolved_operand(json_result_view(parsed), token@, entries_view(context@)),
{
    match parsed {
        Ok(v) => Ok(v),
        Err(_) => match resolve_path(context, token) {
            Some(v) => Ok(v),
            None => Err(concat_str("unresolved identifier: ", token)),
        },
    }
}

/// Resolves an operand: a JSON literal, else a dotted path in the context.
pub fn resolve_operand(token: &str, context: &Vec<(String, Json)>) -> (r: Result<Json, String>)
    ensures
        json_result_view(r) == operand_value(token@, entries_view(context@)),
{
    let parsed = parse_json(token);
    resolve_parsed(parsed, token, context)
}

// ---------------------------------------------------------------------------
// Comparison.

/// Lexicographic order of two texts by character (the order of `str`).
pub open spec fn text_order(a: Seq<char>, b: Seq<char>) -> Order
    decreases a.len(),
{
    if a.len() == 0 {
        if b.len() == 0 {
            Order::Equal
        } else {
            Order::Less
        }
    } else if b.len() == 0 {
        Order::Greater
    } else if a[0] == b[0] {
        text_order(a.drop_first(), b.drop_first())
    } else if (a[0] as int) < (b[0] as int) {
        Order::Less
    } else {
        Order::Greater
    }
}

pub fn compare_text(a: &str, b: &str) -> (r: Order)
    ensures
        r == text_order(a@, b@),
{
    let n = a.unicode_len();
    let m = b.unicode_len();
    let mut i: usize = 0;
    assert(a@.subrange(0, n as int) =~= a@);
    assert(b@.subrange(0, m as int) =~= b@);
    while i < n && i < m
        invariant
            n == a@.len(),
            m == b@.len(),
            i <= n,
            i <= m,
            text_order(a@, b@) == text_order(a@.subrange(i as int, n as int), b@.subrange(i as int, m as int)),
        decreases n - i,
    {
        let c = a.get_char(i);
        let d = b.get_char(i);
        assert(a@.subrange(i as int, n as int)[0] == a@[i as int]);
        assert(b@.subrange(i as int, m as int)[0] == b@[i as int]);
        if c != d {
            if (c as u32) < (d as u32) {
                return Order::Less;
            }
            return Order::Greater;
        }
        assert(a@.subrange(i as int, n as int).drop_first() =~= a@.subrange(i + 1, n as int));
        assert(b@.subrange(i as int, m as int).drop_first() =~= b@.subrange(i + 1, m as int));
        i += 1;
    }
    if i == n {
        if i == m {
            Order::Equal
        } else {
            Order::Less
        }
    } else {
        Order::Greater
    }
}

pub open spec fn is_order_op(op: Seq<char>) -> bool {
    op == "<"@ || op == "<="@ || op == ">"@ || op == ">="@
}

/// Whether an ordering operator holds for an order (no order: it does not).
pub open spec fn order_holds(o: Option<Order>, op: Seq<char>) -> bool {
    match o {
        Some(Order::Less) => op == "<"@ || op == "<="@,
        Some(Order::Equal) => op == "<="@ || op == ">="@,
        Some(Order::Greater) => op == ">"@ || op == ">="@,
        None => false,
    }
}

pub open spec fn unsupported_comparison(l: JsonView, op: Seq<char>, r: JsonView) -> Seq<char> {
    "unsupported comparison: "@ + kind_name(l) + " "@ + op + " "@ + kind_name(r)
}

pub open spec fn unsupported_operator(op: Seq<char>) -> Seq<char> {
    "unsupported operator: "@ + op
}

/// `l op r`: equality is structural; an order holds between two numbers
/// (read as binary64 values) or two strings (lexicographically).
pub open spec fn comparison(l: JsonView, r: JsonView, op: Seq<char>) -> Result<bool, Seq<char>> {
    if op == "=="@ {
        Ok(json_eq(l, r))
    } else if op == "!="@ {
        Ok(!json_eq(l, r))
    } else if is_order_op(op) {
        match (l, r) {
            (JsonView::Number(a), JsonView::Number(b)) => Ok(order_holds(numeric_order(a, b), op)),
            (JsonView::Str(a), JsonView::Str(b)) => Ok(order_holds(Some(text_order(a, b)), op)),
            _ => Err(unsupported_comparison(l, op, r)),
        }
    } else {
        Err(unsupported_operator(op))
    }
}

/// Whether an ordering operator holds for a given order.
pub fn order_satisfies(o: Option<Order>, op: &str) -> (r: bool)
    ensures
        r == order_holds(o, op@),
{
    match o {
        Some(Order::Less) => str_eq(op, "<") || str_eq(op, "<="),
        Some(Order::Equal) => str_eq(op, "<=") || str_eq(op, ">="),
        Some(Order::Greater) => str_eq(op, ">") || str_eq(op, ">="),
        None => false,
    }
}

pub open spec fn bool_result_view(r: Result<bool, String>) -> Result<bool, Seq<char>> {
    match r {
        Ok(b) => Ok(b),
        Err(e) => Err(e@),
    }
}

/// Compares two values with one of `== != < <= > >=`.
pub fn compare_values(left: &Json, right: &Json, op: &str) -> (r: Result<bool, String>)
    ensures
        bool_result_view(r) == comparison(left@, right@, op@),
{
    if str_eq(op, "==") {
        return Ok(json_equal(left, right));
    }
    if str_eq(op, "!=") {
        return Ok(!json_equal(left, right));
    }
    if str_eq(op, "<") || str_eq(op, "<=") || str_eq(op, ">") || str_eq(op, ">=") {
        match (left, right) {
            (Json::Number(a), Json::Number(b)) => {
                return Ok(order_satisfies(compare_numbers(a, b), op));
            },
            (Json::Str(a), Json::Str(b)) => {
                return Ok(order_satisfies(Some(compare_text(a.as_str(), b.as_str())), op));
            },
            _ => {
                let m1 = concat_str("unsupported comparison: ", value_type_name(left));
                let m2 = concat_str(&m1, " ");
                let m3 = concat_str(&m2, op);
                let m4 = concat_str(&m3, " ");
                let m5 = concat_str(&m4, value_type_name(right));
                return Err(m5);
            },
        }
    }
    Err(concat_str("unsupported operator: ", op))
}

// ---------------------------------------------------------------------------
// Verify expressions.

/// The first top-level operator of `e` and where it starts.
pub open spec fn first_operator(e: Seq<char>) -> Option<(int, Seq<char>)> {
    if exists|i: int| first_operator_at(e, i) {
        let i = choose|i: int| first_operator_at(e, i);
        Some((i, operator_at(e, i)->Some_0))
    } else {
        None
    }
}

pub open spec fn empty_expression_message() -> Seq<char> {
    "empty expression"@
}

pub open spec fn invalid_binary_message(e: Seq<char>) -> Seq<char> {
    "invalid binary expression: "@ + e
}

pub open spec fn not_bool_message(e: Seq<char>) -> Seq<char> {
    "expression did not resolve to bool: "@ + e
}

/// What a verify expression evaluates to in a context.
pub open spec fn expression_value(expression: Seq<char>, ctx: Seq<(Seq<char>, JsonView)>) -> Result<bool, Seq<char>> {
    let e = trimmed(expression);
    if e.len() == 0 {
        Err(empty_expression_message())
    } else {
        match first_operator(e) {
            Some((i, op)) => {
                let l = trimmed(e.subrange(0, i));
                let r = trimmed(e.subrange(i + op.len(), e.len() as int));
                if l.len() == 0 || r.len() == 0 {
                    Err(invalid_binary_message(e))
                } else {
                    match operand_value(l, ctx) {
                        Err(m) => Err(m),
                        Ok(lv) => match operand_value(r, ctx) {
                            Err(m) => Err(m),
                            Ok(rv) => comparison(lv, rv, op),
                        },
                    }
                }
            },
            None => match operand_value(e, ctx) {
                Err(m) => Err(m),
                Ok(JsonView::Bool(b)) => Ok(b),
                Ok(_) => Err(not_bool_message(e)),
            },
        }
    }
}

proof fn lemma_first_operator_unique(e: Seq<char>, i: int)
    requires
        first_operator_at(e, i),
    ensures
        first_operator(e) == Some((i, operator_at(e, i)->Some_0)),
{
    let k = choose|k: int| first_operator_at(e, k);
    if k < i {
        assert(operator_at(e, k) is None);
    }
    if i < k {
        assert(operator_at(e, i) is None);
    }
}

/// Evaluates a verify expression in a context.
pub fn eval_boolean_expression(expression: &str, context: &Vec<(String, Json)>) -> (r: Result<bool, String>)
    ensures
        bool_result_view(r) == expression_value(expression@, entries_view(context@)),
{
    let expr = trim_text(expression);
    if expr.unicode_len() == 0 {
        return Err(String::from_str("empty expression"));
    }
    match find_binary_operator(expr) {
        Some((index, op)) => {
            proof {
                lemma_first_operator_unique(expr@, index as int);
            }
            let n = expr.unicode_len();
            let oplen = op.unicode_len();
            proof {
                reveal_strlit("==");
                reveal_strlit("!=");
                reveal_strlit(">=");
                reveal_strlit("<=");
                reveal_strlit(">");
                reveal_strlit("<");
                assert(index + oplen <= n);
            }
            let left = trim_text(expr.substring_char(0, index));
            let right = trim_text(expr.substring_char(index + oplen, n));
            if left.unicode_len() == 0 || right.unicode_len() == 0 {
                return Err(concat_str("invalid binary expression: ", expr));
            }
            let lv = match resolve_operand(left, context) {
                Ok(v) => v,
                Err(m) => {
                    return Err(m);
                },
            };
            let rv = match resolve_operand(right, context) {
                Ok(v) => v,
                Err(m) => {
                    return Err(m);
                },
            };
            compare_values(&lv, &rv, op)
        },
        None => {
            proof {
                assert(!exists|i: int| first_operator_at(expr@, i));
            }
            match resolve_operand(expr, context) {
                Ok(Json::Bool(b)) => Ok(b),
                Ok(_) => Err(concat_str("expression did not resolve to bool: ", expr)),
                Err(m) => Err(m),
            }
        },
    }
}

} // verus!
