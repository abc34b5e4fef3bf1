//! The JSON values that flow through a plan run: worker outputs, shared
//! variables, constraint operands and the trace's task records.

use crate::strings::str_eq;
use vstd::prelude::*;

verus! {

/// A JSON number the way serde_json holds one: a non-negative integer, a
/// negative integer, or a finite float. A float is held as the text serde_json
/// writes for it (shortest round-trip form, such as `0.5`, `1.0` or `1e+300`).
#[derive(Clone, Debug)]
pub enum JsonNumber {
    PosInt(u64),
    NegInt(i64),
    Float(String),
}

/// A JSON value. An object keeps its entries in order, with distinct keys.
pub enum Json {
    Null,
    Bool(bool),
    Number(JsonNumber),
    Str(String),
    Array(Vec<Json>),
    Object(Vec<(String, Json)>),
}

/// The result of comparing two numbers.
#[derive(Clone, Copy, Debug, PartialEq, Eq, Structural)]
pub enum Order {
    Less,
    Equal,
    Greater,
}

/// The mathematical form of a number.
pub enum NumberView {
    PosInt(u64),
    NegInt(i64),
    Float(Seq<char>),
}

/// The mathematical form of a JSON value.
pub enum JsonView {
    Null,
    Bool(bool),
    Number(NumberView),
    Str(Seq<char>),
    Array(Seq<JsonView>),
    Object(Seq<(Seq<char>, JsonView)>),
}

pub open spec fn number_view(n: JsonNumber) -> NumberView {
    match n {
        JsonNumber::PosInt(x) => NumberView::PosInt(x),
        JsonNumber::NegInt(x) => NumberView::NegInt(x),
        JsonNumber::Float(t) => NumberView::Float(t@),
    }
}

pub open spec fn json_view(j: Json) -> JsonView
    decreases j,
{
    match j {
        Json::Null => JsonView::Null,
        Json::Bool(b) => JsonView::Bool(b),
        Json::Number(n) => JsonView::Number(number_view(n)),
        Json::Str(s) => JsonView::Str(s@),
        Json::Array(xs) => JsonView::Array(
            Seq::new(xs@.len(), |i: int| if 0 <= i < xs@.len() { json_view(xs@[i]) } else { JsonView::Null }),
        ),
        Json::Object(es) => JsonView::Object(
            Seq::new(
                es@.len(),
                |i: int|
                    if 0 <= i < es@.len() {
                        (es@[i].0@, json_view(es@[i].1))
                    } else {
                        (Seq::empty(), JsonView::Null)
                    },
            ),
        ),
    }
}

impl View for JsonNumber {
    type V = NumberView;

    open spec fn view(&self) -> NumberView {
        number_view(*self)
    }
}

impl View for Json {
    type V = JsonView;

    open spec fn view(&self) -> JsonView {
        json_view(*self)
    }
}

/// The view of object entries.
pub open spec fn entries_view(es: Seq<(String, Json)>) -> Seq<(Seq<char>, JsonView)> {
    Seq::new(es.len(), |i: int| (es[i].0@, json_view(es[i].1)))
}

/// A float text that stands for zero (`0.0` or `-0.0`).
pub open spec fn zero_text(t: Seq<char>) -> bool {
    t == "0.0"@ || t == "-0.0"@
}

/// Number equality as serde_json defines it: same kind and same value.
pub open spec fn number_eq(a: NumberView, b: NumberView) -> bool {
    match (a, b) {
        (NumberView::PosInt(x), NumberView::PosInt(y)) => x == y,
        (NumberView::NegInt(x), NumberView::NegInt(y)) => x == y,
        (NumberView::Float(x), NumberView::Float(y)) => x == y || (zero_text(x) && zero_text(y)),
        _ => false,
    }
}

/// The value stored under `key` in object entries (the first entry with that key).
pub open spec fn entry_lookup(es: Seq<(Seq<char>, JsonView)>, key: Seq<char>) -> Option<JsonView>
    decreases es.len(),
{
    if es.len() == 0 {
        None
    } else if es[0].0 == key {
        Some(es[0].1)
    } else {
        entry_lookup(es.drop_first(), key)
    }
}

/// Structural JSON equality: objects compare as maps from key to value.
pub open spec fn json_eq(a: JsonView, b: JsonView) -> bool
    decreases a,
{
    match a {
        JsonView::Null => b is Null,
        JsonView::Bool(x) => b == JsonView::Bool(x),
        JsonView::Number(x) => match b {
            JsonView::Number(y) => number_eq(x, y),
            _ => false,
        },
        JsonView::Str(x) => b == JsonView::Str(x),
        JsonView::Array(xs) => match b {
            JsonView::Array(ys) => xs.len() == ys.len() && forall|i: int|
                0 <= i < xs.len() ==> json_eq(#[trigger] xs[i], ys[i]),
            _ => false,
        },
        JsonView::Object(xs) => match b {
            JsonView::Object(ys) => xs.len() == ys.len() && forall|i: int|
                0 <= i < xs.len() ==> match entry_lookup(ys, (#[trigger] xs[i]).0) {
                    Some(v) => json_eq(xs[i].1, v),
                    None => false,
                },
            _ => false,
        },
    }
}

/// The name of a value's JSON type.
pub open spec fn kind_name(v: JsonView) -> Seq<char> {
    match v {
        JsonView::Null => "null"@,
        JsonView::Bool(_) => "bool"@,
        JsonView::Number(_) => "number"@,
        JsonView::Str(_) => "string"@,
        JsonView::Array(_) => "array"@,
        JsonView::Object(_) => "object"@,
    }
}

pub fn value_type_name(v: &Json) -> (r: &'static str)
    ensures
        r@ == kind_name(v@),
{
    match v {
        Json::Null => "null",
        Json::Bool(_) => "bool",
        Json::Number(_) => "number",
        Json::Str(_) => "string",
        Json::Array(_) => "array",
        Json::Object(_) => "object",
    }
}

fn is_zero_text(t: &String) -> (r: bool)
    ensures
        r == zero_text(t@),
{
    str_eq(t.as_str(), "0.0") || str_eq(t.as_str(), "-0.0")
}

pub fn number_equal(a: &JsonNumber, b: &JsonNumber) -> (r: bool)
    ensures
        r == number_eq(a@, b@),
{
    match (a, b) {
        (JsonNumber::PosInt(x), JsonNumber::PosInt(y)) => *x == *y,
        (JsonNumber::NegInt(x), JsonNumber::NegInt(y)) => *x == *y,
        (JsonNumber::Float(x), JsonNumber::Float(y)) => str_eq(x.as_str(), y.as_str()) || (
        is_zero_text(x) && is_zero_text(y)),
        _ => false,
    }
}

/// The value stored under `key` among object entries.
pub fn lookup_entry<'a>(es: &'a Vec<(String, Json)>, key: &str) -> (r: Option<&'a Json>)
    ensures
        match r {
            Some(v) => entry_lookup(entries_view(es@), key@) == Some(v@),
            None => entry_lookup(entries_view(es@), key@) is None,
        },
{
    let mut i: usize = 0;
    assert(entries_view(es@).subrange(0, es.len() as int) =~= entries_view(es@));
    while i < es.len()
        invariant
            i <= es.len(),
            entry_lookup(entries_view(es@), key@) == entry_lookup(entries_view(es@).subrange(i as int, es.len() as int), key@),
        decreases es.len() - i,
    {
        let ghost rest = entries_view(es@).subrange(i as int, es.len() as int);
        assert(rest.drop_first() =~= entries_view(es@).subrange(i + 1, es.len() as int));
        assert(rest[0] == (es@[i as int].0@, es@[i as int].1@));
        if str_eq(es[i].0.as_str(), key) {
            return Some(&es[i].1);
        }
        i += 1;
    }
    None
}

/// Structural JSON equality.
pub fn json_equal(a: &Json, b: &Json) -> (r: bool)
    ensures
        r == json_eq(a@, b@),
    decreases a@,
{
    match (a, b) {
        (Json::Null, Json::Null) => true,
        (Json::Bool(x), Json::Bool(y)) => *x == *y,
        (Json::Number(x), Json::Number(y)) => number_equal(x, y),
        (Json::Str(x), Json::Str(y)) => str_eq(x.as_str(), y.as_str()),
        (Json::Array(xs), Json::Array(ys)) => {
            if xs.len() != ys.len() {
                return false;
            }
            let ghost av = a@;
            let ghost bv = b@;
            let mut i: usize = 0;
            while i < xs.len()
                invariant
                    *a == Json::Array(*xs),
                    *b == Json::Array(*ys),
                    av == a@,
                    bv == b@,
                    xs.len() == ys.len(),
                    i <= xs.len(),
                    forall|k: int| 0 <= k < i ==> json_eq(#[trigger] xs@[k]@, ys@[k]@),
                decreases xs.len() - i,
            {
                proof {
                    if let JsonView::Array(s) = av {
                        assert(s[i as int] == xs@[i as int]@);
                        assert(decreases_to!(av => s));
                    }
                }
                if !json_equal(&xs[i], &ys[i]) {
                    proof {
                        if let JsonView::Array(s) = av {
                            if let JsonView::Array(t) = bv {
                                assert(s[i as int] == xs@[i as int]@);
                                assert(t[i as int] == ys@[i as int]@);
                            }
                        }
                    }
                    return false;
                }
                i += 1;
            }
            proof {
                if let JsonView::Array(s) = av {
                    if let JsonView::Array(t) = bv {
                        assert forall|k: int| 0 <= k < s.len() implies json_eq(#[trigger] s[k], t[k]) by {
                            assert(s[k] == xs@[k]@);
                            assert(t[k] == ys@[k]@);
                        }
                    }
                }
            }
            true
        },
        (Json::Object(xs), Json::Object(ys)) => {
            if xs.len() != ys.len() {
                return false;
            }
            let ghost av = a@;
            let ghost yv = entries_view(ys@);
            let mut i: usize = 0;
            while i < xs.len()
                invariant
                    *a == Json::Object(*xs),
                    *b == Json::Object(*ys),
                    av == a@,
                    yv == entries_view(ys@),
                    xs.len() == ys.len(),
                    i <= xs.len(),
                    forall|k: int|
                        0 <= k < i ==> match entry_lookup(yv, (#[trigger] xs@[k]).0@) {
                            Some(v) => json_eq(xs@[k].1@, v),
                            None => false,
                        },
                decreases xs.len() - i,
            {
                proof {
                    if let JsonView::Object(s) = av {
                        assert(s[i as int].1 == xs@[i as int].1@);
                        assert(decreases_to!(av => s));
                    }
                }
                match lookup_entry(ys, xs[i].0.as_str()) {
                    Some(v) => {
                        if !json_equal(&xs[i].1, v) {
                            proof {
                                if let JsonView::Object(s) = av {
                                    assert(s[i as int] == (xs@[i as int].0@, xs@[i as int].1@));
                                    if let JsonView::Object(t) = b@ {
                                        assert(t =~= yv);
                                    }
                                }
                            }
                            return false;
                        }
                    },
                    None => {
                        proof {
                            if let JsonView::Object(s) = av {
                                assert(s[i as int] == (xs@[i as int].0@, xs@[i as int].1@));
                                if let JsonView::Object(t) = b@ {
                                    assert(t =~= yv);
                                }
                            }
                        }
                        return false;
                    },
                }
                i += 1;
            }
            proof {
                if let JsonView::Object(s) = av {
                    if let JsonView::Object(t) = b@ {
                        assert(t =~= yv);
                        assert forall|k: int| 0 <= k < s.len() implies match entry_lookup(t, (#[trigger] s[k]).0) {
                            Some(v) => json_eq(s[k].1, v),
                            None => false,
                        } by {
                            assert(s[k] == (xs@[k].0@, xs@[k].1@));
                        }
                    }
                }
            }
            true
        },
        _ => false,
    }
}

impl Json {
    /// A copy of the value.
    pub fn duplicate(&self) -> (r: Json)
        ensures
            r@ == self@,
        decreases self@,
    {
        match self {
            Json::Null => Json::Null,
            Json::Bool(b) => Json::Bool(*b),
            Json::Number(n) => Json::Number(n.duplicate()),
            Json::Str(s) => Json::Str(s.clone()),
            Json::Array(xs) => {
                let ghost sv = self@;
                let mut out: Vec<Json> = Vec::new();
                let mut i: usize = 0;
                while i < xs.len()
                    invariant
                        *self == Json::Array(*xs),
                        sv == self@,
                        i <= xs.len(),
                        out.len() == i,
                        forall|k: int| 0 <= k < i ==> (#[trigger] out@[k])@ == xs@[k]@,
                    decreases xs.len() - i,
                {
                    proof {
                        if let JsonView::Array(s) = sv {
                            assert(s[i as int] == xs@[i as int]@);
                            assert(decreases_to!(sv => s));
                        }
                    }
                    out.push(xs[i].duplicate());
                    i += 1;
                }
                let r = Json::Array(out);
                assert(r@ =~= self@) by {
                    if let JsonView::Array(s) = sv {
                        if let JsonView::Array(t) = r@ {
                            assert(t =~= s);
                        }
                    }
                }
                r
            },
            Json::Object(es) => {
                let ghost sv = self@;
                let mut out: Vec<(String, Json)> = Vec::new();
                let mut i: usize = 0;
                while i < es.len()
                    invariant
                        *self == Json::Object(*es),
                        sv == self@,
                        i <= es.len(),
                        out.len() == i,
                        forall|k: int| 0 <= k < i ==> (#[trigger] out@[k]).0@ == es@[k].0@ && out@[k].1@ == es@[k].1@,
                    decreases es.len() - i,
                {
                    proof {
                        if let JsonView::Object(s) = sv {
                            assert(s[i as int].1 == es@[i as int].1@);
                            assert(decreases_to!(sv => s));
                        }
                    }
                    let k = es[i].0.clone();
                    let v = es[i].1.duplicate();
                    out.push((k, v));
                    i += 1;
                }
                let r = Json::Object(out);
                assert(r@ =~= self@) by {
                    if let JsonView::Object(s) = sv {
                        if let JsonView::Object(t) = r@ {
                            assert(t =~= s);
                        }
                    }
                }
                r
            },
        }
    }
}

impl JsonNumber {
    pub fn duplicate(&self) -> (r: JsonNumber)
        ensures
            r@ == self@,
    {
        match self {
            JsonNumber::PosInt(x) => JsonNumber::PosInt(*x),
            JsonNumber::NegInt(x) => JsonNumber::NegInt(*x),
            JsonNumber::Float(t) => JsonNumber::Float(t.clone()),
        }
    }
}

/// No two entries share a key.
pub open spec fn keys_distinct(es: Seq<(Seq<char>, JsonView)>) -> bool {
    forall|i: int, j: int| 0 <= i < j < es.len() ==> es[i].0 != es[j].0
}

/// Every object inside the value, itself included, has distinct keys.
pub open spec fn well_keyed(v: JsonView) -> bool
    decreases v,
{
    match v {
        JsonView::Object(es) => keys_distinct(es) && forall|i: int| 0 <= i < es.len() ==> well_keyed(#[trigger] es[i].1),
        JsonView::Array(xs) => forall|i: int| 0 <= i < xs.len() ==> well_keyed(#[trigger] xs[i]),
        _ => true,
    }
}

/// The value found under a key is the value of one of the entries.
pub proof fn lemma_lookup_is_entry(es: Seq<(Seq<char>, JsonView)>, key: Seq<char>)
    requires
        entry_lookup(es, key) is Some,
    ensures
        exists|i: int| 0 <= i < es.len() && es[i].1 == entry_lookup(es, key)->Some_0,
    decreases es.len(),
{
    if es[0].0 != key {
        lemma_lookup_is_entry(es.drop_first(), key);
        let i = choose|i: int| 0 <= i < es.drop_first().len() && es.drop_first()[i].1 == entry_lookup(es.drop_first(), key)->Some_0;
        assert(es[i + 1].1 == entry_lookup(es, key)->Some_0);
    } else {
        assert(es[0].1 == entry_lookup(es, key)->Some_0);
    }
}

/// What serde_json makes of a text: the value it denotes, or the message of
/// its parse error.
pub uninterp spec fn parsed_json(text: Seq<char>) -> Result<JsonView, Seq<char>>;

/// Relies on `serde_json::from_str::<serde_json::Value>` and the `Display` of
/// its error: both depend on the text alone, and the objects it builds are
/// maps, so no object repeats a key.
#[verifier::external_body]
pub(crate) fn parse_json(text: &str) -> (r: Result<Json, String>)
    ensures
        match r {
            Ok(v) => parsed_json(text@) == Ok::<JsonView, Seq<char>>(v@) && well_keyed(v@),
            Err(e) => parsed_json(text@) == Err::<JsonView, Seq<char>>(e@),
        },
{
    serde_json::from_str::<serde_json::Value>(text).map(json_from_serde).map_err(|e| e.to_string())
}

/// serde_json's value type, carried opaquely into the conversion below.
#[verifier::external_type_specification]
#[verifier::external_body]
pub struct ExValue(serde_json::Value);

/// Converts a serde_json value into the library's own form, one for one.
#[verifier::external_body]
fn json_from_serde(v: serde_json::Value) -> Json {
    match v {
        serde_json::Value::Null => Json::Null,
        serde_json::Value::Bool(b) => Json::Bool(b),
        serde_json::Value::Number(n) => Json::Number(number_from_serde(n)),
        serde_json::Value::String(s) => Json::Str(s),
        serde_json::Value::Array(a) => Json::Array(a.into_iter().map(json_from_serde).collect()),
        serde_json::Value::Object(m) => Json::Object(m.into_iter().map(|(k, x)| (k, json_from_serde(x))).collect()),
    }
}

/// serde_json's number type, carried opaquely into the conversions here.
#[verifier::external_type_specification]
#[verifier::external_body]
pub struct ExNumber(serde_json::Number);

/// Converts a serde_json number into the library's own form, one for one.
#[verifier::external_body]
fn number_from_serde(n: serde_json::Number) -> JsonNumber {
    match (n.as_u64(), n.as_i64()) {
        (Some(u), _) => JsonNumber::PosInt(u),
        (None, Some(i)) => JsonNumber::NegInt(i),
        (None, None) => JsonNumber::Float(n.to_string()),
    }
}

/// Converts a number of the library's own form into a serde_json value, one for one.
#[verifier::external_body]
fn number_to_serde(n: &JsonNumber) -> serde_json::Value {
    match n {
        JsonNumber::PosInt(u) => serde_json::Value::from(*u),
        JsonNumber::NegInt(i) => serde_json::Value::from(*i),
        JsonNumber::Float(t) => t.parse::<serde_json::Number>().map(serde_json::Value::Number).unwrap_or(serde_json::Value::Null),
    }
}

/// The value of an integer of magnitude at most 2^53, which a binary64 value
/// holds exactly.
pub open spec fn small_int(n: NumberView) -> Option<int> {
    match n {
        NumberView::PosInt(u) => if u <= 0x20_0000_0000_0000 { Some(u as int) } else { None },
        NumberView::NegInt(i) => if -0x20_0000_0000_0000 <= i && i <= 0x20_0000_0000_0000 { Some(i as int) } else { None },
        NumberView::Float(_) => None,
    }
}

pub open spec fn int_order(x: int, y: int) -> Order {
    if x < y { Order::Less } else if x == y { Order::Equal } else { Order::Greater }
}

/// How two numbers compare once each is read as a binary64 value
/// (`serde_json::Number::as_f64`).
pub uninterp spec fn numeric_order(a: NumberView, b: NumberView) -> Option<Order>;

/// Relies on `serde_json::Number::as_f64` and on `partial_cmp` of the two
/// values it gives: the order depends on the two numbers alone.
#[verifier::external_body]
pub(crate) fn compare_numbers(a: &JsonNumber, b: &JsonNumber) -> (r: Option<Order>)
    ensures
        r == numeric_order(a@, b@),
        small_int(a@) is Some && small_int(b@) is Some ==> r == Some(int_order(small_int(a@)->Some_0, small_int(b@)->Some_0)),
{
    let f = |n: &JsonNumber| match n {
        JsonNumber::PosInt(u) => serde_json::Number::from(*u).as_f64(),
        JsonNumber::NegInt(i) => serde_json::Number::from(*i).as_f64(),
        JsonNumber::Float(t) => t.parse::<serde_json::Number>().ok().and_then(|x| x.as_f64()),
    };
    f(a).zip(f(b)).and_then(|(x, y)| x.partial_cmp(&y)).map(|o| match o {
        core::cmp::Ordering::Less => Order::Less,
        core::cmp::Ordering::Equal => Order::Equal,
        core::cmp::Ordering::Greater => Order::Greater,
    })
}

/// The compact JSON text serde_json writes for a value.
pub uninterp spec fn serialized(v: JsonView) -> Seq<char>;

/// Relies on the `Display` of `serde_json::Value` (compact JSON text), which
/// depends on the value alone.
#[verifier::external_body]
pub(crate) fn json_text(v: &Json) -> (r: String)
    ensures
        r@ == serialized(v@),
{
    json_to_serde(v).to_string()
}

/// Converts a value of the library's own form into serde_json's, one for one.
#[verifier::external_body]
fn json_to_serde(v: &Json) -> serde_json::Value {
    match v {
        Json::Null => serde_json::Value::Null,
        Json::Bool(b) => serde_json::Value::Bool(*b),
        Json::Number(n) => number_to_serde(n),
        Json::Str(s) => serde_json::Value::String(s.clone()),
        Json::Array(xs) => serde_json::Value::Array(xs.iter().map(json_to_serde).collect()),
        Json::Object(es) => serde_json::Value::Object(es.iter().map(|(k, x)| (k.clone(), json_to_serde(x))).collect()),
    }
}

/// The entries after setting `key` to `value`: an existing entry for the key
/// is replaced in place, otherwise the entry is appended.
pub open spec fn entries_after_set(es: Seq<(Seq<char>, JsonView)>, key: Seq<char>, value: JsonView) -> Seq<(Seq<char>, JsonView)>
    decreases es.len(),
{
    if es.len() == 0 {
        seq![(key, value)]
    } else if es[0].0 == key {
        es.update(0, (key, value))
    } else {
        seq![es[0]] + entries_after_set(es.drop_first(), key, value)
    }
}

pub proof fn lemma_lookup_after_set(es: Seq<(Seq<char>, JsonView)>, key: Seq<char>, value: JsonView, q: Seq<char>)
    ensures
        entry_lookup(entries_after_set(es, key, value), q) == (if q == key {
            Some(value)
        } else {
            entry_lookup(es, q)
        }),
    decreases es.len(),
{
    let after = entries_after_set(es, key, value);
    if es.len() == 0 {
        assert(after == seq![(key, value)]);
        assert(after[0] == (key, value));
        assert(after.drop_first() =~= Seq::<(Seq<char>, JsonView)>::empty());
        assert(entry_lookup(after.drop_first(), q) is None);
    } else if es[0].0 == key {
        assert(after == es.update(0, (key, value)));
        assert(after[0] == (key, value));
        assert(after.drop_first() =~= es.drop_first());
    } else {
        let rest = entries_after_set(es.drop_first(), key, value);
        assert(after == seq![es[0]] + rest);
        assert(after[0] == es[0]);
        assert(after.drop_first() =~= rest);
        lemma_lookup_after_set(es.drop_first(), key, value, q);
    }
}

/// Sets `key` to `value` among object entries.
pub fn set_entry(es: &mut Vec<(String, Json)>, key: String, value: Json)
    ensures
        entries_view(final(es)@) == entries_after_set(entries_view(old(es)@), key@, value@),
{
    let ghost ev = entries_view(es@);
    let mut i: usize = 0;
    while i < es.len()
        invariant
            ev == entries_view(es@),
            ev == entries_view(old(es)@),
            i <= es.len(),
            forall|j: int| 0 <= j < i ==> es@[j].0@ != key@,
        decreases es.len() - i,
    {
        if str_eq(es[i].0.as_str(), key.as_str()) {
            let ghost kv = key@;
            let ghost vv = value@;
            let ghost old_es = es@;
            es.set(i, (key, value));
            proof {
                assert(ev[i as int].0 == kv);
                assert forall|j: int| 0 <= j < i implies ev[j].0 != kv by {
                    assert(ev[j].0 == old_es[j].0@);
                }
                lemma_set_at_first(ev, kv, vv, i as int);
                assert(es@ == old_es.update(i as int, es@[i as int]));
                assert(entries_view(es@) =~= ev.update(i as int, (kv, vv)));
            }
            return;
        }
        i += 1;
    }
    let ghost kv = key@;
    let ghost vv = value@;
    es.push((key, value));
    proof {
        assert forall|j: int| 0 <= j < ev.len() implies ev[j].0 != kv by {
            assert(ev[j].0 == es@[j].0@);
        }
        lemma_set_absent(ev, kv, vv);
        assert(entries_view(es@) =~= ev.push((kv, vv)));
    }
}

proof fn lemma_set_at_first(es: Seq<(Seq<char>, JsonView)>, key: Seq<char>, value: JsonView, i: int)
    requires
        0 <= i < es.len(),
        es[i].0 == key,
        forall|j: int| 0 <= j < i ==> es[j].0 != key,
    ensures
        entries_after_set(es, key, value) == es.update(i, (key, value)),
    decreases es.len(),
{
    if i > 0 {
        lemma_set_at_first(es.drop_first(), key, value, i - 1);
        assert(seq![es[0]] + es.drop_first().update(i - 1, (key, value)) =~= es.update(i, (key, value)));
    }
}

proof fn lemma_set_absent(es: Seq<(Seq<char>, JsonView)>, key: Seq<char>, value: JsonView)
    requires
        forall|j: int| 0 <= j < es.len() ==> es[j].0 != key,
    ensures
        entries_after_set(es, key, value) == es.push((key, value)),
    decreases es.len(),
{
    if es.len() > 0 {
        lemma_set_absent(es.drop_first(), key, value);
        assert(seq![es[0]] + es.drop_first().push((key, value)) =~= es.push((key, value)));
    }
}

/// A number as serde_json holds it once read as a binary64 value
/// (`serde_json::Number::as_f64`, then `serde_json::Number::from_f64`).
pub uninterp spec fn binary64_form(n: NumberView) -> NumberView;

/// Relies on `serde_json::Number::as_f64`, `serde_json::Number::from_f64` and
/// the `Display` of `serde_json::Number`: the result depends on the number alone.
#[verifier::external_body]
pub(crate) fn as_binary64(n: &JsonNumber) -> (r: JsonNumber)
    ensures
        r@ == binary64_form(n@),
{
    let x = match n {
        JsonNumber::PosInt(u) => serde_json::Number::from(*u).as_f64(),
        JsonNumber::NegInt(i) => serde_json::Number::from(*i).as_f64(),
        JsonNumber::Float(t) => t.parse::<serde_json::Number>().ok().and_then(|m| m.as_f64()),
    };
    match x.and_then(serde_json::Number::from_f64) {
        Some(m) => JsonNumber::Float(m.to_string()),
        None => n.clone(),
    }
}

/// An empty object.
pub fn empty_object() -> (r: Json)
    ensures
        r@ == JsonView::Object(Seq::empty()),
{
    let r = Json::Object(Vec::new());
    assert(r@ == JsonView::Object(Seq::empty())) by {
        if let JsonView::Object(t) = r@ {
            assert(t =~= Seq::<(Seq<char>, JsonView)>::empty());
        }
    }
    r
}

/// The view of an object value is the view of its entries.
pub proof fn lemma_object_view(es: Vec<(String, Json)>)
    ensures
        Json::Object(es)@ == JsonView::Object(entries_view(es@)),
{
    if let JsonView::Object(t) = Json::Object(es)@ {
        assert(t =~= entries_view(es@));
    }
}

} // verus!
