//! JSON values as logs carry them, and whether an actual value holds every
//! item of an expected one.

use vstd::prelude::*;

use crate::attrs::{decimal, push_decimal};

verus! {

/// A JSON number, kept in the form it was read in.
#[derive(Debug, Clone, Copy, PartialEq, Eq, Structural)]
pub enum JsonNumber {
    /// A non-negative integer.
    PosInt(u64),
    /// A negative integer.
    NegInt(i64),
    /// A floating-point number, as the bits of its `f64` (JSON holds no NaN,
    /// so numbers of this form are equal when their bits are, or when both
    /// are zero).
    Float(u64),
}

/// A JSON value.
#[derive(Debug)]
pub enum JsonValue {
    Null,
    Bool(bool),
    Number(JsonNumber),
    Str(String),
    Array(Vec<JsonValue>),
    /// The members of an object, each key once, in the order the object
    /// lists them.
    Object(Vec<(String, JsonValue)>),
}

/// The abstract content of a JSON value.
pub enum JsonView {
    Null,
    Bool(bool),
    Number(JsonNumber),
    Str(Seq<char>),
    Array(Seq<JsonView>),
    Object(Seq<(Seq<char>, JsonView)>),
}

/// The abstract content of the JSON value `v`.
pub open spec fn json_view(v: JsonValue) -> JsonView
    decreases v,
{
    match v {
        JsonValue::Null => JsonView::Null,
        JsonValue::Bool(b) => JsonView::Bool(b),
        JsonValue::Number(n) => JsonView::Number(n),
        JsonValue::Str(s) => JsonView::Str(s@),
        JsonValue::Array(items) => JsonView::Array(json_views(items@)),
        JsonValue::Object(members) => JsonView::Object(member_views(members@)),
    }
}

/// The abstract contents of a list of JSON values.
pub open spec fn json_views(s: Seq<JsonValue>) -> Seq<JsonView>
    decreases s,
{
    if s.len() == 0 {
        Seq::empty()
    } else {
        json_views(s.drop_last()).push(json_view(s.last()))
    }
}

/// The abstract contents of the members of an object.
pub open spec fn member_views(s: Seq<(String, JsonValue)>) -> Seq<(Seq<char>, JsonView)>
    decreases s,
{
    if s.len() == 0 {
        Seq::empty()
    } else {
        member_views(s.drop_last()).push((s.last().0@, json_view(s.last().1)))
    }
}

/// The value of the member `key` of an object with the members `m`, if it
/// has one.
pub open spec fn member_of(m: Seq<(Seq<char>, JsonView)>, key: Seq<char>) -> Option<JsonView>
    decreases m.len(),
{
    if m.len() == 0 {
        None
    } else if m[0].0 == key {
        Some(m[0].1)
    } else {
        member_of(m.drop_first(), key)
    }
}

/// Item `i` of an array with the items `a`, if it has one.
pub open spec fn item_of(a: Seq<JsonView>, i: int) -> Option<JsonView> {
    if 0 <= i < a.len() {
        Some(a[i])
    } else {
        None
    }
}

/// Whether `actual` holds every item of `expected`: where both are objects,
/// each member of `expected` is matched by the member of the same key in
/// `actual`; where both are arrays, each item of `expected` by the item at
/// the same place in `actual`, which must be there; otherwise the two values
/// are equal.
pub open spec fn json_matches(actual: JsonView, expected: JsonView) -> bool
    decreases expected,
{
    match (actual, expected) {
        (JsonView::Object(a), JsonView::Object(e)) => members_match(a, e),
        (JsonView::Array(a), JsonView::Array(e)) => items_match(a, e),
        _ => scalar_eq(actual, expected),
    }
}

/// Whether two JSON numbers are equal: of the same form and value, where
/// the two zeros of `f64` are equal.
pub open spec fn number_eq(a: JsonNumber, b: JsonNumber) -> bool {
    match (a, b) {
        (JsonNumber::PosInt(x), JsonNumber::PosInt(y)) => x == y,
        (JsonNumber::NegInt(x), JsonNumber::NegInt(y)) => x == y,
        (JsonNumber::Float(x), JsonNumber::Float(y)) => x == y || (x % 0x8000_0000_0000_0000u64 == 0
            && y % 0x8000_0000_0000_0000u64 == 0),
        _ => false,
    }
}

/// Whether two JSON values, not both objects nor both arrays, are equal:
/// the same `null`, boolean, number or string.
pub open spec fn scalar_eq(a: JsonView, b: JsonView) -> bool {
    match (a, b) {
        (JsonView::Null, JsonView::Null) => true,
        (JsonView::Bool(x), JsonView::Bool(y)) => x == y,
        (JsonView::Number(x), JsonView::Number(y)) => number_eq(x, y),
        (JsonView::Str(x), JsonView::Str(y)) => x == y,
        _ => false,
    }
}

/// Whether each member of `e` is matched by the member of the same key in
/// `a`.
pub open spec fn members_match(a: Seq<(Seq<char>, JsonView)>, e: Seq<(Seq<char>, JsonView)>) -> bool
    decreases e,
{
    if e.len() == 0 {
        true
    } else {
        members_match(a, e.drop_last()) && match member_of(a, e.last().0) {
            Some(v) => json_matches(v, e.last().1),
            None => false,
        }
    }
}

/// Whether each item of `e` is matched by the item at the same place in `a`.
pub open spec fn items_match(a: Seq<JsonView>, e: Seq<JsonView>) -> bool
    decreases e,
{
    if e.len() == 0 {
        true
    } else {
        items_match(a, e.drop_last()) && match item_of(a, e.len() - 1) {
            Some(v) => json_matches(v, e.last()),
            None => false,
        }
    }
}

impl View for JsonValue {
    type V = JsonView;

    open spec fn view(&self) -> JsonView {
        json_view(*self)
    }
}

/// The path of the first place, in the order of `expected`, where `actual`
/// does not hold what `expected` holds, if there is one.  The path of a
/// member adds a dot and its key to the path of the object; the path of an
/// item adds a dot and its place (in decimal) to the path of the array.
pub open spec fn mismatch_at(actual: JsonView, expected: JsonView, path: Seq<char>) -> Option<Seq<char>>
    decreases expected,
{
    match (actual, expected) {
        (JsonView::Object(a), JsonView::Object(e)) => member_mismatch(a, e, path),
        (JsonView::Array(a), JsonView::Array(e)) => item_mismatch(a, e, path),
        _ => if scalar_eq(actual, expected) {
            None
        } else {
            Some(path)
        },
    }
}

/// The path of the first member of `e` that the member of the same key in
/// `a` does not match, if there is one.
pub open spec fn member_mismatch(a: Seq<(Seq<char>, JsonView)>, e: Seq<(Seq<char>, JsonView)>, path: Seq<char>) -> Option<Seq<char>>
    decreases e,
{
    if e.len() == 0 {
        None
    } else {
        match member_mismatch(a, e.drop_last(), path) {
            Some(p) => Some(p),
            None => match member_of(a, e.last().0) {
                Some(v) => mismatch_at(v, e.last().1, path + seq!['.'] + e.last().0),
                None => Some(path + seq!['.'] + e.last().0),
            },
        }
    }
}

/// The path of the first item of `e` that the item at the same place in `a`
/// does not match, if there is one.
pub open spec fn item_mismatch(a: Seq<JsonView>, e: Seq<JsonView>, path: Seq<char>) -> Option<Seq<char>>
    decreases e,
{
    if e.len() == 0 {
        None
    } else {
        match item_mismatch(a, e.drop_last(), path) {
            Some(p) => Some(p),
            None => match item_of(a, e.len() - 1) {
                Some(v) => mismatch_at(v, e.last(), path + seq!['.'] + decimal((e.len() - 1) as nat)),
                None => Some(path + seq!['.'] + decimal((e.len() - 1) as nat)),
            },
        }
    }
}

/// There is a mismatch exactly where `actual` does not match `expected`.
pub proof fn lemma_mismatch_iff(actual: JsonView, expected: JsonView, path: Seq<char>)
    ensures
        mismatch_at(actual, expected, path) is None <==> json_matches(actual, expected),
    decreases expected,
{
    match (actual, expected) {
        (JsonView::Object(a), JsonView::Object(e)) => lemma_member_mismatch_iff(a, e, path),
        (JsonView::Array(a), JsonView::Array(e)) => lemma_item_mismatch_iff(a, e, path),
        _ => {},
    }
}

/// There is a mismatching member exactly where the members do not match.
pub proof fn lemma_member_mismatch_iff(a: Seq<(Seq<char>, JsonView)>, e: Seq<(Seq<char>, JsonView)>, path: Seq<char>)
    ensures
        member_mismatch(a, e, path) is None <==> members_match(a, e),
    decreases e,
{
    if e.len() > 0 {
        lemma_member_mismatch_iff(a, e.drop_last(), path);
        if let Some(v) = member_of(a, e.last().0) {
            lemma_mismatch_iff(v, e.last().1, path + seq!['.'] + e.last().0);
        }
    }
}

/// There is a mismatching item exactly where the items do not match.
pub proof fn lemma_item_mismatch_iff(a: Seq<JsonView>, e: Seq<JsonView>, path: Seq<char>)
    ensures
        item_mismatch(a, e, path) is None <==> items_match(a, e),
    decreases e,
{
    if e.len() > 0 {
        lemma_item_mismatch_iff(a, e.drop_last(), path);
        if let Some(v) = item_of(a, e.len() - 1) {
            lemma_mismatch_iff(v, e.last(), path + seq!['.'] + decimal((e.len() - 1) as nat));
        }
    }
}

/// Whether `bits` are those of one of the two zeros of `f64`.
pub open spec fn is_float_zero(bits: u64) -> bool {
    bits == 0 || bits == 0x8000_0000_0000_0000u64
}

/// Where `actual` and `expected` are not both objects nor both arrays,
/// `actual` matches `expected` exactly when the two are the same value; the
/// one exception is that the two zeros of `f64` match each other.  A
/// mismatch is then reported at the path given.
pub proof fn lemma_scalar_match_is_equality(actual: JsonView, expected: JsonView, path: Seq<char>)
    requires
        !(actual is Object && expected is Object),
        !(actual is Array && expected is Array),
    ensures
        json_matches(actual, expected) <==> (actual == expected || (actual matches JsonView::Number(
            JsonNumber::Float(x),
        ) && expected matches JsonView::Number(JsonNumber::Float(y)) && is_float_zero(x)
            && is_float_zero(y))),
        mismatch_at(actual, expected, path) == if json_matches(actual, expected) {
            None
        } else {
            Some(path)
        },
{
    assert forall|x: u64| #[trigger] (x % 0x8000_0000_0000_0000u64) == 0 <==> is_float_zero(x) by {
        assert((x % 0x8000_0000_0000_0000u64 == 0) <==> (x == 0 || x == 0x8000_0000_0000_0000u64))
            by (bit_vector);
    }
    lemma_mismatch_iff(actual, expected, path);
}

/// The abstract contents of a list of JSON values, item by item.
proof fn lemma_json_views(s: Seq<JsonValue>)
    ensures
        json_views(s).len() == s.len(),
        forall|i: int| 0 <= i < s.len() ==> #[trigger] json_views(s)[i] == json_view(s[i]),
    decreases s.len(),
{
    if s.len() > 0 {
        lemma_json_views(s.drop_last());
        assert forall|i: int| 0 <= i < s.len() implies #[trigger] json_views(s)[i] == json_view(
            s[i],
        ) by {
            if i < s.len() - 1 {
                assert(s.drop_last()[i] == s[i]);
            }
        }
    }
}

/// The abstract contents of the members of an object, member by member.
proof fn lemma_member_views(s: Seq<(String, JsonValue)>)
    ensures
        member_views(s).len() == s.len(),
        forall|i: int|
            0 <= i < s.len() ==> #[trigger] member_views(s)[i] == (s[i].0@, json_view(s[i].1)),
    decreases s.len(),
{
    if s.len() > 0 {
        lemma_member_views(s.drop_last());
        assert forall|i: int| 0 <= i < s.len() implies #[trigger] member_views(s)[i] == (
            s[i].0@,
            json_view(s[i].1),
        ) by {
            if i < s.len() - 1 {
                assert(s.drop_last()[i] == s[i]);
            }
        }
    }
}

/// Whether two JSON values, not both objects nor both arrays, are equal.
fn scalar_equal(a: &JsonValue, b: &JsonValue) -> (r: bool)
    ensures
        r == scalar_eq(a@, b@),
{
    match (a, b) {
        (JsonValue::Null, JsonValue::Null) => true,
        (JsonValue::Bool(x), JsonValue::Bool(y)) => *x == *y,
        (JsonValue::Number(x), JsonValue::Number(y)) => match (x, y) {
            (JsonNumber::PosInt(p), JsonNumber::PosInt(q)) => *p == *q,
            (JsonNumber::NegInt(p), JsonNumber::NegInt(q)) => *p == *q,
            (JsonNumber::Float(p), JsonNumber::Float(q)) => {
                let sign: u64 = 0x8000_0000_0000_0000;
                *p == *q || ((*p == 0 || *p == sign) && (*q == 0 || *q == sign))
            },
            _ => false,
        },
        (JsonValue::Str(x), JsonValue::Str(y)) => *x == *y,
        _ => false,
    }
}

/// The value of the member `key` of an object with the members `m`, if it
/// has one.
fn member_value<'a>(m: &'a Vec<(String, JsonValue)>, key: &String) -> (r: Option<&'a JsonValue>)
    ensures
        match r {
            Some(v) => member_of(member_views(m@), key@) == Some(json_view(*v)),
            None => member_of(member_views(m@), key@) is None,
        },
{
    let ghost mv = member_views(m@);
    proof {
        lemma_member_views(m@);
        assert(mv.skip(0) =~= mv);
    }
    let mut i: usize = 0;
    while i < m.len()
        invariant
            mv == member_views(m@),
            mv.len() == m@.len(),
            forall|k: int| 0 <= k < m@.len() ==> #[trigger] mv[k] == (m@[k].0@, json_view(m@[k].1)),
            i <= m@.len(),
            member_of(mv, key@) == member_of(mv.skip(i as int), key@),
        decreases m@.len() - i,
    {
        proof {
            assert(mv.skip(i as int).drop_first() =~= mv.skip(i + 1));
            assert(mv.skip(i as int)[0] == mv[i as int]);
        }
        if m[i].0 == *key {
            return Some(&m[i].1);
        }
        i = i + 1;
    }
    proof {
        assert(mv.skip(i as int).len() == 0);
    }
    None
}

/// The path of the first mismatch under `path`, with the path's text.
fn mismatch_from(actual: &JsonValue, expected: &JsonValue, path: &String) -> (r: Option<String>)
    ensures
        match r {
            Some(p) => mismatch_at(actual@, expected@, path@) == Some(p@),
            None => mismatch_at(actual@, expected@, path@) is None,
        },
    decreases expected,
{
    match (actual, expected) {
        (JsonValue::Object(a), JsonValue::Object(e)) => {
            let ghost av = member_views(a@);
            let ghost ev = member_views(e@);
            proof {
                lemma_member_views(e@);
                assert(ev.take(0) =~= Seq::<(Seq<char>, JsonView)>::empty());
            }
            let mut k: usize = 0;
            while k < e.len()
                invariant
                    av == member_views(a@),
                    ev == member_views(e@),
                    ev.len() == e@.len(),
                    forall|j: int|
                        0 <= j < e@.len() ==> #[trigger] ev[j] == (e@[j].0@, json_view(e@[j].1)),
                    expected == JsonValue::Object(*e),
                    actual == JsonValue::Object(*a),
                    k <= e@.len(),
                    member_mismatch(av, ev.take(k as int), path@) is None,
                decreases e@.len() - k,
            {
                let mut sub_path = path.clone();
                sub_path.append(".");
                sub_path.append(e[k].0.as_str());
                let found = member_value(a, &e[k].0);
                proof {
                    reveal_strlit(".");
                    assert(ev.take(k + 1).drop_last() =~= ev.take(k as int));
                    assert(ev.take(k + 1).last() == ev[k as int]);
                    assert(sub_path@ =~= path@ + seq!['.'] + ev[k as int].0);
                    assert(ev[k as int] == (e@[k as int].0@, json_view(e@[k as int].1)));
                }
                let r = match found {
                    Some(v) => mismatch_from(v, &e[k].1, &sub_path),
                    None => Some(sub_path),
                };
                if r.is_some() {
                    proof {
                        assert(actual@ == JsonView::Object(av));
                        assert(expected@ == JsonView::Object(ev));
                        lemma_member_mismatch_extends(av, ev, path@, k + 1);
                        assert(ev.take(ev.len() as int) =~= ev);
                    }
                    return r;
                }
                k = k + 1;
            }
            proof {
                assert(ev.take(k as int) =~= ev);
            }
            None
        },
        (JsonValue::Array(a), JsonValue::Array(e)) => {
            let ghost av = json_views(a@);
            let ghost ev = json_views(e@);
            proof {
                lemma_json_views(a@);
                lemma_json_views(e@);
                assert(ev.take(0) =~= Seq::<JsonView>::empty());
            }
            let mut k: usize = 0;
            while k < e.len()
                invariant
                    av == json_views(a@),
                    ev == json_views(e@),
                    av.len() == a@.len(),
                    ev.len() == e@.len(),
                    forall|j: int| 0 <= j < a@.len() ==> #[trigger] av[j] == json_view(a@[j]),
                    forall|j: int| 0 <= j < e@.len() ==> #[trigger] ev[j] == json_view(e@[j]),
                    expected == JsonValue::Array(*e),
                    actual == JsonValue::Array(*a),
                    k <= e@.len(),
                    item_mismatch(av, ev.take(k as int), path@) is None,
                decreases e@.len() - k,
            {
                let mut sub_path = path.clone();
                sub_path.append(".");
                push_decimal(&mut sub_path, k as u64);
                proof {
                    reveal_strlit(".");
                    assert(ev.take(k + 1).drop_last() =~= ev.take(k as int));
                    assert(ev.take(k + 1).last() == ev[k as int]);
                    assert(ev.take(k + 1).len() - 1 == k);
                    assert(sub_path@ =~= path@ + seq!['.'] + decimal(k as nat));
                    if k < a.len() {
                        assert(av[k as int] == json_view(a@[k as int]));
                    }
                    assert(ev[k as int] == json_view(e@[k as int]));
                }
                let r = if k < a.len() {
                    mismatch_from(&a[k], &e[k], &sub_path)
                } else {
                    Some(sub_path)
                };
                if r.is_some() {
                    proof {
                        assert(actual@ == JsonView::Array(av));
                        assert(expected@ == JsonView::Array(ev));
                        lemma_item_mismatch_extends(av, ev, path@, k + 1);
                        assert(ev.take(ev.len() as int) =~= ev);
                    }
                    return r;
                }
                k = k + 1;
            }
            proof {
                assert(ev.take(k as int) =~= ev);
            }
            None
        },
        _ => {
            if scalar_equal(actual, expected) {
                None
            } else {
                Some(path.clone())
            }
        },
    }
}

/// Once some member mismatches, the first mismatch stays where it is.
proof fn lemma_member_mismatch_extends(
    a: Seq<(Seq<char>, JsonView)>,
    e: Seq<(Seq<char>, JsonView)>,
    path: Seq<char>,
    k: int,
)
    requires
        0 <= k <= e.len(),
        member_mismatch(a, e.take(k), path) is Some,
    ensures
        member_mismatch(a, e.take(e.len() as int), path) == member_mismatch(a, e.take(k), path),
    decreases e.len() - k,
{
    if k < e.len() {
        assert(e.take(k + 1).drop_last() =~= e.take(k));
        lemma_member_mismatch_extends(a, e, path, k + 1);
    }
}

/// Once some item mismatches, the first mismatch stays where it is.
proof fn lemma_item_mismatch_extends(a: Seq<JsonView>, e: Seq<JsonView>, path: Seq<char>, k: int)
    requires
        0 <= k <= e.len(),
        item_mismatch(a, e.take(k), path) is Some,
    ensures
        item_mismatch(a, e.take(e.len() as int), path) == item_mismatch(a, e.take(k), path),
    decreases e.len() - k,
{
    if k < e.len() {
        assert(e.take(k + 1).drop_last() =~= e.take(k));
        assert(e.take(k + 1).len() == k + 1);
        lemma_item_mismatch_extends(a, e, path, k + 1);
    }
}

/// The path of the first place, in the order of `expected`, where `actual`
/// does not hold what `expected` holds; `None` if `actual` holds every item
/// of `expected`.  The path of the whole value is empty.
pub fn first_mismatch(actual: &JsonValue, expected: &JsonValue) -> (r: Option<String>)
    ensures
        r is None <==> json_matches(actual@, expected@),
        match r {
            Some(p) => mismatch_at(actual@, expected@, Seq::empty()) == Some(p@),
            None => mismatch_at(actual@, expected@, Seq::empty()) is None,
        },
{
    let path = String::new();
    let r = mismatch_from(actual, expected, &path);
    proof {
        lemma_mismatch_iff(actual@, expected@, Seq::empty());
    }
    r
}

/// A JSON value as `serde_json` holds it.
#[verifier::external_type_specification]
#[verifier::external_body]
pub struct ExSerdeJsonValue(serde_json::Value);

/// A JSON number as `serde_json` holds it.
#[verifier::external_type_specification]
#[verifier::external_body]
pub struct ExSerdeJsonNumber(serde_json::Number);

/// The library's form of a `serde_json` number: an integer that fits a
/// `u64`, else one that fits an `i64`, else the bits of its `f64`.
#[verifier::external_body]
fn json_number_from(n: &serde_json::Number) -> JsonNumber {
    match (n.as_u64(), n.as_i64()) {
        (Some(u), _) => JsonNumber::PosInt(u),
        (None, Some(i)) => JsonNumber::NegInt(i),
        (None, None) => JsonNumber::Float(n.as_f64().map_or(0, |f| f.to_bits())),
    }
}

/// The library's form of a `serde_json` value, one variant for one.
#[verifier::external_body]
fn json_value_from(v: &serde_json::Value) -> JsonValue {
    match v {
        serde_json::Value::Null => JsonValue::Null,
        serde_json::Value::Bool(b) => JsonValue::Bool(*b),
        serde_json::Value::Number(n) => JsonValue::Number(json_number_from(n)),
        serde_json::Value::String(s) => JsonValue::Str(s.clone()),
        serde_json::Value::Array(a) => JsonValue::Array(a.iter().map(json_value_from).collect()),
        serde_json::Value::Object(m) => JsonValue::Object(
            m.iter().map(|(k, x)| (k.clone(), json_value_from(x))).collect(),
        ),
    }
}

/// What `serde_json::from_str::<serde_json::Value>` reads from `line`: the
/// JSON value it holds, or nothing if it holds none.
pub uninterp spec fn json_line_parsed(line: Seq<char>) -> Option<JsonView>;

/// Read a JSON value with `serde_json::from_str::<serde_json::Value>`.  The
/// contract names the result and claims nothing else of it.
#[verifier::external_body]
fn parse_json_line(line: &str) -> (r: Option<JsonValue>)
    ensures
        match r {
            Some(v) => json_line_parsed(line@) == Some(v@),
            None => json_line_parsed(line@) is None,
        },
{
    serde_json::from_str::<serde_json::Value>(line).ok().map(|v| json_value_from(&v))
}

/// The pieces of `s` between newlines: one more piece than there are
/// newlines, some of which may be empty.
pub open spec fn split_newlines(s: Seq<char>) -> Seq<Seq<char>>
    decreases s.len(),
{
    if s.len() == 0 {
        seq![Seq::empty()]
    } else {
        let prev = split_newlines(s.drop_last());
        if s.last() == '\n' {
            prev.push(Seq::empty())
        } else {
            prev.update(prev.len() - 1, prev.last().push(s.last()))
        }
    }
}

/// A line that ended with a newline, without the carriage return before it.
pub open spec fn strip_cr(l: Seq<char>) -> Seq<char> {
    if l.len() > 0 && l.last() == '\r' {
        l.drop_last()
    } else {
        l
    }
}

/// The lines of `text` as `BufRead::lines` gives them: split at each
/// newline, a carriage return before a newline dropped, and no empty line
/// after a final newline.
pub open spec fn text_lines(text: Seq<char>) -> Seq<Seq<char>> {
    let p = split_newlines(text);
    let ended = p.drop_last().map_values(|l: Seq<char>| strip_cr(l));
    if p.last().len() == 0 {
        ended
    } else {
        ended.push(p.last())
    }
}

/// Splitting more text keeps the pieces already ended by a newline.
proof fn lemma_split_newlines_prefix(s: Seq<char>, j: int)
    requires
        0 <= j <= s.len(),
    ensures
        split_newlines(s).len() >= split_newlines(s.take(j)).len() >= 1,
        forall|k: int|
            0 <= k < split_newlines(s.take(j)).len() - 1 ==> #[trigger] split_newlines(s)[k]
                == split_newlines(s.take(j))[k],
    decreases s.len() - j,
{
    if j < s.len() {
        lemma_split_newlines_prefix(s, j + 1);
        let t = s.take(j + 1);
        assert(t.drop_last() =~= s.take(j));
    } else {
        assert(s.take(j) =~= s);
    }
    lemma_split_newlines_len(s.take(j));
}

/// There is always at least one piece.
proof fn lemma_split_newlines_len(s: Seq<char>)
    ensures
        split_newlines(s).len() >= 1,
    decreases s.len(),
{
    if s.len() > 0 {
        lemma_split_newlines_len(s.drop_last());
    }
}

/// Read every line of `text` as a JSON value; `None` if some line holds
/// none.
pub fn parse_json_lines(text: &str) -> (r: Option<Vec<JsonValue>>)
    ensures
        r is Some <==> forall|k: int|
            0 <= k < text_lines(text@).len() ==> (#[trigger] json_line_parsed(text_lines(text@)[k])) is Some,
        r matches Some(v) ==> v@.len() == text_lines(text@).len() && forall|k: int|
            0 <= k < v@.len() ==> json_line_parsed(text_lines(text@)[k]) == Some((#[trigger] v@[k])@),
{
    let n = text.unicode_len();
    let ghost s = text@;
    let ghost lines = text_lines(s);
    let ghost mut done: Seq<Seq<char>> = Seq::empty();
    let mut out: Vec<JsonValue> = Vec::new();
    let mut start: usize = 0;
    let mut i: usize = 0;
    proof {
        assert(s.take(0) =~= Seq::<char>::empty());
        assert(done.push(s.subrange(0, 0)) =~= seq![Seq::<char>::empty()]);
    }
    while i < n
        invariant
            n == s.len(),
            s == text@,
            lines == text_lines(s),
            start <= i <= n,
            split_newlines(s.take(i as int)) == done.push(s.subrange(start as int, i as int)),
            out@.len() == done.len(),
            forall|k: int|
                0 <= k < done.len() ==> json_line_parsed(strip_cr(done[k])) == Some(
                    (#[trigger] out@[k])@,
                ),
        decreases n - i,
    {
        let c = text.get_char(i);
        proof {
            assert(s.take(i + 1).drop_last() =~= s.take(i as int));
            assert(s.take(i + 1).last() == c);
        }
        if c == '\n' {
            let ghost piece = s.subrange(start as int, i as int);
            let end = if i > start && text.get_char(i - 1) == '\r' {
                i - 1
            } else {
                i
            };
            let line = text.substring_char(start, end);
            proof {
                assert(line@ =~= strip_cr(piece));
            }
            match parse_json_line(line) {
                Some(v) => {
                    out.push(v);
                    proof {
                        done = done.push(piece);
                        assert(s.subrange((i + 1) as int, (i + 1) as int) =~= Seq::<char>::empty());
                    }
                    start = i + 1;
                },
                None => {
                    proof {
                        let m = done.len() as int;
                        let sp = split_newlines(s.take(i + 1));
                        assert(sp == done.push(piece).push(Seq::empty()));
                        lemma_split_newlines_prefix(s, i + 1);
                        assert(s.take(n as int) =~= s);
                        let full = split_newlines(s);
                        assert(full[m] == piece);
                        assert(m < full.len() - 1);
                        let ended = full.drop_last().map_values(|l: Seq<char>| strip_cr(l));
                        assert(ended[m] == strip_cr(piece));
                        assert(lines[m] == strip_cr(piece));
                        assert(json_line_parsed(lines[m]) is None);
                    }
                    return None;
                },
            }
        } else {
            proof {
                assert(s.subrange(start as int, i + 1) =~= s.subrange(start as int, i as int).push(c));
            }
        }
        i = i + 1;
    }
    proof {
        assert(s.take(n as int) =~= s);
        let full = split_newlines(s);
        let ended = full.drop_last().map_values(|l: Seq<char>| strip_cr(l));
        assert(full.drop_last() =~= done);
        assert(ended.len() == done.len());
    }
    if start < n {
        let last = text.substring_char(start, n);
        match parse_json_line(last) {
            Some(v) => {
                out.push(v);
            },
            None => {
                proof {
                    let full = split_newlines(s);
                    assert(full.last() == last@);
                    assert(lines[done.len() as int] == last@);
                }
                return None;
            },
        }
    }
    proof {
        let full = split_newlines(s);
        let ended = full.drop_last().map_values(|l: Seq<char>| strip_cr(l));
        assert forall|k: int| 0 <= k < done.len() implies #[trigger] ended[k] == strip_cr(done[k]) by {}
        if start < n {
            assert(lines =~= ended.push(full.last()));
        } else {
            assert(full.last().len() == 0);
            assert(lines =~= ended);
        }
        assert forall|k: int| 0 <= k < lines.len() implies (#[trigger] json_line_parsed(lines[k])) is Some by {
            if k < done.len() {
                assert(json_line_parsed(strip_cr(done[k])) == Some(out@[k]@));
            }
        }
    }
    Some(out)
}

} // verus!
