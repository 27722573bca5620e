//! What the derivation of `ExtLoggable` reads from the attributes of a log
//! type: the parameters of its `LogDetails`, `FixedFields`, `StatTrigger`,
//! `StatGroup` and `BucketBy` attributes, checked and gathered into plain
//! values from which the implementations are generated.
//!
//! Each function reads the parameters in the order they are written and
//! stops at the first one that is wrong, with a message that says why.

use vstd::prelude::*;

use crate::attrs::{
    action_named, fixed_groups_of, parse_fixed_groups, parse_i64, parse_log_level, parse_u64,
    parsed_i64, parsed_u64, slog_level_named, str_eq, upsert_pair, upsert_string_pair, LogLevel,
    StatTriggerAction,
};
use crate::stats::groups::split_commas;
use crate::stats::defn::string_views;
use crate::stats::report::pair_views;

verus! {

/// The value given to a parameter of an attribute.
#[derive(Debug, Clone, PartialEq, Eq)]
pub enum ParamValue {
    /// No `= value` follows the name of the parameter.
    Absent,
    /// A string literal, with its contents.
    Str(String),
    /// An integer literal, with its base-10 digits.
    Int(String),
    /// A literal of another kind.
    OtherLit,
    /// A value that is not a literal.
    NotLit,
}

/// One `Name = value` parameter of an attribute.
#[derive(Debug, Clone, PartialEq, Eq)]
pub struct AttrParam {
    /// The name of the parameter.
    pub name: String,
    /// Its value.
    pub value: ParamValue,
}

/// What a `LogDetails` attribute gives: the level, the text and the
/// identifier of the log.
#[derive(Debug, Clone, PartialEq, Eq)]
pub struct LogDetails {
    pub level: LogLevel,
    pub text: String,
    pub id: u64,
}

/// The parameters of a `LogDetails` attribute read so far.
pub struct DetailsSoFar {
    pub level: Option<LogLevel>,
    pub text: Option<Seq<char>>,
    pub id: Option<u64>,
}

/// The message for an `Id` that is not an unsigned integer.
pub open spec fn bad_id_msg() -> Seq<char> {
    "Invalid format for LogDetails - Id attribute must be an unsigned integer"@
}

/// The `LogDetails` parameters read so far, after the parameter `p`.
pub open spec fn details_step(st: DetailsSoFar, p: AttrParam) -> Result<DetailsSoFar, Seq<char>> {
    let n = p.name@;
    if n == "Id"@ {
        if st.id is Some {
            Err("Id attribute passed twice in LogDetails"@)
        } else {
            match p.value {
                ParamValue::Absent => Err("Id parameter of LogDetails needs a value"@),
                ParamValue::NotLit => Err("Id parameter of LogDetails needs to be a literal"@),
                ParamValue::OtherLit => Err(
                    "Id parameter of LogDetails needs to be an unsigned integer (literal or string representation"@,
                ),
                ParamValue::Str(s) => match parsed_u64(s@) {
                    Some(v) => Ok(DetailsSoFar { id: Some(v), ..st }),
                    None => Err(bad_id_msg()),
                },
                ParamValue::Int(s) => match parsed_u64(s@) {
                    Some(v) => Ok(DetailsSoFar { id: Some(v), ..st }),
                    None => Err(bad_id_msg()),
                },
            }
        }
    } else if n == "Level"@ {
        if st.level is Some {
            Err("Level attribute passed twice in LogDetails"@)
        } else {
            match p.value {
                ParamValue::Absent => Err("Level parameter of LogDetails needs a value"@),
                ParamValue::Str(s) => {
                    let l = if s@ == "Warning"@ {
                        Some(LogLevel::Warning)
                    } else {
                        slog_level_named(s@)
                    };
                    match l {
                        Some(l) => Ok(DetailsSoFar { level: Some(l), ..st }),
                        None => Err("Invalid log level provided: "@ + s@),
                    }
                },
                _ => Err("Level parameter of LogDetails must be a string"@),
            }
        }
    } else if n == "Text"@ {
        if st.text is Some {
            Err("Text attribute passed twice in LogDetails"@)
        } else {
            match p.value {
                ParamValue::Absent => Err("Text parameter of LogDetails needs a value"@),
                ParamValue::Str(s) => Ok(DetailsSoFar { text: Some(s@), ..st }),
                _ => Err("Text parameter of LogDetails must be a string"@),
            }
        }
    } else {
        Err("Unexpected key '"@ + n + "' in LogDetails attribute"@)
    }
}

/// The `LogDetails` parameters read from `ps`, in order, or the message for
/// the first wrong one.
pub open spec fn details_fold(ps: Seq<AttrParam>) -> Result<DetailsSoFar, Seq<char>>
    decreases ps.len(),
{
    if ps.len() == 0 {
        Ok(DetailsSoFar { level: None, text: None, id: None })
    } else {
        match details_fold(ps.drop_last()) {
            Ok(st) => details_step(st, ps.last()),
            Err(e) => Err(e),
        }
    }
}

/// What the parameters `ps` of a `LogDetails` attribute give: the level, the
/// text and the identifier, each of which must be given once.
pub open spec fn details_of(ps: Seq<AttrParam>) -> Result<(LogLevel, Seq<char>, u64), Seq<char>> {
    match details_fold(ps) {
        Err(e) => Err(e),
        Ok(st) => if st.level is None {
            Err("No Level provided in LogDetails"@)
        } else if st.text is None {
            Err("No Text provided in LogDetails"@)
        } else if st.id is None {
            Err("No Id provided in LogDetails"@)
        } else {
            Ok((st.level->0, st.text->0, st.id->0))
        },
    }
}

/// What the `LogDetails` attributes of a log type give: there must be
/// exactly one, with the parameters `attrs[0]`.
pub open spec fn log_details_of(attrs: Seq<Vec<AttrParam>>) -> Result<(LogLevel, Seq<char>, u64), Seq<char>> {
    if attrs.len() == 0 {
        Err("Unable to find LogDetails attribute"@)
    } else if attrs.len() > 1 {
        Err("Multiple LogDetails attributes found"@)
    } else {
        details_of(attrs[0]@)
    }
}

/// The message `a` followed by `b` and `c`.
fn message(a: &str, b: &str, c: &str) -> (r: String)
    ensures
        r@ == a@ + b@ + c@,
{
    let mut r = String::from_str(a);
    r.append(b);
    r.append(c);
    r
}

/// The message `a` followed by `b`.
fn message2(a: &str, b: &str) -> (r: String)
    ensures
        r@ == a@ + b@,
{
    let mut r = String::from_str(a);
    r.append(b);
    r
}

/// Once a parameter is wrong, reading more parameters keeps its message.
proof fn lemma_details_err_extends(ps: Seq<AttrParam>, k: int)
    requires
        0 <= k <= ps.len(),
        details_fold(ps.take(k)) is Err,
    ensures
        details_fold(ps) == details_fold(ps.take(k)),
    decreases ps.len() - k,
{
    if k < ps.len() {
        assert(ps.take(k + 1).drop_last() =~= ps.take(k));
        lemma_details_err_extends(ps, k + 1);
    } else {
        assert(ps.take(k) =~= ps);
    }
}

/// Whether `n` is the name of a `LogDetails` parameter.
pub open spec fn is_details_key(n: Seq<char>) -> bool {
    n == "Id"@ || n == "Level"@ || n == "Text"@
}

/// What the `LogDetails` parameters read so far give comes from parameters
/// of the right names, each named once.
proof fn lemma_details_fold_names(ps: Seq<AttrParam>)
    ensures
        details_fold(ps) matches Ok(st) ==> {
            &&& st.id is Some <==> names_param(ps, "Id"@)
            &&& st.level is Some <==> names_param(ps, "Level"@)
            &&& st.text is Some <==> names_param(ps, "Text"@)
            &&& forall|i: int| 0 <= i < ps.len() ==> is_details_key((#[trigger] ps[i]).name@)
            &&& forall|i: int, j: int|
                0 <= i < j < ps.len() ==> (#[trigger] ps[i]).name@ != (#[trigger] ps[j]).name@
        },
    decreases ps.len(),
{
    reveal_strlit("Id");
    reveal_strlit("Level");
    reveal_strlit("Text");
    assert("Id"@.len() == 2 && "Level"@.len() == 5 && "Text"@.len() == 4);
    if ps.len() > 0 {
        let prev = ps.drop_last();
        let p = ps.last();
        lemma_details_fold_names(prev);
        if let Ok(st) = details_fold(ps) {
            let st0 = details_fold(prev)->Ok_0;
            assert(details_fold(prev) is Ok);
            assert(ps[ps.len() - 1] == p);
            assert forall|i: int| 0 <= i < prev.len() implies #[trigger] ps[i] == prev[i] by {}
            assert(is_details_key(p.name@));
            assert forall|k: Seq<char>| is_details_key(k) implies (names_param(ps, k) <==> (
            names_param(prev, k) || p.name@ == k)) by {
                if names_param(ps, k) {
                    let w = choose|i: int| 0 <= i < ps.len() && (#[trigger] ps[i]).name@ == k;
                    if w < prev.len() {
                        assert(prev[w] == ps[w]);
                    }
                }
                if names_param(prev, k) {
                    let w = choose|i: int| 0 <= i < prev.len() && (#[trigger] prev[i]).name@ == k;
                    assert(ps[w] == prev[w]);
                }
            }
            assert forall|i: int, j: int|
                0 <= i < j < ps.len() implies (#[trigger] ps[i]).name@ != (#[trigger] ps[j]).name@ by {
                if j < prev.len() {
                    assert(ps[i] == prev[i] && ps[j] == prev[j]);
                } else {
                    assert(ps[i] == prev[i]);
                    assert(names_param(prev, prev[i].name@));
                }
            }
        }
    }
}

/// What each parameter read so far gave: the `Level` parameter holds a
/// string naming the level (`Warning` as it is, any other as slog reads
/// it), the `Text` parameter a string that is the text, and the `Id`
/// parameter the digits of the identifier.
proof fn lemma_details_fold_values(ps: Seq<AttrParam>)
    ensures
        details_fold(ps) matches Ok(st) ==> forall|i: int|
            0 <= i < ps.len() ==> {
                &&& (#[trigger] ps[i]).name@ == "Level"@ ==> match ps[i].value {
                    ParamValue::Str(s) => st.level == if s@ == "Warning"@ {
                        Some(LogLevel::Warning)
                    } else {
                        slog_level_named(s@)
                    },
                    _ => false,
                }
                &&& ps[i].name@ == "Text"@ ==> match ps[i].value {
                    ParamValue::Str(s) => st.text == Some(s@),
                    _ => false,
                }
                &&& ps[i].name@ == "Id"@ ==> match ps[i].value {
                    ParamValue::Str(s) => st.id == parsed_u64(s@),
                    ParamValue::Int(s) => st.id == parsed_u64(s@),
                    _ => false,
                }
            },
    decreases ps.len(),
{
    reveal_strlit("Id");
    reveal_strlit("Level");
    reveal_strlit("Text");
    assert("Id"@.len() == 2 && "Level"@.len() == 5 && "Text"@.len() == 4);
    if ps.len() > 0 {
        let prev = ps.drop_last();
        let p = ps.last();
        lemma_details_fold_values(prev);
        lemma_details_fold_names(ps);
        if let Ok(st) = details_fold(ps) {
            assert(details_fold(prev) is Ok);
            let st0 = details_fold(prev)->Ok_0;
            assert(ps[ps.len() - 1] == p);
            assert forall|i: int| 0 <= i < ps.len() implies {
                &&& (#[trigger] ps[i]).name@ == "Level"@ ==> match ps[i].value {
                    ParamValue::Str(s) => st.level == if s@ == "Warning"@ {
                        Some(LogLevel::Warning)
                    } else {
                        slog_level_named(s@)
                    },
                    _ => false,
                }
                &&& ps[i].name@ == "Text"@ ==> match ps[i].value {
                    ParamValue::Str(s) => st.text == Some(s@),
                    _ => false,
                }
                &&& ps[i].name@ == "Id"@ ==> match ps[i].value {
                    ParamValue::Str(s) => st.id == parsed_u64(s@),
                    ParamValue::Int(s) => st.id == parsed_u64(s@),
                    _ => false,
                }
            } by {
                if i < ps.len() - 1 {
                    assert(ps[i] == prev[i]);
                    assert(ps[i].name@ != p.name@);
                }
            }
        }
    }
}

/// A `LogDetails` attribute that reads gives the level its `Level`
/// parameter names (`Warning` taken as it is, any other name as slog reads
/// it), the text of its `Text` parameter and the number its `Id` parameter
/// holds.
pub proof fn lemma_details_values(ps: Seq<AttrParam>, i: int)
    requires
        details_of(ps) is Ok,
        0 <= i < ps.len(),
    ensures
        ({
            let d = details_of(ps)->Ok_0;
            &&& ps[i].name@ == "Level"@ ==> match ps[i].value {
                ParamValue::Str(s) => if s@ == "Warning"@ {
                    d.0 == LogLevel::Warning
                } else {
                    slog_level_named(s@) == Some(d.0)
                },
                _ => false,
            }
            &&& ps[i].name@ == "Text"@ ==> match ps[i].value {
                ParamValue::Str(s) => d.1 == s@,
                _ => false,
            }
            &&& ps[i].name@ == "Id"@ ==> match ps[i].value {
                ParamValue::Str(s) => parsed_u64(s@) == Some(d.2),
                ParamValue::Int(s) => parsed_u64(s@) == Some(d.2),
                _ => false,
            }
        }),
{
    lemma_details_fold_values(ps);
    assert(ps[i] == ps[i]);
}

/// Read the parameters of a `LogDetails` attribute.
fn read_details(ps: &Vec<AttrParam>) -> (r: Result<LogDetails, String>)
    ensures
        match details_of(ps@) {
            Ok(d) => r matches Ok(v) && v.level == d.0 && v.text@ == d.1 && v.id == d.2,
            Err(e) => r matches Err(m) && m@ == e,
        },
{
    let mut level: Option<LogLevel> = None;
    let mut text: Option<String> = None;
    let mut id: Option<u64> = None;
    let mut i: usize = 0;
    while i < ps.len()
        invariant
            i <= ps@.len(),
            details_fold(ps@.take(i as int)) == Ok::<DetailsSoFar, Seq<char>>(
                DetailsSoFar {
                    level,
                    text: match text {
                        Some(t) => Some(t@),
                        None => None,
                    },
                    id,
                },
            ),
        decreases ps@.len() - i,
    {
        let p = &ps[i];
        proof {
            assert(ps@.take(i + 1).drop_last() =~= ps@.take(i as int));
            assert(ps@.take(i + 1).last() == *p);
        }
        let step: Result<(), String> = if str_eq(p.name.as_str(), "Id") {
            if id.is_some() {
                Err(String::from_str("Id attribute passed twice in LogDetails"))
            } else {
                match &p.value {
                    ParamValue::Absent => Err(String::from_str("Id parameter of LogDetails needs a value")),
                    ParamValue::NotLit => Err(String::from_str("Id parameter of LogDetails needs to be a literal")),
                    ParamValue::OtherLit => Err(
                        String::from_str(
                            "Id parameter of LogDetails needs to be an unsigned integer (literal or string representation",
                        ),
                    ),
                    ParamValue::Str(s) => match parse_u64(s.as_str()) {
                        Some(v) => {
                            id = Some(v);
                            Ok(())
                        },
                        None => Err(
                            String::from_str(
                                "Invalid format for LogDetails - Id attribute must be an unsigned integer",
                            ),
                        ),
                    },
                    ParamValue::Int(s) => match parse_u64(s.as_str()) {
                        Some(v) => {
                            id = Some(v);
                            Ok(())
                        },
                        None => Err(
                            String::from_str(
                                "Invalid format for LogDetails - Id attribute must be an unsigned integer",
                            ),
                        ),
                    },
                }
            }
        } else if str_eq(p.name.as_str(), "Level") {
            if level.is_some() {
                Err(String::from_str("Level attribute passed twice in LogDetails"))
            } else {
                match &p.value {
                    ParamValue::Absent => Err(String::from_str("Level parameter of LogDetails needs a value")),
                    ParamValue::Str(s) => match parse_log_level(s.as_str()) {
                        Some(l) => {
                            level = Some(l);
                            Ok(())
                        },
                        None => {
                            Err(message2("Invalid log level provided: ", s.as_str()))
                        },
                    },
                    _ => Err(String::from_str("Level parameter of LogDetails must be a string")),
                }
            }
        } else if str_eq(p.name.as_str(), "Text") {
            if text.is_some() {
                Err(String::from_str("Text attribute passed twice in LogDetails"))
            } else {
                match &p.value {
                    ParamValue::Absent => Err(String::from_str("Text parameter of LogDetails needs a value")),
                    ParamValue::Str(s) => {
                        text = Some(s.clone());
                        Ok(())
                    },
                    _ => Err(String::from_str("Text parameter of LogDetails must be a string")),
                }
            }
        } else {
            Err(message("Unexpected key '", p.name.as_str(), "' in LogDetails attribute"))
        };
        match step {
            Ok(()) => {},
            Err(e) => {
                proof {
                    assert(e@ =~= details_fold(ps@.take(i + 1))->Err_0);
                    lemma_details_err_extends(ps@, i + 1);
                }
                return Err(e);
            },
        }
        i = i + 1;
    }
    proof {
        assert(ps@.take(i as int) =~= ps@);
    }
    match (level, text, id) {
        (Some(l), Some(t), Some(v)) => Ok(LogDetails { level: l, text: t, id: v }),
        (None, _, _) => Err(String::from_str("No Level provided in LogDetails")),
        (_, None, _) => Err(String::from_str("No Text provided in LogDetails")),
        (_, _, None) => Err(String::from_str("No Id provided in LogDetails")),
    }
}

/// Read the `LogDetails` attributes of a log type, given the parameters of
/// each: there must be exactly one.
///
/// An `Err` rejects the log type: the derivation stops there, with the
/// message as its error.  Among the log types rejected are those with no
/// `LogDetails` attribute or more than one, and those whose attribute does
/// not give each of `Id`, `Level` and `Text` exactly once and nothing else.
pub fn parse_log_details(attrs: &Vec<Vec<AttrParam>>) -> (r: Result<LogDetails, String>)
    ensures
        match log_details_of(attrs@) {
            Ok(d) => r matches Ok(v) && v.level == d.0 && v.text@ == d.1 && v.id == d.2,
            Err(e) => r matches Err(m) && m@ == e,
        },
        attrs@.len() != 1 ==> r is Err,
        r is Ok ==> {
            let ps = attrs@[0]@;
            &&& names_param(ps, "Id"@)
            &&& names_param(ps, "Level"@)
            &&& names_param(ps, "Text"@)
            &&& forall|i: int| 0 <= i < ps.len() ==> is_details_key((#[trigger] ps[i]).name@)
            &&& forall|i: int, j: int|
                0 <= i < j < ps.len() ==> (#[trigger] ps[i]).name@ != (#[trigger] ps[j]).name@
        },
{
    if attrs.len() == 1 {
        proof {
            lemma_details_fold_names(attrs@[0]@);
        }
    }
    if attrs.len() == 0 {
        Err(String::from_str("Unable to find LogDetails attribute"))
    } else if attrs.len() > 1 {
        Err(String::from_str("Multiple LogDetails attributes found"))
    } else {
        read_details(&attrs[0])
    }
}

/// The field that a `FixedFields` parameter adds to a log.
pub open spec fn fixed_field_of(p: AttrParam) -> Result<(Seq<char>, Seq<char>), Seq<char>> {
    if !is_identifier(p.name@) {
        Err("Field \""@ + p.name@ + "\" in FixedFields must be an identifier"@)
    } else {
        match p.value {
        ParamValue::Absent => Err("Field \""@ + p.name@ + "\" in FixedFields must have a value"@),
        ParamValue::Str(s) => Ok((p.name@, s@)),
        _ => Err("Field \""@ + p.name@ + "\" in FixedFields must have a literal string value"@),
        }
    }
}

/// The fields that the `FixedFields` parameters `ps` add to a log, in order,
/// or the message for the first wrong one.
pub open spec fn fixed_fields_of(ps: Seq<AttrParam>) -> Result<Seq<(Seq<char>, Seq<char>)>, Seq<char>>
    decreases ps.len(),
{
    if ps.len() == 0 {
        Ok(Seq::empty())
    } else {
        match fixed_fields_of(ps.drop_last()) {
            Ok(fs) => match fixed_field_of(ps.last()) {
                Ok(f) => Ok(fs.push(f)),
                Err(e) => Err(e),
            },
            Err(e) => Err(e),
        }
    }
}

/// Once a parameter is wrong, reading more parameters keeps its message.
proof fn lemma_fixed_fields_err_extends(ps: Seq<AttrParam>, k: int)
    requires
        0 <= k <= ps.len(),
        fixed_fields_of(ps.take(k)) is Err,
    ensures
        fixed_fields_of(ps) == fixed_fields_of(ps.take(k)),
    decreases ps.len() - k,
{
    if k < ps.len() {
        assert(ps.take(k + 1).drop_last() =~= ps.take(k));
        lemma_fixed_fields_err_extends(ps, k + 1);
    } else {
        assert(ps.take(k) =~= ps);
    }
}

/// The parameters of each of a list of attributes.
pub open spec fn param_seqs(attrs: Seq<Vec<AttrParam>>) -> Seq<Seq<AttrParam>> {
    attrs.map_values(|v: Vec<AttrParam>| v@)
}

/// Where the parameters of attribute `i` lie among those of all attributes:
/// after those of the attributes before it.
proof fn lemma_flatten_index<A>(s: Seq<Seq<A>>, i: int, j: int)
    requires
        0 <= i < s.len(),
        0 <= j < s[i].len(),
    ensures
        s.take(i).flatten().len() + j < s.flatten().len(),
        s.flatten()[s.take(i).flatten().len() + j] == s[i][j],
        s.take(i + 1).flatten() == s.take(i).flatten() + s[i],
{
    assert(s =~= s.take(i) + s.skip(i));
    vstd::seq_lib::lemma_flatten_concat(s.take(i), s.skip(i));
    assert(s.skip(i).first() == s[i]);
    assert(s.skip(i).drop_first() =~= s.skip(i + 1));
    assert(s.skip(i).flatten() == s[i] + s.skip(i + 1).flatten());
    assert(s.take(i + 1) =~= s.take(i).push(s[i]));
    s.take(i).lemma_flatten_push(s[i]);
}

/// Read the parameters of the `FixedFields` attributes of a log type, given
/// the parameters of each attribute: each must have a string value.  The
/// fields of all attributes are taken together, in order.
///
/// An `Err` rejects the log type: the derivation stops there, with the
/// message as its error.
pub fn parse_fixed_fields(attrs: &Vec<Vec<AttrParam>>) -> (r: Result<Vec<(String, String)>, String>)
    ensures
        match fixed_fields_of(param_seqs(attrs@).flatten()) {
            Ok(fs) => r matches Ok(v) && pair_views(v@) == fs,
            Err(e) => r matches Err(m) && m@ == e,
        },
{
    let ghost all = param_seqs(attrs@);
    let ghost flat = all.flatten();
    let mut out: Vec<(String, String)> = Vec::new();
    let mut i: usize = 0;
    proof {
        assert(pair_views(out@) =~= Seq::<(Seq<char>, Seq<char>)>::empty());
        assert(all.take(0) =~= Seq::<Seq<AttrParam>>::empty());
        assert(flat.take(0) =~= Seq::<AttrParam>::empty());
    }
    while i < attrs.len()
        invariant
            all == param_seqs(attrs@),
            flat == all.flatten(),
            i <= attrs@.len(),
            all.take(i as int).flatten() == flat.take(all.take(i as int).flatten().len() as int),
            fixed_fields_of(all.take(i as int).flatten()) == Ok::<Seq<(Seq<char>, Seq<char>)>, Seq<char>>(
                pair_views(out@),
            ),
        decreases attrs@.len() - i,
    {
        let ps = &attrs[i];
        let ghost before = all.take(i as int).flatten();
        let mut j: usize = 0;
        proof {
            assert(all[i as int] == ps@);
            assert(before + ps@.take(0) =~= before);
        }
        while j < ps.len()
            invariant
                all == param_seqs(attrs@),
                flat == all.flatten(),
                i < attrs@.len(),
                all[i as int] == ps@,
                before == all.take(i as int).flatten(),
                before + ps@.take(j as int) == flat.take(before.len() + j),
                j <= ps@.len(),
                fixed_fields_of(before + ps@.take(j as int)) == Ok::<Seq<(Seq<char>, Seq<char>)>, Seq<char>>(
                    pair_views(out@),
                ),
            decreases ps@.len() - j,
        {
            let p = &ps[j];
            let ghost prefix = before + ps@.take(j + 1);
            proof {
                lemma_flatten_index(all, i as int, j as int);
                assert(prefix.drop_last() =~= before + ps@.take(j as int));
                assert(prefix.last() == *p);
                assert(prefix =~= flat.take(before.len() + j + 1));
            }
            if !identifier_ok(p.name.as_str(), false) {
                let e = message("Field \"", p.name.as_str(), "\" in FixedFields must be an identifier");
                proof {
                    lemma_fixed_fields_err_extends(flat, before.len() + j + 1);
                }
                return Err(e);
            }
            match &p.value {
                ParamValue::Str(s) => {
                    let ghost prev = pair_views(out@);
                    out.push((p.name.clone(), s.clone()));
                    proof {
                        assert(pair_views(out@) =~= prev.push((p.name@, s@)));
                    }
                },
                ParamValue::Absent => {
                    let e = message("Field \"", p.name.as_str(), "\" in FixedFields must have a value");
                    proof {
                        lemma_fixed_fields_err_extends(flat, before.len() + j + 1);
                    }
                    return Err(e);
                },
                _ => {
                    let e = message(
                        "Field \"",
                        p.name.as_str(),
                        "\" in FixedFields must have a literal string value",
                    );
                    proof {
                        lemma_fixed_fields_err_extends(flat, before.len() + j + 1);
                    }
                    return Err(e);
                },
            }
            j = j + 1;
        }
        proof {
            assert(ps@.take(j as int) =~= ps@);
            if ps@.len() > 0 {
                lemma_flatten_index(all, i as int, 0);
            } else {
                assert(all.take(i + 1) =~= all.take(i as int).push(all[i as int]));
                all.take(i as int).lemma_flatten_push(all[i as int]);
            }
        }
        i = i + 1;
    }
    proof {
        assert(all.take(i as int) =~= all);
    }
    Ok(out)
}

/// Putting some fields in one `FixedFields` attribute or spreading them
/// over two consecutive ones gives the same fixed fields: attribute `i`,
/// split after its first `k` parameters, gives what it gave whole.
pub proof fn lemma_fixed_fields_split(attrs: Seq<Seq<AttrParam>>, i: int, k: int)
    requires
        0 <= i < attrs.len(),
        0 <= k <= attrs[i].len(),
    ensures
        fixed_fields_of(
            (attrs.take(i) + seq![attrs[i].take(k), attrs[i].skip(k)] + attrs.skip(i + 1)).flatten(),
        ) == fixed_fields_of(attrs.flatten()),
{
    let pre = attrs.take(i);
    let post = attrs.skip(i + 1);
    let pair = seq![attrs[i].take(k), attrs[i].skip(k)];
    vstd::seq_lib::lemma_flatten_concat(pre + pair, post);
    vstd::seq_lib::lemma_flatten_concat(pre, pair);
    assert(pair.drop_first() =~= seq![attrs[i].skip(k)]);
    pair.drop_first().lemma_flatten_singleton();
    assert(pair.flatten() == pair.first() + pair.drop_first().flatten());
    assert(pair.flatten() =~= attrs[i].take(k) + attrs[i].skip(k));
    assert(attrs[i].take(k) + attrs[i].skip(k) =~= attrs[i]);
    assert(attrs =~= pre + seq![attrs[i]] + post);
    vstd::seq_lib::lemma_flatten_concat(pre + seq![attrs[i]], post);
    vstd::seq_lib::lemma_flatten_concat(pre, seq![attrs[i]]);
    seq![attrs[i]].lemma_flatten_singleton();
}

/// The position of the first `key` in `keys`, or -1 if there is none.
pub open spec fn first_index(keys: Seq<Seq<char>>, key: Seq<char>) -> int
    decreases keys.len(),
{
    if keys.len() == 0 {
        -1
    } else if keys[0] == key {
        0
    } else {
        let r = first_index(keys.drop_first(), key);
        if r < 0 {
            -1
        } else {
            r + 1
        }
    }
}

/// The keys of a list of entries.
pub open spec fn entry_keys<V>(entries: Seq<(String, V)>) -> Seq<Seq<char>> {
    entries.map_values(|e: (String, V)| e.0@)
}

/// The position of the first entry of `entries` with the key `key`.
fn find_key<V>(entries: &Vec<(String, V)>, key: &str) -> (r: Option<usize>)
    ensures
        match r {
            Some(i) => i < entries@.len() && i as int == first_index(entry_keys(entries@), key@)
                && entries@[i as int].0@ == key@,
            None => first_index(entry_keys(entries@), key@) == -1,
        },
{
    let ghost keys = entry_keys(entries@);
    let mut i: usize = 0;
    proof {
        assert(keys.skip(0) =~= keys);
    }
    while i < entries.len()
        invariant
            keys == entry_keys(entries@),
            i <= entries@.len(),
            first_index(keys, key@) == if first_index(keys.skip(i as int), key@) < 0 {
                -1
            } else {
                first_index(keys.skip(i as int), key@) + i
            },
        decreases entries@.len() - i,
    {
        proof {
            assert(keys.skip(i as int).drop_first() =~= keys.skip(i + 1));
            assert(keys.skip(i as int)[0] == entries@[i as int].0@);
        }
        if str_eq(entries[i].0.as_str(), key) {
            return Some(i);
        }
        i = i + 1;
    }
    proof {
        assert(keys.skip(i as int).len() == 0);
    }
    None
}

/// Whether `v` holds the string `s`.
fn contains_str(v: &Vec<String>, s: &str) -> (r: bool)
    ensures
        r == string_views(v@).contains(s@),
{
    let mut i: usize = 0;
    while i < v.len()
        invariant
            i <= v@.len(),
            forall|j: int| 0 <= j < i ==> v@[j]@ != s@,
        decreases v@.len() - i,
    {
        if str_eq(v[i].as_str(), s) {
            proof {
                assert(string_views(v@)[i as int] == s@);
            }
            return true;
        }
        i = i + 1;
    }
    proof {
        if string_views(v@).contains(s@) {
            let j = choose|j: int| 0 <= j < string_views(v@).len() && string_views(v@)[j] == s@;
            assert(v@[j]@ == s@);
        }
    }
    false
}

/// The kind of a field attribute that refers to a statistic.
#[derive(Debug, Clone, Copy, PartialEq, Eq, Structural)]
pub enum FieldRefKind {
    /// The field's value is a tag of the statistic.
    StatGroup,
    /// The field's value sorts the statistic into buckets.
    BucketBy,
}

/// A `StatGroup` or `BucketBy` attribute on a named field of a log type.
#[derive(Debug, Clone)]
pub struct FieldAttr {
    /// The name of the field.
    pub field: String,
    /// The kind of the attribute.
    pub kind: FieldRefKind,
    /// The parameters of the attribute.
    pub params: Vec<AttrParam>,
}

/// Which fields of a log type group or bucket each statistic.
#[derive(Debug, Clone)]
pub struct FieldReferences {
    /// For each statistic, the fields whose values are its tags, each once.
    pub stat_group_refs: Vec<(String, Vec<String>)>,
    /// For each statistic, the field whose value sorts it into buckets.
    pub bucket_by_ref: Vec<(String, String)>,
}

/// The abstract content of the field references of a log type.
pub struct FieldRefsView {
    pub groups: Seq<(Seq<char>, Seq<Seq<char>>)>,
    pub bucket_by: Seq<(Seq<char>, Seq<char>)>,
}

impl View for FieldReferences {
    type V = FieldRefsView;

    open spec fn view(&self) -> FieldRefsView {
        FieldRefsView {
            groups: self.stat_group_refs@.map_values(
                |e: (String, Vec<String>)| (e.0@, string_views(e.1@)),
            ),
            bucket_by: pair_views(self.bucket_by_ref@),
        }
    }
}

/// The name of the attribute of kind `k`.
pub open spec fn kind_name(k: FieldRefKind) -> Seq<char> {
    match k {
        FieldRefKind::StatGroup => "StatGroup"@,
        FieldRefKind::BucketBy => "BucketBy"@,
    }
}

/// The statistic named by the parameters `ps` of a field attribute of kind
/// `k` (the last `StatName` counts), or the message for the first wrong one.
pub open spec fn ref_name_fold(ps: Seq<AttrParam>, k: FieldRefKind) -> Result<Option<Seq<char>>, Seq<char>>
    decreases ps.len(),
{
    if ps.len() == 0 {
        Ok(None)
    } else {
        match ref_name_fold(ps.drop_last(), k) {
            Err(e) => Err(e),
            Ok(_) => {
                let p = ps.last();
                if p.name@ != "StatName"@ {
                    Err("Unrecognised parameter '"@ + p.name@ + "' in "@ + kind_name(k) + " attribute"@)
                } else {
                    match p.value {
                        ParamValue::Absent => Err("StatName parameter needs a value"@),
                        ParamValue::Str(s) => Ok(Some(s@)),
                        _ => Err("StatName parameter must be a string literal"@),
                    }
                }
            },
        }
    }
}

/// The statistic that the field attribute `a` refers to.
pub open spec fn ref_stat_name(a: FieldAttr) -> Result<Seq<char>, Seq<char>> {
    match ref_name_fold(a.params@, a.kind) {
        Err(e) => Err(e),
        Ok(None) => Err("No `StatName` parameter provided"@),
        Ok(Some(n)) => Ok(n),
    }
}

/// The fields `fields` with `f` added, unless it is there already.
pub open spec fn add_field(fields: Seq<Seq<char>>, f: Seq<char>) -> Seq<Seq<char>> {
    if fields.contains(f) {
        fields
    } else {
        fields.push(f)
    }
}

/// The grouping fields of each statistic after `field` is added to those of
/// `stat`.
pub open spec fn add_group(groups: Seq<(Seq<char>, Seq<Seq<char>>)>, stat: Seq<char>, field: Seq<char>) -> Seq<(Seq<char>, Seq<Seq<char>>)> {
    let i = first_index(groups.map_values(|e: (Seq<char>, Seq<Seq<char>>)| e.0), stat);
    if i < 0 {
        groups.push((stat, seq![field]))
    } else {
        groups.update(i, (stat, add_field(groups[i].1, field)))
    }
}

/// The field references after the field attribute `a` is read.
pub open spec fn refs_step(r: FieldRefsView, a: FieldAttr) -> Result<FieldRefsView, Seq<char>> {
    match ref_stat_name(a) {
        Err(e) => Err(e),
        Ok(n) => match a.kind {
            FieldRefKind::StatGroup => Ok(
                FieldRefsView { groups: add_group(r.groups, n, a.field@), bucket_by: r.bucket_by },
            ),
            FieldRefKind::BucketBy => if first_index(
                r.bucket_by.map_values(|e: (Seq<char>, Seq<char>)| e.0),
                n,
            ) >= 0 {
                Err("Multiple `BucketBy` attributes found for `"@ + n + "`"@)
            } else {
                Ok(FieldRefsView { groups: r.groups, bucket_by: r.bucket_by.push((n, a.field@)) })
            },
        },
    }
}

/// The field references that the field attributes `attrs` give, read in
/// order, or the message for the first wrong one.
pub open spec fn field_refs_of(attrs: Seq<FieldAttr>) -> Result<FieldRefsView, Seq<char>>
    decreases attrs.len(),
{
    if attrs.len() == 0 {
        Ok(FieldRefsView { groups: Seq::empty(), bucket_by: Seq::empty() })
    } else {
        match field_refs_of(attrs.drop_last()) {
            Ok(r) => refs_step(r, attrs.last()),
            Err(e) => Err(e),
        }
    }
}

/// Once an attribute is wrong, reading more attributes keeps its message.
proof fn lemma_field_refs_err_extends(attrs: Seq<FieldAttr>, k: int)
    requires
        0 <= k <= attrs.len(),
        field_refs_of(attrs.take(k)) is Err,
    ensures
        field_refs_of(attrs) == field_refs_of(attrs.take(k)),
    decreases attrs.len() - k,
{
    if k < attrs.len() {
        assert(attrs.take(k + 1).drop_last() =~= attrs.take(k));
        lemma_field_refs_err_extends(attrs, k + 1);
    } else {
        assert(attrs.take(k) =~= attrs);
    }
}

/// Once a parameter is wrong, reading more parameters keeps its message.
proof fn lemma_ref_name_err_extends(ps: Seq<AttrParam>, k: int, kind: FieldRefKind)
    requires
        0 <= k <= ps.len(),
        ref_name_fold(ps.take(k), kind) is Err,
    ensures
        ref_name_fold(ps, kind) == ref_name_fold(ps.take(k), kind),
    decreases ps.len() - k,
{
    if k < ps.len() {
        assert(ps.take(k + 1).drop_last() =~= ps.take(k));
        lemma_ref_name_err_extends(ps, k + 1, kind);
    } else {
        assert(ps.take(k) =~= ps);
    }
}

/// The name of the attribute of kind `k`.
fn kind_str(k: FieldRefKind) -> (r: &'static str)
    ensures
        r@ == kind_name(k),
{
    match k {
        FieldRefKind::StatGroup => "StatGroup",
        FieldRefKind::BucketBy => "BucketBy",
    }
}

/// Read the statistic that a field attribute refers to.
fn read_ref_stat_name(a: &FieldAttr) -> (r: Result<String, String>)
    ensures
        match ref_stat_name(*a) {
            Ok(n) => r matches Ok(v) && v@ == n,
            Err(e) => r matches Err(m) && m@ == e,
        },
{
    let ps = &a.params;
    let mut name: Option<String> = None;
    let mut i: usize = 0;
    while i < ps.len()
        invariant
            i <= ps@.len(),
            ps == a.params,
            ref_name_fold(ps@.take(i as int), a.kind) == Ok::<Option<Seq<char>>, Seq<char>>(
                match name {
                    Some(n) => Some(n@),
                    None => None,
                },
            ),
        decreases ps@.len() - i,
    {
        let p = &ps[i];
        proof {
            assert(ps@.take(i + 1).drop_last() =~= ps@.take(i as int));
            assert(ps@.take(i + 1).last() == *p);
        }
        if !str_eq(p.name.as_str(), "StatName") {
            let mut e = message("Unrecognised parameter '", p.name.as_str(), "' in ");
            e.append(kind_str(a.kind));
            e.append(" attribute");
            proof {
                lemma_ref_name_err_extends(ps@, i + 1, a.kind);
            }
            return Err(e);
        }
        match &p.value {
            ParamValue::Str(s) => {
                name = Some(s.clone());
            },
            ParamValue::Absent => {
                proof {
                    lemma_ref_name_err_extends(ps@, i + 1, a.kind);
                }
                return Err(String::from_str("StatName parameter needs a value"));
            },
            _ => {
                proof {
                    lemma_ref_name_err_extends(ps@, i + 1, a.kind);
                }
                return Err(String::from_str("StatName parameter must be a string literal"));
            },
        }
        i = i + 1;
    }
    proof {
        assert(ps@.take(i as int) =~= ps@);
    }
    match name {
        Some(n) => Ok(n),
        None => Err(String::from_str("No `StatName` parameter provided")),
    }
}

/// A key found in a list is still found once something is added at the end,
/// and the added key is found.
proof fn lemma_first_index_push(keys: Seq<Seq<char>>, x: Seq<char>, y: Seq<char>)
    ensures
        first_index(keys, y) >= 0 || x == y ==> first_index(keys.push(x), y) >= 0,
    decreases keys.len(),
{
    if keys.len() > 0 {
        assert(keys.push(x).drop_first() =~= keys.drop_first().push(x));
        lemma_first_index_push(keys.drop_first(), x, y);
    }
}

/// What collated field references come from: every attribute names its
/// statistic, and no two `BucketBy` attributes name the same one.
proof fn lemma_field_refs_names(attrs: Seq<FieldAttr>)
    ensures
        field_refs_of(attrs) matches Ok(refs) ==> {
            &&& forall|i: int| 0 <= i < attrs.len() ==> (#[trigger] ref_stat_name(attrs[i])) is Ok
            &&& forall|i: int|
                0 <= i < attrs.len() && (#[trigger] attrs[i]).kind == FieldRefKind::BucketBy ==> first_index(
                    refs.bucket_by.map_values(|e: (Seq<char>, Seq<char>)| e.0),
                    ref_stat_name(attrs[i])->Ok_0,
                ) >= 0
            &&& forall|i: int, j: int|
                0 <= i < j < attrs.len() && (#[trigger] attrs[i]).kind == FieldRefKind::BucketBy
                    && (#[trigger] attrs[j]).kind == FieldRefKind::BucketBy ==> ref_stat_name(attrs[i])
                    != ref_stat_name(attrs[j])
        },
    decreases attrs.len(),
{
    if attrs.len() > 0 {
        let prev = attrs.drop_last();
        let a = attrs.last();
        lemma_field_refs_names(prev);
        if let Ok(refs) = field_refs_of(attrs) {
            let r0 = field_refs_of(prev)->Ok_0;
            assert(field_refs_of(prev) is Ok);
            assert(attrs[attrs.len() - 1] == a);
            assert forall|i: int| 0 <= i < prev.len() implies #[trigger] attrs[i] == prev[i] by {}
            let n = ref_stat_name(a)->Ok_0;
            let f = |e: (Seq<char>, Seq<char>)| e.0;
            if a.kind == FieldRefKind::BucketBy {
                assert(refs.bucket_by == r0.bucket_by.push((n, a.field@)));
                assert(refs.bucket_by.map_values(f) =~= r0.bucket_by.map_values(f).push(n));
                assert forall|y: Seq<char>| first_index(r0.bucket_by.map_values(f), y) >= 0 || y == n
                    implies #[trigger] first_index(refs.bucket_by.map_values(f), y) >= 0 by {
                    lemma_first_index_push(r0.bucket_by.map_values(f), n, y);
                }
            } else {
                assert(refs.bucket_by == r0.bucket_by);
            }
            assert forall|i: int, j: int|
                0 <= i < j < attrs.len() && (#[trigger] attrs[i]).kind == FieldRefKind::BucketBy
                    && (#[trigger] attrs[j]).kind == FieldRefKind::BucketBy implies ref_stat_name(attrs[i])
                != ref_stat_name(attrs[j]) by {
                if j < prev.len() {
                    assert(attrs[i] == prev[i] && attrs[j] == prev[j]);
                } else {
                    assert(attrs[i] == prev[i]);
                    assert(first_index(r0.bucket_by.map_values(f), ref_stat_name(prev[i])->Ok_0) >= 0);
                }
            }
        }
    }
}

/// Collate the `StatGroup` and `BucketBy` attributes of the fields of a log
/// type, field by field and attribute by attribute: which fields group each
/// statistic, and which field buckets it.  At most one field may bucket a
/// statistic.
///
/// An `Err` rejects the log type: the derivation stops there, with the
/// message as its error.  Among the log types rejected are those with a
/// field attribute that does not name its statistic with `StatName` (and
/// nothing else), and those where two `BucketBy` attributes name the same
/// statistic.
pub fn collate_field_references(attrs: &Vec<FieldAttr>) -> (r: Result<FieldReferences, String>)
    ensures
        match field_refs_of(attrs@) {
            Ok(v) => r matches Ok(refs) && refs@ == v,
            Err(e) => r matches Err(m) && m@ == e,
        },
        r is Ok ==> forall|i: int| 0 <= i < attrs@.len() ==> (#[trigger] ref_stat_name(attrs@[i])) is Ok,
        r is Ok ==> forall|i: int, j: int|
            0 <= i < j < attrs@.len() && (#[trigger] attrs@[i]).kind == FieldRefKind::BucketBy
                && (#[trigger] attrs@[j]).kind == FieldRefKind::BucketBy ==> ref_stat_name(attrs@[i])
                != ref_stat_name(attrs@[j]),
{
    proof {
        lemma_field_refs_names(attrs@);
    }
    let mut refs = FieldReferences { stat_group_refs: Vec::new(), bucket_by_ref: Vec::new() };
    let mut i: usize = 0;
    proof {
        assert(refs@.groups =~= Seq::<(Seq<char>, Seq<Seq<char>>)>::empty());
        assert(refs@.bucket_by =~= Seq::<(Seq<char>, Seq<char>)>::empty());
    }
    while i < attrs.len()
        invariant
            i <= attrs@.len(),
            field_refs_of(attrs@.take(i as int)) == Ok::<FieldRefsView, Seq<char>>(refs@),
        decreases attrs@.len() - i,
    {
        let a = &attrs[i];
        proof {
            assert(attrs@.take(i + 1).drop_last() =~= attrs@.take(i as int));
            assert(attrs@.take(i + 1).last() == *a);
        }
        let stat = match read_ref_stat_name(a) {
            Ok(n) => n,
            Err(e) => {
                proof {
                    lemma_field_refs_err_extends(attrs@, i + 1);
                }
                return Err(e);
            },
        };
        let ghost before = refs@;
        match a.kind {
            FieldRefKind::StatGroup => {
                proof {
                    assert(entry_keys(refs.stat_group_refs@) =~= before.groups.map_values(
                        |e: (Seq<char>, Seq<Seq<char>>)| e.0,
                    ));
                }
                match find_key(&refs.stat_group_refs, stat.as_str()) {
                    Some(k) => {
                        let ghost old_groups = refs.stat_group_refs@;
                        let (key, mut fields) = refs.stat_group_refs.remove(k);
                        if !contains_str(&fields, a.field.as_str()) {
                            fields.push(a.field.clone());
                            proof {
                                assert(string_views(fields@) =~= add_field(before.groups[k as int].1, a.field@));
                            }
                        }
                        refs.stat_group_refs.insert(k, (key, fields));
                        proof {
                            assert(refs.stat_group_refs@ =~= old_groups.update(k as int, (key, fields)));
                            assert(refs@.groups =~= add_group(before.groups, stat@, a.field@));
                        }
                    },
                    None => {
                        let mut fields: Vec<String> = Vec::new();
                        fields.push(a.field.clone());
                        refs.stat_group_refs.push((stat, fields));
                        proof {
                            assert(string_views(fields@) =~= seq![a.field@]);
                            assert(refs@.groups =~= add_group(before.groups, stat@, a.field@));
                        }
                    },
                }
            },
            FieldRefKind::BucketBy => {
                proof {
                    assert(entry_keys(refs.bucket_by_ref@) =~= before.bucket_by.map_values(
                        |e: (Seq<char>, Seq<char>)| e.0,
                    ));
                }
                match find_key(&refs.bucket_by_ref, stat.as_str()) {
                    Some(_) => {
                        let e = message("Multiple `BucketBy` attributes found for `", stat.as_str(), "`");
                        proof {
                            lemma_field_refs_err_extends(attrs@, i + 1);
                        }
                        return Err(e);
                    },
                    None => {
                        refs.bucket_by_ref.push((stat, a.field.clone()));
                        proof {
                            assert(refs@.bucket_by =~= before.bucket_by.push((stat@, a.field@)));
                        }
                    },
                }
            },
        }
        i = i + 1;
    }
    proof {
        assert(attrs@.take(i as int) =~= attrs@);
    }
    Ok(refs)
}

/// The value that a statistic trigger changes its statistic by.
#[derive(Debug, Clone, PartialEq, Eq)]
pub enum TriggerValue {
    /// A fixed number.
    Literal(i64),
    /// An expression, in Rust source, that may read the log through `self`.
    Expr(String),
}

/// The abstract content of a trigger value.
pub enum TriggerValueView {
    Literal(i64),
    Expr(Seq<char>),
}

impl View for TriggerValue {
    type V = TriggerValueView;

    open spec fn view(&self) -> TriggerValueView {
        match self {
            TriggerValue::Literal(v) => TriggerValueView::Literal(*v),
            TriggerValue::Expr(e) => TriggerValueView::Expr(e@),
        }
    }
}

/// What a `StatTrigger` attribute of a log type gives, with the fields of
/// the log type that group and bucket the statistic it names.
#[derive(Debug, Clone)]
pub struct StatTriggerData {
    /// The name of the statistic to change.
    pub stat_name: String,
    /// The condition, in Rust source, for the statistic to change; `None`
    /// if it changes on every log.
    pub condition: Option<String>,
    /// The change to make.
    pub action: StatTriggerAction,
    /// The value to change it by.
    pub value: TriggerValue,
    /// The fixed tags that the trigger gives the statistic.
    pub fixed_groups: Vec<(String, String)>,
    /// The fields whose values are tags of the statistic.
    pub field_groups: Vec<String>,
    /// The field whose value sorts the statistic into buckets.
    pub bucket_by: Option<String>,
}

/// The abstract content of a statistic trigger of a log type.
pub struct StatTriggerDataView {
    pub stat_name: Seq<char>,
    pub condition: Option<Seq<char>>,
    pub action: StatTriggerAction,
    pub value: TriggerValueView,
    pub fixed_groups: Seq<(Seq<char>, Seq<char>)>,
    pub field_groups: Seq<Seq<char>>,
    pub bucket_by: Option<Seq<char>>,
}

impl View for StatTriggerData {
    type V = StatTriggerDataView;

    open spec fn view(&self) -> StatTriggerDataView {
        StatTriggerDataView {
            stat_name: self.stat_name@,
            condition: match self.condition {
                Some(c) => Some(c@),
                None => None,
            },
            action: self.action,
            value: self.value@,
            fixed_groups: pair_views(self.fixed_groups@),
            field_groups: string_views(self.field_groups@),
            bucket_by: match self.bucket_by {
                Some(b) => Some(b@),
                None => None,
            },
        }
    }
}

/// The parameters of a `StatTrigger` attribute read so far.
pub struct TriggerSoFar {
    pub name: Option<Seq<char>>,
    pub condition: Option<Seq<char>>,
    pub action: Option<StatTriggerAction>,
    pub value: Option<TriggerValueView>,
    pub fixed_groups: Seq<(Seq<char>, Seq<char>)>,
}

/// The pairs `m` after each of `ps` is added in turn.
pub open spec fn upsert_all(m: Seq<(Seq<char>, Seq<char>)>, ps: Seq<(Seq<char>, Seq<char>)>) -> Seq<(Seq<char>, Seq<char>)>
    decreases ps.len(),
{
    if ps.len() == 0 {
        m
    } else {
        upsert_pair(upsert_all(m, ps.drop_last()), ps.last())
    }
}

/// The string value of the `StatTrigger` parameter `p`.
pub open spec fn trigger_str(p: AttrParam) -> Result<Seq<char>, Seq<char>> {
    match p.value {
        ParamValue::Absent => Err(p.name@ + " parameter of StatTrigger needs a value"@),
        ParamValue::Str(s) => Ok(s@),
        _ => Err(p.name@ + " parameter of StatTrigger must be a string literal"@),
    }
}

/// What `syn::parse_str::<syn::Expr>` decides of `text`: whether it reads
/// it as a Rust expression.
pub uninterp spec fn rust_expr_parses(text: Seq<char>) -> bool;

/// Whether `text` is a Rust expression, as `syn::parse_str::<syn::Expr>`
/// reads it.  The contract names the result and claims nothing else of it.
#[verifier::external_body]
fn parses_as_expr(text: &str) -> (r: bool)
    ensures
        r == rust_expr_parses(text@),
{
    syn::parse_str::<syn::Expr>(text).is_ok()
}

/// The identifier, of any kind (keywords, `_` and raw identifiers among
/// them), that `syn` reads as the whole of `text` with
/// `syn::ext::IdentExt::parse_any`, written out as `syn` writes it.
pub uninterp spec fn rust_ident_read(text: Seq<char>) -> Option<Seq<char>>;

/// Read `text` as one identifier of any kind with
/// `syn::ext::IdentExt::parse_any`, and write the identifier out again.
/// The contract names the result and claims nothing else of it.
#[verifier::external_body]
fn read_ident(text: &str) -> (r: Option<String>)
    ensures
        match r {
            Some(i) => rust_ident_read(text@) == Some(i@),
            None => rust_ident_read(text@) is None,
        },
{
    syn::parse::Parser::parse_str(<syn::Ident as syn::ext::IdentExt>::parse_any, text)
        .ok()
        .map(|i| i.to_string())
}

/// Whether `text` is exactly one identifier (spaces or comments around it
/// are not part of one).
pub open spec fn is_identifier(text: Seq<char>) -> bool {
    rust_ident_read(text) == Some(text)
}

/// Whether `text` is exactly one identifier that is not raw (`r#...`): the
/// names `proc_macro2::Ident::new` accepts.
pub open spec fn is_plain_identifier(text: Seq<char>) -> bool {
    is_identifier(text) && !(text.len() >= 2 && text[0] == 'r' && text[1] == '#')
}

/// Whether `text` is exactly one identifier, and, when `plain`, not a raw
/// one.
fn identifier_ok(text: &str, plain: bool) -> (r: bool)
    ensures
        r == if plain {
            is_plain_identifier(text@)
        } else {
            is_identifier(text@)
        },
{
    let read = match read_ident(text) {
        Some(i) => i,
        None => {
            return false;
        },
    };
    if !str_eq(read.as_str(), text) {
        return false;
    }
    if plain && text.unicode_len() >= 2 && text.get_char(0) == 'r' && text.get_char(1) == '#' {
        return false;
    }
    true
}

/// The statistic that the `StatTrigger` parameter `p` names: an identifier
/// that is not raw, as the generated code makes it with `Ident::new`.
pub open spec fn trigger_stat_name(p: AttrParam) -> Result<Seq<char>, Seq<char>> {
    match trigger_str(p) {
        Ok(s) => if is_plain_identifier(s) {
            Ok(s)
        } else {
            Err("StatName parameter of StatTrigger is not an identifier: "@ + s)
        },
        Err(e) => Err(e),
    }
}

/// The Rust expression that the `StatTrigger` parameter `p` gives.
pub open spec fn trigger_expr(p: AttrParam) -> Result<Seq<char>, Seq<char>> {
    match trigger_str(p) {
        Ok(s) => if rust_expr_parses(s) {
            Ok(s)
        } else {
            Err(p.name@ + " parameter of StatTrigger is not an expression: "@ + s)
        },
        Err(e) => Err(e),
    }
}

/// The value that the `Value` parameter with the text `s` gives.
pub open spec fn literal_value(s: Seq<char>) -> Result<TriggerValueView, Seq<char>> {
    match parsed_i64(s) {
        Some(v) => Ok(TriggerValueView::Literal(v)),
        None => Err("Invalid number for `Value` in `StatTrigger`: "@ + s),
    }
}

/// The message for a `StatTrigger` that gives its value more than once.
pub open spec fn value_twice_msg() -> Seq<char> {
    "StatTrigger needs exactly one of Value and ValueFrom, but was given more"@
}

/// The `StatTrigger` parameters read so far, after the parameter `p`.
pub open spec fn trigger_step(st: TriggerSoFar, p: AttrParam) -> Result<TriggerSoFar, Seq<char>> {
    let n = p.name@;
    if n == "StatName"@ {
        match trigger_stat_name(p) {
            Ok(s) => Ok(TriggerSoFar { name: Some(s), ..st }),
            Err(e) => Err(e),
        }
    } else if n == "Condition"@ {
        match trigger_expr(p) {
            Ok(s) => Ok(TriggerSoFar { condition: Some(s), ..st }),
            Err(e) => Err(e),
        }
    } else if n == "Action"@ {
        match trigger_str(p) {
            Ok(s) => match action_named(s) {
                Some(a) => Ok(TriggerSoFar { action: Some(a), ..st }),
                None => Err("Unknown StatTrigger action "@ + s),
            },
            Err(e) => Err(e),
        }
    } else if (n == "Value"@ || n == "ValueFrom"@) && st.value is Some {
        Err(value_twice_msg())
    } else if n == "Value"@ {
        match p.value {
            ParamValue::Absent => Err(n + " parameter of StatTrigger needs a value"@),
            ParamValue::NotLit => Err("Value parameter of StatTrigger must be a literal"@),
            ParamValue::OtherLit => Err("Invalid parameter for `Value` in `StatTrigger`"@),
            ParamValue::Str(s) => match literal_value(s@) {
                Ok(v) => Ok(TriggerSoFar { value: Some(v), ..st }),
                Err(e) => Err(e),
            },
            ParamValue::Int(s) => match literal_value(s@) {
                Ok(v) => Ok(TriggerSoFar { value: Some(v), ..st }),
                Err(e) => Err(e),
            },
        }
    } else if n == "ValueFrom"@ {
        match trigger_expr(p) {
            Ok(s) => Ok(TriggerSoFar { value: Some(TriggerValueView::Expr(s)), ..st }),
            Err(e) => Err(e),
        }
    } else if n == "FixedGroups"@ {
        match trigger_str(p) {
            Ok(s) => match fixed_groups_of(split_commas(s)) {
                Some(g) => Ok(TriggerSoFar { fixed_groups: upsert_all(st.fixed_groups, g), ..st }),
                None => Err("Invalid format for FixedGroups"@),
            },
            Err(e) => Err(e),
        }
    } else {
        Err("Unrecognised parameter `"@ + n + "` in StatTrigger attribute"@)
    }
}

/// The `StatTrigger` parameters read from `ps`, in order, or the message for
/// the first wrong one.
pub open spec fn trigger_fold(ps: Seq<AttrParam>) -> Result<TriggerSoFar, Seq<char>>
    decreases ps.len(),
{
    if ps.len() == 0 {
        Ok(
            TriggerSoFar {
                name: None,
                condition: None,
                action: None,
                value: None,
                fixed_groups: Seq::empty(),
            },
        )
    } else {
        match trigger_fold(ps.drop_last()) {
            Ok(st) => trigger_step(st, ps.last()),
            Err(e) => Err(e),
        }
    }
}

/// The fields that group the statistic `name`.
pub open spec fn group_fields_of(refs: FieldRefsView, name: Seq<char>) -> Seq<Seq<char>> {
    let i = first_index(refs.groups.map_values(|e: (Seq<char>, Seq<Seq<char>>)| e.0), name);
    if i < 0 {
        Seq::empty()
    } else {
        refs.groups[i].1
    }
}

/// The field that buckets the statistic `name`, if any.
pub open spec fn bucket_field_of(refs: FieldRefsView, name: Seq<char>) -> Option<Seq<char>> {
    let i = first_index(refs.bucket_by.map_values(|e: (Seq<char>, Seq<char>)| e.0), name);
    if i < 0 {
        None
    } else {
        Some(refs.bucket_by[i].1)
    }
}

/// What a `StatTrigger` attribute with the parameters `ps` gives, on a log
/// type whose fields refer to statistics as `refs` says: `StatName`,
/// `Action` and exactly one of `Value` and `ValueFrom` are needed; without a
/// `Condition` the statistic changes on every log.
pub open spec fn trigger_data_of(ps: Seq<AttrParam>, refs: FieldRefsView) -> Result<StatTriggerDataView, Seq<char>> {
    match trigger_fold(ps) {
        Err(e) => Err(e),
        Ok(st) => if st.name is None {
            Err("StatTrigger missing value for StatName"@)
        } else if st.action is None {
            Err("StatTrigger missing value for Action"@)
        } else if st.value is None {
            Err("StatTrigger missing value for Value or ValueFrom"@)
        } else {
            Ok(
                StatTriggerDataView {
                    stat_name: st.name->0,
                    condition: st.condition,
                    action: st.action->0,
                    value: st.value->0,
                    fixed_groups: st.fixed_groups,
                    field_groups: group_fields_of(refs, st.name->0),
                    bucket_by: bucket_field_of(refs, st.name->0),
                },
            )
        },
    }
}

/// `first_index` finds the first entry with the key, and -1 exactly when no
/// entry has it.
proof fn lemma_first_index_finds(keys: Seq<Seq<char>>, key: Seq<char>)
    ensures
        -1 <= first_index(keys, key) < keys.len(),
        first_index(keys, key) >= 0 ==> keys[first_index(keys, key)] == key,
        forall|j: int| 0 <= j < keys.len() && (first_index(keys, key) < 0 || j < first_index(keys, key))
            ==> #[trigger] keys[j] != key,
    decreases keys.len(),
{
    if keys.len() > 0 && keys[0] != key {
        lemma_first_index_finds(keys.drop_first(), key);
        assert forall|j: int|
            0 <= j < keys.len() && (first_index(keys, key) < 0 || j < first_index(keys, key))
                implies #[trigger] keys[j] != key by {
            if j > 0 {
                assert(keys[j] == keys.drop_first()[j - 1]);
            }
        }
    }
}

/// The fields that group a statistic are those collated for it: the entry
/// for its name (the first, should there be several), and none when no
/// entry names it.  The same holds of the field that buckets it.
pub proof fn lemma_fields_of_named_stat(refs: FieldRefsView, name: Seq<char>)
    ensures
        forall|i: int|
            0 <= i < refs.groups.len() && #[trigger] refs.groups[i].0 == name && (forall|j: int|
                0 <= j < i ==> refs.groups[j].0 != name) ==> group_fields_of(refs, name)
                == refs.groups[i].1,
        (forall|j: int| 0 <= j < refs.groups.len() ==> refs.groups[j].0 != name)
            ==> group_fields_of(refs, name) == Seq::<Seq<char>>::empty(),
        forall|i: int|
            0 <= i < refs.bucket_by.len() && #[trigger] refs.bucket_by[i].0 == name && (forall|j: int|
                0 <= j < i ==> refs.bucket_by[j].0 != name) ==> bucket_field_of(refs, name)
                == Some(refs.bucket_by[i].1),
        (forall|j: int| 0 <= j < refs.bucket_by.len() ==> refs.bucket_by[j].0 != name)
            ==> bucket_field_of(refs, name) is None,
{
    let gk = refs.groups.map_values(|e: (Seq<char>, Seq<Seq<char>>)| e.0);
    let bk = refs.bucket_by.map_values(|e: (Seq<char>, Seq<char>)| e.0);
    lemma_first_index_finds(gk, name);
    lemma_first_index_finds(bk, name);
    assert forall|i: int|
        0 <= i < refs.groups.len() && #[trigger] refs.groups[i].0 == name && (forall|j: int|
            0 <= j < i ==> refs.groups[j].0 != name) implies group_fields_of(refs, name)
            == refs.groups[i].1 by {
        let f = first_index(gk, name);
        assert(gk[i] == name);
        if f < 0 || f > i {
        } else if f < i {
            assert(gk[f] == refs.groups[f].0);
        }
    }
    if forall|j: int| 0 <= j < refs.groups.len() ==> refs.groups[j].0 != name {
        let f = first_index(gk, name);
        if f >= 0 {
            assert(gk[f] == refs.groups[f].0);
        }
    }
    assert forall|i: int|
        0 <= i < refs.bucket_by.len() && #[trigger] refs.bucket_by[i].0 == name && (forall|j: int|
            0 <= j < i ==> refs.bucket_by[j].0 != name) implies bucket_field_of(refs, name)
            == Some(refs.bucket_by[i].1) by {
        let f = first_index(bk, name);
        assert(bk[i] == name);
        if f < 0 || f > i {
        } else if f < i {
            assert(bk[f] == refs.bucket_by[f].0);
        }
    }
    if forall|j: int| 0 <= j < refs.bucket_by.len() ==> refs.bucket_by[j].0 != name {
        let f = first_index(bk, name);
        if f >= 0 {
            assert(bk[f] == refs.bucket_by[f].0);
        }
    }
}

/// A `StatTrigger` attribute that reads is grouped by the fields collated
/// for the statistic it names, and by no fields when none were.
pub proof fn lemma_trigger_fields_of_named_stat(ps: Seq<AttrParam>, refs: FieldRefsView, i: int)
    requires
        trigger_data_of(ps, refs) is Ok,
    ensures
        ({
            let d = trigger_data_of(ps, refs)->Ok_0;
            &&& 0 <= i < refs.groups.len() && refs.groups[i].0 == d.stat_name && (forall|j: int|
                0 <= j < i ==> refs.groups[j].0 != d.stat_name) ==> d.field_groups
                == refs.groups[i].1
            &&& (forall|j: int| 0 <= j < refs.groups.len() ==> refs.groups[j].0 != d.stat_name)
                ==> d.field_groups == Seq::<Seq<char>>::empty()
        }),
{
    let d = trigger_data_of(ps, refs)->Ok_0;
    lemma_fields_of_named_stat(refs, d.stat_name);
    if 0 <= i < refs.groups.len() {
        assert(refs.groups[i].0 == refs.groups[i].0);
    }
}

/// What the `StatTrigger` attributes of a log type give, one per attribute
/// in order, or the message for the first wrong one.
pub open spec fn triggers_of(attrs: Seq<Vec<AttrParam>>, refs: FieldRefsView) -> Result<Seq<StatTriggerDataView>, Seq<char>>
    decreases attrs.len(),
{
    if attrs.len() == 0 {
        Ok(Seq::empty())
    } else {
        match triggers_of(attrs.drop_last(), refs) {
            Ok(ts) => match trigger_data_of(attrs.last()@, refs) {
                Ok(t) => Ok(ts.push(t)),
                Err(e) => Err(e),
            },
            Err(e) => Err(e),
        }
    }
}

/// Once a parameter is wrong, reading more parameters keeps its message.
proof fn lemma_trigger_err_extends(ps: Seq<AttrParam>, k: int)
    requires
        0 <= k <= ps.len(),
        trigger_fold(ps.take(k)) is Err,
    ensures
        trigger_fold(ps) == trigger_fold(ps.take(k)),
    decreases ps.len() - k,
{
    if k < ps.len() {
        assert(ps.take(k + 1).drop_last() =~= ps.take(k));
        lemma_trigger_err_extends(ps, k + 1);
    } else {
        assert(ps.take(k) =~= ps);
    }
}

/// Once an attribute is wrong, reading more attributes keeps its message.
proof fn lemma_triggers_err_extends(attrs: Seq<Vec<AttrParam>>, refs: FieldRefsView, k: int)
    requires
        0 <= k <= attrs.len(),
        triggers_of(attrs.take(k), refs) is Err,
    ensures
        triggers_of(attrs, refs) == triggers_of(attrs.take(k), refs),
    decreases attrs.len() - k,
{
    if k < attrs.len() {
        assert(attrs.take(k + 1).drop_last() =~= attrs.take(k));
        lemma_triggers_err_extends(attrs, refs, k + 1);
    } else {
        assert(attrs.take(k) =~= attrs);
    }
}

/// Read the string value of a `StatTrigger` parameter.
fn trigger_string(p: &AttrParam) -> (r: Result<String, String>)
    ensures
        match trigger_str(*p) {
            Ok(s) => r matches Ok(v) && v@ == s,
            Err(e) => r matches Err(m) && m@ == e,
        },
{
    match &p.value {
        ParamValue::Str(s) => Ok(s.clone()),
        ParamValue::Absent => Err(message2(p.name.as_str(), " parameter of StatTrigger needs a value")),
        _ => Err(message2(p.name.as_str(), " parameter of StatTrigger must be a string literal")),
    }
}

/// Read the Rust expression that a `StatTrigger` parameter gives.
fn read_trigger_expr(p: &AttrParam) -> (r: Result<String, String>)
    ensures
        match trigger_expr(*p) {
            Ok(s) => r matches Ok(v) && v@ == s,
            Err(e) => r matches Err(m) && m@ == e,
        },
{
    let s = trigger_string(p)?;
    if parses_as_expr(s.as_str()) {
        Ok(s)
    } else {
        let mut e = message2(p.name.as_str(), " parameter of StatTrigger is not an expression: ");
        e.append(s.as_str());
        Err(e)
    }
}

/// A copy of a list of strings.
fn clone_strings(v: &Vec<String>) -> (r: Vec<String>)
    ensures
        string_views(r@) == string_views(v@),
{
    let mut r: Vec<String> = Vec::new();
    let mut i: usize = 0;
    while i < v.len()
        invariant
            i <= v@.len(),
            string_views(r@) == string_views(v@.take(i as int)),
        decreases v@.len() - i,
    {
        let ghost before = r@;
        r.push(v[i].clone());
        proof {
            assert(string_views(r@) =~= string_views(before).push(v@[i as int]@));
            assert(v@.take(i + 1) =~= v@.take(i as int).push(v@[i as int]));
            assert(string_views(v@.take(i + 1)) =~= string_views(v@.take(i as int)).push(
                v@[i as int]@,
            ));
        }
        i = i + 1;
    }
    proof {
        assert(v@.take(i as int) =~= v@);
    }
    r
}

/// The fields that group the statistic `name` on a log type.
fn lookup_group_fields(refs: &FieldReferences, name: &str) -> (r: Vec<String>)
    ensures
        string_views(r@) == group_fields_of(refs@, name@),
{
    proof {
        assert(entry_keys(refs.stat_group_refs@) =~= refs@.groups.map_values(
            |e: (Seq<char>, Seq<Seq<char>>)| e.0,
        ));
    }
    match find_key(&refs.stat_group_refs, name) {
        Some(i) => clone_strings(&refs.stat_group_refs[i].1),
        None => {
            let r: Vec<String> = Vec::new();
            proof {
                assert(string_views(r@) =~= Seq::<Seq<char>>::empty());
            }
            r
        },
    }
}

/// The field that buckets the statistic `name` on a log type, if any.
fn lookup_bucket_field(refs: &FieldReferences, name: &str) -> (r: Option<String>)
    ensures
        match r {
            Some(f) => bucket_field_of(refs@, name@) == Some(f@),
            None => bucket_field_of(refs@, name@) is None,
        },
{
    proof {
        assert(entry_keys(refs.bucket_by_ref@) =~= refs@.bucket_by.map_values(
            |e: (Seq<char>, Seq<char>)| e.0,
        ));
    }
    match find_key(&refs.bucket_by_ref, name) {
        Some(i) => Some(refs.bucket_by_ref[i].1.clone()),
        None => None,
    }
}

/// The pairs `acc` after each of `ps` is added in turn.
fn upsert_pairs(acc: &mut Vec<(String, String)>, ps: Vec<(String, String)>)
    ensures
        pair_views(final(acc)@) == upsert_all(pair_views(old(acc)@), pair_views(ps@)),
{
    let ghost start = pair_views(acc@);
    let ghost pv = pair_views(ps@);
    let mut rest = ps;
    let mut k: usize = 0;
    let n = rest.len();
    proof {
        assert(pv.take(0) =~= Seq::<(Seq<char>, Seq<char>)>::empty());
        assert(pair_views(rest@) =~= pv.skip(0));
    }
    while k < n
        invariant
            n == pv.len(),
            k <= n,
            pair_views(rest@) == pv.skip(k as int),
            rest@.len() == n - k,
            pair_views(acc@) == upsert_all(start, pv.take(k as int)),
        decreases n - k,
    {
        let ghost old_rest = rest@;
        let (name, val) = rest.remove(0);
        proof {
            assert(pair_views(old_rest)[0] == (old_rest[0].0@, old_rest[0].1@));
            assert(pv.skip(k as int)[0] == (name@, val@));
            assert(rest@ =~= old_rest.drop_first());
            assert forall|j: int| 0 <= j < rest@.len() implies #[trigger] pair_views(rest@)[j]
                == pv.skip(k + 1)[j] by {
                assert(pair_views(rest@)[j] == pair_views(old_rest)[j + 1]);
                assert(pv.skip(k as int)[j + 1] == pv.skip(k + 1)[j]);
            }
            assert(pair_views(rest@) =~= pv.skip(k + 1));
            assert(pv.take(k + 1).drop_last() =~= pv.take(k as int));
            assert(pv.take(k + 1).last() == (name@, val@));
        }
        upsert_string_pair(acc, name, val);
        k = k + 1;
    }
    proof {
        assert(pv.take(k as int) =~= pv);
    }
}

/// Whether one of the parameters `ps` is named `n`.
pub open spec fn names_param(ps: Seq<AttrParam>, n: Seq<char>) -> bool {
    exists|i: int| 0 <= i < ps.len() && (#[trigger] ps[i]).name@ == n
}

/// Whether the `StatTrigger` parameter `p` gives the trigger's value.
pub open spec fn gives_value(p: AttrParam) -> bool {
    p.name@ == "Value"@ || p.name@ == "ValueFrom"@
}

/// What the `StatTrigger` parameters read so far give comes from parameters
/// of the right names, and no two of them give a value.
proof fn lemma_trigger_fold_names(ps: Seq<AttrParam>)
    ensures
        trigger_fold(ps) matches Ok(st) ==> {
            &&& st.name is Some ==> names_param(ps, "StatName"@)
            &&& st.action is Some ==> names_param(ps, "Action"@)
            &&& st.value is Some <==> exists|i: int| 0 <= i < ps.len() && gives_value(#[trigger] ps[i])
            &&& forall|i: int, j: int|
                0 <= i < j < ps.len() ==> !(gives_value(#[trigger] ps[i]) && gives_value(#[trigger] ps[j]))
        },
    decreases ps.len(),
{
    reveal_strlit("StatName");
    reveal_strlit("Condition");
    reveal_strlit("Action");
    reveal_strlit("Value");
    reveal_strlit("ValueFrom");
    reveal_strlit("FixedGroups");
    if ps.len() > 0 {
        let prev = ps.drop_last();
        let p = ps.last();
        lemma_trigger_fold_names(prev);
        if let Ok(st) = trigger_fold(ps) {
            let st0 = trigger_fold(prev)->Ok_0;
            assert(trigger_fold(prev) is Ok);
            assert(ps[ps.len() - 1] == p);
            assert forall|i: int| 0 <= i < prev.len() implies #[trigger] ps[i] == prev[i] by {}
            if names_param(prev, "StatName"@) {
                let w = choose|i: int| 0 <= i < prev.len() && (#[trigger] prev[i]).name@ == "StatName"@;
                assert(ps[w] == prev[w]);
            }
            if names_param(prev, "Action"@) {
                let w = choose|i: int| 0 <= i < prev.len() && (#[trigger] prev[i]).name@ == "Action"@;
                assert(ps[w] == prev[w]);
            }
            if exists|i: int| 0 <= i < prev.len() && gives_value(#[trigger] prev[i]) {
                let w = choose|i: int| 0 <= i < prev.len() && gives_value(#[trigger] prev[i]);
                assert(ps[w] == prev[w]);
            }
            if exists|i: int| 0 <= i < ps.len() && gives_value(#[trigger] ps[i]) {
                let w = choose|i: int| 0 <= i < ps.len() && gives_value(#[trigger] ps[i]);
                if w < prev.len() {
                    assert(prev[w] == ps[w]);
                }
            }
            if gives_value(p) {
                assert("Value"@.len() == 5 && "ValueFrom"@.len() == 9 && "StatName"@.len() == 8);
                assert("Action"@.len() == 6 && "Condition"@.len() == 9);
                assert("Condition"@[0] == 'C' && "ValueFrom"@[0] == 'V');
                assert(p.name@ != "StatName"@ && p.name@ != "Condition"@ && p.name@ != "Action"@);
                assert(st0.value is None);
                assert(st.value is Some);
                assert(!exists|i: int| 0 <= i < prev.len() && gives_value(#[trigger] prev[i]));
            } else {
                assert(st.value == st0.value);
            }
            assert forall|i: int, j: int|
                0 <= i < j < ps.len() implies !(gives_value(#[trigger] ps[i]) && gives_value(
                    #[trigger] ps[j],
                )) by {
                if j < prev.len() {
                    assert(ps[i] == prev[i] && ps[j] == prev[j]);
                } else if gives_value(ps[j]) {
                    assert(ps[j] == p);
                    assert(ps[i] == prev[i]);
                }
            }
        }
    }
}

/// Read a `StatTrigger` attribute with the parameters `ps`, on a log type
/// whose fields refer to statistics as `refs` says.
///
/// An `Err` rejects the attribute: the derivation stops there, with the
/// message as its error.  Among the attributes rejected are those without a
/// `StatName` or an `Action`, and those that give the value by neither or
/// by more than one of `Value` and `ValueFrom`.
pub fn parse_stat_trigger(ps: &Vec<AttrParam>, refs: &FieldReferences) -> (r: Result<StatTriggerData, String>)
    ensures
        match trigger_data_of(ps@, refs@) {
            Ok(t) => r matches Ok(v) && v@ == t,
            Err(e) => r matches Err(m) && m@ == e,
        },
        !names_param(ps@, "StatName"@) ==> r is Err,
        !names_param(ps@, "Action"@) ==> r is Err,
        (forall|i: int| 0 <= i < ps@.len() ==> !gives_value(#[trigger] ps@[i])) ==> r is Err,
        (exists|i: int, j: int|
            0 <= i < j < ps@.len() && gives_value(#[trigger] ps@[i]) && gives_value(#[trigger] ps@[j]))
            ==> r is Err,
{
    proof {
        lemma_trigger_fold_names(ps@);
    }
    let mut name: Option<String> = None;
    let mut condition: Option<String> = None;
    let mut action: Option<StatTriggerAction> = None;
    let mut value: Option<TriggerValue> = None;
    let mut fixed_groups: Vec<(String, String)> = Vec::new();
    let mut i: usize = 0;
    proof {
        assert(pair_views(fixed_groups@) =~= Seq::<(Seq<char>, Seq<char>)>::empty());
    }
    while i < ps.len()
        invariant
            i <= ps@.len(),
            trigger_fold(ps@.take(i as int)) == Ok::<TriggerSoFar, Seq<char>>(
                TriggerSoFar {
                    name: match name {
                        Some(n) => Some(n@),
                        None => None,
                    },
                    condition: match condition {
                        Some(c) => Some(c@),
                        None => None,
                    },
                    action,
                    value: match value {
                        Some(v) => Some(v@),
                        None => None,
                    },
                    fixed_groups: pair_views(fixed_groups@),
                },
            ),
        decreases ps@.len() - i,
    {
        let p = &ps[i];
        proof {
            assert(ps@.take(i + 1).drop_last() =~= ps@.take(i as int));
            assert(ps@.take(i + 1).last() == *p);
        }
        let key = p.name.as_str();
        let step: Result<(), String> = if str_eq(key, "StatName") {
            match trigger_string(p) {
                Ok(s) => {
                    if identifier_ok(s.as_str(), true) {
                        name = Some(s);
                        Ok(())
                    } else {
                        Err(message2("StatName parameter of StatTrigger is not an identifier: ", s.as_str()))
                    }
                },
                Err(e) => Err(e),
            }
        } else if str_eq(key, "Condition") {
            match read_trigger_expr(p) {
                Ok(s) => {
                    condition = Some(s);
                    Ok(())
                },
                Err(e) => Err(e),
            }
        } else if str_eq(key, "Action") {
            match trigger_string(p) {
                Ok(s) => match StatTriggerAction::from_str(s.as_str()) {
                    Ok(a) => {
                        action = Some(a);
                        Ok(())
                    },
                    Err(e) => Err(e),
                },
                Err(e) => Err(e),
            }
        } else if (str_eq(key, "Value") || str_eq(key, "ValueFrom")) && value.is_some() {
            Err(String::from_str("StatTrigger needs exactly one of Value and ValueFrom, but was given more"))
        } else if str_eq(key, "Value") {
            match &p.value {
                ParamValue::Absent => Err(message2(key, " parameter of StatTrigger needs a value")),
                ParamValue::NotLit => Err(String::from_str("Value parameter of StatTrigger must be a literal")),
                ParamValue::OtherLit => Err(String::from_str("Invalid parameter for `Value` in `StatTrigger`")),
                ParamValue::Str(s) => match parse_i64(s.as_str()) {
                    Some(v) => {
                        value = Some(TriggerValue::Literal(v));
                        Ok(())
                    },
                    None => Err(message2("Invalid number for `Value` in `StatTrigger`: ", s.as_str())),
                },
                ParamValue::Int(s) => match parse_i64(s.as_str()) {
                    Some(v) => {
                        value = Some(TriggerValue::Literal(v));
                        Ok(())
                    },
                    None => Err(message2("Invalid number for `Value` in `StatTrigger`: ", s.as_str())),
                },
            }
        } else if str_eq(key, "ValueFrom") {
            match read_trigger_expr(p) {
                Ok(s) => {
                    value = Some(TriggerValue::Expr(s));
                    Ok(())
                },
                Err(e) => Err(e),
            }
        } else if str_eq(key, "FixedGroups") {
            match trigger_string(p) {
                Ok(s) => match parse_fixed_groups(s.as_str()) {
                    Some(g) => {
                        upsert_pairs(&mut fixed_groups, g);
                        Ok(())
                    },
                    None => Err(String::from_str("Invalid format for FixedGroups")),
                },
                Err(e) => Err(e),
            }
        } else {
            Err(message("Unrecognised parameter `", key, "` in StatTrigger attribute"))
        };
        match step {
            Ok(()) => {},
            Err(e) => {
                proof {
                    assert(e@ =~= trigger_fold(ps@.take(i + 1))->Err_0);
                    lemma_trigger_err_extends(ps@, i + 1);
                }
                return Err(e);
            },
        }
        i = i + 1;
    }
    proof {
        assert(ps@.take(i as int) =~= ps@);
    }
    let stat_name = match name {
        Some(n) => n,
        None => {
            return Err(String::from_str("StatTrigger missing value for StatName"));
        },
    };
    let action = match action {
        Some(a) => a,
        None => {
            return Err(String::from_str("StatTrigger missing value for Action"));
        },
    };
    let value = match value {
        Some(v) => v,
        None => {
            return Err(String::from_str("StatTrigger missing value for Value or ValueFrom"));
        },
    };
    let field_groups = lookup_group_fields(refs, stat_name.as_str());
    let bucket_by = lookup_bucket_field(refs, stat_name.as_str());
    Ok(
        StatTriggerData {
            stat_name,
            condition,
            action,
            value,
            fixed_groups,
            field_groups,
            bucket_by,
        },
    )
}

/// Read the `StatTrigger` attributes of a log type, one per attribute in
/// order, given the parameters of each.
///
/// An `Err` rejects the log type: the derivation stops there, with the
/// message as its error.
pub fn collect_stat_triggers(attrs: &Vec<Vec<AttrParam>>, refs: &FieldReferences) -> (r: Result<Vec<StatTriggerData>, String>)
    ensures
        match triggers_of(attrs@, refs@) {
            Ok(ts) => r matches Ok(v) && v@.len() == ts.len() && forall|k: int|
                0 <= k < ts.len() ==> (#[trigger] v@[k])@ == ts[k],
            Err(e) => r matches Err(m) && m@ == e,
        },
{
    let mut out: Vec<StatTriggerData> = Vec::new();
    let mut i: usize = 0;
    while i < attrs.len()
        invariant
            i <= attrs@.len(),
            triggers_of(attrs@.take(i as int), refs@) matches Ok(ts) && out@.len() == ts.len()
                && forall|k: int| 0 <= k < ts.len() ==> (#[trigger] out@[k])@ == ts[k],
        decreases attrs@.len() - i,
    {
        proof {
            assert(attrs@.take(i + 1).drop_last() =~= attrs@.take(i as int));
            assert(attrs@.take(i + 1).last() == attrs@[i as int]);
        }
        match parse_stat_trigger(&attrs[i], refs) {
            Ok(t) => {
                out.push(t);
            },
            Err(e) => {
                proof {
                    lemma_triggers_err_extends(attrs@, refs@, i + 1);
                }
                return Err(e);
            },
        }
        i = i + 1;
    }
    proof {
        assert(attrs@.take(i as int) =~= attrs@);
    }
    Ok(out)
}

} // verus!
