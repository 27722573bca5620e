//! The text of the attributes that describe external logs and the statistics
//! they trigger: actions, fixed groups, log identifiers and levels.

use vstd::prelude::*;

use crate::stats::groups::{split_commas, split_tag_values};
use crate::stats::defn::string_views;
use crate::stats::report::pair_views;

verus! {

/// Whether two strings are equal.
pub fn str_eq(a: &str, b: &str) -> (r: bool)
    ensures
        r == (a@ == b@),
{
    String::from_str(a) == String::from_str(b)
}

/// The action that a statistic trigger takes.
#[derive(Debug, Clone, Copy, PartialEq, Eq, Hash, Structural)]
pub enum StatTriggerAction {
    /// Increment the statistic.
    Increment,
    /// Decrement the statistic.
    Decrement,
    /// Set the statistic to a value.
    SetValue,
    /// Leave the statistic alone.
    Ignore,
}

/// The action named `s`, if any: `Incr`, `Decr`, `SetVal` or `None`.
pub open spec fn action_named(s: Seq<char>) -> Option<StatTriggerAction> {
    if s == "Incr"@ {
        Some(StatTriggerAction::Increment)
    } else if s == "Decr"@ {
        Some(StatTriggerAction::Decrement)
    } else if s == "SetVal"@ {
        Some(StatTriggerAction::SetValue)
    } else if s == "None"@ {
        Some(StatTriggerAction::Ignore)
    } else {
        None
    }
}

impl StatTriggerAction {
    /// Parse the name of an action.  An unknown name gives an error that
    /// names it.
    pub fn from_str(s: &str) -> (r: Result<StatTriggerAction, String>)
        ensures
            match action_named(s@) {
                Some(a) => r == Ok::<StatTriggerAction, String>(a),
                None => r matches Err(e) && e@ == "Unknown StatTrigger action "@ + s@,
            },
    {
        if str_eq(s, "Incr") {
            Ok(StatTriggerAction::Increment)
        } else if str_eq(s, "Decr") {
            Ok(StatTriggerAction::Decrement)
        } else if str_eq(s, "SetVal") {
            Ok(StatTriggerAction::SetValue)
        } else if str_eq(s, "None") {
            Ok(StatTriggerAction::Ignore)
        } else {
            let mut e = String::from_str("Unknown StatTrigger action ");
            e.append(s);
            Err(e)
        }
    }
}

/// Whether `c` is a decimal digit.
pub open spec fn is_digit(c: char) -> bool {
    '0' <= c && c <= '9'
}

/// The value of the decimal digit `c`.
pub open spec fn digit_value(c: char) -> int {
    c as int - '0' as int
}

/// Whether every character of `d` is a decimal digit.
pub open spec fn all_digits(d: Seq<char>) -> bool {
    forall|i: int| 0 <= i < d.len() ==> is_digit(#[trigger] d[i])
}

/// The number that the decimal digits `d` write.
pub open spec fn digits_value(d: Seq<char>) -> int
    decreases d.len(),
{
    if d.len() == 0 {
        0
    } else {
        10 * digits_value(d.drop_last()) + digit_value(d.last())
    }
}

/// Whether `d` is a non-empty string of decimal digits.
pub open spec fn is_numeral(d: Seq<char>) -> bool {
    d.len() > 0 && all_digits(d)
}

/// The digits of an unsigned number, after an optional `+`.
pub open spec fn unsigned_digits(s: Seq<char>) -> Seq<char> {
    if s.len() > 0 && s[0] == '+' {
        s.drop_first()
    } else {
        s
    }
}

/// The `u64` that `s` writes, as `u64::from_str` reads it: an optional `+`
/// and at least one decimal digit, of a value that fits.
pub open spec fn parsed_u64(s: Seq<char>) -> Option<u64> {
    let d = unsigned_digits(s);
    if is_numeral(d) && digits_value(d) <= u64::MAX {
        Some(digits_value(d) as u64)
    } else {
        None
    }
}

/// The `i64` that `s` writes, as `i64::from_str` reads it: an optional sign
/// and at least one decimal digit, of a value that fits.
pub open spec fn parsed_i64(s: Seq<char>) -> Option<i64> {
    if s.len() > 0 && s[0] == '-' {
        let d = s.drop_first();
        if is_numeral(d) && -digits_value(d) >= i64::MIN {
            Some((-digits_value(d)) as i64)
        } else {
            None
        }
    } else {
        let d = unsigned_digits(s);
        if is_numeral(d) && digits_value(d) <= i64::MAX {
            Some(digits_value(d) as i64)
        } else {
            None
        }
    }
}

/// A string of digits writes at least as much as any prefix of it.
proof fn lemma_digits_value_grows(d: Seq<char>, k: int)
    requires
        all_digits(d),
        0 <= k <= d.len(),
    ensures
        digits_value(d.take(k)) <= digits_value(d),
        digits_value(d) >= 0,
    decreases d.len(),
{
    if d.len() > 0 {
        let init = d.drop_last();
        assert(all_digits(init)) by {
            assert forall|i: int| 0 <= i < init.len() implies is_digit(#[trigger] init[i]) by {
                assert(init[i] == d[i]);
            }
        }
        assert(is_digit(d[d.len() - 1]));
        if k == d.len() {
            assert(d.take(k) =~= d);
            lemma_digits_value_grows(init, 0);
        } else {
            lemma_digits_value_grows(init, k);
            assert(init.take(k) =~= d.take(k));
        }
    } else {
        assert(d.take(k) =~= d);
    }
}

/// Read the decimal digits of `s` from position `start` on; `None` if there
/// are none, if one is not a digit, or if their value does not fit a `u64`.
fn parse_digits(s: &str, start: usize) -> (r: Option<u64>)
    requires
        start <= s@.len(),
    ensures
        r == if is_numeral(s@.skip(start as int)) && digits_value(s@.skip(start as int))
            <= u64::MAX {
            Some(digits_value(s@.skip(start as int)) as u64)
        } else {
            None::<u64>
        },
        r matches Some(v) ==> v as int == digits_value(s@.skip(start as int)),
{
    let n = s.unicode_len();
    let ghost d = s@.skip(start as int);
    if start >= n {
        return None;
    }
    let mut acc: u64 = 0;
    let mut i: usize = start;
    while i < n
        invariant
            n == s@.len(),
            start <= i <= n,
            d == s@.skip(start as int),
            all_digits(d.take(i - start)),
            acc as int == digits_value(d.take(i - start)),
        decreases n - i,
    {
        let c = s.get_char(i);
        proof {
            assert(d[i - start] == c);
            assert(d.take(i - start + 1).drop_last() =~= d.take(i - start));
        }
        if c < '0' || c > '9' {
            proof {
                assert(!all_digits(d));
            }
            return None;
        }
        let digit = (c as u32 - '0' as u32) as u64;
        proof {
            assert(all_digits(d.take(i - start + 1))) by {
                assert forall|k: int| 0 <= k < i - start + 1 implies is_digit(
                    #[trigger] d.take(i - start + 1)[k],
                ) by {
                    if k < i - start {
                        assert(d.take(i - start + 1)[k] == d.take(i - start)[k]);
                    }
                }
            }
        }
        let next = match acc.checked_mul(10) {
            Some(m) => m.checked_add(digit),
            None => None,
        };
        match next {
            Some(v) => {
                acc = v;
            },
            None => {
                proof {
                    if all_digits(d) {
                        lemma_digits_value_grows(d, i - start + 1);
                    }
                }
                return None;
            },
        }
        i = i + 1;
    }
    proof {
        assert(d.take(i - start) =~= d);
    }
    Some(acc)
}

/// Parse an unsigned 64-bit number as `u64::from_str` does.
pub fn parse_u64(s: &str) -> (r: Option<u64>)
    ensures
        r == parsed_u64(s@),
{
    let n = s.unicode_len();
    let start: usize = if n > 0 && s.get_char(0) == '+' {
        1
    } else {
        0
    };
    proof {
        if start == 0 {
            assert(s@.skip(0) =~= s@);
        } else {
            assert(s@.skip(1) =~= s@.drop_first());
        }
    }
    parse_digits(s, start)
}

/// Parse a signed 64-bit number as `i64::from_str` does.
pub fn parse_i64(s: &str) -> (r: Option<i64>)
    ensures
        r == parsed_i64(s@),
{
    let n = s.unicode_len();
    if n > 0 && s.get_char(0) == '-' {
        proof {
            assert(s@.skip(1) =~= s@.drop_first());
        }
        let ghost d = s@.drop_first();
        let res = parse_digits(s, 1);
        proof {
            assert(s@.skip(1) =~= d);
        }
        match res {
            Some(m) => {
                if m <= 9223372036854775807u64 {
                    Some(-(m as i64))
                } else if m == 9223372036854775808u64 {
                    Some(i64::MIN)
                } else {
                    None
                }
            },
            None => {
                proof {
                    let d = s@.drop_first();
                    if is_numeral(d) {
                        lemma_digits_value_grows(d, 0);
                    }
                }
                None
            },
        }
    } else {
        let start: usize = if n > 0 && s.get_char(0) == '+' {
            1
        } else {
            0
        };
        proof {
            if start == 0 {
                assert(s@.skip(0) =~= s@);
            } else {
                assert(s@.skip(1) =~= s@.drop_first());
            }
        }
        match parse_digits(s, start) {
            Some(m) => {
                if m <= 9223372036854775807u64 {
                    Some(m as i64)
                } else {
                    None
                }
            },
            None => None,
        }
    }
}

/// The severity of a log.
#[derive(Debug, Clone, Copy, PartialEq, Eq, Hash, Structural)]
pub enum LogLevel {
    Critical,
    Error,
    Warning,
    Info,
    Debug,
    Trace,
}

/// The character `c` with an ASCII capital letter made small.
pub open spec fn ascii_lower(c: char) -> char {
    if 'A' <= c && c <= 'Z' {
        ((c as int) + 32) as char
    } else {
        c
    }
}

/// Whether `needle` is a non-empty prefix of `hay`, ignoring ASCII case (a
/// character that is not ASCII matches nothing in the ASCII `hay`).
pub open spec fn ascii_ci_prefix(needle: Seq<char>, hay: Seq<char>) -> bool {
    &&& needle.len() > 0
    &&& needle.len() <= hay.len()
    &&& forall|i: int|
        0 <= i < needle.len() ==> (needle[i] as int) < 128 && ascii_lower(#[trigger] needle[i])
            == ascii_lower(hay[i])
}

/// The position of the first of `hays` that `needle` is a prefix of,
/// ignoring ASCII case, or -1 if there is none.
pub open spec fn first_ci_match(needle: Seq<char>, hays: Seq<Seq<char>>) -> int
    decreases hays.len(),
{
    if hays.len() == 0 {
        -1
    } else if ascii_ci_prefix(needle, hays[0]) {
        0
    } else {
        let r = first_ci_match(needle, hays.drop_first());
        if r < 0 {
            -1
        } else {
            r + 1
        }
    }
}

/// The level names of slog, in the order of their numbers (0 is "off").
pub open spec fn slog_level_names() -> Seq<Seq<char>> {
    seq!["OFF"@, "CRITICAL"@, "ERROR"@, "WARNING"@, "INFO"@, "DEBUG"@, "TRACE"@]
}

/// The short level names of slog, in the same order.
pub open spec fn slog_level_short_names() -> Seq<Seq<char>> {
    seq!["OFF"@, "CRIT"@, "ERRO"@, "WARN"@, "INFO"@, "DEBG"@, "TRCE"@]
}

/// The level numbered `i` by slog (there is none numbered 0, "off").
pub open spec fn slog_level_numbered(i: int) -> Option<LogLevel> {
    if i == 1 {
        Some(LogLevel::Critical)
    } else if i == 2 {
        Some(LogLevel::Error)
    } else if i == 3 {
        Some(LogLevel::Warning)
    } else if i == 4 {
        Some(LogLevel::Info)
    } else if i == 5 {
        Some(LogLevel::Debug)
    } else if i == 6 {
        Some(LogLevel::Trace)
    } else {
        None
    }
}

/// What `slog::Level::from_str` gives for `name`: the level of the first
/// level name that `name` is a non-empty prefix of (ignoring ASCII case),
/// or, failing that, of the first short level name; nothing for "off".
pub open spec fn slog_level_named(name: Seq<char>) -> Option<LogLevel> {
    let i = first_ci_match(name, slog_level_names());
    if i >= 0 {
        slog_level_numbered(i)
    } else {
        let j = first_ci_match(name, slog_level_short_names());
        if j >= 0 {
            slog_level_numbered(j)
        } else {
            None
        }
    }
}

/// Read a level name with `slog::Level::from_str`: the level of the first
/// level name, or else of the first short level name, that the text is a
/// non-empty prefix of, ignoring ASCII case.
#[verifier::external_body]
fn slog_level_from_str(name: &str) -> (r: Option<LogLevel>)
    ensures
        r == slog_level_named(name@),
{
    match <slog::Level as std::str::FromStr>::from_str(name) {
        Ok(slog::Level::Critical) => Some(LogLevel::Critical),
        Ok(slog::Level::Error) => Some(LogLevel::Error),
        Ok(slog::Level::Warning) => Some(LogLevel::Warning),
        Ok(slog::Level::Info) => Some(LogLevel::Info),
        Ok(slog::Level::Debug) => Some(LogLevel::Debug),
        Ok(slog::Level::Trace) => Some(LogLevel::Trace),
        Err(_) => None,
    }
}

/// The level that a log's `Level` attribute names: `Warning` is taken as
/// it is, any other value as slog reads level names.
pub fn parse_log_level(value: &str) -> (r: Option<LogLevel>)
    ensures
        r == if value@ == "Warning"@ {
            Some(LogLevel::Warning)
        } else {
            slog_level_named(value@)
        },
{
    if str_eq(value, "Warning") {
        Some(LogLevel::Warning)
    } else {
        slog_level_from_str(value)
    }
}

impl LogLevel {
    /// The name of the `slog::Level` variant for this level.
    pub fn variant_name(&self) -> (r: &'static str)
        ensures
            r@ == match *self {
                LogLevel::Critical => "Critical"@,
                LogLevel::Error => "Error"@,
                LogLevel::Warning => "Warning"@,
                LogLevel::Info => "Info"@,
                LogLevel::Debug => "Debug"@,
                LogLevel::Trace => "Trace"@,
            },
    {
        match self {
            LogLevel::Critical => "Critical",
            LogLevel::Error => "Error",
            LogLevel::Warning => "Warning",
            LogLevel::Info => "Info",
            LogLevel::Debug => "Debug",
            LogLevel::Trace => "Trace",
        }
    }
}

/// The position of the first `c` in `s`, or -1 if there is none.
pub open spec fn index_of_char(s: Seq<char>, c: char) -> int
    decreases s.len(),
{
    if s.len() == 0 {
        -1
    } else if s[0] == c {
        0
    } else {
        let r = index_of_char(s.drop_first(), c);
        if r < 0 {
            -1
        } else {
            r + 1
        }
    }
}

/// A fixed group `name=value` split at its first `=`, if it has one.
pub open spec fn group_pair(g: Seq<char>) -> Option<(Seq<char>, Seq<char>)> {
    let i = index_of_char(g, '=');
    if i < 0 {
        None
    } else {
        Some((g.take(i), g.skip(i + 1)))
    }
}

/// The pairs `m` after `p` is added; a pair of the same name takes its value.
pub open spec fn upsert_pair(m: Seq<(Seq<char>, Seq<char>)>, p: (Seq<char>, Seq<char>)) -> Seq<(Seq<char>, Seq<char>)> {
    if exists|i: int| 0 <= i < m.len() && #[trigger] m[i].0 == p.0 {
        m.map_values(
            |e: (Seq<char>, Seq<char>)|
                if e.0 == p.0 {
                    (e.0, p.1)
                } else {
                    e
                },
        )
    } else {
        m.push(p)
    }
}

/// `index_of_char` finds the first `c`, and -1 exactly when there is none.
proof fn lemma_index_of_char_finds(s: Seq<char>, c: char)
    ensures
        -1 <= index_of_char(s, c) < s.len(),
        index_of_char(s, c) >= 0 ==> s[index_of_char(s, c)] == c,
        forall|j: int| 0 <= j < s.len() && (index_of_char(s, c) < 0 || j < index_of_char(s, c))
            ==> #[trigger] s[j] != c,
    decreases s.len(),
{
    if s.len() > 0 && s[0] != c {
        lemma_index_of_char_finds(s.drop_first(), c);
        assert forall|j: int|
            0 <= j < s.len() && (index_of_char(s, c) < 0 || j < index_of_char(s, c))
                implies #[trigger] s[j] != c by {
            if j > 0 {
                assert(s[j] == s.drop_first()[j - 1]);
            }
        }
    }
}

/// A fixed group splits at its first `=`: the name holds no `=`, and the
/// name, an `=` and the value give back the group.  A group without an `=`
/// does not split.
pub proof fn lemma_group_pair_splits(g: Seq<char>)
    ensures
        group_pair(g) is None <==> !g.contains('='),
        group_pair(g) matches Some(p) ==> p.0 + seq!['='] + p.1 == g && !p.0.contains('='),
{
    lemma_index_of_char_finds(g, '=');
    let i = index_of_char(g, '=');
    if i >= 0 {
        assert(g.take(i) + seq!['='] + g.skip(i + 1) =~= g);
        assert forall|j: int| 0 <= j < g.take(i).len() implies g.take(i)[j] != '=' by {
            assert(g.take(i)[j] == g[j]);
        }
    } else {
        assert forall|j: int| 0 <= j < g.len() implies g[j] != '=' by {}
    }
}

/// After a pair is added, the pairs hold it; every pair of another name
/// keeps its place and value; every pair of the added name holds the added
/// value; and the pairs grow by nothing or by the added pair at the end.
pub proof fn lemma_upsert_pair(m: Seq<(Seq<char>, Seq<char>)>, p: (Seq<char>, Seq<char>))
    ensures
        upsert_pair(m, p).contains(p),
        forall|i: int| 0 <= i < m.len() && m[i].0 != p.0 ==> upsert_pair(m, p)[i] == m[i],
        forall|i: int|
            0 <= i < upsert_pair(m, p).len() && #[trigger] upsert_pair(m, p)[i].0 == p.0
                ==> upsert_pair(m, p)[i] == p,
        forall|i: int|
            0 <= i < upsert_pair(m, p).len() && #[trigger] upsert_pair(m, p)[i].0 != p.0
                ==> i < m.len() && upsert_pair(m, p)[i] == m[i],
        upsert_pair(m, p).len() == m.len() || upsert_pair(m, p) == m.push(p),
{
    let r = upsert_pair(m, p);
    if exists|i: int| 0 <= i < m.len() && #[trigger] m[i].0 == p.0 {
        let w = choose|i: int| 0 <= i < m.len() && #[trigger] m[i].0 == p.0;
        assert(r[w] == p);
    } else {
        assert(r[m.len() as int] == p);
    }
}

/// The fixed groups written as the pieces `pieces`, in order, if every piece
/// has an `=`.
pub open spec fn fixed_groups_of(pieces: Seq<Seq<char>>) -> Option<Seq<(Seq<char>, Seq<char>)>>
    decreases pieces.len(),
{
    if pieces.len() == 0 {
        Some(Seq::empty())
    } else {
        match (fixed_groups_of(pieces.drop_last()), group_pair(pieces.last())) {
            (Some(m), Some(p)) => Some(upsert_pair(m, p)),
            _ => None,
        }
    }
}

/// The position of the first `c` in `s`, if any.
fn find_char(s: &str, c: char) -> (r: Option<usize>)
    ensures
        match r {
            Some(i) => i as int == index_of_char(s@, c) && i < s@.len(),
            None => index_of_char(s@, c) == -1,
        },
{
    let n = s.unicode_len();
    let mut i: usize = 0;
    proof {
        assert(s@.skip(0) =~= s@);
    }
    while i < n
        invariant
            n == s@.len(),
            i <= n,
            index_of_char(s@, c) == if index_of_char(s@.skip(i as int), c) < 0 {
                -1
            } else {
                index_of_char(s@.skip(i as int), c) + i
            },
        decreases n - i,
    {
        proof {
            assert(s@.skip(i as int).drop_first() =~= s@.skip(i + 1));
            assert(s@.skip(i as int)[0] == s@[i as int]);
        }
        if s.get_char(i) == c {
            return Some(i);
        }
        i = i + 1;
    }
    proof {
        assert(s@.skip(i as int).len() == 0);
    }
    None
}

/// Parse a `FixedGroups` value: comma-separated `name=value` pairs, each
/// split at its first `=`.  A later pair of the same name overrides an
/// earlier one.  `None` if some piece has no `=`.
pub fn parse_fixed_groups(value: &str) -> (r: Option<Vec<(String, String)>>)
    ensures
        match r {
            Some(v) => fixed_groups_of(split_commas(value@)) == Some(pair_views(v@)),
            None => fixed_groups_of(split_commas(value@)) is None,
        },
{
    let pieces = split_tag_values(value);
    let ghost pv = string_views(pieces@);
    let mut out: Vec<(String, String)> = Vec::new();
    let mut k: usize = 0;
    proof {
        assert(pv.take(0) =~= Seq::<Seq<char>>::empty());
        assert(pair_views(out@) =~= Seq::<(Seq<char>, Seq<char>)>::empty());
    }
    while k < pieces.len()
        invariant
            pv == string_views(pieces@),
            pv == split_commas(value@),
            k <= pieces@.len(),
            fixed_groups_of(pv.take(k as int)) == Some(pair_views(out@)),
        decreases pieces@.len() - k,
    {
        let g = pieces[k].as_str();
        proof {
            assert(pv.take(k + 1).drop_last() =~= pv.take(k as int));
            assert(pv.take(k + 1).last() == g@);
        }
        let eq = match find_char(g, '=') {
            Some(e) => e,
            None => {
                proof {
                    assert(fixed_groups_of(pv.take(k + 1)) is None);
                    lemma_fixed_groups_none_extends(pv, k + 1);
                    assert(pv.take(pv.len() as int) =~= pv);
                }
                return None;
            },
        };
        let glen = g.unicode_len();
        let name = String::from_str(g.substring_char(0, eq));
        let val = String::from_str(g.substring_char(eq + 1, glen));
        proof {
            assert(name@ =~= g@.take(eq as int));
            assert(val@ =~= g@.skip(eq + 1));
        }
        let ghost before = pair_views(out@);
        upsert_string_pair(&mut out, name, val);
        k = k + 1;
    }
    proof {
        assert(pv.take(k as int) =~= pv);
    }
    Some(out)
}

/// Once some piece has no `=`, longer lists of pieces have no fixed groups.
proof fn lemma_fixed_groups_none_extends(pv: Seq<Seq<char>>, k: int)
    requires
        0 <= k <= pv.len(),
        fixed_groups_of(pv.take(k)) is None,
    ensures
        fixed_groups_of(pv.take(pv.len() as int)) is None,
    decreases pv.len() - k,
{
    if k < pv.len() {
        assert(pv.take(k + 1).drop_last() =~= pv.take(k));
        lemma_fixed_groups_none_extends(pv, k + 1);
    }
}

/// Add the pair (`name`, `val`) to `out`, replacing the value of the pairs
/// of the same name.
pub(crate) fn upsert_string_pair(out: &mut Vec<(String, String)>, name: String, val: String)
    ensures
        pair_views(final(out)@) == upsert_pair(pair_views(old(out)@), (name@, val@)),
{
    let ghost before = pair_views(out@);
    let ghost f = |e: (Seq<char>, Seq<char>)|
        if e.0 == name@ {
            (e.0, val@)
        } else {
            e
        };
    let mut found = false;
    let mut i: usize = 0;
    while i < out.len()
        invariant
            before.len() == out@.len(),
            i <= out@.len(),
            f == (|e: (Seq<char>, Seq<char>)|
                if e.0 == name@ {
                    (e.0, val@)
                } else {
                    e
                }),
            forall|j: int| 0 <= j < i ==> #[trigger] pair_views(out@)[j] == f(before[j]),
            forall|j: int| i <= j < out@.len() ==> #[trigger] pair_views(out@)[j] == before[j],
            found == exists|j: int| 0 <= j < i && #[trigger] before[j].0 == name@,
        decreases out@.len() - i,
    {
        proof {
            assert(pair_views(out@)[i as int] == before[i as int]);
        }
        let ghost prev = pair_views(out@);
        if out[i].0 == name {
            let key = out[i].0.clone();
            let v = val.clone();
            out.set(i, (key, v));
            found = true;
            proof {
                assert(before[i as int].0 == name@);
                assert forall|j: int| 0 <= j < out@.len() implies #[trigger] pair_views(out@)[j]
                    == if j == i {
                    f(before[j])
                } else {
                    prev[j]
                } by {}
            }
        } else {
            proof {
                assert(before[i as int].0 != name@);
                assert forall|j: int| 0 <= j < i + 1 && #[trigger] before[j].0 == name@ implies j
                    < i by {}
            }
        }
        i = i + 1;
    }
    if !found {
        let ghost nm = name@;
        let ghost vl = val@;
        let ghost prev = pair_views(out@);
        out.push((name, val));
        proof {
            assert(!exists|j: int| 0 <= j < before.len() && #[trigger] before[j].0 == nm);
            assert forall|j: int| 0 <= j < before.len() implies #[trigger] pair_views(out@)[j]
                == before[j] by {
                assert(prev[j] == f(before[j]));
                assert(before[j].0 != nm);
                assert(pair_views(out@)[j] == prev[j]);
            }
            assert(pair_views(out@) =~= upsert_pair(before, (nm, vl)));
        }
    } else {
        proof {
            assert(pair_views(out@) =~= before.map_values(f));
        }
    }
}

/// The character of the decimal digit `d`.
pub open spec fn digit_char(d: int) -> char {
    ('0' as int + d) as char
}

/// The decimal numeral of `n`, without leading zeros.
pub open spec fn decimal(n: nat) -> Seq<char>
    decreases n,
{
    if n < 10 {
        seq![digit_char(n as int)]
    } else {
        decimal(n / 10).push(digit_char((n % 10) as int))
    }
}

/// The one-character string of the decimal digit `d`.
fn digit_str(d: u64) -> (r: &'static str)
    requires
        d < 10,
    ensures
        r@ == seq![digit_char(d as int)],
{
    proof {
        reveal_strlit("0");
        reveal_strlit("1");
        reveal_strlit("2");
        reveal_strlit("3");
        reveal_strlit("4");
        reveal_strlit("5");
        reveal_strlit("6");
        reveal_strlit("7");
        reveal_strlit("8");
        reveal_strlit("9");
    }
    match d {
        0 => "0",
        1 => "1",
        2 => "2",
        3 => "3",
        4 => "4",
        5 => "5",
        6 => "6",
        7 => "7",
        8 => "8",
        _ => "9",
    }
}

/// Append the decimal numeral of `n` to `out`.
pub(crate) fn push_decimal(out: &mut String, n: u64)
    ensures
        final(out)@ == old(out)@ + decimal(n as nat),
    decreases n,
{
    if n >= 10 {
        push_decimal(out, n / 10);
    }
    let ghost mid = out@;
    out.append(digit_str(n % 10));
    proof {
        if n >= 10 {
            assert(out@ =~= old(out)@ + decimal(n as nat));
        } else {
            assert(out@ =~= old(out)@ + decimal(n as nat));
        }
    }
}

/// The identifier of a log: the crate's log name, a hyphen and the log's
/// number in decimal.
pub fn log_id(crate_name: &str, id: u64) -> (r: String)
    ensures
        r@ == crate_name@ + seq!['-'] + decimal(id as nat),
{
    let mut r = String::from_str(crate_name);
    proof {
        reveal_strlit("-");
    }
    r.append("-");
    push_decimal(&mut r, id);
    r
}

/// The decimal numeral of a number is a non-empty string of digits that
/// writes that number.
pub proof fn lemma_decimal_digits(n: nat)
    ensures
        decimal(n).len() > 0,
        all_digits(decimal(n)),
        digits_value(decimal(n)) == n,
    decreases n,
{
    if n < 10 {
        let d = decimal(n);
        assert(d.drop_last() =~= Seq::<char>::empty());
        assert(digits_value(Seq::<char>::empty()) == 0);
        assert(digits_value(d) == 10 * digits_value(d.drop_last()) + digit_value(d.last()));
        assert(digit_value(digit_char(n as int)) == n);
    } else {
        lemma_decimal_digits(n / 10);
        let d = decimal(n);
        assert(d.drop_last() =~= decimal(n / 10));
        assert(d.last() == digit_char((n % 10) as int));
        assert(digit_value(digit_char((n % 10) as int)) == n % 10);
        vstd::arithmetic::div_mod::lemma_fundamental_div_mod(n as int, 10);
        assert(digits_value(d) == 10 * digits_value(decimal(n / 10)) + digit_value(d.last()));
        assert(10 * ((n as int) / 10) + (n as int) % 10 == n);
        assert forall|i: int| 0 <= i < d.len() implies is_digit(#[trigger] d[i]) by {
            if i < d.len() - 1 {
                assert(d[i] == decimal(n / 10)[i]);
            }
        }
    }
}

/// Reading back the decimal numeral of a number gives the number.
pub proof fn lemma_decimal_roundtrip(n: u64)
    ensures
        parsed_u64(decimal(n as nat)) == Some(n),
        parsed_i64(decimal(n as nat)) == if n <= i64::MAX {
            Some(n as i64)
        } else {
            None::<i64>
        },
{
    lemma_decimal_digits(n as nat);
    let d = decimal(n as nat);
    assert(is_digit(d[0]));
    assert(unsigned_digits(d) == d);
}

} // verus!
