//! The period expression language: which times a period such as
//! `wd {mo-fr} hr {9am-5pm}, wd {sa} hr {10-12}` admits.
//!
//! Grammar:
//!   period     = sub-period (',' sub-period)*
//!   sub-period = clause+
//!   clause     = scale '{' range+ '}'
//!   range      = value | value '-' value
//!
//! Comma-separated sub-periods are OR'd; the clauses of one sub-period are AND'ed.
//! A sub-period that does not parse admits every time.
use chrono::{Datelike, Timelike};
use vstd::prelude::*;
use vstd::string::StrSliceExecFns;
use crate::text::{
    all_digits, chars_of, digits_value, digits_value_upto, has_prefix, has_prefix_ci, is_digit,
    is_whitespace, is_ws, lemma_last_sep, lemma_split_pieces_join, lemma_split_pieces_no_sep,
    lemma_split_pieces_step, lemma_trim_nonblank, lower, split_pieces, trim, trim_bounds,
};

verus! {

/// The unit a clause speaks of.
#[derive(Debug, Clone, Copy, PartialEq, Eq, Structural)]
pub enum Scale {
    Year,
    Month,
    Week,
    YearDay,
    MonthDay,
    WeekDay,
    Hour,
    Minute,
    Second,
}

/// One clause of a sub-period: a scale and the inclusive ranges it admits.
pub struct Clause {
    pub scale: Scale,
    pub ranges: Vec<(i32, i32)>,
}

impl View for Clause {
    type V = (Scale, Seq<(i32, i32)>);

    open spec fn view(&self) -> (Scale, Seq<(i32, i32)>) {
        (self.scale, self.ranges@)
    }
}

/// The calendar and clock fields of a local time that clauses are matched against.
#[derive(Debug, Clone, Copy)]
pub struct TimeFields {
    pub year: i32,
    /// 1 ..= 12
    pub month: u32,
    /// ISO week number, 1 ..= 53
    pub iso_week: u32,
    /// day of the year, 1 ..= 366
    pub ordinal: u32,
    /// day of the month, 1 ..= 31
    pub day: u32,
    /// 0 = Sunday ..= 6 = Saturday
    pub weekday_from_sunday: u32,
    pub hour: u32,
    pub minute: u32,
    pub second: u32,
}

impl TimeFields {
    pub open spec fn valid(self) -> bool {
        &&& 1 <= self.month <= 12
        &&& 1 <= self.iso_week <= 53
        &&& 1 <= self.ordinal <= 366
        &&& 1 <= self.day <= 31
        &&& self.weekday_from_sunday <= 6
        &&& self.hour <= 23
        &&& self.minute <= 59
        &&& self.second <= 59
    }
}

/// The current local time, read with `chrono::Local::now()` and broken into fields
/// with chrono's `Datelike`/`Timelike` accessors. The contract states only the
/// ranges that chrono documents for those accessors: the time itself is not known.
#[verifier::external_body]
fn local_now() -> (t: TimeFields)
    ensures
        t.valid(),
{
    let now = chrono::Local::now();
    TimeFields {
        year: now.year(),
        month: now.month(),
        iso_week: now.iso_week().week(),
        ordinal: now.ordinal(),
        day: now.day(),
        weekday_from_sunday: now.weekday().num_days_from_sunday(),
        hour: now.hour(),
        minute: now.minute(),
        second: now.second(),
    }
}

/// Whether `c` has the Unicode `Alphabetic` property.
pub uninterp spec fn char_alphabetic(c: char) -> bool;

/// `char::is_alphabetic`. Its result is named `char_alphabetic`; for ASCII characters
/// the property holds exactly of the letters.
#[verifier::external_body]
fn is_alphabetic(c: char) -> (r: bool)
    ensures
        r == char_alphabetic(c),
        (c as u32) < 128 ==> (r <==> (('a' <= c <= 'z') || ('A' <= c <= 'Z'))),
{
    c.is_alphabetic()
}

/// Whether `c` is a letter (what `char::is_alphabetic` tests): for ASCII characters
/// exactly `a`..`z` and `A`..`Z`, otherwise the Unicode `Alphabetic` property.
pub open spec fn is_letter(c: char) -> bool {
    if (c as u32) < 128 {
        ('a' <= c <= 'z') || ('A' <= c <= 'Z')
    } else {
        char_alphabetic(c)
    }
}

/// The lower-case keyword `kw` stands at position `p` of `s` (ASCII case ignored)
/// and the character after it, if any, is not a letter.
pub open spec fn word_at(s: Seq<char>, p: int, kw: Seq<char>) -> bool {
    &&& has_prefix(lower(s.skip(p)), kw)
    &&& !(p + kw.len() < s.len() && is_letter(s[p + kw.len()]))
}

/// The first position at or after `p` that does not hold whitespace.
pub open spec fn ws_skip(s: Seq<char>, p: int) -> int
    decreases s.len() - p,
{
    if 0 <= p < s.len() && is_ws(s[p]) {
        ws_skip(s, p + 1)
    } else {
        p
    }
}

/// The end of the run of ASCII digits that starts at `p`.
pub open spec fn digits_run_end(s: Seq<char>, p: int) -> int
    decreases s.len() - p,
{
    if 0 <= p < s.len() && is_digit(s[p]) {
        digits_run_end(s, p + 1)
    } else {
        p
    }
}

/// A number at position `p`: one or more digits whose value fits in an `i32`.
/// Gives the number and the position after it.
pub open spec fn spec_parse_digits(s: Seq<char>, p: int) -> Option<(i32, int)> {
    let e = digits_run_end(s, p);
    if e == p {
        None
    } else if digits_value(s.subrange(p, e)) <= i32::MAX {
        Some((digits_value(s.subrange(p, e)) as i32, e))
    } else {
        None
    }
}

/// The scale keyword at position `p`: the first of the keywords, longest forms first,
/// that stands there and is not followed by a letter.
pub open spec fn spec_parse_scale(s: Seq<char>, p: int) -> Option<(Scale, int)> {
    if word_at(s, p, seq!['s', 'e', 'c', 'o', 'n', 'd']) {
        Some((Scale::Second, p + 6))
    } else if word_at(s, p, seq!['m', 'i', 'n', 'u', 't', 'e']) {
        Some((Scale::Minute, p + 6))
    } else if word_at(s, p, seq!['m', 'o', 'n', 't', 'h']) {
        Some((Scale::Month, p + 5))
    } else if word_at(s, p, seq!['m', 'd', 'a', 'y']) {
        Some((Scale::MonthDay, p + 4))
    } else if word_at(s, p, seq!['w', 'd', 'a', 'y']) {
        Some((Scale::WeekDay, p + 4))
    } else if word_at(s, p, seq!['h', 'o', 'u', 'r']) {
        Some((Scale::Hour, p + 4))
    } else if word_at(s, p, seq!['y', 'e', 'a', 'r']) {
        Some((Scale::Year, p + 4))
    } else if word_at(s, p, seq!['w', 'e', 'e', 'k']) {
        Some((Scale::Week, p + 4))
    } else if word_at(s, p, seq!['y', 'd', 'a', 'y']) {
        Some((Scale::YearDay, p + 4))
    } else if word_at(s, p, seq!['s', 'e', 'c']) {
        Some((Scale::Second, p + 3))
    } else if word_at(s, p, seq!['m', 'i', 'n']) {
        Some((Scale::Minute, p + 3))
    } else if word_at(s, p, seq!['m', 'o']) {
        Some((Scale::Month, p + 2))
    } else if word_at(s, p, seq!['m', 'd']) {
        Some((Scale::MonthDay, p + 2))
    } else if word_at(s, p, seq!['w', 'd']) {
        Some((Scale::WeekDay, p + 2))
    } else if word_at(s, p, seq!['h', 'r']) {
        Some((Scale::Hour, p + 2))
    } else if word_at(s, p, seq!['y', 'r']) {
        Some((Scale::Year, p + 2))
    } else if word_at(s, p, seq!['w', 'k']) {
        Some((Scale::Week, p + 2))
    } else if word_at(s, p, seq!['y', 'd']) {
        Some((Scale::YearDay, p + 2))
    } else {
        None
    }
}

/// A month name at position `p` (1 = January).
pub open spec fn spec_month_name(s: Seq<char>, p: int) -> Option<(i32, int)> {
    if word_at(s, p, seq!['j', 'a', 'n']) {
        Some((1i32, p + 3))
    } else if word_at(s, p, seq!['f', 'e', 'b']) {
        Some((2i32, p + 3))
    } else if word_at(s, p, seq!['m', 'a', 'r']) {
        Some((3i32, p + 3))
    } else if word_at(s, p, seq!['a', 'p', 'r']) {
        Some((4i32, p + 3))
    } else if word_at(s, p, seq!['m', 'a', 'y']) {
        Some((5i32, p + 3))
    } else if word_at(s, p, seq!['j', 'u', 'n']) {
        Some((6i32, p + 3))
    } else if word_at(s, p, seq!['j', 'u', 'l']) {
        Some((7i32, p + 3))
    } else if word_at(s, p, seq!['a', 'u', 'g']) {
        Some((8i32, p + 3))
    } else if word_at(s, p, seq!['s', 'e', 'p']) {
        Some((9i32, p + 3))
    } else if word_at(s, p, seq!['o', 'c', 't']) {
        Some((10i32, p + 3))
    } else if word_at(s, p, seq!['n', 'o', 'v']) {
        Some((11i32, p + 3))
    } else if word_at(s, p, seq!['d', 'e', 'c']) {
        Some((12i32, p + 3))
    } else {
        None
    }
}

/// A weekday name at position `p` (1 = Sunday ... 7 = Saturday).
pub open spec fn spec_weekday_name(s: Seq<char>, p: int) -> Option<(i32, int)> {
    if word_at(s, p, seq!['s', 'u']) {
        Some((1i32, p + 2))
    } else if word_at(s, p, seq!['m', 'o']) {
        Some((2i32, p + 2))
    } else if word_at(s, p, seq!['t', 'u']) {
        Some((3i32, p + 2))
    } else if word_at(s, p, seq!['w', 'e']) {
        Some((4i32, p + 2))
    } else if word_at(s, p, seq!['t', 'h']) {
        Some((5i32, p + 2))
    } else if word_at(s, p, seq!['f', 'r']) {
        Some((6i32, p + 2))
    } else if word_at(s, p, seq!['s', 'a']) {
        Some((7i32, p + 2))
    } else if word_at(s, p, seq!['s', 'u', 'n']) {
        Some((1i32, p + 3))
    } else if word_at(s, p, seq!['m', 'o', 'n']) {
        Some((2i32, p + 3))
    } else if word_at(s, p, seq!['t', 'u', 'e']) {
        Some((3i32, p + 3))
    } else if word_at(s, p, seq!['w', 'e', 'd']) {
        Some((4i32, p + 3))
    } else if word_at(s, p, seq!['t', 'h', 'u']) {
        Some((5i32, p + 3))
    } else if word_at(s, p, seq!['f', 'r', 'i']) {
        Some((6i32, p + 3))
    } else if word_at(s, p, seq!['s', 'a', 't']) {
        Some((7i32, p + 3))
    } else {
        None
    }
}

/// A range value at position `p` for the given scale: month and weekday names,
/// `12noon` and `am`/`pm` hours, or a plain number. Gives the value and the position
/// after it. A `pm` hour above 11 is `n + 12` with `i32` wrap-around.
pub open spec fn spec_parse_value(scale: Scale, s: Seq<char>, p: int) -> Option<(i32, int)> {
    match scale {
        Scale::Month => match spec_month_name(s, p) {
            Some(x) => Some(x),
            None => spec_parse_digits(s, p),
        },
        Scale::WeekDay => match spec_weekday_name(s, p) {
            Some(x) => Some(x),
            None => spec_parse_digits(s, p),
        },
        Scale::Hour => {
            if has_prefix(lower(s.skip(p)), seq!['1', '2', 'n', 'o', 'o', 'n']) {
                Some((12i32, p + 6))
            } else {
                match spec_parse_digits(s, p) {
                    Some((n, e)) => {
                        if has_prefix(lower(s.skip(e)), seq!['a', 'm']) {
                            Some((if n == 12 { 0i32 } else { n }, e + 2))
                        } else if has_prefix(lower(s.skip(e)), seq!['p', 'm']) {
                            Some((if n == 12 { 12i32 } else { n.wrapping_add(12) }, e + 2))
                        } else {
                            Some((n, e))
                        }
                    },
                    None => None,
                }
            }
        },
        _ => spec_parse_digits(s, p),
    }
}

/// The ranges of a clause, read from position `p` (just after `{`) up to and
/// including the closing `}`. Gives the ranges and the position after `}` and the
/// whitespace that follows it.
pub open spec fn spec_ranges(scale: Scale, s: Seq<char>, p: int) -> Option<(Seq<(i32, i32)>, int)>
    decreases s.len() - p,
{
    if p < 0 || p > s.len() {
        None
    } else {
        let r = ws_skip(s, p);
        if r < s.len() && s[r] == '}' {
            Some((seq![], ws_skip(s, r + 1)))
        } else {
            match spec_parse_value(scale, s, r) {
                None => None,
                Some((lo, a)) => {
                    proof {
                        lemma_ws_skip(s, p);
                        lemma_parse_value_advances(scale, s, r);
                        lemma_ws_skip(s, a);
                    }
                    let a1 = ws_skip(s, a);
                    if a1 < s.len() && s[a1] == '-' {
                        let b = ws_skip(s, a1 + 1);
                        proof {
                            lemma_ws_skip(s, a1 + 1);
                        }
                        match spec_parse_value(scale, s, b) {
                            None => None,
                            Some((hi, c)) => {
                                proof {
                                    lemma_parse_value_advances(scale, s, b);
                                    lemma_ws_skip(s, c);
                                }
                                match spec_ranges(scale, s, ws_skip(s, c)) {
                                    None => None,
                                    Some((rs, e)) => Some((seq![(lo, hi)] + rs, e)),
                                }
                            },
                        }
                    } else {
                        match spec_ranges(scale, s, a1) {
                            None => None,
                            Some((rs, e)) => Some((seq![(lo, lo)] + rs, e)),
                        }
                    }
                },
            }
        }
    }
}

/// The clauses from position `p` (which holds no whitespace) to the end of `s`.
pub open spec fn spec_clauses(s: Seq<char>, p: int) -> Option<Seq<(Scale, Seq<(i32, i32)>)>>
    decreases s.len() - p,
{
    if p < 0 || p >= s.len() {
        Some(seq![])
    } else {
        match spec_parse_scale(s, p) {
            None => None,
            Some((scale, q)) => {
                proof {
                    lemma_parse_scale_advances(s, p);
                    lemma_ws_skip(s, q);
                }
                let q1 = ws_skip(s, q);
                if !(q1 < s.len() && s[q1] == '{') {
                    None
                } else {
                    proof {
                        lemma_ws_skip(s, q1 + 1);
                        lemma_ranges_advance(scale, s, ws_skip(s, q1 + 1));
                    }
                    match spec_ranges(scale, s, ws_skip(s, q1 + 1)) {
                        None => None,
                        Some((rs, q2)) => {
                            if rs.len() == 0 {
                                None
                            } else {
                                match spec_clauses(s, q2) {
                                    None => None,
                                    Some(cs) => Some(seq![(scale, rs)] + cs),
                                }
                            }
                        },
                    }
                }
            },
        }
    }
}

/// The clauses of a sub-period, or `None` when it does not parse or holds none.
pub open spec fn spec_parse_sub_period(s: Seq<char>) -> Option<Seq<(Scale, Seq<(i32, i32)>)>> {
    match spec_clauses(s, ws_skip(s, 0)) {
        Some(cs) => if cs.len() > 0 {
            Some(cs)
        } else {
            None
        },
        None => None,
    }
}

/// The value of a time field that a scale compares.
pub open spec fn spec_scale_value(scale: Scale, t: TimeFields) -> int {
    match scale {
        Scale::Year => t.year as int,
        Scale::Month => t.month as int,
        Scale::Week => t.iso_week as int,
        Scale::YearDay => t.ordinal as int,
        Scale::MonthDay => t.day as int,
        Scale::WeekDay => t.weekday_from_sunday + 1,
        Scale::Hour => t.hour as int,
        Scale::Minute => t.minute as int,
        Scale::Second => t.second as int,
    }
}

/// One of the ranges of the clause holds the time's value.
pub open spec fn spec_clause_matches(c: (Scale, Seq<(i32, i32)>), t: TimeFields) -> bool {
    exists|i: int|
        0 <= i < c.1.len() && #[trigger] c.1[i].0 <= spec_scale_value(c.0, t) <= c.1[i].1
}

/// A sub-period admits `t`: it does not parse, or each of its clauses matches.
pub open spec fn spec_eval_sub_period(s: Seq<char>, t: TimeFields) -> bool {
    match spec_parse_sub_period(s) {
        None => true,
        Some(cs) => forall|i: int| 0 <= i < cs.len() ==> #[trigger] spec_clause_matches(cs[i], t),
    }
}

/// A period admits `t`: it is blank, or one of its comma-separated sub-periods,
/// trimmed, admits `t`.
pub open spec fn spec_in_period(expr: Seq<char>, t: TimeFields) -> bool {
    if trim(expr).len() == 0 {
        true
    } else {
        exists|i: int|
            0 <= i < split_pieces(expr, ',').len() && spec_eval_sub_period(
                trim(#[trigger] split_pieces(expr, ',')[i]),
                t,
            )
    }
}

pub proof fn lemma_ws_skip(s: Seq<char>, p: int)
    requires
        0 <= p <= s.len(),
    ensures
        p <= ws_skip(s, p) <= s.len(),
        ws_skip(s, p) < s.len() ==> !is_ws(s[ws_skip(s, p)]),
        forall|i: int| p <= i < ws_skip(s, p) ==> is_ws(#[trigger] s[i]),
    decreases s.len() - p,
{
    if p < s.len() && is_ws(s[p]) {
        lemma_ws_skip(s, p + 1);
    }
}

pub proof fn lemma_digits_run_end(s: Seq<char>, p: int)
    requires
        0 <= p <= s.len(),
    ensures
        p <= digits_run_end(s, p) <= s.len(),
        all_digits(s.subrange(p, digits_run_end(s, p))),
    decreases s.len() - p,
{
    if p < s.len() && is_digit(s[p]) {
        lemma_digits_run_end(s, p + 1);
        assert forall|i: int| 0 <= i < digits_run_end(s, p) - p implies is_digit(
            #[trigger] s.subrange(p, digits_run_end(s, p))[i],
        ) by {
            if i > 0 {
                assert(s.subrange(p, digits_run_end(s, p))[i] == s.subrange(
                    p + 1,
                    digits_run_end(s, p + 1),
                )[i - 1]);
            }
        }
    }
}

pub proof fn lemma_parse_value_advances(scale: Scale, s: Seq<char>, p: int)
    requires
        0 <= p <= s.len(),
    ensures
        spec_parse_value(scale, s, p) matches Some((_, q)) ==> p < q <= s.len(),
{
    lemma_digits_run_end(s, p);
}

pub proof fn lemma_parse_scale_advances(s: Seq<char>, p: int)
    requires
        0 <= p <= s.len(),
    ensures
        spec_parse_scale(s, p) matches Some((_, q)) ==> p < q <= s.len(),
{
}

pub proof fn lemma_ranges_advance(scale: Scale, s: Seq<char>, p: int)
    requires
        0 <= p <= s.len(),
    ensures
        spec_ranges(scale, s, p) matches Some((_, q)) ==> p < q <= s.len(),
    decreases s.len() - p,
{
    lemma_ws_skip(s, p);
    let r = ws_skip(s, p);
    if r < s.len() && s[r] == '}' {
        lemma_ws_skip(s, r + 1);
    } else {
        lemma_parse_value_advances(scale, s, r);
        if let Some((lo, a)) = spec_parse_value(scale, s, r) {
            lemma_ws_skip(s, a);
            let a1 = ws_skip(s, a);
            if a1 < s.len() && s[a1] == '-' {
                lemma_ws_skip(s, a1 + 1);
                let b = ws_skip(s, a1 + 1);
                lemma_parse_value_advances(scale, s, b);
                if let Some((hi, c)) = spec_parse_value(scale, s, b) {
                    lemma_ws_skip(s, c);
                    lemma_ranges_advance(scale, s, ws_skip(s, c));
                }
            } else {
                lemma_ranges_advance(scale, s, a1);
            }
        }
    }
}


/// Reads a scale keyword at position `p`.
fn parse_scale_at(v: &Vec<char>, p: usize) -> (r: Option<(Scale, usize)>)
    requires
        p <= v.len(),
    ensures
        match r {
            Some((x, q)) => spec_parse_scale(v@, p as int) == Some((x, q as int)) && q <= v.len(),
            None => spec_parse_scale(v@, p as int) is None,
        },
{
    if word_at_exec(v, p, &['s', 'e', 'c', 'o', 'n', 'd']) {
        return Some((Scale::Second, p + 6));
    }
    if word_at_exec(v, p, &['m', 'i', 'n', 'u', 't', 'e']) {
        return Some((Scale::Minute, p + 6));
    }
    if word_at_exec(v, p, &['m', 'o', 'n', 't', 'h']) {
        return Some((Scale::Month, p + 5));
    }
    if word_at_exec(v, p, &['m', 'd', 'a', 'y']) {
        return Some((Scale::MonthDay, p + 4));
    }
    if word_at_exec(v, p, &['w', 'd', 'a', 'y']) {
        return Some((Scale::WeekDay, p + 4));
    }
    if word_at_exec(v, p, &['h', 'o', 'u', 'r']) {
        return Some((Scale::Hour, p + 4));
    }
    if word_at_exec(v, p, &['y', 'e', 'a', 'r']) {
        return Some((Scale::Year, p + 4));
    }
    if word_at_exec(v, p, &['w', 'e', 'e', 'k']) {
        return Some((Scale::Week, p + 4));
    }
    if word_at_exec(v, p, &['y', 'd', 'a', 'y']) {
        return Some((Scale::YearDay, p + 4));
    }
    if word_at_exec(v, p, &['s', 'e', 'c']) {
        return Some((Scale::Second, p + 3));
    }
    if word_at_exec(v, p, &['m', 'i', 'n']) {
        return Some((Scale::Minute, p + 3));
    }
    if word_at_exec(v, p, &['m', 'o']) {
        return Some((Scale::Month, p + 2));
    }
    if word_at_exec(v, p, &['m', 'd']) {
        return Some((Scale::MonthDay, p + 2));
    }
    if word_at_exec(v, p, &['w', 'd']) {
        return Some((Scale::WeekDay, p + 2));
    }
    if word_at_exec(v, p, &['h', 'r']) {
        return Some((Scale::Hour, p + 2));
    }
    if word_at_exec(v, p, &['y', 'r']) {
        return Some((Scale::Year, p + 2));
    }
    if word_at_exec(v, p, &['w', 'k']) {
        return Some((Scale::Week, p + 2));
    }
    if word_at_exec(v, p, &['y', 'd']) {
        return Some((Scale::YearDay, p + 2));
    }
    None
}

/// Reads a month name at position `p`.
fn month_name_at(v: &Vec<char>, p: usize) -> (r: Option<(i32, usize)>)
    requires
        p <= v.len(),
    ensures
        match r {
            Some((x, q)) => spec_month_name(v@, p as int) == Some((x, q as int)) && q <= v.len(),
            None => spec_month_name(v@, p as int) is None,
        },
{
    if word_at_exec(v, p, &['j', 'a', 'n']) {
        return Some((1i32, p + 3));
    }
    if word_at_exec(v, p, &['f', 'e', 'b']) {
        return Some((2i32, p + 3));
    }
    if word_at_exec(v, p, &['m', 'a', 'r']) {
        return Some((3i32, p + 3));
    }
    if word_at_exec(v, p, &['a', 'p', 'r']) {
        return Some((4i32, p + 3));
    }
    if word_at_exec(v, p, &['m', 'a', 'y']) {
        return Some((5i32, p + 3));
    }
    if word_at_exec(v, p, &['j', 'u', 'n']) {
        return Some((6i32, p + 3));
    }
    if word_at_exec(v, p, &['j', 'u', 'l']) {
        return Some((7i32, p + 3));
    }
    if word_at_exec(v, p, &['a', 'u', 'g']) {
        return Some((8i32, p + 3));
    }
    if word_at_exec(v, p, &['s', 'e', 'p']) {
        return Some((9i32, p + 3));
    }
    if word_at_exec(v, p, &['o', 'c', 't']) {
        return Some((10i32, p + 3));
    }
    if word_at_exec(v, p, &['n', 'o', 'v']) {
        return Some((11i32, p + 3));
    }
    if word_at_exec(v, p, &['d', 'e', 'c']) {
        return Some((12i32, p + 3));
    }
    None
}

/// Reads a weekday name at position `p`.
fn weekday_name_at(v: &Vec<char>, p: usize) -> (r: Option<(i32, usize)>)
    requires
        p <= v.len(),
    ensures
        match r {
            Some((x, q)) => spec_weekday_name(v@, p as int) == Some((x, q as int)) && q <= v.len(),
            None => spec_weekday_name(v@, p as int) is None,
        },
{
    if word_at_exec(v, p, &['s', 'u']) {
        return Some((1i32, p + 2));
    }
    if word_at_exec(v, p, &['m', 'o']) {
        return Some((2i32, p + 2));
    }
    if word_at_exec(v, p, &['t', 'u']) {
        return Some((3i32, p + 2));
    }
    if word_at_exec(v, p, &['w', 'e']) {
        return Some((4i32, p + 2));
    }
    if word_at_exec(v, p, &['t', 'h']) {
        return Some((5i32, p + 2));
    }
    if word_at_exec(v, p, &['f', 'r']) {
        return Some((6i32, p + 2));
    }
    if word_at_exec(v, p, &['s', 'a']) {
        return Some((7i32, p + 2));
    }
    if word_at_exec(v, p, &['s', 'u', 'n']) {
        return Some((1i32, p + 3));
    }
    if word_at_exec(v, p, &['m', 'o', 'n']) {
        return Some((2i32, p + 3));
    }
    if word_at_exec(v, p, &['t', 'u', 'e']) {
        return Some((3i32, p + 3));
    }
    if word_at_exec(v, p, &['w', 'e', 'd']) {
        return Some((4i32, p + 3));
    }
    if word_at_exec(v, p, &['t', 'h', 'u']) {
        return Some((5i32, p + 3));
    }
    if word_at_exec(v, p, &['f', 'r', 'i']) {
        return Some((6i32, p + 3));
    }
    if word_at_exec(v, p, &['s', 'a', 't']) {
        return Some((7i32, p + 3));
    }
    None
}

/// Whether the lower-case keyword `kw` stands at position `p` of `v`.
fn word_at_exec(v: &Vec<char>, p: usize, kw: &[char]) -> (r: bool)
    requires
        p <= v.len(),
    ensures
        r == word_at(v@, p as int, kw@),
{
    assert(v@.subrange(p as int, v@.len() as int) =~= v@.skip(p as int));
    if !has_prefix_ci(v, p, v.len(), kw) {
        return false;
    }
    let q = p + kw.len();
    if q < v.len() && is_alphabetic(v[q]) {
        false
    } else {
        true
    }
}

/// Whether the lower-case word `kw` begins at position `p` of `v`, ignoring ASCII case.
fn prefix_at(v: &Vec<char>, p: usize, kw: &[char]) -> (r: bool)
    requires
        p <= v.len(),
    ensures
        r == has_prefix(lower(v@.skip(p as int)), kw@),
{
    assert(v@.subrange(p as int, v@.len() as int) =~= v@.skip(p as int));
    has_prefix_ci(v, p, v.len(), kw)
}

/// `ws_skip` computed.
fn skip_ws_at(v: &Vec<char>, p: usize) -> (q: usize)
    requires
        p <= v.len(),
    ensures
        q == ws_skip(v@, p as int),
        p <= q <= v.len(),
{
    proof {
        lemma_ws_skip(v@, p as int);
    }
    let mut q = p;
    while q < v.len() && is_whitespace(v[q])
        invariant
            p <= q <= v.len(),
            ws_skip(v@, q as int) == ws_skip(v@, p as int),
        decreases v.len() - q,
    {
        q = q + 1;
    }
    q
}

/// Reads a number at position `p`.
fn parse_digits_at(v: &Vec<char>, p: usize) -> (r: Option<(i32, usize)>)
    requires
        p <= v.len(),
    ensures
        match r {
            Some((n, q)) => spec_parse_digits(v@, p as int) == Some((n, q as int)) && q <= v.len(),
            None => spec_parse_digits(v@, p as int) is None,
        },
{
    proof {
        lemma_digits_run_end(v@, p as int);
    }
    let mut e = p;
    while e < v.len() && '0' <= v[e] && v[e] <= '9'
        invariant
            p <= e <= v.len(),
            digits_run_end(v@, e as int) == digits_run_end(v@, p as int),
        decreases v.len() - e,
    {
        e = e + 1;
    }
    if e == p {
        return None;
    }
    match digits_value_upto(v, p, e, 2147483647u64) {
        Some(n) => Some((n as i32, e)),
        None => None,
    }
}

/// Reads a range value of the given scale at position `p`.
fn parse_value_at(scale: Scale, v: &Vec<char>, p: usize) -> (r: Option<(i32, usize)>)
    requires
        p <= v.len(),
    ensures
        match r {
            Some((n, q)) => spec_parse_value(scale, v@, p as int) == Some((n, q as int)) && p < q
                <= v.len(),
            None => spec_parse_value(scale, v@, p as int) is None,
        },
{
    proof {
        lemma_parse_value_advances(scale, v@, p as int);
    }
    match scale {
        Scale::Month => {
            match month_name_at(v, p) {
                Some(x) => Some(x),
                None => parse_digits_at(v, p),
            }
        },
        Scale::WeekDay => {
            match weekday_name_at(v, p) {
                Some(x) => Some(x),
                None => parse_digits_at(v, p),
            }
        },
        Scale::Hour => {
            if prefix_at(v, p, &['1', '2', 'n', 'o', 'o', 'n']) {
                return Some((12, p + 6));
            }
            match parse_digits_at(v, p) {
                Some((n, e)) => {
                    if prefix_at(v, e, &['a', 'm']) {
                        Some((if n == 12 { 0 } else { n }, e + 2))
                    } else if prefix_at(v, e, &['p', 'm']) {
                        Some((if n == 12 { 12 } else { n.wrapping_add(12) }, e + 2))
                    } else {
                        Some((n, e))
                    }
                },
                None => None,
            }
        },
        _ => parse_digits_at(v, p),
    }
}

/// Reads the ranges of a clause from position `p` through its closing `}`.
fn parse_ranges_at(scale: Scale, v: &Vec<char>, p: usize) -> (r: Option<(Vec<(i32, i32)>, usize)>)
    requires
        p <= v.len(),
    ensures
        match r {
            Some((rs, q)) => spec_ranges(scale, v@, p as int) == Some((rs@, q as int)) && q
                <= v.len(),
            None => spec_ranges(scale, v@, p as int) is None,
        },
    decreases v.len() - p,
{
    let r = skip_ws_at(v, p);
    if r < v.len() && v[r] == '}' {
        let q = skip_ws_at(v, r + 1);
        return Some((Vec::new(), q));
    }
    match parse_value_at(scale, v, r) {
        None => None,
        Some((lo, a)) => {
            let a1 = skip_ws_at(v, a);
            if a1 < v.len() && v[a1] == '-' {
                let b = skip_ws_at(v, a1 + 1);
                match parse_value_at(scale, v, b) {
                    None => None,
                    Some((hi, c)) => {
                        let c1 = skip_ws_at(v, c);
                        match parse_ranges_at(scale, v, c1) {
                            None => None,
                            Some((mut rs, e)) => {
                                let ghost old_rs = rs@;
                                rs.insert(0, (lo, hi));
                                assert(rs@ =~= seq![(lo, hi)] + old_rs);
                                Some((rs, e))
                            },
                        }
                    },
                }
            } else {
                match parse_ranges_at(scale, v, a1) {
                    None => None,
                    Some((mut rs, e)) => {
                        let ghost old_rs = rs@;
                        rs.insert(0, (lo, lo));
                        assert(rs@ =~= seq![(lo, lo)] + old_rs);
                        Some((rs, e))
                    },
                }
            }
        },
    }
}

pub open spec fn clause_views(cs: Seq<Clause>) -> Seq<(Scale, Seq<(i32, i32)>)> {
    cs.map_values(|c: Clause| c@)
}

/// Reads the clauses from position `p` to the end.
fn parse_clauses_at(v: &Vec<char>, p: usize) -> (r: Option<Vec<Clause>>)
    requires
        p <= v.len(),
    ensures
        match r {
            Some(cs) => spec_clauses(v@, p as int) == Some(clause_views(cs@)),
            None => spec_clauses(v@, p as int) is None,
        },
    decreases v.len() - p,
{
    if p >= v.len() {
        let cs: Vec<Clause> = Vec::new();
        assert(clause_views(cs@) =~= seq![]);
        return Some(cs);
    }
    match parse_scale_at(v, p) {
        None => None,
        Some((scale, q)) => {
            let q1 = skip_ws_at(v, q);
            if !(q1 < v.len() && v[q1] == '{') {
                return None;
            }
            let b = skip_ws_at(v, q1 + 1);
            proof {
                lemma_ranges_advance(scale, v@, b as int);
            }
            match parse_ranges_at(scale, v, b) {
                None => None,
                Some((rs, q2)) => {
                    if rs.len() == 0 {
                        return None;
                    }
                    match parse_clauses_at(v, q2) {
                        None => None,
                        Some(mut cs) => {
                            let ghost old_cs = cs@;
                            cs.insert(0, Clause { scale, ranges: rs });
                            assert(clause_views(cs@) =~= seq![(scale, rs@)] + clause_views(
                                old_cs,
                            ));
                            Some(cs)
                        },
                    }
                },
            }
        },
    }
}

/// Parses a sub-period into its clauses; `None` when it does not parse or holds
/// no clause.
pub fn parse_sub_period(sub: &str) -> (r: Option<Vec<Clause>>)
    ensures
        match r {
            Some(cs) => spec_parse_sub_period(sub@) == Some(clause_views(cs@)),
            None => spec_parse_sub_period(sub@) is None,
        },
{
    let v = chars_of(sub);
    parse_sub_period_chars(&v)
}

fn parse_sub_period_chars(v: &Vec<char>) -> (r: Option<Vec<Clause>>)
    ensures
        match r {
            Some(cs) => spec_parse_sub_period(v@) == Some(clause_views(cs@)),
            None => spec_parse_sub_period(v@) is None,
        },
{
    let p = skip_ws_at(v, 0);
    match parse_clauses_at(v, p) {
        Some(cs) => if cs.len() > 0 {
            Some(cs)
        } else {
            None
        },
        None => None,
    }
}

/// Reads a scale keyword at the start of `s`; gives the scale and the rest of `s`.
pub fn parse_scale(s: &str) -> (r: Option<(Scale, &str)>)
    ensures
        match r {
            Some((scale, rest)) => spec_parse_scale(s@, 0) matches Some((sc, q)) && sc == scale
                && rest@ == s@.skip(q),
            None => spec_parse_scale(s@, 0) is None,
        },
{
    let v = chars_of(s);
    match parse_scale_at(&v, 0) {
        Some((scale, q)) => {
            let n = s.unicode_len();
            Some((scale, s.substring_char(q, n)))
        },
        None => None,
    }
}

/// Reads a range value of the given scale at the start of `s`; gives the value and
/// the rest of `s`.
pub fn parse_value(scale: Scale, s: &str) -> (r: Option<(i32, &str)>)
    ensures
        match r {
            Some((n, rest)) => spec_parse_value(scale, s@, 0) matches Some((m, q)) && m == n
                && rest@ == s@.skip(q),
            None => spec_parse_value(scale, s@, 0) is None,
        },
{
    let v = chars_of(s);
    match parse_value_at(scale, &v, 0) {
        Some((n, q)) => {
            let len = s.unicode_len();
            Some((n, s.substring_char(q, len)))
        },
        None => None,
    }
}

/// Reads a number at the start of `s`; gives it and the rest of `s`.
pub fn parse_digits(s: &str) -> (r: Option<(i32, &str)>)
    ensures
        match r {
            Some((n, rest)) => spec_parse_digits(s@, 0) matches Some((m, q)) && m == n && rest@
                == s@.skip(q),
            None => spec_parse_digits(s@, 0) is None,
        },
{
    let v = chars_of(s);
    match parse_digits_at(&v, 0) {
        Some((n, q)) => {
            let len = s.unicode_len();
            Some((n, s.substring_char(q, len)))
        },
        None => None,
    }
}

/// The value of the time field that `scale` compares.
pub fn scale_value(scale: Scale, now: &TimeFields) -> (r: i32)
    requires
        now.valid(),
    ensures
        r as int == spec_scale_value(scale, *now),
{
    match scale {
        Scale::Year => now.year,
        Scale::Month => now.month as i32,
        Scale::Week => now.iso_week as i32,
        Scale::YearDay => now.ordinal as i32,
        Scale::MonthDay => now.day as i32,
        Scale::WeekDay => (now.weekday_from_sunday + 1) as i32,
        Scale::Hour => now.hour as i32,
        Scale::Minute => now.minute as i32,
        Scale::Second => now.second as i32,
    }
}

/// Whether one of the clause's ranges holds the time's value.
pub fn clause_matches(clause: &Clause, now: &TimeFields) -> (r: bool)
    requires
        now.valid(),
    ensures
        r == spec_clause_matches(clause@, *now),
{
    let val = scale_value(clause.scale, now);
    let mut i: usize = 0;
    while i < clause.ranges.len()
        invariant
            i <= clause.ranges.len(),
            val as int == spec_scale_value(clause.scale, *now),
            forall|j: int|
                0 <= j < i ==> !(#[trigger] clause.ranges@[j].0 <= val <= clause.ranges@[j].1),
        decreases clause.ranges.len() - i,
    {
        let (lo, hi) = clause.ranges[i];
        if val >= lo && val <= hi {
            assert(clause@.1[i as int].0 <= spec_scale_value(clause@.0, *now) <= clause@.1[i as int].1);
            return true;
        }
        i = i + 1;
    }
    false
}

/// Whether a sub-period admits the time: it does not parse, or each clause matches.
pub fn eval_sub_period(sub: &str, now: &TimeFields) -> (r: bool)
    requires
        now.valid(),
    ensures
        r == spec_eval_sub_period(sub@, *now),
{
    let v = chars_of(sub);
    eval_sub_period_chars(&v, now)
}

fn eval_sub_period_chars(v: &Vec<char>, now: &TimeFields) -> (r: bool)
    requires
        now.valid(),
    ensures
        r == spec_eval_sub_period(v@, *now),
{
    match parse_sub_period_chars(v) {
        None => true,
        Some(clauses) => {
            let ghost cs = clause_views(clauses@);
            let mut i: usize = 0;
            while i < clauses.len()
                invariant
                    i <= clauses.len(),
                    cs == clause_views(clauses@),
                    spec_parse_sub_period(v@) == Some(cs),
                    now.valid(),
                    forall|j: int| 0 <= j < i ==> #[trigger] spec_clause_matches(cs[j], *now),
                decreases clauses.len() - i,
            {
                if !clause_matches(&clauses[i], now) {
                    assert(cs[i as int] == clauses@[i as int]@);
                    assert(!spec_clause_matches(cs[i as int], *now));
                    return false;
                }
                i = i + 1;
            }
            true
        },
    }
}

/// The characters `v[lo..hi]` as a vector of their own.
fn copy_range(v: &Vec<char>, lo: usize, hi: usize) -> (r: Vec<char>)
    requires
        lo <= hi <= v.len(),
    ensures
        r@ == v@.subrange(lo as int, hi as int),
{
    let mut r: Vec<char> = Vec::new();
    let mut i = lo;
    while i < hi
        invariant
            lo <= i <= hi <= v.len(),
            r@ == v@.subrange(lo as int, i as int),
        decreases hi - i,
    {
        r.push(v[i]);
        assert(r@ =~= v@.subrange(lo as int, i + 1));
        i = i + 1;
    }
    r
}

/// The two-letter and three-letter names of the days of the week, Sunday first.
pub open spec fn weekday_short_name(d: int) -> Seq<char> {
    if d == 0 {
        seq!['s', 'u']
    } else if d == 1 {
        seq!['m', 'o']
    } else if d == 2 {
        seq!['t', 'u']
    } else if d == 3 {
        seq!['w', 'e']
    } else if d == 4 {
        seq!['t', 'h']
    } else if d == 5 {
        seq!['f', 'r']
    } else {
        seq!['s', 'a']
    }
}

pub open spec fn weekday_long_name(d: int) -> Seq<char> {
    if d == 0 {
        seq!['s', 'u', 'n']
    } else if d == 1 {
        seq!['m', 'o', 'n']
    } else if d == 2 {
        seq!['t', 'u', 'e']
    } else if d == 3 {
        seq!['w', 'e', 'd']
    } else if d == 4 {
        seq!['t', 'h', 'u']
    } else if d == 5 {
        seq!['f', 'r', 'i']
    } else {
        seq!['s', 'a', 't']
    }
}

/// The three-letter names of the months, January being month 1.
pub open spec fn month_short_name(m: int) -> Seq<char> {
    if m == 1 {
        seq!['j', 'a', 'n']
    } else if m == 2 {
        seq!['f', 'e', 'b']
    } else if m == 3 {
        seq!['m', 'a', 'r']
    } else if m == 4 {
        seq!['a', 'p', 'r']
    } else if m == 5 {
        seq!['m', 'a', 'y']
    } else if m == 6 {
        seq!['j', 'u', 'n']
    } else if m == 7 {
        seq!['j', 'u', 'l']
    } else if m == 8 {
        seq!['a', 'u', 'g']
    } else if m == 9 {
        seq!['s', 'e', 'p']
    } else if m == 10 {
        seq!['o', 'c', 't']
    } else if m == 11 {
        seq!['n', 'o', 'v']
    } else {
        seq!['d', 'e', 'c']
    }
}

pub open spec fn is_lower_letter(c: char) -> bool {
    'a' <= c <= 'z'
}

/// On a word of lower-case letters, a keyword stands at its start exactly when the
/// word is the keyword.
proof fn lemma_word_at_letters(s: Seq<char>, kw: Seq<char>)
    requires
        forall|i: int| 0 <= i < s.len() ==> is_lower_letter(#[trigger] s[i]),
        kw.len() > 0,
    ensures
        word_at(s, 0, kw) <==> s == kw,
{
    assert(s.skip(0) =~= s);
    assert(lower(s) =~= s) by {
        assert forall|i: int| 0 <= i < s.len() implies lower(s)[i] == s[i] by {
            assert(is_lower_letter(s[i]));
        }
    }
    if word_at(s, 0, kw) {
        assert(s.take(kw.len() as int) == kw);
        if s.len() > kw.len() {
            assert(is_lower_letter(s[kw.len() as int]));
        }
        assert(s =~= kw);
    }
    if s == kw {
        assert(s.take(kw.len() as int) =~= kw);
    }
}

/// Each weekday name, short or long, reads as the value that the weekday scale gives
/// for that day, and a clause of that one value matches exactly the times on that
/// day of the week.
pub proof fn lemma_weekday_names(d: int, t: TimeFields)
    requires
        0 <= d < 7,
        t.valid(),
    ensures
        spec_parse_value(Scale::WeekDay, weekday_short_name(d), 0) matches Some((v, q)) && q == 2
            && (spec_clause_matches((Scale::WeekDay, seq![(v, v)]), t) <==> t.weekday_from_sunday == d),
        spec_parse_value(Scale::WeekDay, weekday_long_name(d), 0) matches Some((v, q)) && q == 3
            && (spec_clause_matches((Scale::WeekDay, seq![(v, v)]), t) <==> t.weekday_from_sunday == d),
{
    let a = weekday_short_name(d);
    let b = weekday_long_name(d);
    assert forall|i: int| 0 <= i < a.len() implies is_lower_letter(#[trigger] a[i]) by {}
    assert forall|i: int| 0 <= i < b.len() implies is_lower_letter(#[trigger] b[i]) by {}
    lemma_single_value_clause(Scale::WeekDay, (d + 1) as i32, t);
    if d == 0 {
        lemma_word_at_letters(a, seq!['s', 'u']);
        lemma_word_at_letters(a, seq!['m', 'o']);
        lemma_word_at_letters(a, seq!['t', 'u']);
        lemma_word_at_letters(a, seq!['w', 'e']);
        lemma_word_at_letters(a, seq!['t', 'h']);
        lemma_word_at_letters(a, seq!['f', 'r']);
        lemma_word_at_letters(a, seq!['s', 'a']);
        lemma_word_at_letters(b, seq!['s', 'u']);
        lemma_word_at_letters(b, seq!['m', 'o']);
        lemma_word_at_letters(b, seq!['t', 'u']);
        lemma_word_at_letters(b, seq!['w', 'e']);
        lemma_word_at_letters(b, seq!['t', 'h']);
        lemma_word_at_letters(b, seq!['f', 'r']);
        lemma_word_at_letters(b, seq!['s', 'a']);
        lemma_word_at_letters(b, seq!['s', 'u', 'n']);
        lemma_word_at_letters(b, seq!['m', 'o', 'n']);
        lemma_word_at_letters(b, seq!['t', 'u', 'e']);
        lemma_word_at_letters(b, seq!['w', 'e', 'd']);
        lemma_word_at_letters(b, seq!['t', 'h', 'u']);
        lemma_word_at_letters(b, seq!['f', 'r', 'i']);
        lemma_word_at_letters(b, seq!['s', 'a', 't']);
        assert(a[0] != seq!['m', 'o'][0]);
        assert(a[0] != seq!['t', 'u'][0]);
        assert(a[0] != seq!['w', 'e'][0]);
        assert(a[0] != seq!['t', 'h'][0]);
        assert(a[0] != seq!['f', 'r'][0]);
        assert(a[1] != seq!['s', 'a'][1]);
        assert(b[0] != seq!['m', 'o', 'n'][0]);
        assert(b[0] != seq!['t', 'u', 'e'][0]);
        assert(b[0] != seq!['w', 'e', 'd'][0]);
        assert(b[0] != seq!['t', 'h', 'u'][0]);
        assert(b[0] != seq!['f', 'r', 'i'][0]);
        assert(b[1] != seq!['s', 'a', 't'][1]);
    }
    if d == 1 {
        lemma_word_at_letters(a, seq!['s', 'u']);
        lemma_word_at_letters(a, seq!['m', 'o']);
        lemma_word_at_letters(a, seq!['t', 'u']);
        lemma_word_at_letters(a, seq!['w', 'e']);
        lemma_word_at_letters(a, seq!['t', 'h']);
        lemma_word_at_letters(a, seq!['f', 'r']);
        lemma_word_at_letters(a, seq!['s', 'a']);
        lemma_word_at_letters(b, seq!['s', 'u']);
        lemma_word_at_letters(b, seq!['m', 'o']);
        lemma_word_at_letters(b, seq!['t', 'u']);
        lemma_word_at_letters(b, seq!['w', 'e']);
        lemma_word_at_letters(b, seq!['t', 'h']);
        lemma_word_at_letters(b, seq!['f', 'r']);
        lemma_word_at_letters(b, seq!['s', 'a']);
        lemma_word_at_letters(b, seq!['s', 'u', 'n']);
        lemma_word_at_letters(b, seq!['m', 'o', 'n']);
        lemma_word_at_letters(b, seq!['t', 'u', 'e']);
        lemma_word_at_letters(b, seq!['w', 'e', 'd']);
        lemma_word_at_letters(b, seq!['t', 'h', 'u']);
        lemma_word_at_letters(b, seq!['f', 'r', 'i']);
        lemma_word_at_letters(b, seq!['s', 'a', 't']);
        assert(a[0] != seq!['s', 'u'][0]);
        assert(a[0] != seq!['t', 'u'][0]);
        assert(a[0] != seq!['w', 'e'][0]);
        assert(a[0] != seq!['t', 'h'][0]);
        assert(a[0] != seq!['f', 'r'][0]);
        assert(a[0] != seq!['s', 'a'][0]);
        assert(b[0] != seq!['s', 'u', 'n'][0]);
        assert(b[0] != seq!['t', 'u', 'e'][0]);
        assert(b[0] != seq!['w', 'e', 'd'][0]);
        assert(b[0] != seq!['t', 'h', 'u'][0]);
        assert(b[0] != seq!['f', 'r', 'i'][0]);
        assert(b[0] != seq!['s', 'a', 't'][0]);
    }
    if d == 2 {
        lemma_word_at_letters(a, seq!['s', 'u']);
        lemma_word_at_letters(a, seq!['m', 'o']);
        lemma_word_at_letters(a, seq!['t', 'u']);
        lemma_word_at_letters(a, seq!['w', 'e']);
        lemma_word_at_letters(a, seq!['t', 'h']);
        lemma_word_at_letters(a, seq!['f', 'r']);
        lemma_word_at_letters(a, seq!['s', 'a']);
        lemma_word_at_letters(b, seq!['s', 'u']);
        lemma_word_at_letters(b, seq!['m', 'o']);
        lemma_word_at_letters(b, seq!['t', 'u']);
        lemma_word_at_letters(b, seq!['w', 'e']);
        lemma_word_at_letters(b, seq!['t', 'h']);
        lemma_word_at_letters(b, seq!['f', 'r']);
        lemma_word_at_letters(b, seq!['s', 'a']);
        lemma_word_at_letters(b, seq!['s', 'u', 'n']);
        lemma_word_at_letters(b, seq!['m', 'o', 'n']);
        lemma_word_at_letters(b, seq!['t', 'u', 'e']);
        lemma_word_at_letters(b, seq!['w', 'e', 'd']);
        lemma_word_at_letters(b, seq!['t', 'h', 'u']);
        lemma_word_at_letters(b, seq!['f', 'r', 'i']);
        lemma_word_at_letters(b, seq!['s', 'a', 't']);
        assert(a[0] != seq!['s', 'u'][0]);
        assert(a[0] != seq!['m', 'o'][0]);
        assert(a[0] != seq!['w', 'e'][0]);
        assert(a[1] != seq!['t', 'h'][1]);
        assert(a[0] != seq!['f', 'r'][0]);
        assert(a[0] != seq!['s', 'a'][0]);
        assert(b[0] != seq!['s', 'u', 'n'][0]);
        assert(b[0] != seq!['m', 'o', 'n'][0]);
        assert(b[0] != seq!['w', 'e', 'd'][0]);
        assert(b[1] != seq!['t', 'h', 'u'][1]);
        assert(b[0] != seq!['f', 'r', 'i'][0]);
        assert(b[0] != seq!['s', 'a', 't'][0]);
    }
    if d == 3 {
        lemma_word_at_letters(a, seq!['s', 'u']);
        lemma_word_at_letters(a, seq!['m', 'o']);
        lemma_word_at_letters(a, seq!['t', 'u']);
        lemma_word_at_letters(a, seq!['w', 'e']);
        lemma_word_at_letters(a, seq!['t', 'h']);
        lemma_word_at_letters(a, seq!['f', 'r']);
        lemma_word_at_letters(a, seq!['s', 'a']);
        lemma_word_at_letters(b, seq!['s', 'u']);
        lemma_word_at_letters(b, seq!['m', 'o']);
        lemma_word_at_letters(b, seq!['t', 'u']);
        lemma_word_at_letters(b, seq!['w', 'e']);
        lemma_word_at_letters(b, seq!['t', 'h']);
        lemma_word_at_letters(b, seq!['f', 'r']);
        lemma_word_at_letters(b, seq!['s', 'a']);
        lemma_word_at_letters(b, seq!['s', 'u', 'n']);
        lemma_word_at_letters(b, seq!['m', 'o', 'n']);
        lemma_word_at_letters(b, seq!['t', 'u', 'e']);
        lemma_word_at_letters(b, seq!['w', 'e', 'd']);
        lemma_word_at_letters(b, seq!['t', 'h', 'u']);
        lemma_word_at_letters(b, seq!['f', 'r', 'i']);
        lemma_word_at_letters(b, seq!['s', 'a', 't']);
        assert(a[0] != seq!['s', 'u'][0]);
        assert(a[0] != seq!['m', 'o'][0]);
        assert(a[0] != seq!['t', 'u'][0]);
        assert(a[0] != seq!['t', 'h'][0]);
        assert(a[0] != seq!['f', 'r'][0]);
        assert(a[0] != seq!['s', 'a'][0]);
        assert(b[0] != seq!['s', 'u', 'n'][0]);
        assert(b[0] != seq!['m', 'o', 'n'][0]);
        assert(b[0] != seq!['t', 'u', 'e'][0]);
        assert(b[0] != seq!['t', 'h', 'u'][0]);
        assert(b[0] != seq!['f', 'r', 'i'][0]);
        assert(b[0] != seq!['s', 'a', 't'][0]);
    }
    if d == 4 {
        lemma_word_at_letters(a, seq!['s', 'u']);
        lemma_word_at_letters(a, seq!['m', 'o']);
        lemma_word_at_letters(a, seq!['t', 'u']);
        lemma_word_at_letters(a, seq!['w', 'e']);
        lemma_word_at_letters(a, seq!['t', 'h']);
        lemma_word_at_letters(a, seq!['f', 'r']);
        lemma_word_at_letters(a, seq!['s', 'a']);
        lemma_word_at_letters(b, seq!['s', 'u']);
        lemma_word_at_letters(b, seq!['m', 'o']);
        lemma_word_at_letters(b, seq!['t', 'u']);
        lemma_word_at_letters(b, seq!['w', 'e']);
        lemma_word_at_letters(b, seq!['t', 'h']);
        lemma_word_at_letters(b, seq!['f', 'r']);
        lemma_word_at_letters(b, seq!['s', 'a']);
        lemma_word_at_letters(b, seq!['s', 'u', 'n']);
        lemma_word_at_letters(b, seq!['m', 'o', 'n']);
        lemma_word_at_letters(b, seq!['t', 'u', 'e']);
        lemma_word_at_letters(b, seq!['w', 'e', 'd']);
        lemma_word_at_letters(b, seq!['t', 'h', 'u']);
        lemma_word_at_letters(b, seq!['f', 'r', 'i']);
        lemma_word_at_letters(b, seq!['s', 'a', 't']);
        assert(a[0] != seq!['s', 'u'][0]);
        assert(a[0] != seq!['m', 'o'][0]);
        assert(a[1] != seq!['t', 'u'][1]);
        assert(a[0] != seq!['w', 'e'][0]);
        assert(a[0] != seq!['f', 'r'][0]);
        assert(a[0] != seq!['s', 'a'][0]);
        assert(b[0] != seq!['s', 'u', 'n'][0]);
        assert(b[0] != seq!['m', 'o', 'n'][0]);
        assert(b[1] != seq!['t', 'u', 'e'][1]);
        assert(b[0] != seq!['w', 'e', 'd'][0]);
        assert(b[0] != seq!['f', 'r', 'i'][0]);
        assert(b[0] != seq!['s', 'a', 't'][0]);
    }
    if d == 5 {
        lemma_word_at_letters(a, seq!['s', 'u']);
        lemma_word_at_letters(a, seq!['m', 'o']);
        lemma_word_at_letters(a, seq!['t', 'u']);
        lemma_word_at_letters(a, seq!['w', 'e']);
        lemma_word_at_letters(a, seq!['t', 'h']);
        lemma_word_at_letters(a, seq!['f', 'r']);
        lemma_word_at_letters(a, seq!['s', 'a']);
        lemma_word_at_letters(b, seq!['s', 'u']);
        lemma_word_at_letters(b, seq!['m', 'o']);
        lemma_word_at_letters(b, seq!['t', 'u']);
        lemma_word_at_letters(b, seq!['w', 'e']);
        lemma_word_at_letters(b, seq!['t', 'h']);
        lemma_word_at_letters(b, seq!['f', 'r']);
        lemma_word_at_letters(b, seq!['s', 'a']);
        lemma_word_at_letters(b, seq!['s', 'u', 'n']);
        lemma_word_at_letters(b, seq!['m', 'o', 'n']);
        lemma_word_at_letters(b, seq!['t', 'u', 'e']);
        lemma_word_at_letters(b, seq!['w', 'e', 'd']);
        lemma_word_at_letters(b, seq!['t', 'h', 'u']);
        lemma_word_at_letters(b, seq!['f', 'r', 'i']);
        lemma_word_at_letters(b, seq!['s', 'a', 't']);
        assert(a[0] != seq!['s', 'u'][0]);
        assert(a[0] != seq!['m', 'o'][0]);
        assert(a[0] != seq!['t', 'u'][0]);
        assert(a[0] != seq!['w', 'e'][0]);
        assert(a[0] != seq!['t', 'h'][0]);
        assert(a[0] != seq!['s', 'a'][0]);
        assert(b[0] != seq!['s', 'u', 'n'][0]);
        assert(b[0] != seq!['m', 'o', 'n'][0]);
        assert(b[0] != seq!['t', 'u', 'e'][0]);
        assert(b[0] != seq!['w', 'e', 'd'][0]);
        assert(b[0] != seq!['t', 'h', 'u'][0]);
        assert(b[0] != seq!['s', 'a', 't'][0]);
    }
    if d == 6 {
        lemma_word_at_letters(a, seq!['s', 'u']);
        lemma_word_at_letters(a, seq!['m', 'o']);
        lemma_word_at_letters(a, seq!['t', 'u']);
        lemma_word_at_letters(a, seq!['w', 'e']);
        lemma_word_at_letters(a, seq!['t', 'h']);
        lemma_word_at_letters(a, seq!['f', 'r']);
        lemma_word_at_letters(a, seq!['s', 'a']);
        lemma_word_at_letters(b, seq!['s', 'u']);
        lemma_word_at_letters(b, seq!['m', 'o']);
        lemma_word_at_letters(b, seq!['t', 'u']);
        lemma_word_at_letters(b, seq!['w', 'e']);
        lemma_word_at_letters(b, seq!['t', 'h']);
        lemma_word_at_letters(b, seq!['f', 'r']);
        lemma_word_at_letters(b, seq!['s', 'a']);
        lemma_word_at_letters(b, seq!['s', 'u', 'n']);
        lemma_word_at_letters(b, seq!['m', 'o', 'n']);
        lemma_word_at_letters(b, seq!['t', 'u', 'e']);
        lemma_word_at_letters(b, seq!['w', 'e', 'd']);
        lemma_word_at_letters(b, seq!['t', 'h', 'u']);
        lemma_word_at_letters(b, seq!['f', 'r', 'i']);
        lemma_word_at_letters(b, seq!['s', 'a', 't']);
        assert(a[1] != seq!['s', 'u'][1]);
        assert(a[0] != seq!['m', 'o'][0]);
        assert(a[0] != seq!['t', 'u'][0]);
        assert(a[0] != seq!['w', 'e'][0]);
        assert(a[0] != seq!['t', 'h'][0]);
        assert(a[0] != seq!['f', 'r'][0]);
        assert(b[1] != seq!['s', 'u', 'n'][1]);
        assert(b[0] != seq!['m', 'o', 'n'][0]);
        assert(b[0] != seq!['t', 'u', 'e'][0]);
        assert(b[0] != seq!['w', 'e', 'd'][0]);
        assert(b[0] != seq!['t', 'h', 'u'][0]);
        assert(b[0] != seq!['f', 'r', 'i'][0]);
    }
}

/// Each month name reads as the number of its month (January is 1), and a clause of
/// that one value matches exactly the times in that month. A number `m` in a month
/// clause likewise matches exactly the times whose month is `m`.
pub proof fn lemma_month_names(m: int, n: i32, t: TimeFields)
    requires
        1 <= m <= 12,
        t.valid(),
    ensures
        spec_parse_value(Scale::Month, month_short_name(m), 0) matches Some((v, q)) && q == 3 && v == m
            && (spec_clause_matches((Scale::Month, seq![(v, v)]), t) <==> t.month == m),
        spec_clause_matches((Scale::Month, seq![(n, n)]), t) <==> t.month == n,
{
    let a = month_short_name(m);
    assert forall|i: int| 0 <= i < a.len() implies is_lower_letter(#[trigger] a[i]) by {}
    lemma_single_value_clause(Scale::Month, m as i32, t);
    lemma_single_value_clause(Scale::Month, n, t);
    if m == 1 {
        lemma_word_at_letters(a, seq!['j', 'a', 'n']);
        lemma_word_at_letters(a, seq!['f', 'e', 'b']);
        lemma_word_at_letters(a, seq!['m', 'a', 'r']);
        lemma_word_at_letters(a, seq!['a', 'p', 'r']);
        lemma_word_at_letters(a, seq!['m', 'a', 'y']);
        lemma_word_at_letters(a, seq!['j', 'u', 'n']);
        lemma_word_at_letters(a, seq!['j', 'u', 'l']);
        lemma_word_at_letters(a, seq!['a', 'u', 'g']);
        lemma_word_at_letters(a, seq!['s', 'e', 'p']);
        lemma_word_at_letters(a, seq!['o', 'c', 't']);
        lemma_word_at_letters(a, seq!['n', 'o', 'v']);
        lemma_word_at_letters(a, seq!['d', 'e', 'c']);
        assert(a[0] != seq!['f', 'e', 'b'][0]);
        assert(a[0] != seq!['m', 'a', 'r'][0]);
        assert(a[0] != seq!['a', 'p', 'r'][0]);
        assert(a[0] != seq!['m', 'a', 'y'][0]);
        assert(a[1] != seq!['j', 'u', 'n'][1]);
        assert(a[1] != seq!['j', 'u', 'l'][1]);
        assert(a[0] != seq!['a', 'u', 'g'][0]);
        assert(a[0] != seq!['s', 'e', 'p'][0]);
        assert(a[0] != seq!['o', 'c', 't'][0]);
        assert(a[0] != seq!['n', 'o', 'v'][0]);
        assert(a[0] != seq!['d', 'e', 'c'][0]);
    }
    if m == 2 {
        lemma_word_at_letters(a, seq!['j', 'a', 'n']);
        lemma_word_at_letters(a, seq!['f', 'e', 'b']);
        lemma_word_at_letters(a, seq!['m', 'a', 'r']);
        lemma_word_at_letters(a, seq!['a', 'p', 'r']);
        lemma_word_at_letters(a, seq!['m', 'a', 'y']);
        lemma_word_at_letters(a, seq!['j', 'u', 'n']);
        lemma_word_at_letters(a, seq!['j', 'u', 'l']);
        lemma_word_at_letters(a, seq!['a', 'u', 'g']);
        lemma_word_at_letters(a, seq!['s', 'e', 'p']);
        lemma_word_at_letters(a, seq!['o', 'c', 't']);
        lemma_word_at_letters(a, seq!['n', 'o', 'v']);
        lemma_word_at_letters(a, seq!['d', 'e', 'c']);
        assert(a[0] != seq!['j', 'a', 'n'][0]);
        assert(a[0] != seq!['m', 'a', 'r'][0]);
        assert(a[0] != seq!['a', 'p', 'r'][0]);
        assert(a[0] != seq!['m', 'a', 'y'][0]);
        assert(a[0] != seq!['j', 'u', 'n'][0]);
        assert(a[0] != seq!['j', 'u', 'l'][0]);
        assert(a[0] != seq!['a', 'u', 'g'][0]);
        assert(a[0] != seq!['s', 'e', 'p'][0]);
        assert(a[0] != seq!['o', 'c', 't'][0]);
        assert(a[0] != seq!['n', 'o', 'v'][0]);
        assert(a[0] != seq!['d', 'e', 'c'][0]);
    }
    if m == 3 {
        lemma_word_at_letters(a, seq!['j', 'a', 'n']);
        lemma_word_at_letters(a, seq!['f', 'e', 'b']);
        lemma_word_at_letters(a, seq!['m', 'a', 'r']);
        lemma_word_at_letters(a, seq!['a', 'p', 'r']);
        lemma_word_at_letters(a, seq!['m', 'a', 'y']);
        lemma_word_at_letters(a, seq!['j', 'u', 'n']);
        lemma_word_at_letters(a, seq!['j', 'u', 'l']);
        lemma_word_at_letters(a, seq!['a', 'u', 'g']);
        lemma_word_at_letters(a, seq!['s', 'e', 'p']);
        lemma_word_at_letters(a, seq!['o', 'c', 't']);
        lemma_word_at_letters(a, seq!['n', 'o', 'v']);
        lemma_word_at_letters(a, seq!['d', 'e', 'c']);
        assert(a[0] != seq!['j', 'a', 'n'][0]);
        assert(a[0] != seq!['f', 'e', 'b'][0]);
        assert(a[0] != seq!['a', 'p', 'r'][0]);
        assert(a[2] != seq!['m', 'a', 'y'][2]);
        assert(a[0] != seq!['j', 'u', 'n'][0]);
        assert(a[0] != seq!['j', 'u', 'l'][0]);
        assert(a[0] != seq!['a', 'u', 'g'][0]);
        assert(a[0] != seq!['s', 'e', 'p'][0]);
        assert(a[0] != seq!['o', 'c', 't'][0]);
        assert(a[0] != seq!['n', 'o', 'v'][0]);
        assert(a[0] != seq!['d', 'e', 'c'][0]);
    }
    if m == 4 {
        lemma_word_at_letters(a, seq!['j', 'a', 'n']);
        lemma_word_at_letters(a, seq!['f', 'e', 'b']);
        lemma_word_at_letters(a, seq!['m', 'a', 'r']);
        lemma_word_at_letters(a, seq!['a', 'p', 'r']);
        lemma_word_at_letters(a, seq!['m', 'a', 'y']);
        lemma_word_at_letters(a, seq!['j', 'u', 'n']);
        lemma_word_at_letters(a, seq!['j', 'u', 'l']);
        lemma_word_at_letters(a, seq!['a', 'u', 'g']);
        lemma_word_at_letters(a, seq!['s', 'e', 'p']);
        lemma_word_at_letters(a, seq!['o', 'c', 't']);
        lemma_word_at_letters(a, seq!['n', 'o', 'v']);
        lemma_word_at_letters(a, seq!['d', 'e', 'c']);
        assert(a[0] != seq!['j', 'a', 'n'][0]);
        assert(a[0] != seq!['f', 'e', 'b'][0]);
        assert(a[0] != seq!['m', 'a', 'r'][0]);
        assert(a[0] != seq!['m', 'a', 'y'][0]);
        assert(a[0] != seq!['j', 'u', 'n'][0]);
        assert(a[0] != seq!['j', 'u', 'l'][0]);
        assert(a[1] != seq!['a', 'u', 'g'][1]);
        assert(a[0] != seq!['s', 'e', 'p'][0]);
        assert(a[0] != seq!['o', 'c', 't'][0]);
        assert(a[0] != seq!['n', 'o', 'v'][0]);
        assert(a[0] != seq!['d', 'e', 'c'][0]);
    }
    if m == 5 {
        lemma_word_at_letters(a, seq!['j', 'a', 'n']);
        lemma_word_at_letters(a, seq!['f', 'e', 'b']);
        lemma_word_at_letters(a, seq!['m', 'a', 'r']);
        lemma_word_at_letters(a, seq!['a', 'p', 'r']);
        lemma_word_at_letters(a, seq!['m', 'a', 'y']);
        lemma_word_at_letters(a, seq!['j', 'u', 'n']);
        lemma_word_at_letters(a, seq!['j', 'u', 'l']);
        lemma_word_at_letters(a, seq!['a', 'u', 'g']);
        lemma_word_at_letters(a, seq!['s', 'e', 'p']);
        lemma_word_at_letters(a, seq!['o', 'c', 't']);
        lemma_word_at_letters(a, seq!['n', 'o', 'v']);
        lemma_word_at_letters(a, seq!['d', 'e', 'c']);
        assert(a[0] != seq!['j', 'a', 'n'][0]);
        assert(a[0] != seq!['f', 'e', 'b'][0]);
        assert(a[2] != seq!['m', 'a', 'r'][2]);
        assert(a[0] != seq!['a', 'p', 'r'][0]);
        assert(a[0] != seq!['j', 'u', 'n'][0]);
        assert(a[0] != seq!['j', 'u', 'l'][0]);
        assert(a[0] != seq!['a', 'u', 'g'][0]);
        assert(a[0] != seq!['s', 'e', 'p'][0]);
        assert(a[0] != seq!['o', 'c', 't'][0]);
        assert(a[0] != seq!['n', 'o', 'v'][0]);
        assert(a[0] != seq!['d', 'e', 'c'][0]);
    }
    if m == 6 {
        lemma_word_at_letters(a, seq!['j', 'a', 'n']);
        lemma_word_at_letters(a, seq!['f', 'e', 'b']);
        lemma_word_at_letters(a, seq!['m', 'a', 'r']);
        lemma_word_at_letters(a, seq!['a', 'p', 'r']);
        lemma_word_at_letters(a, seq!['m', 'a', 'y']);
        lemma_word_at_letters(a, seq!['j', 'u', 'n']);
        lemma_word_at_letters(a, seq!['j', 'u', 'l']);
        lemma_word_at_letters(a, seq!['a', 'u', 'g']);
        lemma_word_at_letters(a, seq!['s', 'e', 'p']);
        lemma_word_at_letters(a, seq!['o', 'c', 't']);
        lemma_word_at_letters(a, seq!['n', 'o', 'v']);
        lemma_word_at_letters(a, seq!['d', 'e', 'c']);
        assert(a[1] != seq!['j', 'a', 'n'][1]);
        assert(a[0] != seq!['f', 'e', 'b'][0]);
        assert(a[0] != seq!['m', 'a', 'r'][0]);
        assert(a[0] != seq!['a', 'p', 'r'][0]);
        assert(a[0] != seq!['m', 'a', 'y'][0]);
        assert(a[2] != seq!['j', 'u', 'l'][2]);
        assert(a[0] != seq!['a', 'u', 'g'][0]);
        assert(a[0] != seq!['s', 'e', 'p'][0]);
        assert(a[0] != seq!['o', 'c', 't'][0]);
        assert(a[0] != seq!['n', 'o', 'v'][0]);
        assert(a[0] != seq!['d', 'e', 'c'][0]);
    }
    if m == 7 {
        lemma_word_at_letters(a, seq!['j', 'a', 'n']);
        lemma_word_at_letters(a, seq!['f', 'e', 'b']);
        lemma_word_at_letters(a, seq!['m', 'a', 'r']);
        lemma_word_at_letters(a, seq!['a', 'p', 'r']);
        lemma_word_at_letters(a, seq!['m', 'a', 'y']);
        lemma_word_at_letters(a, seq!['j', 'u', 'n']);
        lemma_word_at_letters(a, seq!['j', 'u', 'l']);
        lemma_word_at_letters(a, seq!['a', 'u', 'g']);
        lemma_word_at_letters(a, seq!['s', 'e', 'p']);
        lemma_word_at_letters(a, seq!['o', 'c', 't']);
        lemma_word_at_letters(a, seq!['n', 'o', 'v']);
        lemma_word_at_letters(a, seq!['d', 'e', 'c']);
        assert(a[1] != seq!['j', 'a', 'n'][1]);
        assert(a[0] != seq!['f', 'e', 'b'][0]);
        assert(a[0] != seq!['m', 'a', 'r'][0]);
        assert(a[0] != seq!['a', 'p', 'r'][0]);
        assert(a[0] != seq!['m', 'a', 'y'][0]);
        assert(a[2] != seq!['j', 'u', 'n'][2]);
        assert(a[0] != seq!['a', 'u', 'g'][0]);
        assert(a[0] != seq!['s', 'e', 'p'][0]);
        assert(a[0] != seq!['o', 'c', 't'][0]);
        assert(a[0] != seq!['n', 'o', 'v'][0]);
        assert(a[0] != seq!['d', 'e', 'c'][0]);
    }
    if m == 8 {
        lemma_word_at_letters(a, seq!['j', 'a', 'n']);
        lemma_word_at_letters(a, seq!['f', 'e', 'b']);
        lemma_word_at_letters(a, seq!['m', 'a', 'r']);
        lemma_word_at_letters(a, seq!['a', 'p', 'r']);
        lemma_word_at_letters(a, seq!['m', 'a', 'y']);
        lemma_word_at_letters(a, seq!['j', 'u', 'n']);
        lemma_word_at_letters(a, seq!['j', 'u', 'l']);
        lemma_word_at_letters(a, seq!['a', 'u', 'g']);
        lemma_word_at_letters(a, seq!['s', 'e', 'p']);
        lemma_word_at_letters(a, seq!['o', 'c', 't']);
        lemma_word_at_letters(a, seq!['n', 'o', 'v']);
        lemma_word_at_letters(a, seq!['d', 'e', 'c']);
        assert(a[0] != seq!['j', 'a', 'n'][0]);
        assert(a[0] != seq!['f', 'e', 'b'][0]);
        assert(a[0] != seq!['m', 'a', 'r'][0]);
        assert(a[1] != seq!['a', 'p', 'r'][1]);
        assert(a[0] != seq!['m', 'a', 'y'][0]);
        assert(a[0] != seq!['j', 'u', 'n'][0]);
        assert(a[0] != seq!['j', 'u', 'l'][0]);
        assert(a[0] != seq!['s', 'e', 'p'][0]);
        assert(a[0] != seq!['o', 'c', 't'][0]);
        assert(a[0] != seq!['n', 'o', 'v'][0]);
        assert(a[0] != seq!['d', 'e', 'c'][0]);
    }
    if m == 9 {
        lemma_word_at_letters(a, seq!['j', 'a', 'n']);
        lemma_word_at_letters(a, seq!['f', 'e', 'b']);
        lemma_word_at_letters(a, seq!['m', 'a', 'r']);
        lemma_word_at_letters(a, seq!['a', 'p', 'r']);
        lemma_word_at_letters(a, seq!['m', 'a', 'y']);
        lemma_word_at_letters(a, seq!['j', 'u', 'n']);
        lemma_word_at_letters(a, seq!['j', 'u', 'l']);
        lemma_word_at_letters(a, seq!['a', 'u', 'g']);
        lemma_word_at_letters(a, seq!['s', 'e', 'p']);
        lemma_word_at_letters(a, seq!['o', 'c', 't']);
        lemma_word_at_letters(a, seq!['n', 'o', 'v']);
        lemma_word_at_letters(a, seq!['d', 'e', 'c']);
        assert(a[0] != seq!['j', 'a', 'n'][0]);
        assert(a[0] != seq!['f', 'e', 'b'][0]);
        assert(a[0] != seq!['m', 'a', 'r'][0]);
        assert(a[0] != seq!['a', 'p', 'r'][0]);
        assert(a[0] != seq!['m', 'a', 'y'][0]);
        assert(a[0] != seq!['j', 'u', 'n'][0]);
        assert(a[0] != seq!['j', 'u', 'l'][0]);
        assert(a[0] != seq!['a', 'u', 'g'][0]);
        assert(a[0] != seq!['o', 'c', 't'][0]);
        assert(a[0] != seq!['n', 'o', 'v'][0]);
        assert(a[0] != seq!['d', 'e', 'c'][0]);
    }
    if m == 10 {
        lemma_word_at_letters(a, seq!['j', 'a', 'n']);
        lemma_word_at_letters(a, seq!['f', 'e', 'b']);
        lemma_word_at_letters(a, seq!['m', 'a', 'r']);
        lemma_word_at_letters(a, seq!['a', 'p', 'r']);
        lemma_word_at_letters(a, seq!['m', 'a', 'y']);
        lemma_word_at_letters(a, seq!['j', 'u', 'n']);
        lemma_word_at_letters(a, seq!['j', 'u', 'l']);
        lemma_word_at_letters(a, seq!['a', 'u', 'g']);
        lemma_word_at_letters(a, seq!['s', 'e', 'p']);
        lemma_word_at_letters(a, seq!['o', 'c', 't']);
        lemma_word_at_letters(a, seq!['n', 'o', 'v']);
        lemma_word_at_letters(a, seq!['d', 'e', 'c']);
        assert(a[0] != seq!['j', 'a', 'n'][0]);
        assert(a[0] != seq!['f', 'e', 'b'][0]);
        assert(a[0] != seq!['m', 'a', 'r'][0]);
        assert(a[0] != seq!['a', 'p', 'r'][0]);
        assert(a[0] != seq!['m', 'a', 'y'][0]);
        assert(a[0] != seq!['j', 'u', 'n'][0]);
        assert(a[0] != seq!['j', 'u', 'l'][0]);
        assert(a[0] != seq!['a', 'u', 'g'][0]);
        assert(a[0] != seq!['s', 'e', 'p'][0]);
        assert(a[0] != seq!['n', 'o', 'v'][0]);
        assert(a[0] != seq!['d', 'e', 'c'][0]);
    }
    if m == 11 {
        lemma_word_at_letters(a, seq!['j', 'a', 'n']);
        lemma_word_at_letters(a, seq!['f', 'e', 'b']);
        lemma_word_at_letters(a, seq!['m', 'a', 'r']);
        lemma_word_at_letters(a, seq!['a', 'p', 'r']);
        lemma_word_at_letters(a, seq!['m', 'a', 'y']);
        lemma_word_at_letters(a, seq!['j', 'u', 'n']);
        lemma_word_at_letters(a, seq!['j', 'u', 'l']);
        lemma_word_at_letters(a, seq!['a', 'u', 'g']);
        lemma_word_at_letters(a, seq!['s', 'e', 'p']);
        lemma_word_at_letters(a, seq!['o', 'c', 't']);
        lemma_word_at_letters(a, seq!['n', 'o', 'v']);
        lemma_word_at_letters(a, seq!['d', 'e', 'c']);
        assert(a[0] != seq!['j', 'a', 'n'][0]);
        assert(a[0] != seq!['f', 'e', 'b'][0]);
        assert(a[0] != seq!['m', 'a', 'r'][0]);
        assert(a[0] != seq!['a', 'p', 'r'][0]);
        assert(a[0] != seq!['m', 'a', 'y'][0]);
        assert(a[0] != seq!['j', 'u', 'n'][0]);
        assert(a[0] != seq!['j', 'u', 'l'][0]);
        assert(a[0] != seq!['a', 'u', 'g'][0]);
        assert(a[0] != seq!['s', 'e', 'p'][0]);
        assert(a[0] != seq!['o', 'c', 't'][0]);
        assert(a[0] != seq!['d', 'e', 'c'][0]);
    }
    if m == 12 {
        lemma_word_at_letters(a, seq!['j', 'a', 'n']);
        lemma_word_at_letters(a, seq!['f', 'e', 'b']);
        lemma_word_at_letters(a, seq!['m', 'a', 'r']);
        lemma_word_at_letters(a, seq!['a', 'p', 'r']);
        lemma_word_at_letters(a, seq!['m', 'a', 'y']);
        lemma_word_at_letters(a, seq!['j', 'u', 'n']);
        lemma_word_at_letters(a, seq!['j', 'u', 'l']);
        lemma_word_at_letters(a, seq!['a', 'u', 'g']);
        lemma_word_at_letters(a, seq!['s', 'e', 'p']);
        lemma_word_at_letters(a, seq!['o', 'c', 't']);
        lemma_word_at_letters(a, seq!['n', 'o', 'v']);
        lemma_word_at_letters(a, seq!['d', 'e', 'c']);
        assert(a[0] != seq!['j', 'a', 'n'][0]);
        assert(a[0] != seq!['f', 'e', 'b'][0]);
        assert(a[0] != seq!['m', 'a', 'r'][0]);
        assert(a[0] != seq!['a', 'p', 'r'][0]);
        assert(a[0] != seq!['m', 'a', 'y'][0]);
        assert(a[0] != seq!['j', 'u', 'n'][0]);
        assert(a[0] != seq!['j', 'u', 'l'][0]);
        assert(a[0] != seq!['a', 'u', 'g'][0]);
        assert(a[0] != seq!['s', 'e', 'p'][0]);
        assert(a[0] != seq!['o', 'c', 't'][0]);
        assert(a[0] != seq!['n', 'o', 'v'][0]);
    }
}

/// A clause of one value matches exactly the times whose scale value is that value.
proof fn lemma_single_value_clause(sc: Scale, v: i32, t: TimeFields)
    ensures
        spec_clause_matches((sc, seq![(v, v)]), t) <==> spec_scale_value(sc, t) == v,
{
    let rs = seq![(v, v)];
    let c = (sc, rs);
    assert(rs.len() == 1 && rs[0] == (v, v));
    if spec_scale_value(sc, t) == v {
        assert(c.1[0].0 <= spec_scale_value(c.0, t) <= c.1[0].1);
    }
    if spec_clause_matches(c, t) {
        let i = choose|i: int| 0 <= i < c.1.len() && #[trigger] c.1[i].0 <= spec_scale_value(c.0, t)
            <= c.1[i].1;
        assert(i == 0);
    }
}

/// A blank period is one piece, and that piece, trimmed, admits every time.
proof fn lemma_blank_period(a: Seq<char>, t: TimeFields)
    requires
        trim(a).len() == 0,
    ensures
        split_pieces(a, ',') == seq![a],
        spec_eval_sub_period(trim(a), t),
{
    assert forall|i: int| 0 <= i < a.len() implies a[i] != ',' by {
        if a[i] == ',' {
            lemma_trim_nonblank(a, i);
        }
    }
    lemma_split_pieces_no_sep(a, ',');
    assert(trim(a) =~= Seq::<char>::empty());
    assert(ws_skip(Seq::<char>::empty(), 0) == 0);
}

/// Comma-separated sub-periods are alternatives: the period `a,b` admits a time
/// exactly when `a` admits it or `b` admits it.
pub proof fn lemma_comma_is_or(a: Seq<char>, b: Seq<char>, t: TimeFields)
    ensures
        spec_in_period(a + seq![','] + b, t) == (spec_in_period(a, t) || spec_in_period(b, t)),
{
    let x = a + seq![','] + b;
    let pa = split_pieces(a, ',');
    let pb = split_pieces(b, ',');
    let px = split_pieces(x, ',');
    lemma_split_pieces_join(a, b, ',');
    assert(px == pa + pb);
    assert(x[a.len() as int] == ',');
    lemma_trim_nonblank(x, a.len() as int);
    if trim(a).len() == 0 {
        lemma_blank_period(a, t);
        assert(px[0] == pa[0]);
    }
    if trim(b).len() == 0 {
        lemma_blank_period(b, t);
        assert(px[pa.len() as int] == pb[0]);
    }
    if trim(a).len() > 0 && spec_in_period(a, t) {
        let i = choose|i: int|
            0 <= i < pa.len() && spec_eval_sub_period(trim(#[trigger] pa[i]), t);
        assert(px[i] == pa[i]);
    }
    if trim(b).len() > 0 && spec_in_period(b, t) {
        let i = choose|i: int|
            0 <= i < pb.len() && spec_eval_sub_period(trim(#[trigger] pb[i]), t);
        assert(px[pa.len() + i] == pb[i]);
    }
    if spec_in_period(x, t) {
        let i = choose|i: int|
            0 <= i < px.len() && spec_eval_sub_period(trim(#[trigger] px[i]), t);
        if i < pa.len() {
            assert(px[i] == pa[i]);
        } else {
            assert(px[i] == pb[i - pa.len()]);
        }
    }
}

/// Whether the sub-period `v[lo..hi]`, trimmed, admits the time.
fn eval_piece(v: &Vec<char>, lo: usize, hi: usize, now: &TimeFields) -> (r: bool)
    requires
        lo <= hi <= v.len(),
        now.valid(),
    ensures
        r == spec_eval_sub_period(trim(v@.subrange(lo as int, hi as int)), *now),
{
    let (a, b) = trim_bounds(v, lo, hi);
    let piece = copy_range(v, a, b);
    eval_sub_period_chars(&piece, now)
}

/// Whether the period expression admits the given time.
pub fn in_period_at(expr: &str, now: &TimeFields) -> (r: bool)
    requires
        now.valid(),
    ensures
        r == spec_in_period(expr@, *now),
{
    let v = chars_of(expr);
    let n = v.len();
    let ghost s = v@;
    let (ta, tb) = trim_bounds(&v, 0, n);
    assert(s.subrange(0, n as int) =~= s);
    if ta == tb {
        return true;
    }
    proof {
        assert(s.take(0) =~= Seq::<char>::empty());
        lemma_last_sep(s.take(0), ',');
    }
    let mut start: usize = 0;
    let mut found = false;
    let mut i: usize = 0;
    while i < n
        invariant
            s == v@,
            n == v.len(),
            now.valid(),
            start <= i <= n,
            split_pieces(s.take(i as int), ',').len() >= 1,
            split_pieces(s.take(i as int), ',').last() == s.subrange(start as int, i as int),
            found == exists|j: int|
                0 <= j < split_pieces(s.take(i as int), ',').len() - 1 && spec_eval_sub_period(
                    trim(#[trigger] split_pieces(s.take(i as int), ',')[j]),
                    *now,
                ),
        decreases n - i,
    {
        proof {
            lemma_split_pieces_step(s, ',', i as int);
        }
        let ghost before = split_pieces(s.take(i as int), ',');
        let ghost after = split_pieces(s.take(i + 1), ',');
        if v[i] == ',' {
            let e = eval_piece(&v, start, i, now);
            proof {
                assert(after == before.push(seq![]));
                assert(after[before.len() - 1] == s.subrange(start as int, i as int));
                if found {
                    let j = choose|j: int|
                        0 <= j < before.len() - 1 && spec_eval_sub_period(
                            trim(#[trigger] before[j]),
                            *now,
                        );
                    assert(after[j] == before[j]);
                }
                if e {
                    assert(spec_eval_sub_period(trim(after[before.len() - 1]), *now));
                }
                if found || e {
                    assert(exists|j: int|
                        0 <= j < after.len() - 1 && spec_eval_sub_period(
                            trim(#[trigger] after[j]),
                            *now,
                        ));
                } else {
                    assert forall|j: int| 0 <= j < after.len() - 1 implies !spec_eval_sub_period(
                        trim(#[trigger] after[j]),
                        *now,
                    ) by {
                        if j < before.len() - 1 {
                            assert(after[j] == before[j]);
                        }
                    }
                }
            }
            found = found || e;
            start = i + 1;
            assert(s.subrange(start as int, (i + 1) as int) =~= Seq::<char>::empty());
        } else {
            proof {
                assert(after.len() == before.len());
                assert forall|j: int| 0 <= j < after.len() - 1 implies after[j] == before[j] by {}
                if found {
                    let j = choose|j: int|
                        0 <= j < before.len() - 1 && spec_eval_sub_period(
                            trim(#[trigger] before[j]),
                            *now,
                        );
                    assert(after[j] == before[j]);
                }
            }
            assert(s.subrange(start as int, i + 1) =~= s.subrange(start as int, i as int).push(
                s[i as int],
            ));
        }
        i = i + 1;
    }
    assert(s.take(n as int) =~= s);
    let last = eval_piece(&v, start, n, now);
    proof {
        let ps = split_pieces(s, ',');
        if last {
            assert(spec_eval_sub_period(trim(ps[ps.len() - 1]), *now));
        }
    }
    found || last
}

/// Whether the current local time is within the period expression. A blank
/// expression admits every time.
pub fn in_period(expr: &str) -> (r: bool)
    ensures
        trim(expr@).len() == 0 ==> r,
        exists|t: TimeFields| t.valid() && r == spec_in_period(expr@, t),
{
    let now = local_now();
    in_period_at(expr, &now)
}

/// A period is valid: it is blank, or each of its comma-separated sub-periods,
/// trimmed, parses.
pub open spec fn spec_valid_period(expr: Seq<char>) -> bool {
    trim(expr).len() == 0 || forall|i: int|
        0 <= i < split_pieces(expr, ',').len() ==> spec_parse_sub_period(
            trim(#[trigger] split_pieces(expr, ',')[i]),
        ) is Some
}

/// Whether the sub-period `v[lo..hi]`, trimmed, parses.
fn piece_parses(v: &Vec<char>, lo: usize, hi: usize) -> (r: bool)
    requires
        lo <= hi <= v.len(),
    ensures
        r == spec_parse_sub_period(trim(v@.subrange(lo as int, hi as int))) is Some,
{
    let (a, b) = trim_bounds(v, lo, hi);
    let piece = copy_range(v, a, b);
    match parse_sub_period_chars(&piece) {
        Some(_) => true,
        None => false,
    }
}

/// Whether a period expression is valid: blank, or made of sub-periods that each
/// parse.
pub fn is_valid_period(expr: &str) -> (r: bool)
    ensures
        r == spec_valid_period(expr@),
{
    let v = chars_of(expr);
    let n = v.len();
    let ghost s = v@;
    let (ta, tb) = trim_bounds(&v, 0, n);
    assert(s.subrange(0, n as int) =~= s);
    if ta == tb {
        return true;
    }
    proof {
        assert(s.take(0) =~= Seq::<char>::empty());
        lemma_last_sep(s.take(0), ',');
    }
    let mut start: usize = 0;
    let mut ok = true;
    let mut i: usize = 0;
    while i < n
        invariant
            s == v@,
            n == v.len(),
            start <= i <= n,
            split_pieces(s.take(i as int), ',').len() >= 1,
            split_pieces(s.take(i as int), ',').last() == s.subrange(start as int, i as int),
            ok == forall|j: int|
                0 <= j < split_pieces(s.take(i as int), ',').len() - 1 ==> spec_parse_sub_period(
                    trim(#[trigger] split_pieces(s.take(i as int), ',')[j]),
                ) is Some,
        decreases n - i,
    {
        proof {
            lemma_split_pieces_step(s, ',', i as int);
        }
        let ghost before = split_pieces(s.take(i as int), ',');
        let ghost after = split_pieces(s.take(i + 1), ',');
        if v[i] == ',' {
            let e = piece_parses(&v, start, i);
            proof {
                assert(after == before.push(seq![]));
                assert(after[before.len() - 1] == s.subrange(start as int, i as int));
                assert forall|j: int| 0 <= j < before.len() - 1 implies after[j] == before[j] by {}
                if ok && e {
                    assert forall|j: int| 0 <= j < after.len() - 1 implies spec_parse_sub_period(
                        trim(#[trigger] after[j]),
                    ) is Some by {
                        if j < before.len() - 1 {
                            assert(after[j] == before[j]);
                        }
                    }
                }
                if !ok {
                    let j = choose|j: int|
                        0 <= j < before.len() - 1 && !(spec_parse_sub_period(
                            trim(#[trigger] before[j]),
                        ) is Some);
                    assert(after[j] == before[j]);
                }
                if !e {
                    assert(!(spec_parse_sub_period(trim(after[before.len() - 1])) is Some));
                }
            }
            ok = ok && e;
            start = i + 1;
            assert(s.subrange(start as int, (i + 1) as int) =~= Seq::<char>::empty());
        } else {
            proof {
                assert(after.len() == before.len());
                assert forall|j: int| 0 <= j < after.len() - 1 implies after[j] == before[j] by {}
                if !ok {
                    let j = choose|j: int|
                        0 <= j < before.len() - 1 && !(spec_parse_sub_period(
                            trim(#[trigger] before[j]),
                        ) is Some);
                    assert(after[j] == before[j]);
                }
            }
            assert(s.subrange(start as int, i + 1) =~= s.subrange(start as int, i as int).push(
                s[i as int],
            ));
        }
        i = i + 1;
    }
    assert(s.take(n as int) =~= s);
    let last = piece_parses(&v, start, n);
    proof {
        let ps = split_pieces(s, ',');
        if ok && last {
            assert forall|j: int| 0 <= j < ps.len() implies spec_parse_sub_period(
                trim(#[trigger] ps[j]),
            ) is Some by {
                if j == ps.len() - 1 {
                    assert(ps[j] == s.subrange(start as int, n as int));
                }
            }
        }
        if !last {
            assert(!(spec_parse_sub_period(trim(ps[ps.len() - 1])) is Some));
        }
    }
    ok && last
}

} // verus!
