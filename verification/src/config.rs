//! Job configuration: the job model, the parsers of its field values, and the
//! building of jobs from parsed INI configuration files.
use vstd::prelude::*;
use crate::period::{is_valid_period, spec_valid_period};
use crate::text::{
    all_digits, chars_of, decimal, equals_ci, is_digit, lemma_decimal,
    lemma_parse_u64_decimal, lemma_trim_id, is_whitespace, is_ws, lower, multivalue, parse_u64,
    parse_u64_at, push_decimal, same_text, skip_ws, split_multivalue, string_of, text_is, trim,
    trim_bounds, trim_start, views,
};

verus! {

/// When a job runs: every so many seconds, at a random delay within a range, or on
/// an outside event.
#[derive(Debug, Clone, Copy, PartialEq, Eq, Structural)]
pub enum Interval {
    Disabled,
    Seconds(u64),
    Range(u64, u64),
    OnChange,
    StartMessage,
    SuccessMessage,
    FailureMessage,
}

/// The position of the first `c` in `s`, or -1.
pub open spec fn first_index_of(s: Seq<char>, c: char) -> int
    decreases s.len(),
{
    if s.len() == 0 {
        -1
    } else if s[0] == c {
        0
    } else {
        let r = first_index_of(s.drop_first(), c);
        if r < 0 {
            -1
        } else {
            r + 1
        }
    }
}

/// What `Interval::parse` makes of a configuration value. The value is trimmed and,
/// for the keywords, compared ignoring ASCII case (case does not matter to numbers).
/// `lo-hi` with two numbers is a range; a number is a count of seconds; `0`, blank
/// and anything else disable the job.
pub open spec fn spec_parse_interval(s: Seq<char>) -> Interval {
    let u = trim(s);
    let t = lower(u);
    if t == seq!['0'] || t.len() == 0 {
        Interval::Disabled
    } else if t == seq!['o', 'n', 'c', 'h', 'a', 'n', 'g', 'e'] {
        Interval::OnChange
    } else if t == seq!['s', 't', 'a', 'r', 't', '-', 'm', 'e', 's', 's', 'a', 'g', 'e'] {
        Interval::StartMessage
    } else if t == seq!['s', 'u', 'c', 'c', 'e', 's', 's', '-', 'm', 'e', 's', 's', 'a', 'g', 'e'] {
        Interval::SuccessMessage
    } else if t == seq!['f', 'a', 'i', 'l', 'u', 'r', 'e', '-', 'm', 'e', 's', 's', 'a', 'g', 'e'] {
        Interval::FailureMessage
    } else {
        let d = first_index_of(u, '-');
        match (parse_u64(trim(u.take(d))), parse_u64(trim(u.skip(d + 1)))) {
            (Some(lo), Some(hi)) if d >= 0 => Interval::Range(lo, hi),
            _ => match parse_u64(u) {
                Some(n) => Interval::Seconds(n),
                None => Interval::Disabled,
            },
        }
    }
}

/// How an interval is written: `0`, the number, `lo-hi`, or the keyword.
pub open spec fn interval_text(i: Interval) -> Seq<char> {
    match i {
        Interval::Disabled => seq!['0'],
        Interval::Seconds(n) => decimal(n as nat),
        Interval::Range(lo, hi) => decimal(lo as nat) + seq!['-'] + decimal(hi as nat),
        Interval::OnChange => seq!['o', 'n', 'c', 'h', 'a', 'n', 'g', 'e'],
        Interval::StartMessage => seq!['s', 't', 'a', 'r', 't', '-', 'm', 'e', 's', 's', 'a', 'g', 'e'],
        Interval::SuccessMessage => seq!['s', 'u', 'c', 'c', 'e', 's', 's', '-', 'm', 'e', 's', 's', 'a', 'g', 'e'],
        Interval::FailureMessage => seq!['f', 'a', 'i', 'l', 'u', 'r', 'e', '-', 'm', 'e', 's', 's', 'a', 'g', 'e'],
    }
}

proof fn lemma_first_index_of(s: Seq<char>, c: char)
    ensures
        -1 <= first_index_of(s, c) < s.len(),
        first_index_of(s, c) >= 0 ==> s[first_index_of(s, c)] == c,
        forall|i: int|
            0 <= i < s.len() && (first_index_of(s, c) < 0 || i < first_index_of(s, c)) ==> s[i]
                != c,
    decreases s.len(),
{
    if s.len() > 0 && s[0] != c {
        lemma_first_index_of(s.drop_first(), c);
        assert forall|i: int|
            0 <= i < s.len() && (first_index_of(s, c) < 0 || i < first_index_of(s, c)) implies s[i]
            != c by {
            if i > 0 {
                assert(s[i] == s.drop_first()[i - 1]);
            }
        }
    }
}

/// A string of digits and dashes is its own ASCII lower case.
proof fn lemma_lower_digits_dash(u: Seq<char>)
    requires
        forall|k: int| 0 <= k < u.len() ==> is_digit(#[trigger] u[k]) || u[k] == '-',
    ensures
        lower(u) == u,
{
    assert forall|k: int| 0 <= k < u.len() implies lower(u)[k] == u[k] by {
        assert(is_digit(u[k]) || u[k] == '-');
    }
    assert(lower(u) =~= u);
}

/// The decimal digits of a number, read as an interval value: trimmed and lower
/// cased they stay the same, and they are none of the keywords.
proof fn lemma_decimal_text(n: nat)
    ensures
        trim(decimal(n)) == decimal(n),
        lower(decimal(n)) == decimal(n),
        forall|k: int| 0 <= k < decimal(n).len() ==> #[trigger] decimal(n)[k] != '-',
        is_digit(decimal(n)[0]),
        is_digit(decimal(n).last()),
{
    lemma_decimal(n);
    let u = decimal(n);
    assert(is_digit(u[0]));
    assert(is_digit(u[u.len() - 1]));
    lemma_trim_id(u);
    lemma_lower_digits_dash(u);
    assert forall|k: int| 0 <= k < u.len() implies #[trigger] u[k] != '-' by {
        assert(is_digit(u[k]));
    }
}

/// Reading back how an interval is written gives the interval again. The one
/// exception is zero seconds: it is written `0`, which reads as a disabled job.
pub proof fn lemma_interval_text_roundtrip(i: Interval)
    requires
        i != Interval::Seconds(0),
    ensures
        spec_parse_interval(interval_text(i)) == i,
{
    let onchange = seq!['o', 'n', 'c', 'h', 'a', 'n', 'g', 'e'];
    let start = seq!['s', 't', 'a', 'r', 't', '-', 'm', 'e', 's', 's', 'a', 'g', 'e'];
    let success = seq!['s', 'u', 'c', 'c', 'e', 's', 's', '-', 'm', 'e', 's', 's', 'a', 'g', 'e'];
    let failure = seq!['f', 'a', 'i', 'l', 'u', 'r', 'e', '-', 'm', 'e', 's', 's', 'a', 'g', 'e'];
    match i {
        Interval::Seconds(n) => {
            let u = decimal(n as nat);
            lemma_decimal(n as nat);
            lemma_decimal_text(n as nat);
            lemma_parse_u64_decimal(n);
            lemma_first_index_of(u, '-');
            assert(u != onchange && u != start && u != success && u != failure) by {
                assert(!is_digit(onchange[0]) && !is_digit(start[0]) && !is_digit(success[0])
                    && !is_digit(failure[0]));
            }
            assert(first_index_of(u, '-') < 0);
        },
        Interval::Range(lo, hi) => {
            let a = decimal(lo as nat);
            let b = decimal(hi as nat);
            let u = a + seq!['-'] + b;
            lemma_decimal(lo as nat);
            lemma_decimal(hi as nat);
            lemma_decimal_text(lo as nat);
            lemma_decimal_text(hi as nat);
            lemma_parse_u64_decimal(lo);
            lemma_parse_u64_decimal(hi);
            assert(u[0] == a[0]);
            assert(u.last() == b.last());
            lemma_trim_id(u);
            assert forall|k: int| 0 <= k < u.len() implies is_digit(#[trigger] u[k]) || u[k] == '-' by {
                if k < a.len() {
                    assert(u[k] == a[k]);
                    assert(all_digits(a));
                } else if k > a.len() {
                    assert(u[k] == b[k - a.len() - 1]);
                    assert(all_digits(b));
                }
            }
            lemma_lower_digits_dash(u);
            assert(u != seq!['0'] && u.len() != 0) by {
                assert(u.len() >= 3);
            }
            assert(u != onchange && u != start && u != success && u != failure) by {
                assert(!is_digit(onchange[0]) && !is_digit(start[0]) && !is_digit(success[0])
                    && !is_digit(failure[0]));
            }
            lemma_first_index_of(u, '-');
            let d = first_index_of(u, '-');
            assert(u[a.len() as int] == '-');
            assert(d == a.len()) by {
                if d < 0 {
                    assert(u[a.len() as int] != '-');
                } else if d < a.len() {
                    assert(u[d] == a[d]);
                } else if d > a.len() {
                    assert(u[a.len() as int] != '-');
                }
            }
            assert(u.take(d) =~= a);
            assert(u.skip(d + 1) =~= b);
        },
        Interval::Disabled => {
            assert(trim(seq!['0']) == seq!['0']) by {
                lemma_trim_id(seq!['0']);
            }
            assert(lower(seq!['0']) =~= seq!['0']);
        },
        Interval::OnChange => {
            lemma_trim_id(onchange);
            assert(lower(onchange) =~= onchange);
        },
        Interval::StartMessage => {
            lemma_trim_id(start);
            assert(lower(start) =~= start);
        },
        Interval::SuccessMessage => {
            lemma_trim_id(success);
            assert(lower(success) =~= success);
        },
        Interval::FailureMessage => {
            lemma_trim_id(failure);
            assert(lower(failure) =~= failure);
        },
    }
}

/// A string holding the characters of `kw`.
pub fn string_from(kw: &[char]) -> (s: String)
    ensures
        s@ == kw@,
{
    let mut s = String::new();
    let mut i: usize = 0;
    while i < kw.len()
        invariant
            i <= kw.len(),
            s@ == kw@.take(i as int),
        decreases kw.len() - i,
    {
        crate::text::push_char(&mut s, kw[i]);
        assert(kw@.take(i + 1) =~= kw@.take(i as int).push(kw@[i as int]));
        i = i + 1;
    }
    assert(kw@.take(kw.len() as int) =~= kw@);
    s
}

impl Interval {
    /// Reads an `interval` configuration value.
    pub fn parse(s: &str) -> (r: Interval)
        ensures
            r == spec_parse_interval(s@),
    {
        let v = chars_of(s);
        let (a, b) = trim_bounds(&v, 0, v.len());
        let ghost u = v@.subrange(a as int, b as int);
        assert(v@.subrange(0, v@.len() as int) =~= v@);
        if a == b {
            assert(lower(u).len() == 0);
            return Interval::Disabled;
        }
        if equals_ci(&v, a, b, {
            let k: &[char] = &['0'];
            assert(k@ =~= seq!['0']);
            k
        }) {
            return Interval::Disabled;
        }
        if equals_ci(&v, a, b, {
            let k: &[char] = &['o', 'n', 'c', 'h', 'a', 'n', 'g', 'e'];
            assert(k@ =~= seq!['o', 'n', 'c', 'h', 'a', 'n', 'g', 'e']);
            k
        }) {
            return Interval::OnChange;
        }
        if equals_ci(&v, a, b, {
            let k: &[char] = &['s', 't', 'a', 'r', 't', '-', 'm', 'e', 's', 's', 'a', 'g', 'e'];
            assert(k@ =~= seq!['s', 't', 'a', 'r', 't', '-', 'm', 'e', 's', 's', 'a', 'g', 'e']);
            k
        }) {
            return Interval::StartMessage;
        }
        if equals_ci(&v, a, b, {
            let k: &[char] = &['s', 'u', 'c', 'c', 'e', 's', 's', '-', 'm', 'e', 's', 's', 'a', 'g', 'e'];
            assert(k@ =~= seq!['s', 'u', 'c', 'c', 'e', 's', 's', '-', 'm', 'e', 's', 's', 'a', 'g', 'e']);
            k
        }) {
            return Interval::SuccessMessage;
        }
        if equals_ci(&v, a, b, {
            let k: &[char] = &['f', 'a', 'i', 'l', 'u', 'r', 'e', '-', 'm', 'e', 's', 's', 'a', 'g', 'e'];
            assert(k@ =~= seq!['f', 'a', 'i', 'l', 'u', 'r', 'e', '-', 'm', 'e', 's', 's', 'a', 'g', 'e']);
            k
        }) {
            return Interval::FailureMessage;
        }
        proof {
            lemma_first_index_of(u, '-');
        }
        let mut d = a;
        while d < b && v[d] != '-'
            invariant
                a <= d <= b <= v.len(),
                u == v@.subrange(a as int, b as int),
                forall|i: int| 0 <= i < d - a ==> u[i] != '-',
            decreases b - d,
        {
            d = d + 1;
        }
        if d < b {
            assert(u[d - a] == v@[d as int]);
            assert(first_index_of(u, '-') == d - a);
            let (la, lb) = trim_bounds(&v, a, d);
            let (ha, hb) = trim_bounds(&v, d + 1, b);
            assert(u.take(d - a) =~= v@.subrange(a as int, d as int));
            assert(u.skip(d - a + 1) =~= v@.subrange(d + 1, b as int));
            let lo = parse_u64_at(&v, la, lb);
            let hi = parse_u64_at(&v, ha, hb);
            if let (Some(lo), Some(hi)) = (lo, hi) {
                return Interval::Range(lo, hi);
            }
        } else {
            assert(first_index_of(u, '-') < 0);
        }
        match parse_u64_at(&v, a, b) {
            Some(n) => Interval::Seconds(n),
            None => Interval::Disabled,
        }
    }

    /// How the interval is written in the log (the `Display` form).
    pub fn to_text(&self) -> (r: String)
        ensures
            r@ == interval_text(*self),
    {
        match self {
            Interval::Disabled => string_from({
            let k: &[char] = &['0'];
            assert(k@ =~= seq!['0']);
            k
        }),
            Interval::Seconds(n) => {
                let mut s = String::new();
                push_decimal(&mut s, *n);
                assert(s@ =~= decimal(*n as nat));
                s
            },
            Interval::Range(lo, hi) => {
                let mut s = String::new();
                push_decimal(&mut s, *lo);
                crate::text::push_char(&mut s, '-');
                push_decimal(&mut s, *hi);
                assert(s@ =~= decimal(*lo as nat) + seq!['-'] + decimal(*hi as nat));
                s
            },
            Interval::OnChange => string_from({
            let k: &[char] = &['o', 'n', 'c', 'h', 'a', 'n', 'g', 'e'];
            assert(k@ =~= seq!['o', 'n', 'c', 'h', 'a', 'n', 'g', 'e']);
            k
        }),
            Interval::StartMessage => string_from({
            let k: &[char] = &['s', 't', 'a', 'r', 't', '-', 'm', 'e', 's', 's', 'a', 'g', 'e'];
            assert(k@ =~= seq!['s', 't', 'a', 'r', 't', '-', 'm', 'e', 's', 's', 'a', 'g', 'e']);
            k
        }),
            Interval::SuccessMessage => string_from({
            let k: &[char] = &['s', 'u', 'c', 'c', 'e', 's', 's', '-', 'm', 'e', 's', 's', 'a', 'g', 'e'];
            assert(k@ =~= seq!['s', 'u', 'c', 'c', 'e', 's', 's', '-', 'm', 'e', 's', 's', 'a', 'g', 'e']);
            k
        }),
            Interval::FailureMessage => string_from({
            let k: &[char] = &['f', 'a', 'i', 'l', 'u', 'r', 'e', '-', 'm', 'e', 's', 's', 'a', 'g', 'e'];
            assert(k@ =~= seq!['f', 'a', 'i', 'l', 'u', 'r', 'e', '-', 'm', 'e', 's', 's', 'a', 'g', 'e']);
            k
        }),
        }
    }
}

/// Where a job's output goes.
#[derive(Debug, Clone)]
pub enum Output {
    Passthrough,
    Discard,
    File(String),
}

/// The mathematical form of an `Output`.
pub enum OutputSpec {
    Passthrough,
    Discard,
    File(Seq<char>),
}

impl View for Output {
    type V = OutputSpec;

    open spec fn view(&self) -> OutputSpec {
        match self {
            Output::Passthrough => OutputSpec::Passthrough,
            Output::Discard => OutputSpec::Discard,
            Output::File(f) => OutputSpec::File(f@),
        }
    }
}

/// What `Output::parse` makes of a configuration value: `passthrough` and `none`
/// (ASCII case ignored), or else the trimmed value as a file name.
pub open spec fn spec_parse_output(s: Seq<char>) -> OutputSpec {
    let u = trim(s);
    if lower(u) == seq!['p', 'a', 's', 's', 't', 'h', 'r', 'o', 'u', 'g', 'h'] {
        OutputSpec::Passthrough
    } else if lower(u) == seq!['n', 'o', 'n', 'e'] {
        OutputSpec::Discard
    } else {
        OutputSpec::File(u)
    }
}

impl Output {
    /// Reads an `output` configuration value.
    pub fn parse(s: &str) -> (r: Output)
        ensures
            r@ == spec_parse_output(s@),
    {
        let v = chars_of(s);
        let (a, b) = trim_bounds(&v, 0, v.len());
        assert(v@.subrange(0, v@.len() as int) =~= v@);
        if equals_ci(&v, a, b, {
            let k: &[char] = &['p', 'a', 's', 's', 't', 'h', 'r', 'o', 'u', 'g', 'h'];
            assert(k@ =~= seq!['p', 'a', 's', 's', 't', 'h', 'r', 'o', 'u', 'g', 'h']);
            k
        }) {
            Output::Passthrough
        } else if equals_ci(&v, a, b, {
            let k: &[char] = &['n', 'o', 'n', 'e'];
            assert(k@ =~= seq!['n', 'o', 'n', 'e']);
            k
        }) {
            Output::Discard
        } else {
            Output::File(string_of(&v, a, b))
        }
    }

    /// A copy of the output setting.
    pub fn duplicate(&self) -> (r: Output)
        ensures
            r@ == self@,
    {
        match self {
            Output::Passthrough => Output::Passthrough,
            Output::Discard => Output::Discard,
            Output::File(f) => Output::File(f.clone()),
        }
    }
}

/// A configured job, with its run-time bookkeeping.
#[derive(Debug, Clone)]
pub struct Job {
    pub name: String,
    pub cmdline: Option<String>,
    pub user: String,
    /// empty when not configured: the job then runs with the group named like its user
    pub group: String,
    pub interval: Interval,
    pub period: Option<String>,
    pub conflicts: Vec<String>,
    pub depends: Vec<String>,
    pub watch: Vec<String>,
    pub notify_start: Vec<String>,
    pub notify_success: Vec<String>,
    pub notify_failure: Vec<String>,
    pub signal: Option<String>,
    pub output: Output,
    pub ionice: bool,
    pub nice: bool,
    /// Unix seconds of the last start, for interval comparison.
    pub exec_time_unix: u64,
    /// Sub-second part (microseconds) of the last start.
    pub exec_ms: u64,
}

/// The mathematical form of a `Job`.
pub struct JobSpec {
    pub name: Seq<char>,
    pub cmdline: Option<Seq<char>>,
    pub user: Seq<char>,
    pub group: Seq<char>,
    pub interval: Interval,
    pub period: Option<Seq<char>>,
    pub conflicts: Seq<Seq<char>>,
    pub depends: Seq<Seq<char>>,
    pub watch: Seq<Seq<char>>,
    pub notify_start: Seq<Seq<char>>,
    pub notify_success: Seq<Seq<char>>,
    pub notify_failure: Seq<Seq<char>>,
    pub signal: Option<Seq<char>>,
    pub output: OutputSpec,
    pub ionice: bool,
    pub nice: bool,
    pub exec_time_unix: u64,
    pub exec_ms: u64,
}

pub open spec fn opt_view(o: Option<String>) -> Option<Seq<char>> {
    match o {
        Some(s) => Some(s@),
        None => None,
    }
}

impl View for Job {
    type V = JobSpec;

    open spec fn view(&self) -> JobSpec {
        JobSpec {
            name: self.name@,
            cmdline: opt_view(self.cmdline),
            user: self.user@,
            group: self.group@,
            interval: self.interval,
            period: opt_view(self.period),
            conflicts: views(self.conflicts@),
            depends: views(self.depends@),
            watch: views(self.watch@),
            notify_start: views(self.notify_start@),
            notify_success: views(self.notify_success@),
            notify_failure: views(self.notify_failure@),
            signal: opt_view(self.signal),
            output: self.output@,
            ionice: self.ionice,
            nice: self.nice,
            exec_time_unix: self.exec_time_unix,
            exec_ms: self.exec_ms,
        }
    }
}

/// A job with nothing configured but its name: run as root, with no group of its own
/// (it then runs with the group named like its user), disabled, output passed through.
pub open spec fn default_job(name: Seq<char>) -> JobSpec {
    JobSpec {
        name: name,
        cmdline: None,
        user: seq!['r', 'o', 'o', 't'],
        group: seq![],
        interval: Interval::Disabled,
        period: None,
        conflicts: seq![],
        depends: seq![],
        watch: seq![],
        notify_start: seq![],
        notify_success: seq![],
        notify_failure: seq![],
        signal: None,
        output: OutputSpec::Passthrough,
        ionice: false,
        nice: false,
        exec_time_unix: 0,
        exec_ms: 0,
    }
}

/// The names in `ps` other than `x`, in order.
pub open spec fn without(ps: Seq<Seq<char>>, x: Seq<char>) -> Seq<Seq<char>>
    decreases ps.len(),
{
    if ps.len() == 0 {
        seq![]
    } else if ps.last() == x {
        without(ps.drop_last(), x)
    } else {
        without(ps.drop_last(), x).push(ps.last())
    }
}

/// The jobs that a `conflicts` or `depends` value names: with `*`, every other job
/// of the same file (from the newline-separated section list `all`); else the
/// value's non-blank lines.
pub open spec fn targets(val: Seq<char>, all: Seq<char>, name: Seq<char>) -> Seq<Seq<char>> {
    if trim(val) == seq!['*'] {
        without(multivalue(all), name)
    } else {
        multivalue(val)
    }
}

/// A job after one default (`[*]`) setting `key = val` is applied to it.
pub open spec fn spec_apply_field(j: JobSpec, key: Seq<char>, val: Seq<char>, all: Seq<char>) -> JobSpec {
    if key == seq!['c', 'm', 'd', 'l', 'i', 'n', 'e'] {
        JobSpec { cmdline: Some(val), ..j }
    } else if key == seq!['u', 's', 'e', 'r'] {
        JobSpec { user: val, ..j }
    } else if key == seq!['g', 'r', 'o', 'u', 'p'] {
        JobSpec { group: val, ..j }
    } else if key == seq!['i', 'n', 't', 'e', 'r', 'v', 'a', 'l'] {
        JobSpec { interval: spec_parse_interval(val), ..j }
    } else if key == seq!['p', 'e', 'r', 'i', 'o', 'd'] {
        JobSpec { period: Some(val), ..j }
    } else if key == seq!['c', 'o', 'n', 'f', 'l', 'i', 'c', 't', 's'] {
        JobSpec { conflicts: targets(val, all, j.name), ..j }
    } else if key == seq!['d', 'e', 'p', 'e', 'n', 'd', 's'] {
        JobSpec { depends: targets(val, all, j.name), ..j }
    } else if key == seq!['w', 'a', 't', 'c', 'h'] {
        JobSpec { watch: multivalue(val), ..j }
    } else if key == seq!['n', 'o', 't', 'i', 'f', 'y', '-', 's', 't', 'a', 'r', 't'] {
        JobSpec { notify_start: multivalue(val), ..j }
    } else if key == seq!['n', 'o', 't', 'i', 'f', 'y', '-', 's', 'u', 'c', 'c', 'e', 's', 's'] {
        JobSpec { notify_success: multivalue(val), ..j }
    } else if key == seq!['n', 'o', 't', 'i', 'f', 'y', '-', 'f', 'a', 'i', 'l', 'u', 'r', 'e'] {
        JobSpec { notify_failure: multivalue(val), ..j }
    } else if key == seq!['s', 'i', 'g', 'n', 'a', 'l'] {
        JobSpec { signal: Some(val), ..j }
    } else if key == seq!['o', 'u', 't', 'p', 'u', 't'] {
        JobSpec { output: spec_parse_output(val), ..j }
    } else if key == seq!['i', 'o', 'n', 'i', 'c', 'e'] {
        JobSpec { ionice: trim(val) == seq!['1'], ..j }
    } else if key == seq!['n', 'i', 'c', 'e'] {
        JobSpec { nice: trim(val) == seq!['1'], ..j }
    } else {
        j
    }
}

/// A copy of a list of strings.
pub fn copy_strings(v: &Vec<String>) -> (r: Vec<String>)
    ensures
        views(r@) == views(v@),
{
    let mut r: Vec<String> = Vec::new();
    let mut i: usize = 0;
    while i < v.len()
        invariant
            i <= v.len(),
            views(r@) == views(v@).take(i as int),
        decreases v.len() - i,
    {
        let ghost old_r = r@;
        let c = v[i].clone();
        r.push(c);
        assert(r@ == old_r.push(c));
        assert(c@ == v@[i as int]@);
        assert(views(r@) =~= views(old_r).push(c@));
        assert(views(r@) =~= views(v@).take(i + 1));
        i = i + 1;
    }
    assert(views(v@).take(v.len() as int) =~= views(v@));
    r
}

/// The strings of `ps` other than `x`, in order.
pub fn strings_without(ps: Vec<String>, x: &str) -> (r: Vec<String>)
    ensures
        views(r@) == without(views(ps@), x@),
{
    let mut r: Vec<String> = Vec::new();
    let mut i: usize = 0;
    while i < ps.len()
        invariant
            i <= ps.len(),
            views(r@) == without(views(ps@).take(i as int), x@),
        decreases ps.len() - i,
    {
        assert(views(ps@).take(i + 1).drop_last() =~= views(ps@).take(i as int));
        if !same_text(ps[i].as_str(), x) {
            r.push(ps[i].clone());
            assert(views(r@) =~= without(views(ps@).take(i as int), x@).push(ps@[i as int]@));
        }
        i = i + 1;
    }
    assert(views(ps@).take(ps.len() as int) =~= views(ps@));
    r
}

/// The jobs that a `conflicts` or `depends` value names.
pub fn target_list(val: &str, all: &str, name: &str) -> (r: Vec<String>)
    ensures
        views(r@) == targets(val@, all@, name@),
{
    let v = chars_of(val);
    let (a, b) = trim_bounds(&v, 0, v.len());
    assert(v@.subrange(0, v@.len() as int) =~= v@);
    if b - a == 1 && v[a] == '*' {
        assert(v@.subrange(a as int, b as int) =~= seq!['*']);
        strings_without(split_multivalue(all), name)
    } else {
        proof {
            let u = v@.subrange(a as int, b as int);
            if u =~= seq!['*'] {
                assert(u[0] == v@[a as int]);
                assert(u[0] == '*');
            }
        }
        split_multivalue(val)
    }
}

/// Whether a trimmed value is `1`.
fn is_one(val: &str) -> (r: bool)
    ensures
        r == (trim(val@) == seq!['1']),
{
    let v = chars_of(val);
    let (a, b) = trim_bounds(&v, 0, v.len());
    assert(v@.subrange(0, v@.len() as int) =~= v@);
    if b - a == 1 && v[a] == '1' {
        assert(v@.subrange(a as int, b as int) =~= seq!['1']);
        true
    } else {
        proof {
            let u = v@.subrange(a as int, b as int);
            if u =~= seq!['1'] {
                assert(u[0] == v@[a as int]);
                assert(u[0] == '1');
            }
        }
        false
    }
}

impl Job {
    /// A job with nothing configured but its name.
    pub fn default(name: &str) -> (j: Job)
        ensures
            j@ == default_job(name@),
    {
        let j = Job {
            name: crate::text::copy_string(name),
            cmdline: None,
            user: string_from({
            let k: &[char] = &['r', 'o', 'o', 't'];
            assert(k@ =~= seq!['r', 'o', 'o', 't']);
            k
        }),
            group: String::new(),
            interval: Interval::Disabled,
            period: None,
            conflicts: Vec::new(),
            depends: Vec::new(),
            watch: Vec::new(),
            notify_start: Vec::new(),
            notify_success: Vec::new(),
            notify_failure: Vec::new(),
            signal: None,
            output: Output::Passthrough,
            ionice: false,
            nice: false,
            exec_time_unix: 0,
            exec_ms: 0,
        };
        assert(views(j.conflicts@) =~= seq![]);
        assert(views(j.depends@) =~= seq![]);
        assert(views(j.watch@) =~= seq![]);
        assert(views(j.notify_start@) =~= seq![]);
        assert(views(j.notify_success@) =~= seq![]);
        assert(views(j.notify_failure@) =~= seq![]);
        j
    }
}

/// Applies one default (`[*]`) setting `key = val` to a job.
pub fn apply_field_from_str(job: &mut Job, key: &str, val: &str, all_sections: &str)
    ensures
        final(job)@ == spec_apply_field(old(job)@, key@, val@, all_sections@),
{
    let s = crate::text::copy_string(val);
    if text_is(key, {
            let k: &[char] = &['c', 'm', 'd', 'l', 'i', 'n', 'e'];
            assert(k@ =~= seq!['c', 'm', 'd', 'l', 'i', 'n', 'e']);
            k
        }) {
        job.cmdline = Some(s);
    } else if text_is(key, {
            let k: &[char] = &['u', 's', 'e', 'r'];
            assert(k@ =~= seq!['u', 's', 'e', 'r']);
            k
        }) {
        job.user = s;
    } else if text_is(key, {
            let k: &[char] = &['g', 'r', 'o', 'u', 'p'];
            assert(k@ =~= seq!['g', 'r', 'o', 'u', 'p']);
            k
        }) {
        job.group = s;
    } else if text_is(key, {
            let k: &[char] = &['i', 'n', 't', 'e', 'r', 'v', 'a', 'l'];
            assert(k@ =~= seq!['i', 'n', 't', 'e', 'r', 'v', 'a', 'l']);
            k
        }) {
        job.interval = Interval::parse(val);
    } else if text_is(key, {
            let k: &[char] = &['p', 'e', 'r', 'i', 'o', 'd'];
            assert(k@ =~= seq!['p', 'e', 'r', 'i', 'o', 'd']);
            k
        }) {
        job.period = Some(s);
    } else if text_is(key, {
            let k: &[char] = &['c', 'o', 'n', 'f', 'l', 'i', 'c', 't', 's'];
            assert(k@ =~= seq!['c', 'o', 'n', 'f', 'l', 'i', 'c', 't', 's']);
            k
        }) {
        job.conflicts = target_list(val, all_sections, job.name.as_str());
    } else if text_is(key, {
            let k: &[char] = &['d', 'e', 'p', 'e', 'n', 'd', 's'];
            assert(k@ =~= seq!['d', 'e', 'p', 'e', 'n', 'd', 's']);
            k
        }) {
        job.depends = target_list(val, all_sections, job.name.as_str());
    } else if text_is(key, {
            let k: &[char] = &['w', 'a', 't', 'c', 'h'];
            assert(k@ =~= seq!['w', 'a', 't', 'c', 'h']);
            k
        }) {
        job.watch = split_multivalue(val);
    } else if text_is(key, {
            let k: &[char] = &['n', 'o', 't', 'i', 'f', 'y', '-', 's', 't', 'a', 'r', 't'];
            assert(k@ =~= seq!['n', 'o', 't', 'i', 'f', 'y', '-', 's', 't', 'a', 'r', 't']);
            k
        }) {
        job.notify_start = split_multivalue(val);
    } else if text_is(key, {
            let k: &[char] = &['n', 'o', 't', 'i', 'f', 'y', '-', 's', 'u', 'c', 'c', 'e', 's', 's'];
            assert(k@ =~= seq!['n', 'o', 't', 'i', 'f', 'y', '-', 's', 'u', 'c', 'c', 'e', 's', 's']);
            k
        }) {
        job.notify_success = split_multivalue(val);
    } else if text_is(key, {
            let k: &[char] = &['n', 'o', 't', 'i', 'f', 'y', '-', 'f', 'a', 'i', 'l', 'u', 'r', 'e'];
            assert(k@ =~= seq!['n', 'o', 't', 'i', 'f', 'y', '-', 'f', 'a', 'i', 'l', 'u', 'r', 'e']);
            k
        }) {
        job.notify_failure = split_multivalue(val);
    } else if text_is(key, {
            let k: &[char] = &['s', 'i', 'g', 'n', 'a', 'l'];
            assert(k@ =~= seq!['s', 'i', 'g', 'n', 'a', 'l']);
            k
        }) {
        job.signal = Some(s);
    } else if text_is(key, {
            let k: &[char] = &['o', 'u', 't', 'p', 'u', 't'];
            assert(k@ =~= seq!['o', 'u', 't', 'p', 'u', 't']);
            k
        }) {
        job.output = Output::parse(val);
    } else if text_is(key, {
            let k: &[char] = &['i', 'o', 'n', 'i', 'c', 'e'];
            assert(k@ =~= seq!['i', 'o', 'n', 'i', 'c', 'e']);
            k
        }) {
        job.ionice = is_one(val);
    } else if text_is(key, {
            let k: &[char] = &['n', 'i', 'c', 'e'];
            assert(k@ =~= seq!['n', 'i', 'c', 'e']);
            k
        }) {
        job.nice = is_one(val);
    }
}

/// One configuration key and its value, if it has one.
pub type EntryView = (Seq<char>, Option<Seq<char>>);

/// A section's name and its entries.
pub type SectionView = (Seq<char>, Seq<EntryView>);

/// The execution times kept per job name across configuration reloads.
pub type ExecTimesView = Seq<(Seq<char>, u64, u64)>;

/// One section of a parsed INI file.
pub struct IniSection {
    pub name: String,
    pub entries: Vec<(String, Option<String>)>,
}

/// A parsed INI file: its sections, in the order the parser handed them out.
pub struct IniData {
    pub sections: Vec<IniSection>,
}

pub open spec fn entry_views(es: Seq<(String, Option<String>)>) -> Seq<EntryView> {
    es.map_values(|e: (String, Option<String>)| (e.0@, opt_view(e.1)))
}

impl View for IniSection {
    type V = SectionView;

    open spec fn view(&self) -> SectionView {
        (self.name@, entry_views(self.entries@))
    }
}

impl View for IniData {
    type V = Seq<SectionView>;

    open spec fn view(&self) -> Seq<SectionView> {
        self.sections@.map_values(|sec: IniSection| sec@)
    }
}

/// The value of `key` among the entries (`None` when the key is absent or has no value).
pub open spec fn entry_value(es: Seq<EntryView>, key: Seq<char>) -> Option<Seq<char>>
    decreases es.len(),
{
    if es.len() == 0 {
        None
    } else if es[0].0 == key {
        es[0].1
    } else {
        entry_value(es.drop_first(), key)
    }
}

pub open spec fn entries_map(es: Seq<EntryView>) -> Map<Seq<char>, Option<Seq<char>>>
    decreases es.len(),
{
    if es.len() == 0 {
        Map::empty()
    } else {
        entries_map(es.drop_last()).insert(es.last().0, es.last().1)
    }
}

/// The file as a map from section name to its map of keys.
pub open spec fn sections_map(ss: Seq<SectionView>) -> Map<Seq<char>, Map<Seq<char>, Option<Seq<char>>>>
    decreases ss.len(),
{
    if ss.len() == 0 {
        Map::empty()
    } else {
        sections_map(ss.drop_last()).insert(ss.last().0, entries_map(ss.last().1))
    }
}

/// Section names are distinct, and so are the keys within each section.
pub open spec fn ini_wf(ss: Seq<SectionView>) -> bool {
    &&& forall|i: int, j: int| 0 <= i < j < ss.len() ==> ss[i].0 != ss[j].0
    &&& forall|k: int, i: int, j: int|
        0 <= k < ss.len() && 0 <= i < j < ss[k].1.len() ==> ss[k].1[i].0 != ss[k].1[j].0
}

/// What configparser makes of an INI text read case-sensitively with `;` and `#` as
/// comment symbols: the map from section names to their key/value maps, or `None`
/// when the text does not parse.
pub uninterp spec fn ini_parse(text: Seq<char>) -> Option<
    Map<Seq<char>, Map<Seq<char>, Option<Seq<char>>>>,
>;

/// Parses INI text with configparser: `Ini::new_cs()` (case-sensitive keys and
/// sections), `set_comment_symbols(&[';', '#'])`, then `read`. The parsed map is
/// handed out section by section; configparser keeps it in a `HashMap`, so the order
/// of sections and of keys is not stated.
#[verifier::external_body]
fn parse_ini(text: &str) -> (r: Option<IniData>)
    ensures
        r is Some <==> ini_parse(text@) is Some,
        r matches Some(d) ==> ini_wf(d@) && sections_map(d@) == ini_parse(text@)->Some_0,
{
    let mut ini = configparser::ini::Ini::new_cs();
    ini.set_comment_symbols(&[';', '#']);
    match ini.read(text.to_string()) {
        Ok(map) => Some(IniData {
            sections: map.into_iter().map(|(name, kv)| IniSection {
                name,
                entries: kv.into_iter().collect(),
            }).collect(),
        }),
        Err(_) => None,
    }
}

/// The job after a non-empty `cmdline` setting of its section is applied.
pub open spec fn step_cmdline(j: JobSpec, es: Seq<EntryView>) -> JobSpec {
    match entry_value(es, seq!['c', 'm', 'd', 'l', 'i', 'n', 'e']) {
        Some(v) if v.len() > 0 => JobSpec { cmdline: Some(v), ..j },
        _ => j,
    }
}

/// The job after a non-empty `user` setting of its section is applied.
pub open spec fn step_user(j: JobSpec, es: Seq<EntryView>) -> JobSpec {
    match entry_value(es, seq!['u', 's', 'e', 'r']) {
        Some(v) if v.len() > 0 => JobSpec { user: v, ..j },
        _ => j,
    }
}

/// The job after a non-empty `group` setting of its section is applied.
pub open spec fn step_group(j: JobSpec, es: Seq<EntryView>) -> JobSpec {
    match entry_value(es, seq!['g', 'r', 'o', 'u', 'p']) {
        Some(v) if v.len() > 0 => JobSpec { group: v, ..j },
        _ => j,
    }
}

/// The job after a non-empty `interval` setting of its section is applied.
pub open spec fn step_interval(j: JobSpec, es: Seq<EntryView>) -> JobSpec {
    match entry_value(es, seq!['i', 'n', 't', 'e', 'r', 'v', 'a', 'l']) {
        Some(v) if v.len() > 0 => JobSpec { interval: spec_parse_interval(v), ..j },
        _ => j,
    }
}

/// The job after a non-empty `period` setting of its section is applied.
pub open spec fn step_period(j: JobSpec, es: Seq<EntryView>) -> JobSpec {
    match entry_value(es, seq!['p', 'e', 'r', 'i', 'o', 'd']) {
        Some(v) if v.len() > 0 => JobSpec { period: Some(v), ..j },
        _ => j,
    }
}

/// The job after a non-empty `signal` setting of its section is applied.
pub open spec fn step_signal(j: JobSpec, es: Seq<EntryView>) -> JobSpec {
    match entry_value(es, seq!['s', 'i', 'g', 'n', 'a', 'l']) {
        Some(v) if v.len() > 0 => JobSpec { signal: Some(v), ..j },
        _ => j,
    }
}

/// The job after a non-empty `output` setting of its section is applied.
pub open spec fn step_output(j: JobSpec, es: Seq<EntryView>) -> JobSpec {
    match entry_value(es, seq!['o', 'u', 't', 'p', 'u', 't']) {
        Some(v) if v.len() > 0 => JobSpec { output: spec_parse_output(v), ..j },
        _ => j,
    }
}

/// The job after a `conflicts` setting of its section that names some job is applied.
pub open spec fn step_conflicts(j: JobSpec, es: Seq<EntryView>, all: Seq<char>) -> JobSpec {
    match entry_value(es, seq!['c', 'o', 'n', 'f', 'l', 'i', 'c', 't', 's']) {
        Some(v) if targets(v, all, j.name).len() > 0 => JobSpec { conflicts: targets(v, all, j.name), ..j },
        _ => j,
    }
}

/// The job after a `depends` setting of its section that names some job is applied.
pub open spec fn step_depends(j: JobSpec, es: Seq<EntryView>, all: Seq<char>) -> JobSpec {
    match entry_value(es, seq!['d', 'e', 'p', 'e', 'n', 'd', 's']) {
        Some(v) if targets(v, all, j.name).len() > 0 => JobSpec { depends: targets(v, all, j.name), ..j },
        _ => j,
    }
}

/// The job after a `watch` setting of its section that names some path is applied.
pub open spec fn step_watch(j: JobSpec, es: Seq<EntryView>, all: Seq<char>) -> JobSpec {
    match entry_value(es, seq!['w', 'a', 't', 'c', 'h']) {
        Some(v) if multivalue(v).len() > 0 => JobSpec { watch: multivalue(v), ..j },
        _ => j,
    }
}

/// The job after a `notify-start` setting of its section that names some job is applied.
pub open spec fn step_notify_start(j: JobSpec, es: Seq<EntryView>, all: Seq<char>) -> JobSpec {
    match entry_value(es, seq!['n', 'o', 't', 'i', 'f', 'y', '-', 's', 't', 'a', 'r', 't']) {
        Some(v) if multivalue(v).len() > 0 => JobSpec { notify_start: multivalue(v), ..j },
        _ => j,
    }
}

/// The job after a `notify-success` setting of its section that names some job is applied.
pub open spec fn step_notify_success(j: JobSpec, es: Seq<EntryView>, all: Seq<char>) -> JobSpec {
    match entry_value(es, seq!['n', 'o', 't', 'i', 'f', 'y', '-', 's', 'u', 'c', 'c', 'e', 's', 's']) {
        Some(v) if multivalue(v).len() > 0 => JobSpec { notify_success: multivalue(v), ..j },
        _ => j,
    }
}

/// The job after a `notify-failure` setting of its section that names some job is applied.
pub open spec fn step_notify_failure(j: JobSpec, es: Seq<EntryView>, all: Seq<char>) -> JobSpec {
    match entry_value(es, seq!['n', 'o', 't', 'i', 'f', 'y', '-', 'f', 'a', 'i', 'l', 'u', 'r', 'e']) {
        Some(v) if multivalue(v).len() > 0 => JobSpec { notify_failure: multivalue(v), ..j },
        _ => j,
    }
}

/// The job after a `ionice` setting of its section is applied: on when the value is `1`.
pub open spec fn step_ionice(j: JobSpec, es: Seq<EntryView>) -> JobSpec {
    match entry_value(es, seq!['i', 'o', 'n', 'i', 'c', 'e']) {
        Some(v) => JobSpec { ionice: trim(v) == seq!['1'], ..j },
        None => j,
    }
}

/// The job after a `nice` setting of its section is applied: on when the value is `1`.
pub open spec fn step_nice(j: JobSpec, es: Seq<EntryView>) -> JobSpec {
    match entry_value(es, seq!['n', 'i', 'c', 'e']) {
        Some(v) => JobSpec { nice: trim(v) == seq!['1'], ..j },
        None => j,
    }
}

/// The job after the settings of its own section are applied, key by key: text
/// settings only when not empty, lists only when they name something, `ionice` and
/// `nice` whenever present.
pub open spec fn spec_apply_section(j: JobSpec, es: Seq<EntryView>, all: Seq<char>) -> JobSpec {
    step_nice(step_ionice(step_output(step_signal(step_notify_failure(step_notify_success(step_notify_start(step_watch(step_depends(step_conflicts(step_period(step_interval(step_group(step_user(step_cmdline(j, es), es), es), es), es), es, all), es, all), es, all), es, all), es, all), es, all), es), es), es), es)
}

/// The value of `key` in a section, as configparser's `get` gives it.
pub fn section_get(entries: &Vec<(String, Option<String>)>, key: &[char]) -> (r: Option<String>)
    ensures
        opt_view(r) == entry_value(entry_views(entries@), key@),
{
    let ghost es = entry_views(entries@);
    assert(es.skip(0) =~= es);
    let mut i: usize = 0;
    while i < entries.len()
        invariant
            i <= entries.len(),
            es == entry_views(entries@),
            entry_value(es, key@) == entry_value(es.skip(i as int), key@),
        decreases entries.len() - i,
    {
        assert(es.skip(i as int).drop_first() =~= es.skip(i + 1));
        if text_is(entries[i].0.as_str(), key) {
            return match &entries[i].1 {
                Some(v) => Some(v.clone()),
                None => None,
            };
        }
        i = i + 1;
    }
    None
}

fn set_cmdline(job: &mut Job, es: &Vec<(String, Option<String>)>)
    ensures
        final(job)@ == step_cmdline(old(job)@, entry_views(es@)),
{
    if let Some(v) = section_get(es, {
            let k: &[char] = &['c', 'm', 'd', 'l', 'i', 'n', 'e'];
            assert(k@ =~= seq!['c', 'm', 'd', 'l', 'i', 'n', 'e']);
            k
        }) {
        if !v.as_str().is_empty() {
            job.cmdline = Some(v);
        }
    }
}

fn set_user(job: &mut Job, es: &Vec<(String, Option<String>)>)
    ensures
        final(job)@ == step_user(old(job)@, entry_views(es@)),
{
    if let Some(v) = section_get(es, {
            let k: &[char] = &['u', 's', 'e', 'r'];
            assert(k@ =~= seq!['u', 's', 'e', 'r']);
            k
        }) {
        if !v.as_str().is_empty() {
            job.user = v;
        }
    }
}

fn set_group(job: &mut Job, es: &Vec<(String, Option<String>)>)
    ensures
        final(job)@ == step_group(old(job)@, entry_views(es@)),
{
    if let Some(v) = section_get(es, {
            let k: &[char] = &['g', 'r', 'o', 'u', 'p'];
            assert(k@ =~= seq!['g', 'r', 'o', 'u', 'p']);
            k
        }) {
        if !v.as_str().is_empty() {
            job.group = v;
        }
    }
}

fn set_interval(job: &mut Job, es: &Vec<(String, Option<String>)>)
    ensures
        final(job)@ == step_interval(old(job)@, entry_views(es@)),
{
    if let Some(v) = section_get(es, {
            let k: &[char] = &['i', 'n', 't', 'e', 'r', 'v', 'a', 'l'];
            assert(k@ =~= seq!['i', 'n', 't', 'e', 'r', 'v', 'a', 'l']);
            k
        }) {
        if !v.as_str().is_empty() {
            job.interval = Interval::parse(v.as_str());
        }
    }
}

fn set_period(job: &mut Job, es: &Vec<(String, Option<String>)>)
    ensures
        final(job)@ == step_period(old(job)@, entry_views(es@)),
{
    if let Some(v) = section_get(es, {
            let k: &[char] = &['p', 'e', 'r', 'i', 'o', 'd'];
            assert(k@ =~= seq!['p', 'e', 'r', 'i', 'o', 'd']);
            k
        }) {
        if !v.as_str().is_empty() {
            job.period = Some(v);
        }
    }
}

fn set_signal(job: &mut Job, es: &Vec<(String, Option<String>)>)
    ensures
        final(job)@ == step_signal(old(job)@, entry_views(es@)),
{
    if let Some(v) = section_get(es, {
            let k: &[char] = &['s', 'i', 'g', 'n', 'a', 'l'];
            assert(k@ =~= seq!['s', 'i', 'g', 'n', 'a', 'l']);
            k
        }) {
        if !v.as_str().is_empty() {
            job.signal = Some(v);
        }
    }
}

fn set_output(job: &mut Job, es: &Vec<(String, Option<String>)>)
    ensures
        final(job)@ == step_output(old(job)@, entry_views(es@)),
{
    if let Some(v) = section_get(es, {
            let k: &[char] = &['o', 'u', 't', 'p', 'u', 't'];
            assert(k@ =~= seq!['o', 'u', 't', 'p', 'u', 't']);
            k
        }) {
        if !v.as_str().is_empty() {
            job.output = Output::parse(v.as_str());
        }
    }
}

fn set_conflicts(job: &mut Job, es: &Vec<(String, Option<String>)>, all: &str)
    ensures
        final(job)@ == step_conflicts(old(job)@, entry_views(es@), all@),
{
    if let Some(v) = section_get(es, {
            let k: &[char] = &['c', 'o', 'n', 'f', 'l', 'i', 'c', 't', 's'];
            assert(k@ =~= seq!['c', 'o', 'n', 'f', 'l', 'i', 'c', 't', 's']);
            k
        }) {
        let t = target_list(v.as_str(), all, job.name.as_str());
        if t.len() > 0 {
            job.conflicts = t;
        }
    }
}

fn set_depends(job: &mut Job, es: &Vec<(String, Option<String>)>, all: &str)
    ensures
        final(job)@ == step_depends(old(job)@, entry_views(es@), all@),
{
    if let Some(v) = section_get(es, {
            let k: &[char] = &['d', 'e', 'p', 'e', 'n', 'd', 's'];
            assert(k@ =~= seq!['d', 'e', 'p', 'e', 'n', 'd', 's']);
            k
        }) {
        let t = target_list(v.as_str(), all, job.name.as_str());
        if t.len() > 0 {
            job.depends = t;
        }
    }
}

fn set_watch(job: &mut Job, es: &Vec<(String, Option<String>)>, all: &str)
    ensures
        final(job)@ == step_watch(old(job)@, entry_views(es@), all@),
{
    if let Some(v) = section_get(es, {
            let k: &[char] = &['w', 'a', 't', 'c', 'h'];
            assert(k@ =~= seq!['w', 'a', 't', 'c', 'h']);
            k
        }) {
        let t = split_multivalue(v.as_str());
        if t.len() > 0 {
            job.watch = t;
        }
    }
}

fn set_notify_start(job: &mut Job, es: &Vec<(String, Option<String>)>, all: &str)
    ensures
        final(job)@ == step_notify_start(old(job)@, entry_views(es@), all@),
{
    if let Some(v) = section_get(es, {
            let k: &[char] = &['n', 'o', 't', 'i', 'f', 'y', '-', 's', 't', 'a', 'r', 't'];
            assert(k@ =~= seq!['n', 'o', 't', 'i', 'f', 'y', '-', 's', 't', 'a', 'r', 't']);
            k
        }) {
        let t = split_multivalue(v.as_str());
        if t.len() > 0 {
            job.notify_start = t;
        }
    }
}

fn set_notify_success(job: &mut Job, es: &Vec<(String, Option<String>)>, all: &str)
    ensures
        final(job)@ == step_notify_success(old(job)@, entry_views(es@), all@),
{
    if let Some(v) = section_get(es, {
            let k: &[char] = &['n', 'o', 't', 'i', 'f', 'y', '-', 's', 'u', 'c', 'c', 'e', 's', 's'];
            assert(k@ =~= seq!['n', 'o', 't', 'i', 'f', 'y', '-', 's', 'u', 'c', 'c', 'e', 's', 's']);
            k
        }) {
        let t = split_multivalue(v.as_str());
        if t.len() > 0 {
            job.notify_success = t;
        }
    }
}

fn set_notify_failure(job: &mut Job, es: &Vec<(String, Option<String>)>, all: &str)
    ensures
        final(job)@ == step_notify_failure(old(job)@, entry_views(es@), all@),
{
    if let Some(v) = section_get(es, {
            let k: &[char] = &['n', 'o', 't', 'i', 'f', 'y', '-', 'f', 'a', 'i', 'l', 'u', 'r', 'e'];
            assert(k@ =~= seq!['n', 'o', 't', 'i', 'f', 'y', '-', 'f', 'a', 'i', 'l', 'u', 'r', 'e']);
            k
        }) {
        let t = split_multivalue(v.as_str());
        if t.len() > 0 {
            job.notify_failure = t;
        }
    }
}

fn set_ionice(job: &mut Job, es: &Vec<(String, Option<String>)>)
    ensures
        final(job)@ == step_ionice(old(job)@, entry_views(es@)),
{
    if let Some(v) = section_get(es, {
            let k: &[char] = &['i', 'o', 'n', 'i', 'c', 'e'];
            assert(k@ =~= seq!['i', 'o', 'n', 'i', 'c', 'e']);
            k
        }) {
        job.ionice = is_one(v.as_str());
    }
}

fn set_nice(job: &mut Job, es: &Vec<(String, Option<String>)>)
    ensures
        final(job)@ == step_nice(old(job)@, entry_views(es@)),
{
    if let Some(v) = section_get(es, {
            let k: &[char] = &['n', 'i', 'c', 'e'];
            assert(k@ =~= seq!['n', 'i', 'c', 'e']);
            k
        }) {
        job.nice = is_one(v.as_str());
    }
}

/// Applies the settings of a job's own section.
pub fn apply_ini_section(job: &mut Job, section: &IniSection, all_sections: &str)
    ensures
        final(job)@ == spec_apply_section(old(job)@, section@.1, all_sections@),
{
    let es = &section.entries;
    set_cmdline(job, es);
    set_user(job, es);
    set_group(job, es);
    set_interval(job, es);
    set_period(job, es);
    set_conflicts(job, es, all_sections);
    set_depends(job, es, all_sections);
    set_watch(job, es, all_sections);
    set_notify_start(job, es, all_sections);
    set_notify_success(job, es, all_sections);
    set_notify_failure(job, es, all_sections);
    set_signal(job, es);
    set_output(job, es);
    set_ionice(job, es);
    set_nice(job, es);
}

/// The first section of the file with the given name.
pub open spec fn section_entries(d: Seq<SectionView>, name: Seq<char>) -> Option<Seq<EntryView>>
    decreases d.len(),
{
    if d.len() == 0 {
        None
    } else if d[0].0 == name {
        Some(d[0].1)
    } else {
        section_entries(d.drop_first(), name)
    }
}

/// The entries that have a non-empty value, as (key, value) pairs.
pub open spec fn default_settings(es: Seq<EntryView>) -> Seq<(Seq<char>, Seq<char>)>
    decreases es.len(),
{
    if es.len() == 0 {
        seq![]
    } else {
        let rest = default_settings(es.drop_last());
        match es.last().1 {
            Some(v) if v.len() > 0 => rest.push((es.last().0, v)),
            _ => rest,
        }
    }
}

/// The default settings of a file: those of its `[*]` section.
pub open spec fn file_defaults(d: Seq<SectionView>) -> Seq<(Seq<char>, Seq<char>)> {
    match section_entries(d, seq!['*']) {
        Some(es) => default_settings(es),
        None => seq![],
    }
}

/// A job after each of the default settings is applied, in order.
pub open spec fn apply_defaults(j: JobSpec, ds: Seq<(Seq<char>, Seq<char>)>, all: Seq<char>) -> JobSpec
    decreases ds.len(),
{
    if ds.len() == 0 {
        j
    } else {
        spec_apply_field(apply_defaults(j, ds.drop_last(), all), ds.last().0, ds.last().1, all)
    }
}

/// The names of the file's sections other than `[*]`.
pub open spec fn job_section_names(d: Seq<SectionView>) -> Seq<Seq<char>>
    decreases d.len(),
{
    if d.len() == 0 {
        seq![]
    } else if d.last().0 == seq!['*'] {
        job_section_names(d.drop_last())
    } else {
        job_section_names(d.drop_last()).push(d.last().0)
    }
}

/// The lines joined with newlines.
pub open spec fn join_lines(ns: Seq<Seq<char>>) -> Seq<char>
    decreases ns.len(),
{
    if ns.len() == 0 {
        seq![]
    } else if ns.len() == 1 {
        ns[0]
    } else {
        join_lines(ns.drop_last()) + seq!['\n'] + ns.last()
    }
}

/// The execution times last recorded for a job name (later records win).
pub open spec fn prev_lookup(p: ExecTimesView, name: Seq<char>) -> Option<(u64, u64)>
    decreases p.len(),
{
    if p.len() == 0 {
        None
    } else if p.last().0 == name {
        Some((p.last().1, p.last().2))
    } else {
        prev_lookup(p.drop_last(), name)
    }
}

/// The job that section `k` of file `d` describes: defaults, then the file's `[*]`
/// settings, then the section's own, with the execution times carried over.
pub open spec fn spec_build_job(d: Seq<SectionView>, k: int, prev: ExecTimesView) -> JobSpec {
    let name = d[k].0;
    let all = join_lines(job_section_names(d));
    let j = spec_apply_section(apply_defaults(default_job(name), file_defaults(d), all), d[k].1, all);
    match prev_lookup(prev, name) {
        Some((et, em)) => JobSpec { exec_time_unix: et, exec_ms: em, ..j },
        None => j,
    }
}

/// Loading state: the jobs kept so far and the section names seen so far.
pub type LoadState = (Seq<JobSpec>, Set<Seq<char>>);

/// A built job is kept: it has a command line, and its period, if any, is valid.
pub open spec fn job_kept(j: JobSpec) -> bool {
    &&& j.cmdline is Some
    &&& match j.period {
        Some(p) => spec_valid_period(p),
        None => true,
    }
}

/// Takes section `k` of file `d`: `[*]` and names already seen are skipped; a job
/// without a command line or with an invalid period is dropped, but its name counts
/// as seen.
pub open spec fn load_step(st: LoadState, d: Seq<SectionView>, k: int, prev: ExecTimesView) -> LoadState {
    let name = d[k].0;
    if name == seq!['*'] || st.1.contains(name) {
        st
    } else {
        let j = spec_build_job(d, k, prev);
        (if job_kept(j) {
            st.0.push(j)
        } else {
            st.0
        }, st.1.insert(name))
    }
}

pub open spec fn load_sections(st: LoadState, d: Seq<SectionView>, k: int, prev: ExecTimesView) -> LoadState
    decreases k,
{
    if k <= 0 {
        st
    } else {
        load_step(load_sections(st, d, k - 1, prev), d, k - 1, prev)
    }
}

pub open spec fn load_files(fs: Seq<Seq<SectionView>>, n: int, prev: ExecTimesView) -> LoadState
    decreases n,
{
    if n <= 0 {
        (seq![], Set::empty())
    } else {
        load_sections(load_files(fs, n - 1, prev), fs[n - 1], fs[n - 1].len() as int, prev)
    }
}

proof fn lemma_apply_defaults_name(j: JobSpec, ds: Seq<(Seq<char>, Seq<char>)>, all: Seq<char>)
    ensures
        apply_defaults(j, ds, all).name == j.name,
        apply_defaults(j, ds, all).exec_time_unix == j.exec_time_unix,
        apply_defaults(j, ds, all).exec_ms == j.exec_ms,
    decreases ds.len(),
{
    if ds.len() > 0 {
        lemma_apply_defaults_name(j, ds.drop_last(), all);
    }
}

/// The settings of a section, applied to a job, decide the fields they set and keep
/// the job's name.
proof fn lemma_apply_section(j: JobSpec, es: Seq<EntryView>, all: Seq<char>)
    ensures
        spec_apply_section(j, es, all).name == j.name,
        spec_apply_section(j, es, all).exec_time_unix == j.exec_time_unix,
        spec_apply_section(j, es, all).exec_ms == j.exec_ms,
        !section_sets(es, seq!['c', 'm', 'd', 'l', 'i', 'n', 'e']) ==> spec_apply_section(j, es, all).cmdline == j.cmdline,
        !section_sets(es, seq!['u', 's', 'e', 'r']) ==> spec_apply_section(j, es, all).user == j.user,
        !section_sets(es, seq!['g', 'r', 'o', 'u', 'p']) ==> spec_apply_section(j, es, all).group == j.group,
        !section_sets(es, seq!['i', 'n', 't', 'e', 'r', 'v', 'a', 'l']) ==> spec_apply_section(j, es, all).interval == j.interval,
        !section_sets(es, seq!['p', 'e', 'r', 'i', 'o', 'd']) ==> spec_apply_section(j, es, all).period == j.period,
        !section_sets(es, seq!['s', 'i', 'g', 'n', 'a', 'l']) ==> spec_apply_section(j, es, all).signal == j.signal,
        !section_sets(es, seq!['o', 'u', 't', 'p', 'u', 't']) ==> spec_apply_section(j, es, all).output == j.output,
        ({
            let r = spec_apply_section(j, es, all);
            let name = j.name;
            &&& match entry_value(es, seq!['c', 'm', 'd', 'l', 'i', 'n', 'e']) {
                Some(v) => v.len() > 0 ==> r.cmdline == Some(v),
                None => true,
            }
            &&& match entry_value(es, seq!['u', 's', 'e', 'r']) {
                Some(v) => v.len() > 0 ==> r.user == v,
                None => true,
            }
            &&& match entry_value(es, seq!['g', 'r', 'o', 'u', 'p']) {
                Some(v) => v.len() > 0 ==> r.group == v,
                None => true,
            }
            &&& match entry_value(es, seq!['i', 'n', 't', 'e', 'r', 'v', 'a', 'l']) {
                Some(v) => v.len() > 0 ==> r.interval == spec_parse_interval(v),
                None => true,
            }
            &&& match entry_value(es, seq!['p', 'e', 'r', 'i', 'o', 'd']) {
                Some(v) => v.len() > 0 ==> r.period == Some(v),
                None => true,
            }
            &&& match entry_value(es, seq!['s', 'i', 'g', 'n', 'a', 'l']) {
                Some(v) => v.len() > 0 ==> r.signal == Some(v),
                None => true,
            }
            &&& match entry_value(es, seq!['o', 'u', 't', 'p', 'u', 't']) {
                Some(v) => v.len() > 0 ==> r.output == spec_parse_output(v),
                None => true,
            }
            &&& match entry_value(es, seq!['c', 'o', 'n', 'f', 'l', 'i', 'c', 't', 's']) {
                Some(v) => targets(v, all, name).len() > 0 ==> r.conflicts == targets(v, all, name),
                None => true,
            }
            &&& match entry_value(es, seq!['d', 'e', 'p', 'e', 'n', 'd', 's']) {
                Some(v) => targets( v, all, name, ).len() > 0 ==> r.depends == targets(v, all, name),
                None => true,
            }
            &&& match entry_value(es, seq!['w', 'a', 't', 'c', 'h']) {
                Some(v) => multivalue(v).len() > 0 ==> r.watch == multivalue(v),
                None => true,
            }
            &&& match entry_value(es, seq!['n', 'o', 't', 'i', 'f', 'y', '-', 's', 't', 'a', 'r', 't']) {
                Some(v) => multivalue(v).len() > 0 ==> r.notify_start == multivalue(v),
                None => true,
            }
            &&& match entry_value(es, seq!['n', 'o', 't', 'i', 'f', 'y', '-', 's', 'u', 'c', 'c', 'e', 's', 's']) {
                Some(v) => multivalue(v).len() > 0 ==> r.notify_success == multivalue(v),
                None => true,
            }
            &&& match entry_value(es, seq!['n', 'o', 't', 'i', 'f', 'y', '-', 'f', 'a', 'i', 'l', 'u', 'r', 'e']) {
                Some(v) => multivalue(v).len() > 0 ==> r.notify_failure == multivalue(v),
                None => true,
            }
            &&& match entry_value(es, seq!['i', 'o', 'n', 'i', 'c', 'e']) {
                Some(v) => r.ionice == ( trim(v) == seq!['1']),
                None => true,
            }
            &&& match entry_value(es, seq!['n', 'i', 'c', 'e']) {
                Some(v) => r.nice == (trim(v) == seq!['1']),
                None => true,
            }
        }),
{
    let j1 = step_cmdline(j, es);
    let j2 = step_user(j1, es);
    let j3 = step_group(j2, es);
    let j4 = step_interval(j3, es);
    let j5 = step_period(j4, es);
    let j6 = step_conflicts(j5, es, all);
    let j7 = step_depends(j6, es, all);
    let j8 = step_watch(j7, es, all);
    let j9 = step_notify_start(j8, es, all);
    let j10 = step_notify_success(j9, es, all);
    let j11 = step_notify_failure(j10, es, all);
    let j12 = step_signal(j11, es);
    let j13 = step_output(j12, es);
    let j14 = step_ionice(j13, es);
    let j15 = step_nice(j14, es);
    assert(j15 == spec_apply_section(j, es, all));
    assert(j1.name == j.name && j2.name == j.name && j3.name == j.name && j4.name == j.name);
    assert(j5.name == j.name && j6.name == j.name && j7.name == j.name && j8.name == j.name);
    assert(j9.name == j.name && j10.name == j.name && j11.name == j.name && j12.name == j.name);
    assert(j13.name == j.name && j14.name == j.name && j15.name == j.name);
    assert(j15.cmdline == j1.cmdline);
    assert(j15.user == j2.user);
    assert(j15.group == j3.group);
    assert(j15.interval == j4.interval);
    assert(j15.period == j5.period);
    assert(j15.conflicts == j6.conflicts);
    assert(j15.depends == j7.depends);
    assert(j15.watch == j8.watch);
    assert(j15.notify_start == j9.notify_start);
    assert(j15.notify_success == j10.notify_success);
    assert(j15.notify_failure == j11.notify_failure);
    assert(j15.signal == j12.signal);
    assert(j15.output == j13.output);
    assert(j15.ionice == j14.ionice);
    assert(j15.exec_time_unix == j.exec_time_unix && j15.exec_ms == j.exec_ms);
    assert(j1.user == j.user && j2.group == j.group && j3.interval == j.interval);
    assert(j4.period == j.period && j11.signal == j.signal && j12.output == j.output);
}

/// The job has the execution times last recorded for its name in `prev`, or zero
/// times when none are recorded.
pub open spec fn exec_times_carried(prev: ExecTimesView, j: JobSpec) -> bool {
    (j.exec_time_unix, j.exec_ms) == match prev_lookup(prev, j.name) {
        Some(p) => p,
        None => (0u64, 0u64),
    }
}

/// The job built from a section carries the section's name, and the execution times
/// last recorded for that name (zero when none are).
proof fn lemma_build_job_name(d: Seq<SectionView>, k: int, prev: ExecTimesView)
    ensures
        spec_build_job(d, k, prev).name == d[k].0,
        exec_times_carried(prev, spec_build_job(d, k, prev)),
{
    let all = join_lines(job_section_names(d));
    let j0 = apply_defaults(default_job(d[k].0), file_defaults(d), all);
    lemma_apply_defaults_name(default_job(d[k].0), file_defaults(d), all);
    lemma_apply_section(j0, d[k].1, all);
}

/// The section sets `key` to a non-empty value.
pub open spec fn section_sets(es: Seq<EntryView>, key: Seq<char>) -> bool {
    entry_value(es, key) matches Some(v) && v.len() > 0
}

/// The value that the last of the default settings for `key` gives, if any.
pub open spec fn default_value(ds: Seq<(Seq<char>, Seq<char>)>, key: Seq<char>) -> Option<Seq<char>>
    decreases ds.len(),
{
    if ds.len() == 0 {
        None
    } else if ds.last().0 == key {
        Some(ds.last().1)
    } else {
        default_value(ds.drop_last(), key)
    }
}

proof fn lemma_apply_defaults_fields(j: JobSpec, ds: Seq<(Seq<char>, Seq<char>)>, all: Seq<char>)
    ensures
        match default_value(ds, seq!['c', 'm', 'd', 'l', 'i', 'n', 'e']) {
            Some(v) => apply_defaults(j, ds, all).cmdline == Some(v),
            None => true,
        },
        match default_value(ds, seq!['u', 's', 'e', 'r']) {
            Some(v) => apply_defaults(j, ds, all).user == v,
            None => true,
        },
        match default_value(ds, seq!['g', 'r', 'o', 'u', 'p']) {
            Some(v) => apply_defaults(j, ds, all).group == v,
            None => true,
        },
        match default_value(ds, seq!['i', 'n', 't', 'e', 'r', 'v', 'a', 'l']) {
            Some(v) => apply_defaults(j, ds, all).interval == spec_parse_interval(v),
            None => true,
        },
        match default_value(ds, seq!['p', 'e', 'r', 'i', 'o', 'd']) {
            Some(v) => apply_defaults(j, ds, all).period == Some(v),
            None => true,
        },
        match default_value(ds, seq!['s', 'i', 'g', 'n', 'a', 'l']) {
            Some(v) => apply_defaults(j, ds, all).signal == Some(v),
            None => true,
        },
        match default_value(ds, seq!['o', 'u', 't', 'p', 'u', 't']) {
            Some(v) => apply_defaults(j, ds, all).output == spec_parse_output(v),
            None => true,
        },
    decreases ds.len(),
{
    if ds.len() > 0 {
        lemma_apply_defaults_fields(j, ds.drop_last(), all);
    }
}

/// A `[*]` default applies to every job of the file whose own section does not set
/// the key: the job's command line, user, group, interval, period, signal and output
/// are what the last `[*]` setting of that key gives.
pub proof fn lemma_defaults_apply(d: Seq<SectionView>, k: int, prev: ExecTimesView)
    ensures
        !section_sets(d[k].1, seq!['c', 'm', 'd', 'l', 'i', 'n', 'e']) ==> match default_value(file_defaults(d), seq!['c', 'm', 'd', 'l', 'i', 'n', 'e']) {
            Some(v) => spec_build_job(d, k, prev).cmdline == Some(v),
            None => true,
        },
        !section_sets(d[k].1, seq!['u', 's', 'e', 'r']) ==> match default_value(file_defaults(d), seq!['u', 's', 'e', 'r']) {
            Some(v) => spec_build_job(d, k, prev).user == v,
            None => true,
        },
        !section_sets(d[k].1, seq!['g', 'r', 'o', 'u', 'p']) ==> match default_value(file_defaults(d), seq!['g', 'r', 'o', 'u', 'p']) {
            Some(v) => spec_build_job(d, k, prev).group == v,
            None => true,
        },
        !section_sets(d[k].1, seq!['i', 'n', 't', 'e', 'r', 'v', 'a', 'l']) ==> match default_value(file_defaults(d), seq!['i', 'n', 't', 'e', 'r', 'v', 'a', 'l']) {
            Some(v) => spec_build_job(d, k, prev).interval == spec_parse_interval(v),
            None => true,
        },
        !section_sets(d[k].1, seq!['p', 'e', 'r', 'i', 'o', 'd']) ==> match default_value(file_defaults(d), seq!['p', 'e', 'r', 'i', 'o', 'd']) {
            Some(v) => spec_build_job(d, k, prev).period == Some(v),
            None => true,
        },
        !section_sets(d[k].1, seq!['s', 'i', 'g', 'n', 'a', 'l']) ==> match default_value(file_defaults(d), seq!['s', 'i', 'g', 'n', 'a', 'l']) {
            Some(v) => spec_build_job(d, k, prev).signal == Some(v),
            None => true,
        },
        !section_sets(d[k].1, seq!['o', 'u', 't', 'p', 'u', 't']) ==> match default_value(file_defaults(d), seq!['o', 'u', 't', 'p', 'u', 't']) {
            Some(v) => spec_build_job(d, k, prev).output == spec_parse_output(v),
            None => true,
        },
{
    let all = join_lines(job_section_names(d));
    let j0 = apply_defaults(default_job(d[k].0), file_defaults(d), all);
    lemma_apply_defaults_fields(default_job(d[k].0), file_defaults(d), all);
    lemma_apply_section(j0, d[k].1, all);
}

/// A setting in a job's own section wins over the file's `[*]` defaults: a
/// non-empty command line, user, group, interval, period, signal or output, a
/// conflicts, depends, watch or notify list that names something, and any `ionice`
/// or `nice` value given in the section are the job's, whatever the defaults say.
pub proof fn lemma_section_overrides_defaults(d: Seq<SectionView>, k: int, prev: ExecTimesView)
    ensures
        ({
            let es = d[k].1;
            let j = spec_build_job(d, k, prev);
            let all = join_lines(job_section_names(d));
            let name = d[k].0;
            &&& match entry_value(es, seq!['c', 'm', 'd', 'l', 'i', 'n', 'e']) {
                Some(v) => v.len() > 0 ==> j.cmdline == Some(v),
                None => true,
            }
            &&& match entry_value(es, seq!['u', 's', 'e', 'r']) {
                Some(v) => v.len() > 0 ==> j.user == v,
                None => true,
            }
            &&& match entry_value(es, seq!['g', 'r', 'o', 'u', 'p']) {
                Some(v) => v.len() > 0 ==> j.group == v,
                None => true,
            }
            &&& match entry_value(es, seq!['i', 'n', 't', 'e', 'r', 'v', 'a', 'l']) {
                Some(v) => v.len() > 0 ==> j.interval == spec_parse_interval(v),
                None => true,
            }
            &&& match entry_value(es, seq!['p', 'e', 'r', 'i', 'o', 'd']) {
                Some(v) => v.len() > 0 ==> j.period == Some(v),
                None => true,
            }
            &&& match entry_value(es, seq!['s', 'i', 'g', 'n', 'a', 'l']) {
                Some(v) => v.len() > 0 ==> j.signal == Some(v),
                None => true,
            }
            &&& match entry_value(es, seq!['o', 'u', 't', 'p', 'u', 't']) {
                Some(v) => v.len() > 0 ==> j.output == spec_parse_output(v),
                None => true,
            }
            &&& match entry_value(es, seq!['c', 'o', 'n', 'f', 'l', 'i', 'c', 't', 's']) {
                Some(v) => targets(v, all, name).len() > 0 ==> j.conflicts == targets(v, all, name),
                None => true,
            }
            &&& match entry_value(es, seq!['d', 'e', 'p', 'e', 'n', 'd', 's']) {
                Some(v) => targets( v, all, name, ).len() > 0 ==> j.depends == targets(v, all, name),
                None => true,
            }
            &&& match entry_value(es, seq!['w', 'a', 't', 'c', 'h']) {
                Some(v) => multivalue(v).len() > 0 ==> j.watch == multivalue(v),
                None => true,
            }
            &&& match entry_value(es, seq!['n', 'o', 't', 'i', 'f', 'y', '-', 's', 't', 'a', 'r', 't']) {
                Some(v) => multivalue(v).len() > 0 ==> j.notify_start == multivalue(v),
                None => true,
            }
            &&& match entry_value(es, seq!['n', 'o', 't', 'i', 'f', 'y', '-', 's', 'u', 'c', 'c', 'e', 's', 's']) {
                Some(v) => multivalue(v).len() > 0 ==> j.notify_success == multivalue(v),
                None => true,
            }
            &&& match entry_value(es, seq!['n', 'o', 't', 'i', 'f', 'y', '-', 'f', 'a', 'i', 'l', 'u', 'r', 'e']) {
                Some(v) => multivalue(v).len() > 0 ==> j.notify_failure == multivalue(v),
                None => true,
            }
            &&& match entry_value(es, seq!['i', 'o', 'n', 'i', 'c', 'e']) {
                Some(v) => j.ionice == ( trim(v) == seq!['1']),
                None => true,
            }
            &&& match entry_value(es, seq!['n', 'i', 'c', 'e']) {
                Some(v) => j.nice == (trim(v) == seq!['1']),
                None => true,
            }
        }),
{
    let all = join_lines(job_section_names(d));
    let j0 = apply_defaults(default_job(d[k].0), file_defaults(d), all);
    lemma_apply_defaults_name(default_job(d[k].0), file_defaults(d), all);
    lemma_apply_section(j0, d[k].1, all);
}

/// The jobs kept so far have distinct names, none of them `*`, and each name is
/// among those seen.
pub open spec fn jobs_named_apart(st: LoadState) -> bool {
    &&& forall|a: int, b: int| 0 <= a < b < st.0.len() ==> st.0[a].name != st.0[b].name
    &&& forall|a: int| 0 <= a < st.0.len() ==> st.1.contains(#[trigger] st.0[a].name)
    &&& forall|a: int| 0 <= a < st.0.len() ==> (#[trigger] st.0[a]).name != seq!['*']
}

proof fn lemma_load_sections_apart(st: LoadState, d: Seq<SectionView>, k: int, prev: ExecTimesView)
    requires
        jobs_named_apart(st),
    ensures
        jobs_named_apart(load_sections(st, d, k, prev)),
    decreases k,
{
    if k > 0 {
        lemma_load_sections_apart(st, d, k - 1, prev);
        lemma_build_job_name(d, k - 1, prev);
        let s1 = load_sections(st, d, k - 1, prev);
        let s2 = load_step(s1, d, k - 1, prev);
        assert(jobs_named_apart(s2)) by {
            if !(d[k - 1].0 == seq!['*'] || s1.1.contains(d[k - 1].0)) {
                let j = spec_build_job(d, k - 1, prev);
                if job_kept(j) {
                    assert forall|a: int, b: int| 0 <= a < b < s2.0.len() implies s2.0[a].name
                        != s2.0[b].name by {
                        if b == s1.0.len() {
                            assert(s1.1.contains(s1.0[a].name));
                        } else {
                            assert(s2.0[a] == s1.0[a]);
                            assert(s2.0[b] == s1.0[b]);
                        }
                    }
                    assert forall|a: int| 0 <= a < s2.0.len() implies s2.1.contains(
                        #[trigger] s2.0[a].name,
                    ) by {
                        if a < s1.0.len() {
                            assert(s2.0[a] == s1.0[a]);
                        }
                    }
                    assert forall|a: int| 0 <= a < s2.0.len() implies (#[trigger] s2.0[a]).name
                        != seq!['*'] by {
                        if a < s1.0.len() {
                            assert(s2.0[a] == s1.0[a]);
                        }
                    }
                }
            }
        }
    }
}

proof fn lemma_load_files_apart(fs: Seq<Seq<SectionView>>, n: int, prev: ExecTimesView)
    ensures
        jobs_named_apart(load_files(fs, n, prev)),
    decreases n,
{
    if n > 0 {
        lemma_load_files_apart(fs, n - 1, prev);
        lemma_load_sections_apart(load_files(fs, n - 1, prev), fs[n - 1], fs[n - 1].len() as int, prev);
    }
}

proof fn lemma_load_sections_times(st: LoadState, d: Seq<SectionView>, k: int, prev: ExecTimesView)
    requires
        forall|a: int| 0 <= a < st.0.len() ==> exec_times_carried(prev, #[trigger] st.0[a]),
    ensures
        forall|a: int|
            0 <= a < load_sections(st, d, k, prev).0.len() ==> exec_times_carried(
                prev,
                #[trigger] load_sections(st, d, k, prev).0[a],
            ),
    decreases k,
{
    if k > 0 {
        lemma_load_sections_times(st, d, k - 1, prev);
        lemma_build_job_name(d, k - 1, prev);
        let s1 = load_sections(st, d, k - 1, prev);
        let s2 = load_step(s1, d, k - 1, prev);
        assert forall|a: int| 0 <= a < s2.0.len() implies exec_times_carried(prev, #[trigger] s2.0[a]) by {
            if a < s1.0.len() {
                assert(s2.0[a] == s1.0[a]);
            }
        }
    }
}

proof fn lemma_load_files_times(fs: Seq<Seq<SectionView>>, n: int, prev: ExecTimesView)
    ensures
        forall|a: int|
            0 <= a < load_files(fs, n, prev).0.len() ==> exec_times_carried(
                prev,
                #[trigger] load_files(fs, n, prev).0[a],
            ),
    decreases n,
{
    if n > 0 {
        lemma_load_files_times(fs, n - 1, prev);
        lemma_load_sections_times(load_files(fs, n - 1, prev), fs[n - 1], fs[n - 1].len() as int, prev);
    }
}

/// Execution times are carried over: each loaded job has the times last recorded for
/// its name, or zero times when none are recorded.
pub proof fn lemma_exec_times_carried(fs: Seq<Seq<SectionView>>, prev: ExecTimesView)
    ensures
        forall|a: int|
            0 <= a < spec_load_jobs(fs, prev).len() ==> exec_times_carried(
                prev,
                #[trigger] spec_load_jobs(fs, prev)[a],
            ),
{
    lemma_load_files_times(fs, fs.len() as int, prev);
}

/// The execution times that `save_exec_times` records for a list of jobs.
pub open spec fn saved_times(js: Seq<JobSpec>) -> ExecTimesView {
    js.map_values(|j: JobSpec| (j.name, j.exec_time_unix, j.exec_ms))
}

proof fn lemma_saved_lookup(js: Seq<JobSpec>, name: Seq<char>)
    requires
        forall|a: int, b: int| 0 <= a < b < js.len() ==> js[a].name != js[b].name,
    ensures
        prev_lookup(saved_times(js), name) == (if exists|b: int| 0 <= b < js.len() && #[trigger] js[b].name == name {
            let b = choose|b: int| 0 <= b < js.len() && #[trigger] js[b].name == name;
            Some((js[b].exec_time_unix, js[b].exec_ms))
        } else {
            None::<(u64, u64)>
        }),
    decreases js.len(),
{
    if js.len() > 0 {
        let init = js.drop_last();
        assert(saved_times(js).drop_last() =~= saved_times(init));
        lemma_saved_lookup(init, name);
        if js.last().name == name {
            let b = choose|b: int| 0 <= b < js.len() && #[trigger] js[b].name == name;
            assert(b == js.len() - 1) by {
                if b < js.len() - 1 {
                    assert(js[b].name != js[js.len() - 1].name);
                }
            }
        } else {
            if exists|b: int| 0 <= b < js.len() && #[trigger] js[b].name == name {
                let b = choose|b: int| 0 <= b < js.len() && #[trigger] js[b].name == name;
                assert(init[b].name == name);
                let c = choose|c: int| 0 <= c < init.len() && #[trigger] init[c].name == name;
                assert(c == b) by {
                    if c < b {
                        assert(js[c].name != js[b].name);
                    } else if b < c {
                        assert(js[b].name != js[c].name);
                    }
                }
            }
            if exists|c: int| 0 <= c < init.len() && #[trigger] init[c].name == name {
                let c = choose|c: int| 0 <= c < init.len() && #[trigger] init[c].name == name;
                assert(js[c].name == name);
            }
        }
    } else {
        assert(saved_times(js) =~= Seq::<(Seq<char>, u64, u64)>::empty());
    }
}

/// A reload keeps each job's execution times: loading with the times saved from a
/// list of jobs with distinct names gives every loaded job the times of the job of
/// the same name in that list, and zero times to a job that was not in it.
pub proof fn lemma_reload_keeps_exec_times(fs: Seq<Seq<SectionView>>, old_jobs: Seq<JobSpec>)
    requires
        forall|a: int, b: int| 0 <= a < b < old_jobs.len() ==> old_jobs[a].name != old_jobs[b].name,
    ensures
        forall|a: int, b: int|
            0 <= a < spec_load_jobs(fs, saved_times(old_jobs)).len() && 0 <= b < old_jobs.len()
                && (#[trigger] spec_load_jobs(fs, saved_times(old_jobs))[a]).name == (#[trigger] old_jobs[b]).name
                ==> spec_load_jobs(fs, saved_times(old_jobs))[a].exec_time_unix == old_jobs[b].exec_time_unix
                && spec_load_jobs(fs, saved_times(old_jobs))[a].exec_ms == old_jobs[b].exec_ms,
        forall|a: int|
            0 <= a < spec_load_jobs(fs, saved_times(old_jobs)).len() && !(exists|b: int|
                0 <= b < old_jobs.len() && #[trigger] old_jobs[b].name == spec_load_jobs(
                    fs,
                    saved_times(old_jobs),
                )[a].name) ==> (#[trigger] spec_load_jobs(fs, saved_times(old_jobs))[a]).exec_time_unix == 0
                && spec_load_jobs(fs, saved_times(old_jobs))[a].exec_ms == 0,
{
    let prev = saved_times(old_jobs);
    let js = spec_load_jobs(fs, prev);
    lemma_exec_times_carried(fs, prev);
    assert forall|a: int, b: int|
        0 <= a < js.len() && 0 <= b < old_jobs.len() && (#[trigger] js[a]).name == (#[trigger] old_jobs[b]).name
        implies js[a].exec_time_unix == old_jobs[b].exec_time_unix && js[a].exec_ms == old_jobs[b].exec_ms by {
        lemma_saved_lookup(old_jobs, js[a].name);
        assert(exec_times_carried(prev, js[a]));
        let c = choose|c: int| 0 <= c < old_jobs.len() && #[trigger] old_jobs[c].name == js[a].name;
        assert(c == b) by {
            if c < b {
                assert(old_jobs[c].name != old_jobs[b].name);
            } else if b < c {
                assert(old_jobs[b].name != old_jobs[c].name);
            }
        }
    }
    assert forall|a: int|
        0 <= a < js.len() && !(exists|b: int| 0 <= b < old_jobs.len() && #[trigger] old_jobs[b].name == js[a].name)
        implies (#[trigger] js[a]).exec_time_unix == 0 && js[a].exec_ms == 0 by {
        lemma_saved_lookup(old_jobs, js[a].name);
        assert(exec_times_carried(prev, js[a]));
    }
}

/// Job names are unique: no two loaded jobs share a name, whether their sections
/// stand in one file or in several, and no job is named `*`.
pub proof fn lemma_job_names_unique(fs: Seq<Seq<SectionView>>, prev: ExecTimesView)
    ensures
        forall|a: int, b: int|
            0 <= a < b < spec_load_jobs(fs, prev).len() ==> (#[trigger] spec_load_jobs(fs, prev)[a]).name
                != (#[trigger] spec_load_jobs(fs, prev)[b]).name,
        forall|a: int|
            0 <= a < spec_load_jobs(fs, prev).len() ==> (#[trigger] spec_load_jobs(fs, prev)[a]).name
                != seq!['*'],
{
    lemma_load_files_apart(fs, fs.len() as int, prev);
}

/// The jobs that a sequence of parsed configuration files describes, in order.
/// (Whether a job's command can be executed is checked by the caller, on the file
/// system.)
pub open spec fn spec_load_jobs(fs: Seq<Seq<SectionView>>, prev: ExecTimesView) -> Seq<JobSpec> {
    load_files(fs, fs.len() as int, prev).0
}

pub open spec fn job_views(js: Seq<Job>) -> Seq<JobSpec> {
    js.map_values(|j: Job| j@)
}

pub open spec fn file_views(fs: Seq<IniData>) -> Seq<Seq<SectionView>> {
    fs.map_values(|d: IniData| d@)
}

pub open spec fn exec_times_views(p: Seq<(String, u64, u64)>) -> ExecTimesView {
    p.map_values(|e: (String, u64, u64)| (e.0@, e.1, e.2))
}

/// The names of the file's job sections joined with newlines.
fn section_list_text(d: &IniData) -> (r: String)
    ensures
        r@ == join_lines(job_section_names(d@)),
{
    let ghost dv = d@;
    let mut r = String::new();
    let mut count: usize = 0;
    let mut i: usize = 0;
    while i < d.sections.len()
        invariant
            i <= d.sections.len(),
            dv == d@,
            r@ == join_lines(job_section_names(dv.take(i as int))),
            count == job_section_names(dv.take(i as int)).len(),
            count <= i,
        decreases d.sections.len() - i,
    {
        assert(dv.take(i + 1).drop_last() =~= dv.take(i as int));
        assert(dv.take(i + 1).last() == d.sections@[i as int]@);
        let name = d.sections[i].name.as_str();
        if !text_is(name, {
            let k: &[char] = &['*'];
            assert(k@ =~= seq!['*']);
            k
        }) {
            let ghost before = r@;
            if count > 0 {
                crate::text::push_char(&mut r, '\n');
            }
            let ghost mid = r@;
            r.append(name);
            proof {
                let ns = job_section_names(dv.take(i + 1));
                assert(ns.drop_last() == job_section_names(dv.take(i as int)));
                if count == 0 {
                    assert(r@ =~= ns[0]);
                } else {
                    assert(r@ =~= before + seq!['\n'] + ns.last());
                }
            }
            count = count + 1;
        }
        i = i + 1;
    }
    assert(dv.take(d.sections.len() as int) =~= dv);
    r
}

/// The non-empty settings of the file's `[*]` section, as (key, value) pairs.
fn default_pairs(d: &IniData) -> (r: Vec<(String, String)>)
    ensures
        r@.map_values(|p: (String, String)| (p.0@, p.1@)) == file_defaults(d@),
{
    let ghost dv = d@;
    let mut r: Vec<(String, String)> = Vec::new();
    let mut i: usize = 0;
    assert(dv.skip(0) =~= dv);
    while i < d.sections.len()
        invariant
            i <= d.sections.len(),
            dv == d@,
            section_entries(dv, seq!['*']) == section_entries(dv.skip(i as int), seq!['*']),
            r@.len() == 0,
        decreases d.sections.len() - i,
    {
        assert(dv.skip(i as int).drop_first() =~= dv.skip(i + 1));
        assert(dv.skip(i as int)[0] == d.sections@[i as int]@);
        if text_is(d.sections[i].name.as_str(), {
            let k: &[char] = &['*'];
            assert(k@ =~= seq!['*']);
            k
        }) {
            let es = &d.sections[i].entries;
            let ghost ev = entry_views(es@);
            let mut k: usize = 0;
            while k < es.len()
                invariant
                    k <= es.len(),
                    ev == entry_views(es@),
                    r@.map_values(|p: (String, String)| (p.0@, p.1@)) == default_settings(
                        ev.take(k as int),
                    ),
                decreases es.len() - k,
            {
                assert(ev.take(k + 1).drop_last() =~= ev.take(k as int));
                if let Some(v) = &es[k].1 {
                    if !v.as_str().is_empty() {
                        let ghost before = r@;
                        let key = es[k].0.clone();
                        let val = v.clone();
                        r.push((key, val));
                        assert(r@.map_values(|p: (String, String)| (p.0@, p.1@)) =~= before.map_values(
                            |p: (String, String)| (p.0@, p.1@),
                        ).push((ev[k as int].0, ev[k as int].1->Some_0)));
                    }
                }
                k = k + 1;
            }
            assert(ev.take(es.len() as int) =~= ev);
            return r;
        }
        i = i + 1;
    }
    assert(r@.map_values(|p: (String, String)| (p.0@, p.1@)) =~= seq![]);
    r
}

/// The execution times recorded for `name`, if any (later records win).
fn lookup_exec_times(prev: &Vec<(String, u64, u64)>, name: &str) -> (r: Option<(u64, u64)>)
    ensures
        r == prev_lookup(exec_times_views(prev@), name@),
{
    let ghost pv = exec_times_views(prev@);
    let mut i = prev.len();
    assert(pv.take(prev.len() as int) =~= pv);
    while i > 0
        invariant
            i <= prev.len(),
            pv == exec_times_views(prev@),
            prev_lookup(pv, name@) == prev_lookup(pv.take(i as int), name@),
        decreases i,
    {
        assert(pv.take(i as int).drop_last() =~= pv.take(i - 1));
        if same_text(prev[i - 1].0.as_str(), name) {
            return Some((prev[i - 1].1, prev[i - 1].2));
        }
        i = i - 1;
    }
    None
}

/// Applies the default settings in order.
fn apply_default_pairs(job: &mut Job, ds: &Vec<(String, String)>, all: &str)
    ensures
        final(job)@ == apply_defaults(old(job)@, ds@.map_values(|p: (String, String)| (p.0@, p.1@)), all@),
{
    let ghost dv = ds@.map_values(|p: (String, String)| (p.0@, p.1@));
    let ghost j0 = job@;
    let mut i: usize = 0;
    while i < ds.len()
        invariant
            i <= ds.len(),
            dv == ds@.map_values(|p: (String, String)| (p.0@, p.1@)),
            job@ == apply_defaults(j0, dv.take(i as int), all@),
        decreases ds.len() - i,
    {
        assert(dv.take(i + 1).drop_last() =~= dv.take(i as int));
        apply_field_from_str(job, ds[i].0.as_str(), ds[i].1.as_str(), all);
        i = i + 1;
    }
    assert(dv.take(ds.len() as int) =~= dv);
}

/// Builds the job that section `k` of file `d` describes.
fn build_job(
    d: &IniData,
    k: usize,
    defaults: &Vec<(String, String)>,
    all: &str,
    prev: &Vec<(String, u64, u64)>,
) -> (j: Job)
    requires
        k < d.sections.len(),
        defaults@.map_values(|p: (String, String)| (p.0@, p.1@)) == file_defaults(d@),
        all@ == join_lines(job_section_names(d@)),
    ensures
        j@ == spec_build_job(d@, k as int, exec_times_views(prev@)),
{
    let sec = &d.sections[k];
    assert(d@[k as int] == sec@);
    let mut job = Job::default(sec.name.as_str());
    apply_default_pairs(&mut job, defaults, all);
    apply_ini_section(&mut job, sec, all);
    match lookup_exec_times(prev, sec.name.as_str()) {
        Some((et, em)) => {
            job.exec_time_unix = et;
            job.exec_ms = em;
        },
        None => {},
    }
    job
}

/// Whether `name` is among the strings.
fn contains_text(names: &Vec<String>, name: &str) -> (r: bool)
    ensures
        r == views(names@).contains(name@),
{
    let mut i: usize = 0;
    while i < names.len()
        invariant
            i <= names.len(),
            forall|j: int| 0 <= j < i ==> names@[j]@ != name@,
        decreases names.len() - i,
    {
        if same_text(names[i].as_str(), name) {
            assert(views(names@)[i as int] == name@);
            return true;
        }
        i = i + 1;
    }
    proof {
        if views(names@).contains(name@) {
            let j = choose|j: int| 0 <= j < views(names@).len() && views(names@)[j] == name@;
            assert(names@[j]@ == name@);
        }
    }
    false
}

/// Takes section `k` of file `d` into the jobs and the seen names.
fn take_section(
    jobs: &mut Vec<Job>,
    seen: &mut Vec<String>,
    d: &IniData,
    k: usize,
    defaults: &Vec<(String, String)>,
    all: &str,
    prev: &Vec<(String, u64, u64)>,
    Ghost(st): Ghost<LoadState>,
)
    requires
        k < d.sections.len(),
        defaults@.map_values(|p: (String, String)| (p.0@, p.1@)) == file_defaults(d@),
        all@ == join_lines(job_section_names(d@)),
        job_views(old(jobs)@) == st.0,
        forall|x: Seq<char>| #[trigger] st.1.contains(x) <==> views(old(seen)@).contains(x),
    ensures
        job_views(final(jobs)@) == load_step(st, d@, k as int, exec_times_views(prev@)).0,
        forall|x: Seq<char>|
            #[trigger] load_step(st, d@, k as int, exec_times_views(prev@)).1.contains(x)
                <==> views(final(seen)@).contains(x),
{
    let name = d.sections[k].name.as_str();
    assert(d@[k as int].0 == name@);
    if text_is(name, {
            let k: &[char] = &['*'];
            assert(k@ =~= seq!['*']);
            k
        }) {
        return;
    }
    if contains_text(seen, name) {
        return;
    }
    let ghost old_seen = views(seen@);
    seen.push(d.sections[k].name.clone());
    assert(views(seen@) =~= old_seen.push(name@));
    proof {
        let ns = views(seen@);
        assert forall|x: Seq<char>| st.1.insert(name@).contains(x) <==> ns.contains(x) by {
            if ns.contains(x) {
                let j = choose|j: int| 0 <= j < ns.len() && ns[j] == x;
                if j < old_seen.len() {
                    assert(old_seen[j] == x);
                }
            }
            if old_seen.contains(x) {
                let j = choose|j: int| 0 <= j < old_seen.len() && old_seen[j] == x;
                assert(ns[j] == x);
            }
            if x == name@ {
                assert(ns[old_seen.len() as int] == x);
            }
        }
    }
    let job = build_job(d, k, defaults, all, prev);
    let keep = match &job.period {
        Some(period) => is_valid_period(period.as_str()),
        None => true,
    };
    if keep && job.cmdline.is_some() {
        let ghost old_jobs = job_views(jobs@);
        jobs.push(job);
        assert(job_views(jobs@) =~= old_jobs.push(job@));
    }
}

/// Builds the jobs of parsed configuration files, in order: a section name already
/// taken by an earlier section is skipped, and so is a job without a command line or
/// with an invalid period.
pub fn jobs_from_ini(files: &Vec<IniData>, prev: &Vec<(String, u64, u64)>) -> (jobs: Vec<Job>)
    ensures
        job_views(jobs@) == spec_load_jobs(file_views(files@), exec_times_views(prev@)),
{
    let ghost fs = file_views(files@);
    let ghost pv = exec_times_views(prev@);
    let mut jobs: Vec<Job> = Vec::new();
    let mut seen: Vec<String> = Vec::new();
    let mut fi: usize = 0;
    while fi < files.len()
        invariant
            fi <= files.len(),
            fs == file_views(files@),
            pv == exec_times_views(prev@),
            job_views(jobs@) == load_files(fs, fi as int, pv).0,
            forall|x: Seq<char>| #[trigger] load_files(fs, fi as int, pv).1.contains(x) <==> views(seen@).contains(x),
        decreases files.len() - fi,
    {
        let d = &files[fi];
        assert(fs[fi as int] == d@);
        let all = section_list_text(d);
        let defaults = default_pairs(d);
        let ghost st0 = load_files(fs, fi as int, pv);
        let mut k: usize = 0;
        while k < d.sections.len()
            invariant
                k <= d.sections.len(),
                fs == file_views(files@),
                pv == exec_times_views(prev@),
                fs[fi as int] == d@,
                all@ == join_lines(job_section_names(d@)),
                defaults@.map_values(|p: (String, String)| (p.0@, p.1@)) == file_defaults(d@),
                job_views(jobs@) == load_sections(st0, d@, k as int, pv).0,
                forall|x: Seq<char>| #[trigger] load_sections(st0, d@, k as int, pv).1.contains(x) <==> views(seen@).contains(x),
            decreases d.sections.len() - k,
        {
            take_section(
                &mut jobs,
                &mut seen,
                d,
                k,
                &defaults,
                all.as_str(),
                prev,
                Ghost(load_sections(st0, d@, k as int, pv)),
            );
            k = k + 1;
        }
        fi = fi + 1;
    }
    jobs
}

/// The parse results of the texts that parse, in order.
pub open spec fn parsed_texts(texts: Seq<Seq<char>>) -> Seq<Map<Seq<char>, Map<Seq<char>, Option<Seq<char>>>>>
    decreases texts.len(),
{
    if texts.len() == 0 {
        seq![]
    } else {
        match ini_parse(texts.last()) {
            Some(m) => parsed_texts(texts.drop_last()).push(m),
            None => parsed_texts(texts.drop_last()),
        }
    }
}

/// Parses the texts of the configuration files, in order, and builds their jobs. A
/// text that does not parse is skipped. The order of sections within a file is the
/// parser's, so the contract states that the jobs are those of some well-formed
/// section lists with the parsed contents.
pub fn load_config_texts(texts: &Vec<String>, prev: &Vec<(String, u64, u64)>) -> (jobs: Vec<Job>)
    ensures
        exists|fs: Seq<Seq<SectionView>>|
            #![trigger spec_load_jobs(fs, exec_times_views(prev@))]
            {
                &&& fs.len() == parsed_texts(views(texts@)).len()
                &&& forall|i: int|
                    0 <= i < fs.len() ==> ini_wf(#[trigger] fs[i]) && sections_map(fs[i])
                        == parsed_texts(views(texts@))[i]
                &&& job_views(jobs@) == spec_load_jobs(fs, exec_times_views(prev@))
            },
{
    let ghost tv = views(texts@);
    let mut files: Vec<IniData> = Vec::new();
    let mut i: usize = 0;
    while i < texts.len()
        invariant
            i <= texts.len(),
            tv == views(texts@),
            file_views(files@).len() == parsed_texts(tv.take(i as int)).len(),
            forall|j: int|
                0 <= j < files@.len() ==> ini_wf(#[trigger] file_views(files@)[j]) && sections_map(
                    file_views(files@)[j],
                ) == parsed_texts(tv.take(i as int))[j],
        decreases texts.len() - i,
    {
        assert(tv.take(i + 1).drop_last() =~= tv.take(i as int));
        assert(tv.take(i + 1).last() == texts@[i as int]@);
        let ghost before = file_views(files@);
        match parse_ini(texts[i].as_str()) {
            Some(d) => {
                files.push(d);
                assert(file_views(files@) =~= before.push(d@));
            },
            None => {},
        }
        i = i + 1;
    }
    assert(tv.take(texts.len() as int) =~= tv);
    let jobs = jobs_from_ini(&files, prev);
    assert(job_views(jobs@) == spec_load_jobs(file_views(files@), exec_times_views(prev@)));
    jobs
}

/// The execution times of the jobs, by name, to carry over a configuration reload.
pub fn save_exec_times(jobs: &Vec<Job>) -> (r: Vec<(String, u64, u64)>)
    ensures
        exec_times_views(r@) == saved_times(job_views(jobs@)),
{
    let mut r: Vec<(String, u64, u64)> = Vec::new();
    let mut i: usize = 0;
    while i < jobs.len()
        invariant
            i <= jobs.len(),
            exec_times_views(r@) == job_views(jobs@).map_values(
                |j: JobSpec| (j.name, j.exec_time_unix, j.exec_ms),
            ).take(i as int),
        decreases jobs.len() - i,
    {
        let ghost before = exec_times_views(r@);
        let name = jobs[i].name.clone();
        r.push((name, jobs[i].exec_time_unix, jobs[i].exec_ms));
        assert(exec_times_views(r@) =~= before.push((jobs@[i as int].name@, jobs@[i as int].exec_time_unix, jobs@[i as int].exec_ms)));
        assert(exec_times_views(r@) =~= job_views(jobs@).map_values(
            |j: JobSpec| (j.name, j.exec_time_unix, j.exec_ms),
        ).take(i + 1));
        i = i + 1;
    }
    assert(job_views(jobs@).map_values(|j: JobSpec| (j.name, j.exec_time_unix, j.exec_ms)).take(
        jobs.len() as int,
    ) =~= job_views(jobs@).map_values(|j: JobSpec| (j.name, j.exec_time_unix, j.exec_ms)));
    r
}

/// `s` ends with `x`.
pub open spec fn has_suffix(s: Seq<char>, x: Seq<char>) -> bool {
    x.len() <= s.len() && s.skip(s.len() - x.len()) == x
}

/// A file of the configuration directory that is not read: a backup (`~`), a file a
/// package manager left (`dpkg-old`), or a hidden file.
pub open spec fn ignored_config_name(f: Seq<char>) -> bool {
    has_suffix(f, seq!['d', 'p', 'k', 'g', '-', 'o', 'l', 'd']) || has_suffix(f, seq!['~']) || (f.len() > 0 && f[0] == '.')
}

/// `a` comes no later than `b` in lexicographic order of characters (which is the
/// byte order of their UTF-8 encodings, the order of `String`).
pub open spec fn text_le(a: Seq<char>, b: Seq<char>) -> bool
    decreases a.len(),
{
    if a.len() == 0 {
        true
    } else if b.len() == 0 {
        false
    } else if a[0] != b[0] {
        (a[0] as u32) < (b[0] as u32)
    } else {
        text_le(a.drop_first(), b.drop_first())
    }
}

/// Where `x` goes in a list sorted by `text_le`: after every entry no later than it.
pub open spec fn text_insert_pos(s: Seq<Seq<char>>, x: Seq<char>) -> int
    decreases s.len(),
{
    if s.len() == 0 {
        0
    } else if !text_le(s[0], x) {
        0
    } else {
        1 + text_insert_pos(s.drop_first(), x)
    }
}

/// The strings in lexicographic order.
pub open spec fn sort_texts(s: Seq<Seq<char>>) -> Seq<Seq<char>>
    decreases s.len(),
{
    if s.len() == 0 {
        seq![]
    } else {
        let r = sort_texts(s.drop_last());
        r.insert(text_insert_pos(r, s.last()), s.last())
    }
}

/// The paths of the directory entries (file name, path) whose names are not ignored.
pub open spec fn kept_config_paths(es: Seq<(Seq<char>, Seq<char>)>) -> Seq<Seq<char>>
    decreases es.len(),
{
    if es.len() == 0 {
        seq![]
    } else if ignored_config_name(es.last().0) {
        kept_config_paths(es.drop_last())
    } else {
        kept_config_paths(es.drop_last()).push(es.last().1)
    }
}

/// The position of the first whitespace character of `t`, or its length.
pub open spec fn word_end(t: Seq<char>) -> int
    decreases t.len(),
{
    if t.len() == 0 || is_ws(t[0]) {
        0
    } else {
        1 + word_end(t.drop_first())
    }
}

/// The first whitespace-separated word of a command line (what
/// `split_whitespace().next()` gives); empty when the line is blank.
pub open spec fn spec_command_word(s: Seq<char>) -> Seq<char> {
    trim_start(s).take(word_end(trim_start(s)))
}

/// The program a command line runs: its first whitespace-separated word.
pub fn command_word(cmdline: &str) -> (r: String)
    ensures
        r@ == spec_command_word(cmdline@),
{
    let v = chars_of(cmdline);
    let n = v.len();
    let a = skip_ws(&v, 0, n);
    let ghost t = v@.subrange(a as int, n as int);
    assert(v@.subrange(0, n as int) =~= cmdline@);
    let mut e = a;
    while e < n && !is_whitespace(v[e])
        invariant
            a <= e <= n,
            n == v.len(),
            t == v@.subrange(a as int, n as int),
            word_end(t) == (e - a) + word_end(v@.subrange(e as int, n as int)),
        decreases n - e,
    {
        assert(v@.subrange(e as int, n as int).drop_first() =~= v@.subrange(e + 1, n as int));
        e = e + 1;
    }
    assert(word_end(v@.subrange(e as int, n as int)) == 0);
    assert(t.take(e - a) =~= v@.subrange(a as int, e as int));
    string_of(&v, a, e)
}

/// Whether `a` comes no later than `b`.
pub fn text_le_exec(a: &str, b: &str) -> (r: bool)
    ensures
        r == text_le(a@, b@),
{
    let va = chars_of(a);
    let vb = chars_of(b);
    let mut i: usize = 0;
    assert(va@.skip(0) =~= va@);
    assert(vb@.skip(0) =~= vb@);
    while i < va.len() && i < vb.len() && va[i] == vb[i]
        invariant
            i <= va.len(),
            i <= vb.len(),
            va@ == a@,
            vb@ == b@,
            text_le(a@, b@) == text_le(va@.skip(i as int), vb@.skip(i as int)),
        decreases va.len() - i,
    {
        assert(va@.skip(i as int).drop_first() =~= va@.skip(i + 1));
        assert(vb@.skip(i as int).drop_first() =~= vb@.skip(i + 1));
        i = i + 1;
    }
    if i == va.len() {
        return true;
    }
    if i == vb.len() {
        return false;
    }
    (va[i] as u32) < (vb[i] as u32)
}

/// Whether `s` ends with `x`.
fn ends_with(s: &Vec<char>, x: &[char]) -> (r: bool)
    ensures
        r == has_suffix(s@, x@),
{
    if x.len() > s.len() {
        return false;
    }
    let off = s.len() - x.len();
    let mut i: usize = 0;
    while i < x.len()
        invariant
            off + x.len() == s.len(),
            i <= x.len(),
            forall|k: int| 0 <= k < i ==> s@[off + k] == x@[k],
        decreases x.len() - i,
    {
        if s[off + i] != x[i] {
            assert(s@.skip(off as int)[i as int] != x@[i as int]);
            return false;
        }
        i = i + 1;
    }
    assert(s@.skip(off as int) =~= x@);
    true
}

/// Whether a configuration directory file name is skipped.
pub fn is_ignored_config_name(fname: &str) -> (r: bool)
    ensures
        r == ignored_config_name(fname@),
{
    let v = chars_of(fname);
    ends_with(&v, {
            let k: &[char] = &['d', 'p', 'k', 'g', '-', 'o', 'l', 'd'];
            assert(k@ =~= seq!['d', 'p', 'k', 'g', '-', 'o', 'l', 'd']);
            k
        }) || ends_with(&v, {
            let k: &[char] = &['~'];
            assert(k@ =~= seq!['~']);
            k
        }) || (v.len() > 0 && v[0] == '.')
}

/// The configuration files to read: the main file, then the files of the
/// configuration directory (given as file name and path) that are not ignored, in
/// the order of their paths.
pub fn config_files(default_cfg: &str, entries: &Vec<(String, String)>) -> (r: Vec<String>)
    ensures
        views(r@) == seq![default_cfg@] + sort_texts(
            kept_config_paths(entries@.map_values(|e: (String, String)| (e.0@, e.1@))),
        ),
{
    let ghost ev = entries@.map_values(|e: (String, String)| (e.0@, e.1@));
    let mut kept: Vec<String> = Vec::new();
    let mut i: usize = 0;
    while i < entries.len()
        invariant
            i <= entries.len(),
            ev == entries@.map_values(|e: (String, String)| (e.0@, e.1@)),
            views(kept@) == kept_config_paths(ev.take(i as int)),
        decreases entries.len() - i,
    {
        assert(ev.take(i + 1).drop_last() =~= ev.take(i as int));
        if !is_ignored_config_name(entries[i].0.as_str()) {
            let ghost before = kept@;
            let p = entries[i].1.clone();
            kept.push(p);
            assert(kept@ == before.push(p));
            assert(views(kept@) =~= views(before).push(p@));
        }
        i = i + 1;
    }
    assert(ev.take(entries.len() as int) =~= ev);
    let ghost kv = views(kept@);
    let mut sorted: Vec<String> = Vec::new();
    let mut k: usize = 0;
    while k < kept.len()
        invariant
            k <= kept.len(),
            kv == views(kept@),
            views(sorted@) == sort_texts(kv.take(k as int)),
        decreases kept.len() - k,
    {
        assert(kv.take(k + 1).drop_last() =~= kv.take(k as int));
        let ghost sv = views(sorted@);
        let mut p: usize = 0;
        assert(sv.skip(0) =~= sv);
        while p < sorted.len() && text_le_exec(sorted[p].as_str(), kept[k].as_str())
            invariant
                p <= sorted.len(),
                sv == views(sorted@),
                kv == views(kept@),
                k < kept.len(),
                text_insert_pos(sv, kv[k as int]) == p + text_insert_pos(sv.skip(p as int), kv[k as int]),
            decreases sorted.len() - p,
        {
            assert(sv.skip(p as int).drop_first() =~= sv.skip(p + 1));
            p = p + 1;
        }
        let x = kept[k].clone();
        let ghost before = sorted@;
        sorted.insert(p, x);
        assert(views(sorted@) =~= sv.insert(p as int, kv[k as int]));
        k = k + 1;
    }
    assert(kv.take(kept.len() as int) =~= kv);
    let mut r: Vec<String> = Vec::new();
    r.push(crate::text::copy_string(default_cfg));
    let ghost r0 = views(r@);
    assert(r0 =~= seq![default_cfg@]);
    let mut j: usize = 0;
    while j < sorted.len()
        invariant
            j <= sorted.len(),
            views(r@) == seq![default_cfg@] + views(sorted@).take(j as int),
        decreases sorted.len() - j,
    {
        let ghost before = r@;
        let x = sorted[j].clone();
        r.push(x);
        assert(r@ == before.push(x));
        assert(x@ == views(sorted@)[j as int]);
        assert(views(r@) =~= views(before).push(x@));
        assert(views(r@) =~= seq![default_cfg@] + views(sorted@).take(j + 1));
        j = j + 1;
    }
    assert(views(sorted@).take(sorted.len() as int) =~= views(sorted@));
    r
}

} // verus!
