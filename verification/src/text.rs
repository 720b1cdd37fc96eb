//! Character-level text utilities shared by the parsers of the library:
//! whitespace, trimming, ASCII case folding, decimal numbers.
use vstd::prelude::*;

verus! {

/// The Unicode `White_Space` property, which is what `char::is_whitespace` tests.
pub open spec fn is_ws(c: char) -> bool {
    let u = c as u32;
    ||| 0x9 <= u <= 0xd
    ||| u == 0x20
    ||| u == 0x85
    ||| u == 0xa0
    ||| u == 0x1680
    ||| 0x2000 <= u <= 0x200a
    ||| u == 0x2028
    ||| u == 0x2029
    ||| u == 0x202f
    ||| u == 0x205f
    ||| u == 0x3000
}

/// `s` without its leading whitespace.
pub open spec fn trim_start(s: Seq<char>) -> Seq<char>
    decreases s.len(),
{
    if s.len() > 0 && is_ws(s[0]) {
        trim_start(s.drop_first())
    } else {
        s
    }
}

/// `s` without its trailing whitespace.
pub open spec fn trim_end(s: Seq<char>) -> Seq<char>
    decreases s.len(),
{
    if s.len() > 0 && is_ws(s.last()) {
        trim_end(s.drop_last())
    } else {
        s
    }
}

/// `s` without leading and trailing whitespace (what `str::trim` returns).
pub open spec fn trim(s: Seq<char>) -> Seq<char> {
    trim_end(trim_start(s))
}

/// ASCII lower case of one character; other characters are unchanged.
pub open spec fn lower_char(c: char) -> char {
    if 'A' <= c <= 'Z' {
        ((c as u32) + 32) as char
    } else {
        c
    }
}

/// ASCII lower case of a character sequence.
pub open spec fn lower(s: Seq<char>) -> Seq<char> {
    s.map_values(|c: char| lower_char(c))
}

/// `s` begins with `prefix`.
pub open spec fn has_prefix(s: Seq<char>, prefix: Seq<char>) -> bool {
    prefix.len() <= s.len() && s.take(prefix.len() as int) == prefix
}

pub open spec fn is_digit(c: char) -> bool {
    '0' <= c <= '9'
}

pub open spec fn digit_val(c: char) -> nat {
    ((c as u32) - ('0' as u32)) as nat
}

pub open spec fn digit_char(d: nat) -> char {
    (('0' as u32) + d) as char
}

pub open spec fn all_digits(s: Seq<char>) -> bool {
    forall|i: int| 0 <= i < s.len() ==> #[trigger] is_digit(s[i])
}

/// The number that a string of decimal digits denotes.
pub open spec fn digits_value(s: Seq<char>) -> nat
    decreases s.len(),
{
    if s.len() == 0 {
        0
    } else {
        digits_value(s.drop_last()) * 10 + digit_val(s.last())
    }
}

/// What `str::parse::<u64>` accepts: an optional `+`, then one or more decimal
/// digits whose value fits in a `u64`.
pub open spec fn parse_u64(s: Seq<char>) -> Option<u64> {
    let body = if s.len() > 0 && s[0] == '+' {
        s.drop_first()
    } else {
        s
    };
    if body.len() > 0 && all_digits(body) && digits_value(body) <= u64::MAX {
        Some(digits_value(body) as u64)
    } else {
        None
    }
}

/// The decimal representation of `n`, as `Display` writes it for integers.
pub open spec fn decimal(n: nat) -> Seq<char>
    decreases n,
{
    if n < 10 {
        seq![digit_char(n)]
    } else {
        decimal(n / 10).push(digit_char(n % 10))
    }
}


/// The position of the last `sep` in `s`, or -1.
pub open spec fn last_sep(s: Seq<char>, sep: char) -> int
    decreases s.len(),
{
    if s.len() == 0 {
        -1
    } else if s.last() == sep {
        s.len() - 1
    } else {
        last_sep(s.drop_last(), sep)
    }
}

/// The pieces of `s` between the occurrences of `sep`, as `str::split(sep)` gives them.
pub open spec fn split_pieces(s: Seq<char>, sep: char) -> Seq<Seq<char>>
    decreases s.len(),
{
    let c = last_sep(s, sep);
    if c < 0 || c >= s.len() {
        seq![s]
    } else {
        split_pieces(s.take(c), sep).push(s.skip(c + 1))
    }
}

/// The pieces, each trimmed, that are not blank.
pub open spec fn nonblank_trimmed(ps: Seq<Seq<char>>) -> Seq<Seq<char>>
    decreases ps.len(),
{
    if ps.len() == 0 {
        seq![]
    } else {
        let rest = nonblank_trimmed(ps.drop_last());
        if trim(ps.last()).len() > 0 {
            rest.push(trim(ps.last()))
        } else {
            rest
        }
    }
}

/// The non-blank lines of `s`, trimmed.
pub open spec fn multivalue(s: Seq<char>) -> Seq<Seq<char>> {
    nonblank_trimmed(split_pieces(s, '\n'))
}

/// The views of a sequence of strings.
pub open spec fn views(v: Seq<String>) -> Seq<Seq<char>> {
    v.map_values(|s: String| s@)
}

pub proof fn lemma_last_sep(s: Seq<char>, sep: char)
    ensures
        -1 <= last_sep(s, sep) < s.len(),
        last_sep(s, sep) >= 0 ==> s[last_sep(s, sep)] == sep,
        forall|i: int| last_sep(s, sep) < i < s.len() ==> s[i] != sep,
    decreases s.len(),
{
    if s.len() > 0 && s.last() != sep {
        lemma_last_sep(s.drop_last(), sep);
        assert forall|i: int| last_sep(s, sep) < i < s.len() implies s[i] != sep by {
            if i < s.len() - 1 {
                assert(s[i] == s.drop_last()[i]);
            }
        }
    }
}

pub proof fn lemma_split_pieces_nonempty(s: Seq<char>, sep: char)
    ensures
        split_pieces(s, sep).len() >= 1,
    decreases s.len(),
{
    lemma_last_sep(s, sep);
    let c = last_sep(s, sep);
    if c >= 0 {
        lemma_split_pieces_nonempty(s.take(c), sep);
    }
}

/// How the pieces of a prefix grow by one character.
pub proof fn lemma_split_pieces_step(s: Seq<char>, sep: char, i: int)
    requires
        0 <= i < s.len(),
    ensures
        split_pieces(s.take(i + 1), sep) == (if s[i] == sep {
            split_pieces(s.take(i), sep).push(seq![])
        } else {
            split_pieces(s.take(i), sep).drop_last().push(
                split_pieces(s.take(i), sep).last().push(s[i]),
            )
        }),
{
    let t = s.take(i + 1);
    let u = s.take(i);
    lemma_last_sep(t, sep);
    lemma_last_sep(u, sep);
    lemma_split_pieces_nonempty(u, sep);
    assert(t.drop_last() =~= u);
    assert(t.last() == s[i]);
    if s[i] == sep {
        assert(t.take(i) =~= u);
        assert(t.skip(i + 1) =~= Seq::<char>::empty());
    } else {
        let c = last_sep(u, sep);
        assert(last_sep(t, sep) == c);
        if c < 0 {
            assert(t =~= u.push(s[i]));
        } else {
            assert(t.take(c) =~= u.take(c));
            assert(t.skip(c + 1) =~= u.skip(c + 1).push(s[i]));
        }
    }
}

/// Where the last separator of `x + y` stands.
proof fn lemma_last_sep_concat(x: Seq<char>, y: Seq<char>, sep: char)
    ensures
        last_sep(x + y, sep) == (if last_sep(y, sep) >= 0 {
            x.len() + last_sep(y, sep)
        } else {
            last_sep(x, sep)
        }),
    decreases y.len(),
{
    if y.len() == 0 {
        assert(x + y =~= x);
    } else {
        assert((x + y).drop_last() =~= x + y.drop_last());
        assert((x + y).last() == y.last());
        lemma_last_sep_concat(x, y.drop_last(), sep);
    }
}

/// A string without the separator is a single piece.
pub proof fn lemma_split_pieces_no_sep(s: Seq<char>, sep: char)
    requires
        forall|i: int| 0 <= i < s.len() ==> s[i] != sep,
    ensures
        split_pieces(s, sep) == seq![s],
{
    lemma_last_sep(s, sep);
}

/// Joining two strings with the separator joins their pieces.
pub proof fn lemma_split_pieces_join(a: Seq<char>, b: Seq<char>, sep: char)
    ensures
        split_pieces(a + seq![sep] + b, sep) == split_pieces(a, sep) + split_pieces(b, sep),
    decreases b.len(),
{
    let x = a + seq![sep] + b;
    lemma_last_sep(b, sep);
    lemma_last_sep_concat(a + seq![sep], b, sep);
    lemma_last_sep_concat(a, seq![sep], sep);
    assert(seq![sep].drop_last() =~= Seq::<char>::empty());
    assert(last_sep(seq![sep], sep) == 0);
    let c = last_sep(b, sep);
    if c < 0 {
        assert(last_sep(x, sep) == a.len());
        assert(x.take(a.len() as int) =~= a);
        assert(x.skip(a.len() as int + 1) =~= b);
        assert(split_pieces(b, sep) == seq![b]);
        assert(split_pieces(x, sep) =~= split_pieces(a, sep) + split_pieces(b, sep));
    } else {
        let k = a.len() + 1 + c;
        assert(last_sep(x, sep) == k);
        assert(x.take(k) =~= a + seq![sep] + b.take(c));
        assert(x.skip(k + 1) =~= b.skip(c + 1));
        lemma_split_pieces_join(a, b.take(c), sep);
        assert(split_pieces(b, sep) == split_pieces(b.take(c), sep).push(b.skip(c + 1)));
        assert(split_pieces(x, sep) =~= split_pieces(a, sep) + split_pieces(b, sep));
    }
}

/// A string that begins and ends with non-whitespace is its own trim.
pub proof fn lemma_trim_id(s: Seq<char>)
    requires
        s.len() > 0,
        !is_ws(s[0]),
        !is_ws(s.last()),
    ensures
        trim(s) == s,
{
}

pub proof fn lemma_trim_start_nonblank(s: Seq<char>, i: int)
    requires
        0 <= i < s.len(),
        !is_ws(s[i]),
    ensures
        trim_start(s).len() > 0,
        !is_ws(trim_start(s)[0]),
    decreases s.len(),
{
    if is_ws(s[0]) {
        assert(s.drop_first()[i - 1] == s[i]);
        lemma_trim_start_nonblank(s.drop_first(), i - 1);
    }
}

proof fn lemma_trim_end_keeps_first(s: Seq<char>)
    requires
        s.len() > 0,
        !is_ws(s[0]),
    ensures
        trim_end(s).len() > 0,
    decreases s.len(),
{
    if is_ws(s.last()) {
        assert(s.drop_last()[0] == s[0]);
        lemma_trim_end_keeps_first(s.drop_last());
    }
}

/// `trim_start(s)` is a suffix of `s`.
pub proof fn lemma_trim_start_suffix(s: Seq<char>)
    ensures
        trim_start(s).len() <= s.len(),
        trim_start(s) == s.skip(s.len() - trim_start(s).len()),
    decreases s.len(),
{
    if s.len() > 0 && is_ws(s[0]) {
        lemma_trim_start_suffix(s.drop_first());
        assert(s.drop_first().skip(s.drop_first().len() - trim_start(s).len()) =~= s.skip(
            s.len() - trim_start(s).len(),
        ));
    } else {
        assert(s.skip(0) =~= s);
    }
}

/// Trimming the start of `x + y` stops inside `x` when `x` holds a non-whitespace
/// character.
pub proof fn lemma_trim_start_concat(x: Seq<char>, y: Seq<char>, i: int)
    requires
        0 <= i < x.len(),
        !is_ws(x[i]),
    ensures
        trim_start(x + y) == trim_start(x) + y,
    decreases x.len(),
{
    if is_ws(x[0]) {
        assert((x + y).drop_first() =~= x.drop_first() + y);
        assert(x.drop_first()[i - 1] == x[i]);
        lemma_trim_start_concat(x.drop_first(), y, i - 1);
    }
}

/// A string with a non-whitespace character is not blank.
pub proof fn lemma_trim_nonblank(s: Seq<char>, i: int)
    requires
        0 <= i < s.len(),
        !is_ws(s[i]),
    ensures
        trim(s).len() > 0,
{
    lemma_trim_start_nonblank(s, i);
    lemma_trim_end_keeps_first(trim_start(s));
}

/// `decimal(n)` is a non-empty string of digits that denotes `n`, and it is `0`
/// only for zero.
pub proof fn lemma_decimal(n: nat)
    ensures
        decimal(n).len() >= 1,
        all_digits(decimal(n)),
        digits_value(decimal(n)) == n,
        decimal(n) == seq!['0'] <==> n == 0,
    decreases n,
{
    if n >= 10 {
        lemma_decimal(n / 10);
        let d = decimal(n / 10);
        let c = digit_char(n % 10);
        assert(decimal(n) == d.push(c));
        assert(decimal(n).drop_last() =~= d);
        assert forall|i: int| 0 <= i < decimal(n).len() implies #[trigger] is_digit(decimal(n)[i]) by {
            if i < d.len() {
                assert(decimal(n)[i] == d[i]);
            }
        }
        assert(digit_val(c) == n % 10);
        assert(decimal(n).last() == c);
        assert(digits_value(decimal(n)) == digits_value(d) * 10 + digit_val(c));
        assert((n / 10) * 10 + n % 10 == n) by (nonlinear_arith);
        assert(decimal(n).len() >= 2);
    } else {
        assert(digit_val(digit_char(n)) == n);
        assert(decimal(n).drop_last() =~= Seq::<char>::empty());
        assert(digits_value(decimal(n)) == digits_value(Seq::<char>::empty()) * 10 + digit_val(
            digit_char(n),
        ));
        if decimal(n) == seq!['0'] {
            assert(decimal(n)[0] == '0');
        }
    }
}

/// Reading back the decimal digits of a number gives the number.
pub proof fn lemma_parse_u64_decimal(n: u64)
    ensures
        parse_u64(decimal(n as nat)) == Some(n),
{
    lemma_decimal(n as nat);
    assert(is_digit(decimal(n as nat)[0]));
}

/// The non-blank lines of `s`, trimmed, as separate strings.
pub fn split_multivalue(s: &str) -> (r: Vec<String>)
    ensures
        views(r@) == multivalue(s@),
{
    let v = chars_of(s);
    let n = v.len();
    let ghost t = v@;
    let mut out: Vec<String> = Vec::new();
    let mut start: usize = 0;
    let mut i: usize = 0;
    proof {
        assert(t.take(0) =~= Seq::<char>::empty());
        lemma_last_sep(t.take(0), '\n');
    }
    while i < n
        invariant
            t == v@,
            n == v.len(),
            start <= i <= n,
            split_pieces(t.take(i as int), '\n').len() >= 1,
            split_pieces(t.take(i as int), '\n').last() == t.subrange(start as int, i as int),
            views(out@) == nonblank_trimmed(split_pieces(t.take(i as int), '\n').drop_last()),
        decreases n - i,
    {
        proof {
            lemma_split_pieces_step(t, '\n', i as int);
        }
        let ghost before = split_pieces(t.take(i as int), '\n');
        if v[i] == '\n' {
            let (a, b) = trim_bounds(&v, start, i);
            if a < b {
                let piece = string_of(&v, a, b);
                out.push(piece);
            }
            proof {
                let after = split_pieces(t.take(i + 1), '\n');
                assert(after.drop_last() =~= before);
                assert(views(out@) =~= nonblank_trimmed(before));
            }
            start = i + 1;
            assert(t.subrange(start as int, (i + 1) as int) =~= Seq::<char>::empty());
        } else {
            proof {
                let after = split_pieces(t.take(i + 1), '\n');
                assert(after.drop_last() =~= before.drop_last());
            }
            assert(t.subrange(start as int, i + 1) =~= t.subrange(start as int, i as int).push(
                t[i as int],
            ));
        }
        i = i + 1;
    }
    assert(t.take(n as int) =~= t);
    let (a, b) = trim_bounds(&v, start, n);
    if a < b {
        let piece = string_of(&v, a, b);
        out.push(piece);
    }
    proof {
        let ps = split_pieces(t, '\n');
        assert(views(out@) =~= nonblank_trimmed(ps));
    }
    out
}

/// Whether the text of `s` is exactly `kw`.
pub fn text_is(s: &str, kw: &[char]) -> (r: bool)
    ensures
        r == (s@ == kw@),
{
    let v = chars_of(s);
    if v.len() != kw.len() {
        return false;
    }
    let mut i: usize = 0;
    while i < kw.len()
        invariant
            v@ == s@,
            v.len() == kw.len(),
            i <= kw.len(),
            forall|j: int| 0 <= j < i ==> v@[j] == kw@[j],
        decreases kw.len() - i,
    {
        if v[i] != kw[i] {
            return false;
        }
        i = i + 1;
    }
    assert(v@ =~= kw@);
    true
}

/// Appends one character to a string.
#[verifier::external_body]
pub(crate) fn push_char(s: &mut String, c: char)
    ensures
        final(s)@ == old(s)@.push(c),
{
    s.push(c)
}

/// The characters of a string slice, in order.
pub fn chars_of(s: &str) -> (v: Vec<char>)
    ensures
        v@ == s@,
{
    let mut v: Vec<char> = Vec::new();
    for c in it: s.chars()
        invariant
            v@ == it.seq().take(it.index() as int),
    {
        v.push(c);
    }
    v
}

/// The string made of `v[lo..hi]`.
pub fn string_of(v: &Vec<char>, lo: usize, hi: usize) -> (s: String)
    requires
        lo <= hi <= v.len(),
    ensures
        s@ == v@.subrange(lo as int, hi as int),
{
    let mut s = String::new();
    let mut i = lo;
    while i < hi
        invariant
            lo <= i <= hi <= v.len(),
            s@ == v@.subrange(lo as int, i as int),
        decreases hi - i,
    {
        push_char(&mut s, v[i]);
        assert(v@.subrange(lo as int, i + 1) == v@.subrange(lo as int, i as int).push(v@[i as int]));
        i = i + 1;
    }
    s
}

/// A copy of a string.
pub fn copy_string(s: &str) -> (r: String)
    ensures
        r@ == s@,
{
    let v = chars_of(s);
    string_of(&v, 0, v.len())
}

/// Character-wise equality of two strings.
pub fn same_text(a: &str, b: &str) -> (r: bool)
    ensures
        r == (a@ == b@),
{
    let va = chars_of(a);
    let vb = chars_of(b);
    if va.len() != vb.len() {
        return false;
    }
    let mut i: usize = 0;
    while i < va.len()
        invariant
            va@ == a@,
            vb@ == b@,
            va.len() == vb.len(),
            i <= va.len(),
            forall|j: int| 0 <= j < i ==> va@[j] == vb@[j],
        decreases va.len() - i,
    {
        if va[i] != vb[i] {
            return false;
        }
        i = i + 1;
    }
    assert(va@ =~= vb@);
    true
}

/// `char::is_whitespace`, written out over the Unicode `White_Space` list.
pub fn is_whitespace(c: char) -> (r: bool)
    ensures
        r == is_ws(c),
{
    let u = c as u32;
    (0x9 <= u && u <= 0xd) || u == 0x20 || u == 0x85 || u == 0xa0 || u == 0x1680 || (0x2000 <= u
        && u <= 0x200a) || u == 0x2028 || u == 0x2029 || u == 0x202f || u == 0x205f || u == 0x3000
}

pub fn to_lower(c: char) -> (r: char)
    ensures
        r == lower_char(c),
{
    if 'A' <= c && c <= 'Z' {
        let b = (c as u8) + 32;
        b as char
    } else {
        c
    }
}

/// The first position at or after `lo` (and before `hi`) that does not hold whitespace.
pub fn skip_ws(v: &Vec<char>, lo: usize, hi: usize) -> (p: usize)
    requires
        lo <= hi <= v.len(),
    ensures
        lo <= p <= hi,
        v@.subrange(p as int, hi as int) == trim_start(v@.subrange(lo as int, hi as int)),
{
    let mut p = lo;
    while p < hi && is_whitespace(v[p])
        invariant
            lo <= p <= hi <= v.len(),
            trim_start(v@.subrange(p as int, hi as int)) == trim_start(
                v@.subrange(lo as int, hi as int),
            ),
        decreases hi - p,
    {
        assert(v@.subrange(p as int, hi as int).drop_first() =~= v@.subrange(p + 1, hi as int));
        p = p + 1;
    }
    p
}

/// The bounds of `trim(v[lo..hi])` inside `v`.
pub fn trim_bounds(v: &Vec<char>, lo: usize, hi: usize) -> (r: (usize, usize))
    requires
        lo <= hi <= v.len(),
    ensures
        lo <= r.0 <= r.1 <= hi,
        v@.subrange(r.0 as int, r.1 as int) == trim(v@.subrange(lo as int, hi as int)),
{
    let a = skip_ws(v, lo, hi);
    let mut b = hi;
    while b > a && is_whitespace(v[b - 1])
        invariant
            lo <= a <= b <= hi <= v.len(),
            trim_end(v@.subrange(a as int, b as int)) == trim_end(v@.subrange(a as int, hi as int)),
        decreases b - a,
    {
        assert(v@.subrange(a as int, b as int).drop_last() =~= v@.subrange(a as int, b - 1));
        b = b - 1;
    }
    (a, b)
}

/// `v[lo..hi]`, compared ignoring ASCII case, begins with the lower-case word `kw`.
pub fn has_prefix_ci(v: &Vec<char>, lo: usize, hi: usize, kw: &[char]) -> (r: bool)
    requires
        lo <= hi <= v.len(),
    ensures
        r == has_prefix(lower(v@.subrange(lo as int, hi as int)), kw@),
{
    let ghost s = lower(v@.subrange(lo as int, hi as int));
    if kw.len() > hi - lo {
        return false;
    }
    let mut i: usize = 0;
    while i < kw.len()
        invariant
            lo <= hi <= v.len(),
            kw.len() <= hi - lo,
            s == lower(v@.subrange(lo as int, hi as int)),
            i <= kw.len(),
            forall|j: int| 0 <= j < i ==> s[j] == kw@[j],
        decreases kw.len() - i,
    {
        if to_lower(v[lo + i]) != kw[i] {
            assert(s.take(kw.len() as int)[i as int] != kw@[i as int]);
            return false;
        }
        i = i + 1;
    }
    assert(s.take(kw.len() as int) =~= kw@);
    true
}

/// `v[lo..hi]` equals the lower-case word `kw`, ignoring ASCII case.
pub fn equals_ci(v: &Vec<char>, lo: usize, hi: usize, kw: &[char]) -> (r: bool)
    requires
        lo <= hi <= v.len(),
    ensures
        r == (lower(v@.subrange(lo as int, hi as int)) == kw@),
{
    let p = has_prefix_ci(v, lo, hi, kw);
    proof {
        let s = lower(v@.subrange(lo as int, hi as int));
        if s == kw@ {
            assert(s.take(kw@.len() as int) =~= s);
        }
        if p && kw@.len() == hi - lo {
            assert(s.take(kw@.len() as int) =~= s);
        }
    }
    p && kw.len() == hi - lo
}

pub proof fn lemma_digits_value_prefix(s: Seq<char>, i: int)
    requires
        0 <= i <= s.len(),
    ensures
        digits_value(s.take(i)) <= digits_value(s),
    decreases s.len(),
{
    if i < s.len() {
        assert(s.drop_last().take(i) =~= s.take(i));
        lemma_digits_value_prefix(s.drop_last(), i);
    } else {
        assert(s.take(i) =~= s);
    }
}

/// The value of the digits `v[lo..hi]` when it is at most `max`.
pub fn digits_value_upto(v: &Vec<char>, lo: usize, hi: usize, max: u64) -> (r: Option<u64>)
    requires
        lo <= hi <= v.len(),
        all_digits(v@.subrange(lo as int, hi as int)),
    ensures
        r == (if digits_value(v@.subrange(lo as int, hi as int)) <= max {
            Some(digits_value(v@.subrange(lo as int, hi as int)) as u64)
        } else {
            None::<u64>
        }),
{
    let ghost s = v@.subrange(lo as int, hi as int);
    let mut acc: u64 = 0;
    let mut i = lo;
    while i < hi
        invariant
            lo <= i <= hi <= v.len(),
            s == v@.subrange(lo as int, hi as int),
            all_digits(s),
            acc == digits_value(s.take(i - lo)),
            acc <= max,
        decreases hi - i,
    {
        let ghost k: int = i - lo;
        assert(is_digit(s[k]));
        assert(s.take(k + 1).drop_last() =~= s.take(k));
        let d = (v[i] as u32 - '0' as u32) as u64;
        assert(d == digit_val(s[k]));
        match acc.checked_mul(10) {
            Some(a10) => match a10.checked_add(d) {
                Some(n) => {
                    if n > max {
                        proof { lemma_digits_value_prefix(s, k + 1); }
                        return None;
                    }
                    acc = n;
                },
                None => {
                    proof { lemma_digits_value_prefix(s, k + 1); }
                    return None;
                },
            },
            None => {
                proof { lemma_digits_value_prefix(s, k + 1); }
                return None;
            },
        }
        i = i + 1;
    }
    assert(s.take(hi - lo) =~= s);
    Some(acc)
}

/// The end of the run of ASCII digits that starts at `lo`.
pub fn digits_end(v: &Vec<char>, lo: usize, hi: usize) -> (e: usize)
    requires
        lo <= hi <= v.len(),
    ensures
        lo <= e <= hi,
        all_digits(v@.subrange(lo as int, e as int)),
        e < hi ==> !is_digit(v@[e as int]),
{
    let mut e = lo;
    while e < hi && '0' <= v[e] && v[e] <= '9'
        invariant
            lo <= e <= hi <= v.len(),
            all_digits(v@.subrange(lo as int, e as int)),
        decreases hi - e,
    {
        e = e + 1;
    }
    e
}

/// `str::parse::<u64>` of `v[lo..hi]`.
pub fn parse_u64_at(v: &Vec<char>, lo: usize, hi: usize) -> (r: Option<u64>)
    requires
        lo <= hi <= v.len(),
    ensures
        r == parse_u64(v@.subrange(lo as int, hi as int)),
{
    let ghost s = v@.subrange(lo as int, hi as int);
    let start = if lo < hi && v[lo] == '+' {
        lo + 1
    } else {
        lo
    };
    assert(v@.subrange(start as int, hi as int) =~= (if s.len() > 0 && s[0] == '+' {
        s.drop_first()
    } else {
        s
    }));
    if start == hi {
        return None;
    }
    let e = digits_end(v, start, hi);
    if e < hi {
        assert(!is_digit(v@.subrange(start as int, hi as int)[e - start]));
        return None;
    }
    digits_value_upto(v, start, hi, u64::MAX)
}

/// Appends the decimal digits of `n` to `s`.
pub fn push_decimal(s: &mut String, n: u64)
    ensures
        final(s)@ == old(s)@ + decimal(n as nat),
    decreases n,
{
    if n < 10 {
        push_char(s, digit_of(n));
    } else {
        push_decimal(s, n / 10);
        push_char(s, digit_of(n % 10));
    }
}

fn digit_of(d: u64) -> (c: char)
    requires
        d < 10,
    ensures
        c == digit_char(d as nat),
{
    let b = (d as u8) + 48;
    b as char
}

} // verus!
