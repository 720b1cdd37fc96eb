//! Preparing a job's execution: the command line with its template parameters
//! filled in, split into words, and the account and output settings to run it with.
use vstd::prelude::*;
use crate::config::{Job, JobSpec, Output};
use crate::text::{chars_of, has_prefix, push_char};

verus! {

/// What a trigger hands to a job's command line for `%host%`, `%job%` and `%notify%`.
#[derive(Debug, Clone)]
pub struct ExecArgs {
    /// e.g. "start-message", "success-message", or a file path
    pub notify: String,
    pub from_job: String,
    pub host: String,
}

/// The mathematical form of `ExecArgs`: (notify, from_job, host).
pub type ExecArgsView = (Seq<char>, Seq<char>, Seq<char>);

impl View for ExecArgs {
    type V = ExecArgsView;

    open spec fn view(&self) -> ExecArgsView {
        (self.notify@, self.from_job@, self.host@)
    }
}

impl Default for ExecArgs {
    fn default() -> (r: ExecArgs)
        ensures
            r@ == (Seq::<char>::empty(), Seq::<char>::empty(), Seq::<char>::empty()),
    {
        let r = ExecArgs { notify: String::new(), from_job: String::new(), host: String::new() };
        assert(r@ =~= (Seq::<char>::empty(), Seq::<char>::empty(), Seq::<char>::empty()));
        r
    }
}

/// `s` with each occurrence of `pat`, found left to right without overlap, replaced
/// by `rep` (what `str::replace` does for a non-empty pattern).
pub open spec fn replace_all(s: Seq<char>, pat: Seq<char>, rep: Seq<char>) -> Seq<char>
    decreases s.len(),
{
    if pat.len() == 0 || s.len() < pat.len() {
        s
    } else if s.take(pat.len() as int) == pat {
        rep + replace_all(s.skip(pat.len() as int), pat, rep)
    } else {
        seq![s[0]] + replace_all(s.drop_first(), pat, rep)
    }
}

/// The command line with `%host%`, `%job%` and `%notify%` filled in, in that order.
pub open spec fn spec_substitute(cmdline: Seq<char>, args: ExecArgsView) -> Seq<char> {
    replace_all(
        replace_all(replace_all(cmdline, seq!['%', 'h', 'o', 's', 't', '%'], args.2), seq!['%', 'j', 'o', 'b', '%'], args.1),
        seq!['%', 'n', 'o', 't', 'i', 'f', 'y', '%'],
        args.0,
    )
}

proof fn lemma_replace_absent(s: Seq<char>, pat: Seq<char>, rep: Seq<char>)
    requires
        pat.len() > 0,
        forall|i: int| 0 <= i < s.len() ==> s[i] != pat[0],
    ensures
        replace_all(s, pat, rep) == s,
    decreases s.len(),
{
    if s.len() >= pat.len() {
        assert(s.take(pat.len() as int)[0] == s[0]);
        lemma_replace_absent(s.drop_first(), pat, rep);
        assert(seq![s[0]] + s.drop_first() =~= s);
    }
}

/// A command line without `%` holds no template parameter: it runs as written,
/// whatever the trigger hands over.
pub proof fn lemma_substitute_plain(cmdline: Seq<char>, args: ExecArgsView)
    requires
        forall|i: int| 0 <= i < cmdline.len() ==> cmdline[i] != '%',
    ensures
        spec_substitute(cmdline, args) == cmdline,
{
    lemma_replace_absent(cmdline, seq!['%', 'h', 'o', 's', 't', '%'], args.2);
    lemma_replace_absent(cmdline, seq!['%', 'j', 'o', 'b', '%'], args.1);
    lemma_replace_absent(cmdline, seq!['%', 'n', 'o', 't', 'i', 'f', 'y', '%'], args.0);
}

/// Whether `pat` stands in `v` at position `i`.
fn pattern_at(v: &Vec<char>, i: usize, pat: &[char]) -> (r: bool)
    requires
        i <= v.len(),
    ensures
        r == has_prefix(v@.skip(i as int), pat@),
{
    if pat.len() > v.len() - i {
        return false;
    }
    let mut k: usize = 0;
    while k < pat.len()
        invariant
            i <= v.len(),
            pat.len() <= v.len() - i,
            k <= pat.len(),
            forall|j: int| 0 <= j < k ==> v@[i + j] == pat@[j],
        decreases pat.len() - k,
    {
        if v[i + k] != pat[k] {
            assert(v@.skip(i as int).take(pat.len() as int)[k as int] != pat@[k as int]);
            return false;
        }
        k = k + 1;
    }
    assert(v@.skip(i as int).take(pat.len() as int) =~= pat@);
    true
}

/// `s` with each occurrence of the non-empty `pat` replaced by `rep`.
pub fn replace_text(s: &str, pat: &[char], rep: &str) -> (r: String)
    requires
        pat.len() > 0,
    ensures
        r@ == replace_all(s@, pat@, rep@),
{
    let v = chars_of(s);
    let mut out = String::new();
    let mut i: usize = 0;
    assert(v@.skip(0) =~= v@);
    while i < v.len()
        invariant
            i <= v.len(),
            v@ == s@,
            pat.len() > 0,
            replace_all(s@, pat@, rep@) == out@ + replace_all(v@.skip(i as int), pat@, rep@),
        decreases v.len() - i,
    {
        let ghost rest = v@.skip(i as int);
        if pattern_at(&v, i, pat) {
            out.append(rep);
            assert(rest.skip(pat.len() as int) =~= v@.skip(i + pat.len()));
            i = i + pat.len();
        } else {
            let ghost before = out@;
            push_char(&mut out, v[i]);
            proof {
                assert(rest.drop_first() =~= v@.skip(i + 1));
                if rest.len() < pat@.len() {
                    assert(replace_all(rest.drop_first(), pat@, rep@) == rest.drop_first());
                    assert(seq![rest[0]] + rest.drop_first() =~= rest);
                }
                assert(out@ == before.push(v@[i as int]));
                assert(before + replace_all(rest, pat@, rep@) =~= out@ + replace_all(v@.skip(i + 1), pat@, rep@));
            }
            i = i + 1;
        }
    }
    assert(replace_all(v@.skip(i as int), pat@, rep@) =~= Seq::<char>::empty());
    assert(out@ + Seq::<char>::empty() =~= out@);
    out
}

/// Fills the template parameters of a command line.
pub fn substitute_templates(cmdline: &str, args: &ExecArgs) -> (r: String)
    ensures
        r@ == spec_substitute(cmdline@, args@),
{
    let host_pat: &[char] = &['%', 'h', 'o', 's', 't', '%'];
    let job_pat: &[char] = &['%', 'j', 'o', 'b', '%'];
    let notify_pat: &[char] = &['%', 'n', 'o', 't', 'i', 'f', 'y', '%'];
    assert(host_pat@ =~= seq!['%', 'h', 'o', 's', 't', '%']);
    assert(job_pat@ =~= seq!['%', 'j', 'o', 'b', '%']);
    assert(notify_pat@ =~= seq!['%', 'n', 'o', 't', 'i', 'f', 'y', '%']);
    let a = replace_text(cmdline, host_pat, args.host.as_str());
    let b = replace_text(a.as_str(), job_pat, args.from_job.as_str());
    replace_text(b.as_str(), notify_pat, args.notify.as_str())
}

/// The first position at or after `j` that holds `q`, or the end.
pub open spec fn closing_quote(s: Seq<char>, j: int, q: char) -> int
    decreases s.len() - j,
{
    if j >= s.len() || j < 0 {
        s.len() as int
    } else if s[j] == q {
        j
    } else {
        closing_quote(s, j + 1, q)
    }
}

/// Shell-like word splitting from position `i`, with the words found so far and the
/// word being built: spaces and tabs separate words, and text between double or
/// single quotes is taken as it stands (an unclosed quote runs to the end).
pub open spec fn split_from(s: Seq<char>, i: int, words: Seq<Seq<char>>, cur: Seq<char>) -> Seq<
    Seq<char>,
>
    decreases s.len() - i,
{
    if i < 0 || i >= s.len() {
        if cur.len() > 0 {
            words.push(cur)
        } else {
            words
        }
    } else if s[i] == ' ' || s[i] == '\t' {
        if cur.len() > 0 {
            split_from(s, i + 1, words.push(cur), seq![])
        } else {
            split_from(s, i + 1, words, cur)
        }
    } else if s[i] == '"' || s[i] == '\'' {
        let e = closing_quote(s, i + 1, s[i]);
        proof {
            lemma_closing_quote(s, i + 1, s[i]);
        }
        split_from(
            s,
            if e < s.len() {
                e + 1
            } else {
                e
            },
            words,
            cur + s.subrange(i + 1, e),
        )
    } else {
        split_from(s, i + 1, words, cur.push(s[i]))
    }
}

/// The words of a command line.
pub open spec fn spec_shell_split(s: Seq<char>) -> Seq<Seq<char>> {
    split_from(s, 0, seq![], seq![])
}

pub proof fn lemma_closing_quote(s: Seq<char>, j: int, q: char)
    requires
        0 <= j,
    ensures
        j <= closing_quote(s, j, q) <= s.len() || (j > s.len() && closing_quote(s, j, q)
            == s.len()),
        closing_quote(s, j, q) < s.len() ==> s[closing_quote(s, j, q)] == q,
        forall|k: int| j <= k < closing_quote(s, j, q) ==> s[k] != q,
    decreases s.len() - j,
{
    if j < s.len() && s[j] != q {
        lemma_closing_quote(s, j + 1, q);
    }
}

/// Splits a command line into words: spaces and tabs separate words, and text
/// between double or single quotes is taken as it stands.
pub fn shell_split(s: &str) -> (r: Vec<String>)
    ensures
        r@.map_values(|w: String| w@) == spec_shell_split(s@),
{
    let v = chars_of(s);
    let n = v.len();
    let mut words: Vec<String> = Vec::new();
    let mut current = String::new();
    let mut i: usize = 0;
    assert(words@.map_values(|w: String| w@) =~= Seq::<Seq<char>>::empty());
    while i < n
        invariant
            v@ == s@,
            n == v.len(),
            i <= n,
            spec_shell_split(s@) == split_from(v@, i as int, words@.map_values(|w: String| w@), current@),
        decreases n - i,
    {
        let c = v[i];
        if c == ' ' || c == '\t' {
            if !current.as_str().is_empty() {
                let ghost before = words@.map_values(|w: String| w@);
                let w = current;
                words.push(w);
                assert(words@.map_values(|w: String| w@) =~= before.push(w@));
                current = String::new();
            }
            i = i + 1;
        } else if c == '"' || c == '\'' {
            proof {
                lemma_closing_quote(v@, i + 1, c);
            }
            let ghost start = current@;
            let mut j = i + 1;
            while j < n && v[j] != c
                invariant
                    i < j <= n,
                    n == v.len(),
                    current@ == start + v@.subrange(i + 1, j as int),
                    closing_quote(v@, i + 1, c) == closing_quote(v@, j as int, c),
                decreases n - j,
            {
                push_char(&mut current, v[j]);
                assert(current@ =~= start + v@.subrange(i + 1, j + 1));
                j = j + 1;
            }
            assert(j == closing_quote(v@, i + 1, c));
            let ghost next: int = if j < n { j + 1 } else { j as int };
            assert(split_from(v@, i as int, words@.map_values(|w: String| w@), start) == split_from(
                v@,
                next,
                words@.map_values(|w: String| w@),
                current@,
            ));
            i = if j < n {
                j + 1
            } else {
                j
            };
        } else {
            push_char(&mut current, c);
            i = i + 1;
        }
    }
    if !current.as_str().is_empty() {
        let ghost before = words@.map_values(|w: String| w@);
        let w = current;
        words.push(w);
        assert(words@.map_values(|w: String| w@) =~= before.push(w@));
    }
    words
}

/// The words that contain no NUL character (those that can be handed to `exec`).
pub open spec fn without_nul(ws: Seq<Seq<char>>) -> Seq<Seq<char>>
    decreases ws.len(),
{
    if ws.len() == 0 {
        seq![]
    } else if ws.last().contains('\0') {
        without_nul(ws.drop_last())
    } else {
        without_nul(ws.drop_last()).push(ws.last())
    }
}

/// Whether the string holds a NUL character.
fn has_nul(s: &str) -> (r: bool)
    ensures
        r == s@.contains('\0'),
{
    let v = chars_of(s);
    let mut i: usize = 0;
    while i < v.len()
        invariant
            i <= v.len(),
            v@ == s@,
            forall|j: int| 0 <= j < i ==> v@[j] != '\0',
        decreases v.len() - i,
    {
        if v[i] == '\0' {
            return true;
        }
        i = i + 1;
    }
    false
}

/// The argument vector of a command line: its words that contain no NUL character.
pub fn build_argv(cmdline: &str) -> (r: Vec<String>)
    ensures
        r@.map_values(|w: String| w@) == without_nul(spec_shell_split(cmdline@)),
{
    let words = shell_split(cmdline);
    let ghost ws = words@.map_values(|w: String| w@);
    let mut out: Vec<String> = Vec::new();
    let mut i: usize = 0;
    while i < words.len()
        invariant
            i <= words.len(),
            ws == words@.map_values(|w: String| w@),
            out@.map_values(|w: String| w@) == without_nul(ws.take(i as int)),
        decreases words.len() - i,
    {
        assert(ws.take(i + 1).drop_last() =~= ws.take(i as int));
        if !has_nul(words[i].as_str()) {
            let ghost before = out@.map_values(|w: String| w@);
            let w = words[i].clone();
            out.push(w);
            assert(out@.map_values(|w: String| w@) =~= before.push(ws[i as int]));
        }
        i = i + 1;
    }
    assert(ws.take(words.len() as int) =~= ws);
    out
}

/// How to run a job: its argument vector, the account to run it as, and where its
/// output goes.
pub struct ExecPlan {
    pub argv: Vec<String>,
    pub user: String,
    pub group: String,
    pub output: Output,
    pub ionice: bool,
    pub nice: bool,
}

/// The group a job runs as: its own, or its user's name when none is set.
pub open spec fn run_group(j: JobSpec) -> Seq<char> {
    if j.group.len() == 0 {
        j.user
    } else {
        j.group
    }
}

/// Prepares the execution of a job; `None` when it has no command line.
pub fn exec_plan(job: &Job, args: &ExecArgs) -> (r: Option<ExecPlan>)
    ensures
        job@.cmdline is None ==> r is None,
        job@.cmdline matches Some(c) ==> (r matches Some(p) && {
            &&& p.argv@.map_values(|w: String| w@) == without_nul(
                spec_shell_split(spec_substitute(c, args@)),
            )
            &&& p.user@ == job@.user
            &&& p.group@ == run_group(job@)
            &&& p.output@ == job@.output
            &&& p.ionice == job@.ionice
            &&& p.nice == job@.nice
        }),
{
    let cmdline = match &job.cmdline {
        Some(c) => c,
        None => return None,
    };
    let line = substitute_templates(cmdline.as_str(), args);
    let argv = build_argv(line.as_str());
    let user = job.user.clone();
    let group = if job.group.as_str().is_empty() {
        job.user.clone()
    } else {
        job.group.clone()
    };
    Some(
        ExecPlan {
            argv,
            user,
            group,
            output: job.output.duplicate(),
            ionice: job.ionice,
            nice: job.nice,
        },
    )
}

} // verus!
