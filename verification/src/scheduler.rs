//! Job scheduling decisions: which job a trigger starts or signals, the table of
//! running jobs, and the order jobs are considered in.
use rand::Rng;
use vstd::prelude::*;
use crate::config::{Interval, Job, JobSpec, interval_text, job_views};
use crate::executor::{ExecArgs, ExecArgsView};
use crate::notify::{NotifyMessage, NotifyMessageSpec, NotifyType, notify_type_text};
use crate::period::{in_period, spec_in_period, TimeFields};
use crate::text::{
    all_digits, chars_of, decimal, digits_value, digits_value_upto, has_prefix, is_digit,
    lemma_decimal, same_text, string_of, text_is, views,
};
use crate::config::string_from;

verus! {

/// The jobs currently running, by name, with their process ids.
pub struct RunningJobs {
    entries: Vec<(String, i32)>,
}

pub open spec fn running_entries_map(es: Seq<(Seq<char>, i32)>) -> Map<Seq<char>, i32> {
    Map::new(
        |k: Seq<char>| exists|i: int| 0 <= i < es.len() && es[i].0 == k,
        |k: Seq<char>| es[choose|i: int| 0 <= i < es.len() && es[i].0 == k].1,
    )
}

pub open spec fn running_entry_views(es: Seq<(String, i32)>) -> Seq<(Seq<char>, i32)> {
    es.map_values(|e: (String, i32)| (e.0@, e.1))
}

pub open spec fn distinct_names(es: Seq<(Seq<char>, i32)>) -> bool {
    forall|i: int, j: int| 0 <= i < j < es.len() ==> es[i].0 != es[j].0
}

impl View for RunningJobs {
    type V = Map<Seq<char>, i32>;

    closed spec fn view(&self) -> Map<Seq<char>, i32> {
        running_entries_map(running_entry_views(self.entries@))
    }
}

proof fn lemma_running_lookup(es: Seq<(Seq<char>, i32)>, i: int)
    requires
        distinct_names(es),
        0 <= i < es.len(),
    ensures
        running_entries_map(es).contains_key(es[i].0),
        running_entries_map(es)[es[i].0] == es[i].1,
{
    let k = es[i].0;
    let j = choose|j: int| 0 <= j < es.len() && es[j].0 == k;
    if j != i {
        if j < i {
            assert(es[j].0 != es[i].0);
        } else {
            assert(es[i].0 != es[j].0);
        }
    }
}

impl RunningJobs {
    /// The names are distinct.
    pub closed spec fn wf(&self) -> bool {
        distinct_names(running_entry_views(self.entries@))
    }

    /// No job is running.
    pub fn new() -> (r: RunningJobs)
        ensures
            r.wf(),
            r@ == Map::<Seq<char>, i32>::empty(),
    {
        let r = RunningJobs { entries: Vec::new() };
        assert(r@ =~= Map::<Seq<char>, i32>::empty());
        r
    }

    fn find(&self, name: &str) -> (r: Option<usize>)
        requires
            self.wf(),
        ensures
            match r {
                Some(i) => i < self.entries@.len() && self.entries@[i as int].0@ == name@,
                None => !self@.contains_key(name@),
            },
    {
        let ghost es = running_entry_views(self.entries@);
        let mut i: usize = 0;
        while i < self.entries.len()
            invariant
                i <= self.entries.len(),
                es == running_entry_views(self.entries@),
                forall|j: int| 0 <= j < i ==> es[j].0 != name@,
            decreases self.entries.len() - i,
        {
            if same_text(self.entries[i].0.as_str(), name) {
                return Some(i);
            }
            i = i + 1;
        }
        None
    }

    /// The process id of the named job, if it is running.
    pub fn get(&self, name: &str) -> (r: Option<i32>)
        requires
            self.wf(),
        ensures
            r == (if self@.contains_key(name@) {
                Some(self@[name@])
            } else {
                None::<i32>
            }),
    {
        match self.find(name) {
            Some(i) => {
                proof {
                    lemma_running_lookup(running_entry_views(self.entries@), i as int);
                }
                Some(self.entries[i].1)
            },
            None => None,
        }
    }

    /// Whether the named job is running.
    pub fn contains(&self, name: &str) -> (r: bool)
        requires
            self.wf(),
        ensures
            r == self@.contains_key(name@),
    {
        match self.find(name) {
            Some(i) => {
                proof {
                    lemma_running_lookup(running_entry_views(self.entries@), i as int);
                }
                true
            },
            None => false,
        }
    }

    /// Records that the named job runs as process `pid`.
    pub fn insert(&mut self, name: String, pid: i32)
        requires
            old(self).wf(),
        ensures
            final(self).wf(),
            final(self)@ == old(self)@.insert(name@, pid),
    {
        let ghost old_es = running_entry_views(self.entries@);
        let ghost nm = name@;
        match self.find(name.as_str()) {
            Some(i) => {
                self.entries.set(i, (name, pid));
                proof {
                    let es = running_entry_views(self.entries@);
                    assert(es =~= old_es.update(i as int, (nm, pid)));
                    assert(old_es[i as int].0 == nm);
                    assert forall|a: int| 0 <= a < es.len() implies #[trigger] es[a].0 == old_es[a].0 by {}
                    assert(distinct_names(es));
                    assert forall|k: Seq<char>| #[trigger] running_entries_map(es).contains_key(k)
                        <==> running_entries_map(old_es).insert(nm, pid).contains_key(k) by {
                        if running_entries_map(old_es).insert(nm, pid).contains_key(k) && k != nm {
                            let j = choose|j: int| 0 <= j < old_es.len() && old_es[j].0 == k;
                            assert(es[j].0 == k);
                        }
                        if running_entries_map(es).contains_key(k) && k != nm {
                            let j = choose|j: int| 0 <= j < es.len() && es[j].0 == k;
                            assert(old_es[j].0 == k);
                        }
                        if k == nm {
                            assert(es[i as int].0 == k);
                        }
                    }
                    assert forall|k: Seq<char>| #[trigger] running_entries_map(es).contains_key(k)
                        implies running_entries_map(es)[k] == running_entries_map(old_es).insert(
                        nm,
                        pid,
                    )[k] by {
                        let j = choose|j: int| 0 <= j < es.len() && es[j].0 == k;
                        lemma_running_lookup(es, j);
                        if k != nm {
                            assert(j != i);
                            assert(es[j] == old_es[j]);
                            lemma_running_lookup(old_es, j);
                        } else {
                            lemma_running_lookup(es, i as int);
                        }
                    }
                    assert(running_entries_map(es) =~= running_entries_map(old_es).insert(nm, pid));
                }
            },
            None => {
                self.entries.push((name, pid));
                proof {
                    let es = running_entry_views(self.entries@);
                    assert(es =~= old_es.push((nm, pid)));
                    assert(distinct_names(es)) by {
                        assert forall|a: int, b: int| 0 <= a < b < es.len() implies es[a].0
                            != es[b].0 by {
                            if b == es.len() - 1 {
                                assert(old_es[a].0 == es[a].0);
                                assert(running_entries_map(old_es).contains_key(old_es[a].0));
                            }
                        }
                    }
                    assert forall|k: Seq<char>| #[trigger] running_entries_map(es).contains_key(k)
                        <==> running_entries_map(old_es).insert(nm, pid).contains_key(k) by {
                        if running_entries_map(old_es).contains_key(k) {
                            let j = choose|j: int| 0 <= j < old_es.len() && old_es[j].0 == k;
                            assert(es[j].0 == k);
                        }
                        if running_entries_map(es).contains_key(k) && k != nm {
                            let j = choose|j: int| 0 <= j < es.len() && es[j].0 == k;
                            assert(old_es[j].0 == k);
                        }
                        if k == nm {
                            assert(es[old_es.len() as int].0 == k);
                        }
                    }
                    assert forall|k: Seq<char>| #[trigger] running_entries_map(es).contains_key(k)
                        implies running_entries_map(es)[k] == running_entries_map(old_es).insert(
                        nm,
                        pid,
                    )[k] by {
                        let j = choose|j: int| 0 <= j < es.len() && es[j].0 == k;
                        lemma_running_lookup(es, j);
                        if k != nm {
                            lemma_running_lookup(old_es, j);
                        }
                    }
                    assert(running_entries_map(es) =~= running_entries_map(old_es).insert(nm, pid));
                }
            },
        }
    }

    /// Forgets the named job; gives its process id if it was running.
    pub fn remove(&mut self, name: &str) -> (r: Option<i32>)
        requires
            old(self).wf(),
        ensures
            final(self).wf(),
            final(self)@ == old(self)@.remove(name@),
            r == (if old(self)@.contains_key(name@) {
                Some(old(self)@[name@])
            } else {
                None::<i32>
            }),
    {
        let ghost old_es = running_entry_views(self.entries@);
        match self.find(name) {
            Some(i) => {
                proof {
                    lemma_running_lookup(old_es, i as int);
                }
                let (_, pid) = self.entries.remove(i);
                proof {
                    let es = running_entry_views(self.entries@);
                    let nm = name@;
                    assert(es =~= old_es.remove(i as int));
                    assert(distinct_names(es)) by {
                        assert forall|a: int, b: int| 0 <= a < b < es.len() implies es[a].0
                            != es[b].0 by {
                            let a1 = if a < i { a } else { a + 1 };
                            let b1 = if b < i { b } else { b + 1 };
                            assert(es[a] == old_es[a1]);
                            assert(es[b] == old_es[b1]);
                        }
                    }
                    assert forall|k: Seq<char>| #[trigger] running_entries_map(es).contains_key(k)
                        <==> running_entries_map(old_es).remove(nm).contains_key(k) by {
                        if running_entries_map(old_es).remove(nm).contains_key(k) {
                            let j = choose|j: int| 0 <= j < old_es.len() && old_es[j].0 == k;
                            assert(j != i);
                            let j1 = if j < i { j } else { j - 1 };
                            assert(es[j1] == old_es[j]);
                        }
                        if running_entries_map(es).contains_key(k) {
                            let j = choose|j: int| 0 <= j < es.len() && es[j].0 == k;
                            let j1 = if j < i { j } else { j + 1 };
                            assert(es[j] == old_es[j1]);
                            assert(j1 != i);
                            if k == nm {
                                assert(old_es[i as int].0 == nm);
                            }
                        }
                    }
                    assert forall|k: Seq<char>| #[trigger] running_entries_map(es).contains_key(k)
                        implies running_entries_map(es)[k] == running_entries_map(old_es)[k] by {
                        let j = choose|j: int| 0 <= j < es.len() && es[j].0 == k;
                        lemma_running_lookup(es, j);
                        let j1 = if j < i { j } else { j + 1 };
                        assert(es[j] == old_es[j1]);
                        lemma_running_lookup(old_es, j1);
                    }
                    assert(running_entries_map(es) =~= running_entries_map(old_es).remove(nm));
                }
                Some(pid)
            },
            None => {
                assert(self@ =~= old(self)@.remove(name@));
                None
            },
        }
    }

    /// The names of the running jobs.
    pub fn names(&self) -> (r: Vec<String>)
        requires
            self.wf(),
        ensures
            forall|k: Seq<char>| self@.contains_key(k) <==> views(r@).contains(k),
            r@.len() == self@.dom().len(),
    {
        let mut r: Vec<String> = Vec::new();
        let ghost es = running_entry_views(self.entries@);
        let mut i: usize = 0;
        while i < self.entries.len()
            invariant
                i <= self.entries.len(),
                es == running_entry_views(self.entries@),
                views(r@) == es.take(i as int).map_values(|e: (Seq<char>, i32)| e.0),
            decreases self.entries.len() - i,
        {
            let ghost before = r@;
            let c = self.entries[i].0.clone();
            r.push(c);
            assert(r@ == before.push(c));
            assert(c@ == es[i as int].0);
            assert(views(r@) =~= views(before).push(c@));
            assert(views(r@) =~= es.take(i + 1).map_values(|e: (Seq<char>, i32)| e.0));
            i = i + 1;
        }
        proof {
            assert(es.take(es.len() as int) =~= es);
            let ns = views(r@);
            assert forall|k: Seq<char>| self@.contains_key(k) <==> ns.contains(k) by {
                if self@.contains_key(k) {
                    let j = choose|j: int| 0 <= j < es.len() && es[j].0 == k;
                    assert(ns[j] == k);
                }
                if ns.contains(k) {
                    let j = choose|j: int| 0 <= j < ns.len() && ns[j] == k;
                    assert(es[j].0 == k);
                }
            }
            lemma_names_len(es);
        }
        r
    }

    /// How many jobs are running.
    pub fn len(&self) -> (n: usize)
        requires
            self.wf(),
        ensures
            n == self@.dom().len(),
    {
        proof {
            lemma_names_len(running_entry_views(self.entries@));
        }
        self.entries.len()
    }
}

/// With distinct names, the map has one key per entry.
proof fn lemma_names_len(es: Seq<(Seq<char>, i32)>)
    requires
        distinct_names(es),
    ensures
        running_entries_map(es).dom().len() == es.len(),
        running_entries_map(es).dom().finite(),
    decreases es.len(),
{
    if es.len() == 0 {
        assert(running_entries_map(es).dom() =~= Set::<Seq<char>>::empty());
    } else {
        let init = es.drop_last();
        assert(distinct_names(init));
        lemma_names_len(init);
        let last = es.last().0;
        assert(running_entries_map(es).dom() =~= running_entries_map(init).dom().insert(last)) by {
            assert forall|k: Seq<char>| running_entries_map(es).dom().contains(k) implies running_entries_map(
                init,
            ).dom().insert(last).contains(k) by {
                let j = choose|j: int| 0 <= j < es.len() && es[j].0 == k;
                if j < es.len() - 1 {
                    assert(init[j].0 == k);
                }
            }
            assert forall|k: Seq<char>| running_entries_map(init).dom().insert(last).contains(k) implies running_entries_map(
                es,
            ).dom().contains(k) by {
                if k == last {
                    assert(es[es.len() - 1].0 == k);
                } else {
                    let j = choose|j: int| 0 <= j < init.len() && init[j].0 == k;
                    assert(es[j].0 == k);
                }
            }
        }
        if running_entries_map(init).dom().contains(last) {
            let j = choose|j: int| 0 <= j < init.len() && init[j].0 == last;
            assert(es[j].0 == es[es.len() - 1].0);
        }
    }
}

/// What sets a scheduling round off: the clock, a watched file, or a notification.
#[derive(Debug)]
pub enum Trigger<'a> {
    Time,
    /// full path of the file that changed
    Watch(String),
    Notify(&'a NotifyMessage),
}

/// The mathematical form of a `Trigger`.
pub enum TriggerSpec {
    Time,
    Watch(Seq<char>),
    Notify(NotifyMessageSpec),
}

impl<'a> View for Trigger<'a> {
    type V = TriggerSpec;

    open spec fn view(&self) -> TriggerSpec {
        match self {
            Trigger::Time => TriggerSpec::Time,
            Trigger::Watch(p) => TriggerSpec::Watch(p@),
            Trigger::Notify(m) => TriggerSpec::Notify(m@),
        }
    }
}

/// A signal a job's configuration names.
#[derive(Debug, Clone, Copy, PartialEq, Eq, Structural)]
pub enum SignalName {
    Hup,
    Int,
    Quit,
    Kill,
    Term,
    Usr1,
    Usr2,
    Pipe,
    Alrm,
    Cont,
    Stop,
    Tstp,
}

/// A signal to send: given by number, or by name (its number is the platform's).
#[derive(Debug, Clone, Copy, PartialEq, Eq, Structural)]
pub enum Signal {
    Number(i32),
    Named(SignalName),
}

/// What to do with one job in a scheduling round.
pub enum JobAction {
    Skip,
    /// Send the signal to the job's running process.
    Signal { pid: i32, signal: Signal },
    /// Start the job with these template arguments.
    Exec(ExecArgs),
}

/// The mathematical form of a `JobAction`.
pub enum ActionSpec {
    Skip,
    Signal(i32, Signal),
    Exec(ExecArgsView),
}

impl View for JobAction {
    type V = ActionSpec;

    open spec fn view(&self) -> ActionSpec {
        match self {
            JobAction::Skip => ActionSpec::Skip,
            JobAction::Signal { pid, signal } => ActionSpec::Signal(*pid, *signal),
            JobAction::Exec(a) => ActionSpec::Exec(a@),
        }
    }
}

/// What `str::parse::<i32>` accepts: an optional sign, then one or more decimal
/// digits whose value fits in an `i32`.
pub open spec fn parse_i32(s: Seq<char>) -> Option<i32> {
    let neg = s.len() > 0 && s[0] == '-';
    let body = if s.len() > 0 && (s[0] == '-' || s[0] == '+') {
        s.drop_first()
    } else {
        s
    };
    if body.len() > 0 && all_digits(body) {
        if neg && digits_value(body) <= 2147483648 {
            Some((-digits_value(body)) as i32)
        } else if !neg && digits_value(body) <= 2147483647 {
            Some(digits_value(body) as i32)
        } else {
            None
        }
    } else {
        None
    }
}

/// The upper case of a string, as Unicode defines it.
pub uninterp spec fn str_upper(s: Seq<char>) -> Seq<char>;

/// `str::to_uppercase`, whose result is named `str_upper`.
#[verifier::external_body]
fn to_uppercase(s: &str) -> (r: String)
    ensures
        r@ == str_upper(s@),
{
    s.to_uppercase()
}

/// `s` without any number of leading `SIG`s (what `trim_start_matches("SIG")` gives).
pub open spec fn strip_sig(s: Seq<char>) -> Seq<char>
    decreases s.len(),
{
    if s.len() >= 3 && s.take(3) == seq!['S', 'I', 'G'] {
        strip_sig(s.skip(3))
    } else {
        s
    }
}

/// The signal an upper-case name (without `SIG`) stands for.
pub open spec fn spec_signal_name(u: Seq<char>) -> Option<SignalName> {
    if u == seq!['H', 'U', 'P'] {
        Some(SignalName::Hup)
    } else if u == seq!['I', 'N', 'T'] {
        Some(SignalName::Int)
    } else if u == seq!['Q', 'U', 'I', 'T'] {
        Some(SignalName::Quit)
    } else if u == seq!['K', 'I', 'L', 'L'] {
        Some(SignalName::Kill)
    } else if u == seq!['T', 'E', 'R', 'M'] {
        Some(SignalName::Term)
    } else if u == seq!['U', 'S', 'R', '1'] {
        Some(SignalName::Usr1)
    } else if u == seq!['U', 'S', 'R', '2'] {
        Some(SignalName::Usr2)
    } else if u == seq!['P', 'I', 'P', 'E'] {
        Some(SignalName::Pipe)
    } else if u == seq!['A', 'L', 'R', 'M'] || u == seq!['A', 'L', 'A', 'R', 'M'] {
        Some(SignalName::Alrm)
    } else if u == seq!['C', 'O', 'N', 'T'] {
        Some(SignalName::Cont)
    } else if u == seq!['S', 'T', 'O', 'P'] {
        Some(SignalName::Stop)
    } else if u == seq!['T', 'S', 'T', 'P'] {
        Some(SignalName::Tstp)
    } else {
        None
    }
}

/// The name of each signal as a `signal` setting writes it: upper case, without
/// `SIG` (`HUP` for the hangup signal, `KILL` for kill, ...).
pub open spec fn signal_name_text(n: SignalName) -> Seq<char> {
    match n {
        SignalName::Hup => seq!['H', 'U', 'P'],
        SignalName::Int => seq!['I', 'N', 'T'],
        SignalName::Quit => seq!['Q', 'U', 'I', 'T'],
        SignalName::Kill => seq!['K', 'I', 'L', 'L'],
        SignalName::Term => seq!['T', 'E', 'R', 'M'],
        SignalName::Usr1 => seq!['U', 'S', 'R', '1'],
        SignalName::Usr2 => seq!['U', 'S', 'R', '2'],
        SignalName::Pipe => seq!['P', 'I', 'P', 'E'],
        SignalName::Alrm => seq!['A', 'L', 'R', 'M'],
        SignalName::Cont => seq!['C', 'O', 'N', 'T'],
        SignalName::Stop => seq!['S', 'T', 'O', 'P'],
        SignalName::Tstp => seq!['T', 'S', 'T', 'P'],
    }
}

/// Each signal's name stands for that signal, and a name stands for a signal only
/// when it is that signal's name (or `ALARM`, the other spelling of `ALRM`), so no
/// two signals share a name.
pub proof fn lemma_signal_names(n: SignalName, u: Seq<char>)
    ensures
        spec_signal_name(signal_name_text(n)) == Some(n),
        spec_signal_name(u) == Some(n) ==> u == signal_name_text(n) || (n == SignalName::Alrm && u
            == seq!['A', 'L', 'A', 'R', 'M']),
{
    let x = signal_name_text(n);
    assert(x.len() >= 3);
}

/// The signal a `signal` setting asks for: a positive number, or a known name in any
/// case with or without `SIG`. `None` when nothing is to be sent (a number that is not
/// positive, or an unknown name).
pub open spec fn spec_parse_signal(s: Seq<char>) -> Option<Signal> {
    match parse_i32(s) {
        Some(n) => if n > 0 {
            Some(Signal::Number(n))
        } else {
            None
        },
        None => match spec_signal_name(strip_sig(str_upper(s))) {
            Some(nm) => Some(Signal::Named(nm)),
            None => None,
        },
    }
}

/// `str::parse::<i32>`.
pub fn parse_i32_text(s: &str) -> (r: Option<i32>)
    ensures
        r == parse_i32(s@),
{
    let v = chars_of(s);
    let n = v.len();
    let neg = n > 0 && v[0] == '-';
    let start: usize = if n > 0 && (v[0] == '-' || v[0] == '+') {
        1
    } else {
        0
    };
    assert(v@.subrange(start as int, n as int) =~= (if s@.len() > 0 && (s@[0] == '-' || s@[0]
        == '+') {
        s@.drop_first()
    } else {
        s@
    }));
    if start == n {
        return None;
    }
    let mut e = start;
    while e < n && '0' <= v[e] && v[e] <= '9'
        invariant
            start <= e <= n,
            n == v.len(),
            all_digits(v@.subrange(start as int, e as int)),
        decreases n - e,
    {
        assert(v@.subrange(start as int, e + 1) =~= v@.subrange(start as int, e as int).push(v@[e as int]));
        e = e + 1;
    }
    if e < n {
        assert(!crate::text::is_digit(v@.subrange(start as int, n as int)[e - start]));
        return None;
    }
    if neg {
        match digits_value_upto(&v, start, n, 2147483648u64) {
            Some(m) => {
                let r = (0i64 - (m as i64)) as i32;
                Some(r)
            },
            None => None,
        }
    } else {
        match digits_value_upto(&v, start, n, 2147483647u64) {
            Some(m) => Some(m as i32),
            None => None,
        }
    }
}

/// The signal an upper-case name stands for, after leading `SIG`s are dropped.
pub fn signal_from_name(upper: &str) -> (r: Option<SignalName>)
    ensures
        r == spec_signal_name(strip_sig(upper@)),
{
    let v = chars_of(upper);
    let mut p: usize = 0;
    assert(v@.skip(0) =~= v@);
    while v.len() - p >= 3 && v[p] == 'S' && v[p + 1] == 'I' && v[p + 2] == 'G'
        invariant
            p <= v.len(),
            v@ == upper@,
            strip_sig(upper@) == strip_sig(v@.skip(p as int)),
        decreases v.len() - p,
    {
        assert(v@.skip(p as int).take(3) =~= seq!['S', 'I', 'G']);
        assert(v@.skip(p as int).skip(3) =~= v@.skip(p + 3));
        p = p + 3;
    }
    proof {
        let t = v@.skip(p as int);
        if t.len() >= 3 && t.take(3) == seq!['S', 'I', 'G'] {
            assert(t.take(3)[0] == v@[p as int]);
            assert(t.take(3)[1] == v@[p + 1]);
            assert(t.take(3)[2] == v@[p + 2]);
        }
    }
    let rest = string_of(&v, p, v.len());
    assert(v@.subrange(p as int, v.len() as int) =~= v@.skip(p as int));
    let r = rest.as_str();
    if text_is(r, {
            let k: &[char] = &['H', 'U', 'P'];
            assert(k@ =~= seq!['H', 'U', 'P']);
            k
        }) {
        Some(SignalName::Hup)
    } else if text_is(r, {
            let k: &[char] = &['I', 'N', 'T'];
            assert(k@ =~= seq!['I', 'N', 'T']);
            k
        }) {
        Some(SignalName::Int)
    } else if text_is(r, {
            let k: &[char] = &['Q', 'U', 'I', 'T'];
            assert(k@ =~= seq!['Q', 'U', 'I', 'T']);
            k
        }) {
        Some(SignalName::Quit)
    } else if text_is(r, {
            let k: &[char] = &['K', 'I', 'L', 'L'];
            assert(k@ =~= seq!['K', 'I', 'L', 'L']);
            k
        }) {
        Some(SignalName::Kill)
    } else if text_is(r, {
            let k: &[char] = &['T', 'E', 'R', 'M'];
            assert(k@ =~= seq!['T', 'E', 'R', 'M']);
            k
        }) {
        Some(SignalName::Term)
    } else if text_is(r, {
            let k: &[char] = &['U', 'S', 'R', '1'];
            assert(k@ =~= seq!['U', 'S', 'R', '1']);
            k
        }) {
        Some(SignalName::Usr1)
    } else if text_is(r, {
            let k: &[char] = &['U', 'S', 'R', '2'];
            assert(k@ =~= seq!['U', 'S', 'R', '2']);
            k
        }) {
        Some(SignalName::Usr2)
    } else if text_is(r, {
            let k: &[char] = &['P', 'I', 'P', 'E'];
            assert(k@ =~= seq!['P', 'I', 'P', 'E']);
            k
        }) {
        Some(SignalName::Pipe)
    } else if text_is(r, {
            let k: &[char] = &['A', 'L', 'R', 'M'];
            assert(k@ =~= seq!['A', 'L', 'R', 'M']);
            k
        }) || text_is(r, {
            let k: &[char] = &['A', 'L', 'A', 'R', 'M'];
            assert(k@ =~= seq!['A', 'L', 'A', 'R', 'M']);
            k
        }) {
        Some(SignalName::Alrm)
    } else if text_is(r, {
            let k: &[char] = &['C', 'O', 'N', 'T'];
            assert(k@ =~= seq!['C', 'O', 'N', 'T']);
            k
        }) {
        Some(SignalName::Cont)
    } else if text_is(r, {
            let k: &[char] = &['S', 'T', 'O', 'P'];
            assert(k@ =~= seq!['S', 'T', 'O', 'P']);
            k
        }) {
        Some(SignalName::Stop)
    } else if text_is(r, {
            let k: &[char] = &['T', 'S', 'T', 'P'];
            assert(k@ =~= seq!['T', 'S', 'T', 'P']);
            k
        }) {
        Some(SignalName::Tstp)
    } else {
        None
    }
}

/// The signal a `signal` setting asks for, if any.
pub fn parse_signal(s: &str) -> (r: Option<Signal>)
    ensures
        r == spec_parse_signal(s@),
{
    match parse_i32_text(s) {
        Some(n) => if n > 0 {
            Some(Signal::Number(n))
        } else {
            None
        },
        None => {
            let upper = to_uppercase(s);
            match signal_from_name(upper.as_str()) {
                Some(nm) => Some(Signal::Named(nm)),
                None => None,
            }
        },
    }
}

/// One of the job's conflicts is running.
pub open spec fn spec_in_conflicts(j: JobSpec, running: Map<Seq<char>, i32>) -> bool {
    exists|i: int| 0 <= i < j.conflicts.len() && running.contains_key(#[trigger] j.conflicts[i])
}

/// One of the job's dependencies is not running.
pub open spec fn spec_no_dependency(j: JobSpec, running: Map<Seq<char>, i32>) -> bool {
    exists|i: int| 0 <= i < j.depends.len() && !running.contains_key(#[trigger] j.depends[i])
}

/// The path begins with one of the watched paths.
pub open spec fn spec_in_watch(watch: Seq<Seq<char>>, path: Seq<char>) -> bool {
    exists|i: int| 0 <= i < watch.len() && has_prefix(path, #[trigger] watch[i])
}

/// Whether two intervals are of the same event kind, or both counts of seconds.
pub open spec fn spec_interval_matches(a: Interval, b: Interval) -> bool {
    match (a, b) {
        (Interval::OnChange, Interval::OnChange) => true,
        (Interval::StartMessage, Interval::StartMessage) => true,
        (Interval::SuccessMessage, Interval::SuccessMessage) => true,
        (Interval::FailureMessage, Interval::FailureMessage) => true,
        (Interval::Seconds(_), Interval::Seconds(_)) => true,
        _ => false,
    }
}

/// Whether one of the job's conflicts is running.
pub fn in_conflicts(job: &Job, running: &RunningJobs) -> (r: bool)
    requires
        running.wf(),
    ensures
        r == spec_in_conflicts(job@, running@),
{
    let mut i: usize = 0;
    while i < job.conflicts.len()
        invariant
            i <= job.conflicts.len(),
            running.wf(),
            forall|k: int| 0 <= k < i ==> !running@.contains_key(#[trigger] job@.conflicts[k]),
        decreases job.conflicts.len() - i,
    {
        if running.contains(job.conflicts[i].as_str()) {
            assert(running@.contains_key(job@.conflicts[i as int]));
            return true;
        }
        i = i + 1;
    }
    false
}

/// Whether one of the job's dependencies is not running.
pub fn no_dependency(job: &Job, running: &RunningJobs) -> (r: bool)
    requires
        running.wf(),
    ensures
        r == spec_no_dependency(job@, running@),
{
    let mut i: usize = 0;
    while i < job.depends.len()
        invariant
            i <= job.depends.len(),
            running.wf(),
            forall|k: int| 0 <= k < i ==> running@.contains_key(#[trigger] job@.depends[k]),
        decreases job.depends.len() - i,
    {
        if !running.contains(job.depends[i].as_str()) {
            assert(!running@.contains_key(job@.depends[i as int]));
            return true;
        }
        i = i + 1;
    }
    false
}

/// Whether `s` begins with `prefix`.
pub fn starts_with_text(s: &str, prefix: &str) -> (r: bool)
    ensures
        r == has_prefix(s@, prefix@),
{
    let v = chars_of(s);
    let w = chars_of(prefix);
    if w.len() > v.len() {
        return false;
    }
    let mut i: usize = 0;
    while i < w.len()
        invariant
            i <= w.len() <= v.len(),
            v@ == s@,
            w@ == prefix@,
            forall|k: int| 0 <= k < i ==> v@[k] == w@[k],
        decreases w.len() - i,
    {
        if v[i] != w[i] {
            assert(s@.take(prefix@.len() as int)[i as int] != prefix@[i as int]);
            return false;
        }
        i = i + 1;
    }
    assert(s@.take(prefix@.len() as int) =~= prefix@);
    true
}

/// Whether the path begins with one of the job's watched paths.
pub fn in_watch(job: &Job, fullpath: &str) -> (r: bool)
    ensures
        r == spec_in_watch(job@.watch, fullpath@),
{
    let mut i: usize = 0;
    while i < job.watch.len()
        invariant
            i <= job.watch.len(),
            forall|k: int| 0 <= k < i ==> !has_prefix(fullpath@, #[trigger] job@.watch[k]),
        decreases job.watch.len() - i,
    {
        if starts_with_text(fullpath, job.watch[i].as_str()) {
            assert(has_prefix(fullpath@, job@.watch[i as int]));
            return true;
        }
        i = i + 1;
    }
    false
}

/// Whether two intervals are of the same event kind, or both counts of seconds.
pub fn interval_matches(a: &Interval, b: &Interval) -> (r: bool)
    ensures
        r == spec_interval_matches(*a, *b),
{
    match (a, b) {
        (Interval::OnChange, Interval::OnChange) => true,
        (Interval::StartMessage, Interval::StartMessage) => true,
        (Interval::SuccessMessage, Interval::SuccessMessage) => true,
        (Interval::FailureMessage, Interval::FailureMessage) => true,
        (Interval::Seconds(_), Interval::Seconds(_)) => true,
        _ => false,
    }
}

/// How far a random delay may reach beyond the low end of a range (0 when the range is
/// empty or the interval is not a range).
pub open spec fn range_span(i: Interval) -> u64 {
    match i {
        Interval::Range(lo, hi) => if hi >= lo {
            (hi - lo) as u64
        } else {
            0
        },
        _ => 0,
    }
}

/// The interval in force for this round: a range becomes its low end plus the
/// random offset.
pub open spec fn effective_interval(i: Interval, offset: u64) -> Interval {
    match i {
        Interval::Range(lo, hi) => Interval::Seconds((lo + offset) as u64),
        _ => i,
    }
}

/// The interval kind that a notification starts.
pub open spec fn message_interval(t: NotifyType) -> Option<Interval> {
    match t {
        NotifyType::StartMessage => Some(Interval::StartMessage),
        NotifyType::SuccessMessage => Some(Interval::SuccessMessage),
        NotifyType::FailureMessage => Some(Interval::FailureMessage),
        NotifyType::Ping => None,
    }
}

/// Whether the trigger suits the interval in force: a file change starts `onchange`
/// jobs that watch the file, a notification starts jobs of its kind, and the clock
/// starts jobs with a count of seconds.
pub open spec fn trigger_admits(tr: TriggerSpec, eff: Interval, j: JobSpec) -> bool {
    match tr {
        TriggerSpec::Watch(p) => eff == Interval::OnChange && spec_in_watch(j.watch, p),
        TriggerSpec::Notify(m) => match message_interval(m.notify_type) {
            Some(e) => spec_interval_matches(eff, e),
            None => false,
        },
        TriggerSpec::Time => !(eff is OnChange || eff is StartMessage || eff is SuccessMessage
            || eff is FailureMessage),
    }
}

/// `a - b`, or zero when `b` is larger.
pub open spec fn sat_sub(a: u64, b: u64) -> int {
    if a >= b {
        a - b
    } else {
        0
    }
}

/// On a clock round, the job's interval has not yet passed since its last start
/// or since the scheduler started.
pub open spec fn too_soon(tr: TriggerSpec, eff: Interval, j: JobSpec, now: u64, start: u64) -> bool {
    tr is Time && match eff {
        Interval::Seconds(secs) => (j.exec_time_unix > 0 && sat_sub(now, j.exec_time_unix) < secs)
            || sat_sub(now, start) < secs,
        _ => false,
    }
}

/// The template arguments a trigger hands to the job it starts.
pub open spec fn exec_args_for(tr: TriggerSpec, host: Seq<char>) -> ExecArgsView {
    match tr {
        TriggerSpec::Watch(p) => (p, seq!['k', 'u', 'b', 'j', 'a', 's'], host),
        TriggerSpec::Notify(m) => (notify_type_text(m.notify_type), m.from_job, m.from_host),
        TriggerSpec::Time => (Seq::<char>::empty(), Seq::<char>::empty(), Seq::<char>::empty()),
    }
}

/// What a round does with one job, given whether its period admits the current time
/// and the random offset for a range interval. In order: a notification for another
/// job, a period that does not admit now, a running conflict, a dependency not
/// running, a disabled interval, a trigger that does not suit the interval, or a
/// clock round before the interval has passed, each skip the job. Otherwise a job
/// that is running is signalled (on an event, when it has a signal setting) or
/// skipped, and a job that is not running is started.
pub open spec fn spec_decide(
    tr: TriggerSpec,
    j: JobSpec,
    running: Map<Seq<char>, i32>,
    now: u64,
    start: u64,
    host: Seq<char>,
    period_ok: bool,
    offset: u64,
) -> ActionSpec {
    if tr matches TriggerSpec::Notify(m) && m.to_job != j.name {
        ActionSpec::Skip
    } else if j.period is Some && !period_ok {
        ActionSpec::Skip
    } else if spec_in_conflicts(j, running) || spec_no_dependency(j, running) {
        ActionSpec::Skip
    } else if j.interval is Disabled {
        ActionSpec::Skip
    } else if !trigger_admits(tr, effective_interval(j.interval, offset), j) || too_soon(
        tr,
        effective_interval(j.interval, offset),
        j,
        now,
        start,
    ) {
        ActionSpec::Skip
    } else if !(tr is Time) && j.signal is Some && running.contains_key(j.name) {
        match spec_parse_signal(j.signal->Some_0) {
            Some(sig) => ActionSpec::Signal(running[j.name], sig),
            None => ActionSpec::Skip,
        }
    } else if running.contains_key(j.name) {
        ActionSpec::Skip
    } else {
        ActionSpec::Exec(exec_args_for(tr, host))
    }
}

/// A job is started only when it is not running, none of the jobs it conflicts
/// with is running, every job it depends on is running, its interval is not
/// disabled and its period (if any) admits the time. A file change starts only
/// `onchange` jobs that watch the file, a notification only the job it names when
/// the job's interval is of the notification's kind, and a clock round only jobs
/// with a count or range of seconds, once that many seconds (counted from zero when
/// the clock reads earlier) have passed since the job's last start and since the
/// scheduler started.
pub proof fn lemma_exec_guard(
    tr: TriggerSpec,
    j: JobSpec,
    running: Map<Seq<char>, i32>,
    now: u64,
    start: u64,
    host: Seq<char>,
    period_ok: bool,
    offset: u64,
)
    requires
        spec_decide(tr, j, running, now, start, host, period_ok, offset) is Exec,
    ensures
        !running.contains_key(j.name),
        forall|i: int| 0 <= i < j.conflicts.len() ==> !running.contains_key(#[trigger] j.conflicts[i]),
        forall|i: int| 0 <= i < j.depends.len() ==> running.contains_key(#[trigger] j.depends[i]),
        !(j.interval is Disabled),
        j.period is Some ==> period_ok,
        tr matches TriggerSpec::Watch(p) ==> j.interval == Interval::OnChange && spec_in_watch(
            j.watch,
            p,
        ),
        tr matches TriggerSpec::Notify(m) ==> m.to_job == j.name && message_interval(m.notify_type)
            == Some(j.interval),
        tr is Time ==> (j.interval is Seconds || j.interval is Range),
        tr is Time ==> match effective_interval(j.interval, offset) {
            Interval::Seconds(secs) => (j.exec_time_unix == 0 || sat_sub(now, j.exec_time_unix) >= secs)
                && sat_sub(now, start) >= secs,
            _ => true,
        },
{
}

/// A notification kind matches the interval written with the same word: a
/// start-message, success-message or failure-message notification matches the
/// interval of that name and no other, and a ping matches none.
pub proof fn lemma_notification_kinds(t: NotifyType, i: Interval)
    ensures
        message_interval(t) == Some(i) <==> (t != NotifyType::Ping && interval_text(i)
            == notify_type_text(t)),
{
    let w = notify_type_text(t);
    let x = interval_text(i);
    match i {
        Interval::Seconds(n) => {
            lemma_decimal(n as nat);
            assert(is_digit(x[0]));
            if t != NotifyType::Ping {
                assert(!is_digit(w[0]));
            }
        },
        Interval::Range(lo, hi) => {
            lemma_decimal(lo as nat);
            assert(x[0] == decimal(lo as nat)[0]);
            assert(is_digit(x[0]));
            if t != NotifyType::Ping {
                assert(!is_digit(w[0]));
            }
        },
        _ => {
            if t != NotifyType::Ping && x.len() == w.len() {
                assert(x[0] != w[0] || x == w);
            }
        },
    }
}

/// A notification addressed to a job that is not running and has no period,
/// conflicts or dependencies starts it exactly when the job's interval is written
/// with the notification's word (start-message, success-message or failure-message).
pub proof fn lemma_notification_starts(
    m: NotifyMessageSpec,
    j: JobSpec,
    running: Map<Seq<char>, i32>,
    now: u64,
    start: u64,
    host: Seq<char>,
    offset: u64,
)
    requires
        m.to_job == j.name,
        j.period is None,
        j.conflicts.len() == 0,
        j.depends.len() == 0,
        !running.contains_key(j.name),
    ensures
        spec_decide(TriggerSpec::Notify(m), j, running, now, start, host, true, offset) is Exec <==> (
        m.notify_type != NotifyType::Ping && interval_text(j.interval) == notify_type_text(
            m.notify_type,
        )),
{
    lemma_notification_kinds(m.notify_type, j.interval);
    match message_interval(m.notify_type) {
        Some(e) => {
            lemma_notification_kinds(m.notify_type, e);
        },
        None => {},
    }
}

/// A running job is signalled only on an outside event (a watched file or a
/// notification), never on a clock round, and the signal goes to its own process.
pub proof fn lemma_signal_guard(
    tr: TriggerSpec,
    j: JobSpec,
    running: Map<Seq<char>, i32>,
    now: u64,
    start: u64,
    host: Seq<char>,
    period_ok: bool,
    offset: u64,
)
    requires
        spec_decide(tr, j, running, now, start, host, period_ok, offset) is Signal,
    ensures
        !(tr is Time),
        running.contains_key(j.name),
        spec_decide(tr, j, running, now, start, host, period_ok, offset)->Signal_0 == running[j.name],
        j.signal is Some && spec_parse_signal(j.signal->Some_0) == Some(
            spec_decide(tr, j, running, now, start, host, period_ok, offset)->Signal_1,
        ),
{
}

/// A range `lo-hi` waits a number of seconds from `lo` to `hi` for every offset the
/// random draw may give.
pub proof fn lemma_range_delay(lo: u64, hi: u64, offset: u64)
    requires
        lo <= hi,
        offset <= range_span(Interval::Range(lo, hi)),
    ensures
        effective_interval(Interval::Range(lo, hi), offset) matches Interval::Seconds(secs) && lo
            <= secs <= hi,
{
}

/// The template arguments a trigger hands to the job it starts.
fn exec_args_from(trigger: &Trigger, my_host: &str) -> (r: ExecArgs)
    ensures
        r@ == exec_args_for(trigger@, my_host@),
{
    match trigger {
        Trigger::Watch(path) => ExecArgs {
            notify: path.clone(),
            from_job: string_from({
            let k: &[char] = &['k', 'u', 'b', 'j', 'a', 's'];
            assert(k@ =~= seq!['k', 'u', 'b', 'j', 'a', 's']);
            k
        }),
            host: crate::text::copy_string(my_host),
        },
        Trigger::Notify(msg) => {
            let t = msg.notify_type.as_str();
            ExecArgs {
                notify: crate::text::copy_string(t),
                from_job: msg.from_job.clone(),
                host: msg.from_host.clone(),
            }
        },
        Trigger::Time => {
            let r = ExecArgs { notify: String::new(), from_job: String::new(), host: String::new() };
            assert(r@ =~= (Seq::<char>::empty(), Seq::<char>::empty(), Seq::<char>::empty()));
            r
        },
    }
}

/// Decides what a round does with one job, given whether its period admits the
/// current time and the random offset for a range interval.
pub fn decide_with(
    trigger: &Trigger,
    job: &Job,
    running: &RunningJobs,
    now_unix: u64,
    start_time_unix: u64,
    my_host: &str,
    period_ok: bool,
    offset: u64,
) -> (r: JobAction)
    requires
        running.wf(),
        offset <= range_span(job@.interval),
    ensures
        r@ == spec_decide(
            trigger@,
            job@,
            running@,
            now_unix,
            start_time_unix,
            my_host@,
            period_ok,
            offset,
        ),
{
    if let Trigger::Notify(msg) = trigger {
        if !same_text(msg.to_job.as_str(), job.name.as_str()) {
            return JobAction::Skip;
        }
    }
    if job.period.is_some() && !period_ok {
        return JobAction::Skip;
    }
    if in_conflicts(job, running) || no_dependency(job, running) {
        return JobAction::Skip;
    }
    let effective = match job.interval {
        Interval::Disabled => return JobAction::Skip,
        Interval::Range(lo, hi) => Interval::Seconds(lo + offset),
        other => other,
    };
    assert(effective == effective_interval(job@.interval, offset));
    let admitted = match trigger {
        Trigger::Watch(path) => match effective {
            Interval::OnChange => in_watch(job, path.as_str()),
            _ => false,
        },
        Trigger::Notify(msg) => {
            let expected = match msg.notify_type {
                NotifyType::StartMessage => Interval::StartMessage,
                NotifyType::SuccessMessage => Interval::SuccessMessage,
                NotifyType::FailureMessage => Interval::FailureMessage,
                NotifyType::Ping => return JobAction::Skip,
            };
            interval_matches(&effective, &expected)
        },
        Trigger::Time => match effective {
            Interval::OnChange | Interval::StartMessage | Interval::SuccessMessage
            | Interval::FailureMessage => false,
            _ => true,
        },
    };
    if !admitted {
        return JobAction::Skip;
    }
    if let Trigger::Time = trigger {
        if let Interval::Seconds(secs) = effective {
            let last_exec = job.exec_time_unix;
            if last_exec > 0 && now_unix.saturating_sub(last_exec) < secs {
                return JobAction::Skip;
            }
            if now_unix.saturating_sub(start_time_unix) < secs {
                return JobAction::Skip;
            }
        }
    }
    let is_time = match trigger {
        Trigger::Time => true,
        _ => false,
    };
    if let Some(sig_name) = &job.signal {
        if !is_time {
            if let Some(pid) = running.get(job.name.as_str()) {
                return match parse_signal(sig_name.as_str()) {
                    Some(signal) => JobAction::Signal { pid, signal },
                    None => JobAction::Skip,
                };
            }
        }
    }
    if running.contains(job.name.as_str()) {
        return JobAction::Skip;
    }
    JobAction::Exec(exec_args_from(trigger, my_host))
}

/// `rand::thread_rng()`: the thread's random number generator. Nothing is stated of it.
#[verifier::external_type_specification]
#[verifier::external_body]
pub struct ExThreadRng(rand::rngs::ThreadRng);

/// `rand::thread_rng()`. Nothing is stated of the generator it gives.
#[verifier::external_body]
fn thread_rng() -> rand::rngs::ThreadRng {
    rand::thread_rng()
}

/// `Rng::gen_range(0..=max)` on the thread's generator: some number from 0 to `max`.
/// The range is never empty, so the call does not panic.
#[verifier::external_body]
fn gen_up_to(rng: &mut rand::rngs::ThreadRng, max: u64) -> (r: u64)
    ensures
        r <= max,
{
    rng.gen_range(0..=max)
}

/// Decides what a round does with one job: reads the clock for the job's period and,
/// for a range interval that passes the conflict and dependency checks, draws the
/// random delay. The result is `spec_decide` for a period answer that the current
/// time can give and some offset within the range.
pub fn decide(
    trigger: &Trigger,
    job: &Job,
    running: &RunningJobs,
    now_unix: u64,
    start_time_unix: u64,
    my_host: &str,
) -> (r: JobAction)
    requires
        running.wf(),
    ensures
        exists|period_ok: bool, offset: u64|
            #![trigger spec_decide(trigger@, job@, running@, now_unix, start_time_unix, my_host@, period_ok, offset)]
            {
                &&& (job@.period matches Some(p) ==> exists|t: TimeFields|
                    t.valid() && period_ok == spec_in_period(p, t))
                &&& offset <= range_span(job@.interval)
                &&& r@ == spec_decide(
                    trigger@,
                    job@,
                    running@,
                    now_unix,
                    start_time_unix,
                    my_host@,
                    period_ok,
                    offset,
                )
            },
{
    let period_ok = match &job.period {
        Some(p) => in_period(p.as_str()),
        None => true,
    };
    let mut offset: u64 = 0;
    if let Interval::Range(lo, hi) = job.interval {
        if period_ok && !in_conflicts(job, running) && !no_dependency(job, running) {
            let mut rng = thread_rng();
            offset = gen_up_to(&mut rng, hi.saturating_sub(lo));
        }
    }
    let r = decide_with(trigger, job, running, now_unix, start_time_unix, my_host, period_ok, offset);
    assert(r@ == spec_decide(
        trigger@,
        job@,
        running@,
        now_unix,
        start_time_unix,
        my_host@,
        period_ok,
        offset,
    ));
    r
}

/// Records that a job was started as process `pid`: it is running, its start time is
/// now (`now_us` is the microsecond clock, kept modulo one million), and the targets
/// of its start notifications are given back.
pub fn record_start(job: &mut Job, running: &mut RunningJobs, pid: i32, now_unix: u64, now_us: u64) -> (r: Vec<String>)
    requires
        old(running).wf(),
    ensures
        final(running).wf(),
        final(running)@ == old(running)@.insert(old(job)@.name, pid),
        final(job)@ == (JobSpec { exec_time_unix: now_unix, exec_ms: (now_us % 1000000) as u64, ..old(job)@ }),
        views(r@) == old(job)@.notify_start,
{
    running.insert(job.name.clone(), pid);
    job.exec_time_unix = now_unix;
    job.exec_ms = now_us % 1_000_000;
    crate::config::copy_strings(&job.notify_start)
}

/// Where a job with start time `t` goes among jobs ordered by start time: after all
/// those that started no later.
pub open spec fn insert_pos(s: Seq<JobSpec>, t: u64) -> int
    decreases s.len(),
{
    if s.len() == 0 {
        0
    } else if s[0].exec_time_unix > t {
        0
    } else {
        1 + insert_pos(s.drop_first(), t)
    }
}

/// The jobs ordered by start time, least recent first; jobs with the same start
/// time keep their order.
pub open spec fn sort_by_exec_time(s: Seq<JobSpec>) -> Seq<JobSpec>
    decreases s.len(),
{
    if s.len() == 0 {
        seq![]
    } else {
        let r = sort_by_exec_time(s.drop_last());
        r.insert(insert_pos(r, s.last().exec_time_unix), s.last())
    }
}

proof fn lemma_insert_pos(s: Seq<JobSpec>, t: u64)
    ensures
        0 <= insert_pos(s, t) <= s.len(),
        forall|k: int| 0 <= k < insert_pos(s, t) ==> s[k].exec_time_unix <= t,
        insert_pos(s, t) < s.len() ==> s[insert_pos(s, t)].exec_time_unix > t,
    decreases s.len(),
{
    if s.len() > 0 && s[0].exec_time_unix <= t {
        lemma_insert_pos(s.drop_first(), t);
        assert forall|k: int| 0 <= k < insert_pos(s, t) implies s[k].exec_time_unix <= t by {
            if k > 0 {
                assert(s[k] == s.drop_first()[k - 1]);
            }
        }
    }
}

/// Ordering jobs by start time keeps the same jobs and leaves them in
/// non-decreasing order of start time.
pub proof fn lemma_sort_by_exec_time(s: Seq<JobSpec>)
    ensures
        sort_by_exec_time(s).to_multiset() == s.to_multiset(),
        forall|i: int, k: int|
            0 <= i <= k < sort_by_exec_time(s).len() ==> (#[trigger] sort_by_exec_time(s)[i]).exec_time_unix
                <= (#[trigger] sort_by_exec_time(s)[k]).exec_time_unix,
    decreases s.len(),
{
    if s.len() > 0 {
        let init = s.drop_last();
        let x = s.last();
        let r = sort_by_exec_time(init);
        lemma_sort_by_exec_time(init);
        let t = x.exec_time_unix;
        lemma_insert_pos(r, t);
        let p = insert_pos(r, t);
        r.insert_ensures(p, x);
        vstd::seq_lib::to_multiset_insert(r, p, x);
        vstd::seq_lib::to_multiset_build(init, x);
        assert(init.push(x) =~= s);
        let q = r.insert(p, x);
        assert(q == sort_by_exec_time(s));
        assert forall|i: int, k: int| 0 <= i <= k < q.len() implies q[i].exec_time_unix
            <= q[k].exec_time_unix by {
            if i < p {
                if k < p {
                } else if k == p {
                } else {
                    assert(q[k] == r[k - 1]);
                }
            } else if i == p {
                if k > p {
                    assert(q[k] == r[k - 1]);
                    assert(r[p].exec_time_unix <= r[k - 1].exec_time_unix);
                }
            } else {
                assert(q[i] == r[i - 1]);
                assert(q[k] == r[k - 1]);
            }
        }
    } else {
        assert(s =~= Seq::<JobSpec>::empty());
        assert(sort_by_exec_time(s) =~= Seq::<JobSpec>::empty());
    }
}

/// Orders the jobs by start time, least recently started first (a stable sort).
pub fn sort_jobs_by_exec_time(jobs: &mut Vec<Job>)
    ensures
        job_views(final(jobs)@) == sort_by_exec_time(job_views(old(jobs)@)),
{
    let ghost orig = job_views(jobs@);
    let mut out: Vec<Job> = Vec::new();
    let mut k: usize = 0;
    let n = jobs.len();
    assert(orig.skip(0) =~= orig);
    while jobs.len() > 0
        invariant
            k + jobs.len() == n,
            n == orig.len(),
            job_views(jobs@) == orig.skip(k as int),
            job_views(out@) == sort_by_exec_time(orig.take(k as int)),
        decreases jobs.len(),
    {
        let ghost before = jobs@;
        let job = jobs.remove(0);
        assert(jobs@ == before.remove(0));
        assert(job == before[0]);
        assert(job@ == orig[k as int]) by {
            assert(job_views(before)[0] == orig.skip(k as int)[0]);
        }
        assert(job_views(jobs@) =~= orig.skip(k + 1)) by {
            assert forall|q: int| 0 <= q < jobs@.len() implies job_views(jobs@)[q] == orig.skip(k + 1)[q] by {
                assert(jobs@[q] == before[q + 1]);
                assert(job_views(before)[q + 1] == orig.skip(k as int)[q + 1]);
            }
        }
        let t = job.exec_time_unix;
        let ghost sorted = job_views(out@);
        proof {
            lemma_insert_pos(sorted, t);
        }
        let mut p: usize = 0;
        while p < out.len() && out[p].exec_time_unix <= t
            invariant
                p <= out.len(),
                sorted == job_views(out@),
                forall|q: int| 0 <= q < p ==> sorted[q].exec_time_unix <= t,
            decreases out.len() - p,
        {
            p = p + 1;
        }
        proof {
            let ip = insert_pos(sorted, t);
            if (p as int) < ip {
                assert(sorted[p as int].exec_time_unix <= t);
            }
            if ip < (p as int) {
                assert(sorted[ip].exec_time_unix <= t);
            }
        }
        let ghost jv = job@;
        out.insert(p, job);
        proof {
            assert(orig.take(k + 1).drop_last() =~= orig.take(k as int));
            assert(orig.take(k + 1).last() == jv);
            assert(job_views(out@) =~= sorted.insert(p as int, jv));
        }
        k = k + 1;
    }
    assert(orig.take(n as int) =~= orig);
    *jobs = out;
}

/// Ends a scheduling round: when some job was started, the jobs are ordered by start
/// time; otherwise they stay as they are.
pub fn finish_round(jobs: &mut Vec<Job>, started: &Vec<(String, i32)>)
    ensures
        started@.len() > 0 ==> job_views(final(jobs)@) == sort_by_exec_time(job_views(old(jobs)@)),
        started@.len() == 0 ==> final(jobs)@ == old(jobs)@,
{
    if started.len() > 0 {
        sort_jobs_by_exec_time(jobs);
    }
}

} // verus!
