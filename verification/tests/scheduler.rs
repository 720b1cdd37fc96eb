use kubjas::config::{Interval, Job};
use kubjas::notify::{NotifyMessage, NotifyType};
use kubjas::scheduler::{
    decide, decide_with, finish_round, in_conflicts, in_watch, interval_matches, no_dependency, parse_i32_text,
    parse_signal, record_start, signal_from_name, sort_jobs_by_exec_time, starts_with_text,
    JobAction, RunningJobs, Signal, SignalName, Trigger,
};

fn job(name: &str, interval: Interval) -> Job {
    let mut j = Job::default(name);
    j.cmdline = Some("/bin/true".to_string());
    j.interval = interval;
    j
}

fn message(to: &str, t: NotifyType) -> NotifyMessage {
    NotifyMessage {
        to_job: to.to_string(),
        notify_type: t,
        from_job: "job-one".to_string(),
        from_host: "10.1.1.1".to_string(),
    }
}

fn is_exec(a: &JobAction) -> bool {
    matches!(a, JobAction::Exec(_))
}

fn is_skip(a: &JobAction) -> bool {
    matches!(a, JobAction::Skip)
}

#[test]
fn running_jobs_table() {
    let mut r = RunningJobs::new();
    assert_eq!(r.len(), 0);
    r.insert("a".to_string(), 10);
    r.insert("b".to_string(), 11);
    r.insert("a".to_string(), 12);
    assert_eq!(r.len(), 2);
    assert_eq!(r.get("a"), Some(12));
    assert!(r.contains("b"));
    assert!(!r.contains("c"));
    let mut names = r.names();
    names.sort();
    assert_eq!(names, vec!["a".to_string(), "b".to_string()]);
    assert_eq!(r.remove("a"), Some(12));
    assert_eq!(r.remove("a"), None);
    assert!(!r.contains("a"));
    assert_eq!(r.len(), 1);
}

#[test]
fn signal_settings() {
    assert_eq!(parse_signal("HUP"), Some(Signal::Named(SignalName::Hup)));
    assert_eq!(parse_signal("hup"), Some(Signal::Named(SignalName::Hup)));
    assert_eq!(parse_signal("sigterm"), Some(Signal::Named(SignalName::Term)));
    assert_eq!(parse_signal("SIGSIGUSR1"), Some(Signal::Named(SignalName::Usr1)));
    assert_eq!(parse_signal("alarm"), Some(Signal::Named(SignalName::Alrm)));
    assert_eq!(parse_signal("ALRM"), Some(Signal::Named(SignalName::Alrm)));
    assert_eq!(parse_signal("USR2"), Some(Signal::Named(SignalName::Usr2)));
    assert_eq!(parse_signal("9"), Some(Signal::Number(9)));
    assert_eq!(parse_signal("+15"), Some(Signal::Number(15)));
    assert_eq!(parse_signal("0"), None);
    assert_eq!(parse_signal("-1"), None);
    assert_eq!(parse_signal("bogus"), None);
    assert_eq!(parse_signal(""), None);
    assert_eq!(signal_from_name("TSTP"), Some(SignalName::Tstp));
    assert_eq!(signal_from_name("hup"), None);
}

#[test]
fn integer_settings() {
    assert_eq!(parse_i32_text("-12"), Some(-12));
    assert_eq!(parse_i32_text("+5"), Some(5));
    assert_eq!(parse_i32_text("2147483647"), Some(2147483647));
    assert_eq!(parse_i32_text("-2147483648"), Some(-2147483648));
    assert_eq!(parse_i32_text("2147483648"), None);
    assert_eq!(parse_i32_text("-"), None);
    assert_eq!(parse_i32_text("1 "), None);
}

#[test]
fn conflicts_and_dependencies() {
    let mut j = job("hard-work", Interval::Seconds(1));
    j.conflicts = vec!["cpu-work1".to_string(), "hard-work2".to_string()];
    j.depends = vec!["main-worker".to_string()];
    let mut r = RunningJobs::new();
    assert!(!in_conflicts(&j, &r));
    assert!(no_dependency(&j, &r));
    r.insert("main-worker".to_string(), 5);
    assert!(!no_dependency(&j, &r));
    r.insert("hard-work2".to_string(), 6);
    assert!(in_conflicts(&j, &r));
}

#[test]
fn watch_paths_and_interval_kinds() {
    let mut j = job("readfile", Interval::OnChange);
    j.watch = vec!["/etc/myapp".to_string(), "/var/tmp/date.txt".to_string()];
    assert!(in_watch(&j, "/var/tmp/date.txt"));
    assert!(in_watch(&j, "/etc/myapp/config.yaml"));
    assert!(!in_watch(&j, "/var/tmp/other.txt"));
    assert!(starts_with_text("/a/b", "/a"));
    assert!(!starts_with_text("/a", "/a/b"));
    assert!(interval_matches(&Interval::Seconds(1), &Interval::Seconds(99)));
    assert!(interval_matches(&Interval::OnChange, &Interval::OnChange));
    assert!(!interval_matches(&Interval::Range(1, 2), &Interval::Seconds(1)));
    assert!(!interval_matches(&Interval::Disabled, &Interval::Disabled));
}

#[test]
fn clock_round_starts_due_job() {
    let j = job("date-job", Interval::Seconds(60));
    let r = RunningJobs::new();
    let a = decide_with(&Trigger::Time, &j, &r, 1000, 900, "myhost", true, 0);
    match a {
        JobAction::Exec(args) => {
            assert_eq!(args.notify, "");
            assert_eq!(args.from_job, "");
            assert_eq!(args.host, "");
        },
        _ => panic!("expected a start"),
    }
    // not yet an interval since the scheduler started
    assert!(is_skip(&decide_with(&Trigger::Time, &j, &r, 1000, 990, "myhost", true, 0)));
    // not yet an interval since the last start
    let mut k = job("date-job", Interval::Seconds(60));
    k.exec_time_unix = 980;
    assert!(is_skip(&decide_with(&Trigger::Time, &k, &r, 1000, 0, "myhost", true, 0)));
    k.exec_time_unix = 940;
    assert!(is_exec(&decide_with(&Trigger::Time, &k, &r, 1000, 0, "myhost", true, 0)));
}

#[test]
fn clock_round_skips() {
    let r = RunningJobs::new();
    assert!(is_skip(&decide_with(&Trigger::Time, &job("d", Interval::Disabled), &r, 1000, 0, "h", true, 0)));
    assert!(is_skip(&decide_with(&Trigger::Time, &job("o", Interval::OnChange), &r, 1000, 0, "h", true, 0)));
    assert!(is_skip(&decide_with(&Trigger::Time, &job("s", Interval::SuccessMessage), &r, 1000, 0, "h", true, 0)));
    let mut p = job("p", Interval::Seconds(1));
    p.period = Some("hr {1}".to_string());
    assert!(is_skip(&decide_with(&Trigger::Time, &p, &r, 1000, 0, "h", false, 0)));
    assert!(is_exec(&decide_with(&Trigger::Time, &p, &r, 1000, 0, "h", true, 0)));
    let mut running = RunningJobs::new();
    running.insert("p".to_string(), 3);
    assert!(is_skip(&decide_with(&Trigger::Time, &p, &running, 1000, 0, "h", true, 0)));
}

#[test]
fn conflicts_and_dependencies_gate_starts() {
    let mut j = job("very-shy-job", Interval::Seconds(1));
    j.conflicts = vec!["date-job".to_string()];
    j.depends = vec!["catch-signals".to_string()];
    let mut r = RunningJobs::new();
    assert!(is_skip(&decide_with(&Trigger::Time, &j, &r, 100, 0, "h", true, 0)));
    r.insert("catch-signals".to_string(), 1);
    assert!(is_exec(&decide_with(&Trigger::Time, &j, &r, 100, 0, "h", true, 0)));
    r.insert("date-job".to_string(), 2);
    assert!(is_skip(&decide_with(&Trigger::Time, &j, &r, 100, 0, "h", true, 0)));
}

#[test]
fn range_interval_uses_offset() {
    let j = job("r", Interval::Range(10, 20));
    let r = RunningJobs::new();
    assert!(is_skip(&decide_with(&Trigger::Time, &j, &r, 14, 0, "h", true, 5)));
    assert!(is_exec(&decide_with(&Trigger::Time, &j, &r, 15, 0, "h", true, 5)));
}

#[test]
fn random_delay_stays_in_range() {
    let j = job("r", Interval::Range(0, 1_000_000));
    let r = RunningJobs::new();
    let mut started = 0;
    let mut skipped = 0;
    for _ in 0..200 {
        match decide(&Trigger::Time, &j, &r, 500_000, 0, "h") {
            JobAction::Exec(_) => started += 1,
            JobAction::Skip => skipped += 1,
            _ => panic!("no signal on a clock round"),
        }
    }
    assert!(started > 0 && skipped > 0);
    // a range of one value always waits exactly that long
    let one = job("one", Interval::Range(7, 7));
    assert!(is_exec(&decide(&Trigger::Time, &one, &r, 7, 0, "h")));
    assert!(is_skip(&decide(&Trigger::Time, &one, &r, 6, 0, "h")));
}

#[test]
fn file_change_starts_watching_job() {
    let mut j = job("readfile", Interval::OnChange);
    j.watch = vec!["/var/tmp/date.txt".to_string()];
    let r = RunningJobs::new();
    let t = Trigger::Watch("/var/tmp/date.txt".to_string());
    match decide_with(&t, &j, &r, 5, 0, "myhost", true, 0) {
        JobAction::Exec(args) => {
            assert_eq!(args.notify, "/var/tmp/date.txt");
            assert_eq!(args.from_job, "kubjas");
            assert_eq!(args.host, "myhost");
        },
        _ => panic!("expected a start"),
    }
    let other = Trigger::Watch("/var/tmp/other".to_string());
    assert!(is_skip(&decide_with(&other, &j, &r, 5, 0, "myhost", true, 0)));
    let timed = job("t", Interval::Seconds(1));
    assert!(is_skip(&decide_with(&t, &timed, &r, 5, 0, "myhost", true, 0)));
}

#[test]
fn notification_starts_matching_job() {
    let j = job("job-two", Interval::SuccessMessage);
    let r = RunningJobs::new();
    let m = message("job-two", NotifyType::SuccessMessage);
    match decide_with(&Trigger::Notify(&m), &j, &r, 5, 0, "myhost", true, 0) {
        JobAction::Exec(args) => {
            assert_eq!(args.notify, "success-message");
            assert_eq!(args.from_job, "job-one");
            assert_eq!(args.host, "10.1.1.1");
        },
        _ => panic!("expected a start"),
    }
    let other = message("job-three", NotifyType::SuccessMessage);
    assert!(is_skip(&decide_with(&Trigger::Notify(&other), &j, &r, 5, 0, "h", true, 0)));
    let ping = message("job-two", NotifyType::Ping);
    assert!(is_skip(&decide_with(&Trigger::Notify(&ping), &j, &r, 5, 0, "h", true, 0)));
    let start = message("job-two", NotifyType::StartMessage);
    assert!(is_skip(&decide_with(&Trigger::Notify(&start), &j, &r, 5, 0, "h", true, 0)));
}

#[test]
fn event_signals_running_job() {
    let mut j = job("myserver", Interval::OnChange);
    j.watch = vec!["/etc/myapp/config.yaml".to_string()];
    j.signal = Some("HUP".to_string());
    let mut r = RunningJobs::new();
    r.insert("myserver".to_string(), 4242);
    let t = Trigger::Watch("/etc/myapp/config.yaml".to_string());
    match decide_with(&t, &j, &r, 5, 0, "h", true, 0) {
        JobAction::Signal { pid, signal } => {
            assert_eq!(pid, 4242);
            assert_eq!(signal, Signal::Named(SignalName::Hup));
        },
        _ => panic!("expected a signal"),
    }
    // a signal setting that names no signal sends nothing
    j.signal = Some("bogus".to_string());
    assert!(is_skip(&decide_with(&t, &j, &r, 5, 0, "h", true, 0)));
    // not running: started instead
    let empty = RunningJobs::new();
    assert!(is_exec(&decide_with(&t, &j, &empty, 5, 0, "h", true, 0)));
    // never signalled on a clock round
    let mut c = job("clocked", Interval::Seconds(1));
    c.signal = Some("HUP".to_string());
    let mut rc = RunningJobs::new();
    rc.insert("clocked".to_string(), 7);
    assert!(is_skip(&decide_with(&Trigger::Time, &c, &rc, 100, 0, "h", true, 0)));
}

#[test]
fn starting_records_the_job() {
    let mut j = job("job-one", Interval::Seconds(60));
    j.notify_start = vec!["127.0.0.1:job-two".to_string()];
    let mut r = RunningJobs::new();
    let targets = record_start(&mut j, &mut r, 77, 1_700_000_000, 1_234_567_890);
    assert_eq!(r.get("job-one"), Some(77));
    assert_eq!(j.exec_time_unix, 1_700_000_000);
    assert_eq!(j.exec_ms, 567_890);
    assert_eq!(targets, vec!["127.0.0.1:job-two".to_string()]);
}

#[test]
fn jobs_ordered_by_last_start() {
    let mut jobs = Vec::new();
    for (n, t) in [("a", 5u64), ("b", 1), ("c", 5), ("d", 0)].iter() {
        let mut j = job(n, Interval::Seconds(1));
        j.exec_time_unix = *t;
        jobs.push(j);
    }
    sort_jobs_by_exec_time(&mut jobs);
    let names: Vec<&str> = jobs.iter().map(|j| j.name.as_str()).collect();
    assert_eq!(names, vec!["d", "b", "a", "c"]);
}

#[test]
fn round_end_orders_only_after_a_start() {
    let mut jobs = Vec::new();
    for (n, t) in [("a", 5u64), ("b", 1)].iter() {
        let mut j = job(n, Interval::Seconds(1));
        j.exec_time_unix = *t;
        jobs.push(j);
    }
    finish_round(&mut jobs, &Vec::new());
    assert_eq!(jobs[0].name, "a");
    finish_round(&mut jobs, &vec![("b".to_string(), 9)]);
    assert_eq!(jobs[0].name, "b");
    assert_eq!(jobs[1].name, "a");
}
