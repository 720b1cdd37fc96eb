use kubjas::config::{
    apply_field_from_str, apply_ini_section, command_word, config_files, is_ignored_config_name, jobs_from_ini,
    load_config_texts, save_exec_times, target_list, IniData, IniSection, Interval, Job, Output,
};

fn find<'a>(jobs: &'a [Job], name: &str) -> &'a Job {
    jobs.iter().find(|j| j.name == name).expect("job present")
}

fn section(name: &str, entries: &[(&str, Option<&str>)]) -> IniSection {
    IniSection {
        name: name.to_string(),
        entries: entries
            .iter()
            .map(|(k, v)| (k.to_string(), v.map(|s| s.to_string())))
            .collect(),
    }
}

#[test]
fn interval_parse_forms() {
    assert_eq!(Interval::parse("60"), Interval::Seconds(60));
    assert_eq!(Interval::parse(" 20-30 "), Interval::Range(20, 30));
    assert_eq!(Interval::parse("5 - 7"), Interval::Range(5, 7));
    assert_eq!(Interval::parse("0"), Interval::Disabled);
    assert_eq!(Interval::parse(""), Interval::Disabled);
    assert_eq!(Interval::parse("abc"), Interval::Disabled);
    assert_eq!(Interval::parse("-5"), Interval::Disabled);
    assert_eq!(Interval::parse("7-"), Interval::Disabled);
    assert_eq!(Interval::parse("+7"), Interval::Seconds(7));
    assert_eq!(Interval::parse("OnChange"), Interval::OnChange);
    assert_eq!(Interval::parse("start-message"), Interval::StartMessage);
    assert_eq!(Interval::parse(" Success-Message\n"), Interval::SuccessMessage);
    assert_eq!(Interval::parse("failure-message"), Interval::FailureMessage);
    assert_eq!(Interval::parse("18446744073709551616"), Interval::Disabled);
}

#[test]
fn interval_text_forms() {
    assert_eq!(Interval::Disabled.to_text(), "0");
    assert_eq!(Interval::Seconds(300).to_text(), "300");
    assert_eq!(Interval::Range(10, 20).to_text(), "10-20");
    assert_eq!(Interval::OnChange.to_text(), "onchange");
    assert_eq!(Interval::StartMessage.to_text(), "start-message");
    assert_eq!(Interval::SuccessMessage.to_text(), "success-message");
    assert_eq!(Interval::FailureMessage.to_text(), "failure-message");
}

#[test]
fn interval_text_reads_back() {
    let all = [
        Interval::Disabled,
        Interval::Seconds(1),
        Interval::Seconds(u64::MAX),
        Interval::Range(0, 0),
        Interval::Range(20, 30),
        Interval::Range(u64::MAX, 3),
        Interval::OnChange,
        Interval::StartMessage,
        Interval::SuccessMessage,
        Interval::FailureMessage,
    ];
    for i in all.iter() {
        assert_eq!(Interval::parse(&i.to_text()), *i);
    }
    // zero seconds is written "0", which reads as a disabled job
    assert_eq!(Interval::parse(&Interval::Seconds(0).to_text()), Interval::Disabled);
}

#[test]
fn output_parse_forms() {
    assert!(matches!(Output::parse("none"), Output::Discard));
    assert!(matches!(Output::parse(" NONE "), Output::Discard));
    assert!(matches!(Output::parse(" Passthrough "), Output::Passthrough));
    match Output::parse(" /var/log/job-name.log ") {
        Output::File(f) => assert_eq!(f, "/var/log/job-name.log"),
        _ => panic!("expected a file"),
    }
    match Output::parse("/tmp/x").duplicate() {
        Output::File(f) => assert_eq!(f, "/tmp/x"),
        _ => panic!("expected a file"),
    }
}

#[test]
fn job_defaults() {
    let j = Job::default("date-job");
    assert_eq!(j.name, "date-job");
    assert_eq!(j.cmdline, None);
    assert_eq!(j.user, "root");
    assert_eq!(j.group, "");
    assert_eq!(j.interval, Interval::Disabled);
    assert_eq!(j.period, None);
    assert!(j.conflicts.is_empty() && j.depends.is_empty() && j.watch.is_empty());
    assert!(j.notify_start.is_empty() && j.notify_success.is_empty() && j.notify_failure.is_empty());
    assert_eq!(j.signal, None);
    assert!(matches!(j.output, Output::Passthrough));
    assert!(!j.ionice && !j.nice);
    assert_eq!(j.exec_time_unix, 0);
    assert_eq!(j.exec_ms, 0);
}

#[test]
fn default_fields_apply() {
    let all = "a\nb\nc";
    let mut j = Job::default("b");
    apply_field_from_str(&mut j, "cmdline", "/bin/true", all);
    apply_field_from_str(&mut j, "user", "nobody", all);
    apply_field_from_str(&mut j, "interval", "20-30", all);
    apply_field_from_str(&mut j, "conflicts", " * ", all);
    apply_field_from_str(&mut j, "depends", "x\n\n y \n", all);
    apply_field_from_str(&mut j, "watch", "/var/tmp/date.txt", all);
    apply_field_from_str(&mut j, "output", "none", all);
    apply_field_from_str(&mut j, "nice", " 1 ", all);
    apply_field_from_str(&mut j, "ionice", "yes", all);
    apply_field_from_str(&mut j, "unknown-key", "zzz", all);
    assert_eq!(j.cmdline.as_deref(), Some("/bin/true"));
    assert_eq!(j.user, "nobody");
    assert_eq!(j.interval, Interval::Range(20, 30));
    assert_eq!(j.conflicts, vec!["a".to_string(), "c".to_string()]);
    assert_eq!(j.depends, vec!["x".to_string(), "y".to_string()]);
    assert_eq!(j.watch, vec!["/var/tmp/date.txt".to_string()]);
    assert!(matches!(j.output, Output::Discard));
    assert!(j.nice);
    assert!(!j.ionice);
    assert_eq!(j.name, "b");
}

#[test]
fn wildcard_targets() {
    assert_eq!(target_list("*", "one\ntwo\nthree", "two"), vec!["one".to_string(), "three".to_string()]);
    assert_eq!(target_list("cpu-work1\nhard-work2", "x", "y"), vec!["cpu-work1".to_string(), "hard-work2".to_string()]);
    assert!(target_list("  \n ", "x", "y").is_empty());
}

#[test]
fn section_settings_apply() {
    let mut j = Job::default("readfile");
    j.user = "nobody".to_string();
    let s = section(
        "readfile",
        &[
            ("cmdline", Some("")),
            ("user", Some("")),
            ("interval", Some("onchange")),
            ("watch", Some("")),
            ("signal", Some("HUP")),
            ("nice", None),
            ("ionice", Some("1")),
        ],
    );
    apply_ini_section(&mut j, &s, "readfile");
    assert_eq!(j.cmdline, None);
    assert_eq!(j.user, "nobody");
    assert_eq!(j.interval, Interval::OnChange);
    assert!(j.watch.is_empty());
    assert_eq!(j.signal.as_deref(), Some("HUP"));
    assert!(!j.nice);
    assert!(j.ionice);
}

#[test]
fn load_readme_example() {
    let text = "[*]\nnotify-failure = 127.0.0.1:send_failure_notify\n\n\
                [date-job]\ncmdline = date +\"%H:%M\" > /var/tmp/date.txt\ninterval = 60\nuser = nobody\ngroup = nogroup\nnotify-success = 192.168.1.27:catch-signals\n\n\
                [catch-signals]\ncmdline = /usr/local/bin/catch-signals.sh\ninterval = success-message\nsignal = USR2\n\n\
                [very-shy-job]\ncmdline = /usr/local/bin/shy.sh\ninterval = 10-20\nperiod = wday {1 3 5 7} min {0-29}, wday {2 4 6} min {30-59}\ndepends = catch-signals\nconflicts = date-job\nnice = 1\nionice = 1\n\n\
                ; a job without a command line is dropped\n[no-cmd]\ninterval = 5\n";
    let jobs = load_config_texts(&vec![text.to_string()], &Vec::new());
    assert_eq!(jobs.len(), 3);
    let d = find(&jobs, "date-job");
    assert_eq!(d.cmdline.as_deref(), Some("date +\"%H:%M\" > /var/tmp/date.txt"));
    assert_eq!(d.interval, Interval::Seconds(60));
    assert_eq!(d.user, "nobody");
    assert_eq!(d.group, "nogroup");
    assert_eq!(d.notify_success, vec!["192.168.1.27:catch-signals".to_string()]);
    assert_eq!(d.notify_failure, vec!["127.0.0.1:send_failure_notify".to_string()]);
    let c = find(&jobs, "catch-signals");
    assert_eq!(c.interval, Interval::SuccessMessage);
    assert_eq!(c.signal.as_deref(), Some("USR2"));
    assert_eq!(c.user, "root");
    let s = find(&jobs, "very-shy-job");
    assert_eq!(s.interval, Interval::Range(10, 20));
    assert_eq!(s.period.as_deref(), Some("wday {1 3 5 7} min {0-29}, wday {2 4 6} min {30-59}"));
    assert_eq!(s.depends, vec!["catch-signals".to_string()]);
    assert_eq!(s.conflicts, vec!["date-job".to_string()]);
    assert!(s.nice && s.ionice);
    assert!(jobs.iter().all(|j| j.name != "no-cmd" && j.name != "*"));
}

#[test]
fn section_overrides_file_defaults() {
    let text = "[*]\nuser = nobody\ninterval = 60\n\n[own]\ncmdline = /bin/true\nuser = daemon\n\n[plain]\ncmdline = /bin/false\n";
    let jobs = load_config_texts(&vec![text.to_string()], &Vec::new());
    assert_eq!(jobs.len(), 2);
    assert_eq!(find(&jobs, "own").user, "daemon");
    assert_eq!(find(&jobs, "own").interval, Interval::Seconds(60));
    assert_eq!(find(&jobs, "plain").user, "nobody");
}

#[test]
fn wildcard_conflicts_in_file() {
    let text = "[exclusive-job]\ncmdline = /bin/true\nconflicts = *\n\n[a]\ncmdline = /bin/true\n\n[b]\ncmdline = /bin/true\ndepends = *\n";
    let jobs = load_config_texts(&vec![text.to_string()], &Vec::new());
    let mut c = find(&jobs, "exclusive-job").conflicts.clone();
    c.sort();
    assert_eq!(c, vec!["a".to_string(), "b".to_string()]);
    let mut d = find(&jobs, "b").depends.clone();
    d.sort();
    assert_eq!(d, vec!["a".to_string(), "exclusive-job".to_string()]);
}

#[test]
fn duplicate_job_names_keep_the_first() {
    let first = "[same]\ncmdline = /bin/first\n".to_string();
    let second = "[same]\ncmdline = /bin/second\n\n[other]\ncmdline = /bin/other\n".to_string();
    let jobs = load_config_texts(&vec![first, second], &Vec::new());
    assert_eq!(jobs.len(), 2);
    assert_eq!(jobs[0].name, "same");
    assert_eq!(jobs[0].cmdline.as_deref(), Some("/bin/first"));
    assert_eq!(jobs[1].name, "other");
}

#[test]
fn unparsable_text_is_skipped() {
    let bad = "[broken\ncmdline = x\n".to_string();
    let good = "[ok]\ncmdline = /bin/true\n".to_string();
    let jobs = load_config_texts(&vec![bad, good], &Vec::new());
    assert_eq!(jobs.len(), 1);
    assert_eq!(jobs[0].name, "ok");
}

#[test]
fn exec_times_carry_over() {
    let text = "[a]\ncmdline = /bin/true\n\n[b]\ncmdline = /bin/true\n".to_string();
    let prev = vec![("a".to_string(), 1700000000u64, 123456u64), ("a".to_string(), 1700000100u64, 7u64)];
    let jobs = load_config_texts(&vec![text], &prev);
    let a = find(&jobs, "a");
    assert_eq!((a.exec_time_unix, a.exec_ms), (1700000100, 7));
    let b = find(&jobs, "b");
    assert_eq!((b.exec_time_unix, b.exec_ms), (0, 0));
    let saved = save_exec_times(&jobs);
    assert!(saved.contains(&("a".to_string(), 1700000100, 7)));
    assert!(saved.contains(&("b".to_string(), 0, 0)));
    assert_eq!(saved.len(), 2);
}

#[test]
fn jobs_from_sections_in_order() {
    let f1 = IniData {
        sections: vec![
            section("*", &[("user", Some("nobody")), ("group", Some(""))]),
            section("x", &[("cmdline", Some("/bin/x"))]),
            section("y", &[("interval", Some("5"))]),
        ],
    };
    let f2 = IniData {
        sections: vec![
            section("y", &[("cmdline", Some("/bin/y"))]),
            section("x", &[("cmdline", Some("/bin/x2"))]),
            section("z", &[("cmdline", Some("/bin/z")), ("conflicts", Some("*"))]),
        ],
    };
    let jobs = jobs_from_ini(&vec![f1, f2], &Vec::new());
    let names: Vec<&str> = jobs.iter().map(|j| j.name.as_str()).collect();
    assert_eq!(names, vec!["x", "z"]);
    assert_eq!(jobs[0].user, "nobody");
    assert_eq!(jobs[0].group, "");
    assert_eq!(jobs[1].user, "root");
    assert_eq!(jobs[1].conflicts, vec!["y".to_string(), "x".to_string()]);
}

#[test]
fn config_file_list() {
    let entries = vec![
        ("b.conf".to_string(), "/etc/kubjas.d/b.conf".to_string()),
        (".hidden".to_string(), "/etc/kubjas.d/.hidden".to_string()),
        ("a.conf~".to_string(), "/etc/kubjas.d/a.conf~".to_string()),
        ("x.dpkg-old".to_string(), "/etc/kubjas.d/x.dpkg-old".to_string()),
        ("a.conf".to_string(), "/etc/kubjas.d/a.conf".to_string()),
        ("B.conf".to_string(), "/etc/kubjas.d/B.conf".to_string()),
    ];
    assert_eq!(
        config_files("/etc/kubjas.conf", &entries),
        vec![
            "/etc/kubjas.conf".to_string(),
            "/etc/kubjas.d/B.conf".to_string(),
            "/etc/kubjas.d/a.conf".to_string(),
            "/etc/kubjas.d/b.conf".to_string(),
        ]
    );
    assert_eq!(config_files("/etc/kubjas.conf", &Vec::new()), vec!["/etc/kubjas.conf".to_string()]);
}

#[test]
fn ignored_config_names() {
    assert!(is_ignored_config_name("job.conf.dpkg-old"));
    assert!(is_ignored_config_name("job.conf~"));
    assert!(is_ignored_config_name(".swp"));
    assert!(!is_ignored_config_name("job.conf"));
    assert!(!is_ignored_config_name(""));
}

#[test]
fn program_of_command_line() {
    assert_eq!(command_word("  /usr/local/bin/myscript.sh arg1 arg2"), "/usr/local/bin/myscript.sh");
    assert_eq!(command_word("date\t+%H"), "date");
    assert_eq!(command_word("single"), "single");
    assert_eq!(command_word("   "), "");
    assert_eq!(command_word(""), "");
}

#[test]
fn invalid_period_drops_job() {
    let text = "[bad]\ncmdline = /bin/true\nperiod = hr {25\n\n[good]\ncmdline = /bin/true\nperiod = hr {1-2}\n";
    let jobs = load_config_texts(&vec![text.to_string()], &Vec::new());
    assert_eq!(jobs.len(), 1);
    assert_eq!(jobs[0].name, "good");
    let again = "[bad]\ncmdline = /bin/other\n".to_string();
    let both = load_config_texts(&vec![text.to_string(), again], &Vec::new());
    assert_eq!(both.len(), 1);
}

#[test]
fn reload_keeps_exec_times() {
    let text = "[a]\ncmdline = /bin/true\n\n[b]\ncmdline = /bin/true\n".to_string();
    let mut jobs = load_config_texts(&vec![text.clone()], &Vec::new());
    for j in jobs.iter_mut() {
        if j.name == "a" {
            j.exec_time_unix = 1_700_000_000;
            j.exec_ms = 42;
        }
    }
    let more = format!("{}\n[c]\ncmdline = /bin/true\n", text);
    let again = load_config_texts(&vec![more], &save_exec_times(&jobs));
    assert_eq!(again.len(), 3);
    let a = find(&again, "a");
    assert_eq!((a.exec_time_unix, a.exec_ms), (1_700_000_000, 42));
    let c = find(&again, "c");
    assert_eq!((c.exec_time_unix, c.exec_ms), (0, 0));
}
