use kubjas::config::{Interval, Job, Output};
use kubjas::executor::{build_argv, exec_plan, replace_text, shell_split, substitute_templates, ExecArgs};

fn args(notify: &str, from_job: &str, host: &str) -> ExecArgs {
    ExecArgs { notify: notify.to_string(), from_job: from_job.to_string(), host: host.to_string() }
}

fn strings(v: &[&str]) -> Vec<String> {
    v.iter().map(|s| s.to_string()).collect()
}

#[test]
fn template_parameters() {
    let a = args("failure-message", "date-job", "192.168.1.27");
    assert_eq!(
        substitute_templates("send_failure_notify.sh %host% %job% %notify%", &a),
        "send_failure_notify.sh 192.168.1.27 date-job failure-message"
    );
    assert_eq!(substitute_templates("%job%%job% %other%", &a), "date-jobdate-job %other%");
    assert_eq!(substitute_templates("plain", &a), "plain");
    // replacements are made one parameter after the other
    let b = args("n", "X", "%job%");
    assert_eq!(substitute_templates("%host%", &b), "X");
    let d = ExecArgs::default();
    assert_eq!(substitute_templates("a %host% b", &d), "a  b");
}

#[test]
fn replace_left_to_right() {
    let pat: Vec<char> = "aa".chars().collect();
    assert_eq!(replace_text("aaa", &pat, "b"), "ba");
    assert_eq!(replace_text("xyz", &pat, "b"), "xyz");
}

#[test]
fn word_splitting() {
    assert_eq!(
        shell_split("date +\"%H:%M\" > /var/tmp/date.txt"),
        strings(&["date", "+%H:%M", ">", "/var/tmp/date.txt"])
    );
    assert_eq!(shell_split("a  b\tc"), strings(&["a", "b", "c"]));
    assert_eq!(shell_split("'x y' z"), strings(&["x y", "z"]));
    assert_eq!(shell_split("a \"b c"), strings(&["a", "b c"]));
    assert_eq!(shell_split("it's \"q'\""), strings(&["its \"q"]));
    assert_eq!(shell_split(""), Vec::<String>::new());
    assert_eq!(shell_split("\"\" ''"), Vec::<String>::new());
    assert_eq!(shell_split("a\nb"), strings(&["a\nb"]));
}

#[test]
fn argv_drops_words_with_nul() {
    assert_eq!(build_argv("a b\0c d"), strings(&["a", "d"]));
    assert_eq!(build_argv("myscript.sh arg1 arg2"), strings(&["myscript.sh", "arg1", "arg2"]));
}

#[test]
fn plan_for_job() {
    let mut j = Job::default("send");
    j.interval = Interval::FailureMessage;
    assert!(exec_plan(&j, &ExecArgs::default()).is_none());
    j.cmdline = Some("send_failure_notify.sh %host% %job% %notify%".to_string());
    j.user = "nobody".to_string();
    j.group = String::new();
    j.output = Output::Discard;
    j.nice = true;
    let p = exec_plan(&j, &args("failure-message", "date-job", "h1")).expect("has a command");
    assert_eq!(p.argv, strings(&["send_failure_notify.sh", "h1", "date-job", "failure-message"]));
    assert_eq!(p.user, "nobody");
    assert_eq!(p.group, "nobody");
    assert!(matches!(p.output, Output::Discard));
    assert!(p.nice);
    assert!(!p.ionice);
    j.group = "nogroup".to_string();
    assert_eq!(exec_plan(&j, &ExecArgs::default()).unwrap().group, "nogroup");
}

#[test]
fn group_defaults_to_user() {
    let mut j = Job::default("readfile");
    j.cmdline = Some("/usr/local/bin/readfile.sh".to_string());
    j.user = "nobody".to_string();
    let p = exec_plan(&j, &ExecArgs::default()).unwrap();
    assert_eq!(p.user, "nobody");
    assert_eq!(p.group, "nobody");
    let root = Job { cmdline: Some("/bin/true".to_string()), ..Job::default("r") };
    assert_eq!(exec_plan(&root, &ExecArgs::default()).unwrap().group, "root");
}
