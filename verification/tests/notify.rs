use kubjas::notify::{
    after_send_attempt, exit_notify_type, notify_request, recv_notify, DuplicateFilter, NotifyType,
    NOTIFY_PORT,
};

#[test]
fn notify_type_words() {
    let all = [
        NotifyType::StartMessage,
        NotifyType::SuccessMessage,
        NotifyType::FailureMessage,
        NotifyType::Ping,
    ];
    let words = ["start-message", "success-message", "failure-message", "ping"];
    for (t, w) in all.iter().zip(words.iter()) {
        assert_eq!(t.as_str(), *w);
        assert_eq!(NotifyType::from_str(t.as_str()), Some(*t));
    }
    assert_eq!(NotifyType::from_str("START-MESSAGE"), None);
    assert_eq!(NotifyType::from_str(""), None);
}

#[test]
fn repeated_message_is_duplicate() {
    let mut f = DuplicateFilter::new();
    assert!(!f.is_duplicate("host job-two job-one start-message 1"));
    assert!(f.is_duplicate("host job-two job-one start-message 1"));
    assert!(!f.is_duplicate("host job-two job-one start-message 2"));
}

#[test]
fn distinct_messages_have_distinct_fingerprints() {
    // with a constant fingerprint the second message would displace the first
    let mut f = DuplicateFilter::new();
    assert!(!f.is_duplicate("alpha"));
    assert!(!f.is_duplicate("beta"));
    assert!(f.is_duplicate("alpha"));
    assert!(f.is_duplicate("beta"));
}

#[test]
fn filter_forgets_after_twenty() {
    let mut f = DuplicateFilter::new();
    let msgs: Vec<String> = (0..21).map(|i| format!("h j k ping {}", i)).collect();
    for m in &msgs {
        assert!(!f.is_duplicate(m));
    }
    assert!(f.is_duplicate(&msgs[20]));
    assert!(f.is_duplicate(&msgs[1]));
    assert!(!f.is_duplicate(&msgs[0]));
}

#[test]
fn receive_notification() {
    let mut f = DuplicateFilter::new();
    let pkt = b"host1 job-two job-one success-message 1700000000\n";
    let m = recv_notify(pkt, "10.0.0.1", &mut f).expect("parsed");
    assert_eq!(m.to_job, "job-two");
    assert_eq!(m.from_job, "job-one");
    assert_eq!(m.notify_type, NotifyType::SuccessMessage);
    assert_eq!(m.from_host, "10.0.0.1");
    // the same packet again is a duplicate
    assert!(recv_notify(pkt, "10.0.0.1", &mut f).is_none());
}

#[test]
fn reject_bad_packets() {
    let mut f = DuplicateFilter::new();
    assert!(recv_notify(&[0xff, 0xfe, 0x20], "1.2.3.4", &mut f).is_none());
    assert!(recv_notify(b"h to from", "1.2.3.4", &mut f).is_none());
    assert!(recv_notify(b"h to from hello 5", "1.2.3.4", &mut f).is_none());
    assert!(recv_notify(b"", "1.2.3.4", &mut f).is_none());
    let p = recv_notify(b"  h to from ping", "1.2.3.4", &mut f).expect("ping");
    assert_eq!(p.notify_type, NotifyType::Ping);
    assert_eq!(p.to_job, "to");
    // only the first four words count
    let q = recv_notify(b"h a b failure-message 1 extra words", "::1", &mut f).expect("failure");
    assert_eq!(q.notify_type, NotifyType::FailureMessage);
    assert_eq!(q.from_job, "b");
    assert_eq!(q.from_host, "::1");
}

#[test]
fn build_notification_request() {
    let r = notify_request("192.168.1.27:catch-signals", "date-job", NotifyType::SuccessMessage, "myhost", 1700000000)
        .expect("target has a colon");
    assert_eq!(r.remote_host, "192.168.1.27");
    assert_eq!(r.remote_addr, format!("192.168.1.27:{}", NOTIFY_PORT));
    assert_eq!(r.remote_addr, "192.168.1.27:2380");
    assert_eq!(r.message, "myhost catch-signals date-job success-message 1700000000");
    let v6 = notify_request("::1:job", "me", NotifyType::Ping, "h", 0).expect("colon");
    assert_eq!(v6.remote_host, "::1");
    assert_eq!(v6.message, "h job me ping 0");
    assert!(notify_request("no-colon", "me", NotifyType::Ping, "h", 0).is_none());
}

#[test]
fn request_reads_back() {
    let r = notify_request("127.0.0.1:job-two", "job-one", NotifyType::StartMessage, "alpha", 42).unwrap();
    let mut f = DuplicateFilter::new();
    let m = recv_notify(r.message.as_bytes(), "127.0.0.1", &mut f).unwrap();
    assert_eq!(m.to_job, "job-two");
    assert_eq!(m.from_job, "job-one");
    assert_eq!(m.notify_type, NotifyType::StartMessage);
}

#[test]
fn exit_status_notification() {
    assert_eq!(exit_notify_type(0, 0), NotifyType::SuccessMessage);
    assert_eq!(exit_notify_type(1, 0), NotifyType::FailureMessage);
    assert_eq!(exit_notify_type(0, 9), NotifyType::FailureMessage);
}

#[test]
fn request_with_tab_led_host_reads_back() {
    let r = notify_request("127.0.0.1:job-two", "job-one", NotifyType::FailureMessage, "\thost", 7).unwrap();
    let mut f = DuplicateFilter::new();
    let m = recv_notify(r.message.as_bytes(), "127.0.0.1", &mut f).unwrap();
    assert_eq!(m.to_job, "job-two");
    assert_eq!(m.from_job, "job-one");
    assert_eq!(m.notify_type, NotifyType::FailureMessage);
}

#[test]
fn send_retries_until_three_unanswered() {
    assert_eq!(after_send_attempt(0, true), None);
    assert_eq!(after_send_attempt(0, false), Some(1));
    assert_eq!(after_send_attempt(1, false), Some(2));
    assert_eq!(after_send_attempt(2, false), None);
    assert_eq!(after_send_attempt(1, true), None);
}

#[test]
fn duplicate_report_leaves_filter_unchanged() {
    let mut f = DuplicateFilter::new();
    let msgs: Vec<String> = (0..20).map(|i| format!("m {}", i)).collect();
    for m in &msgs {
        assert!(!f.is_duplicate(m));
    }
    // reporting duplicates does not move the window
    for _ in 0..5 {
        assert!(f.is_duplicate(&msgs[0]));
    }
    assert!(!f.is_duplicate("m 20"));
    assert!(!f.is_duplicate(&msgs[0]));
    assert!(f.is_duplicate("m 20"));
}
