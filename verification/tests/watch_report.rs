use kubjas::report::elapsed_text;
use kubjas::watch::{is_write_event, FsEventKind, WatchRoots};

#[test]
fn write_events() {
    assert!(is_write_event(FsEventKind::CloseWrite));
    assert!(is_write_event(FsEventKind::Modify));
    assert!(is_write_event(FsEventKind::Create));
    assert!(!is_write_event(FsEventKind::OtherAccess));
    assert!(!is_write_event(FsEventKind::Remove));
    assert!(!is_write_event(FsEventKind::Other));
}

#[test]
fn event_paths_map_back_to_configured_roots() {
    let mut w = WatchRoots::new();
    assert_eq!(w.resolve("/var/tmp/date.txt"), None);
    w.insert("/private/var/tmp".to_string(), "/var/tmp".to_string());
    w.insert("/etc/myapp".to_string(), "/etc/myapp".to_string());
    assert_eq!(w.resolve("/private/var/tmp/date.txt"), Some("/var/tmp/date.txt".to_string()));
    assert_eq!(w.resolve("/etc/myapp/config.yaml"), Some("/etc/myapp/config.yaml".to_string()));
    assert_eq!(w.resolve("/other/file"), None);
    w.insert("/private/var/tmp".to_string(), "/tmp2".to_string());
    assert_eq!(w.roots.len(), 2);
    assert_eq!(w.resolve("/private/var/tmp/x"), Some("/tmp2/x".to_string()));
}

#[test]
fn running_time_text() {
    assert_eq!(elapsed_text(100, 100), None);
    assert_eq!(elapsed_text(100, 200), None);
    assert_eq!(elapsed_text(105, 100), Some("5s".to_string()));
    assert_eq!(elapsed_text(100 + 3 * 60 + 4, 100), Some("3m 4s".to_string()));
    assert_eq!(elapsed_text(2 * 3600 + 60, 0), Some("2h 1m 0s".to_string()));
    assert_eq!(elapsed_text(86400 + 2 * 3600 + 3 * 60 + 4, 0), Some("1d 2h 3m 4s".to_string()));
    assert_eq!(elapsed_text(86400, 0), Some("1d 0h 0m 0s".to_string()));
}
