use scandir::entry::{classify, clone_stat, join_path, FileKind, ReturnType, ScandirResult, Stat, Timestamp};
use scandir::lifecycle::{Lifecycle, LifecycleError, Progress, ScanState};
use scandir::text::{chars_of, hidden, name_le, to_lower, to_upper};

#[test]
fn life_goes_from_idle_to_running_to_finished_to_idle() {
    let mut l = Lifecycle::new();
    assert_eq!(l.state(), ScanState::Idle);
    assert!(!l.attached());
    assert_eq!(l.start(10), Ok(()));
    assert_eq!(l.state(), ScanState::Running);
    assert!(l.attached() && l.busy() && !l.finished() && !l.cancelled());
    l.exit(25);
    assert_eq!(l.state(), ScanState::Finished);
    assert!(l.attached() && !l.busy() && l.finished());
    assert_eq!(l.join(), Ok(Progress::Done));
    assert!(!l.attached());
    assert_eq!(l.state(), ScanState::Finished);
    assert_eq!(l.clear(), Ok(()));
    assert_eq!(l.state(), ScanState::Idle);
}

#[test]
fn stop_asks_and_the_worker_answers() {
    let mut l = Lifecycle::new();
    l.start(0).unwrap();
    assert_eq!(l.stop(), Ok(Progress::Wait));
    assert_eq!(l.state(), ScanState::Stopping);
    assert!(l.cancelled() && l.busy());
    assert_eq!(l.stop(), Ok(Progress::Wait));
    assert_eq!(l.join(), Ok(Progress::Wait));
    l.exit(4);
    assert!(!l.cancelled());
    assert_eq!(l.stop(), Ok(Progress::Done));
    assert_eq!(l.stop(), Err(LifecycleError::NotRunning));
    assert_eq!(l.join(), Err(LifecycleError::NotRunning));
}

#[test]
fn duration_grows_while_busy_and_is_frozen_after() {
    let mut l = Lifecycle::new();
    assert_eq!(l.duration(1000), 0);
    l.start(100).unwrap();
    assert_eq!(l.duration(100), 0);
    assert_eq!(l.duration(250), 150);
    assert_eq!(l.duration(50), 0);
    l.exit(400);
    assert_eq!(l.duration(250), 300);
    assert_eq!(l.duration(u64::MAX), 300);
    l.exit(900);
    assert_eq!(l.duration(0), 300);
}

#[test]
fn exit_without_a_worker_changes_nothing() {
    let mut l = Lifecycle::new();
    l.exit(5);
    assert_eq!(l.state(), ScanState::Idle);
    assert_eq!(l.clear(), Ok(()));
    l.start(1).unwrap();
    assert_eq!(l.clear(), Err(LifecycleError::AlreadyRunning));
}

#[test]
fn text_helpers() {
    assert_eq!(chars_of("añ/"), vec!['a', 'ñ', '/']);
    assert!(hidden(".git"));
    assert!(!hidden("git."));
    assert!(!hidden(""));
    assert_eq!(to_lower('Q'), 'q');
    assert_eq!(to_lower('q'), 'q');
    assert_eq!(to_lower('É'), 'É');
    assert_eq!(to_upper('q'), 'Q');
    assert_eq!(to_upper('['), '[');
    let le = |a: &str, b: &str| name_le(&chars_of(a), &chars_of(b));
    assert!(le("", ""));
    assert!(le("", "a"));
    assert!(!le("a", ""));
    assert!(le("a", "a"));
    assert!(le("a", "ab"));
    assert!(!le("ab", "a"));
    assert!(le("Z", "a"));
    assert!(le("abc", "abd"));
    assert!(!le("abd", "abc"));
    assert!(le("z", "é"));
}

#[test]
fn paths_are_joined_with_a_slash() {
    assert_eq!(join_path("", "a"), "a");
    assert_eq!(join_path("a", "b"), "a/b");
    assert_eq!(join_path("a/b", "c.txt"), "a/b/c.txt");
}

#[test]
fn classification_by_level() {
    let t = Timestamp { secs: 1, nanos: 2 };
    let s = Stat { kind: FileKind::Symlink, ctime: t, mtime: t, atime: t, mode: 0o777, ext: None };
    match classify("l".to_string(), &Ok(s), ReturnType::Base) {
        ScandirResult::DirEntry(e) => assert!(e.is_symlink && !e.is_dir && !e.is_file && e.path == "l" && e.mode == 0o777),
        other => panic!("{:?}", other),
    }
    match classify("l".to_string(), &Ok(s), ReturnType::Walk) {
        ScandirResult::DirEntry(_) => {}
        other => panic!("{:?}", other),
    }
    assert_eq!(
        classify("l".to_string(), &Ok(s), ReturnType::Ext),
        ScandirResult::Error(("l".to_string(), "extended metadata not available".to_string()))
    );
    assert_eq!(
        classify("p".to_string(), &Err("denied".to_string()), ReturnType::Base),
        ScandirResult::Error(("p".to_string(), "denied".to_string()))
    );
    assert_eq!(clone_stat(&Err("m".to_string())), Err("m".to_string()));
    assert_eq!(clone_stat(&Ok(s)), Ok(s));
}
