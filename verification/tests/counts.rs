use scandir::config::{ConstructionError, RootStatus};
use scandir::count::{expand_root, Count};
use scandir::entry::{ExtStat, FileKind, Stat, Timestamp};
use scandir::lifecycle::{LifecycleError, Progress};
use scandir::stats::{Platform, StatValue, Statistics};

fn stat(kind: FileKind, size: u64, blocks: u64) -> Stat {
    let t = Timestamp { secs: 0, nanos: 0 };
    Stat {
        kind,
        ctime: t,
        mtime: t,
        atime: t,
        mode: 0o644,
        ext: Some(ExtStat { ino: 1, dev: 1, nlink: 1, size, blksize: 4096, blocks, uid: 0, gid: 0, rdev: 0 }),
    }
}

fn plain(root: &str, platform: Platform) -> Count {
    Count::new(root, RootStatus::Found, None, None, None, None, None, None, None, None, None, platform).unwrap()
}

fn counter() -> Count {
    Count::new(
        "/data",
        RootStatus::Found,
        None,
        Some(true),
        Some(true),
        None,
        None,
        None,
        None,
        None,
        None,
        Platform::Unix,
    )
    .unwrap()
}

fn list(items: &[&str]) -> Option<Vec<String>> {
    Some(items.iter().map(|s| s.to_string()).collect())
}

#[test]
fn count_of_a_missing_root_does_not_come_into_being() {
    let make = |root, pattern: &str| {
        Count::new("/gone", root, None, None, None, None, None, None, list(&[pattern]), None, None, Platform::Unix)
            .err()
    };
    assert_eq!(make(RootStatus::NotFound, "*"), Some(ConstructionError::NotFound));
    assert_eq!(make(RootStatus::Unreadable, "*"), Some(ConstructionError::IoError));
    assert_eq!(make(RootStatus::Found, "[a"), Some(ConstructionError::InvalidInput));
    assert_eq!(make(RootStatus::NotFound, "[a"), Some(ConstructionError::NotFound));
    assert_eq!(make(RootStatus::Found, "*"), None);
}

#[test]
fn count_filters_tell_what_the_walk_takes() {
    let c = Count::new(
        "/data",
        RootStatus::Found,
        None,
        None,
        None,
        None,
        None,
        list(&["target"]),
        list(&["*.rs"]),
        list(&["gen_*"]),
        Some(true),
        Platform::Unix,
    )
    .unwrap();
    assert!(c.admits("src", true));
    assert!(!c.admits("target", true));
    assert!(c.admits("target.rs", false));
    assert!(c.admits("lib.rs", false));
    assert!(!c.admits("gen_lib.rs", false));
    assert!(!c.admits("lib.c", false));
    assert!(counter().admits("anything", false));
}

#[test]
fn count_of_an_empty_directory_is_one_directory() {
    let mut c = counter();
    let s = c.collect(&vec![Ok(stat(FileKind::Dir, 0, 0))], 0, 5).unwrap();
    assert_eq!(s.dirs, 1);
    assert_eq!(s.files, 0);
    assert!(s.errors.is_empty());
    assert_eq!(c.statistics(), s);
    assert!(c.has_results());
    assert!(!c.busy());
    assert_eq!(c.duration(100), 5);
    assert_eq!(c.as_dict(), vec![("dirs".to_string(), StatValue::Count(1))]);
}

#[test]
fn count_defaults() {
    let c = plain("~/x", Platform::Windows);
    assert_eq!(c.root_path(), "~/x");
    assert!(!c.skip_hidden());
    assert!(!c.metadata());
    assert!(!c.metadata_ext());
    assert_eq!(c.max_depth(), usize::MAX);
    assert!(!c.has_results());
    assert_eq!(c.statistics(), Statistics::new());
    let d = Count::new(
        "/y",
        RootStatus::Found,
        Some(true),
        Some(true),
        Some(false),
        Some(3),
        None,
        None,
        None,
        None,
        None,
        Platform::Unix,
    )
    .unwrap();
    assert!(d.skip_hidden());
    assert!(d.metadata());
    assert!(!d.metadata_ext());
    assert_eq!(d.max_depth(), 3);
}

#[test]
fn worker_and_collect_count_the_same() {
    let mut entries = vec![Ok(stat(FileKind::Dir, 4096, 8))];
    for i in 0..2300u64 {
        if i % 700 == 3 {
            entries.push(Err(format!("bad {}", i)));
        } else {
            entries.push(Ok(stat(FileKind::File, i, 1)));
        }
    }
    let mut a = counter();
    let collected = a.collect(&entries, 0, 1).unwrap();
    let mut b = counter();
    b.start(0).unwrap();
    for e in &entries {
        assert!(b.record(e));
    }
    b.worker_exit(1);
    assert_eq!(b.statistics(), collected);
    assert_eq!(collected.errors.len(), 4);
    assert_eq!(collected.files, 2296);
    assert_eq!(collected.usage, 8 * 512 + 2296 * 512);
}

#[test]
fn snapshot_moves_in_batches_and_is_complete_at_the_end() {
    let mut c = counter();
    c.start(0).unwrap();
    for _ in 0..999 {
        c.record(&Ok(stat(FileKind::File, 1, 1)));
    }
    assert_eq!(c.statistics().files, 0);
    c.record(&Ok(stat(FileKind::File, 1, 1)));
    assert_eq!(c.statistics().files, 1000);
    for _ in 0..10 {
        c.record(&Err("x".to_string()));
    }
    assert_eq!(c.statistics().files, 1000);
    assert!(c.statistics().errors.is_empty());
    assert!(c.busy());
    c.worker_exit(7);
    assert!(!c.busy());
    assert_eq!(c.statistics().files, 1000);
    assert_eq!(c.statistics().errors.len(), 10);
    assert_eq!(c.duration(50), 7);
}

#[test]
fn count_lifecycle() {
    let mut c = counter();
    assert_eq!(c.stop(), Err(LifecycleError::NotRunning));
    assert!(!c.record(&Ok(stat(FileKind::File, 1, 1))));
    assert_eq!(c.statistics(), Statistics::new());
    assert_eq!(c.start(0), Ok(()));
    assert_eq!(c.start(0), Err(LifecycleError::AlreadyRunning));
    assert_eq!(c.collect(&vec![], 0, 0).err(), Some(LifecycleError::AlreadyRunning));
    assert!(c.record(&Ok(stat(FileKind::File, 1, 1))));
    assert_eq!(c.stop(), Ok(Progress::Wait));
    assert!(!c.has_results());
    assert!(!c.record(&Ok(stat(FileKind::File, 1, 1))));
    c.worker_exit(3);
    assert_eq!(c.statistics().files, 2);
    assert_eq!(c.stop(), Ok(Progress::Done));
    assert!(c.has_results());
    assert_eq!(c.start(10), Ok(()));
    assert_eq!(c.statistics(), Statistics::new());
    assert_eq!(c.exit(), Progress::Wait);
    c.worker_exit(12);
    assert_eq!(c.exit(), Progress::Done);
    assert_eq!(c.exit(), Progress::Done);
    assert_eq!(c.enter(20), Ok(()));
}

#[test]
fn root_without_tilde_is_walked_as_it_is() {
    let mut c = counter();
    assert_eq!(c.walk_root(), Some("/data".to_string()));
    let mut rel = plain("some/dir", Platform::Unix);
    assert_eq!(rel.walk_root(), Some("some/dir".to_string()));
    let mut win = plain("~", Platform::Windows);
    assert_eq!(win.walk_root(), Some("~".to_string()));
    assert_eq!(expand_root("/a/b", Platform::Unix).ok(), Some("/a/b".to_string()));
    assert_eq!(expand_root("", Platform::Unix).ok(), Some("".to_string()));
    assert_eq!(expand_root("~", Platform::Windows).ok(), Some("~".to_string()));
}

#[test]
fn root_with_tilde_is_expanded_or_reported() {
    let mut c = plain("~", Platform::Unix);
    c.start(0).unwrap();
    match c.walk_root() {
        Some(home) => {
            assert_ne!(home, "~");
            assert!(!home.is_empty());
            c.worker_exit(1);
            assert!(c.statistics().errors.is_empty());
        }
        None => {
            c.worker_exit(1);
            assert_eq!(c.statistics().errors.len(), 1);
        }
    }
    let mut d = plain("~no_such_user_hopefully_0x7f/data", Platform::Unix);
    d.start(0).unwrap();
    assert_eq!(d.walk_root(), None);
    d.worker_exit(1);
    assert_eq!(d.statistics().errors.len(), 1);
    assert!(expand_root("~no_such_user_hopefully_0x7f/data", Platform::Unix).is_err());
    let mut idle = plain("~no_such_user_hopefully_0x7f/data", Platform::Unix);
    assert_eq!(idle.walk_root(), None);
    assert_eq!(idle.statistics(), Statistics::new());
    assert!(!idle.has_results());
}

#[test]
fn failed_expansion_is_handed_in_like_a_failed_probe() {
    let mut c = counter();
    c.start(0).unwrap();
    let r = c.root_to_walk(Err(scandir::count::ExpandError { message: "no home".to_string() }));
    assert_eq!(r, None);
    assert_eq!(c.root_to_walk(Ok("/home/u".to_string())), Some("/home/u".to_string()));
    c.worker_exit(0);
    assert_eq!(c.statistics().errors, vec!["no home".to_string()]);
}
