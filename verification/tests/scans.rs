use scandir::config::{ConstructionError, RootStatus};
use scandir::entry::{ExtStat, FileKind, Probe, ReturnType, ScandirResult, Stat, Timestamp};
use scandir::lifecycle::{LifecycleError, Progress};
use scandir::scandir::{Collect, IterStep, Scandir};

type Tree = Vec<(&'static str, Vec<(&'static str, FileKind)>)>;

fn stat(kind: FileKind) -> Stat {
    Stat {
        kind,
        ctime: Timestamp { secs: 10, nanos: 1 },
        mtime: Timestamp { secs: 20, nanos: 2 },
        atime: Timestamp { secs: 30, nanos: 3 },
        mode: 0o644,
        ext: None,
    }
}

fn probe(name: &str, kind: FileKind) -> Probe {
    Probe::new(name.to_string(), Ok(stat(kind))).unwrap()
}

fn listing(tree: &Tree, path: &str) -> Result<Vec<Probe>, String> {
    match tree.iter().find(|(p, _)| *p == path) {
        Some((_, children)) => Ok(children.iter().map(|(n, k)| probe(n, *k)).collect()),
        None => Err("cannot read".to_string()),
    }
}

fn strings(items: &[&str]) -> Option<Vec<String>> {
    Some(items.iter().map(|s| s.to_string()).collect())
}

fn plain(max_depth: usize, max_file_cnt: usize, sorted: bool) -> Scandir {
    Scandir::new(
        "/root",
        RootStatus::Found,
        Some(sorted),
        None,
        Some(max_depth),
        Some(max_file_cnt),
        None,
        None,
        None,
        None,
        None,
        None,
    )
    .unwrap()
}

fn run_collect(s: &mut Scandir, tree: &Tree) -> (Vec<ScandirResult>, Vec<(String, String)>) {
    let mut step = s.collect(None, 100).unwrap();
    loop {
        match step {
            Collect::Need(path) => {
                step = s.collect(Some(listing(tree, &path)), 200).unwrap();
            }
            Collect::Done(results) => return results,
        }
    }
}

fn run_worker(s: &mut Scandir, tree: &Tree, exit_at: u64) {
    while let Some(dir) = s.next_dir() {
        s.feed(listing(tree, &dir.path));
    }
    s.worker_exit(exit_at);
}

fn path_of(r: &ScandirResult) -> String {
    match r {
        ScandirResult::DirEntry(e) => e.path.clone(),
        ScandirResult::DirEntryExt(e) => e.path.clone(),
        ScandirResult::Error(e) => e.0.clone(),
    }
}

fn paths(rs: &[ScandirResult]) -> Vec<String> {
    rs.iter().map(path_of).collect()
}

fn is_dir(r: &ScandirResult) -> bool {
    match r {
        ScandirResult::DirEntry(e) => e.is_dir,
        ScandirResult::DirEntryExt(e) => e.is_dir,
        ScandirResult::Error(_) => false,
    }
}

fn sample() -> Tree {
    vec![
        ("", vec![("b.txt", FileKind::File), ("sub", FileKind::Dir), ("a.txt", FileKind::File), ("c.txt", FileKind::File)]),
        ("sub", vec![("deep", FileKind::Dir), ("x.rs", FileKind::File)]),
        ("sub/deep", vec![("y.rs", FileKind::File), ("link", FileKind::Symlink)]),
    ]
}

#[test]
fn empty_root_gives_no_entries_and_no_errors() {
    let tree: Tree = vec![("", vec![])];
    let mut s = plain(0, 0, false);
    let (entries, errors) = run_collect(&mut s, &tree);
    assert!(entries.is_empty());
    assert!(errors.is_empty());
    assert!(s.finished());
    assert!(!s.busy());
    assert!(!s.has_results(None));
    assert!(!s.has_entries(None));
    assert!(!s.has_errors());
}

#[test]
fn three_files_and_an_empty_subdirectory_without_depth_limit() {
    let tree: Tree = vec![
        ("", vec![("a", FileKind::File), ("b", FileKind::File), ("sub", FileKind::Dir), ("c", FileKind::File)]),
        ("sub", vec![]),
    ];
    let mut s = plain(0, 0, false);
    let (entries, errors) = run_collect(&mut s, &tree);
    assert_eq!(paths(&entries), vec!["a", "b", "sub", "c"]);
    assert_eq!(entries.iter().filter(|e| is_dir(e)).count(), 1);
    assert_eq!(entries.iter().filter(|e| !is_dir(e)).count(), 3);
    assert!(errors.is_empty());
}

#[test]
fn depth_limit_of_one_does_not_descend() {
    let tree: Tree = vec![
        ("", vec![("a", FileKind::File), ("b", FileKind::File), ("sub", FileKind::Dir), ("c", FileKind::File)]),
        ("sub", vec![("hidden_from_scan", FileKind::File)]),
    ];
    let mut s = plain(1, 0, false);
    let mut asked = Vec::new();
    let mut step = s.collect(None, 0).unwrap();
    let (entries, errors) = loop {
        match step {
            Collect::Need(path) => {
                asked.push(path.clone());
                step = s.collect(Some(listing(&tree, &path)), 0).unwrap();
            }
            Collect::Done(r) => break r,
        }
    };
    assert_eq!(asked, vec!["".to_string()]);
    assert_eq!(paths(&entries), vec!["a", "b", "sub", "c"]);
    assert!(errors.is_empty());
}

#[test]
fn depth_limit_zero_means_no_limit() {
    let mut s = plain(0, 0, false);
    let (entries, _) = run_collect(&mut s, &sample());
    assert_eq!(
        paths(&entries),
        vec!["b.txt", "sub", "a.txt", "c.txt", "sub/deep", "sub/x.rs", "sub/deep/y.rs", "sub/deep/link"]
    );
}

#[test]
fn depth_limit_bounds_the_separators() {
    for d in 1..4usize {
        let mut s = plain(d, 0, false);
        let (entries, errors) = run_collect(&mut s, &sample());
        for p in paths(&entries) {
            assert!(p.matches('/').count() + 1 <= d, "{} deeper than {}", p, d);
        }
        assert!(errors.is_empty());
    }
    let mut s = plain(2, 0, false);
    let (entries, _) = run_collect(&mut s, &sample());
    assert_eq!(paths(&entries), vec!["b.txt", "sub", "a.txt", "c.txt", "sub/deep", "sub/x.rs"]);
}

fn is_file(r: &ScandirResult) -> bool {
    match r {
        ScandirResult::DirEntry(e) => e.is_file,
        ScandirResult::DirEntryExt(e) => e.is_file,
        ScandirResult::Error(_) => false,
    }
}

#[test]
fn file_limit_bounds_the_files() {
    for n in 1..7usize {
        let mut s = plain(0, n, false);
        let (entries, _) = run_collect(&mut s, &sample());
        assert_eq!(entries.iter().filter(|e| is_file(e)).count(), n.min(5));
        assert_eq!(entries.iter().filter(|e| is_dir(e)).count(), 2);
        assert_eq!(entries.iter().filter(|e| !is_dir(e) && !is_file(e)).count(), 1);
    }
    let mut s = plain(0, 2, false);
    let (entries, _) = run_collect(&mut s, &sample());
    assert_eq!(paths(&entries), vec!["b.txt", "sub", "a.txt", "sub/deep", "sub/deep/link"]);
}

#[test]
fn file_limit_leaves_symlinks_and_other_entries_alone() {
    let tree: Tree = vec![(
        "",
        vec![("l1", FileKind::Symlink), ("f1", FileKind::File), ("o1", FileKind::Other), ("f2", FileKind::File), ("l2", FileKind::Symlink)],
    )];
    let mut s = plain(0, 1, false);
    let (entries, _) = run_collect(&mut s, &tree);
    assert_eq!(paths(&entries), vec!["l1", "f1", "o1", "l2"]);
}

#[test]
fn scans_of_the_same_tree_hold_the_same_entries_whatever_the_order() {
    let shuffled: Tree = vec![
        ("sub/deep", vec![("link", FileKind::Symlink), ("y.rs", FileKind::File)]),
        ("", vec![("c.txt", FileKind::File), ("a.txt", FileKind::File), ("sub", FileKind::Dir), ("b.txt", FileKind::File)]),
        ("sub", vec![("x.rs", FileKind::File), ("deep", FileKind::Dir)]),
        ("other", vec![]),
    ];
    for d in [0, 1, 2, 3] {
        let mut a = plain(d, 0, false);
        let (mut ea, mut xa) = run_collect(&mut a, &sample());
        let mut b = plain(d, 0, false);
        b.start(0).unwrap();
        run_worker(&mut b, &shuffled, 9);
        assert_eq!(b.join(), Ok(Progress::Done));
        let (mut eb, mut xb) = b.results(Some(true));
        if d == 0 || d == 3 {
            assert_ne!(paths(&ea), paths(&eb));
        }
        ea.sort_by_key(path_of);
        eb.sort_by_key(path_of);
        xa.sort();
        xb.sort();
        assert_eq!(ea, eb);
        assert_eq!(xa, xb);
    }
}

#[test]
fn sorted_scans_do_not_depend_on_the_order_of_the_listings() {
    let shuffled: Tree = vec![
        ("sub/deep", vec![("link", FileKind::Symlink), ("y.rs", FileKind::File)]),
        ("", vec![("c.txt", FileKind::File), ("a.txt", FileKind::File), ("sub", FileKind::Dir), ("b.txt", FileKind::File)]),
        ("sub", vec![("x.rs", FileKind::File), ("deep", FileKind::Dir)]),
    ];
    for (d, n) in [(0, 0), (2, 0), (0, 2)] {
        let mut a = plain(d, n, true);
        let collected = run_collect(&mut a, &sample());
        let mut b = plain(d, n, true);
        b.start(0).unwrap();
        run_worker(&mut b, &shuffled, 9);
        assert_eq!(b.join(), Ok(Progress::Done));
        assert_eq!(b.results(Some(true)), collected);
    }
}

#[test]
fn sorted_scan_visits_children_in_lexical_order() {
    let mut s = plain(0, 0, true);
    let (entries, _) = run_collect(&mut s, &sample());
    assert_eq!(
        paths(&entries),
        vec!["a.txt", "b.txt", "c.txt", "sub", "sub/deep", "sub/x.rs", "sub/deep/link", "sub/deep/y.rs"]
    );
}

#[test]
fn sorting_orders_by_character_and_puts_prefixes_first() {
    let tree: Tree = vec![(
        "",
        vec![
            ("b", FileKind::File),
            ("ab", FileKind::File),
            ("a", FileKind::File),
            ("B", FileKind::File),
            ("abc", FileKind::File),
            ("aa", FileKind::File),
        ],
    )];
    let mut s = plain(0, 0, true);
    let (entries, _) = run_collect(&mut s, &tree);
    assert_eq!(paths(&entries), vec!["B", "a", "aa", "ab", "abc", "b"]);
}

#[test]
fn collect_and_background_scan_agree() {
    for sorted in [false, true] {
        for (d, n) in [(0, 0), (1, 0), (2, 3), (0, 1)] {
            let mut a = plain(d, n, sorted);
            let collected = run_collect(&mut a, &sample());
            let mut b = plain(d, n, sorted);
            assert_eq!(b.start(5), Ok(()));
            run_worker(&mut b, &sample(), 50);
            assert_eq!(b.join(), Ok(Progress::Done));
            let background = b.results(Some(true));
            assert_eq!(collected, background);
        }
    }
}

#[test]
fn only_new_results_add_up_to_all_results() {
    let tree = sample();
    let mut s = plain(0, 0, false);
    s.start(0).unwrap();
    let mut gathered_entries = Vec::new();
    let mut gathered_errors = Vec::new();
    while let Some(dir) = s.next_dir() {
        let l = if dir.path == "sub/deep" { Err("gone".to_string()) } else { listing(&tree, &dir.path) };
        s.feed(l);
        let (e, x) = s.results(None);
        gathered_entries.extend(e);
        gathered_errors.extend(x);
        let (e2, x2) = s.results(Some(false));
        assert!(e2.is_empty() && x2.is_empty());
    }
    s.worker_exit(9);
    let (e, x) = s.results(None);
    gathered_entries.extend(e);
    gathered_errors.extend(x);
    let (all_entries, all_errors) = s.results(Some(true));
    assert_eq!(gathered_entries, all_entries);
    assert_eq!(gathered_errors, all_errors);
    assert_eq!(all_errors, vec![("sub/deep".to_string(), "gone".to_string())]);
    assert_eq!(s.results(Some(true)), (all_entries, all_errors));
    assert!(!s.has_results(Some(true)));
    assert!(s.has_results(Some(false)));
}

#[test]
fn entries_and_errors_have_marks_of_their_own() {
    let tree = sample();
    let mut s = plain(1, 0, false);
    s.start(0).unwrap();
    let root = s.next_dir().unwrap();
    assert_eq!(root.path, "");
    assert_eq!(root.depth, 0);
    let mut l = listing(&tree, "").unwrap();
    l.push(Probe::new("broken".to_string(), Err("denied".to_string())).unwrap());
    s.feed(Ok(l));
    assert!(s.has_entries(Some(true)));
    assert_eq!(s.entries(None).len(), 4);
    assert!(!s.has_entries(Some(true)));
    assert!(s.has_entries(None));
    assert!(s.has_errors());
    assert!(s.has_results(Some(true)));
    assert_eq!(s.errors(None), vec![("broken".to_string(), "denied".to_string())]);
    assert!(s.errors(None).is_empty());
    assert_eq!(s.errors(Some(true)).len(), 1);
    assert_eq!(s.entries(Some(true)).len(), 4);
    assert!(!s.has_results(Some(true)));
}

#[test]
fn counts_are_cached_until_an_update_is_asked_for() {
    let tree = sample();
    let mut s = plain(1, 0, false);
    s.start(0).unwrap();
    assert_eq!(s.results_cnt(Some(true)), 0);
    s.feed(listing(&tree, ""));
    assert_eq!(s.results_cnt(None), 0);
    assert_eq!(s.entries_cnt(Some(false)), 0);
    assert_eq!(s.entries_cnt(Some(true)), 4);
    assert_eq!(s.entries_cnt(None), 4);
    assert_eq!(s.errors_cnt(None), 0);
    assert_eq!(s.results_cnt(None), 4);
    assert_eq!(s.results_cnt(Some(true)), 4);
}

#[test]
fn hidden_names_are_skipped_on_request() {
    let tree: Tree = vec![
        ("", vec![(".git", FileKind::Dir), (".env", FileKind::File), ("src", FileKind::Dir)]),
        (".git", vec![("config", FileKind::File)]),
        ("src", vec![(".keep", FileKind::File), ("lib.rs", FileKind::File)]),
    ];
    let mut s = Scandir::new("/r", RootStatus::Found, None, Some(true), None, None, None, None, None, None, None, None).unwrap();
    let (entries, _) = run_collect(&mut s, &tree);
    assert_eq!(paths(&entries), vec!["src", "src/lib.rs"]);
    let mut t = Scandir::new("/r", RootStatus::Found, None, Some(false), None, None, None, None, None, None, None, None).unwrap();
    let (entries, _) = run_collect(&mut t, &tree);
    assert_eq!(paths(&entries), vec![".git", ".env", "src", ".git/config", "src/.keep", "src/lib.rs"]);
}

#[test]
fn filters_decide_what_is_visited_and_descended() {
    let tree: Tree = vec![
        ("", vec![("src", FileKind::Dir), ("target", FileKind::Dir), ("Cargo.toml", FileKind::File), ("notes.md", FileKind::File)]),
        ("src", vec![("lib.rs", FileKind::File), ("gen_x.rs", FileKind::File), ("data.bin", FileKind::File)]),
        ("target", vec![("out.rs", FileKind::File)]),
    ];
    let mut s = Scandir::new(
        "/r",
        RootStatus::Found,
        None,
        None,
        None,
        None,
        None,
        strings(&["target"]),
        strings(&["*.rs", "*.toml", "gen_*"]),
        strings(&["gen_*"]),
        Some(true),
        None,
    )
    .unwrap();
    let mut asked = Vec::new();
    let mut step = s.collect(None, 0).unwrap();
    let (entries, _) = loop {
        match step {
            Collect::Need(path) => {
                asked.push(path.clone());
                step = s.collect(Some(listing(&tree, &path)), 0).unwrap();
            }
            Collect::Done(r) => break r,
        }
    };
    assert_eq!(asked, vec!["".to_string(), "src".to_string()]);
    assert_eq!(paths(&entries), vec!["src", "Cargo.toml", "src/lib.rs"]);
}

#[test]
fn unreadable_directory_and_failed_probe_become_errors() {
    let tree: Tree = vec![("", vec![("a", FileKind::Dir), ("b", FileKind::Dir)]), ("b", vec![("f", FileKind::File)])];
    let mut s = plain(0, 0, false);
    s.start(0).unwrap();
    let mut l = listing(&tree, "").unwrap();
    l.insert(1, Probe::new("bad".to_string(), Err("vanished".to_string())).unwrap());
    s.feed(Ok(l));
    assert_eq!(s.next_dir().unwrap().path, "a");
    s.feed(Err("permission denied".to_string()));
    assert_eq!(s.next_dir().unwrap().path, "b");
    s.feed(listing(&tree, "b"));
    assert!(s.next_dir().is_none());
    s.worker_exit(1);
    let (entries, errors) = s.results(Some(true));
    assert_eq!(paths(&entries), vec!["a", "b", "b/f"]);
    assert_eq!(
        errors,
        vec![
            ("bad".to_string(), "vanished".to_string()),
            ("a".to_string(), "permission denied".to_string()),
        ]
    );
}

#[test]
fn basic_entries_carry_flags_times_and_mode() {
    let tree: Tree = vec![("", vec![("d", FileKind::Dir), ("f", FileKind::File), ("l", FileKind::Symlink), ("o", FileKind::Other)]), ("d", vec![])];
    let mut s = plain(0, 0, false);
    let (entries, _) = run_collect(&mut s, &tree);
    let flags: Vec<(bool, bool, bool)> = entries
        .iter()
        .map(|e| match e {
            ScandirResult::DirEntry(e) => (e.is_dir, e.is_file, e.is_symlink),
            _ => panic!("basic entry expected"),
        })
        .collect();
    assert_eq!(flags, vec![(true, false, false), (false, true, false), (false, false, true), (false, false, false)]);
    match &entries[1] {
        ScandirResult::DirEntry(e) => {
            assert_eq!(e.ctime, Timestamp { secs: 10, nanos: 1 });
            assert_eq!(e.mtime, Timestamp { secs: 20, nanos: 2 });
            assert_eq!(e.atime, Timestamp { secs: 30, nanos: 3 });
            assert_eq!(e.mode, 0o644);
        }
        _ => panic!("basic entry expected"),
    }
}

#[test]
fn extended_entries_carry_the_extended_metadata() {
    let x = ExtStat { ino: 7, dev: 8, nlink: 2, size: 99, blksize: 4096, blocks: 8, uid: 1000, gid: 100, rdev: 0 };
    let with = Stat { ext: Some(x), ..stat(FileKind::File) };
    let mut s = Scandir::new("/r", RootStatus::Found, None, None, None, None, None, None, None, None, None, Some(ReturnType::Ext)).unwrap();
    s.start(0).unwrap();
    s.feed(Ok(vec![
        Probe::new("full".to_string(), Ok(with)).unwrap(),
        Probe::new("bare".to_string(), Ok(stat(FileKind::File))).unwrap(),
    ]));
    s.worker_exit(0);
    let (entries, errors) = s.results(Some(true));
    assert_eq!(entries.len(), 1);
    match &entries[0] {
        ScandirResult::DirEntryExt(e) => {
            assert_eq!(e.path, "full");
            assert!(e.is_file);
            assert_eq!(e.ext(), x);
            assert_eq!((e.ino, e.dev, e.nlink, e.size, e.blksize, e.blocks, e.uid, e.gid, e.rdev), (7, 8, 2, 99, 4096, 8, 1000, 100, 0));
        }
        _ => panic!("extended entry expected"),
    }
    assert_eq!(errors, vec![("bare".to_string(), "extended metadata not available".to_string())]);
}

#[test]
fn construction_fails_on_missing_root_bad_pattern_and_walk_shape() {
    let make = |root, pattern: &str, rt| {
        Scandir::new("/r", root, None, None, None, None, None, None, strings(&[pattern]), None, None, rt).err()
    };
    assert_eq!(make(RootStatus::NotFound, "*", None), Some(ConstructionError::NotFound));
    assert_eq!(make(RootStatus::Unreadable, "*", None), Some(ConstructionError::IoError));
    assert_eq!(make(RootStatus::Found, "[", None), Some(ConstructionError::InvalidInput));
    assert_eq!(make(RootStatus::NotFound, "[", None), Some(ConstructionError::NotFound));
    assert_eq!(make(RootStatus::Found, "*", Some(ReturnType::Walk)), Some(ConstructionError::InvalidInput));
    assert_eq!(make(RootStatus::Found, "*", Some(ReturnType::Ext)), None);
    let s = plain(3, 4, true);
    assert_eq!(s.config().root_path(), "/root");
    assert_eq!(s.config().max_depth(), 3);
    assert_eq!(s.config().max_file_cnt(), 4);
    assert!(s.config().sorted());
    assert!(!s.config().skip_hidden());
    assert_eq!(s.config().return_type(), ReturnType::Base);
}

#[test]
fn stop_before_start_and_second_start_are_refused() {
    let mut s = plain(0, 0, false);
    assert_eq!(s.stop(), Err(LifecycleError::NotRunning));
    assert_eq!(s.join(), Err(LifecycleError::NotRunning));
    assert_eq!(s.start(1), Ok(()));
    assert_eq!(s.start(2), Err(LifecycleError::AlreadyRunning));
    assert_eq!(s.iter(2), Err(LifecycleError::AlreadyRunning));
    assert_eq!(s.collect(None, 2).err(), Some(LifecycleError::AlreadyRunning));
    assert_eq!(s.clear(), Err(LifecycleError::AlreadyRunning));
    assert!(s.busy());
    assert_eq!(s.join(), Ok(Progress::Wait));
    assert_eq!(s.stop(), Ok(Progress::Wait));
    assert!(s.next_dir().is_none());
    s.worker_exit(11);
    assert_eq!(s.start(3), Err(LifecycleError::AlreadyRunning));
    assert_eq!(s.stop(), Ok(Progress::Done));
    assert_eq!(s.stop(), Err(LifecycleError::NotRunning));
    assert_eq!(s.start(20), Ok(()));
}

#[test]
fn busy_is_false_as_soon_as_the_worker_has_gone() {
    let mut s = plain(0, 0, false);
    assert!(!s.busy());
    s.start(100).unwrap();
    assert!(s.busy());
    assert!(!s.finished());
    assert_eq!(s.duration(130), 30);
    s.worker_exit(150);
    assert!(!s.busy());
    assert!(s.finished());
    assert_eq!(s.duration(999), 50);
    assert_eq!(s.duration(0), 50);
}

#[test]
fn clear_drops_results_and_goes_back_to_idle() {
    let mut s = plain(0, 0, false);
    let _ = run_collect(&mut s, &sample());
    assert!(s.has_results(None));
    assert_eq!(s.clear(), Ok(()));
    assert!(!s.has_results(None));
    assert!(!s.finished());
    assert_eq!(s.duration(5), 0);
    assert_eq!(s.results(Some(true)), (vec![], vec![]));
}

#[test]
fn collect_without_a_scan_at_work_is_refused() {
    let mut s = plain(0, 0, false);
    assert_eq!(s.collect(Some(Ok(vec![])), 0).err(), Some(LifecycleError::NotRunning));
    let _ = run_collect(&mut s, &sample());
    assert_eq!(s.collect(Some(Ok(vec![])), 0).err(), Some(LifecycleError::NotRunning));
    let again = run_collect(&mut s, &sample());
    assert_eq!(again.0.len(), 8);
}

#[test]
fn feed_without_a_scan_at_work_is_dropped() {
    let mut s = plain(0, 0, false);
    s.feed(listing(&sample(), ""));
    assert!(!s.has_results(None));
    s.start(0).unwrap();
    run_worker(&mut s, &sample(), 1);
    let n = s.results(Some(true)).0.len();
    s.feed(listing(&sample(), ""));
    assert_eq!(s.results(Some(true)).0.len(), n);
}

#[test]
fn iteration_yields_entries_then_errors_then_ends() {
    let tree = sample();
    let mut s = plain(1, 0, false);
    assert_eq!(s.iter(0), Ok(()));
    assert_eq!(s.next(), IterStep::Wait);
    let mut l = listing(&tree, "").unwrap();
    l.push(Probe::new("zz".to_string(), Err("nope".to_string())).unwrap());
    s.feed(Ok(l));
    let mut seen = Vec::new();
    loop {
        match s.next() {
            IterStep::Item(r) => seen.push(r),
            IterStep::Wait => break,
            IterStep::Done => panic!("worker still at work"),
        }
    }
    assert_eq!(paths(&seen), vec!["b.txt", "sub", "a.txt", "c.txt", "zz"]);
    assert_eq!(seen[4], ScandirResult::Error(("zz".to_string(), "nope".to_string())));
    s.worker_exit(3);
    assert_eq!(s.next(), IterStep::Done);
    assert_eq!(s.next(), IterStep::Done);
    assert_eq!(s.iter(10), Ok(()));
}

#[test]
fn scope_starts_and_stops() {
    let mut s = plain(0, 0, false);
    assert_eq!(s.exit(), Progress::Done);
    assert_eq!(s.enter(0), Ok(()));
    assert_eq!(s.enter(0), Err(LifecycleError::AlreadyRunning));
    assert_eq!(s.exit(), Progress::Wait);
    assert!(s.next_dir().is_none());
    s.worker_exit(4);
    assert_eq!(s.exit(), Progress::Done);
    assert!(!s.busy());
}

#[test]
fn as_dict_maps_paths_to_entries() {
    let mut s = plain(1, 0, false);
    let (entries, _) = run_collect(&mut s, &sample());
    let d = s.as_dict();
    assert_eq!(d.len(), 4);
    for (i, (path, entry)) in d.iter().enumerate() {
        assert_eq!(entry, &entries[i]);
        assert_eq!(path, &path_of(entry));
    }
}

#[test]
fn invalid_names_make_no_probe() {
    assert!(Probe::new("".to_string(), Ok(stat(FileKind::File))).is_none());
    assert!(Probe::new("a/b".to_string(), Ok(stat(FileKind::File))).is_none());
    assert!(Probe::new("/".to_string(), Ok(stat(FileKind::File))).is_none());
    let p = Probe::new("a b".to_string(), Ok(stat(FileKind::File))).unwrap();
    assert_eq!(p.name(), "a b");
    assert_eq!(p.stat(), &Ok(stat(FileKind::File)));
}
