use scandir::config::{ConstructionError, RootStatus};
use scandir::entry::{FileKind, Probe, ReturnType, Stat, Timestamp};
use scandir::lifecycle::{LifecycleError, Progress};
use scandir::walk::{CollectToc, Toc, Walk, WalkStep};

type Tree = Vec<(&'static str, Vec<(&'static str, FileKind)>)>;

fn stat(kind: FileKind) -> Stat {
    let t = Timestamp { secs: 0, nanos: 0 };
    Stat { kind, ctime: t, mtime: t, atime: t, mode: 0, ext: None }
}

fn listing(tree: &Tree, path: &str) -> Result<Vec<Probe>, String> {
    match tree.iter().find(|(p, _)| *p == path) {
        Some((_, children)) => {
            Ok(children.iter().map(|(n, k)| Probe::new(n.to_string(), Ok(stat(*k))).unwrap()).collect())
        }
        None => Err("cannot read".to_string()),
    }
}

fn walk(max_depth: usize, max_file_cnt: usize, sorted: bool, rt: Option<ReturnType>) -> Walk {
    Walk::new("/r", RootStatus::Found, Some(sorted), None, Some(max_depth), Some(max_file_cnt), None, None, None, None, None, rt)
        .unwrap()
}

fn run_collect(w: &mut Walk, tree: &Tree) -> Toc {
    let mut step = w.collect(None, 0).unwrap();
    loop {
        match step {
            CollectToc::Need(path) => step = w.collect(Some(listing(tree, &path)), 1).unwrap(),
            CollectToc::Done(toc) => return toc,
        }
    }
}

fn names(items: &[&str]) -> Vec<String> {
    items.iter().map(|s| s.to_string()).collect()
}

fn sample() -> Tree {
    vec![
        ("", vec![("b.txt", FileKind::File), ("sub", FileKind::Dir), ("a.txt", FileKind::File), ("pipe", FileKind::Other)]),
        ("sub", vec![("link", FileKind::Symlink), ("x.rs", FileKind::File), ("gone", FileKind::Dir)]),
    ]
}

#[test]
fn walk_of_an_empty_root_gives_one_empty_table() {
    let tree: Tree = vec![("", vec![])];
    let mut w = walk(0, 0, false, None);
    let total = run_collect(&mut w, &tree);
    assert_eq!(total, Toc::new());
    assert_eq!(w.results(Some(true)), vec![("".to_string(), Toc::new())]);
    assert!(!w.has_errors());
    assert!(w.finished());
}

#[test]
fn walk_groups_children_by_kind() {
    let mut w = walk(0, 0, false, None);
    let total = run_collect(&mut w, &sample());
    let tables = w.results(Some(true));
    assert_eq!(tables.len(), 3);
    assert_eq!(tables[0].0, "");
    assert_eq!(
        tables[0].1,
        Toc { dirs: names(&["sub"]), files: names(&["b.txt", "a.txt"]), symlinks: vec![], other: names(&["pipe"]), errors: vec![] }
    );
    assert_eq!(tables[1].0, "sub");
    assert_eq!(
        tables[1].1,
        Toc { dirs: names(&["gone"]), files: names(&["x.rs"]), symlinks: names(&["link"]), other: vec![], errors: vec![] }
    );
    assert_eq!(tables[2].0, "sub/gone");
    assert_eq!(
        tables[2].1,
        Toc { dirs: vec![], files: vec![], symlinks: vec![], other: vec![], errors: vec![("sub/gone".to_string(), "cannot read".to_string())] }
    );
    assert_eq!(
        total,
        Toc {
            dirs: names(&["sub", "sub/gone"]),
            files: names(&["b.txt", "a.txt", "sub/x.rs"]),
            symlinks: names(&["sub/link"]),
            other: names(&["pipe"]),
            errors: vec![("sub/gone".to_string(), "cannot read".to_string())],
        }
    );
    assert!(w.has_errors());
}

#[test]
fn walk_collect_and_background_agree() {
    for sorted in [false, true] {
        for (d, n) in [(0, 0), (1, 0), (0, 2)] {
            let mut a = walk(d, n, sorted, None);
            let _ = run_collect(&mut a, &sample());
            let mut b = walk(d, n, sorted, None);
            b.start(0).unwrap();
            while let Some(dir) = b.next_dir() {
                b.feed(listing(&sample(), &dir.path));
            }
            b.worker_exit(7);
            assert_eq!(b.join(), Ok(Progress::Done));
            assert_eq!(a.results(Some(true)), b.results(Some(true)));
        }
    }
}

#[test]
fn walk_respects_depth_and_file_limits() {
    let mut w = walk(1, 0, false, None);
    let total = run_collect(&mut w, &sample());
    assert_eq!(total.dirs, names(&["sub"]));
    assert_eq!(w.results(Some(true)).len(), 1);
    let mut w = walk(0, 2, true, None);
    let total = run_collect(&mut w, &sample());
    assert_eq!(total.files, names(&["a.txt", "b.txt"]));
    assert_eq!(total.symlinks, names(&["sub/link"]));
    assert_eq!(total.other, names(&["pipe"]));
    assert_eq!(total.dirs, names(&["sub", "sub/gone"]));
}

#[test]
fn walk_results_only_new_hand_out_each_table_once() {
    let mut w = walk(0, 0, false, None);
    w.start(0).unwrap();
    let mut gathered = Vec::new();
    while let Some(dir) = w.next_dir() {
        w.feed(listing(&sample(), &dir.path));
        let new = w.results(None);
        assert_eq!(new.len(), 1);
        gathered.extend(new);
        assert!(w.results(Some(false)).is_empty());
    }
    w.worker_exit(1);
    assert_eq!(gathered, w.results(Some(true)));
}

#[test]
fn walk_iteration_yields_short_or_full_tables() {
    let mut w = walk(1, 0, false, None);
    assert_eq!(w.iter(0), Ok(()));
    assert_eq!(w.iter(0), Err(LifecycleError::AlreadyRunning));
    assert_eq!(w.next(), WalkStep::Wait);
    w.feed(listing(&sample(), ""));
    assert_eq!(w.next(), WalkStep::Short("".to_string(), names(&["sub"]), names(&["b.txt", "a.txt"])));
    assert_eq!(w.next(), WalkStep::Wait);
    w.worker_exit(2);
    assert_eq!(w.next(), WalkStep::Done);
    assert_eq!(w.iter(5), Ok(()));

    let mut f = walk(1, 0, false, Some(ReturnType::Ext));
    f.iter(0).unwrap();
    f.feed(listing(&sample(), ""));
    f.worker_exit(1);
    match f.next() {
        WalkStep::Full(path, toc) => {
            assert_eq!(path, "");
            assert_eq!(toc.other, names(&["pipe"]));
        }
        other => panic!("full table expected, got {:?}", other),
    }
    assert_eq!(f.next(), WalkStep::Done);
}

#[test]
fn walk_lifecycle_errors() {
    let mut w = walk(0, 0, false, None);
    assert_eq!(w.stop(), Err(LifecycleError::NotRunning));
    assert_eq!(w.join(), Err(LifecycleError::NotRunning));
    assert_eq!(w.exit(), Progress::Done);
    assert_eq!(w.enter(3), Ok(()));
    assert_eq!(w.start(4), Err(LifecycleError::AlreadyRunning));
    assert!(w.busy());
    assert_eq!(w.duration(10), 7);
    assert_eq!(w.clear(), Err(LifecycleError::AlreadyRunning));
    assert_eq!(w.stop(), Ok(Progress::Wait));
    assert!(w.next_dir().is_none());
    w.worker_exit(13);
    assert!(!w.busy());
    assert_eq!(w.duration(99), 10);
    assert_eq!(w.exit(), Progress::Done);
    assert_eq!(w.clear(), Ok(()));
    assert_eq!(w.collect(Some(Ok(vec![])), 0).err(), Some(LifecycleError::NotRunning));
}

#[test]
fn walk_construction_errors() {
    let make = |root, pattern: &str| {
        Walk::new("/r", root, None, None, None, None, Some(vec![pattern.to_string()]), None, None, None, None, None).err()
    };
    assert_eq!(make(RootStatus::NotFound, "*"), Some(ConstructionError::NotFound));
    assert_eq!(make(RootStatus::Unreadable, "*"), Some(ConstructionError::IoError));
    assert_eq!(make(RootStatus::Found, "[a"), Some(ConstructionError::InvalidInput));
    assert_eq!(make(RootStatus::Found, "[a]"), None);
    let w = walk(0, 0, false, None);
    assert_eq!(w.config().return_type(), ReturnType::Walk);
}
