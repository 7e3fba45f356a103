use scandir::entry::{ExtStat, FileKind, Stat, Timestamp};
use scandir::stats::{
    count, rs_count, tallied, usage_of, Aggregator, Platform, StatValue, Statistics, Totals,
    FLUSH_EVERY,
};

fn ts() -> Timestamp {
    Timestamp { secs: 0, nanos: 0 }
}

fn plain(kind: FileKind) -> Stat {
    Stat { kind, ctime: ts(), mtime: ts(), atime: ts(), mode: 0o644, ext: None }
}

fn ext(size: u64, blocks: u64, nlink: u64, rdev: u64) -> ExtStat {
    ExtStat { ino: 1, dev: 1, nlink, size, blksize: 4096, blocks, uid: 0, gid: 0, rdev }
}

fn full(kind: FileKind, mode: u32, x: ExtStat) -> Stat {
    Stat { kind, ctime: ts(), mtime: ts(), atime: ts(), mode, ext: Some(x) }
}

fn zero() -> Totals {
    Totals { dirs: 0, files: 0, slinks: 0, hlinks: 0, devices: 0, pipes: 0, size: 0, usage: 0 }
}

fn totals(s: &Statistics) -> Totals {
    Totals {
        dirs: s.dirs,
        files: s.files,
        slinks: s.slinks,
        hlinks: s.hlinks,
        devices: s.devices,
        pipes: s.pipes,
        size: s.size,
        usage: s.usage,
    }
}

#[test]
fn usage_counts_blocks_of_512_on_unix() {
    assert_eq!(usage_of(Platform::Unix, &ext(1000, 8, 1, 0)), 4096);
    assert_eq!(usage_of(Platform::Unix, &ext(1000, 0, 1, 0)), 0);
    assert_eq!(usage_of(Platform::Unix, &ext(0, 3, 1, 0)), 1536);
}

#[test]
fn usage_rounds_size_up_to_4096_without_block_counts() {
    assert_eq!(usage_of(Platform::Windows, &ext(0, 99, 1, 0)), 0);
    assert_eq!(usage_of(Platform::Windows, &ext(1, 99, 1, 0)), 4096);
    assert_eq!(usage_of(Platform::Windows, &ext(4096, 99, 1, 0)), 4096);
    assert_eq!(usage_of(Platform::Windows, &ext(4097, 99, 1, 0)), 8192);
}

#[test]
fn usage_stays_at_the_cap() {
    assert_eq!(usage_of(Platform::Unix, &ext(0, u64::MAX, 1, 0)), 0xffff_ffff_ffff_fe00);
    assert_eq!(usage_of(Platform::Unix, &ext(0, 0x007f_ffff_ffff_ffff, 1, 0)), 0xffff_ffff_ffff_fe00);
    assert_eq!(usage_of(Platform::Windows, &ext(u64::MAX, 0, 1, 0)), 0xffff_ffff_ffff_f000);
    assert_eq!(Platform::Unix.alignment(), 512);
    assert_eq!(Platform::Windows.alignment(), 4096);
}

#[test]
fn tally_counts_kinds() {
    let t = tallied(zero(), &plain(FileKind::Dir), true, Platform::Unix);
    assert_eq!(t, Totals { dirs: 1, ..zero() });
    let t = tallied(t, &plain(FileKind::File), true, Platform::Unix);
    let t = tallied(t, &plain(FileKind::File), true, Platform::Unix);
    let t = tallied(t, &plain(FileKind::Symlink), true, Platform::Unix);
    let t = tallied(t, &plain(FileKind::Other), true, Platform::Unix);
    assert_eq!(t, Totals { dirs: 1, files: 2, slinks: 1, ..zero() });
}

#[test]
fn tally_takes_extended_metadata_only_when_in_use() {
    let s = full(FileKind::File, 0o100644, ext(1000, 8, 2, 0));
    let with = tallied(zero(), &s, true, Platform::Unix);
    assert_eq!(with, Totals { files: 1, hlinks: 1, size: 1000, usage: 4096, ..zero() });
    let without = tallied(zero(), &s, false, Platform::Unix);
    assert_eq!(without, Totals { files: 1, ..zero() });
}

#[test]
fn tally_tells_devices_and_pipes_on_unix_only() {
    let device = full(FileKind::Other, 0o020644, ext(0, 0, 1, 5));
    let pipe = full(FileKind::Other, 0o010644, ext(0, 0, 1, 0));
    let t = tallied(zero(), &device, true, Platform::Unix);
    let t = tallied(t, &pipe, true, Platform::Unix);
    assert_eq!(t, Totals { devices: 1, pipes: 1, ..zero() });
    let w = tallied(zero(), &device, true, Platform::Windows);
    let w = tallied(w, &pipe, true, Platform::Windows);
    assert_eq!(w, zero());
}

#[test]
fn counters_stay_at_their_largest_value() {
    let start = Totals { files: u32::MAX, size: u64::MAX - 5, usage: 0xffff_ffff_ffff_fe00, ..zero() };
    let s = full(FileKind::File, 0o100644, ext(10, 1, 1, 0));
    let t = tallied(start, &s, true, Platform::Unix);
    assert_eq!(t.files, u32::MAX);
    assert_eq!(t.size, u64::MAX);
    assert_eq!(t.usage, 0xffff_ffff_ffff_fe00);
}

#[test]
fn count_of_an_empty_stream_is_zero() {
    let s = count(&vec![], Some(true), Some(true), Platform::Unix);
    assert_eq!(totals(&s), zero());
    assert!(s.errors.is_empty());
    assert!(s.as_dict().is_empty());
}

#[test]
fn count_adds_up_and_keeps_error_messages_in_order() {
    let entries = vec![
        Ok(full(FileKind::Dir, 0o040755, ext(4096, 8, 2, 0))),
        Ok(full(FileKind::File, 0o100644, ext(10, 8, 1, 0))),
        Err("first".to_string()),
        Ok(full(FileKind::Symlink, 0o120777, ext(3, 0, 1, 0))),
        Err("second".to_string()),
    ];
    let s = count(&entries, Some(true), Some(true), Platform::Unix);
    assert_eq!(
        totals(&s),
        Totals { dirs: 1, files: 1, slinks: 1, hlinks: 1, size: 4109, usage: 8192, ..zero() }
    );
    assert_eq!(s.errors, vec!["first".to_string(), "second".to_string()]);
    assert_eq!(s.dirs + s.files + s.slinks + s.devices + s.pipes, 3);
    assert_eq!(s.usage % 512, 0);
}

#[test]
fn count_without_metadata_counts_kinds_only() {
    let entries = vec![Ok(full(FileKind::File, 0o100644, ext(10, 8, 3, 0)))];
    for (m, x) in [(None, None), (Some(true), None), (None, Some(true)), (Some(false), Some(true))] {
        let s = count(&entries, m, x, Platform::Unix);
        assert_eq!(totals(&s), Totals { files: 1, ..zero() });
    }
}

#[test]
fn batches_leave_no_trace() {
    let mut entries = Vec::new();
    for i in 0..2500u64 {
        if i % 500 == 499 {
            entries.push(Err(format!("e{}", i)));
        } else {
            entries.push(Ok(full(FileKind::File, 0o100644, ext(1, 1, 1, 0))));
        }
    }
    let s = count(&entries, Some(true), Some(true), Platform::Unix);
    assert_eq!(s.files, 2495);
    assert_eq!(s.size, 2495);
    assert_eq!(s.usage, 2495 * 512);
    assert_eq!(
        s.errors,
        vec!["e499", "e999", "e1499", "e1999", "e2499"].iter().map(|m| m.to_string()).collect::<Vec<_>>()
    );
}

#[test]
fn rs_count_keeps_the_messages_the_snapshot_held() {
    let mut shared = Statistics::new();
    shared.errors.push("old".to_string());
    shared.files = 77;
    let entries = vec![Err("new".to_string()), Ok(plain(FileKind::Dir))];
    rs_count(&entries, false, false, Platform::Unix, &mut shared);
    assert_eq!(shared.errors, vec!["old".to_string(), "new".to_string()]);
    assert_eq!(totals(&shared), Totals { dirs: 1, ..zero() });
}

#[test]
fn aggregator_flushes_every_thousand() {
    let mut agg = Aggregator::new(false, false, Platform::Unix);
    let mut shared = Statistics::new();
    assert_eq!(FLUSH_EVERY, 1000);
    for i in 0..999 {
        assert!(!agg.record(&Ok(plain(FileKind::File))), "entry {}", i);
    }
    assert!(agg.record(&Err("late".to_string())));
    assert_eq!(shared.files, 0);
    agg.flush(&mut shared);
    assert_eq!(shared.files, 999);
    assert_eq!(shared.errors, vec!["late".to_string()]);
    assert!(!agg.record(&Ok(plain(FileKind::File))));
    agg.flush(&mut shared);
    assert_eq!(shared.files, 1000);
    assert_eq!(shared.errors, vec!["late".to_string()]);
    assert_eq!(agg.totals().files, 1000);
}

#[test]
fn as_dict_holds_only_what_is_not_zero() {
    let mut s = Statistics::new();
    s.dirs = 2;
    s.size = 10;
    s.errors.push("oops".to_string());
    assert_eq!(
        s.as_dict(),
        vec![
            ("dirs".to_string(), StatValue::Count(2)),
            ("size".to_string(), StatValue::Bytes(10)),
            ("errors".to_string(), StatValue::Messages(vec!["oops".to_string()])),
        ]
    );
}

#[test]
fn as_dict_keeps_the_order_of_the_fields() {
    let s = Statistics {
        dirs: 1,
        files: 2,
        slinks: 3,
        hlinks: 4,
        devices: 5,
        pipes: 6,
        size: 7,
        usage: 512,
        errors: vec![],
    };
    let keys: Vec<String> = s.as_dict().into_iter().map(|(k, _)| k).collect();
    assert_eq!(keys, vec!["dirs", "files", "slinks", "hlinks", "devices", "pipes", "size", "usage"]);
    let t = s.clone();
    assert_eq!(t, s);
    let mut u = s.clone();
    u.reset();
    assert_eq!(u, Statistics::new());
}
