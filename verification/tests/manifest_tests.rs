use tree_manifest::clock::{get_time, stamp_of_reading, stamp_with_text, timestamp_of, MAX_MILLIS};
use tree_manifest::digest::{hash_content, ContentHash, HashAlgorithm};
use tree_manifest::lexical::Rank;
use tree_manifest::manifest::{assemble, sort_records, PathInfo};
use tree_manifest::record::{FileRecord, Timestamp};
use tree_manifest::walker::{Entry, EntryKind, Step, Walker};
use tree_manifest::worker::{gather, process, stored_path, FailureKind, FileError, PathMode};

fn stamp(epoch: u128, text: &str) -> Timestamp {
    Timestamp::new(epoch, text.to_string())
}

fn rec(file: &str, hash: u64, epoch: u128, text: &str) -> FileRecord {
    FileRecord::new(file.to_string(), ContentHash::Xxh3(hash), stamp(epoch, text))
}

fn key(r: &FileRecord) -> (String, u64, u128, String) {
    let h = match &r.hash {
        ContentHash::Xxh3(v) => *v,
        ContentHash::Sha256(_) => panic!("these tests use 64-bit hashes"),
    };
    (r.file.clone(), h, r.timestamp_mod.epoch, r.timestamp_mod.iso8601.clone())
}

fn keys(v: &[FileRecord]) -> Vec<(String, u64, u128, String)> {
    v.iter().map(key).collect()
}

fn info() -> PathInfo {
    PathInfo { base: "/data".to_string(), cmdline: "./data".to_string(), run_from: "/".to_string() }
}

fn sample(order: &[usize]) -> Vec<FileRecord> {
    let all = [
        ("b/z.txt", 5u64, 10u128, "t1"),
        ("a.txt", 9, 10, "t1"),
        ("b/a.txt", 1, 10, "t1"),
        ("a.txt", 3, 10, "t1"),
        ("a.txt", 3, 2, "t9"),
        ("a.txt", 3, 2, "t0"),
        ("a", 100, 0, ""),
        ("été", 0, 0, ""),
        ("z", 0, 0, ""),
    ];
    order.iter().map(|&i| rec(all[i].0, all[i].1, all[i].2, all[i].3)).collect()
}

#[test]
fn records_rank_by_path_then_hash_then_time() {
    assert_eq!(rec("a", 9, 9, "z").rank(&rec("b", 0, 0, "")), Rank::Before);
    assert_eq!(rec("b", 0, 0, "").rank(&rec("a", 9, 9, "z")), Rank::After);
    assert_eq!(rec("a", 1, 9, "z").rank(&rec("a", 2, 0, "")), Rank::Before);
    assert_eq!(rec("a", 1, 1, "z").rank(&rec("a", 1, 2, "")), Rank::Before);
    assert_eq!(rec("a", 1, 1, "y").rank(&rec("a", 1, 1, "z")), Rank::Before);
    assert_eq!(rec("a", 1, 1, "z").rank(&rec("a", 1, 1, "y")), Rank::After);
    assert_eq!(rec("a", 1, 1, "z").rank(&rec("a", 1, 1, "z")), Rank::Same);
}

#[test]
fn sort_gives_the_order_of_the_fields() {
    let sorted = sort_records(sample(&[0, 1, 2, 3, 4, 5, 6, 7, 8]));
    let mut expected = keys(&sample(&[0, 1, 2, 3, 4, 5, 6, 7, 8]));
    expected.sort();
    assert_eq!(keys(&sorted), expected);
    assert_eq!(
        sorted.iter().map(|r| r.file.as_str()).collect::<Vec<_>>(),
        vec!["a", "a.txt", "a.txt", "a.txt", "a.txt", "b/a.txt", "b/z.txt", "z", "été"]
    );
    assert_eq!(key(&sorted[1]), ("a.txt".to_string(), 3, 2, "t0".to_string()));
    assert_eq!(key(&sorted[2]), ("a.txt".to_string(), 3, 2, "t9".to_string()));
    assert_eq!(key(&sorted[3]), ("a.txt".to_string(), 3, 10, "t1".to_string()));
    assert_eq!(key(&sorted[4]), ("a.txt".to_string(), 9, 10, "t1".to_string()));
}

#[test]
fn arrival_order_does_not_show() {
    let first = sort_records(sample(&[0, 1, 2, 3, 4, 5, 6, 7, 8]));
    let second = sort_records(sample(&[8, 7, 6, 5, 4, 3, 2, 1, 0]));
    let third = sort_records(sample(&[4, 0, 8, 2, 6, 1, 7, 3, 5]));
    assert_eq!(keys(&first), keys(&second));
    assert_eq!(keys(&first), keys(&third));
}

#[test]
fn sort_keeps_equal_records() {
    let sorted = sort_records(sample(&[1, 1, 0, 1]));
    assert_eq!(sorted.len(), 4);
    assert_eq!(sorted.iter().filter(|r| r.file == "a.txt").count(), 3);
}

#[test]
fn sort_of_nothing_is_nothing() {
    assert!(sort_records(Vec::new()).is_empty());
}

#[test]
fn manifest_of_empty_tree() {
    let m = assemble(Vec::new(), info(), stamp(1, "now"));
    assert_eq!(m.count, 0);
    assert!(m.files.is_empty());
    assert_eq!(m.path.base, "/data");
    assert_eq!(m.path.cmdline, "./data");
    assert_eq!(m.path.run_from, "/");
    assert_eq!(m.updated_on.epoch, 1);
    assert_eq!(m.updated_on.iso8601, "now");
}

#[test]
fn two_runs_differ_only_in_their_time() {
    let m1 = assemble(sample(&[0, 1, 2, 3, 4, 5]), info(), stamp(1000, "first"));
    let m2 = assemble(sample(&[5, 3, 1, 4, 2, 0]), info(), stamp(2000, "second"));
    assert_eq!(keys(&m1.files), keys(&m2.files));
    assert_eq!(m1.count, 6);
    assert_eq!(m2.count, 6);
    assert_eq!(m1.path.base, m2.path.base);
    assert_eq!(m1.path.cmdline, m2.path.cmdline);
    assert_eq!(m1.path.run_from, m2.path.run_from);
    assert_ne!(m1.updated_on.epoch, m2.updated_on.epoch);
}

#[test]
fn one_file_hello_beside_an_excluded_directory() {
    let mut w = Walker::new(vec!["lib".to_string()]);
    w.supply(vec![
        Entry { path: "/data/a.txt".to_string(), kind: EntryKind::File },
        Entry { path: "/data/lib".to_string(), kind: EntryKind::Directory },
    ]);
    assert!(matches!(w.advance(), Step::Done));
    let files = w.into_files();
    assert_eq!(files, vec!["/data/a.txt".to_string()]);
    let mut outcomes = Vec::new();
    for f in files {
        outcomes.push(process(HashAlgorithm::Xxh3, f, Ok(b"hello".to_vec()), Ok(stamp(5, "five"))));
    }
    let g = gather(outcomes);
    assert!(g.failures.is_empty());
    let m = assemble(g.records, info(), stamp(9, "nine"));
    assert_eq!(m.count, 1);
    assert_eq!(m.files.len(), 1);
    assert_eq!(m.files[0].file, "/data/a.txt");
    assert_eq!(key(&m.files[0]).1, xxhash_rust::xxh3::xxh3_64(b"hello"));
    assert!(m.files.iter().all(|r| !r.file.ends_with("b.txt")));
}

#[test]
fn process_hashes_what_was_read() {
    let r = process(HashAlgorithm::Xxh3, "p".to_string(), Ok(b"hello".to_vec()), Ok(stamp(7, "seven"))).unwrap();
    assert_eq!(key(&r), ("p".to_string(), xxhash_rust::xxh3::xxh3_64(b"hello"), 7, "seven".to_string()));
    let s = process(HashAlgorithm::Sha256, "p".to_string(), Ok(Vec::new()), Ok(stamp(7, "seven"))).unwrap();
    match s.hash {
        ContentHash::Sha256(bytes) => {
            assert_eq!(bytes.len(), 32);
            assert_eq!(bytes[0], 0xe3);
            assert_eq!(bytes[31], 0x55);
        }
        ContentHash::Xxh3(_) => panic!("a SHA-256 digest was asked for"),
    }
}

#[test]
fn unreadable_file_fails_as_access() {
    let e = process(HashAlgorithm::Xxh3, "p".to_string(), Err("denied".to_string()), Ok(stamp(7, "seven"))).unwrap_err();
    assert_eq!(e.path, "p");
    assert_eq!(e.kind, FailureKind::Access);
    assert_eq!(e.cause, "denied");
    let both = process(HashAlgorithm::Xxh3, "p".to_string(), Err("denied".to_string()), Err("no time".to_string())).unwrap_err();
    assert_eq!(both.kind, FailureKind::Access);
    assert_eq!(both.cause, "denied");
}

#[test]
fn missing_modification_time_fails_as_metadata() {
    let e = process(HashAlgorithm::Sha256, "q".to_string(), Ok(vec![1, 2, 3]), Err("no time".to_string())).unwrap_err();
    assert_eq!(e.path, "q");
    assert_eq!(e.kind, FailureKind::Metadata);
    assert_eq!(e.cause, "no time");
}

#[test]
fn one_failure_among_many_costs_one_record() {
    let n = 7;
    let mut outcomes = Vec::new();
    for i in 0..n {
        let content = if i == 3 { Err("permission denied".to_string()) } else { Ok(vec![i as u8]) };
        outcomes.push(process(HashAlgorithm::Xxh3, format!("f{}", i), content, Ok(stamp(1, "t"))));
    }
    let g = gather(outcomes);
    assert_eq!(g.records.len(), n - 1);
    assert_eq!(g.failures.len(), 1);
    assert_eq!(g.failures[0].path, "f3");
    assert_eq!(g.failures[0].cause, "permission denied");
    let m = assemble(g.records, info(), stamp(2, "u"));
    assert_eq!(m.count, n - 1);
    assert!(m.files.iter().all(|r| r.file != "f3"));
}

#[test]
fn gather_keeps_the_order_of_outcomes() {
    let outcomes = vec![
        Ok(rec("z", 1, 1, "")),
        Err(FileError { path: "e1".to_string(), kind: FailureKind::Access, cause: "c1".to_string() }),
        Ok(rec("a", 2, 2, "")),
        Err(FileError { path: "e2".to_string(), kind: FailureKind::Metadata, cause: "c2".to_string() }),
    ];
    let g = gather(outcomes);
    assert_eq!(g.records.iter().map(|r| r.file.as_str()).collect::<Vec<_>>(), vec!["z", "a"]);
    assert_eq!(g.failures.iter().map(|e| e.path.as_str()).collect::<Vec<_>>(), vec!["e1", "e2"]);
    assert_eq!(g.failures[1].kind, FailureKind::Metadata);
}

#[test]
fn gather_of_nothing() {
    let g = gather(Vec::new());
    assert!(g.records.is_empty());
    assert!(g.failures.is_empty());
}

#[test]
fn stored_path_follows_the_mode() {
    assert_eq!(stored_path(PathMode::AsFound, "./a".to_string(), Some("/abs/a".to_string())), "./a");
    assert_eq!(stored_path(PathMode::AsFound, "./a".to_string(), None), "./a");
    assert_eq!(stored_path(PathMode::Canonical, "./a".to_string(), Some("/abs/a".to_string())), "/abs/a");
    assert_eq!(stored_path(PathMode::Canonical, "./a".to_string(), None), "./a");
}

#[test]
fn stamp_with_text_needs_a_text() {
    let s = stamp_with_text(12, Some("twelve".to_string())).unwrap();
    assert_eq!(s.epoch, 12);
    assert_eq!(s.iso8601, "twelve");
    assert!(stamp_with_text(12, None).is_none());
    let far = stamp_with_text(u128::MAX, Some("far".to_string())).unwrap();
    assert_eq!(far.epoch, u128::MAX);
    assert_eq!(far.iso8601, "far");
    assert!(stamp_with_text(u128::MAX, None).is_none());
}

#[test]
fn timestamp_of_writes_the_instant_out() {
    let s = timestamp_of(1_700_000_000_123).unwrap();
    assert_eq!(s.epoch, 1_700_000_000_123);
    assert!(s.iso8601.starts_with("2023-11-1"));
    assert!(s.iso8601.contains('T'));
    assert!(s.iso8601.contains(".123"));
    assert_ne!(s.iso8601, "1700000000123");
}

#[test]
fn timestamp_of_refuses_what_cannot_be_written() {
    assert!(timestamp_of(u128::MAX).is_none());
    assert!(timestamp_of(MAX_MILLIS + 1).is_none());
    assert!(timestamp_of(1u128 << 64).is_none());
    assert_eq!(MAX_MILLIS, 8_210_266_876_799_999);
}

#[test]
fn timestamp_of_years_beyond_9999() {
    let first = timestamp_of(253_402_300_800_000).unwrap();
    assert_eq!(first.epoch, 253_402_300_800_000);
    assert!(first.iso8601.contains("10000-01-01T") || first.iso8601.contains("9999-12-31T"));
    let later = timestamp_of(4_000_000_000_000_000).unwrap();
    assert_eq!(later.epoch, 4_000_000_000_000_000);
    assert!(later.iso8601.starts_with("+12"));
    let reading = stamp_of_reading(Some(253_402_300_800_000)).unwrap();
    assert_eq!(reading.epoch, 253_402_300_800_000);
}

#[test]
fn timestamp_of_the_last_millisecond() {
    let s = timestamp_of(MAX_MILLIS).unwrap();
    assert_eq!(s.epoch, MAX_MILLIS);
    assert!(s.iso8601.contains(".999"));
    assert!(s.iso8601.starts_with("+26214"));
}

#[test]
fn timestamp_of_the_epoch() {
    let s = timestamp_of(0).unwrap();
    assert_eq!(s.epoch, 0);
    assert!(s.iso8601.starts_with("1970-01-01T") || s.iso8601.starts_with("1969-12-31T"));
}

#[test]
fn stamp_of_reading_needs_a_reading() {
    assert!(stamp_of_reading(None).is_none());
    assert!(stamp_of_reading(Some(MAX_MILLIS + 1)).is_none());
    let s = stamp_of_reading(Some(86_400_000)).unwrap();
    assert_eq!(s.epoch, 86_400_000);
    assert!(s.iso8601.starts_with("1970-01-0"));
}

#[test]
fn get_time_reads_a_present_after_2020() {
    let t = get_time().unwrap();
    assert!(t.epoch > 1_577_836_800_000);
    assert!(t.epoch <= MAX_MILLIS);
    assert!(t.iso8601.contains('T'));
    assert!(t.iso8601.starts_with("20"));
}

#[test]
fn sha256_records_sort_by_digest_on_equal_paths() {
    let a = FileRecord::new("f".to_string(), hash_content(HashAlgorithm::Sha256, b"hello"), stamp(0, ""));
    let b = FileRecord::new("f".to_string(), hash_content(HashAlgorithm::Sha256, b""), stamp(0, ""));
    let sorted = sort_records(vec![b, a]);
    match (&sorted[0].hash, &sorted[1].hash) {
        (ContentHash::Sha256(x), ContentHash::Sha256(y)) => {
            assert_eq!(x[0], 0x2c);
            assert_eq!(y[0], 0xe3);
        }
        _ => panic!("SHA-256 digests were asked for"),
    }
}

fn expected_rank(o: std::cmp::Ordering) -> Rank {
    match o {
        std::cmp::Ordering::Less => Rank::Before,
        std::cmp::Ordering::Equal => Rank::Same,
        std::cmp::Ordering::Greater => Rank::After,
    }
}

#[test]
fn rank_agrees_with_the_order_of_the_type() {
    let mut all = sample(&[0, 1, 2, 3, 4, 5, 6, 7, 8]);
    all.push(FileRecord::new("a.txt".to_string(), ContentHash::Sha256(vec![1; 32]), stamp(10, "t1")));
    all.push(FileRecord::new("a.txt".to_string(), ContentHash::Sha256(vec![0; 32]), stamp(99, "t1")));
    all.push(FileRecord::new("a".to_string(), hash_content(HashAlgorithm::Sha256, b"x"), stamp(0, "")));
    for x in &all {
        for y in &all {
            assert_eq!(x.rank(y), expected_rank(x.cmp(y)));
        }
    }
}

#[test]
fn sort_records_agrees_with_the_order_of_the_type() {
    let mut all = sample(&[8, 3, 0, 5, 1, 7, 2, 6, 4, 4, 0]);
    all.push(FileRecord::new("a.txt".to_string(), ContentHash::Sha256(vec![1; 32]), stamp(10, "t1")));
    all.push(FileRecord::new("a.txt".to_string(), ContentHash::Sha256(vec![0; 32]), stamp(99, "t1")));
    let mut expected = all.clone();
    expected.sort();
    assert_eq!(sort_records(all), expected);
}

#[test]
fn manifest_counts_what_it_holds() {
    let m = assemble(sample(&[2, 0, 1]), info(), stamp(3, "three"));
    assert_eq!(m.count, 3);
    assert_eq!(m.files.len(), 3);
    assert_eq!(m.files[0], rec("a.txt", 9, 10, "t1"));
    assert_eq!(m.files[1], rec("b/a.txt", 1, 10, "t1"));
    assert_eq!(m.files[2], rec("b/z.txt", 5, 10, "t1"));
}

#[test]
fn timestamp_of_succeeds_up_to_the_last_millisecond() {
    let mut epoch: u128 = 1;
    while epoch <= MAX_MILLIS {
        let s = timestamp_of(epoch).unwrap();
        assert_eq!(s.epoch, epoch);
        assert!(s.iso8601.contains('T'));
        epoch = epoch * 7 + 3;
    }
    assert!(timestamp_of(MAX_MILLIS - 1).is_some());
    assert!(timestamp_of(MAX_MILLIS + 1).is_none());
}

#[test]
fn stamp_of_reading_succeeds_on_every_reading_in_range() {
    for epoch in [0u128, 999, 1_000, 1_700_000_000_123, 253_402_300_799_999, MAX_MILLIS] {
        let s = stamp_of_reading(Some(epoch)).unwrap();
        assert_eq!(s.epoch, epoch);
        assert!(!s.iso8601.is_empty());
    }
}
