use log_compaction::collector::{Compaction, CompactionCollector, DEFAULT_SIZE_THRESHOLD};
use log_compaction::errors::{Error, ErrorKind, Frame};
use log_compaction::storage::{LogFile, LogFileId};
use log_compaction::stream::CollectCompaction;
use std::sync::Arc;

const MIB: u64 = 1024 * 1024;

fn file(name: &str, cf: &'static str, region_id: u64, size: u64) -> LogFile {
    bounded(name, cf, region_id, size, (10, 20), (b"a", b"z"))
}

fn bounded(
    name: &str,
    cf: &'static str,
    region_id: u64,
    size: u64,
    ts: (u64, u64),
    keys: (&[u8], &[u8]),
) -> LogFile {
    LogFile {
        id: LogFileId::new(name.to_string(), 0, size),
        real_size: size,
        region_id,
        cf,
        min_ts: ts.0,
        max_ts: ts.1,
        min_key: Arc::new(keys.0.to_vec()),
        max_key: Arc::new(keys.1.to_vec()),
    }
}

fn names(c: &Compaction) -> Vec<String> {
    c.source.iter().map(|id| id.name.clone()).collect()
}

#[test]
fn an_id_can_be_duplicated() {
    let id = LogFileId::new("v1/backup/log-1".to_string(), 64, 4096);
    let twin = id.duplicate();
    assert_eq!((twin.name.as_str(), twin.offset, twin.length), ("v1/backup/log-1", 64, 4096));
    assert_eq!((id.name.as_str(), id.offset, id.length), ("v1/backup/log-1", 64, 4096));
}

#[test]
fn default_threshold_is_128_mib() {
    assert_eq!(DEFAULT_SIZE_THRESHOLD, 128 * MIB);
    assert_eq!(CompactionCollector::new(DEFAULT_SIZE_THRESHOLD).size_threshold(), 134217728);
}

#[test]
fn second_file_crosses_threshold() {
    let mut collector = CompactionCollector::new(DEFAULT_SIZE_THRESHOLD);
    assert!(collector.add_new_file(file("f1", "default", 1, 100 * MIB)).is_none());
    let c = collector
        .add_new_file(file("f2", "default", 1, 50 * MIB))
        .expect("150 MiB is beyond the threshold");
    assert_eq!(c.size, 150 * MIB);
    assert_eq!(names(&c), vec!["f1", "f2"]);
    assert_eq!(c.region_id, 1);
    assert_eq!(c.cf, "default");
    assert_eq!(collector.pending_count(), 0);
    assert!(collector.add_new_file(file("f3", "default", 1, 10 * MIB)).is_none());
    let rest = collector.take_pending_compactions();
    assert_eq!(rest.len(), 1);
    assert_eq!(names(&rest[0]), vec!["f3"]);
    assert_eq!(rest[0].size, 10 * MIB);
}

#[test]
fn size_at_the_threshold_stays_open() {
    let mut collector = CompactionCollector::new(100);
    assert!(collector.add_new_file(file("a", "write", 7, 60)).is_none());
    assert!(collector.add_new_file(file("b", "write", 7, 40)).is_none());
    let c = collector.add_new_file(file("c", "write", 7, 1)).expect("101 > 100");
    assert_eq!(c.size, 101);
    assert_eq!(names(&c), vec!["a", "b", "c"]);
}

#[test]
fn first_file_alone_never_closes_a_batch() {
    let mut collector = CompactionCollector::new(100);
    assert!(collector.add_new_file(file("huge", "default", 1, 1000)).is_none());
    assert_eq!(collector.pending_count(), 1);
    let c = collector.add_new_file(file("tiny", "default", 1, 0)).expect("1000 > 100");
    assert_eq!(names(&c), vec!["huge", "tiny"]);
    assert_eq!(c.size, 1000);
}

#[test]
fn files_are_grouped_by_family_and_region() {
    let mut collector = CompactionCollector::new(100);
    assert!(collector.add_new_file(file("d1", "default", 1, 60)).is_none());
    assert!(collector.add_new_file(file("w1", "write", 1, 60)).is_none());
    assert!(collector.add_new_file(file("d2", "default", 2, 60)).is_none());
    assert_eq!(collector.pending_count(), 3);
    let c = collector.add_new_file(file("w2", "write", 1, 60)).expect("120 > 100");
    assert_eq!(c.cf, "write");
    assert_eq!(c.region_id, 1);
    assert_eq!(names(&c), vec!["w1", "w2"]);
    assert_eq!(collector.pending_count(), 2);
    let mut rest = collector.take_pending_compactions();
    rest.sort_by_key(|c| c.region_id);
    assert_eq!(rest.len(), 2);
    assert_eq!((rest[0].cf, rest[0].region_id, names(&rest[0])), ("default", 1, vec!["d1".to_string()]));
    assert_eq!((rest[1].cf, rest[1].region_id, names(&rest[1])), ("default", 2, vec!["d2".to_string()]));
    assert_eq!(collector.pending_count(), 0);
    assert!(collector.take_pending_compactions().is_empty());
}

#[test]
fn bounds_widen_to_cover_every_file() {
    let mut collector = CompactionCollector::new(100);
    assert!(collector
        .add_new_file(bounded("a", "default", 1, 10, (50, 60), (b"k", b"m")))
        .is_none());
    assert!(collector
        .add_new_file(bounded("b", "default", 1, 10, (40, 55), (b"kz", b"l")))
        .is_none());
    let c = collector
        .add_new_file(bounded("c", "default", 1, 100, (45, 90), (b"b", b"mm")))
        .expect("120 > 100");
    assert_eq!((c.min_ts, c.max_ts), (40, 90));
    assert_eq!(c.min_key.as_slice(), b"b");
    assert_eq!(c.max_key.as_slice(), b"mm");
    assert_eq!(c.size, 120);
}

#[test]
fn no_file_is_lost_or_taken_twice() {
    let mut collector = CompactionCollector::new(100);
    let sizes = [30u64, 80, 10, 95, 20, 70, 5, 60, 60, 1];
    let mut out: Vec<Compaction> = Vec::new();
    for (i, size) in sizes.iter().enumerate() {
        let cf = if i % 3 == 0 { "write" } else { "default" };
        let f = file(&format!("f{i}"), cf, (i % 2) as u64, *size);
        assert!(collector.accepts(&f));
        out.extend(collector.add_new_file(f));
    }
    out.extend(collector.take_pending_compactions());
    for cf in ["write", "default"] {
        for region in [0u64, 1] {
            let got: Vec<String> = out
                .iter()
                .filter(|c| c.cf == cf && c.region_id == region)
                .flat_map(|c| names(c))
                .collect();
            let want: Vec<String> = (0..sizes.len())
                .filter(|i| (if i % 3 == 0 { "write" } else { "default" }) == cf)
                .filter(|i| (i % 2) as u64 == region)
                .map(|i| format!("f{i}"))
                .collect();
            assert_eq!(got, want);
        }
    }
    let total: u64 = out.iter().map(|c| c.size).sum();
    assert_eq!(total, sizes.iter().sum::<u64>());
}

#[test]
fn accepts_refuses_a_size_that_cannot_be_added() {
    let mut collector = CompactionCollector::new(u64::MAX);
    assert!(collector.add_new_file(file("a", "default", 1, u64::MAX - 1)).is_none());
    assert!(collector.accepts(&file("b", "default", 1, 1)));
    assert!(!collector.accepts(&file("c", "default", 1, 2)));
    assert!(collector.accepts(&file("d", "default", 2, u64::MAX)));
}

#[test]
fn operator_yields_batches_then_flushes() {
    let mut op = CollectCompaction::with_threshold(100);
    assert!(op.is_collecting());
    assert!(op.next_buffered().is_none());
    assert!(op.on_upstream(Some(Ok(file("a", "default", 1, 70)))).is_none());
    assert!(op.next_buffered().is_none());
    let c = op
        .on_upstream(Some(Ok(file("b", "default", 1, 70))))
        .expect("a batch is finished")
        .expect("no error");
    assert_eq!(names(&c), vec!["a", "b"]);
    assert!(op.on_upstream(Some(Ok(file("c", "default", 1, 5)))).is_none());
    assert!(op.on_upstream(Some(Ok(file("d", "write", 1, 5)))).is_none());
    assert!(op.on_upstream(None).is_none());
    assert!(!op.is_collecting());
    let mut flushed = Vec::new();
    while let Some(c) = op.next_buffered().expect("flushing") {
        flushed.push(names(&c));
    }
    flushed.sort();
    assert_eq!(flushed, vec![vec!["c".to_string()], vec!["d".to_string()]]);
    assert!(op.next_buffered().expect("ended").is_none());
    assert!(op.next_buffered().expect("ended").is_none());
}

#[test]
fn operator_default_threshold() {
    let mut op = CollectCompaction::new();
    assert!(op.on_upstream(Some(Ok(file("a", "default", 1, 100 * MIB)))).is_none());
    let c = op
        .on_upstream(Some(Ok(file("b", "default", 1, 50 * MIB))))
        .expect("a batch is finished")
        .expect("no error");
    assert_eq!(c.size, 150 * MIB);
}

#[test]
fn operator_hands_on_errors_and_ends() {
    let mut op = CollectCompaction::with_threshold(100);
    assert!(op.on_upstream(Some(Ok(file("a", "default", 1, 70)))).is_none());
    let upstream = Error::new(ErrorKind::Io, "listing failed".to_string());
    let e = op
        .on_upstream(Some(Err(upstream)))
        .expect("the error is yielded")
        .expect_err("it is an error");
    assert_eq!(e.kind, ErrorKind::Io);
    assert_eq!(e.message, "listing failed");
    assert_eq!(e.frames, vec![Frame::Collector]);
    assert_eq!(e.describe(), "I/O error: listing failed");
    assert!(!op.is_collecting());
    assert!(op.next_buffered().expect("ended").is_none());
}
