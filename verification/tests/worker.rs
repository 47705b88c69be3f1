use async_compression::futures::write::ZstdEncoder;
use futures::executor::block_on;
use futures::io::{AsyncWriteExt, Cursor};
use log_compaction::collector::Compaction;
use log_compaction::errors::{ErrorKind, Frame};
use log_compaction::event::{encode_event_into, Event};
use log_compaction::ext::CompactLogExt;
use log_compaction::load::{load, load_file, load_file_content, records_of, shared_prefix};
use log_compaction::mem_table::MemTable;
use log_compaction::record::Record;
use log_compaction::statistic::{CompactStatistic, LoadStatistic};
use log_compaction::storage::LogFileId;
use log_compaction::table::{
    entry_delta, table_delta, write_record, write_records, write_sst, KeyBuffer, SstInfo, SstWriter,
};
use log_compaction::util::{Cooperate, ExecuteAllExt};
use log_compaction::worker::{append_decimal, output_name, CompactWorker};
use std::sync::Arc;

fn compress(data: &[u8]) -> Vec<u8> {
    let mut out = Vec::new();
    let mut encoder = ZstdEncoder::new(Cursor::new(&mut out));
    block_on(encoder.write_all(data)).expect("write");
    block_on(encoder.close()).expect("close");
    drop(encoder);
    out
}

fn stored(events: &[(&[u8], &[u8])]) -> Vec<u8> {
    let mut out = Vec::new();
    for (k, v) in events {
        encode_event_into(k, v, &mut out);
    }
    compress(&out)
}

fn batch(min_key: &[u8], max_key: &[u8], files: usize) -> Compaction {
    Compaction {
        source: (0..files)
            .map(|i| LogFileId::new(format!("f{i}"), 0, 0))
            .collect(),
        size: 0,
        region_id: 42,
        cf: "default",
        max_ts: 900,
        min_ts: 100,
        min_key: Arc::new(min_key.to_vec()),
        max_key: Arc::new(max_key.to_vec()),
    }
}

fn with_stats() -> CompactLogExt {
    CompactLogExt {
        load_statistic: Some(LoadStatistic::default()),
        compact_statistic: Some(CompactStatistic::default()),
        max_load_concurrency: 16,
    }
}

fn entries(content: &[u8]) -> Vec<(Vec<u8>, Vec<u8>)> {
    MemTable::read(content)
        .expect("a table")
        .into_iter()
        .map(|e| (e.key, e.value))
        .collect()
}

#[test]
fn output_name_joins_region_and_timestamps() {
    assert_eq!(output_name(1, 2, 3), "1-2-3.sst");
    assert_eq!(output_name(0, 0, 0), "0-0-0.sst");
    assert_eq!(
        output_name(42, 433024306044928000, u64::MAX),
        "42-433024306044928000-18446744073709551615.sst"
    );
    let mut s = "n=".to_string();
    append_decimal(&mut s, 1090);
    assert_eq!(s, "n=1090");
}

#[test]
fn shared_prefix_is_what_the_bounds_have_in_common() {
    assert_eq!(shared_prefix(&batch(b"t1_r100", b"t1_r299", 0)).as_slice(), b"t1_r");
    assert_eq!(shared_prefix(&batch(b"a", b"b", 0)).as_slice(), b"");
    assert_eq!(shared_prefix(&batch(b"same", b"same", 0)).as_slice(), b"same");
    assert_eq!(shared_prefix(&batch(b"ab", b"abc", 0)).as_slice(), b"ab");
}

#[test]
fn records_share_the_prefix_buffer() {
    let prefix = Arc::new(b"t1_".to_vec());
    let events = vec![
        Event { key: b"t1_a".to_vec(), value: b"1".to_vec() },
        Event { key: b"t1_".to_vec(), value: b"2".to_vec() },
    ];
    let records = records_of(&prefix, events).expect("all keys are under the prefix");
    assert_eq!(records.len(), 2);
    assert_eq!(records[0].key, b"a");
    assert_eq!(records[0].value, b"1");
    assert_eq!(records[1].key, b"");
    assert!(records.iter().all(|r| Arc::ptr_eq(&r.prefix, &prefix)));
    let stray = vec![
        Event { key: b"t1_a".to_vec(), value: vec![] },
        Event { key: b"t2_a".to_vec(), value: vec![] },
    ];
    assert!(records_of(&prefix, stray).is_none());
}

#[test]
fn load_file_reports_each_failure_by_its_kind() {
    let prefix = Arc::new(b"k".to_vec());
    let good = load_file(&prefix, &stored(&[(b"k1", b"v")])).expect("a good file");
    assert_eq!(good.records.len(), 1);
    assert_eq!(good.records[0].key, b"1");
    assert_eq!(good.stat.logical_key_bytes_in, 2);
    assert_eq!(load_file(&prefix, b"junk").expect_err("junk").kind, ErrorKind::Io);
    assert_eq!(
        load_file(&prefix, &compress(&[1, 0, 0])).expect_err("malformed").kind,
        ErrorKind::Decode
    );
    assert_eq!(
        load_file(&prefix, &stored(&[(b"x1", b"v")])).expect_err("stray key").kind,
        ErrorKind::KeyOutOfRange
    );
    let mut content = Vec::new();
    encode_event_into(b"k9", b"v", &mut content);
    let from_content = load_file_content(&prefix, &content, 5).expect("a good file");
    assert_eq!(from_content.records[0].key, b"9");
    assert_eq!(from_content.stat.physical_bytes_in, 5);
}

#[test]
fn load_merges_the_statistics_of_all_files() {
    let c = batch(b"ka", b"kz", 2);
    let raws = vec![
        stored(&[(b"kb", b"1"), (b"kc", b"22")]),
        stored(&[(b"kd", b"333")]),
    ];
    let mut ext = with_stats();
    let lists = load(&c, &raws, &mut ext).expect("both load");
    assert_eq!(lists.len(), 2);
    assert_eq!(lists[0].len(), 2);
    assert_eq!(lists[1].len(), 1);
    assert_eq!(lists[1][0].key, b"d");
    assert!(Arc::ptr_eq(&lists[0][0].prefix, &lists[1][0].prefix));
    let stat = ext.load_statistic.expect("kept");
    assert_eq!(stat.files_in, 2);
    assert_eq!(stat.keys_in, 3);
    assert_eq!(stat.physical_bytes_in, (raws[0].len() + raws[1].len()) as u64);
    assert_eq!(stat.logical_key_bytes_in, 6);
    assert_eq!(stat.logical_value_bytes_in, 6);
}

#[test]
fn load_fails_fast_and_counts_nothing() {
    let c = batch(b"ka", b"kz", 3);
    let raws = vec![stored(&[(b"kb", b"1")]), b"junk".to_vec(), stored(&[(b"zz", b"1")])];
    let mut ext = with_stats();
    let e = load(&c, &raws, &mut ext).expect_err("the second file is junk");
    assert_eq!(e.kind, ErrorKind::Io);
    let stat = ext.load_statistic.expect("kept");
    assert_eq!(stat.files_in, 0);
    assert_eq!(stat.keys_in, 0);
}

#[test]
fn key_buffer_puts_whole_keys_together() {
    let p = Arc::new(b"pre".to_vec());
    let q = Arc::new(b"other".to_vec());
    let mut buf = KeyBuffer::new();
    assert_eq!(buf.as_slice(), b"");
    buf.set(&p, b"fix".to_vec());
    assert_eq!(buf.as_slice(), b"prefix");
    buf.set(&p, b"".to_vec());
    assert_eq!(buf.as_slice(), b"pre");
    buf.set(&p, b"sent".to_vec());
    assert_eq!(buf.as_slice(), b"present");
    buf.set(&q, b"wise".to_vec());
    assert_eq!(buf.as_slice(), b"otherwise");
    buf.set(&Arc::new(b"other".to_vec()), b"s".to_vec());
    assert_eq!(buf.as_slice(), b"others");
}

#[test]
fn keys_with_a_shared_prefix_are_written_whole() {
    let prefix = Arc::new(b"a".to_vec());
    let records = vec![
        Record::new(prefix.clone(), b"b".to_vec(), b"v1".to_vec()),
        Record::new(prefix.clone(), b"c".to_vec(), b"v2".to_vec()),
    ];
    let mut ext = with_stats();
    let table = write_sst(MemTable::new(), records, &mut ext).expect("written");
    assert_eq!(
        entries(&table.content),
        vec![(b"ab".to_vec(), b"v1".to_vec()), (b"ac".to_vec(), b"v2".to_vec())]
    );
    assert_eq!(table.info.num_entries, 2);
    assert_eq!(table.info.file_size, table.content.len() as u64);
    let stat = ext.compact_statistic.expect("kept");
    assert_eq!(stat.keys_out, 2);
    assert_eq!(stat.physical_bytes_out, table.content.len() as u64);
    assert_eq!(stat.logical_key_bytes_out, 4);
    assert_eq!(stat.logical_value_bytes_out, 4);
}

#[test]
fn a_table_reads_back_as_what_was_written() {
    let prefix = Arc::new(b"t9_".to_vec());
    let mut written = Vec::new();
    let mut records = Vec::new();
    for i in 0..300u32 {
        let key = format!("{i:05}").into_bytes();
        let value = vec![(i % 251) as u8; (i % 7) as usize];
        let mut full = b"t9_".to_vec();
        full.extend_from_slice(&key);
        written.push((full, value.clone()));
        records.push(Record::new(prefix.clone(), key, value));
    }
    let mut ext = CompactLogExt::default();
    let table = write_sst(MemTable::new(), records, &mut ext).expect("written");
    assert_eq!(entries(&table.content), written);
    assert!(ext.compact_statistic.is_none());
    assert!(ext.load_statistic.is_none());
}

#[test]
fn a_table_refuses_keys_out_of_order() {
    let mut table = MemTable::new();
    table.put(b"b", b"1").expect("the first key");
    assert_eq!(table.put(b"b", b"2").expect_err("a repeated key").kind, ErrorKind::TableWriter);
    assert_eq!(table.put(b"a", b"2").expect_err("a smaller key").kind, ErrorKind::TableWriter);
    table.put(b"ba", b"3").expect("a greater key");
    assert_eq!(table.len(), 2);
    let done = table.finish().expect("built");
    assert_eq!(
        entries(&done.content),
        vec![(b"b".to_vec(), b"1".to_vec()), (b"ba".to_vec(), b"3".to_vec())]
    );
}

#[test]
fn write_records_stops_at_the_entry_that_is_refused() {
    let prefix = Arc::new(b"k".to_vec());
    let records = vec![
        Record::new(prefix.clone(), b"1".to_vec(), b"a".to_vec()),
        Record::new(prefix.clone(), b"3".to_vec(), b"bb".to_vec()),
        Record::new(prefix.clone(), b"2".to_vec(), b"ccc".to_vec()),
        Record::new(prefix.clone(), b"4".to_vec(), b"dddd".to_vec()),
    ];
    let mut table = MemTable::new();
    let mut ext = with_stats();
    let e = write_records(&mut table, records, &mut ext).expect_err("k2 follows k3");
    assert_eq!(e.kind, ErrorKind::TableWriter);
    assert_eq!(table.len(), 2);
    let stat = ext.compact_statistic.expect("kept");
    assert_eq!(stat.logical_key_bytes_out, 4);
    assert_eq!(stat.logical_value_bytes_out, 3);
    assert_eq!(stat.keys_out, 0);
}

#[test]
fn write_record_counts_key_and_value() {
    let prefix = Arc::new(b"pp".to_vec());
    let mut table = MemTable::new();
    let mut buf = KeyBuffer::new();
    let mut ext = with_stats();
    write_record(
        &mut table,
        &mut buf,
        Record::new(prefix, b"k".to_vec(), b"value".to_vec()),
        &mut ext,
    )
    .expect("written");
    assert_eq!(buf.as_slice(), b"ppk");
    let stat = ext.compact_statistic.expect("kept");
    assert_eq!(stat.logical_key_bytes_out, 3);
    assert_eq!(stat.logical_value_bytes_out, 5);
}

#[test]
fn a_full_table_refuses_further_entries() {
    let mut table = MemTable::with_limit(1);
    table.put(b"a", b"1").expect("there is room for one");
    assert_eq!(table.put(b"b", b"2").expect_err("full").kind, ErrorKind::TableWriter);
    assert_eq!(table.len(), 1);
}

#[test]
fn entries_are_counted_by_their_bytes() {
    let d = entry_delta(12, 100);
    assert_eq!((d.logical_key_bytes_out, d.logical_value_bytes_out), (12, 100));
    assert_eq!((d.keys_out, d.physical_bytes_out, d.load_duration), (0, 0, 0));
    let t = table_delta(&SstInfo { num_entries: 7, file_size: 1000 });
    assert_eq!((t.keys_out, t.physical_bytes_out), (7, 1000));
    assert_eq!((t.logical_key_bytes_out, t.logical_value_bytes_out), (0, 0));
    let mut buf = KeyBuffer::new();
    let value = buf.load(Record::new(Arc::new(b"ab".to_vec()), b"c".to_vec(), b"v".to_vec()));
    assert_eq!(buf.as_slice(), b"abc");
    assert_eq!(value, b"v");
}

#[test]
fn compact_merges_the_files_into_one_table() {
    let c = batch(b"t1_a", b"t1_z", 3);
    let raws = vec![
        stored(&[(b"t1_m", b"m0"), (b"t1_b", b"b0")]),
        stored(&[(b"t1_z", b"z1"), (b"t1_a", b"a1")]),
        stored(&[(b"t1_c", b"c2")]),
    ];
    let mut ext = with_stats();
    let out = CompactWorker::new()
        .compact_ext(&c, &raws, MemTable::new(), &mut ext)
        .expect("compacted");
    assert_eq!(out.name, "42-100-900.sst");
    assert_eq!(out.info.num_entries, 5);
    assert_eq!(out.info.file_size, out.content.len() as u64);
    assert_eq!(
        entries(&out.content),
        vec![
            (b"t1_a".to_vec(), b"a1".to_vec()),
            (b"t1_b".to_vec(), b"b0".to_vec()),
            (b"t1_c".to_vec(), b"c2".to_vec()),
            (b"t1_m".to_vec(), b"m0".to_vec()),
            (b"t1_z".to_vec(), b"z1".to_vec())
        ]
    );
    let load = ext.load_statistic.expect("kept");
    assert_eq!(load.files_in, 3);
    assert_eq!(load.keys_in, 5);
    let compact = ext.compact_statistic.expect("kept");
    assert_eq!(compact.keys_out, 5);
    assert_eq!(compact.logical_key_bytes_out, 20);
    assert_eq!(compact.logical_value_bytes_out, 10);
    assert_eq!(compact.physical_bytes_out, out.content.len() as u64);
}

#[test]
fn compact_keeps_one_entry_of_a_key_that_two_files_hold() {
    let c = batch(b"k1", b"k3", 2);
    let raws = vec![
        stored(&[(b"k1", b"old"), (b"k2", b"only")]),
        stored(&[(b"k1", b"new"), (b"k3", b"last")]),
    ];
    let mut ext = CompactLogExt::default();
    let out = CompactWorker::new()
        .compact_ext(&c, &raws, MemTable::new(), &mut ext)
        .expect("compacted");
    let got = entries(&out.content);
    assert_eq!(got.len(), 3);
    assert_eq!(got[0].0, b"k1");
    assert!(got[0].1 == b"old" || got[0].1 == b"new");
    assert_eq!(got[1], (b"k2".to_vec(), b"only".to_vec()));
    assert_eq!(got[2], (b"k3".to_vec(), b"last".to_vec()));
}

#[test]
fn compact_fails_with_the_frame_of_the_phase() {
    let c = batch(b"k1", b"k3", 1);
    let mut ext = with_stats();
    let e = CompactWorker::new()
        .compact_ext(&c, &vec![b"junk".to_vec()], MemTable::new(), &mut ext)
        .expect_err("junk does not load");
    assert_eq!(e.kind, ErrorKind::Io);
    assert_eq!(e.frames, vec![Frame::Load]);
    let e = CompactWorker::new()
        .compact_ext(&c, &vec![stored(&[(b"k2", b"v")])], MemTable::with_limit(0), &mut ext)
        .expect_err("the table has no room");
    assert_eq!(e.kind, ErrorKind::TableWriter);
    assert_eq!(e.frames, vec![Frame::WriteTable]);
    assert_eq!(e.describe(), "table writer error: the table is full");
    let e = CompactWorker::new()
        .compact_ext(&c, &vec![stored(&[(b"z", b"v")])], MemTable::new(), &mut ext)
        .expect_err("z is not between k1 and k3");
    assert_eq!(e.kind, ErrorKind::KeyOutOfRange);
    assert_eq!(e.describe(), "key out of range: a key lies outside the bounds of its batch");
}

#[test]
fn compact_of_a_batch_without_files_is_an_empty_table() {
    let c = batch(b"", b"", 0);
    let mut ext = with_stats();
    let out = CompactWorker::new()
        .compact_ext(&c, &vec![], MemTable::new(), &mut ext)
        .expect("compacted");
    assert!(out.content.is_empty());
    assert_eq!(out.info.num_entries, 0);
}

#[test]
fn worker_defaults() {
    let w = CompactWorker::new();
    assert_eq!(w.max_load_concurrency, 16);
    assert_eq!(w.yield_every, 4096);
    assert_eq!(ExecuteAllExt::default().max_concurrency, 16);
}

#[test]
fn permits_keep_the_running_tasks_within_the_limit() {
    let ext = ExecuteAllExt { max_concurrency: 4 };
    assert_eq!(ext.permits(0, 10), 4);
    assert_eq!(ext.permits(3, 10), 1);
    assert_eq!(ext.permits(4, 10), 0);
    assert_eq!(ext.permits(9, 10), 0);
    assert_eq!(ext.permits(1, 2), 2);
    assert_eq!(ext.permits(0, 0), 0);
    let none = ExecuteAllExt { max_concurrency: 0 };
    assert_eq!(none.permits(0, 5), 1);
    assert_eq!(none.permits(1, 5), 0);
}

#[test]
fn cooperate_yields_at_every_period() {
    let mut co = Cooperate::new(3);
    let yields: Vec<bool> = (0..7).map(|_| co.step()).collect();
    assert_eq!(yields, vec![false, false, true, false, false, true, false]);
    let mut always = Cooperate::new(1);
    assert!(always.step() && always.step());
    let mut zero = Cooperate::new(0);
    assert!(zero.step() && zero.step());
}

#[test]
fn statistics_that_are_not_kept_are_not_counted() {
    let mut ext = CompactLogExt::default();
    assert_eq!(ext.max_load_concurrency, 0);
    let mut delta = LoadStatistic::default();
    delta.files_in = 3;
    assert!(ext.with_load_stat(&delta));
    assert!(ext.load_statistic.is_none());
    ext.load_statistic = Some(LoadStatistic::default());
    assert!(ext.with_load_stat(&delta));
    assert!(ext.with_load_stat(&delta));
    assert_eq!(ext.load_statistic.as_ref().expect("kept").files_in, 6);
    delta.files_in = u64::MAX;
    assert!(!ext.with_load_stat(&delta));
    assert_eq!(ext.load_statistic.as_ref().expect("kept").files_in, 6);
    let mut spent = CompactStatistic::default();
    spent.load_duration = 1_500_000;
    assert!(ext.with_compact_stat(&spent));
    assert!(ext.compact_statistic.is_none());
    ext.compact_statistic = Some(CompactStatistic::default());
    assert!(ext.with_compact_stat(&spent));
    assert_eq!(ext.compact_statistic.as_ref().expect("kept").load_duration, 1_500_000);
}
