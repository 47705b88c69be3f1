use async_compression::futures::write::ZstdEncoder;
use futures::executor::block_on;
use futures::io::{AsyncWriteExt, Cursor};
use log_compaction::errors::ErrorKind;
use log_compaction::event::{decode_events, encode_event_into, EventIterator};
use log_compaction::source::{load, load_content};

fn compress(data: &[u8]) -> Vec<u8> {
    let mut out = Vec::new();
    let mut encoder = ZstdEncoder::new(Cursor::new(&mut out));
    block_on(encoder.write_all(data)).expect("write");
    block_on(encoder.close()).expect("close");
    drop(encoder);
    out
}

fn encode(events: &[(&[u8], &[u8])]) -> Vec<u8> {
    let mut out = Vec::new();
    for (k, v) in events {
        encode_event_into(k, v, &mut out);
    }
    out
}

#[test]
fn event_bytes_are_length_prefixed() {
    let bytes = encode(&[(b"ab", b"xyz"), (b"", b"v")]);
    assert_eq!(
        bytes,
        vec![2, 0, 0, 0, b'a', b'b', 3, 0, 0, 0, b'x', b'y', b'z', 0, 0, 0, 0, 1, 0, 0, 0, b'v']
    );
}

#[test]
fn decoding_undoes_encoding() {
    let events: Vec<(Vec<u8>, Vec<u8>)> = vec![
        (b"k1".to_vec(), b"value one".to_vec()),
        (vec![], vec![]),
        (vec![0xff; 300], vec![0; 70000]),
    ];
    let mut bytes = Vec::new();
    for (k, v) in events.iter() {
        encode_event_into(k, v, &mut bytes);
    }
    let decoded = decode_events(&bytes).expect("well formed");
    let got: Vec<(Vec<u8>, Vec<u8>)> = decoded.into_iter().map(|e| (e.key, e.value)).collect();
    assert_eq!(got, events);
}

#[test]
fn empty_content_has_no_events() {
    assert!(decode_events(&[]).expect("well formed").is_empty());
    let mut iter = EventIterator::new(&[]);
    assert!(!iter.valid());
    iter.next().expect("nothing to read");
    assert!(!iter.valid());
}

#[test]
fn iterator_walks_the_events() {
    let bytes = encode(&[(b"a", b"1"), (b"bb", b"22")]);
    let mut iter = EventIterator::new(&bytes);
    assert!(!iter.valid());
    iter.next().expect("first");
    assert!(iter.valid());
    assert_eq!(iter.key(), b"a");
    assert_eq!(iter.value(), b"1");
    iter.next().expect("second");
    assert!(iter.valid());
    assert_eq!(iter.key(), b"bb");
    assert_eq!(iter.value(), b"22");
    iter.next().expect("the end");
    assert!(!iter.valid());
}

#[test]
fn cut_short_content_is_a_decode_error() {
    let bytes = encode(&[(b"key", b"value")]);
    for cut in 1..bytes.len() {
        let e = decode_events(&bytes[..cut]).expect_err("cut short");
        assert_eq!(e.kind, ErrorKind::Decode);
    }
    let mut long = bytes.clone();
    long.extend_from_slice(&[9, 0, 0, 0, 1]);
    assert_eq!(decode_events(&long).expect_err("cut short").kind, ErrorKind::Decode);
}

#[test]
fn load_content_counts_what_was_read() {
    let bytes = encode(&[(b"a", b"1"), (b"bb", b"22"), (b"ccc", b"")]);
    let loaded = load_content(&bytes, 17).expect("well formed");
    assert_eq!(loaded.events.len(), 3);
    assert_eq!(loaded.stat.files_in, 1);
    assert_eq!(loaded.stat.keys_in, 3);
    assert_eq!(loaded.stat.physical_bytes_in, 17);
    assert_eq!(loaded.stat.logical_key_bytes_in, 6);
    assert_eq!(loaded.stat.logical_value_bytes_in, 3);
}

#[test]
fn load_decompresses_and_decodes() {
    let content = encode(&[(b"t1_r1", b"row one"), (b"t1_r2", b"row two")]);
    let raw = compress(&content);
    assert_ne!(raw, content);
    let loaded = load(&raw).expect("a good file");
    let got: Vec<(Vec<u8>, Vec<u8>)> = loaded.events.into_iter().map(|e| (e.key, e.value)).collect();
    assert_eq!(
        got,
        vec![
            (b"t1_r1".to_vec(), b"row one".to_vec()),
            (b"t1_r2".to_vec(), b"row two".to_vec())
        ]
    );
    assert_eq!(loaded.stat.files_in, 1);
    assert_eq!(loaded.stat.keys_in, 2);
    assert_eq!(loaded.stat.physical_bytes_in, raw.len() as u64);
    assert_eq!(loaded.stat.logical_key_bytes_in, 10);
    assert_eq!(loaded.stat.logical_value_bytes_in, 14);
}

#[test]
fn load_of_a_large_file() {
    let mut content = Vec::new();
    for i in 0..20000u32 {
        encode_event_into(format!("key{i:08}").as_bytes(), &i.to_le_bytes(), &mut content);
    }
    let raw = compress(&content);
    assert!(raw.len() < content.len());
    let loaded = load(&raw).expect("a good file");
    assert_eq!(loaded.events.len(), 20000);
    assert_eq!(loaded.events[19999].key, b"key00019999");
    assert_eq!(loaded.stat.logical_key_bytes_in, 20000 * 11);
    assert_eq!(loaded.stat.logical_value_bytes_in, 20000 * 4);
}

#[test]
fn load_of_an_empty_stream() {
    let loaded = load(&[]).expect("nothing stored, nothing read");
    assert!(loaded.events.is_empty());
    assert_eq!(loaded.stat.files_in, 1);
    assert_eq!(loaded.stat.keys_in, 0);
    assert_eq!(loaded.stat.physical_bytes_in, 0);
}

#[test]
fn load_of_bytes_that_are_no_zstd_stream_is_an_io_error() {
    let e = load(b"this is not compressed at all").expect_err("not a stream");
    assert_eq!(e.kind, ErrorKind::Io);
    assert!(e.frames.is_empty());
}

#[test]
fn load_of_a_stream_with_bytes_after_its_end_is_an_io_error() {
    let mut raw = compress(&encode(&[(b"k", b"v")]));
    raw.extend_from_slice(b"trailing");
    assert_eq!(load(&raw).expect_err("bytes after the end").kind, ErrorKind::Io);
}

#[test]
fn load_of_malformed_content_is_a_decode_error() {
    let mut content = encode(&[(b"k", b"v")]);
    content.pop();
    let e = load(&compress(&content)).expect_err("malformed");
    assert_eq!(e.kind, ErrorKind::Decode);
}
