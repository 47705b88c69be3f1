use log_compaction::bytes::{common_prefix_len, compare_bytes, str_eq, strip_prefix};
use log_compaction::merge::{dedup_by_key, flatten_records, is_same_key, merge_and_sort};
use log_compaction::record::Record;
use std::cmp::Ordering;
use std::sync::Arc;

fn rec(prefix: &Arc<Vec<u8>>, key: &[u8], value: &[u8]) -> Record {
    Record::new(prefix.clone(), key.to_vec(), value.to_vec())
}

fn pairs(records: &[Record]) -> Vec<(Vec<u8>, Vec<u8>)> {
    records.iter().map(|r| (r.key.clone(), r.value.clone())).collect()
}

#[test]
fn common_prefix_len_counts_shared_bytes() {
    assert_eq!(common_prefix_len(b"abc", b"abd"), 2);
    assert_eq!(common_prefix_len(b"abc", b"abc"), 3);
    assert_eq!(common_prefix_len(b"abc", b"abcd"), 3);
    assert_eq!(common_prefix_len(b"", b"abcd"), 0);
    assert_eq!(common_prefix_len(b"xbc", b"abc"), 0);
}

#[test]
fn compare_bytes_is_lexicographic() {
    assert_eq!(compare_bytes(b"a", b"b"), Ordering::Less);
    assert_eq!(compare_bytes(b"b", b"a"), Ordering::Greater);
    assert_eq!(compare_bytes(b"a", b"a"), Ordering::Equal);
    assert_eq!(compare_bytes(b"a", b"ab"), Ordering::Less);
    assert_eq!(compare_bytes(b"ab", b"a"), Ordering::Greater);
    assert_eq!(compare_bytes(b"", b""), Ordering::Equal);
    assert_eq!(compare_bytes(&[0xff], &[0x00, 0xff]), Ordering::Greater);
    let words: [&[u8]; 6] = [b"", b"a", b"ab", b"abc", b"b", b"ba"];
    for x in words {
        for y in words {
            assert_eq!(compare_bytes(x, y), x.cmp(y));
        }
    }
}

#[test]
fn strip_prefix_splits_a_key() {
    assert_eq!(strip_prefix(b"abc", b"ab"), Some(b"c".to_vec()));
    assert_eq!(strip_prefix(b"abc", b""), Some(b"abc".to_vec()));
    assert_eq!(strip_prefix(b"abc", b"abc"), Some(vec![]));
    assert_eq!(strip_prefix(b"abc", b"abcd"), None);
    assert_eq!(strip_prefix(b"abc", b"b"), None);
}

#[test]
fn str_eq_compares_characters() {
    assert!(str_eq("default", "default"));
    assert!(!str_eq("default", "write"));
    assert!(!str_eq("default", "defaul"));
    assert!(str_eq("", ""));
    assert!(str_eq("శ్రీ", "శ్రీ"));
}

#[test]
fn cmp_key_with_a_shared_prefix_buffer() {
    let p = Arc::new(b"t1_".to_vec());
    assert_eq!(rec(&p, b"a", b"x").cmp_key(&rec(&p, b"b", b"x")), Ordering::Less);
    assert_eq!(rec(&p, b"b", b"x").cmp_key(&rec(&p, b"a", b"x")), Ordering::Greater);
    assert_eq!(rec(&p, b"a", b"x").cmp_key(&rec(&p, b"a", b"other")), Ordering::Equal);
}

#[test]
fn cmp_key_with_separate_prefix_buffers() {
    let p = Arc::new(b"t1_".to_vec());
    let same = Arc::new(b"t1_".to_vec());
    let later = Arc::new(b"t2_".to_vec());
    assert_eq!(rec(&p, b"a", b"x").cmp_key(&rec(&same, b"a", b"y")), Ordering::Equal);
    assert_eq!(rec(&p, b"a", b"x").cmp_key(&rec(&same, b"b", b"y")), Ordering::Less);
    assert_eq!(rec(&p, b"z", b"x").cmp_key(&rec(&later, b"a", b"y")), Ordering::Less);
    assert_eq!(rec(&later, b"a", b"x").cmp_key(&rec(&p, b"z", b"y")), Ordering::Greater);
    assert!(is_same_key(&rec(&p, b"a", b"x"), &rec(&same, b"a", b"y")));
    assert!(!is_same_key(&rec(&p, b"a", b"x"), &rec(&later, b"a", b"x")));
}

#[test]
fn flatten_keeps_the_order_of_lists_and_records() {
    let p = Arc::new(vec![]);
    let all = flatten_records(vec![
        vec![rec(&p, b"c", b"1"), rec(&p, b"a", b"2")],
        vec![],
        vec![rec(&p, b"b", b"3")],
    ]);
    assert_eq!(
        pairs(&all),
        vec![
            (b"c".to_vec(), b"1".to_vec()),
            (b"a".to_vec(), b"2".to_vec()),
            (b"b".to_vec(), b"3".to_vec())
        ]
    );
    assert!(flatten_records(vec![]).is_empty());
}

#[test]
fn dedup_keeps_the_last_of_each_run() {
    let p = Arc::new(b"k".to_vec());
    let out = dedup_by_key(vec![
        rec(&p, b"a", b"1"),
        rec(&p, b"a", b"2"),
        rec(&p, b"a", b"3"),
        rec(&p, b"b", b"4"),
        rec(&p, b"c", b"5"),
        rec(&p, b"c", b"6"),
    ]);
    assert_eq!(
        pairs(&out),
        vec![
            (b"a".to_vec(), b"3".to_vec()),
            (b"b".to_vec(), b"4".to_vec()),
            (b"c".to_vec(), b"6".to_vec())
        ]
    );
    assert!(dedup_by_key(vec![]).is_empty());
}

#[test]
fn dedup_looks_at_neighbours_only() {
    let p = Arc::new(vec![]);
    let out = dedup_by_key(vec![rec(&p, b"a", b"1"), rec(&p, b"b", b"2"), rec(&p, b"a", b"3")]);
    assert_eq!(out.len(), 3);
}

#[test]
fn merge_and_sort_sorts_across_files() {
    let p = Arc::new(b"t".to_vec());
    let out = merge_and_sort(vec![
        vec![rec(&p, b"5", b"e"), rec(&p, b"1", b"a"), rec(&p, b"3", b"c")],
        vec![rec(&p, b"4", b"d"), rec(&p, b"2", b"b")],
        vec![],
    ]);
    assert_eq!(
        pairs(&out),
        vec![
            (b"1".to_vec(), b"a".to_vec()),
            (b"2".to_vec(), b"b".to_vec()),
            (b"3".to_vec(), b"c".to_vec()),
            (b"4".to_vec(), b"d".to_vec()),
            (b"5".to_vec(), b"e".to_vec())
        ]
    );
    assert!(out.iter().all(|r| Arc::ptr_eq(&r.prefix, &p)));
}

#[test]
fn merge_and_sort_keeps_one_value_of_a_repeated_key() {
    let p = Arc::new(b"t".to_vec());
    let mut lists = Vec::new();
    for file in 0..4u8 {
        let mut list = Vec::new();
        for key in (0..50u8).rev() {
            list.push(rec(&p, &[key % 10, key], &[file]));
        }
        lists.push(list);
    }
    let out = merge_and_sort(lists);
    assert_eq!(out.len(), 50);
    for pair in out.windows(2) {
        assert_eq!(pair[0].cmp_key(&pair[1]), Ordering::Less);
        assert!(pair[0].key < pair[1].key);
    }
    for r in out.iter() {
        assert_eq!(r.key[0], r.key[1] % 10);
        assert!(r.value.len() == 1 && r.value[0] < 4);
    }
    let mut keys: Vec<u8> = out.iter().map(|r| r.key[1]).collect();
    keys.sort();
    assert_eq!(keys, (0..50u8).collect::<Vec<u8>>());
}
