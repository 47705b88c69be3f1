use log_compaction::statistic::{CompactStatistic, LoadStatistic};

fn load(files: u64, keys: u64, physical: u64, key_bytes: u64, value_bytes: u64) -> LoadStatistic {
    LoadStatistic {
        files_in: files,
        keys_in: keys,
        physical_bytes_in: physical,
        logical_key_bytes_in: key_bytes,
        logical_value_bytes_in: value_bytes,
    }
}

fn fields(s: &LoadStatistic) -> [u64; 5] {
    [
        s.files_in,
        s.keys_in,
        s.physical_bytes_in,
        s.logical_key_bytes_in,
        s.logical_value_bytes_in,
    ]
}

#[test]
fn load_statistic_adds_field_by_field() {
    let mut a = load(1, 2, 3, 4, 5);
    a.merge_with(&load(10, 20, 30, 40, 50));
    assert_eq!(fields(&a), [11, 22, 33, 44, 55]);
}

#[test]
fn load_statistic_merge_in_any_order_and_grouping() {
    let parts = [load(1, 10, 100, 7, 9), load(1, 3, 50, 2, 2), load(1, 0, 8, 0, 0)];
    let mut left = LoadStatistic::default();
    for p in parts.iter() {
        left.merge_with(p);
    }
    let mut right = LoadStatistic::default();
    for p in parts.iter().rev() {
        right.merge_with(p);
    }
    let mut tail = LoadStatistic::default();
    tail.merge_with(&parts[1]);
    tail.merge_with(&parts[2]);
    let mut grouped = LoadStatistic::default();
    grouped.merge_with(&parts[0]);
    grouped.merge_with(&tail);
    assert_eq!(fields(&left), [3, 13, 158, 9, 11]);
    assert_eq!(fields(&right), fields(&left));
    assert_eq!(fields(&grouped), fields(&left));
}

#[test]
fn load_statistic_try_merge_refuses_overflow() {
    let mut a = load(1, u64::MAX, 3, 4, 5);
    assert!(!a.try_merge_with(&load(1, 1, 1, 1, 1)));
    assert_eq!(fields(&a), [1, u64::MAX, 3, 4, 5]);
    assert!(a.try_merge_with(&load(1, 0, 1, 1, 1)));
    assert_eq!(fields(&a), [2, u64::MAX, 4, 5, 6]);
}

#[test]
fn compact_statistic_adds_counts_and_durations() {
    let mut a = CompactStatistic {
        keys_out: 1,
        physical_bytes_out: 2,
        logical_key_bytes_out: 3,
        logical_value_bytes_out: 4,
        write_sst_duration: 5,
        load_duration: 6,
        sort_duration: 7,
        save_duration: 8,
    };
    let b = CompactStatistic {
        keys_out: 10,
        physical_bytes_out: 20,
        logical_key_bytes_out: 30,
        logical_value_bytes_out: 40,
        write_sst_duration: 50,
        load_duration: 60,
        sort_duration: 70,
        save_duration: 80,
    };
    a.merge_with(&b);
    assert_eq!(a.keys_out, 11);
    assert_eq!(a.physical_bytes_out, 22);
    assert_eq!(a.logical_key_bytes_out, 33);
    assert_eq!(a.logical_value_bytes_out, 44);
    assert_eq!(a.write_sst_duration, 55);
    assert_eq!(a.load_duration, 66);
    assert_eq!(a.sort_duration, 77);
    assert_eq!(a.save_duration, 88);
    let zero = CompactStatistic::default();
    assert_eq!(zero.keys_out, 0);
    assert_eq!(zero.save_duration, 0);
    let mut full = CompactStatistic::default();
    full.sort_duration = u128::MAX;
    assert!(!full.try_merge_with(&b));
    assert_eq!(full.keys_out, 0);
    assert_eq!(full.sort_duration, u128::MAX);
}
