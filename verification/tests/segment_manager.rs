use log_compaction::checkpoint::{LevelFiles, SstFileInfo};
use log_compaction::segment_manager::{SegmentMapManager, SegmentMapRouter};

fn generate_segment_map() -> Vec<LevelFiles> {
    let mut map = vec![LevelFiles::new(), LevelFiles::new(), LevelFiles::new()];
    for (i, m) in map.iter_mut().enumerate() {
        for j in 0..3 {
            let sk = format!("{i}_{j}").into_bytes();
            let ek = format!("{}_{}", i, j + 1).into_bytes();
            m.insert(
                sk,
                SstFileInfo {
                    end_key: ek,
                    file_name: String::from("/asdfg.sst"),
                    idx: 0,
                },
            );
        }
    }

    map
}

#[test]
fn test() {
    assert!(SegmentMapManager::countable(&generate_segment_map(), &generate_segment_map()));
    let (id, mut manager) =
        SegmentMapManager::register(generate_segment_map(), generate_segment_map());
    println!("{id}");
    let sk = "1_1".as_bytes().to_vec();
    let ek = "2_1".as_bytes().to_vec();
    let (d, _, cnt) = manager.find_ssts(&sk, &ek);
    println!("{:?}", d);
    assert!(cnt > 0);
}

#[test]
fn find_ssts_claims_the_overlapping_files() {
    let (_, mut manager) =
        SegmentMapManager::register(generate_segment_map(), generate_segment_map());
    let sk = b"1_1".to_vec();
    let ek = b"2_1".to_vec();
    let (d, w, cnt) = manager.find_ssts(&sk, &ek);
    let expected: Vec<Vec<(String, usize)>> = vec![
        vec![],
        vec![("/asdfg.sst".to_string(), 1), ("/asdfg.sst".to_string(), 2)],
        vec![("/asdfg.sst".to_string(), 0)],
    ];
    assert_eq!(d, expected);
    assert_eq!(w, expected);
    assert_eq!(cnt, 6);
}

#[test]
fn claimed_files_are_not_claimed_again() {
    let (_, mut manager) =
        SegmentMapManager::register(generate_segment_map(), generate_segment_map());
    let sk = b"1_1".to_vec();
    let ek = b"2_1".to_vec();
    let (_, _, first) = manager.find_ssts(&sk, &ek);
    assert_eq!(first, 6);
    let (d, w, again) = manager.find_ssts(&sk, &ek);
    assert_eq!(again, 0);
    assert!(d.iter().all(|level| level.is_empty()));
    assert!(w.iter().all(|level| level.is_empty()));
}

#[test]
fn empty_bounds_claim_everything() {
    let (_, mut manager) =
        SegmentMapManager::register(generate_segment_map(), generate_segment_map());
    let (d, w, cnt) = manager.find_ssts(&vec![], &vec![]);
    assert_eq!(cnt, 18);
    for level in d.iter().chain(w.iter()) {
        let places: Vec<usize> = level.iter().map(|(_, idx)| *idx).collect();
        assert_eq!(places, vec![0, 1, 2]);
    }
}

#[test]
fn released_files_beyond_the_progress_can_be_claimed_again() {
    let (_, mut manager) =
        SegmentMapManager::register(generate_segment_map(), generate_segment_map());
    let sk = b"1_1".to_vec();
    let ek = b"2_1".to_vec();
    let (d, w, _) = manager.find_ssts(&sk, &ek);
    assert!(manager.can_release(&d, &w));
    // The upload of the first family got as far as level 1, file 1; that of
    // the second family got nowhere.
    manager.release_index(d, 1, 1, w, 0, 0);
    let (d, w, cnt) = manager.find_ssts(&sk, &ek);
    let name = || "/asdfg.sst".to_string();
    assert_eq!(d, vec![vec![], vec![(name(), 2)], vec![(name(), 0)]]);
    assert_eq!(w, vec![vec![], vec![(name(), 1), (name(), 2)], vec![(name(), 0)]]);
    assert_eq!(cnt, 5);
}

#[test]
fn can_release_refuses_places_that_do_not_exist() {
    let (_, manager) = SegmentMapManager::register(generate_segment_map(), generate_segment_map());
    let good = vec![vec![("a".to_string(), 2usize)]];
    let bad_place = vec![vec![("a".to_string(), 3usize)]];
    let bad_level = vec![vec![], vec![], vec![], vec![("a".to_string(), 0usize)]];
    assert!(manager.can_release(&good, &good));
    assert!(!manager.can_release(&bad_place, &good));
    assert!(!manager.can_release(&good, &bad_level));
}

#[test]
fn level_files_are_kept_in_key_order() {
    let info = |name: &str| SstFileInfo {
        file_name: name.to_string(),
        end_key: vec![],
        idx: 7,
    };
    let mut level = LevelFiles::new();
    assert!(level.insert(b"m".to_vec(), info("m")).is_none());
    assert!(level.insert(b"a".to_vec(), info("a")).is_none());
    assert!(level.insert(b"z".to_vec(), info("z")).is_none());
    assert!(level.insert(b"ab".to_vec(), info("ab")).is_none());
    let replaced = level.insert(b"m".to_vec(), info("m2")).expect("m was there");
    assert_eq!(replaced.file_name, "m");
    assert_eq!(level.len(), 4);
    let names: Vec<String> = (0..level.len())
        .map(|i| level.get(i).info.file_name.clone())
        .collect();
    assert_eq!(names, vec!["a", "ab", "m2", "z"]);
    let keys: Vec<Vec<u8>> = (0..level.len())
        .map(|i| level.get(i).start_key.clone())
        .collect();
    assert_eq!(keys, vec![b"a".to_vec(), b"ab".to_vec(), b"m".to_vec(), b"z".to_vec()]);
}

#[test]
fn router_routes_by_name() {
    let mut router = SegmentMapRouter::new();
    let first = router.register(generate_segment_map(), generate_segment_map());
    let second = router.register(generate_segment_map(), vec![]);
    assert_ne!(first, second);
    assert_eq!(first.len(), 36);
    assert!(router.route(&first).is_some());
    assert!(router.route(&second).is_some());
    assert!(router.route("no such manager").is_none());
    let (_, _, cnt) = router
        .route_mut(&second)
        .expect("registered")
        .find_ssts(&vec![], &vec![]);
    assert_eq!(cnt, 9);
    let (_, _, cnt) = router
        .route_mut(&first)
        .expect("registered")
        .find_ssts(&vec![], &vec![]);
    assert_eq!(cnt, 18);
    let (_, _, cnt) = router
        .route_mut(&second)
        .expect("registered")
        .find_ssts(&vec![], &vec![]);
    assert_eq!(cnt, 0);
}
