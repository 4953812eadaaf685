use nulnet::storage::{
    answer_range, order_range, snapshot_file_name, snapshot_timestamp, SnapshotStore,
};

fn store(times: &[u64]) -> SnapshotStore {
    SnapshotStore::new(times.iter().map(|&t| snapshot_file_name(t)).collect())
}

fn named(names: &[&str]) -> SnapshotStore {
    SnapshotStore::new(names.iter().map(|n| n.to_string()).collect())
}

/// The times of the snapshots that a range is answered with.
fn range(store: &SnapshotStore, since: u64, until: u64, limit: Option<usize>) -> Vec<u64> {
    let selected = store.get_range(since, until);
    let read: Vec<Option<u64>> =
        selected.iter().map(|&i| snapshot_timestamp(&store.names[i])).collect();
    answer_range(&read, limit).into_iter().map(|k| read[k].unwrap()).collect()
}

#[test]
fn get_bounds_tracks_oldest_newest_and_count() {
    let store = store(&[100, 200, 150]);
    let bounds = store.get_bounds();
    assert_eq!(bounds.count, 3);
    assert_eq!(bounds.oldest, Some(100));
    assert_eq!(bounds.newest, Some(200));
}

#[test]
fn get_range_without_limit_returns_all_in_window() {
    let store = store(&[100, 200, 300, 400, 500]);

    let all = range(&store, 0, u64::MAX, None);
    assert_eq!(all.len(), 5);

    let limited = range(&store, 0, u64::MAX, Some(2));
    assert_eq!(limited.len(), 2);
    assert_eq!(limited[0], 400);
    assert_eq!(limited[1], 500);
}

#[test]
fn get_latest_returns_newest_snapshot() {
    let store = store(&[100, 200, 150]);
    let latest = store.get_latest().expect("expected a latest snapshot");
    assert_eq!(snapshot_timestamp(&store.names[latest]), Some(200));
}

#[test]
fn rotate_deletes_snapshots_older_than_retention() {
    let now = 1_747_561_234u64;
    let retention_days = 1u64;
    let cutoff = now.saturating_sub(retention_days * 24 * 60 * 60);
    let old_ts = cutoff.saturating_sub(10);
    let new_ts = cutoff.saturating_add(10);

    let mut store = store(&[old_ts, new_ts]);
    for i in store.rotate(now, retention_days).into_iter().rev() {
        store.names.remove(i);
    }

    let latest = store.get_latest().expect("expected a latest snapshot");
    assert_eq!(snapshot_timestamp(&store.names[latest]), Some(new_ts));
    assert_eq!(store.names.len(), 1);
    assert!(store.rotate(now, retention_days).is_empty());
}

#[test]
fn rotation_spares_what_is_just_in_time() {
    let store = store(&[99, 100, 101, 86_499, 86_500]);
    assert_eq!(store.rotate(86_500, 1), vec![0]);
    assert!(store.rotate(86_400, 1).is_empty());
    assert!(store.rotate(5, 1).is_empty());
    assert_eq!(store.rotate(200, 0), vec![0, 1, 2]);
    assert_eq!(store.rotate(u64::MAX, u64::MAX / 86_400), vec![0, 1, 2]);
    assert!(store.rotate(u64::MAX, u64::MAX / 86_400 + 1).is_empty());
    assert!(store.rotate(u64::MAX, u64::MAX).is_empty());
}

#[test]
fn only_numbered_json_files_are_snapshots() {
    assert_eq!(snapshot_timestamp("1747561234.json"), Some(1_747_561_234));
    assert_eq!(snapshot_timestamp("+5.json"), Some(5));
    assert_eq!(snapshot_timestamp("007.json"), Some(7));
    for name in [
        "", ".", ".json", "json", "5", "5.", "5.JSON", "5.json.bak", "5.tar.json", "-5.json",
        " 5.json", "a.json", "..json", "18446744073709551616.json", "5.json ", ".5.json",
    ] {
        assert_eq!(snapshot_timestamp(name), None, "{:?}", name);
    }
    let store = named(&["a.json", "12.json", "7.txt", "9.json"]);
    let bounds = store.get_bounds();
    assert_eq!((bounds.oldest, bounds.newest, bounds.count), (Some(9), Some(12), 2));
    assert_eq!(store.get_latest(), Some(1));
    assert_eq!(store.get_range(0, u64::MAX), vec![1, 3]);
}

#[test]
fn an_empty_directory_has_nothing() {
    let store = named(&[]);
    let bounds = store.get_bounds();
    assert_eq!((bounds.oldest, bounds.newest, bounds.count), (None, None, 0));
    assert_eq!(store.get_latest(), None);
    assert!(store.get_range(0, u64::MAX).is_empty());
    assert!(answer_range(&vec![], Some(3)).is_empty());
    assert_eq!(store.snapshots_disk_bytes(&vec![]), 0);
}

#[test]
fn the_only_snapshot_is_the_latest() {
    let only = store(&[0]);
    assert_eq!(only.get_bounds().newest, Some(0));
    assert_eq!(only.get_latest(), Some(0));
    assert_eq!(named(&["a.json", "0.json", "00.json"]).get_latest(), Some(1));
    assert_eq!(store(&[0, 1]).get_latest(), Some(1));
}

#[test]
fn a_saved_snapshot_is_found_again() {
    for t in [0u64, 7, 1_747_561_234, u64::MAX] {
        assert_eq!(snapshot_file_name(t), format!("{}.json", t));
        assert_eq!(snapshot_timestamp(&snapshot_file_name(t)), Some(t));
    }
    assert_ne!(snapshot_file_name(1), snapshot_file_name(10));
}

#[test]
fn the_youngest_snapshot_is_the_latest() {
    assert_eq!(store(&[50, 60]).get_latest(), Some(1));
    assert_eq!(store(&[50, 60, 70]).get_latest(), Some(2));
    assert_eq!(named(&["60.json", "+60.json"]).get_latest(), Some(0));
}

#[test]
fn a_saved_snapshot_is_counted() {
    let before = store(&[50, 60]).get_bounds();
    let after = store(&[50, 60, 70]).get_bounds();
    assert_eq!(after.count, before.count + 1);
    assert_eq!(after.newest, Some(70));
    assert_eq!(after.oldest, Some(50));
}

#[test]
fn a_range_has_both_its_ends() {
    let store = store(&[300, 100, 200, 150]);
    assert_eq!(range(&store, 150, 200, None), vec![150, 200]);
    assert_eq!(range(&store, 151, 199, None), Vec::<u64>::new());
    assert_eq!(range(&store, 200, 100, None), Vec::<u64>::new());
    assert_eq!(range(&store, 0, u64::MAX, Some(0)), Vec::<u64>::new());
    assert_eq!(range(&store, 0, u64::MAX, Some(9)), vec![100, 150, 200, 300]);
}

#[test]
fn equal_times_keep_their_order() {
    assert_eq!(order_range(&vec![5, 3, 5, 3, 4], None), vec![1, 3, 4, 0, 2]);
    assert_eq!(order_range(&vec![5, 3, 5, 3, 4], Some(3)), vec![4, 0, 2]);
    let many: Vec<u64> = (0..500u64).map(|i| i * 7919 % 101).collect();
    let mut expected: Vec<usize> = (0..many.len()).collect();
    expected.sort_by_key(|&i| many[i]);
    assert_eq!(order_range(&many, None), expected);
}

#[test]
fn files_that_could_not_be_read_are_passed_over() {
    let read = vec![Some(30), None, Some(10), None, Some(20)];
    assert_eq!(answer_range(&read, None), vec![2, 4, 0]);
    assert_eq!(answer_range(&read, Some(2)), vec![4, 0]);
    assert!(answer_range(&vec![None, None], None).is_empty());
}

#[test]
fn sizes_of_json_files_add_up() {
    let store = named(&["1.json", "notes.txt", "x.json", "2.json"]);
    assert_eq!(store.snapshots_disk_bytes(&vec![Some(10), Some(1000), Some(5), None]), 15);
    assert_eq!(
        store.snapshots_disk_bytes(&vec![Some(u64::MAX), None, Some(1), Some(1)]),
        u64::MAX
    );
}
