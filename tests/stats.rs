use zvault::stats::{BackupStats, RepositoryInfo};

#[test]
fn entries_are_counted() {
    let mut s = BackupStats::new();
    s.account_entry(100, false, false, true);
    s.account_entry(10, true, true, false);
    s.account_entry(5, true, false, false);
    assert_eq!(s.total_data_size, 115);
    assert_eq!(s.changed_data_size, 105);
    assert_eq!(s.dir_count, 1);
    assert_eq!(s.file_count, 2);
}

#[test]
fn sizes_saturate() {
    let mut s = BackupStats::new();
    s.account_entry(u64::MAX, false, false, false);
    s.account_entry(1, false, false, false);
    assert_eq!(s.total_data_size, u64::MAX);
}

#[test]
fn repository_gain_is_the_difference() {
    let mut s = BackupStats::new();
    let before = RepositoryInfo { raw_data_size: 1000, encoded_data_size: 400, bundle_count: 3, chunk_count: 50 };
    let after = RepositoryInfo { raw_data_size: 1600, encoded_data_size: 700, bundle_count: 5, chunk_count: 80 };
    s.finish(&before, &after);
    assert_eq!(s.deduplicated_data_size, 600);
    assert_eq!(s.encoded_data_size, 300);
    assert_eq!(s.bundle_count, 2);
    assert_eq!(s.chunk_count, 30);
    s.finish(&after, &before);
    assert_eq!(s.deduplicated_data_size, 0);
}
