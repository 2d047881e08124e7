use zvault::retention::{mark_needed, prune_backups, prune_names, prune_plan, BackupDate, BackupEntry};

fn day(year: i32, month: u32, day: u32, iso_week: u32) -> BackupDate {
    BackupDate { year, month, day, iso_year: year, iso_week }
}

#[test]
fn ten_days_keep_three_daily() {
    // 2017-03-01 12:00:00 UTC, then one backup a day.
    let base: i64 = 1_488_369_600;
    let backups: Vec<BackupEntry> = (0..10)
        .map(|i| BackupEntry { name: format!("host/{:02}", i), date: base + 86_400 * i as i64 })
        .collect();
    let mut removed = prune_backups(backups, "host/", Some(3), None, None, None);
    removed.sort();
    let expected: Vec<String> = (0..7).map(|i| format!("host/{:02}", i)).collect();
    assert_eq!(removed, expected);
}

#[test]
fn prefix_filters_backups() {
    let base: i64 = 1_488_369_600;
    let backups = vec![
        BackupEntry { name: "a/1".to_string(), date: base },
        BackupEntry { name: "b/1".to_string(), date: base + 86_400 },
        BackupEntry { name: "a/2".to_string(), date: base + 2 * 86_400 },
    ];
    let removed = prune_backups(backups, "a/", Some(1), None, None, None);
    assert_eq!(removed, vec!["a/1".to_string()]);
}

#[test]
fn no_limits_remove_everything() {
    let backups = vec![BackupEntry { name: "x".to_string(), date: 1_488_369_600 }];
    assert_eq!(prune_backups(backups, "", None, None, None, None), vec!["x".to_string()]);
}

#[test]
fn mark_needed_keeps_first_of_latest_periods() {
    let keys = vec![(2017, 1, 0), (2017, 1, 0), (2017, 2, 0), (2017, 3, 0), (2017, 3, 0)];
    let mut keep = vec![false; 5];
    mark_needed(&keys, &mut keep, 2);
    assert_eq!(keep, vec![false, false, true, true, false]);
    let mut keep = vec![true, false, false, false, false];
    mark_needed(&keys, &mut keep, 0);
    assert_eq!(keep, vec![true, false, false, false, false]);
}

#[test]
fn plan_combines_periods() {
    let dates = vec![
        day(2016, 12, 30, 52),
        day(2017, 1, 2, 1),
        day(2017, 1, 2, 1),
        day(2017, 1, 9, 2),
        day(2017, 2, 1, 5),
    ];
    assert_eq!(prune_plan(&dates, None, None, None, Some(1)), vec![false, true, false, false, false]);
    assert_eq!(prune_plan(&dates, None, None, Some(1), None), vec![false, false, false, false, true]);
    assert_eq!(prune_plan(&dates, None, Some(2), None, None), vec![false, false, false, true, true]);
    assert_eq!(prune_plan(&dates, Some(2), None, None, None), vec![false, false, false, true, true]);
    assert_eq!(prune_plan(&dates, Some(1), None, Some(2), Some(1)), vec![false, true, false, false, true]);
}

#[test]
fn larger_daily_limit_keeps_a_superset() {
    let dates: Vec<BackupDate> = (1..=9).map(|d| day(2017, 5, d, 18 + d / 7)).collect();
    for k in 0..9usize {
        let a = prune_plan(&dates, Some(k), None, None, None);
        let b = prune_plan(&dates, Some(k + 1), None, None, None);
        for i in 0..dates.len() {
            assert!(!a[i] || b[i]);
        }
        assert_eq!(a.iter().filter(|x| **x).count(), k);
    }
}

#[test]
fn prune_names_skips_undated_entries() {
    let entries: Vec<BackupEntry> = (0..4).map(|i| BackupEntry { name: format!("n{}", i), date: i as i64 }).collect();
    let dates = vec![Some(day(2017, 1, 1, 52)), None, Some(day(2017, 1, 2, 1)), Some(day(2017, 1, 3, 1))];
    assert_eq!(prune_names(&entries, &dates, Some(1), None, None, None), vec!["n0".to_string(), "n2".to_string()]);
    assert_eq!(prune_names(&entries, &dates, Some(5), None, None, None), Vec::<String>::new());
    assert_eq!(prune_names(&entries, &dates, None, None, None, None), vec!["n0".to_string(), "n2".to_string(), "n3".to_string()]);
}

#[test]
fn equal_dates_keep_input_order() {
    let base: i64 = 1_488_369_600;
    let backups = vec![
        BackupEntry { name: "b".to_string(), date: base + 86_400 },
        BackupEntry { name: "a".to_string(), date: base },
        BackupEntry { name: "c".to_string(), date: base },
    ];
    assert_eq!(prune_backups(backups, "", None, None, None, None), vec!["a".to_string(), "c".to_string(), "b".to_string()]);
}
