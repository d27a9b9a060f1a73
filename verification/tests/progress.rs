use task_backup::backup::progress::{percent, CopyProgress};

#[test]
fn percent_rounds_down() {
    assert_eq!(percent(1, 2), 50);
    assert_eq!(percent(1, 3), 33);
    assert_eq!(percent(2, 3), 66);
    assert_eq!(percent(199, 200), 99);
    assert_eq!(percent(0, 5), 0);
}

#[test]
fn percent_is_capped_at_100() {
    assert_eq!(percent(2, 2), 100);
    assert_eq!(percent(3, 2), 100);
    assert_eq!(percent(usize::MAX, 1), 100);
    assert_eq!(percent(0, 0), 100);
}

#[test]
fn percent_does_not_overflow_on_large_counts() {
    assert_eq!(percent(usize::MAX - 1, usize::MAX), 99);
    assert_eq!(percent(usize::MAX / 2, usize::MAX), 49);
}

#[test]
fn percent_never_falls_as_files_are_copied() {
    let total: usize = 7;
    let mut last: i32 = 0;
    for copied in 0..=9 {
        let now = percent(copied, total);
        assert!(0 <= now && now <= 100);
        assert!(last <= now);
        last = now;
    }
    assert_eq!(last, 100);
}

#[test]
fn progress_carries_counters_and_percent() {
    let progress = CopyProgress::new("nightly".to_string(), 3, 4);
    assert_eq!(
        progress,
        CopyProgress {
            task_name: "nightly".to_string(),
            files_copied: 3,
            total_files: 4,
            percent: 75,
        }
    );
}
