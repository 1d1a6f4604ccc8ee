use podcasts_remove_ads::runtimes::{fit_name, report_layout, RuntimeTracker};
use std::time::Duration;

#[test]
fn operations_accumulate_per_name() {
    let mut t = RuntimeTracker::new(true);
    t.record_op("decode", 10_000_000, 2);
    t.record_op("match", 5_000_000, 1);
    t.record_op("decode", 30_000_000, 3);
    let ops = t.operations();
    assert_eq!(ops.len(), 2);
    assert_eq!(ops[0].name, "decode");
    assert_eq!(ops[0].count, 5);
    assert_eq!(ops[0].total_nanos, 40_000_000);
    assert_eq!(ops[1].total_nanos, 5_000_000);
    assert_eq!(ops[1].name, "match");
    assert_eq!(ops[1].count, 1);
}

#[test]
fn disabled_tracker_records_nothing() {
    let mut t = RuntimeTracker::new(false);
    t.record_op("decode", 10_000_000, 2);
    t.record_subdir("a", Duration::from_secs(1), 1, 1);
    let r = t.time_op("x", || 41 + 1);
    assert_eq!(r, 42);
    assert!(!t.is_enabled());
    assert!(t.operations().is_empty());
    assert!(t.subdirs().is_empty());
}

#[test]
fn time_op_counts_one_call() {
    let mut t = RuntimeTracker::new(true);
    let r = t.time_op("sum", || (1..=10).sum::<u32>());
    assert_eq!(r, 55);
    t.time_op("sum", || ());
    assert_eq!(t.operations().len(), 1);
    assert_eq!(t.operations()[0].count, 2);
}

#[test]
fn subdirs_without_work_are_skipped() {
    let mut t = RuntimeTracker::new(true);
    t.record_subdir("idle", Duration::from_secs(1), 0, 0);
    t.record_subdir("busy", Duration::from_secs(2), 3, 0);
    t.record_subdir("cut", Duration::from_secs(4), 0, 2);
    let s = t.subdirs();
    assert_eq!(s.len(), 2);
    assert_eq!(s[0].path, "busy");
    assert_eq!(s[0].preprocessed_count, 3);
    assert_eq!(s[1].path, "cut");
    assert_eq!(s[1].cut_count, 2);
    assert_eq!(s[1].duration, Duration::from_secs(4));
}

#[test]
fn report_layout_widths() {
    assert_eq!(report_layout(80, 37), (80, 21, 45, 42));
    assert_eq!(report_layout(20, 37), (50, 6, 15, 15));
    assert_eq!(report_layout(120, 200), (120, 0, 85, 82));
}

#[test]
fn names_are_fitted_from_the_front() {
    assert_eq!(fit_name("decode", 15), "decode");
    assert_eq!(fit_name("/very/long/subdirectory/name", 12), "...tory/name");
    assert_eq!(fit_name("abcdef", 3), "abcdef");
}

#[test]
fn operation_time_saturates() {
    let mut t = RuntimeTracker::new(true);
    t.record_op("long", u128::MAX - 5, 1);
    t.record_op("long", 10, 1);
    assert_eq!(t.operations()[0].total_nanos, u128::MAX);
    assert_eq!(t.operations()[0].count, 2);
}
