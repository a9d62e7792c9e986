use fs_apfs::time::ApfsTimestamp;

#[test]
fn splits_seconds_and_subsecond_nanos() {
    // 1_600_000_000.5 seconds since the epoch.
    let ts = ApfsTimestamp(1_600_000_000_500_000_000);
    assert_eq!(ts.as_secs(), 1_600_000_000);
    assert_eq!(ts.subsec_nanos(), 500_000_000);
    assert!(!ts.is_zero());
}

#[test]
fn zero_is_the_epoch() {
    assert!(ApfsTimestamp(0).is_zero());
    assert_eq!(ApfsTimestamp(0).as_secs(), 0);
}

#[test]
fn chrono_conversion_matches_a_known_instant() {
    // 2020-06-22T00:00:00Z is 1_592_784_000 seconds since the epoch.
    let ts = ApfsTimestamp(1_592_784_000_000_000_000);
    let dt = ts.to_chrono().unwrap();
    assert_eq!(dt.and_utc().timestamp(), 1_592_784_000);
}

#[test]
fn time_conversion_matches_a_known_instant() {
    let ts = ApfsTimestamp(1_592_784_000_123_456_789);
    let dt = ts.to_time().unwrap();
    assert_eq!(dt.unix_timestamp(), 1_592_784_000);
    assert_eq!(dt.nanosecond(), 123_456_789);
}
