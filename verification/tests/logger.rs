use cinnabar::logger::{
    is_leap, segment_commit_info, session_file_name, utc_stamp_from_epoch_secs,
};

#[test]
fn stamp_format() {
    let s = utc_stamp_from_epoch_secs(1704067200);
    assert_eq!(s, "20240101-000000");
}

#[test]
fn stamp_after_leap_day() {
    let s = utc_stamp_from_epoch_secs(1709251200);
    assert_eq!(s, "20240301-000000");
}

#[test]
fn stamp_epoch_and_time_of_day() {
    assert_eq!(utc_stamp_from_epoch_secs(0), "19700101-000000");
    // 2024-02-29 23:59:59 UTC
    assert_eq!(utc_stamp_from_epoch_secs(1709251199), "20240229-235959");
    // 2000-12-31 12:34:56 UTC
    assert_eq!(utc_stamp_from_epoch_secs(978266096), "20001231-123456");
}

#[test]
fn leap_years() {
    assert!(is_leap(2024));
    assert!(is_leap(2000));
    assert!(!is_leap(1900));
    assert!(!is_leap(2023));
}

#[test]
fn session_file_name_wraps_stamp() {
    assert_eq!(session_file_name(1704067200), "session-20240101-000000.jsonl");
}

#[test]
fn segment_duration_and_truncated_count() {
    let info = segment_commit_info(3, 160, 32000, 16000);
    assert_eq!(info.segment_id, 3);
    assert_eq!(info.start_sample, 160);
    assert_eq!(info.samples, 32000);
    assert_eq!(info.duration_ms, 2000);
    // A rate of 0 counts as 1.
    assert_eq!(segment_commit_info(0, 0, 5, 0).duration_ms, 5000);
}

#[test]
fn later_instants_sort_later() {
    let instants: [u64; 9] = [
        0,
        59,
        60,
        3_599,
        86_399,
        86_400,
        951_782_400,
        1_700_000_000,
        253_402_300_799,
    ];
    for w in instants.windows(2) {
        let a = utc_stamp_from_epoch_secs(w[0]);
        let b = utc_stamp_from_epoch_secs(w[1]);
        assert!(a < b, "{} should sort before {}", a, b);
    }
    assert_eq!(utc_stamp_from_epoch_secs(253_402_300_799), "99991231-235959");
}
