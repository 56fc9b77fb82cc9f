use sysmon::format::{format_bytes, format_duration_secs};

#[test]
fn test_format_bytes() {
    assert_eq!(format_bytes(0), "0B");
    assert_eq!(format_bytes(512), "512.0B");
    assert_eq!(format_bytes(1024), "1.0K");
    assert_eq!(format_bytes(1024 * 1024), "1.0M");
    assert_eq!(format_bytes(1024 * 1024 * 1024), "1.0G");
}

#[test]
fn test_format_duration_secs() {
    assert_eq!(format_duration_secs(0), "00:00:00");
    assert_eq!(format_duration_secs(59), "00:00:59");
    assert_eq!(format_duration_secs(60), "00:01:00");
    assert_eq!(format_duration_secs(3661), "01:01:01");
}

#[test]
fn format_bytes_rounds_to_one_decimal() {
    assert_eq!(format_bytes(1), "1.0B");
    assert_eq!(format_bytes(1023), "1023.0B");
    assert_eq!(format_bytes(1536), "1.5K");
    assert_eq!(format_bytes(1126), "1.1K");
    assert_eq!(format_bytes(1048575), "1024.0K");
    assert_eq!(format_bytes(1024u64.pow(4)), "1.0T");
    assert_eq!(format_bytes(5 * 1024u64.pow(5)), "5120.0T");
}

#[test]
fn format_bytes_ties_go_to_even() {
    // 1280 bytes is exactly 1.25K and 3328 bytes exactly 3.25K.
    assert_eq!(format_bytes(1280), "1.2K");
    assert_eq!(format_bytes(1792), "1.8K");
    assert_eq!(format_bytes(3328), "3.2K");
}

#[test]
fn format_bytes_largest_value() {
    assert_eq!(format_bytes(u64::MAX), "16777216.0T");
}

#[test]
fn format_duration_long_hours() {
    assert_eq!(format_duration_secs(360000), "100:00:00");
    assert_eq!(format_duration_secs(86399), "23:59:59");
    assert_eq!(format_duration_secs(36000 + 610), "10:10:10");
}
