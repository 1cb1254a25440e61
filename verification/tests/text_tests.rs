use shed::paths::join_path;
use shed::text::{decimal_text, format_bytes};

#[test]
fn formats_byte_counts_like_the_float_formatting() {
    assert_eq!(format_bytes(0), "0 B");
    assert_eq!(format_bytes(1023), "1023 B");
    assert_eq!(format_bytes(1024), "1.0 KiB");
    assert_eq!(format_bytes(1536), "1.5 KiB");
    assert_eq!(format_bytes(10 * 1024), "10 KiB");
    assert_eq!(format_bytes(10 * 1024 - 1), "10.0 KiB");
    assert_eq!(format_bytes(1024 * 1024 * 3 / 2), "1.5 MiB");
    assert_eq!(format_bytes(1u64 << 40), "1.0 TiB");
    assert_eq!(format_bytes(1u64 << 50), "1024 TiB");
    assert_eq!(format_bytes(u64::MAX), "16777216 TiB");
}

#[test]
fn byte_counts_match_the_float_formatting() {
    for bytes in [1u64, 999, 1025, 1075, 1076, 5000, 123_456, 9_999_999, 1 << 33, 987_654_321_012] {
        let mut value = bytes as f64;
        let mut unit = 0;
        let units = ["B", "KiB", "MiB", "GiB", "TiB"];
        while value >= 1024.0 && unit + 1 < units.len() {
            value /= 1024.0;
            unit += 1;
        }
        let expected = if unit == 0 {
            format!("{bytes} B")
        } else if value >= 10.0 {
            format!("{value:.0} {}", units[unit])
        } else {
            format!("{value:.1} {}", units[unit])
        };
        assert_eq!(format_bytes(bytes), expected, "bytes = {bytes}");
    }
}

#[test]
fn decimal_numbers() {
    assert_eq!(decimal_text(0), "0");
    assert_eq!(decimal_text(1234567890), "1234567890");
    assert_eq!(decimal_text(u64::MAX), "18446744073709551615");
}

#[test]
fn joins_like_pathbuf() {
    assert_eq!(join_path("/a", "b"), "/a/b");
    assert_eq!(join_path("/a/", "b"), "/a/b");
    assert_eq!(join_path("", "b"), "b");
    assert_eq!(join_path("/a", "/b"), "/b");
    assert_eq!(join_path("/a", ""), "/a/");
}
