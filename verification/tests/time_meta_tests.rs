use photosort::meta::{get_exif_date, get_hdr_info, get_sequence_info, ExifData};
use photosort::time::{parse_exif_datetime, ts_before, ts_not_after, Timestamp};

fn bv(s: &str) -> Vec<u8> {
    s.as_bytes().to_vec()
}

fn ts(year: u32, month: u32, day: u32, hour: u32, minute: u32, second: u32) -> Timestamp {
    Timestamp { year, month, day, hour, minute, second }
}

#[test]
fn datetime_parses_the_exact_pattern() {
    assert_eq!(parse_exif_datetime(b"2024:01:05 10:30:00"), Some(ts(2024, 1, 5, 10, 30, 0)));
    assert_eq!(parse_exif_datetime(b"1990:12:31 23:59:59"), Some(ts(1990, 12, 31, 23, 59, 59)));
}

#[test]
fn datetime_rejects_wrong_shapes() {
    assert_eq!(parse_exif_datetime(b"2024-01-05 10:30:00"), None);
    assert_eq!(parse_exif_datetime(b"2024:01:05T10:30:00"), None);
    assert_eq!(parse_exif_datetime(b"2024:01:05 10:30"), None);
    assert_eq!(parse_exif_datetime(b"2024:01:05 10:30:0x"), None);
    assert_eq!(parse_exif_datetime(b""), None);
}

#[test]
fn datetime_rejects_years_outside_the_sanity_window() {
    assert_eq!(parse_exif_datetime(b"1989:12:31 23:59:59"), None);
    assert_eq!(parse_exif_datetime(b"2051:01:01 00:00:00"), None);
    assert!(parse_exif_datetime(b"2050:01:01 00:00:00").is_some());
    assert!(parse_exif_datetime(b"1990:01:01 00:00:00").is_some());
}

#[test]
fn datetime_rejects_impossible_calendar_dates() {
    assert_eq!(parse_exif_datetime(b"2024:13:01 00:00:00"), None);
    assert_eq!(parse_exif_datetime(b"2024:00:01 00:00:00"), None);
    assert_eq!(parse_exif_datetime(b"2024:01:32 00:00:00"), None);
    assert_eq!(parse_exif_datetime(b"2024:01:00 00:00:00"), None);
    assert_eq!(parse_exif_datetime(b"2024:01:01 24:00:00"), None);
    assert_eq!(parse_exif_datetime(b"2024:01:01 00:60:00"), None);
    assert_eq!(parse_exif_datetime(b"2024:01:01 00:00:60"), None);
}

#[test]
fn datetime_knows_leap_years() {
    assert!(parse_exif_datetime(b"2024:02:29 00:00:00").is_some());
    assert_eq!(parse_exif_datetime(b"2023:02:29 00:00:00"), None);
    assert_eq!(parse_exif_datetime(b"2100:02:29 00:00:00"), None);
    assert!(parse_exif_datetime(b"2000:02:29 00:00:00").is_some());
}

#[test]
fn timestamps_order_chronologically() {
    let a = ts(2024, 1, 5, 11, 0, 0);
    let b = ts(2024, 1, 5, 12, 0, 0);
    assert!(ts_before(&a, &b));
    assert!(!ts_before(&b, &a));
    assert!(!ts_before(&a, &a));
    assert!(ts_not_after(&a, &a));
    assert!(ts_not_after(&a, &b));
    assert!(!ts_not_after(&b, &a));
    assert!(ts_before(&ts(2023, 12, 31, 23, 59, 59), &ts(2024, 1, 1, 0, 0, 0)));
}

fn exif(dto: Option<&str>, sm: Option<&str>, dm: Option<&str>) -> ExifData {
    ExifData {
        date_time_original: dto.map(bv),
        special_mode: sm.map(bv),
        drive_mode: dm.map(bv),
    }
}

#[test]
fn exif_date_comes_from_the_capture_field() {
    let e = exif(Some("2024:01:05 10:30:00"), None, None);
    assert_eq!(get_exif_date(&e), Some(ts(2024, 1, 5, 10, 30, 0)));
    let missing = exif(None, None, None);
    assert_eq!(get_exif_date(&missing), None);
    let corrupt = exif(Some("0001:01:01 00:00:00"), None, None);
    assert_eq!(get_exif_date(&corrupt), None);
}

#[test]
fn burst_ordinal_reads_the_sequence_pattern() {
    assert_eq!(get_sequence_info(&exif(None, Some("Sequence: 3"), None)), 3);
    assert_eq!(get_sequence_info(&exif(None, Some("Sequence:42"), None)), 42);
    assert_eq!(get_sequence_info(&exif(None, Some("Sequence:   007"), None)), 7);
    assert_eq!(get_sequence_info(&exif(None, Some("no sequence here"), None)), 0);
    assert_eq!(get_sequence_info(&exif(None, None, None)), 0);
}

#[test]
fn burst_ordinal_takes_the_leftmost_complete_match() {
    assert_eq!(get_sequence_info(&exif(None, Some("Sequence: abc Sequence: 42"), None)), 42);
    assert_eq!(get_sequence_info(&exif(None, Some("Sequence: 5 Sequence: 9"), None)), 5);
}

#[test]
fn burst_ordinal_defaults_to_zero_when_the_value_overflows() {
    assert_eq!(get_sequence_info(&exif(None, Some("Sequence: 99999999999"), None)), 0);
}

#[test]
fn hdr_ordinal_needs_both_drive_mode_markers() {
    let full = "AE Auto Bracketing; Electronic shutter; Shot 2";
    assert_eq!(get_hdr_info(&exif(None, None, Some(full))), Some(2));
    let no_bracket = "Electronic shutter; Shot 2";
    assert_eq!(get_hdr_info(&exif(None, None, Some(no_bracket))), None);
    let no_shutter = "AE Auto Bracketing; Shot 2";
    assert_eq!(get_hdr_info(&exif(None, None, Some(no_shutter))), None);
    assert_eq!(get_hdr_info(&exif(None, None, None)), None);
}

#[test]
fn hdr_ordinal_needs_whitespace_between_marker_and_digits() {
    let glued = "AE Auto Bracketing; Electronic shutter; Shot2";
    assert_eq!(get_hdr_info(&exif(None, None, Some(glued))), None);
    let spaced = "AE Auto Bracketing; Electronic shutter; Shot   12";
    assert_eq!(get_hdr_info(&exif(None, None, Some(spaced))), Some(12));
}
