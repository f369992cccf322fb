use photosort::incremental::{later_timestamp, parse_decimal_u32, sort_desc_u32};
use photosort::time::Timestamp;

fn ts(year: u32, month: u32, day: u32, hour: u32, minute: u32, second: u32) -> Timestamp {
    Timestamp { year, month, day, hour, minute, second }
}

#[test]
fn directory_numbers_parse_as_plain_decimals() {
    assert_eq!(parse_decimal_u32(b"2024"), Some(2024));
    assert_eq!(parse_decimal_u32(b"01"), Some(1));
    assert_eq!(parse_decimal_u32(b"+12"), Some(12));
    assert_eq!(parse_decimal_u32(b"0"), Some(0));
    assert_eq!(parse_decimal_u32(b"4294967295"), Some(u32::MAX));
    assert_eq!(parse_decimal_u32(b"4294967296"), None);
    assert_eq!(parse_decimal_u32(b""), None);
    assert_eq!(parse_decimal_u32(b"+"), None);
    assert_eq!(parse_decimal_u32(b"20a4"), None);
    assert_eq!(parse_decimal_u32(b"-3"), None);
}

#[test]
fn directory_numbers_sort_newest_first() {
    let v = vec![2021u32, 2024, 2019, 2024];
    let sorted = sort_desc_u32(&v);
    assert_eq!(sorted, vec![2024, 2024, 2021, 2019]);
    assert_eq!(sort_desc_u32(&Vec::new()), Vec::<u32>::new());
}

#[test]
fn the_latest_timestamp_wins_the_fold() {
    let a = ts(2024, 1, 5, 10, 0, 0);
    let b = ts(2024, 1, 5, 11, 0, 0);
    assert_eq!(later_timestamp(None, a), Some(a));
    assert_eq!(later_timestamp(Some(a), b), Some(b));
    assert_eq!(later_timestamp(Some(b), a), Some(b));
    assert_eq!(later_timestamp(Some(a), a), Some(a));
}
