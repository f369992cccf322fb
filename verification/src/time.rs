//! Timestamps at second granularity, interpreted as UTC, with a total order
//! and a parser for the `YYYY:MM:DD HH:MM:SS` capture-time field.

use vstd::prelude::*;
use crate::bytes::{digits_value, is_digit};

verus! {

/// A calendar timestamp with second granularity. Values derived from camera
/// metadata satisfy [`valid_datetime`]; values derived from filesystem
/// modification times are only as sane as the filesystem reports.
#[derive(PartialEq, Eq, Structural, Clone, Copy, Debug)]
pub struct Timestamp {
    pub year: u32,
    pub month: u32,
    pub day: u32,
    pub hour: u32,
    pub minute: u32,
    pub second: u32,
}

/// Strict chronological order: lexicographic on
/// (year, month, day, hour, minute, second).
pub open spec fn ts_lt(a: Timestamp, b: Timestamp) -> bool {
    if a.year != b.year {
        a.year < b.year
    } else if a.month != b.month {
        a.month < b.month
    } else if a.day != b.day {
        a.day < b.day
    } else if a.hour != b.hour {
        a.hour < b.hour
    } else if a.minute != b.minute {
        a.minute < b.minute
    } else {
        a.second < b.second
    }
}

/// Chronological order, reflexive.
pub open spec fn ts_le(a: Timestamp, b: Timestamp) -> bool {
    ts_lt(a, b) || a == b
}

/// Chronological order is total: any two timestamps compare.
pub proof fn lemma_ts_lt_total(a: Timestamp, b: Timestamp)
    ensures
        ts_lt(a, b) || ts_lt(b, a) || a == b,
{
}

/// Chronological order is transitive.
pub proof fn lemma_ts_lt_transitive(a: Timestamp, b: Timestamp, c: Timestamp)
    requires
        ts_lt(a, b),
        ts_lt(b, c),
    ensures
        ts_lt(a, c),
{
}

/// Strict chronological comparison.
pub fn ts_before(a: &Timestamp, b: &Timestamp) -> (r: bool)
    ensures
        r == ts_lt(*a, *b),
{
    if a.year != b.year {
        a.year < b.year
    } else if a.month != b.month {
        a.month < b.month
    } else if a.day != b.day {
        a.day < b.day
    } else if a.hour != b.hour {
        a.hour < b.hour
    } else if a.minute != b.minute {
        a.minute < b.minute
    } else {
        a.second < b.second
    }
}

/// Reflexive chronological comparison.
pub fn ts_not_after(a: &Timestamp, b: &Timestamp) -> (r: bool)
    ensures
        r == ts_le(*a, *b),
{
    if ts_before(a, b) {
        true
    } else {
        a.year == b.year && a.month == b.month && a.day == b.day && a.hour == b.hour && a.minute
            == b.minute && a.second == b.second
    }
}

/// Gregorian leap-year rule.
pub open spec fn is_leap_year(y: u32) -> bool {
    y % 4 == 0 && (y % 100 != 0 || y % 400 == 0)
}

/// Days in a month of the Gregorian calendar.
pub open spec fn days_in_month(y: u32, m: u32) -> u32 {
    if m == 2 {
        if is_leap_year(y) {
            29
        } else {
            28
        }
    } else if m == 4 || m == 6 || m == 9 || m == 11 {
        30
    } else {
        31
    }
}

/// The fields form a real calendar date and time of day.
pub open spec fn valid_datetime(t: Timestamp) -> bool {
    &&& 1 <= t.month <= 12
    &&& 1 <= t.day <= days_in_month(t.year, t.month)
    &&& t.hour <= 23
    &&& t.minute <= 59
    &&& t.second <= 59
}

/// The byte string has the shape `YYYY:MM:DD HH:MM:SS`: nineteen bytes,
/// digits in the numeric positions and the fixed separators between them.
pub open spec fn datetime_shape(s: Seq<u8>) -> bool {
    &&& s.len() == 19
    &&& (forall|j: int|
        0 <= j < 19 && j != 4 && j != 7 && j != 10 && j != 13 && j != 16 ==> is_digit(#[trigger] s[j]))
    &&& s[4] == ':' as u8
    &&& s[7] == ':' as u8
    &&& s[10] == ' ' as u8
    &&& s[13] == ':' as u8
    &&& s[16] == ':' as u8
}

/// The timestamp written in a well-shaped `YYYY:MM:DD HH:MM:SS` string.
pub open spec fn datetime_of(s: Seq<u8>) -> Timestamp {
    Timestamp {
        year: digits_value(s.subrange(0, 4)) as u32,
        month: digits_value(s.subrange(5, 7)) as u32,
        day: digits_value(s.subrange(8, 10)) as u32,
        hour: digits_value(s.subrange(11, 13)) as u32,
        minute: digits_value(s.subrange(14, 16)) as u32,
        second: digits_value(s.subrange(17, 19)) as u32,
    }
}

/// The capture-time field is accepted: well shaped, a real calendar date,
/// and a year inside the sanity window `[1990, 2050]` that guards against
/// corrupt metadata.
pub open spec fn datetime_accepted(s: Seq<u8>) -> bool {
    &&& datetime_shape(s)
    &&& valid_datetime(datetime_of(s))
    &&& 1990 <= datetime_of(s).year <= 2050
}

proof fn lemma_digits_value_small(s: Seq<u8>)
    requires
        forall|j: int| 0 <= j < s.len() ==> is_digit(#[trigger] s[j]),
        s.len() <= 4,
    ensures
        digits_value(s) <= 9999,
{
    crate::bytes::lemma_digits_value_bound(s);
    assert(crate::bytes::pow10(0) == 1);
    assert(crate::bytes::pow10(1) == 10);
    assert(crate::bytes::pow10(2) == 100);
    assert(crate::bytes::pow10(3) == 1000);
    assert(crate::bytes::pow10(4) == 10000);
}

/// Reads a fixed-width digit field out of a well-shaped datetime string.
fn parse_field(s: &[u8], from: usize, to: usize) -> (v: u32)
    requires
        from <= to <= s@.len(),
        to - from <= 4,
        forall|j: int| from <= j < to ==> is_digit(#[trigger] s@[j]),
    ensures
        v == digits_value(s@.subrange(from as int, to as int)),
{
    proof {
        lemma_digits_value_small(s@.subrange(from as int, to as int));
    }
    match crate::bytes::parse_digits_u32(s, from, to) {
        Some(v) => v,
        None => {
            proof {
                assert(false);
            }
            0
        },
    }
}

/// Parses a `DateTimeOriginal`-style capture time. Returns the timestamp
/// exactly when the field has the shape `YYYY:MM:DD HH:MM:SS`, forms a real
/// calendar date, and its year lies in the sanity window `[1990, 2050]`.
pub fn parse_exif_datetime(s: &[u8]) -> (r: Option<Timestamp>)
    ensures
        r == if datetime_accepted(s@) {
            Some(datetime_of(s@))
        } else {
            None::<Timestamp>
        },
{
    if s.len() != 19 {
        return None;
    }
    let mut j: usize = 0;
    while j < 19
        invariant
            s@.len() == 19,
            j <= 19,
            forall|k: int|
                0 <= k < j && k != 4 && k != 7 && k != 10 && k != 13 && k != 16 ==> is_digit(
                    #[trigger] s@[k],
                ),
        decreases 19 - j,
    {
        if j != 4 && j != 7 && j != 10 && j != 13 && j != 16 {
            let b = s[j];
            if !('0' as u8 <= b && b <= '9' as u8) {
                return None;
            }
        }
        j = j + 1;
    }
    if s[4] != ':' as u8 || s[7] != ':' as u8 || s[10] != ' ' as u8 || s[13] != ':' as u8 || s[16]
        != ':' as u8 {
        return None;
    }
    let t = Timestamp {
        year: parse_field(s, 0, 4),
        month: parse_field(s, 5, 7),
        day: parse_field(s, 8, 10),
        hour: parse_field(s, 11, 13),
        minute: parse_field(s, 14, 16),
        second: parse_field(s, 17, 19),
    };
    proof {
        assert(datetime_shape(s@));
        assert(t == datetime_of(s@));
    }
    if t.month < 1 || t.month > 12 {
        return None;
    }
    let dim: u32 = if t.month == 2 {
        if t.year % 4 == 0 && (t.year % 100 != 0 || t.year % 400 == 0) {
            29
        } else {
            28
        }
    } else if t.month == 4 || t.month == 6 || t.month == 9 || t.month == 11 {
        30
    } else {
        31
    };
    if t.day < 1 || t.day > dim {
        return None;
    }
    if t.hour > 23 || t.minute > 59 || t.second > 59 {
        return None;
    }
    if t.year < 1990 || t.year > 2050 {
        return None;
    }
    Some(t)
}

} // verus!
