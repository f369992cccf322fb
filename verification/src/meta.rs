//! Reading the camera metadata fields: the capture time, the burst sequence
//! ordinal hidden in the special-shooting-mode field, and the HDR shot
//! ordinal hidden in the drive-mode field.
//!
//! The field values are free-form byte strings; the patterns are scanned at
//! their leftmost occurrence, in the shapes camera firmware writes:
//! `Sequence:` followed by optional whitespace and digits, and `Shot`
//! followed by whitespace and digits under an auto-bracketing drive mode.

use vstd::prelude::*;
use vstd::string::StringSliceAdditionalSpecFns;
use crate::bytes::{digits_value, is_digit, parse_digits_u32};
use crate::time::{datetime_accepted, datetime_of, Timestamp};

verus! {

/// ASCII whitespace, as the sequence patterns allow between the marker and
/// the digits.
pub open spec fn is_ws(b: u8) -> bool {
    b == ' ' as u8 || b == 9 || b == 10 || b == 11 || b == 12 || b == 13
}

/// `tok` occurs in `s` starting at index `i`.
pub open spec fn match_token_at(s: Seq<u8>, tok: Seq<u8>, i: int) -> bool {
    0 <= i && i + tok.len() <= s.len() && s.subrange(i, i + tok.len()) == tok
}

/// `tok` occurs somewhere in `s`.
pub open spec fn contains_token(s: Seq<u8>, tok: Seq<u8>) -> bool {
    exists|i: int| match_token_at(s, tok, i)
}

/// First index at or after `j` that does not hold whitespace (`s.len()` when
/// the rest is all whitespace).
pub open spec fn ws_end(s: Seq<u8>, j: int) -> int
    recommends
        0 <= j <= s.len(),
    decreases s.len() - j
        when 0 <= j <= s.len()
{
    if j >= s.len() {
        j
    } else if is_ws(s[j]) {
        ws_end(s, j + 1)
    } else {
        j
    }
}

/// First index at or after `j` that does not hold a digit.
pub open spec fn digits_end(s: Seq<u8>, j: int) -> int
    recommends
        0 <= j <= s.len(),
    decreases s.len() - j
        when 0 <= j <= s.len()
{
    if j >= s.len() {
        j
    } else if is_digit(s[j]) {
        digits_end(s, j + 1)
    } else {
        j
    }
}

pub proof fn lemma_ws_end_range(s: Seq<u8>, j: int)
    requires
        0 <= j <= s.len(),
    ensures
        j <= ws_end(s, j) <= s.len(),
    decreases s.len() - j,
{
    if j < s.len() && is_ws(s[j]) {
        lemma_ws_end_range(s, j + 1);
    }
}

pub proof fn lemma_digits_end_range(s: Seq<u8>, j: int)
    requires
        0 <= j <= s.len(),
    ensures
        j <= digits_end(s, j) <= s.len(),
        forall|k: int| j <= k < digits_end(s, j) ==> is_digit(#[trigger] s[k]),
    decreases s.len() - j,
{
    if j < s.len() && is_digit(s[j]) {
        lemma_digits_end_range(s, j + 1);
    }
}

/// First non-whitespace index at or after `from`.
fn skip_ws(s: &[u8], from: usize) -> (r: usize)
    requires
        from <= s@.len(),
    ensures
        r == ws_end(s@, from as int),
        from <= r <= s@.len(),
{
    proof {
        lemma_ws_end_range(s@, from as int);
    }
    let mut j: usize = from;
    while j < s.len() && (s[j] == ' ' as u8 || s[j] == 9 || s[j] == 10 || s[j] == 11 || s[j] == 12
        || s[j] == 13)
        invariant
            from <= j <= s@.len(),
            ws_end(s@, from as int) == ws_end(s@, j as int),
        decreases s@.len() - j,
    {
        j = j + 1;
    }
    j
}

/// First non-digit index at or after `from`.
fn skip_digits(s: &[u8], from: usize) -> (r: usize)
    requires
        from <= s@.len(),
    ensures
        r == digits_end(s@, from as int),
        from <= r <= s@.len(),
{
    proof {
        lemma_digits_end_range(s@, from as int);
    }
    let mut j: usize = from;
    while j < s.len() && '0' as u8 <= s[j] && s[j] <= '9' as u8
        invariant
            from <= j <= s@.len(),
            digits_end(s@, from as int) == digits_end(s@, j as int),
        decreases s@.len() - j,
    {
        j = j + 1;
    }
    j
}

/// `tok` occurs in `s` at index `i`.
fn token_at(s: &[u8], tok: &[u8], i: usize) -> (r: bool)
    requires
        i <= s@.len(),
    ensures
        r == match_token_at(s@, tok@, i as int),
{
    let n: usize = s.len();
    let tl: usize = tok.len();
    if tl > n - i {
        return false;
    }
    let mut k: usize = 0;
    while k < tl
        invariant
            n == s@.len(),
            tl == tok@.len(),
            i + tl <= n,
            k <= tl,
            forall|m: int| 0 <= m < k ==> s@[i + m] == tok@[m],
        decreases tl - k,
    {
        if s[i + k] != tok[k] {
            proof {
                assert(s@.subrange(i as int, i + tok@.len())[k as int] == s@[i + k]);
            }
            return false;
        }
        k = k + 1;
    }
    proof {
        assert(s@.subrange(i as int, i + tok@.len()) =~= tok@);
    }
    true
}

/// `tok` occurs somewhere in `s`.
fn contains_tok(s: &[u8], tok: &[u8]) -> (r: bool)
    ensures
        r == contains_token(s@, tok@),
{
    let mut i: usize = 0;
    loop
        invariant
            i <= s@.len(),
            forall|j: int| 0 <= j < i ==> !match_token_at(s@, tok@, j),
        ensures
            forall|j: int| 0 <= j <= s@.len() ==> !match_token_at(s@, tok@, j),
        decreases s@.len() - i,
    {
        if token_at(s, tok, i) {
            return true;
        }
        if i == s.len() {
            break;
        }
        i = i + 1;
    }
    proof {
        assert forall|j: int| !match_token_at(s@, tok@, j) by {
            if 0 <= j <= s@.len() {
                assert(!match_token_at(s@, tok@, j));
            }
        }
    }
    false
}

/// The burst pattern matches at `i`: the marker `Sequence:`, optional
/// whitespace, then at least one digit.
pub open spec fn burst_match_at(s: Seq<u8>, i: int) -> bool {
    let tok = "Sequence:".spec_bytes();
    &&& match_token_at(s, tok, i)
    &&& ws_end(s, i + tok.len()) < s.len()
    &&& is_digit(s[ws_end(s, i + tok.len())])
}

/// The HDR shot pattern matches at `i`: the marker `Shot`, at least one
/// whitespace byte, then at least one digit.
pub open spec fn hdr_match_at(s: Seq<u8>, i: int) -> bool {
    let tok = "Shot".spec_bytes();
    &&& match_token_at(s, tok, i)
    &&& ws_end(s, i + tok.len()) > i + tok.len()
    &&& ws_end(s, i + tok.len()) < s.len()
    &&& is_digit(s[ws_end(s, i + tok.len())])
}

/// Value of the digit run right after the pattern match at `i`, where the
/// pattern's marker has length `tl`.
pub open spec fn run_value_at(s: Seq<u8>, i: int, tl: int) -> nat {
    let d = ws_end(s, i + tl);
    digits_value(s.subrange(d, digits_end(s, d)))
}

/// The burst sequence ordinal written in a special-shooting-mode field:
/// the digits after the leftmost `Sequence:` marker, or `0` when the pattern
/// does not occur or its value does not fit a `u32`.
pub open spec fn burst_ordinal_of(s: Seq<u8>) -> u32 {
    let tok = "Sequence:".spec_bytes();
    if exists|i: int| burst_match_at(s, i) {
        let i = choose|i: int| burst_match_at(s, i) && forall|j: int| 0 <= j < i ==> !burst_match_at(s, j);
        if run_value_at(s, i, tok.len() as int) <= u32::MAX {
            run_value_at(s, i, tok.len() as int) as u32
        } else {
            0
        }
    } else {
        0
    }
}

/// The HDR shot ordinal written in a drive-mode field: present only when the
/// field shows both the auto-bracketing marker and the electronic-shutter
/// marker, and the leftmost `Shot <n>` pattern has a value that fits a `u32`.
pub open spec fn hdr_ordinal_of(s: Seq<u8>) -> Option<u32> {
    let tok = "Shot".spec_bytes();
    if contains_token(s, "AE Auto Bracketing".spec_bytes()) && contains_token(
        s,
        "Electronic shutter".spec_bytes(),
    ) && (exists|i: int| hdr_match_at(s, i)) {
        let i = choose|i: int| hdr_match_at(s, i) && forall|j: int| 0 <= j < i ==> !hdr_match_at(s, j);
        if run_value_at(s, i, tok.len() as int) <= u32::MAX {
            Some(run_value_at(s, i, tok.len() as int) as u32)
        } else {
            None
        }
    } else {
        None
    }
}

/// Leftmost index where the burst pattern matches.
fn find_burst_match(s: &[u8]) -> (r: Option<usize>)
    ensures
        match r {
            Some(i) => burst_match_at(s@, i as int) && (forall|j: int|
                0 <= j < i ==> !burst_match_at(s@, j)),
            None => forall|j: int| !burst_match_at(s@, j),
        },
{
    let tok: &[u8] = "Sequence:".as_bytes();
    let n: usize = s.len();
    let mut i: usize = 0;
    loop
        invariant
            tok@ == "Sequence:".spec_bytes(),
            n == s@.len(),
            i <= s@.len(),
            forall|j: int| 0 <= j < i ==> !burst_match_at(s@, j),
        ensures
            forall|j: int| 0 <= j <= s@.len() ==> !burst_match_at(s@, j),
        decreases s@.len() - i,
    {
        if token_at(s, tok, i) {
            let d = skip_ws(s, i + tok.len());
            if d < s.len() {
                let b = s[d];
                if '0' as u8 <= b && b <= '9' as u8 {
                    return Some(i);
                }
            }
        }
        if i == s.len() {
            break;
        }
        i = i + 1;
    }
    proof {
        assert forall|j: int| !burst_match_at(s@, j) by {
            if 0 <= j <= s@.len() {
                assert(!burst_match_at(s@, j));
            }
        }
    }
    None
}

/// Leftmost index where the HDR shot pattern matches.
fn find_hdr_match(s: &[u8]) -> (r: Option<usize>)
    ensures
        match r {
            Some(i) => hdr_match_at(s@, i as int) && (forall|j: int|
                0 <= j < i ==> !hdr_match_at(s@, j)),
            None => forall|j: int| !hdr_match_at(s@, j),
        },
{
    let tok: &[u8] = "Shot".as_bytes();
    let n: usize = s.len();
    let mut i: usize = 0;
    loop
        invariant
            tok@ == "Shot".spec_bytes(),
            n == s@.len(),
            i <= s@.len(),
            forall|j: int| 0 <= j < i ==> !hdr_match_at(s@, j),
        ensures
            forall|j: int| 0 <= j <= s@.len() ==> !hdr_match_at(s@, j),
        decreases s@.len() - i,
    {
        if token_at(s, tok, i) {
            let e = i + tok.len();
            let d = skip_ws(s, e);
            if d > e && d < s.len() {
                let b = s[d];
                if '0' as u8 <= b && b <= '9' as u8 {
                    return Some(i);
                }
            }
        }
        if i == s.len() {
            break;
        }
        i = i + 1;
    }
    proof {
        assert forall|j: int| !hdr_match_at(s@, j) by {
            if 0 <= j <= s@.len() {
                assert(!hdr_match_at(s@, j));
            }
        }
    }
    None
}

/// Reads the digit run after a pattern match; zero when it does not fit.
fn read_run_value(s: &[u8], i: usize, tl: usize) -> (r: Option<u32>)
    requires
        i + tl <= s@.len(),
    ensures
        match r {
            Some(v) => run_value_at(s@, i as int, tl as int) <= u32::MAX && v == run_value_at(
                s@,
                i as int,
                tl as int,
            ),
            None => run_value_at(s@, i as int, tl as int) > u32::MAX,
        },
{
    let n: usize = s.len();
    proof {
        assert(i + tl <= n);
    }
    let d = skip_ws(s, i + tl);
    let e = skip_digits(s, d);
    proof {
        lemma_digits_end_range(s@, d as int);
    }
    parse_digits_u32(s, d, e)
}

/// The burst sequence ordinal in a special-shooting-mode field: the digits
/// of the leftmost `Sequence: <n>` pattern, `0` when the pattern is absent
/// or its value does not fit.
pub fn burst_ordinal(s: &[u8]) -> (r: u32)
    ensures
        r == burst_ordinal_of(s@),
{
    match find_burst_match(s) {
        Some(i) => {
            proof {
                let w = choose|w: int|
                    burst_match_at(s@, w) && forall|j: int| 0 <= j < w ==> !burst_match_at(s@, j);
                assert(burst_match_at(s@, i as int));
                assert(w == i);
            }
            match read_run_value(s, i, "Sequence:".as_bytes().len()) {
                Some(v) => v,
                None => 0,
            }
        },
        None => 0,
    }
}

/// The HDR shot ordinal in a drive-mode field: present only under an
/// auto-bracketing, electronic-shutter drive mode with a `Shot <n>` pattern
/// whose value fits.
pub fn hdr_ordinal(s: &[u8]) -> (r: Option<u32>)
    ensures
        r == hdr_ordinal_of(s@),
{
    if !contains_tok(s, "AE Auto Bracketing".as_bytes()) {
        return None;
    }
    if !contains_tok(s, "Electronic shutter".as_bytes()) {
        return None;
    }
    match find_hdr_match(s) {
        Some(i) => {
            proof {
                let w = choose|w: int|
                    hdr_match_at(s@, w) && forall|j: int| 0 <= j < w ==> !hdr_match_at(s@, j);
                assert(hdr_match_at(s@, i as int));
                assert(w == i);
            }
            read_run_value(s, i, "Shot".as_bytes().len())
        },
        None => None,
    }
}

/// The three metadata fields the planner reads, as the metadata collaborator
/// returned them; `None` marks a field the collaborator did not report.
pub struct ExifData {
    pub date_time_original: Option<Vec<u8>>,
    pub special_mode: Option<Vec<u8>>,
    pub drive_mode: Option<Vec<u8>>,
}

/// Mathematical image of an [`ExifData`].
pub struct ExifDataV {
    pub date_time_original: Option<Seq<u8>>,
    pub special_mode: Option<Seq<u8>>,
    pub drive_mode: Option<Seq<u8>>,
}

impl View for ExifData {
    type V = ExifDataV;

    open spec fn view(&self) -> ExifDataV {
        ExifDataV {
            date_time_original: match self.date_time_original {
                Some(ref v) => Some(v@),
                None => None,
            },
            special_mode: match self.special_mode {
                Some(ref v) => Some(v@),
                None => None,
            },
            drive_mode: match self.drive_mode {
                Some(ref v) => Some(v@),
                None => None,
            },
        }
    }
}

/// The capture time a metadata record yields: the `DateTimeOriginal` field
/// when it parses and passes the year sanity window.
pub open spec fn exif_date_of(e: ExifDataV) -> Option<Timestamp> {
    match e.date_time_original {
        Some(s) => if datetime_accepted(s) {
            Some(datetime_of(s))
        } else {
            None
        },
        None => None,
    }
}

/// The burst ordinal a metadata record yields; `0` when the field is absent.
pub open spec fn exif_burst_of(e: ExifDataV) -> u32 {
    match e.special_mode {
        Some(s) => burst_ordinal_of(s),
        None => 0,
    }
}

/// The HDR shot ordinal a metadata record yields; absent when the field is.
pub open spec fn exif_hdr_of(e: ExifDataV) -> Option<u32> {
    match e.drive_mode {
        Some(s) => hdr_ordinal_of(s),
        None => None,
    }
}

/// Capture time of a metadata record.
pub fn get_exif_date(e: &ExifData) -> (r: Option<Timestamp>)
    ensures
        r == exif_date_of(e@),
{
    match e.date_time_original {
        Some(ref s) => crate::time::parse_exif_datetime(s.as_slice()),
        None => None,
    }
}

/// Burst sequence ordinal of a metadata record; `0` means "not in a burst".
pub fn get_sequence_info(e: &ExifData) -> (r: u32)
    ensures
        r == exif_burst_of(e@),
{
    match e.special_mode {
        Some(ref s) => burst_ordinal(s.as_slice()),
        None => 0,
    }
}

/// HDR shot ordinal of a metadata record; absent when the unit is not part
/// of a bracket.
pub fn get_hdr_info(e: &ExifData) -> (r: Option<u32>)
    ensures
        r == exif_hdr_of(e@),
{
    match e.drive_mode {
        Some(ref s) => hdr_ordinal(s.as_slice()),
        None => None,
    }
}

} // verus!
