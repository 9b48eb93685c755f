//! Reference timestamps derived from path text and sample time text.
//!
//! A workout's reference timestamp comes from a fixed-width
//! `YYYY-MM-DD-HHMMSS` token embedded in the file path; a record's own
//! timestamp comes from its time text, either ISO-shaped
//! (`YYYY-MM-DDTHH:MM:SS.mmmZ`, milliseconds dropped) or plain
//! (`YYYY-MM-DD HH:MM:SS`). Both are interpreted as naive UTC
//! date-times and converted to epoch seconds. The epoch arithmetic is
//! pinned exactly by [`epoch_of`] (the proleptic Gregorian civil
//! calendar); the conversion itself is carried out by `chrono` behind
//! one trusted wrapper.

use vstd::prelude::*;

use crate::errors::ClassificationError;
use crate::errors::ParseError;

verus! {

use vstd::string::StringSliceAdditionalSpecFns;

/// ASCII decimal digit.
pub open spec fn is_digit(b: u8) -> bool {
    ('0' as u8) <= b <= ('9' as u8)
}

/// Numeric value of an ASCII decimal digit.
pub open spec fn digit_val(b: u8) -> int {
    b - ('0' as u8)
}

/// Value of the two-digit number at offset `i`.
pub open spec fn num2(s: Seq<u8>, i: int) -> int {
    digit_val(s[i]) * 10 + digit_val(s[i + 1])
}

/// Value of the four-digit number at offset `i`.
pub open spec fn num4(s: Seq<u8>, i: int) -> int {
    digit_val(s[i]) * 1000 + digit_val(s[i + 1]) * 100 + digit_val(s[i + 2]) * 10 + digit_val(
        s[i + 3],
    )
}

/// Leap year of the proleptic Gregorian calendar.
pub open spec fn is_leap_year(y: int) -> bool {
    (y % 4 == 0 && y % 100 != 0) || y % 400 == 0
}

/// Number of days of month `m` of year `y`.
pub open spec fn days_in_month(y: int, m: int) -> int {
    if m == 2 {
        if is_leap_year(y) {
            29
        } else {
            28
        }
    } else if m == 4 || m == 6 || m == 9 || m == 11 {
        30
    } else {
        31
    }
}

/// A valid calendar date-time within the four-digit-year range.
/// Second 60 (a leap second) is not a valid calendar second here.
pub open spec fn valid_datetime(y: int, mo: int, d: int, h: int, mi: int, sec: int) -> bool {
    &&& 0 <= y <= 9999
    &&& 1 <= mo <= 12
    &&& 1 <= d <= days_in_month(y, mo)
    &&& 0 <= h <= 23
    &&& 0 <= mi <= 59
    &&& 0 <= sec <= 59
}

/// Days from 1970-01-01 to the civil date `y-m-d` in the proleptic
/// Gregorian calendar (negative for earlier dates).
pub open spec fn days_from_civil(y: int, m: int, d: int) -> int {
    let yy = if m <= 2 {
        y - 1
    } else {
        y
    };
    let era = yy / 400;
    let yoe = yy - era * 400;
    let mp = if m > 2 {
        m - 3
    } else {
        m + 9
    };
    let doy = (153 * mp + 2) / 5 + d - 1;
    let doe = yoe * 365 + yoe / 4 - yoe / 100 + doy;
    era * 146097 + doe - 719468
}

/// Seconds from 1970-01-01T00:00:00 UTC to the civil date-time, with no
/// timezone offset.
pub open spec fn epoch_of(y: int, mo: int, d: int, h: int, mi: int, sec: int) -> int {
    days_from_civil(y, mo, d) * 86400 + h * 3600 + mi * 60 + sec
}

/// Relies on `chrono::NaiveDate::from_ymd_opt`, `NaiveDate::and_hms_opt`
/// and `NaiveDateTime::and_utc().timestamp()`: the first two return
/// `Some` exactly for a valid proleptic-Gregorian date and a valid
/// `h/mi/sec` wall-clock time (no leap second), and `timestamp` counts
/// the non-leap seconds since 1970-01-01T00:00:00 UTC, which
/// [`epoch_of`] states in closed form.
#[verifier::external_body]
fn civil_to_epoch(y: u32, mo: u32, d: u32, h: u32, mi: u32, sec: u32) -> (r: Option<i64>)
    requires
        y <= 9999,
    ensures
        r.is_some() <==> valid_datetime(y as int, mo as int, d as int, h as int, mi as int, sec as int),
        r matches Some(t) ==> t == epoch_of(y as int, mo as int, d as int, h as int, mi as int, sec as int),
{
    let date = chrono::NaiveDate::from_ymd_opt(y as i32, mo, d)?;
    let dt = date.and_hms_opt(h, mi, sec)?;
    Some(dt.and_utc().timestamp())
}

/// A `YYYY-MM-DD-HHMMSS` token occurs in `s` at position `i`.
pub open spec fn token_at(s: Seq<u8>, i: int) -> bool {
    &&& 0 <= i
    &&& i + 17 <= s.len()
    &&& is_digit(s[i])
    &&& is_digit(s[i + 1])
    &&& is_digit(s[i + 2])
    &&& is_digit(s[i + 3])
    &&& s[i + 4] == ('-' as u8)
    &&& is_digit(s[i + 5])
    &&& is_digit(s[i + 6])
    &&& s[i + 7] == ('-' as u8)
    &&& is_digit(s[i + 8])
    &&& is_digit(s[i + 9])
    &&& s[i + 10] == ('-' as u8)
    &&& is_digit(s[i + 11])
    &&& is_digit(s[i + 12])
    &&& is_digit(s[i + 13])
    &&& is_digit(s[i + 14])
    &&& is_digit(s[i + 15])
    &&& is_digit(s[i + 16])
}

/// Position of the earliest `YYYY-MM-DD-HHMMSS` token at or after `i`.
pub open spec fn first_token_from(s: Seq<u8>, i: int) -> Option<int>
    decreases s.len() - i,
{
    if i < 0 || i >= s.len() {
        None
    } else if token_at(s, i) {
        Some(i)
    } else {
        first_token_from(s, i + 1)
    }
}

/// Position of the earliest `YYYY-MM-DD-HHMMSS` token in `s`.
pub open spec fn first_token(s: Seq<u8>) -> Option<int> {
    first_token_from(s, 0)
}

/// The epoch value named by the token at position `i` of `s`, when that
/// token is a valid calendar date-time.
pub open spec fn token_epoch(s: Seq<u8>, i: int) -> int {
    epoch_of(num4(s, i), num2(s, i + 5), num2(s, i + 8), num2(s, i + 11), num2(s, i + 13), num2(s, i + 15))
}

/// The token at position `i` of `s` names a valid calendar date-time.
pub open spec fn token_valid(s: Seq<u8>, i: int) -> bool {
    valid_datetime(num4(s, i), num2(s, i + 5), num2(s, i + 8), num2(s, i + 11), num2(s, i + 13), num2(s, i + 15))
}

/// What `get_workout_timestamp` returns for path bytes `s`.
pub open spec fn spec_workout_timestamp(s: Seq<u8>) -> Result<int, ClassificationError> {
    match first_token(s) {
        None => Err(ClassificationError::NoToken),
        Some(i) => if token_valid(s, i) {
            Ok(token_epoch(s, i))
        } else {
            Err(ClassificationError::InvalidDate)
        },
    }
}

fn digit_check(b: u8) -> (r: bool)
    ensures
        r == is_digit(b),
{
    (('0' as u8) <= b) && (b <= ('9' as u8))
}

/// The bytes of a `YYYY-MM-DD-HHMMSS` token occur at position `i`.
fn token_check(s: &[u8], i: usize) -> (r: bool)
    requires
        i < s@.len(),
    ensures
        r == token_at(s@, i as int),
{
    if s.len() - i < 17 {
        return false;
    }
    digit_check(s[i]) && digit_check(s[i + 1]) && digit_check(s[i + 2]) && digit_check(s[i + 3])
        && s[i + 4] == ('-' as u8) && digit_check(s[i + 5]) && digit_check(s[i + 6]) && s[i + 7] == ('-' as u8)
        && digit_check(s[i + 8]) && digit_check(s[i + 9]) && s[i + 10] == ('-' as u8) && digit_check(
        s[i + 11],
    ) && digit_check(s[i + 12]) && digit_check(s[i + 13]) && digit_check(s[i + 14]) && digit_check(
        s[i + 15],
    ) && digit_check(s[i + 16])
}

/// Value of the two-digit number at offset `i`.
fn num2_exec(s: &[u8], i: usize) -> (v: u32)
    requires
        i + 2 <= s@.len(),
        is_digit(s@[i as int]),
        is_digit(s@[i as int + 1]),
    ensures
        v == num2(s@, i as int),
        v <= 99,
{
    (s[i] - ('0' as u8)) as u32 * 10 + (s[i + 1] - ('0' as u8)) as u32
}

/// Value of the four-digit number at offset `i`.
fn num4_exec(s: &[u8], i: usize) -> (v: u32)
    requires
        i + 4 <= s@.len(),
        is_digit(s@[i as int]),
        is_digit(s@[i as int + 1]),
        is_digit(s@[i as int + 2]),
        is_digit(s@[i as int + 3]),
    ensures
        v == num4(s@, i as int),
        v <= 9999,
{
    (s[i] - ('0' as u8)) as u32 * 1000 + (s[i + 1] - ('0' as u8)) as u32 * 100 + (s[i + 2] - ('0' as u8)) as u32 * 10 + (
    s[i + 3] - ('0' as u8)) as u32
}

/// Derive a workout's reference timestamp from its file path: the
/// earliest `YYYY-MM-DD-HHMMSS` token, read as a naive UTC date-time
/// and converted to epoch seconds. A path without such a token, or
/// whose token is not a valid calendar date-time, is rejected.
pub fn get_workout_timestamp(path: &str) -> (r: Result<i64, ClassificationError>)
    ensures
        ({
            let s = path.spec_bytes();
            match spec_workout_timestamp(s) {
                Ok(t) => r matches Ok(v) && v == t,
                Err(e) => r == Err::<i64, ClassificationError>(e),
            }
        }),
{
    let s: &[u8] = path.as_bytes();
    let n: usize = s.len();
    let mut i: usize = 0;
    while i < n
        invariant
            s@ == path.spec_bytes(),
            n == s@.len(),
            i <= n,
            first_token_from(s@, 0) == first_token_from(s@, i as int),
        decreases n - i,
    {
        if token_check(s, i) {
            let y = num4_exec(s, i);
            let mo = num2_exec(s, i + 5);
            let d = num2_exec(s, i + 8);
            let h = num2_exec(s, i + 11);
            let mi = num2_exec(s, i + 13);
            let sec = num2_exec(s, i + 15);
            return match civil_to_epoch(y, mo, d, h, mi, sec) {
                Some(t) => Ok(t),
                None => Err(ClassificationError::InvalidDate),
            };
        }
        i = i + 1;
    }
    Err(ClassificationError::NoToken)
}

/// The whole of `s` is an ISO-shaped time text
/// `YYYY-MM-DDTHH:MM:SS.mmmZ`.
pub open spec fn iso_time_token(s: Seq<u8>) -> bool {
    &&& s.len() == 24
    &&& plain_head(s)
    &&& s[10] == ('T' as u8)
    &&& s[19] == ('.' as u8)
    &&& is_digit(s[20])
    &&& is_digit(s[21])
    &&& is_digit(s[22])
    &&& s[23] == ('Z' as u8)
}

/// The whole of `s` is a plain time text `YYYY-MM-DD HH:MM:SS`.
pub open spec fn plain_time_token(s: Seq<u8>) -> bool {
    &&& s.len() == 19
    &&& plain_head(s)
    &&& s[10] == (' ' as u8)
}

/// The date and wall-clock fields shared by both time-text shapes.
pub open spec fn plain_head(s: Seq<u8>) -> bool {
    &&& s.len() >= 19
    &&& is_digit(s[0])
    &&& is_digit(s[1])
    &&& is_digit(s[2])
    &&& is_digit(s[3])
    &&& s[4] == ('-' as u8)
    &&& is_digit(s[5])
    &&& is_digit(s[6])
    &&& s[7] == ('-' as u8)
    &&& is_digit(s[8])
    &&& is_digit(s[9])
    &&& is_digit(s[11])
    &&& is_digit(s[12])
    &&& s[13] == (':' as u8)
    &&& is_digit(s[14])
    &&& is_digit(s[15])
    &&& s[16] == (':' as u8)
    &&& is_digit(s[17])
    &&& is_digit(s[18])
}

/// The time text names a valid calendar date-time.
pub open spec fn time_text_valid(s: Seq<u8>) -> bool {
    valid_datetime(num4(s, 0), num2(s, 5), num2(s, 8), num2(s, 11), num2(s, 14), num2(s, 17))
}

/// The epoch value named by a time text.
pub open spec fn time_text_epoch(s: Seq<u8>) -> int {
    epoch_of(num4(s, 0), num2(s, 5), num2(s, 8), num2(s, 11), num2(s, 14), num2(s, 17))
}

/// What `get_record_timestamp` returns for time-text bytes `s`.
pub open spec fn spec_record_timestamp(s: Seq<u8>) -> Result<int, ParseError> {
    if iso_time_token(s) || plain_time_token(s) {
        if time_text_valid(s) {
            Ok(time_text_epoch(s))
        } else {
            Err(ParseError::BadTimestamp)
        }
    } else {
        Err(ParseError::BadTimestamp)
    }
}

fn head_check(s: &[u8]) -> (r: bool)
    requires
        s@.len() >= 19,
    ensures
        r == plain_head(s@),
{
    digit_check(s[0]) && digit_check(s[1]) && digit_check(s[2]) && digit_check(s[3]) && s[4] == ('-' as u8)
        && digit_check(s[5]) && digit_check(s[6]) && s[7] == ('-' as u8) && digit_check(s[8])
        && digit_check(s[9]) && digit_check(s[11]) && digit_check(s[12]) && s[13] == (':' as u8)
        && digit_check(s[14]) && digit_check(s[15]) && s[16] == (':' as u8) && digit_check(s[17])
        && digit_check(s[18])
}

/// Parse a record's own time text into epoch seconds. Both the
/// ISO-shaped form (with a `T` separator, milliseconds and a trailing
/// `Z`, the milliseconds dropped) and the plain space-separated form
/// are accepted; any other text is a `BadTimestamp` parse error.
pub fn get_record_timestamp(time: &str) -> (r: Result<i64, ParseError>)
    ensures
        ({
            let s = time.spec_bytes();
            match spec_record_timestamp(s) {
                Ok(t) => r matches Ok(v) && v == t,
                Err(e) => r == Err::<i64, ParseError>(e),
            }
        }),
{
    record_timestamp_bytes(time.as_bytes())
}

/// Parse a record's time text, given as bytes, into epoch seconds.
pub fn record_timestamp_bytes(s: &[u8]) -> (r: Result<i64, ParseError>)
    ensures
        match spec_record_timestamp(s@) {
            Ok(t) => r matches Ok(v) && v == t,
            Err(e) => r == Err::<i64, ParseError>(e),
        },
{
    let n: usize = s.len();
    let shape_ok: bool = if n == 24 {
        head_check(s) && s[10] == ('T' as u8) && s[19] == ('.' as u8) && digit_check(s[20]) && digit_check(s[21])
            && digit_check(s[22]) && s[23] == ('Z' as u8)
    } else if n == 19 {
        head_check(s) && s[10] == (' ' as u8)
    } else {
        false
    };
    if !shape_ok {
        return Err(ParseError::BadTimestamp);
    }
    let y = num4_exec(s, 0);
    let mo = num2_exec(s, 5);
    let d = num2_exec(s, 8);
    let h = num2_exec(s, 11);
    let mi = num2_exec(s, 14);
    let sec = num2_exec(s, 17);
    match civil_to_epoch(y, mo, d, h, mi, sec) {
        Some(t) => Ok(t),
        None => Err(ParseError::BadTimestamp),
    }
}

} // verus!
