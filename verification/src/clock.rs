//! Wall-clock time and timestamp text, through `chrono`.

use vstd::prelude::*;

verus! {

/// How a database header writes its creation time.
pub const TIMESTAMP_FORMAT: &'static str = "%Y-%m-%dT%H:%M:%S%z";

/// How a verification report writes its time.
pub const REPORT_TIME_FORMAT: &'static str = "%Y-%m-%dT%H:%M:%S";

/// How default file names write their time.
pub const FILENAME_TIME_FORMAT: &'static str = "%Y%m%d_%H%M%S";

/// The formats this crate hands to `chrono`.
pub open spec fn known_time_format(f: Seq<char>) -> bool {
    f == TIMESTAMP_FORMAT@ || f == REPORT_TIME_FORMAT@ || f == FILENAME_TIME_FORMAT@
}

/// `chrono::DateTime::parse_from_str(text, TIMESTAMP_FORMAT)` succeeds.
pub uninterp spec fn timestamp_parses(text: Seq<char>) -> bool;

/// An ASCII decimal digit.
pub open spec fn is_digit(c: char) -> bool {
    0x30 <= (c as u32) && (c as u32) <= 0x39
}

pub open spec fn all_digits(s: Seq<char>) -> bool {
    forall|i: int| 0 <= i < s.len() ==> is_digit(#[trigger] s[i])
}

/// A year as `%Y` writes it: four digits, or (outside 0 to 9999) a sign
/// and at least four digits.
pub open spec fn year_text(y: Seq<char>) -> bool {
    ||| (y.len() == 4 && all_digits(y))
    ||| (y.len() >= 5 && (y[0] == '+' || y[0] == '-') && all_digits(y.drop_first()))
}

/// Two digits whose value lies between `lo` and `hi`.
pub open spec fn two_digits(s: Seq<char>, lo: int, hi: int) -> bool {
    &&& s.len() == 2
    &&& is_digit(s[0])
    &&& is_digit(s[1])
    &&& lo <= ((s[0] as u32) - 48) * 10 + ((s[1] as u32) - 48) <= hi
}

/// `%Y%m%d_%H%M%S` as chrono writes it: year, month, day, `_`, hour,
/// minute, second (60 for a leap second).
pub open spec fn file_time_text(t: Seq<char>) -> bool {
    let n = t.len() as int;
    &&& n >= 15
    &&& year_text(t.subrange(0, n - 11))
    &&& two_digits(t.subrange(n - 11, n - 9), 1, 12)
    &&& two_digits(t.subrange(n - 9, n - 7), 1, 31)
    &&& t[n - 7] == '_'
    &&& two_digits(t.subrange(n - 6, n - 4), 0, 23)
    &&& two_digits(t.subrange(n - 4, n - 2), 0, 59)
    &&& two_digits(t.subrange(n - 2, n), 0, 60)
}

/// `%Y-%m-%dT%H:%M:%S` as chrono writes it.
pub open spec fn report_time_text(t: Seq<char>) -> bool {
    let n = t.len() as int;
    &&& n >= 19
    &&& year_text(t.subrange(0, n - 15))
    &&& t[n - 15] == '-'
    &&& two_digits(t.subrange(n - 14, n - 12), 1, 12)
    &&& t[n - 12] == '-'
    &&& two_digits(t.subrange(n - 11, n - 9), 1, 31)
    &&& t[n - 9] == 'T'
    &&& two_digits(t.subrange(n - 8, n - 6), 0, 23)
    &&& t[n - 6] == ':'
    &&& two_digits(t.subrange(n - 5, n - 3), 0, 59)
    &&& t[n - 3] == ':'
    &&& two_digits(t.subrange(n - 2, n), 0, 60)
}

/// A UTC offset as `%z` writes it: sign, two digits of hours, two of
/// minutes.
pub open spec fn offset_text(z: Seq<char>) -> bool {
    &&& z.len() == 5
    &&& (z[0] == '+' || z[0] == '-')
    &&& two_digits(z.subrange(1, 3), 0, 24)
    &&& two_digits(z.subrange(3, 5), 0, 59)
}

/// `%Y-%m-%dT%H:%M:%S%z` as chrono writes it.
pub open spec fn timestamp_text(t: Seq<char>) -> bool {
    t.len() >= 5 && report_time_text(t.subrange(0, t.len() - 5)) && offset_text(
        t.subrange(t.len() - 5, t.len() as int),
    )
}

/// `chrono::Local::now()` formatted with `fmt`. Which time it shows depends
/// on the clock and the local time zone; what is stated is the shape that
/// chrono's formatting gives every date and time for these formats.
#[verifier::external_body]
pub fn local_now_text(fmt: &str) -> (t: String)
    requires
        known_time_format(fmt@),
    ensures
        fmt@ == FILENAME_TIME_FORMAT@ ==> file_time_text(t@),
        fmt@ == REPORT_TIME_FORMAT@ ==> report_time_text(t@),
        fmt@ == TIMESTAMP_FORMAT@ ==> timestamp_text(t@),
{
    chrono::Local::now().format(fmt).to_string()
}

/// `chrono::DateTime::parse_from_str(text, TIMESTAMP_FORMAT)`, converted
/// to the local time zone and formatted back. It returns a value exactly
/// when the parse succeeds, and the value has the shape of a timestamp.
/// `with_timezone` keeps the instant and the local fields are written with
/// the exact local offset, but `%z` rounds that offset to whole minutes; so
/// the value denotes the instant of a timestamp-shaped `text` within 30
/// seconds (exactly, where the local offset is whole minutes). Which local
/// time it shows depends on the local time zone and is not stated.
#[verifier::external_body]
pub fn local_timestamp(text: &str) -> (res: Option<String>)
    ensures
        res is Some <==> timestamp_parses(text@),
        res matches Some(t) ==> timestamp_text(t@),
        res matches Some(t) ==> (timestamp_text(text@) ==> instants_close(t@, text@)),
{
    match chrono::DateTime::parse_from_str(text, TIMESTAMP_FORMAT) {
        Ok(dt) => Some(dt.with_timezone(&chrono::Local).format(TIMESTAMP_FORMAT).to_string()),
        Err(_) => None,
    }
}

/// The value of a run of decimal digits.
pub open spec fn digits_value(s: Seq<char>) -> int
    decreases s.len(),
{
    if s.len() == 0 {
        0
    } else {
        digits_value(s.drop_last()) * 10 + ((s.last() as u32) - 48)
    }
}

/// The value of a year as `%Y` writes it.
pub open spec fn year_value(y: Seq<char>) -> int {
    if y.len() > 0 && y[0] == '-' {
        -digits_value(y.drop_first())
    } else if y.len() > 0 && y[0] == '+' {
        digits_value(y.drop_first())
    } else {
        digits_value(y)
    }
}

/// Days from 1970-01-01 to the date `y`-`m`-`d` of the proleptic Gregorian
/// calendar.
pub open spec fn days_from_civil(y: int, m: int, d: int) -> int {
    let y2 = if m <= 2 { y - 1 } else { y };
    let era = y2 / 400;
    let yoe = y2 - era * 400;
    let mp = if m > 2 { m - 3 } else { m + 9 };
    let doy = (153 * mp + 2) / 5 + d - 1;
    let doe = yoe * 365 + yoe / 4 - yoe / 100 + doy;
    era * 146097 + doe - 719468
}

/// The instant a timestamp text denotes, in seconds since
/// 1970-01-01T00:00:00+0000 (a leap second counts as the next second).
pub open spec fn timestamp_seconds(t: Seq<char>) -> int {
    let m = t.len() - 5;
    let days = days_from_civil(
        year_value(t.subrange(0, m - 15)),
        digits_value(t.subrange(m - 14, m - 12)),
        digits_value(t.subrange(m - 11, m - 9)),
    );
    let local = days * 86400 + digits_value(t.subrange(m - 8, m - 6)) * 3600 + digits_value(
        t.subrange(m - 5, m - 3),
    ) * 60 + digits_value(t.subrange(m - 2, m));
    let offset = (digits_value(t.subrange(m + 1, m + 3)) * 60 + digits_value(t.subrange(m + 3, m + 5))) * 60;
    if t[m] == '-' {
        local + offset
    } else {
        local - offset
    }
}

/// Two timestamp texts denote instants at most 30 seconds apart.
pub open spec fn instants_close(a: Seq<char>, b: Seq<char>) -> bool {
    -30 <= timestamp_seconds(a) - timestamp_seconds(b) <= 30
}

} // verus!
