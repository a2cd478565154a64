//! Deletion timestamps.
//!
//! A metadata record carries a local wall-clock time.  The library holds
//! it as a plain calendar value, serialises it in the fixed
//! `YYYY-MM-DDTHH:MM:SS` form, and parses that form itself.  Because
//! trash directories written by other tools carry several other
//! timestamp encodings, parsing falls back, in a fixed order, to a list
//! of tolerant parsers supplied by the `chrono` crate.

use chrono::{Datelike, Timelike};
use vstd::prelude::*;

verus! {

/// A local calendar timestamp with second precision.
///
/// `wf` bounds every field and requires the day to exist in its month,
/// so a well-formed value always serialises to exactly nineteen
/// characters.
#[derive(Clone, Copy, Debug, PartialEq, Eq, Structural)]
pub struct Timestamp {
    pub year: u16,
    pub month: u8,
    pub day: u8,
    pub hour: u8,
    pub minute: u8,
    pub second: u8,
}

/// A calendar timestamp exactly as an outside parser reported it, before
/// any range check.
#[derive(Clone, Copy, Debug, PartialEq, Eq, Structural)]
pub struct RawTimestamp {
    pub year: i32,
    pub month: u32,
    pub day: u32,
    pub hour: u32,
    pub minute: u32,
    pub second: u32,
}

/// Gregorian leap year rule.
pub open spec fn is_leap_year_spec(y: int) -> bool {
    (y % 4 == 0 && y % 100 != 0) || y % 400 == 0
}

/// Number of days in the given month of the given year.
pub open spec fn days_in_month_spec(y: int, m: int) -> int {
    if m == 2 {
        if is_leap_year_spec(y) {
            29
        } else {
            28
        }
    } else if m == 4 || m == 6 || m == 9 || m == 11 {
        30
    } else {
        31
    }
}

/// Computes the length of a month as `days_in_month_spec` states it.
pub fn days_in_month(y: u16, m: u8) -> (r: u8)
    ensures
        r as int == days_in_month_spec(y as int, m as int),
{
    if m == 2 {
        if (y % 4 == 0 && y % 100 != 0) || y % 400 == 0 {
            29
        } else {
            28
        }
    } else if m == 4 || m == 6 || m == 9 || m == 11 {
        30
    } else {
        31
    }
}

impl Timestamp {
    /// Field bounds: a real calendar date and a time of day.
    pub open spec fn wf(self) -> bool {
        &&& self.year <= 9999
        &&& 1 <= self.month <= 12
        &&& 1 <= self.day
        &&& self.day as int <= days_in_month_spec(self.year as int, self.month as int)
        &&& self.hour <= 23
        &&& self.minute <= 59
        &&& self.second <= 59
    }

    /// Strict chronological order on the six fields, most significant
    /// first.  For well-formed values this is the order of the instants.
    pub open spec fn lt_spec(self, other: Timestamp) -> bool {
        if self.year != other.year {
            self.year < other.year
        } else if self.month != other.month {
            self.month < other.month
        } else if self.day != other.day {
            self.day < other.day
        } else if self.hour != other.hour {
            self.hour < other.hour
        } else if self.minute != other.minute {
            self.minute < other.minute
        } else {
            self.second < other.second
        }
    }

    /// Compares two timestamps as `lt_spec` states it.
    pub fn lt(&self, other: &Timestamp) -> (r: bool)
        ensures
            r == self.lt_spec(*other),
    {
        if self.year != other.year {
            self.year < other.year
        } else if self.month != other.month {
            self.month < other.month
        } else if self.day != other.day {
            self.day < other.day
        } else if self.hour != other.hour {
            self.hour < other.hour
        } else if self.minute != other.minute {
            self.minute < other.minute
        } else {
            self.second < other.second
        }
    }

    /// What `from_raw` accepts: every field within the range this
    /// library can represent and serialise.
    pub open spec fn raw_in_range(r: RawTimestamp) -> bool {
        &&& 0 <= r.year <= 9999
        &&& 1 <= r.month <= 12
        &&& 1 <= r.day
        &&& r.day as int <= days_in_month_spec(r.year as int, r.month as int)
        &&& r.hour <= 23
        &&& r.minute <= 59
        &&& r.second <= 59
    }

    /// The narrowing of a raw parser result, when it is in range.
    pub open spec fn from_raw_spec(r: RawTimestamp) -> Option<Timestamp> {
        if Self::raw_in_range(r) {
            Some(
                Timestamp {
                    year: r.year as u16,
                    month: r.month as u8,
                    day: r.day as u8,
                    hour: r.hour as u8,
                    minute: r.minute as u8,
                    second: r.second as u8,
                },
            )
        } else {
            None
        }
    }

    /// Narrows a raw parser result as `from_raw_spec` states it; the
    /// result, when there is one, is well formed.
    pub fn from_raw(r: RawTimestamp) -> (t: Option<Timestamp>)
        ensures
            t == Self::from_raw_spec(r),
            t is Some ==> t.unwrap().wf(),
    {
        if 0 <= r.year && r.year <= 9999 && 1 <= r.month && r.month <= 12 && r.hour <= 23
            && r.minute <= 59 && r.second <= 59 {
            let dim = days_in_month(r.year as u16, r.month as u8);
            if 1 <= r.day && r.day <= dim as u32 {
                Some(
                    Timestamp {
                        year: r.year as u16,
                        month: r.month as u8,
                        day: r.day as u8,
                        hour: r.hour as u8,
                        minute: r.minute as u8,
                        second: r.second as u8,
                    },
                )
            } else {
                None
            }
        } else {
            None
        }
    }
}

/// The decimal digit characters `0` through `9`.
pub open spec fn digit_char(d: int) -> char {
    if d == 0 {
        '0'
    } else if d == 1 {
        '1'
    } else if d == 2 {
        '2'
    } else if d == 3 {
        '3'
    } else if d == 4 {
        '4'
    } else if d == 5 {
        '5'
    } else if d == 6 {
        '6'
    } else if d == 7 {
        '7'
    } else if d == 8 {
        '8'
    } else {
        '9'
    }
}

/// Whether `c` is a decimal digit.
pub open spec fn is_digit_char(c: char) -> bool {
    '0' <= c && c <= '9'
}

/// The numeric value of a digit character.
pub open spec fn digit_val(c: char) -> int {
    c as int - 48
}

/// A single decimal digit as a string slice.
pub fn digit_to_str(d: u8) -> (r: &'static str)
    requires
        d <= 9,
    ensures
        r@ =~= seq![digit_char(d as int)],
        r@.len() == 1,
{
    proof {
        reveal_strlit("0");
        reveal_strlit("1");
        reveal_strlit("2");
        reveal_strlit("3");
        reveal_strlit("4");
        reveal_strlit("5");
        reveal_strlit("6");
        reveal_strlit("7");
        reveal_strlit("8");
        reveal_strlit("9");
    }
    match d {
        0 => "0",
        1 => "1",
        2 => "2",
        3 => "3",
        4 => "4",
        5 => "5",
        6 => "6",
        7 => "7",
        8 => "8",
        _ => "9",
    }
}

/// The four decimal digits of `n`, most significant first.
pub open spec fn four_digits(n: int) -> Seq<char> {
    seq![
        digit_char(n / 1000 % 10),
        digit_char(n / 100 % 10),
        digit_char(n / 10 % 10),
        digit_char(n % 10),
    ]
}

/// The two decimal digits of `n`, most significant first.
pub open spec fn two_digits(n: int) -> Seq<char> {
    seq![digit_char(n / 10 % 10), digit_char(n % 10)]
}

/// The fixed nineteen-character serialisation `YYYY-MM-DDTHH:MM:SS`.
pub open spec fn format_ts_spec(t: Timestamp) -> Seq<char> {
    four_digits(t.year as int) + seq!['-'] + two_digits(t.month as int) + seq!['-'] + two_digits(
        t.day as int,
    ) + seq!['T'] + two_digits(t.hour as int) + seq![':'] + two_digits(t.minute as int) + seq![':']
        + two_digits(t.second as int)
}

/// Serialises a timestamp as `format_ts_spec` states it.
#[verifier::rlimit(50)]
pub fn format_timestamp(t: &Timestamp) -> (r: String)
    ensures
        r@ == format_ts_spec(*t),
{
    proof {
        reveal_strlit("-");
        reveal_strlit("T");
        reveal_strlit(":");
    }
    let mut s = String::new();
    s.append(digit_to_str((t.year / 1000 % 10) as u8));
    s.append(digit_to_str((t.year / 100 % 10) as u8));
    s.append(digit_to_str((t.year / 10 % 10) as u8));
    s.append(digit_to_str((t.year % 10) as u8));
    s.append("-");
    s.append(digit_to_str(t.month / 10 % 10));
    s.append(digit_to_str(t.month % 10));
    s.append("-");
    s.append(digit_to_str(t.day / 10 % 10));
    s.append(digit_to_str(t.day % 10));
    s.append("T");
    s.append(digit_to_str(t.hour / 10 % 10));
    s.append(digit_to_str(t.hour % 10));
    s.append(":");
    s.append(digit_to_str(t.minute / 10 % 10));
    s.append(digit_to_str(t.minute % 10));
    s.append(":");
    s.append(digit_to_str(t.second / 10 % 10));
    s.append(digit_to_str(t.second % 10));
    proof {
        assert(s@ =~= format_ts_spec(*t));
    }
    s
}

/// A digit character is a digit and carries its value back.
proof fn lemma_digit_char_val(d: int)
    requires
        0 <= d <= 9,
    ensures
        is_digit_char(digit_char(d)),
        digit_val(digit_char(d)) == d,
{
}

/// The serialised timestamp written out element by element.
pub proof fn lemma_format_ts_elements(t: Timestamp)
    ensures
        format_ts_spec(t) =~= seq![
            digit_char(t.year as int / 1000 % 10),
            digit_char(t.year as int / 100 % 10),
            digit_char(t.year as int / 10 % 10),
            digit_char(t.year as int % 10),
            '-',
            digit_char(t.month as int / 10 % 10),
            digit_char(t.month as int % 10),
            '-',
            digit_char(t.day as int / 10 % 10),
            digit_char(t.day as int % 10),
            'T',
            digit_char(t.hour as int / 10 % 10),
            digit_char(t.hour as int % 10),
            ':',
            digit_char(t.minute as int / 10 % 10),
            digit_char(t.minute as int % 10),
            ':',
            digit_char(t.second as int / 10 % 10),
            digit_char(t.second as int % 10),
        ],
{
}

/// A digit character is never a newline, carriage return, or `=`.
proof fn lemma_digit_char_not_meta(d: int)
    ensures
        digit_char(d) != '\n' && digit_char(d) != '\r' && digit_char(d) != '=',
{
}

/// The serialised timestamp holds no newline, carriage return, or `=`:
/// it stays inside its own key/value line.
pub proof fn lemma_format_ts_no_meta(t: Timestamp)
    ensures
        forall|i: int|
            0 <= i < format_ts_spec(t).len() ==> #[trigger] format_ts_spec(t)[i] != '\n'
                && format_ts_spec(t)[i] != '\r' && format_ts_spec(t)[i] != '=',
{
    lemma_format_ts_elements(t);
    assert forall|i: int|
        0 <= i < format_ts_spec(t).len() implies #[trigger] format_ts_spec(t)[i] != '\n'
        && format_ts_spec(t)[i] != '\r' && format_ts_spec(t)[i] != '=' by {
        lemma_digit_char_not_meta(t.year as int / 1000 % 10);
        lemma_digit_char_not_meta(t.year as int / 100 % 10);
        lemma_digit_char_not_meta(t.year as int / 10 % 10);
        lemma_digit_char_not_meta(t.year as int % 10);
        lemma_digit_char_not_meta(t.month as int / 10 % 10);
        lemma_digit_char_not_meta(t.month as int % 10);
        lemma_digit_char_not_meta(t.day as int / 10 % 10);
        lemma_digit_char_not_meta(t.day as int % 10);
        lemma_digit_char_not_meta(t.hour as int / 10 % 10);
        lemma_digit_char_not_meta(t.hour as int % 10);
        lemma_digit_char_not_meta(t.minute as int / 10 % 10);
        lemma_digit_char_not_meta(t.minute as int % 10);
        lemma_digit_char_not_meta(t.second as int / 10 % 10);
        lemma_digit_char_not_meta(t.second as int % 10);
    }
}

/// Serialising a well-formed timestamp and parsing the result with the
/// strict canonical parser gives the timestamp back.
pub proof fn lemma_format_parse_roundtrip(t: Timestamp)
    requires
        t.wf(),
    ensures
        parse_canonical_spec(format_ts_spec(t)) == Some(t),
{
    let s = format_ts_spec(t);
    let y = t.year as int;
    let mo = t.month as int;
    let d = t.day as int;
    let h = t.hour as int;
    let mi = t.minute as int;
    let sec = t.second as int;
    assert(s =~= seq![
        digit_char(y / 1000 % 10),
        digit_char(y / 100 % 10),
        digit_char(y / 10 % 10),
        digit_char(y % 10),
        '-',
        digit_char(mo / 10 % 10),
        digit_char(mo % 10),
        '-',
        digit_char(d / 10 % 10),
        digit_char(d % 10),
        'T',
        digit_char(h / 10 % 10),
        digit_char(h % 10),
        ':',
        digit_char(mi / 10 % 10),
        digit_char(mi % 10),
        ':',
        digit_char(sec / 10 % 10),
        digit_char(sec % 10),
    ]);
    lemma_digit_char_val(y / 1000 % 10);
    lemma_digit_char_val(y / 100 % 10);
    lemma_digit_char_val(y / 10 % 10);
    lemma_digit_char_val(y % 10);
    lemma_digit_char_val(mo / 10 % 10);
    lemma_digit_char_val(mo % 10);
    lemma_digit_char_val(d / 10 % 10);
    lemma_digit_char_val(d % 10);
    lemma_digit_char_val(h / 10 % 10);
    lemma_digit_char_val(h % 10);
    lemma_digit_char_val(mi / 10 % 10);
    lemma_digit_char_val(mi % 10);
    lemma_digit_char_val(sec / 10 % 10);
    lemma_digit_char_val(sec % 10);
    assert(canonical_shape(s));
    assert(y / 1000 % 10 * 1000 + y / 100 % 10 * 100 + y / 10 % 10 * 10 + y % 10 == y) by {
        lemma_recompose_four(y);
    }
    assert(mo / 10 % 10 * 10 + mo % 10 == mo) by {
        lemma_recompose_two(mo);
    }
    assert(d / 10 % 10 * 10 + d % 10 == d) by {
        lemma_recompose_two(d);
    }
    assert(h / 10 % 10 * 10 + h % 10 == h) by {
        lemma_recompose_two(h);
    }
    assert(mi / 10 % 10 * 10 + mi % 10 == mi) by {
        lemma_recompose_two(mi);
    }
    assert(sec / 10 % 10 * 10 + sec % 10 == sec) by {
        lemma_recompose_two(sec);
    }
    assert(canonical_fields(s) == t);
}

/// A number below ten thousand is the weighted sum of its four digits.
proof fn lemma_recompose_four(y: int)
    requires
        0 <= y <= 9999,
    ensures
        y / 1000 % 10 * 1000 + y / 100 % 10 * 100 + y / 10 % 10 * 10 + y % 10 == y,
{
    assert(y / 1000 % 10 * 1000 + y / 100 % 10 * 100 + y / 10 % 10 * 10 + y % 10 == y)
        by (nonlinear_arith)
        requires
            0 <= y <= 9999,
    ;
}

/// A number below one hundred is the weighted sum of its two digits.
proof fn lemma_recompose_two(n: int)
    requires
        0 <= n <= 99,
    ensures
        n / 10 % 10 * 10 + n % 10 == n,
{
    assert(n / 10 % 10 * 10 + n % 10 == n) by (nonlinear_arith)
        requires
            0 <= n <= 99,
    ;
}

/// Whether `c` is a decimal digit, as `is_digit_char` states it.
pub fn is_digit(c: char) -> (r: bool)
    ensures
        r == is_digit_char(c),
{
    let u = c as u32;
    48 <= u && u <= 57
}

/// The numeric value of a digit character.
pub fn digit_value(c: char) -> (r: u8)
    requires
        is_digit_char(c),
    ensures
        r as int == digit_val(c),
        r <= 9,
{
    (c as u32 - 48) as u8
}

/// The exact `YYYY-MM-DDTHH:MM:SS` shape: nineteen characters with
/// digits and punctuation in fixed positions.
pub open spec fn canonical_shape(s: Seq<char>) -> bool {
    &&& s.len() == 19
    &&& is_digit_char(s[0]) && is_digit_char(s[1]) && is_digit_char(s[2]) && is_digit_char(s[3])
    &&& s[4] == '-'
    &&& is_digit_char(s[5]) && is_digit_char(s[6])
    &&& s[7] == '-'
    &&& is_digit_char(s[8]) && is_digit_char(s[9])
    &&& s[10] == 'T'
    &&& is_digit_char(s[11]) && is_digit_char(s[12])
    &&& s[13] == ':'
    &&& is_digit_char(s[14]) && is_digit_char(s[15])
    &&& s[16] == ':'
    &&& is_digit_char(s[17]) && is_digit_char(s[18])
}

/// The six fields read out of a string of canonical shape.
pub open spec fn canonical_fields(s: Seq<char>) -> Timestamp {
    Timestamp {
        year: (digit_val(s[0]) * 1000 + digit_val(s[1]) * 100 + digit_val(s[2]) * 10 + digit_val(
            s[3],
        )) as u16,
        month: (digit_val(s[5]) * 10 + digit_val(s[6])) as u8,
        day: (digit_val(s[8]) * 10 + digit_val(s[9])) as u8,
        hour: (digit_val(s[11]) * 10 + digit_val(s[12])) as u8,
        minute: (digit_val(s[14]) * 10 + digit_val(s[15])) as u8,
        second: (digit_val(s[17]) * 10 + digit_val(s[18])) as u8,
    }
}

/// The strict parse of the canonical form: defined exactly when the
/// shape matches and the fields name a real date and time of day.
pub open spec fn parse_canonical_spec(s: Seq<char>) -> Option<Timestamp> {
    if canonical_shape(s) && canonical_fields(s).wf() {
        Some(canonical_fields(s))
    } else {
        None
    }
}

/// Parses the canonical form as `parse_canonical_spec` states it.
#[verifier::rlimit(50)]
pub fn parse_canonical(s: &str) -> (r: Option<Timestamp>)
    ensures
        r == parse_canonical_spec(s@),
        r is Some ==> r.unwrap().wf(),
{
    if s.unicode_len() != 19 {
        return None;
    }
    if !(s.get_char(4) == '-' && s.get_char(7) == '-' && s.get_char(10) == 'T' && s.get_char(13)
        == ':' && s.get_char(16) == ':') {
        return None;
    }
    if !(is_digit(s.get_char(0)) && is_digit(s.get_char(1)) && is_digit(s.get_char(2)) && is_digit(
        s.get_char(3),
    ) && is_digit(s.get_char(5)) && is_digit(s.get_char(6)) && is_digit(s.get_char(8)) && is_digit(
        s.get_char(9),
    ) && is_digit(s.get_char(11)) && is_digit(s.get_char(12)) && is_digit(s.get_char(14))
        && is_digit(s.get_char(15)) && is_digit(s.get_char(17)) && is_digit(s.get_char(18))) {
        return None;
    }
    let year: u16 = digit_value(s.get_char(0)) as u16 * 1000 + digit_value(s.get_char(1)) as u16
        * 100 + digit_value(s.get_char(2)) as u16 * 10 + digit_value(s.get_char(3)) as u16;
    let month: u8 = digit_value(s.get_char(5)) * 10 + digit_value(s.get_char(6));
    let day: u8 = digit_value(s.get_char(8)) * 10 + digit_value(s.get_char(9));
    let hour: u8 = digit_value(s.get_char(11)) * 10 + digit_value(s.get_char(12));
    let minute: u8 = digit_value(s.get_char(14)) * 10 + digit_value(s.get_char(15));
    let second: u8 = digit_value(s.get_char(17)) * 10 + digit_value(s.get_char(18));
    let t = Timestamp { year, month, day, hour, minute, second };
    proof {
        assert(t == canonical_fields(s@));
    }
    if 1 <= month && month <= 12 && 1 <= day && day <= days_in_month(year, month) && hour <= 23
        && minute <= 59 && second <= 59 {
        Some(t)
    } else {
        None
    }
}

/// What `chrono::NaiveDateTime`'s `FromStr` parser returns for a string;
/// the result depends on the characters alone.
pub uninterp spec fn chrono_iso_parse(s: Seq<char>) -> Option<RawTimestamp>;

/// What `chrono::DateTime::parse_from_rfc3339`, taken at its local
/// clock reading, returns for a string.
pub uninterp spec fn chrono_rfc3339_parse(s: Seq<char>) -> Option<RawTimestamp>;

/// What `chrono::NaiveDateTime::parse_from_str` under the compact
/// `%Y%m%dT%H:%M:%S` pattern returns for a string.
pub uninterp spec fn chrono_compact_parse(s: Seq<char>) -> Option<RawTimestamp>;

/// What `chrono::DateTime::parse_from_rfc2822`, taken at its local
/// clock reading, returns for a string.
pub uninterp spec fn chrono_rfc2822_parse(s: Seq<char>) -> Option<RawTimestamp>;

/// Relies on `chrono::NaiveDateTime`'s `FromStr` implementation, the
/// parser that covers most real-world metadata files.
#[verifier::external_body]
fn parse_iso_datetime(s: &str) -> (r: Option<RawTimestamp>)
    ensures
        r == chrono_iso_parse(s@),
{
    match <chrono::NaiveDateTime as core::str::FromStr>::from_str(s) {
        Ok(d) => Some(RawTimestamp {
            year: d.year(),
            month: d.month(),
            day: d.day(),
            hour: d.hour(),
            minute: d.minute(),
            second: d.second(),
        }),
        Err(_) => None,
    }
}

/// Relies on `chrono::DateTime::parse_from_rfc3339`, the encoding the
/// trash specification document names.
#[verifier::external_body]
fn parse_rfc3339_datetime(s: &str) -> (r: Option<RawTimestamp>)
    ensures
        r == chrono_rfc3339_parse(s@),
{
    match chrono::DateTime::parse_from_rfc3339(s) {
        Ok(d) => {
            let d = d.naive_local();
            Some(RawTimestamp {
                year: d.year(),
                month: d.month(),
                day: d.day(),
                hour: d.hour(),
                minute: d.minute(),
                second: d.second(),
            })
        },
        Err(_) => None,
    }
}

/// Relies on `chrono::NaiveDateTime::parse_from_str` with the compact
/// `%Y%m%dT%H:%M:%S` pattern, which accepts the trash specification's
/// own sample timestamp.
#[verifier::external_body]
fn parse_compact_datetime(s: &str) -> (r: Option<RawTimestamp>)
    ensures
        r == chrono_compact_parse(s@),
{
    match chrono::NaiveDateTime::parse_from_str(s, "%Y%m%dT%H:%M:%S") {
        Ok(d) => Some(RawTimestamp {
            year: d.year(),
            month: d.month(),
            day: d.day(),
            hour: d.hour(),
            minute: d.minute(),
            second: d.second(),
        }),
        Err(_) => None,
    }
}

/// Relies on `chrono::DateTime::parse_from_rfc2822`, taken at its local
/// clock reading.
#[verifier::external_body]
fn parse_rfc2822_datetime(s: &str) -> (r: Option<RawTimestamp>)
    ensures
        r == chrono_rfc2822_parse(s@),
{
    match chrono::DateTime::parse_from_rfc2822(s) {
        Ok(d) => {
            let d = d.naive_local();
            Some(RawTimestamp {
                year: d.year(),
                month: d.month(),
                day: d.day(),
                hour: d.hour(),
                minute: d.minute(),
                second: d.second(),
            })
        },
        Err(_) => None,
    }
}

/// Relies on `chrono::Local::now` for the wall-clock time; nothing is
/// assumed of the value, which `Timestamp::from_raw` checks afterwards.
#[verifier::external_body]
fn now_local_raw() -> (r: RawTimestamp) {
    let d = chrono::Local::now().naive_local();
    RawTimestamp {
        year: d.year(),
        month: d.month(),
        day: d.day(),
        hour: d.hour(),
        minute: d.minute(),
        second: d.second(),
    }
}

/// The current local wall-clock time, when it lies inside this
/// library's calendar range.
pub fn now_timestamp() -> (r: Option<Timestamp>)
    ensures
        r is Some ==> r.unwrap().wf(),
{
    Timestamp::from_raw(now_local_raw())
}

/// The first success among the tolerant fallback parsers, tried in the
/// fixed order: plain naive datetime, RFC 3339, the specification's
/// compact sample pattern, RFC 2822.
pub open spec fn raw_fallback_spec(s: Seq<char>) -> Option<RawTimestamp> {
    if chrono_iso_parse(s) is Some {
        chrono_iso_parse(s)
    } else if chrono_rfc3339_parse(s) is Some {
        chrono_rfc3339_parse(s)
    } else if chrono_compact_parse(s) is Some {
        chrono_compact_parse(s)
    } else {
        chrono_rfc2822_parse(s)
    }
}

/// The full timestamp parse: the canonical form first, then the
/// tolerant fallbacks, their result narrowed to this library's range.
pub open spec fn parse_timestamp_spec(s: Seq<char>) -> Option<Timestamp> {
    if parse_canonical_spec(s) is Some {
        parse_canonical_spec(s)
    } else {
        match raw_fallback_spec(s) {
            Some(r) => Timestamp::from_raw_spec(r),
            None => None,
        }
    }
}

/// Parses a deletion timestamp as `parse_timestamp_spec` states it.
/// Every parser in the fallback list is consulted before the attempt is
/// given up.
pub fn parse_timestamp(s: &str) -> (r: Option<Timestamp>)
    ensures
        r == parse_timestamp_spec(s@),
        r is Some ==> r.unwrap().wf(),
{
    if let Some(t) = parse_canonical(s) {
        return Some(t);
    }
    let raw = if let Some(x) = parse_iso_datetime(s) {
        Some(x)
    } else if let Some(x) = parse_rfc3339_datetime(s) {
        Some(x)
    } else if let Some(x) = parse_compact_datetime(s) {
        Some(x)
    } else {
        parse_rfc2822_datetime(s)
    };
    match raw {
        Some(x) => Timestamp::from_raw(x),
        None => None,
    }
}

} // verus!
