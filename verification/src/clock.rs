//! The local time, for the creation date of a document, from the `time`
//! crate.

use vstd::prelude::*;

verus! {

#[verifier::external_type_specification]
#[verifier::external_body]
pub struct ExParseError(time::ParseError);

/// A broken-down local time, field by field as `time::Tm` holds it.
#[derive(Clone, Copy, Debug, PartialEq, Eq)]
pub struct TimeFields {
    pub tm_sec: i32,
    pub tm_min: i32,
    pub tm_hour: i32,
    pub tm_mday: i32,
    pub tm_mon: i32,
    pub tm_year: i32,
    pub tm_wday: i32,
    pub tm_yday: i32,
    pub tm_isdst: i32,
    pub tm_utcoff: i32,
    pub tm_nsec: i32,
}

/// The conversions of `format` are all among `%Y`, `%m`, `%d`, `%H`, `%M`,
/// `%S` and `%z`.
pub open spec fn simple_format(format: Seq<char>) -> bool
    decreases format.len(),
{
    if format.len() == 0 {
        true
    } else if format[0] == '%' {
        &&& format.len() >= 2
        &&& (format[1] == 'Y' || format[1] == 'm' || format[1] == 'd' || format[1] == 'H'
            || format[1] == 'M' || format[1] == 'S' || format[1] == 'z')
        &&& simple_format(format.skip(2))
    } else {
        simple_format(format.skip(1))
    }
}

/// The character of the decimal digit `d`.
pub open spec fn digit_char(d: nat) -> char {
    seq!['0', '1', '2', '3', '4', '5', '6', '7', '8', '9'][d as int]
}

/// The decimal digits of `n`, most significant first, with no leading zero.
pub open spec fn decimal_chars(n: nat) -> Seq<char>
    decreases n,
{
    if n < 10 {
        seq![digit_char(n)]
    } else {
        decimal_chars(n / 10).push(digit_char(n % 10))
    }
}

/// `n` in decimal, with a minus sign where it is negative.
pub open spec fn signed_decimal(n: int) -> Seq<char> {
    if n < 0 {
        seq!['-'] + decimal_chars((-n) as nat)
    } else {
        decimal_chars(n as nat)
    }
}

/// `n` in decimal padded with zeros to two characters, the sign counted:
/// a single digit gets a leading `0`, anything else is written as it is.
pub open spec fn two_digits(n: int) -> Seq<char> {
    if 0 <= n < 10 {
        seq!['0'] + decimal_chars(n as nat)
    } else {
        signed_decimal(n)
    }
}

/// A zone offset in seconds east of UTC as `+hhmm`, or `-hhmm` where it is
/// not east; the hours and minutes are those of its whole minutes.
pub open spec fn zone_offset(utcoff: int) -> Seq<char> {
    let minutes = (if utcoff < 0 { -utcoff } else { utcoff }) / 60;
    seq![if utcoff > 0 { '+' } else { '-' }] + two_digits(minutes / 60) + two_digits(minutes % 60)
}

/// The text of the conversion `%c` for the time `tm`.
pub open spec fn conversion(c: char, tm: TimeFields) -> Seq<char> {
    if c == 'Y' {
        signed_decimal(tm.tm_year + 1900)
    } else if c == 'm' {
        two_digits(tm.tm_mon + 1)
    } else if c == 'd' {
        two_digits(tm.tm_mday as int)
    } else if c == 'H' {
        two_digits(tm.tm_hour as int)
    } else if c == 'M' {
        two_digits(tm.tm_min as int)
    } else if c == 'S' {
        two_digits(tm.tm_sec as int)
    } else if c == 'z' {
        zone_offset(tm.tm_utcoff as int)
    } else {
        Seq::empty()
    }
}

/// `format` with each conversion replaced by its text for `tm` and every
/// other character kept.
pub open spec fn format_time(format: Seq<char>, tm: TimeFields) -> Seq<char>
    decreases format.len(),
{
    if format.len() == 0 {
        Seq::empty()
    } else if format[0] == '%' && format.len() >= 2 {
        conversion(format[1], tm) + format_time(format.skip(2), tm)
    } else {
        seq![format[0]] + format_time(format.skip(1), tm)
    }
}

/// Every field of `tm` is in the range that the time crate documents for
/// it: what a reading of the clock can be.
pub open spec fn is_clock_reading(tm: TimeFields) -> bool {
    &&& 0 <= tm.tm_sec <= 60
    &&& 0 <= tm.tm_min <= 59
    &&& 0 <= tm.tm_hour <= 23
    &&& 1 <= tm.tm_mday <= 31
    &&& 0 <= tm.tm_mon <= 11
    &&& 0 <= tm.tm_wday <= 6
    &&& 0 <= tm.tm_yday <= 365
    &&& 0 <= tm.tm_nsec <= 999_999_999
}

/// Calls `time::now` and hands out the fields of the `Tm` that it returns.
/// They come from the clock and the time zone; only the ranges that the
/// time crate documents for its fields are stated of them.
#[verifier::external_body]
pub(crate) fn local_now() -> (tm: TimeFields)
    ensures
        is_clock_reading(tm),
{
    let t = time::now();
    TimeFields {
        tm_sec: t.tm_sec, tm_min: t.tm_min, tm_hour: t.tm_hour, tm_mday: t.tm_mday,
        tm_mon: t.tm_mon, tm_year: t.tm_year, tm_wday: t.tm_wday, tm_yday: t.tm_yday,
        tm_isdst: t.tm_isdst, tm_utcoff: t.tm_utcoff, tm_nsec: t.tm_nsec,
    }
}

/// Calls `time::strftime` on `format` and the `Tm` with the fields of `tm`.
/// It fails exactly when the week day or the month is out of range, as
/// `validate_format` in the time crate checks for formats whose conversions
/// are all valid; otherwise its text is `format_time`, which writes each
/// conversion as its `parse_type` does. The `requires` leaves out the years
/// and zone offsets on which its `%Y` and `%z` overflow.
#[verifier::external_body]
pub(crate) fn strftime(format: &str, tm: &TimeFields) -> (res: Result<String, time::ParseError>)
    requires
        simple_format(format@),
        tm.tm_year <= i32::MAX - 1900,
        tm.tm_utcoff != i32::MIN,
    ensures
        res matches Ok(s) ==> s@ == format_time(format@, *tm),
        res is Ok <==> (0 <= tm.tm_wday <= 6 && 0 <= tm.tm_mon <= 11),
{
    let t = time::Tm {
        tm_sec: tm.tm_sec, tm_min: tm.tm_min, tm_hour: tm.tm_hour, tm_mday: tm.tm_mday,
        tm_mon: tm.tm_mon, tm_year: tm.tm_year, tm_wday: tm.tm_wday, tm_yday: tm.tm_yday,
        tm_isdst: tm.tm_isdst, tm_utcoff: tm.tm_utcoff, tm_nsec: tm.tm_nsec,
    };
    time::strftime(format, &t)
}

/// The format of creation dates: year, month, day, hour, minute, second and
/// zone offset.
pub open spec fn date_format() -> Seq<char> {
    "%Y%m%d%H%M%S%z"@
}

/// `date` is what `format_date` makes of `tm`: a date exactly when the year
/// and zone offset can be written and the week day and month are in range,
/// and then `tm` written in `date_format()`.
pub open spec fn is_date_of(tm: TimeFields, date: Option<Seq<char>>) -> bool {
    &&& (date is Some) <==> (tm.tm_year <= i32::MAX - 1900 && tm.tm_utcoff != i32::MIN && 0
        <= tm.tm_wday <= 6 && 0 <= tm.tm_mon <= 11)
    &&& (date matches Some(d) ==> d == format_time(date_format(), tm))
}

/// The characters of a date, where there is one.
pub open spec fn date_chars(date: Option<String>) -> Option<Seq<char>> {
    match date {
        Some(s) => Some(s@),
        None => None,
    }
}

/// The current local time as a PDF date, where it can be formatted: the
/// date of some reading of the clock, so that there is no date only where
/// the year or the zone offset of that reading cannot be written.
pub fn creation_date() -> (date: Option<String>)
    ensures
        exists|tm: TimeFields| is_clock_reading(tm) && #[trigger] is_date_of(tm, date_chars(date)),
{
    let tm = local_now();
    let date = format_date(&tm);
    assert(is_date_of(tm, date_chars(date)));
    date
}

/// The time `tm` as a PDF date: year, month, day, hour, minute, second and
/// zone offset, where the year and offset can be written and the week day
/// and month are in range.
pub fn format_date(tm: &TimeFields) -> (date: Option<String>)
    ensures
        is_date_of(*tm, date_chars(date)),
{
    let format = "%Y%m%d%H%M%S%z";
    proof {
        reveal_strlit("%Y%m%d%H%M%S%z");
        reveal_with_fuel(simple_format, 16);
        assert(simple_format(format@));
    }
    if tm.tm_year <= i32::MAX - 1900 && tm.tm_utcoff != i32::MIN {
        match strftime(format, tm) {
            Ok(s) => Some(s),
            Err(_) => None,
        }
    } else {
        None
    }
}

} // verus!
