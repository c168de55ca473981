//! Calls into outside crates.

use vstd::prelude::*;

use crate::text::{digit_char, doubled, lowered};

verus! {

/// A text as a Postgres string literal: between single quotes, with quotes and
/// backslashes written twice, and an `E` in front when there is a backslash.
pub open spec fn literal_text(text: Seq<char>) -> Seq<char> {
    let body = seq!['\''] + doubled(text, set!['\'', '\\']) + seq!['\''];
    if text.contains('\\') {
        seq!['E'] + body
    } else {
        body
    }
}

/// `pg_escape::quote_literal` wraps a text in single quotes, writes each quote
/// and each backslash in it twice, and puts an `E` in front exactly when the
/// text holds a backslash.
#[verifier::external_body]
pub(crate) fn quote_literal(text: &str) -> (r: String)
    ensures
        r@ == literal_text(text@),
{
    pg_escape::quote_literal(text)
}

/// The value of a hexadecimal digit, in either case.
pub open spec fn hex_digit(character: char) -> Option<nat> {
    if '0' <= character <= '9' {
        Some((character as u32 - '0' as u32) as nat)
    } else if 'a' <= character <= 'f' {
        Some((character as u32 - 'a' as u32 + 10) as nat)
    } else if 'A' <= character <= 'F' {
        Some((character as u32 - 'A' as u32 + 10) as nat)
    } else {
        None
    }
}

/// The number a text of hexadecimal digits stands for.
pub open spec fn hex_number(digits: Seq<char>) -> Option<nat>
    decreases digits.len(),
{
    if digits.len() == 0 {
        Some(0)
    } else {
        match (hex_number(digits.drop_last()), hex_digit(digits.last())) {
            (Some(high), Some(low)) => Some(16 * high + low),
            _ => None,
        }
    }
}

/// The digits of a hyphenated UUID text.
pub open spec fn hyphenated_digits(text: Seq<char>) -> Option<Seq<char>> {
    if text.len() == 36 && text[8] == '-' && text[13] == '-' && text[18] == '-' && text[23] == '-' {
        Some(
            text.take(8) + text.subrange(9, 13) + text.subrange(14, 18) + text.subrange(19, 23)
                + text.skip(24),
        )
    } else {
        None
    }
}

/// The digits of a UUID text: plain, hyphenated, hyphenated in braces, or
/// hyphenated as a URN.
pub open spec fn uuid_digits(text: Seq<char>) -> Option<Seq<char>> {
    if text.len() == 32 {
        Some(text)
    } else if text.len() == 36 {
        hyphenated_digits(text)
    } else if text.len() == 38 && text[0] == '{' && text[37] == '}' {
        hyphenated_digits(text.subrange(1, 37))
    } else if text.len() == 45 && lowered(text.take(9)) == "urn:uuid:"@ {
        hyphenated_digits(text.skip(9))
    } else {
        None
    }
}

/// The UUID a text stands for.
pub open spec fn uuid_of(text: Seq<char>) -> Option<nat> {
    match uuid_digits(text) {
        None => None,
        Some(digits) => hex_number(digits),
    }
}

/// `uuid::Uuid::parse_str` reads the thirty-two hexadecimal digits of a UUID, in
/// either case, from a text that is plain, hyphenated, hyphenated in braces or
/// hyphenated behind `urn:uuid:`, and fails on every other text.
#[verifier::external_body]
pub(crate) fn parse_uuid(text: &str) -> (r: Option<u128>)
    ensures
        match r {
            None => uuid_of(text@) is None,
            Some(value) => uuid_of(text@) == Some(value as nat),
        },
{
    uuid::Uuid::parse_str(text).ok().map(|value| value.as_u128())
}

/// The compact text of the JSON value that a text holds, if it holds one.
pub uninterp spec fn compact_json(text: Seq<char>) -> Option<Seq<char>>;

/// `serde_json::from_str` reads a JSON value from a text, or fails. The value is
/// handed on as its compact text.
#[verifier::external_body]
pub(crate) fn parse_json(text: &str) -> (r: Option<String>)
    ensures
        match r {
            None => compact_json(text@) is None,
            Some(value) => compact_json(text@) == Some(value@),
        },
{
    serde_json::from_str::<serde_json::Value>(text).ok().map(|value| value.to_string())
}

/// The first day `chrono::NaiveDate` can hold, counted from 1970-01-01.
pub const FIRST_DAY: i32 = -96_465_292;

/// The last day `chrono::NaiveDate` can hold, counted from 1970-01-01.
pub const LAST_DAY: i32 = 95_026_236;

/// The calendar date of a day counted from 1970-01-01, as ISO text.
pub uninterp spec fn calendar_date(day: int) -> Seq<char>;

/// The calendar date of a day counted from 1970-01-01, if there is one.
pub open spec fn date_text(day: int) -> Option<Seq<char>> {
    if FIRST_DAY <= day <= LAST_DAY {
        Some(calendar_date(day))
    } else {
        None
    }
}

/// `chrono::NaiveDate::checked_add_signed`, from 1970-01-01, finds the calendar
/// date of every day between the first one and the last one it can hold, and
/// fails on the others. The date is handed on as its text.
#[verifier::external_body]
pub(crate) fn date_of_day(day: i32) -> (r: Option<String>)
    ensures
        match r {
            None => day < FIRST_DAY || day > LAST_DAY,
            Some(text) => FIRST_DAY <= day <= LAST_DAY && text@ == calendar_date(day as int),
        },
{
    chrono::NaiveDate::from_ymd_opt(1970, 1, 1)
        .and_then(|epoch| epoch.checked_add_signed(chrono::Duration::days(i64::from(day))))
        .map(|date| date.to_string())
}

/// The lowest `width` decimal digits of a number.
pub open spec fn decimal_digits(value: nat, width: nat) -> Seq<char>
    decreases width,
{
    if width == 0 {
        Seq::empty()
    } else {
        decimal_digits(value / 10, (width - 1) as nat).push(digit_char(value % 10))
    }
}

/// A fraction of a second in nanoseconds, with no digits, three, six or nine: as
/// many as it takes.
pub open spec fn fraction_text(nanos: nat) -> Seq<char> {
    if nanos == 0 {
        Seq::empty()
    } else if nanos % 1_000_000 == 0 {
        "."@ + decimal_digits(nanos / 1_000_000, 3)
    } else if nanos % 1_000 == 0 {
        "."@ + decimal_digits(nanos / 1_000, 6)
    } else {
        "."@ + decimal_digits(nanos, 9)
    }
}

/// The time of day of a second since midnight.
pub open spec fn clock_text(seconds: nat, nanos: nat) -> Seq<char> {
    decimal_digits(seconds / 3600, 2) + ":"@ + decimal_digits(seconds / 60 % 60, 2) + ":"@
        + decimal_digits(seconds % 60, 2) + fraction_text(nanos)
}

/// The time of day of a second since midnight, if the day has it.
pub open spec fn time_text(seconds: nat, nanos: nat) -> Option<Seq<char>> {
    if seconds < 86_400 {
        Some(clock_text(seconds, nanos))
    } else {
        None
    }
}

/// `chrono::NaiveTime::from_num_seconds_from_midnight_opt` takes the seconds of
/// one day and fails on more. The time is handed on as its text: hours, minutes
/// and seconds with two digits each, and the fraction with as many digits as it
/// takes.
#[verifier::external_body]
pub(crate) fn time_of_second(seconds: u32, nanos: u32) -> (r: Option<String>)
    requires
        nanos < 1_000_000_000,
    ensures
        match r {
            None => time_text(seconds as nat, nanos as nat) is None,
            Some(text) => time_text(seconds as nat, nanos as nat) == Some(text@),
        },
{
    chrono::NaiveTime::from_num_seconds_from_midnight_opt(seconds, nanos)
        .map(|time| time.to_string())
}

/// The UTC date and time of a second counted from 1970-01-01, if its date can be
/// held.
pub open spec fn utc_text(seconds: int, nanos: nat) -> Option<Seq<char>> {
    match date_text(seconds / 86_400) {
        None => None,
        Some(date) => Some(date + " "@ + clock_text((seconds % 86_400) as nat, nanos)),
    }
}

/// `chrono::TimeZone::timestamp_opt` of UTC joins the calendar date of a second
/// counted from 1970-01-01 with its time of day, and fails where the date cannot
/// be held. The moment is handed on as the text of the date, a space and the
/// text of the time.
#[verifier::external_body]
pub(crate) fn utc_of_second(seconds: i64, nanos: u32) -> (r: Option<String>)
    requires
        nanos < 1_000_000_000,
    ensures
        match r {
            None => utc_text(seconds as int, nanos as nat) is None,
            Some(text) => utc_text(seconds as int, nanos as nat) == Some(text@),
        },
{
    chrono::TimeZone::timestamp_opt(&chrono::Utc, seconds, nanos)
        .single()
        .map(|moment| moment.naive_utc().to_string())
}

} // verus!
