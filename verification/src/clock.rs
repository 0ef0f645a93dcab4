//! The clock, and moments written as text.

use vstd::prelude::*;

use crate::text::{decimal, law_written_numbers_are_read, number_of, parse_number, text_less};

verus! {

/// The text of a moment, given in seconds since 1970, in a pattern of the `chrono` crate; none if
/// the moment is out of its range.
pub uninterp spec fn utc_text(secs: i64, pattern: Seq<char>) -> Option<Seq<char>>;

/// The contents of a text, if there is one.
pub open spec fn text_view(r: Option<String>) -> Option<Seq<char>> {
    match r {
        Some(s) => Some(s@),
        None => None,
    }
}

/// The moments of the years 0 to 9999.
pub open spec fn four_digit_year(secs: i64) -> bool {
    -62_167_219_200 <= secs <= 253_402_300_799
}

/// Calls `chrono::Utc::now` and `DateTime::timestamp`: some number of seconds since 1970, which is
/// never before, of a moment that can be written.
#[verifier::external_body]
pub(crate) fn utc_seconds() -> (res: i64)
    ensures
        res >= 0,
        utc_text(res, "%Y-%m-%d %H:%M:%S"@) is Some,
        utc_text(res, "%Y%m%d%H"@) is Some,
{
    chrono::Utc::now().timestamp()
}

/// Calls `chrono::DateTime::from_timestamp` and `DateTime::format`. The result is a function of
/// the moment and the pattern. For the years of four digits there is one, and texts of the
/// pattern that goes down to seconds are ordered as the moments are, since each of its fields has
/// a fixed width.
#[verifier::external_body]
pub(crate) fn format_utc(secs: i64, pattern: &str) -> (res: Option<String>)
    requires
        pattern@ == "%Y%m%d%H"@ || pattern@ == "%Y-%m-%d %H:%M:%S"@,
    ensures
        text_view(res) == utc_text(secs, pattern@),
        four_digit_year(secs) ==> res is Some,
        four_digit_year(secs) && pattern@ == "%Y-%m-%d %H:%M:%S"@ ==> forall|t: i64|
            four_digit_year(t) ==> (text_less((#[trigger] utc_text(t, pattern@))->0, res->0@) <==> t
                < secs),
{
    chrono::DateTime::from_timestamp(secs, 0).map(|t| t.format(pattern).to_string())
}

/// The serial number that a text denotes; one if it denotes none or one that is too large.
pub open spec fn serial_of(stamp: Seq<char>) -> u32 {
    match number_of(stamp) {
        Some(n) => if n <= u32::MAX {
            n as u32
        } else {
            1
        },
        None => 1,
    }
}

/// Reads a serial number.
pub fn soa_serial(stamp: &str) -> (res: u32)
    ensures
        res == serial_of(stamp@),
{
    match parse_number(stamp, u32::MAX as u64) {
        Some(n) => n as u32,
        None => 1,
    }
}

/// The serial number of a moment: its year, month, day and hour, read as one number.
pub fn serial_at(secs: i64) -> (res: u32)
    ensures
        res == (match utc_text(secs, "%Y%m%d%H"@) {
            Some(t) => serial_of(t),
            None => 1,
        }),
{
    match format_utc(secs, "%Y%m%d%H") {
        Some(t) => soa_serial(t.as_str()),
        None => 1,
    }
}

/// The text of a moment down to the second.
pub open spec fn stamp_text(secs: i64) -> Option<Seq<char>> {
    utc_text(secs, "%Y-%m-%d %H:%M:%S"@)
}

/// Writes a moment down to the second.
pub fn stamp_at(secs: i64) -> (res: Option<String>)
    ensures
        text_view(res) == stamp_text(secs),
        four_digit_year(secs) ==> res is Some,
        four_digit_year(secs) ==> forall|t: i64|
            four_digit_year(t) ==> (text_less((#[trigger] stamp_text(t))->0, res->0@) <==> t
                < secs),
{
    let res = format_utc(secs, "%Y-%m-%d %H:%M:%S");
    assert(four_digit_year(secs) ==> forall|t: i64|
        four_digit_year(t) ==> (text_less((#[trigger] stamp_text(t))->0, res->0@) <==> t < secs))
        by {
        if four_digit_year(secs) {
            assert forall|t: i64| four_digit_year(t) implies (text_less(
                (#[trigger] stamp_text(t))->0,
                res->0@,
            ) <==> t < secs) by {
                let x = utc_text(t, "%Y-%m-%d %H:%M:%S"@);
            }
        }
    }
    res
}

/// A serial number of at most 32 bits is read as it is written, and any other text as one.
pub proof fn law_serial_numbers_are_read(n: u64, written: String, stamp: &str, res: u32)
    requires
        call_ensures(decimal, (n,), written),
        call_ensures(soa_serial, (stamp,), res),
    ensures
        stamp@ == written@ && n <= 4294967295 ==> res == n,
        stamp@ == written@ && n > 4294967295 ==> res == 1,
        number_of(stamp@) is None ==> res == 1,
{
    law_written_numbers_are_read(n as nat);
}

/// The serial number of a moment is that of its year, month, day and hour, one behind the other.
pub proof fn law_serial_numbers_tell_the_hour(secs: i64, res: u32, stamp: &str, read: u32)
    requires
        call_ensures(serial_at, (secs,), res),
        utc_text(secs, "%Y%m%d%H"@) == Some(stamp@),
        call_ensures(soa_serial, (stamp,), read),
    ensures
        res == read,
{
}

/// A moment is written as its day and its time, down to the second.
pub proof fn law_moments_are_written(secs: i64, res: Option<String>)
    requires
        call_ensures(stamp_at, (secs,), res),
    ensures
        res is Some <==> utc_text(secs, "%Y-%m-%d %H:%M:%S"@) is Some,
        res matches Some(s) ==> utc_text(secs, "%Y-%m-%d %H:%M:%S"@) == Some(s@),
{
}

} // verus!
