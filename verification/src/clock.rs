//! Instants: microseconds since the epoch that have a date.

use vstd::prelude::*;

use crate::text::{self, concat3, decimal_text};

verus! {

/// The least number of seconds since the epoch that has a date.
pub const MIN_SECONDS: i64 = -8_334_601_228_800;

/// The largest number of seconds since the epoch that has a date.
pub const MAX_SECONDS: i64 = 8_210_266_876_799;

/// Whether a number of microseconds since the epoch has a date.
pub open spec fn has_date(micros: int) -> bool {
    MIN_SECONDS * 1_000_000 <= micros < (MAX_SECONDS + 1) * 1_000_000
}

/// The date of a number of milliseconds since the epoch, as microseconds since the epoch, if it
/// has a date.
///
/// Calls `chrono::DateTime::from_timestamp_millis`, and `timestamp_micros` on the date that it
/// gives. A date is given from the first second of the year -262143 to the last second of the
/// year 262142, and it is that of the milliseconds exactly.
#[verifier::external_body]
pub(crate) fn millis_to_micros(millis: i64) -> (r: Option<i64>)
    ensures
        r == (if has_date(millis * 1000) {
            Some((millis * 1000) as i64)
        } else {
            None
        }),
{
    chrono::DateTime::from_timestamp_millis(millis).map(|date| date.timestamp_micros())
}

/// The date of a number of seconds and nanoseconds since the epoch, as microseconds since the
/// epoch, if it has a date.
///
/// Calls `timestamp_opt` of `chrono::Utc`, and `timestamp_micros` on the date that it gives. A
/// date is given from the first second of the year -262143 to the last second of the year 262142;
/// what the nanoseconds have below a microsecond is dropped.
#[verifier::external_body]
pub(crate) fn utc_micros(seconds: i64, nanos: u32) -> (r: Option<i64>)
    requires
        nanos < 1_000_000_000,
    ensures
        r == (if MIN_SECONDS <= seconds <= MAX_SECONDS {
            Some((seconds * 1_000_000 + nanos / 1000) as i64)
        } else {
            None
        }),
{
    chrono::TimeZone::timestamp_opt(&chrono::Utc, seconds, nanos).single().map(
        |date| date.timestamp_micros(),
    )
}

/// How a date is shown, by its microseconds since the epoch.
pub uninterp spec fn date_text(micros: i64) -> Seq<char>;

/// How the date of a number of microseconds since the epoch is shown, if it has a date.
///
/// Calls `chrono::DateTime::from_timestamp_micros`, and formats the date that it gives with the
/// `Debug` of `chrono::DateTime<chrono::Utc>`. A date is given from the first second of the year
/// -262143 to the last second of the year 262142; the text depends on the date alone. Nothing else
/// is said of the text.
#[verifier::external_body]
fn shown_date(micros: i64) -> (r: Option<String>)
    ensures
        r is Some == has_date(micros as int),
        r matches Some(text) ==> text@ == date_text(micros),
{
    chrono::DateTime::from_timestamp_micros(micros).map(|date| format!("{:?}", date))
}

/// How an instant is shown: as its date, or as its number where it has none.
pub open spec fn instant_shown(micros: i64) -> Seq<char> {
    if has_date(micros as int) {
        date_text(micros)
    } else {
        text::decimal(micros as int)
    }
}

/// How an instant is shown: as its date, or as its number where it has none.
pub fn instant_text(micros: i64) -> (r: String)
    ensures
        r@ == instant_shown(micros),
{
    match shown_date(micros) {
        Some(text) => text,
        None => decimal_text(micros),
    }
}

/// How an instant that may be missing is shown.
pub open spec fn optional_shown(micros: Option<i64>) -> Seq<char> {
    match micros {
        Some(x) => "Some("@ + instant_shown(x) + ")"@,
        None => "None"@,
    }
}

/// How an instant that may be missing is shown.
pub fn optional_instant_text(micros: Option<i64>) -> (r: String)
    ensures
        r@ == optional_shown(micros),
{
    match micros {
        Some(x) => concat3("Some(", instant_text(x).as_str(), ")"),
        None => "None".to_owned(),
    }
}

/// An instant that may be missing is shown as itself inside `Some`, or as `None`; and one without a date
/// by its number.
pub proof fn law_texts_of_instants(micros: i64, one: String, said: String, none: String)
    requires
        call_ensures(instant_text, (micros,), one),
        call_ensures(optional_instant_text, (Some(micros),), said),
        call_ensures(optional_instant_text, (None::<i64>,), none),
    ensures
        said@ == "Some("@ + one@ + ")"@,
        none@ == "None"@,
        !has_date(micros as int) ==> one@ == text::decimal(micros as int),
{
}

} // verus!
