//! The wall clock and the timestamp format, through chrono. Everything
//! here either reads the clock (so nothing exact can be promised of the
//! result) or computes a pure function of its argument (named, so that
//! contracts can speak of it).
use chrono::Datelike;
use vstd::prelude::*;

verus! {

/// The epoch second a given RFC 2822 timestamp string denotes, if any:
/// a function of the string alone.
pub uninterp spec fn rfc2822_epoch(s: Seq<char>) -> Option<i64>;

/// Relies on chrono's Local::now and DateTime::to_rfc2822: the current
/// local time, written as an RFC 2822 timestamp.
#[verifier::external_body]
pub(crate) fn now_rfc2822() -> String {
    chrono::Local::now().to_rfc2822()
}

/// Relies on chrono's Utc::now and DateTime::timestamp: the current
/// time in whole seconds since the Unix epoch.
#[verifier::external_body]
pub(crate) fn now_epoch() -> i64 {
    chrono::Utc::now().timestamp()
}

/// Relies on chrono's Utc::now, DateTime::date_naive and the Datelike
/// accessors, which document the month as 1..=12 and the day as 1..=31.
#[verifier::external_body]
pub(crate) fn today_ymd() -> (r: (i32, u32, u32))
    ensures
        1 <= r.1 <= 12,
        1 <= r.2 <= 31,
{
    let d = chrono::Utc::now().date_naive();
    (d.year(), d.month(), d.day())
}

/// Relies on chrono's DateTime::parse_from_rfc2822 and
/// DateTime::timestamp: both depend on the input string alone.
#[verifier::external_body]
pub(crate) fn parse_rfc2822_epoch(s: &str) -> (r: Option<i64>)
    ensures
        r == rfc2822_epoch(s@),
{
    match chrono::DateTime::parse_from_rfc2822(s) {
        Ok(d) => Some(d.timestamp()),
        Err(_) => None,
    }
}

/// The clock's reading in epoch seconds, for callers that stamp cache
/// deadlines. Nothing exact can be promised of a clock reading.
pub fn current_epoch_seconds() -> i64 {
    now_epoch()
}

/// Today's date per the system clock, when it lies in the supported
/// range.
pub fn today() -> (r: Option<crate::date::Date>)
    ensures
        r is Some ==> crate::date::valid_date(r->0),
{
    let (y, m, d) = today_ymd();
    if y < 1970 || y > 9999 {
        return None;
    }
    crate::date::Date::from_ymd(y as u32, m, d)
}

} // verus!
