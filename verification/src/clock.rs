//! The system clock, read in nanoseconds since the Unix epoch.
use vstd::prelude::*;
use crate::insights::civil_from_days;
use crate::text::{decimal, zero_pad};

verus! {

/// `std::time::SystemTime`, carried as it is.
#[verifier::external_type_specification]
#[verifier::external_body]
pub struct ExSystemTime(std::time::SystemTime);

/// The largest number of nanoseconds a `std::time::Duration` holds: `u64::MAX` seconds
/// and 999 999 999 nanoseconds.
pub open spec fn max_duration_nanos() -> int {
    u64::MAX as int * 1_000_000_000 + 999_999_999
}

/// Calls `std::time::SystemTime::now`; the time read is not stated.
#[verifier::external_body]
fn system_now() -> (t: std::time::SystemTime) {
    std::time::SystemTime::now()
}

/// Calls `SystemTime::duration_since(UNIX_EPOCH)` and takes the whole duration in
/// nanoseconds (`Duration::as_nanos`), 0 for a time before the epoch. A `Duration` holds
/// at most `u64::MAX` seconds and fewer than 10^9 extra nanoseconds.
#[verifier::external_body]
fn nanos_since_epoch(t: &std::time::SystemTime) -> (n: u128)
    ensures
        n <= max_duration_nanos(),
{
    match t.duration_since(std::time::UNIX_EPOCH) {
        Ok(d) => d.as_nanos(),
        Err(_) => 0,
    }
}

/// The current time in nanoseconds since the Unix epoch (0 before the epoch).
pub fn now_nanos() -> (n: u128)
    ensures
        n <= max_duration_nanos(),
{
    let t = system_now();
    nanos_since_epoch(&t)
}


// ─── Calendar text of a timestamp ────────────────────────────────────────────

/// The last second that `chrono` can give a date for: the end of year 262142.
pub const MAX_DATE_SECS: u128 = 8_210_266_876_799;

/// A year as `chrono` formats `%Y` for years from 0 on: four digits, zero-padded, and
/// with a `+` sign beyond 9999.
pub open spec fn year_text(y: int) -> Seq<char> {
    if y <= 9999 {
        zero_pad(decimal(y as nat), 4)
    } else {
        seq!['+'] + decimal(y as nat)
    }
}

/// Two digits, zero-padded.
pub open spec fn two_digits(n: int) -> Seq<char> {
    zero_pad(decimal(n as nat), 2)
}

/// The UTC date `%Y-%m-%d` of second `secs` after the epoch, on the proleptic Gregorian
/// calendar.
pub open spec fn utc_date_spec(secs: int) -> Seq<char> {
    let (y, m, d) = civil_from_days(secs / 86400);
    year_text(y) + seq!['-'] + two_digits(m) + seq!['-'] + two_digits(d)
}

/// The UTC time of day `%H:%M:%S` of second `secs`.
pub open spec fn utc_time_spec(secs: int) -> Seq<char> {
    let t = secs % 86400;
    two_digits(t / 3600) + seq![':'] + two_digits((t % 3600) / 60) + seq![':'] + two_digits(t % 60)
}

/// `%Y-%m-%dT%H:%M:%SZ` of second `secs`.
pub open spec fn utc_stamp_spec(secs: int) -> Seq<char> {
    utc_date_spec(secs) + seq!['T'] + utc_time_spec(secs) + seq!['Z']
}

/// Calls `chrono::DateTime::<Utc>::from_timestamp` and formats the result with
/// `%Y-%m-%dT%H:%M:%SZ`: the proleptic Gregorian UTC date and time of day of the second,
/// the year written as `chrono` writes it (see `year_text`). Seconds past
/// `MAX_DATE_SECS` have no date in chrono and are excluded.
#[verifier::external_body]
pub(crate) fn utc_stamp(secs: u64) -> (r: String)
    requires
        secs <= MAX_DATE_SECS,
    ensures
        r@ == utc_stamp_spec(secs as int),
{
    match chrono::DateTime::<chrono::Utc>::from_timestamp(secs as i64, 0) {
        Some(dt) => dt.format("%Y-%m-%dT%H:%M:%SZ").to_string(),
        None => String::new(),
    }
}

/// The time of day takes eight characters.
pub proof fn lemma_time_len(secs: int)
    requires
        secs >= 0,
    ensures
        utc_time_spec(secs).len() == 8,
{
    let t = secs % 86400;
    assert(0 <= t / 3600 < 24);
    assert(0 <= (t % 3600) / 60 < 60);
    assert(0 <= t % 60 < 60);
    lemma_two_digits(t / 3600);
    lemma_two_digits((t % 3600) / 60);
    lemma_two_digits(t % 60);
}

/// A number below 100 takes two digits.
proof fn lemma_two_digits(n: int)
    requires
        0 <= n < 100,
    ensures
        two_digits(n).len() == 2,
{
    reveal_with_fuel(decimal, 3);
}

/// The date of a timestamp: its stamp without the time of day.
pub fn utc_date(secs: u64) -> (r: String)
    requires
        secs <= MAX_DATE_SECS,
    ensures
        r@ == utc_date_spec(secs as int),
{
    let stamp = utc_stamp(secs);
    let v = crate::text::str_to_chars(stamp.as_str());
    proof {
        lemma_time_len(secs as int);
    }
    let cut = v.len() - 10;
    let r = crate::text::chars_to_string_range(&v, 0, cut);
    assert(v@.subrange(0, cut as int) =~= utc_date_spec(secs as int));
    r
}


/// The fraction of a second that `chrono` writes after the seconds when it picks the
/// precision itself: nothing for a whole second, else a point and three, six or nine
/// digits, the fewest that show every non-zero digit.
pub open spec fn fraction_text(nano: int) -> Seq<char> {
    if nano == 0 {
        Seq::empty()
    } else if nano % 1_000_000 == 0 {
        seq!['.'] + zero_pad(decimal((nano / 1_000_000) as nat), 3)
    } else if nano % 1000 == 0 {
        seq!['.'] + zero_pad(decimal((nano / 1000) as nat), 6)
    } else {
        seq!['.'] + zero_pad(decimal(nano as nat), 9)
    }
}

/// The RFC 3339 text of second `secs` and `nano` nanoseconds in UTC:
/// `%Y-%m-%dT%H:%M:%S`, the fraction, and the offset `+00:00`.
pub open spec fn rfc3339_spec(secs: int, nano: int) -> Seq<char> {
    utc_date_spec(secs) + seq!['T'] + utc_time_spec(secs) + fraction_text(nano) + seq!['+', '0', '0', ':', '0', '0']
}

/// The RFC 3339 text of a time given in nanoseconds since the epoch.
pub open spec fn rfc3339_text(nanos: u128) -> Seq<char> {
    rfc3339_spec((nanos / 1_000_000_000) as int, (nanos % 1_000_000_000) as int)
}

/// Calls `chrono::DateTime::<Utc>::from_timestamp(secs, nsecs)` and then `to_rfc3339`,
/// which writes the date and time of day as `%Y-%m-%dT%H:%M:%S` (the year as in
/// `year_text`), the fraction of the second that `fraction_text` describes, and the
/// offset `+00:00` of UTC. Seconds past `MAX_DATE_SECS` have no date in chrono, and
/// `nsecs` of a second or more would be a leap second: both are excluded.
#[verifier::external_body]
fn rfc3339_parts(secs: i64, nsecs: u32) -> (r: String)
    requires
        0 <= secs <= MAX_DATE_SECS,
        nsecs < 1_000_000_000,
    ensures
        r@ == rfc3339_spec(secs as int, nsecs as int),
{
    match chrono::DateTime::<chrono::Utc>::from_timestamp(secs, nsecs) {
        Some(dt) => dt.to_rfc3339(),
        None => String::new(),
    }
}

/// The RFC 3339 text of a time given in nanoseconds since the epoch.
pub(crate) fn rfc3339(nanos: u128) -> (r: String)
    requires
        nanos / 1_000_000_000 <= MAX_DATE_SECS,
    ensures
        r@ == rfc3339_text(nanos),
{
    let secs: u128 = nanos / 1_000_000_000;
    let sub: u128 = nanos % 1_000_000_000;
    rfc3339_parts(secs as i64, sub as u32)
}

} // verus!
