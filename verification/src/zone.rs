//! Time zones, the proleptic Gregorian calendar, and the conversions between Unix time and
//! wall-clock time, backed by `chrono` and `chrono_tz`.

use chrono::Datelike;
use chrono::Timelike;
use vstd::prelude::*;

verus! {

#[verifier::external_type_specification]
#[verifier::external_body]
pub struct ExTz(chrono_tz::Tz);

/// The earliest Unix time that `chrono::DateTime::from_timestamp` accepts: midnight of
/// `NaiveDate::MIN`, 1 January of year -262143 (262144 BCE).
pub const MIN_UNIX: i64 = -8334601228800i64;

/// The latest Unix time that `chrono::DateTime::from_timestamp` accepts: the last second of
/// `NaiveDate::MAX`, 31 December 262142.
pub const MAX_UNIX: i64 = 8210266876799i64;

/// The first year that `chrono::NaiveDate` represents.
pub const MIN_YEAR: i32 = -262143i32;

/// The last year that `chrono::NaiveDate` represents.
pub const MAX_YEAR: i32 = 262142i32;

/// A leap year of the Gregorian calendar.
pub open spec fn is_leap_year_spec(y: int) -> bool {
    y % 4 == 0 && (y % 100 != 0 || y % 400 == 0)
}

/// The number of days of month `m` (1 to 12) of year `y`; 0 for any other month.
pub open spec fn days_in_month_spec(y: int, m: int) -> int {
    if m == 1 || m == 3 || m == 5 || m == 7 || m == 8 || m == 10 || m == 12 {
        31
    } else if m == 4 || m == 6 || m == 9 || m == 11 {
        30
    } else if m == 2 {
        if is_leap_year_spec(y) {
            29
        } else {
            28
        }
    } else {
        0
    }
}

/// A day that exists in the proleptic Gregorian calendar and in `chrono::NaiveDate`'s range.
pub open spec fn valid_date(y: int, m: int, d: int) -> bool {
    &&& MIN_YEAR <= y <= MAX_YEAR
    &&& 1 <= m <= 12
    &&& 1 <= d <= days_in_month_spec(y, m)
}

/// Days from 1 January 1970 to the given day of the proleptic Gregorian calendar.
pub open spec fn days_from_civil(y: int, m: int, d: int) -> int {
    let y2 = if m <= 2 {
        y - 1
    } else {
        y
    };
    let era = y2 / 400;
    let yoe = y2 % 400;
    let mp = if m > 2 {
        m - 3
    } else {
        m + 9
    };
    let doy = (153 * mp + 2) / 5 + d - 1;
    let doe = yoe * 365 + yoe / 4 - yoe / 100 + doy;
    era * 146097 + doe - 719468
}

/// The Unix time of a wall-clock reading at UTC: whole days since 1 January 1970, then the
/// seconds of the day.
pub open spec fn unix_of(y: int, m: int, d: int, h: int, mi: int, s: int) -> int {
    days_from_civil(y, m, d) * 86400 + h * 3600 + mi * 60 + s
}

/// The day of the week, counted from Monday as 0 to Sunday as 6 (1 January 1970 was a Thursday).
pub open spec fn weekday_index(y: int, m: int, d: int) -> int {
    (days_from_civil(y, m, d) + 3) % 7
}

/// Whether `year` is a leap year.
pub fn is_leap_year(year: u32) -> (r: bool)
    ensures
        r == is_leap_year_spec(year as int),
{
    year % 4 == 0 && (year % 100 != 0 || year % 400 == 0)
}

/// The number of days of a month of a year.
pub fn days_in_month(year: u32, month: u32) -> (r: u32)
    requires
        1 <= month <= 12,
    ensures
        r == days_in_month_spec(year as int, month as int),
{
    if month == 1 || month == 3 || month == 5 || month == 7 || month == 8 || month == 10 || month
        == 12 {
        31
    } else if month == 4 || month == 6 || month == 9 || month == 11 {
        30
    } else if is_leap_year(year) {
        29
    } else {
        28
    }
}

/// The day of the week of a date, Monday as 0, through `chrono::NaiveDate::weekday`:
/// chrono counts days in the proleptic Gregorian calendar, in which this is the formula
/// `weekday_index`.
#[verifier::external_body]
pub(crate) fn weekday_of_date(y: i32, m: u32, d: u32) -> (r: u32)
    requires
        valid_date(y as int, m as int, d as int),
    ensures
        r == weekday_index(y as int, m as int, d as int),
{
    chrono::NaiveDate::from_ymd_opt(y, m, d).unwrap().weekday().num_days_from_monday()
}

/// What `chrono_tz::Tz::from_str` gives for a name: the zone whose IANA name (or link name)
/// it is.
pub uninterp spec fn spec_parse_tz(name: Seq<char>) -> Option<chrono_tz::Tz>;

/// Looks a time zone up by its IANA name through `chrono_tz::Tz::from_str` (an exact,
/// case-sensitive lookup in the zone table).
#[verifier::external_body]
pub(crate) fn parse_timezone(name: &str) -> (r: Option<chrono_tz::Tz>)
    ensures
        r == spec_parse_tz(name@),
{
    name.parse::<chrono_tz::Tz>().ok()
}

/// The zone `chrono_tz::Tz::UTC`, the one that the name "UTC" looks up.
#[verifier::external_body]
pub(crate) fn utc_zone() -> (r: chrono_tz::Tz)
    ensures
        spec_parse_tz("UTC"@) == Some(r),
{
    chrono_tz::Tz::UTC
}

/// The text that `Display` for `chrono_tz::Tz` writes: the zone's name.
pub uninterp spec fn spec_tz_name(tz: chrono_tz::Tz) -> Seq<char>;

/// The name of a zone, as `Display` for `chrono_tz::Tz` writes it.
#[verifier::external_body]
pub(crate) fn timezone_name(tz: chrono_tz::Tz) -> (r: String)
    ensures
        r@ == spec_tz_name(tz),
{
    tz.to_string()
}

/// What `chrono::DateTime::from_timestamp(secs, 0)` shows as wall-clock time in zone `tz`
/// (`with_timezone`): year, month, day, hour, minute, second.
pub uninterp spec fn spec_local_fields(tz: chrono_tz::Tz, secs: int) -> (int, int, int, int, int, int);

/// The wall-clock fields of Unix time `secs` in zone `tz`, through
/// `chrono::DateTime::from_timestamp` and `with_timezone`. chrono documents the ranges of the
/// month (1 to 12), day (1 to 31), hour (0 to 23), minute and second (0 to 59). In `Tz::UTC`,
/// whose offset is 0 at every instant, the fields are the date and time of `secs` in
/// chrono's proleptic Gregorian calendar, whose day count `days_from_civil` is.
#[verifier::external_body]
pub(crate) fn local_fields(tz: chrono_tz::Tz, secs: i64) -> (r: (i32, u32, u32, u32, u32, u32))
    requires
        MIN_UNIX <= secs <= MAX_UNIX,
    ensures
        (r.0 as int, r.1 as int, r.2 as int, r.3 as int, r.4 as int, r.5 as int) == spec_local_fields(
            tz,
            secs as int,
        ),
        1 <= r.1 <= 12,
        1 <= r.2 <= 31,
        r.3 <= 23,
        r.4 <= 59,
        r.5 <= 59,
        spec_parse_tz("UTC"@) == Some(tz) ==> valid_date(r.0 as int, r.1 as int, r.2 as int)
            && unix_of(r.0 as int, r.1 as int, r.2 as int, r.3 as int, r.4 as int, r.5 as int)
            == secs as int,
{
    let dt = chrono::DateTime::from_timestamp(secs, 0).unwrap().with_timezone(&tz);
    (dt.year(), dt.month(), dt.day(), dt.hour(), dt.minute(), dt.second())
}

/// What `NaiveDateTime::and_local_timezone(tz).earliest()` gives as Unix time for a wall-clock
/// time in zone `tz`: the earlier instant where the time occurs twice, none where the zone
/// skips it.
pub uninterp spec fn spec_local_to_unix(
    tz: chrono_tz::Tz,
    y: int,
    m: int,
    d: int,
    h: int,
    mi: int,
    s: int,
) -> Option<int>;

/// The Unix time of a wall-clock time in zone `tz`, through `NaiveDateTime::and_local_timezone`
/// and `MappedLocalTime::earliest`. In `Tz::UTC`, whose offset is 0 at every instant, every
/// wall-clock time occurs once, at the time that chrono's day count gives; what other zones
/// give is left unsaid here (`spec_local_to_unix`).
#[verifier::external_body]
pub(crate) fn local_to_unix(tz: chrono_tz::Tz, y: i32, m: u32, d: u32, h: u32, mi: u32, s: u32) -> (r:
    Option<i64>)
    requires
        valid_date(y as int, m as int, d as int),
        h <= 23,
        mi <= 59,
        s <= 59,
    ensures
        match r {
            Some(t) => spec_parse_tz("UTC"@) == Some(tz) ==> t as int == unix_of(y as int, m as int, d as int, h as int, mi as int, s as int),
            None => spec_parse_tz("UTC"@) != Some(tz),
        },
        spec_parse_tz("UTC"@) != Some(tz) ==> match r {
            Some(t) => spec_local_to_unix(tz, y as int, m as int, d as int, h as int, mi as int, s as int)
                == Some(t as int),
            None => spec_local_to_unix(tz, y as int, m as int, d as int, h as int, mi as int, s as int)
                is None,
        },
{
    let local = chrono::NaiveDateTime::new(
        chrono::NaiveDate::from_ymd_opt(y, m, d).unwrap(),
        chrono::NaiveTime::from_hms_opt(h, mi, s).unwrap(),
    );
    match local.and_local_timezone(tz).earliest() {
        Some(dt) => Some(dt.timestamp()),
        None => None,
    }
}

} // verus!
