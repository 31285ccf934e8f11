//! From Unix timestamps to UTC civil dates and times, so that a snapshot's
//! time can be shown in a human-readable form.
//!
//! A date is counted from the first of January 1970 in the proleptic
//! Gregorian calendar. The conversion from days is Howard Hinnant's
//! constant-time algorithm
//! (<https://howardhinnant.github.io/date_algorithms.html>).

use crate::text;
use vstd::arithmetic::div_mod::*;
use vstd::prelude::*;
use vstd::string::*;

verus! {

// ---------------------------------------------------------------------
// The calendar
// ---------------------------------------------------------------------

/// Whether the year has a 29th of February.
pub open spec fn is_leap(y: int) -> bool {
    y % 4 == 0 && (y % 100 != 0 || y % 400 == 0)
}

/// The number of days of a year.
pub open spec fn year_days(y: int) -> int {
    if is_leap(y) {
        366
    } else {
        365
    }
}

/// The number of days of a month.
pub open spec fn month_days(y: int, m: int) -> int {
    if m == 2 {
        if is_leap(y) {
            29
        } else {
            28
        }
    } else if m == 4 || m == 6 || m == 9 || m == 11 {
        30
    } else {
        31
    }
}

/// The number of days from the start of 1970 to the start of the year;
/// negative for earlier years.
pub open spec fn year_start(y: int) -> int
    decreases
        if y >= 1970 {
            y - 1970
        } else {
            1970 - y
        },
{
    if y == 1970 {
        0
    } else if y > 1970 {
        year_start(y - 1) + year_days(y - 1)
    } else {
        year_start(y + 1) - year_days(y)
    }
}

/// The number of days from the start of the year to the start of the month.
pub open spec fn month_start(y: int, m: int) -> int
    decreases m,
{
    if m <= 1 {
        0
    } else {
        month_start(y, m - 1) + month_days(y, m - 1)
    }
}

/// Whether there is such a date.
pub open spec fn is_date(y: int, m: int, d: int) -> bool {
    1 <= m <= 12 && 1 <= d <= month_days(y, m)
}

/// The number of days from the first of January 1970 to a date.
pub open spec fn day_number(y: int, m: int, d: int) -> int {
    year_start(y) + month_start(y, m) + d - 1
}

/// The date so many days after the first of January 1970.
pub open spec fn date_of(z: int) -> (int, int, int) {
    choose|y: int, m: int, d: int| is_date(y, m, d) && #[trigger] day_number(y, m, d) == z
}

/// The text `YYYY-MM-DDTHH:MM:SSZ` for so many seconds after the first of
/// January 1970.
pub open spec fn time_text(secs: nat) -> Seq<char> {
    let (y, m, d) = date_of((secs / 86400) as int);
    let t = secs % 86400;
    text::padded(y as nat, 4) + "-"@ + text::padded(m as nat, 2) + "-"@ + text::padded(
        d as nat,
        2,
    ) + "T"@ + text::padded(t / 3600, 2) + ":"@ + text::padded(t % 3600 / 60, 2) + ":"@
        + text::padded(t % 60, 2) + "Z"@
}

// ---------------------------------------------------------------------
// Facts about the calendar
// ---------------------------------------------------------------------

/// The leap years from year one up to a year.
spec fn leaps(y: int) -> int {
    y / 4 - y / 100 + y / 400
}

/// A number's quotient is one more than that of the number before it
/// exactly if it is a multiple.
proof fn lemma_quotient_step(y: int, k: int)
    requires
        k > 1,
    ensures
        y / k == (y - 1) / k + if y % k == 0 {
            1int
        } else {
            0
        },
{
    lemma_fundamental_div_mod(y, k);
    let q = y / k;
    let r = y % k;
    if r == 0 {
        assert((q - 1) * k == k * q - k) by (nonlinear_arith);
        lemma_fundamental_div_mod_converse(y - 1, k, q - 1, k - 1);
    } else {
        assert(q * k == k * q) by (nonlinear_arith);
        lemma_fundamental_div_mod_converse(y - 1, k, q, r - 1);
    }
}

/// A year adds to the leap years if it is one.
proof fn lemma_leaps_step(y: int)
    ensures
        leaps(y) == leaps(y - 1) + (year_days(y) - 365),
{
    lemma_quotient_step(y, 4);
    lemma_quotient_step(y, 100);
    lemma_quotient_step(y, 400);
    assert(y % 400 == 0 ==> y % 100 == 0);
    assert(y % 100 == 0 ==> y % 4 == 0);
}

/// The start of a year in closed form.
proof fn lemma_year_start(y: int)
    ensures
        year_start(y) == 365 * (y - 1970) + leaps(y - 1) - 477,
    decreases
            if y >= 1970 {
                y - 1970
            } else {
                1970 - y
            },
{
    if y > 1970 {
        lemma_year_start(y - 1);
        lemma_leaps_step(y - 1);
    } else if y < 1970 {
        lemma_year_start(y + 1);
        lemma_leaps_step(y);
    }
}

/// The starts of the months.
proof fn lemma_month_start(y: int)
    ensures
        month_start(y, 1) == 0,
        month_start(y, 2) == 31,
        month_start(y, 3) == 59 + (year_days(y) - 365),
        month_start(y, 4) == 90 + (year_days(y) - 365),
        month_start(y, 5) == 120 + (year_days(y) - 365),
        month_start(y, 6) == 151 + (year_days(y) - 365),
        month_start(y, 7) == 181 + (year_days(y) - 365),
        month_start(y, 8) == 212 + (year_days(y) - 365),
        month_start(y, 9) == 243 + (year_days(y) - 365),
        month_start(y, 10) == 273 + (year_days(y) - 365),
        month_start(y, 11) == 304 + (year_days(y) - 365),
        month_start(y, 12) == 334 + (year_days(y) - 365),
{
    reveal_with_fuel(month_start, 13);
}

/// The place of a year within four centuries: what the algorithm computes
/// is the year in which the day falls.
proof fn lemma_year_of_era(doe: int, yoe: int, doy: int)
    requires
        0 <= doe <= 146096,
        yoe == (doe - doe / 1460 + doe / 36524 - doe / 146096) / 365,
        doy == doe - (365 * yoe + yoe / 4 - yoe / 100),
    ensures
        0 <= yoe <= 399,
        0 <= doy <= 365,
        doy == 365 ==> is_leap(yoe + 1),
{
}

/// The date that the algorithm computes is the one so many days after the
/// first of January 1970.
proof fn lemma_civil(z: int, era: int, doe: int, yoe: int, doy: int, mp: int)
    requires
        z + 719468 == era * 146097 + doe,
        0 <= doe <= 146096,
        yoe == (doe - doe / 1460 + doe / 36524 - doe / 146096) / 365,
        doy == doe - (365 * yoe + yoe / 4 - yoe / 100),
        mp == (5 * doy + 2) / 153,
    ensures
        0 <= yoe <= 399,
        0 <= doy <= 365,
        0 <= mp <= 11,
        ({
            let y = yoe + era * 400;
            let d = doy - (153 * mp + 2) / 5 + 1;
            let m = if mp < 10 {
                mp + 3
            } else {
                mp - 9
            };
            let year = if m <= 2 {
                y + 1
            } else {
                y
            };
            &&& 1 <= d <= 31
            &&& is_date(year, m, d)
            &&& day_number(year, m, d) == z
        }),
{
    lemma_year_of_era(doe, yoe, doy);
    let y = yoe + era * 400;
    lemma_quotients_of_year(era, yoe);
    lemma_leaps_step(y);
    lemma_leaps_step(y + 1);
    lemma_year_start(y);
    lemma_year_start(y + 1);
    lemma_month_start(y);
    lemma_month_start(y + 1);
}

/// A year and the place of the year within its four centuries are leap
/// years together.
proof fn lemma_quotients_of_year(era: int, yoe: int)
    requires
        0 <= yoe <= 399,
    ensures
        leaps(yoe + era * 400) == era * 97 + yoe / 4 - yoe / 100,
        is_leap(yoe + era * 400 + 1) == is_leap(yoe + 1),
{
    let y = yoe + era * 400;
    lemma_fundamental_div_mod_converse(y, 4, era * 100 + yoe / 4, yoe % 4);
    lemma_fundamental_div_mod_converse(y, 100, era * 4 + yoe / 100, yoe % 100);
    lemma_fundamental_div_mod_converse(y, 400, era, yoe);
    let n = yoe + 1;
    lemma_fundamental_div_mod_converse(y + 1, 4, era * 100 + n / 4, n % 4);
    lemma_fundamental_div_mod_converse(y + 1, 100, era * 4 + n / 100, n % 100);
    lemma_fundamental_div_mod_converse(y + 1, 400, era + n / 400, n % 400);
}

/// A later date has a greater number of days.
pub proof fn later_dates_count_more(y: int, m: int, d: int, y2: int, m2: int, d2: int)
    requires
        is_date(y, m, d),
        is_date(y2, m2, d2),
        y < y2 || (y == y2 && (m < m2 || (m == m2 && d < d2))),
    ensures
        day_number(y, m, d) < day_number(y2, m2, d2),
{
    lemma_month_start(y);
    lemma_month_start(y2);
    lemma_year_start(y);
    lemma_year_start(y2);
    if y < y2 {
        lemma_leaps_between(y, y2 - 1);
        lemma_leaps_step(y);
    }
}

/// Later years have no fewer leap years before them.
proof fn lemma_leaps_between(a: int, b: int)
    requires
        a <= b,
    ensures
        leaps(a) <= leaps(b),
    decreases b - a,
{
    if a < b {
        lemma_leaps_between(a, b - 1);
        lemma_leaps_step(b);
    }
}

/// Every number of days is that of exactly one date.
pub proof fn every_day_has_one_date(z: int)
    ensures
        ({
            let (y, m, d) = date_of(z);
            is_date(y, m, d) && day_number(y, m, d) == z
        }),
        forall|y: int, m: int, d: int|
            is_date(y, m, d) && #[trigger] day_number(y, m, d) == z ==> date_of(z) == (y, m, d),
{
    let t = z + 719468;
    let era = t / 146097;
    let doe = t % 146097;
    lemma_fundamental_div_mod(t, 146097);
    let yoe = (doe - doe / 1460 + doe / 36524 - doe / 146096) / 365;
    let doy = doe - (365 * yoe + yoe / 4 - yoe / 100);
    let mp = (5 * doy + 2) / 153;
    lemma_civil(z, era, doe, yoe, doy, mp);
    let (y0, m0, d0) = date_of(z);
    assert(is_date(y0, m0, d0) && day_number(y0, m0, d0) == z);
    assert forall|y: int, m: int, d: int|
        is_date(y, m, d) && #[trigger] day_number(y, m, d) == z implies date_of(z) == (y, m, d) by {
        if y < y0 || (y == y0 && (m < m0 || (m == m0 && d < d0))) {
            later_dates_count_more(y, m, d, y0, m0, d0);
        } else if (y, m, d) != (y0, m0, d0) {
            later_dates_count_more(y0, m0, d0, y, m, d);
        }
    }
}

// ---------------------------------------------------------------------
// Executable functions
// ---------------------------------------------------------------------

/// The date so many days after the first of January 1970.
pub fn civil_from_days(z: i64) -> (r: (i64, u32, u32))
    requires
        z <= i64::MAX - 719_468,
    ensures
        (r.0 as int, r.1 as int, r.2 as int) == date_of(z as int),
{
    let days = z;
    let z: i64 = z + 719_468;
    let era: i64 = if z >= 0 {
        z / 146_097
    } else {
        -((146_096 - z) / 146_097)
    };
    let doe: i64 = z - era * 146_097;  // [0, 146096]
    let yoe: i64 = (doe - doe / 1460 + doe / 36524 - doe / 146_096) / 365;  // [0, 399]
    proof {
        let doy = doe - (365 * yoe + yoe / 4 - yoe / 100);
        lemma_civil(days as int, era as int, doe as int, yoe as int, doy, (5 * doy + 2) / 153);
        every_day_has_one_date(days as int);
    }
    let y: i64 = yoe + era * 400;
    let doy: i64 = doe - (365 * yoe + yoe / 4 - yoe / 100);  // [0, 365]
    let mp: i64 = (5 * doy + 2) / 153;  // [0, 11]
    let d: u32 = (doy - (153 * mp + 2) / 5 + 1) as u32;  // [1, 31]
    let m: u32 = (if mp < 10 {
        mp + 3
    } else {
        mp - 9
    }) as u32;  // [1, 12]
    let year: i64 = if m <= 2 {
        y + 1
    } else {
        y
    };
    (year, m, d)
}

/// Format a Unix timestamp (seconds since 1970-01-01T00:00:00Z) as
/// `YYYY-MM-DDTHH:MM:SSZ`.
#[must_use]
pub fn format_unix(secs: u64) -> (r: String)
    ensures
        r@ == time_text(secs as nat),
{
    let days: u64 = secs / 86400;
    let t: u64 = secs % 86400;
    let (year, month, day) = civil_from_days(days as i64);
    proof {
        every_day_has_one_date(days as int);
        lemma_year_not_before(year as int, month as int, day as int);
    }
    let mut out = String::new();
    text::push_padded(&mut out, year as u64, 4);
    out.append("-");
    text::push_padded(&mut out, month as u64, 2);
    out.append("-");
    text::push_padded(&mut out, day as u64, 2);
    out.append("T");
    text::push_padded(&mut out, t / 3600, 2);
    out.append(":");
    text::push_padded(&mut out, t % 3600 / 60, 2);
    out.append(":");
    text::push_padded(&mut out, t % 60, 2);
    out.append("Z");
    assert(out@ =~= time_text(secs as nat));
    out
}

/// A date that is not before 1970 has a year that is not.
pub proof fn lemma_year_not_before(y: int, m: int, d: int)
    requires
        is_date(y, m, d),
        day_number(y, m, d) >= 0,
    ensures
        y >= 1970,
{
    if y < 1970 {
        later_dates_count_more(y, m, d, 1970, 1, 1);
        reveal_with_fuel(month_start, 2);
    }
}

} // verus!
