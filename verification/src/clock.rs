//! Civil dates and timestamps in UTC.

use crate::db::{lemma_sign_in_time, naive_utc};
use crate::split::{is_sign, lemma_first_at};
use crate::text::{dec_zeros, fmt_dec_zeros};
use vstd::prelude::*;

verus! {

// ---- the calendar ---------------------------------------------------------

/// A leap year of the Gregorian calendar, extended in both directions.
pub open spec fn is_leap(y: int) -> bool {
    y % 4 == 0 && (y % 100 != 0 || y % 400 == 0)
}

/// 1 for a leap year, else 0.
pub open spec fn leap_day(y: int) -> int {
    if is_leap(y) {
        1
    } else {
        0
    }
}

/// The length of a month.
pub open spec fn month_len(y: int, m: int) -> int {
    if m == 2 {
        28 + leap_day(y)
    } else if m == 4 || m == 6 || m == 9 || m == 11 {
        30
    } else {
        31
    }
}

/// The days of a year before a month.
pub open spec fn days_before_month(y: int, m: int) -> int
    decreases m,
{
    if m <= 1 {
        0
    } else {
        days_before_month(y, m - 1) + month_len(y, m - 1)
    }
}

/// The days from 1970-01-01 to the first day of a year.
pub open spec fn year_start(y: int) -> int {
    365 * (y - 1970) + (y - 1) / 4 - (y - 1) / 100 + (y - 1) / 400 - 477
}

/// A date that exists.
pub open spec fn valid_date(y: int, m: int, d: int) -> bool {
    1 <= m <= 12 && 1 <= d <= month_len(y, m)
}

/// The days from 1970-01-01 to a date.
pub open spec fn day_number(y: int, m: int, d: int) -> int {
    year_start(y) + days_before_month(y, m) + d - 1
}

/// The date of a day.
pub open spec fn date_of(day: int) -> (int, int, int) {
    choose|c: (int, int, int)| #[trigger] is_date_of(c, day)
}

/// A date that exists and is that day.
pub open spec fn is_date_of(c: (int, int, int), day: int) -> bool {
    valid_date(c.0, c.1, c.2) && day_number(c.0, c.1, c.2) == day
}

proof fn lemma_step_by_4(y: int)
    ensures
        y / 4 == (y - 1) / 4 + if y % 4 == 0 {
            1int
        } else {
            0int
        },
{
}

proof fn lemma_step_by_100(y: int)
    ensures
        y / 100 == (y - 1) / 100 + if y % 100 == 0 {
            1int
        } else {
            0int
        },
        y % 100 == 0 ==> y % 4 == 0,
{
    if y % 100 == 0 {
        assert(y == 4 * (25 * (y / 100)));
    }
}

proof fn lemma_step_by_400(y: int)
    ensures
        y / 400 == (y - 1) / 400 + if y % 400 == 0 {
            1int
        } else {
            0int
        },
        y % 400 == 0 ==> y % 100 == 0,
{
    if y % 400 == 0 {
        assert(y == 100 * (4 * (y / 400)));
    }
}

#[verifier::spinoff_prover]
proof fn lemma_year_start_step(y: int)
    ensures
        year_start(y + 1) == year_start(y) + 365 + leap_day(y),
{
    lemma_step_by_4(y);
    lemma_step_by_100(y);
    lemma_step_by_400(y);
}

proof fn lemma_months(y: int)
    ensures
        days_before_month(y, 1) == 0,
        days_before_month(y, 2) == 31,
        days_before_month(y, 3) == 59 + leap_day(y),
        days_before_month(y, 4) == 90 + leap_day(y),
        days_before_month(y, 5) == 120 + leap_day(y),
        days_before_month(y, 6) == 151 + leap_day(y),
        days_before_month(y, 7) == 181 + leap_day(y),
        days_before_month(y, 8) == 212 + leap_day(y),
        days_before_month(y, 9) == 243 + leap_day(y),
        days_before_month(y, 10) == 273 + leap_day(y),
        days_before_month(y, 11) == 304 + leap_day(y),
        days_before_month(y, 12) == 334 + leap_day(y),
{
    assert(days_before_month(y, 1) == 0);
    assert(days_before_month(y, 2) == 31);
    assert(days_before_month(y, 3) == 59 + leap_day(y));
    assert(days_before_month(y, 4) == 90 + leap_day(y));
    assert(days_before_month(y, 5) == 120 + leap_day(y));
    assert(days_before_month(y, 6) == 151 + leap_day(y));
    assert(days_before_month(y, 7) == 181 + leap_day(y));
    assert(days_before_month(y, 8) == 212 + leap_day(y));
    assert(days_before_month(y, 9) == 243 + leap_day(y));
    assert(days_before_month(y, 10) == 273 + leap_day(y));
    assert(days_before_month(y, 11) == 304 + leap_day(y));
    assert(days_before_month(y, 12) == 334 + leap_day(y));
}

proof fn lemma_year_start_order(a: int, b: int)
    requires
        a < b,
    ensures
        year_start(a) + 365 + leap_day(a) <= year_start(b),
    decreases b - a,
{
    lemma_year_start_step(a);
    if a + 1 < b {
        lemma_year_start_order(a + 1, b);
    }
}

/// Every day has one date: two dates that are the same day are the same date.
pub proof fn law_date_is_unique(day: int, a: (int, int, int), b: (int, int, int))
    requires
        is_date_of(a, day),
        is_date_of(b, day),
    ensures
        a == b,
{
    lemma_months(a.0);
    lemma_months(b.0);
    if a.0 < b.0 {
        lemma_year_start_order(a.0, b.0);
    } else if b.0 < a.0 {
        lemma_year_start_order(b.0, a.0);
    }
}

/// A day and the date of the next: counting days is counting dates.
pub proof fn law_next_day(y: int, m: int, d: int)
    requires
        valid_date(y, m, d),
    ensures
        ({
            let next = if d < month_len(y, m) {
                (y, m, d + 1)
            } else if m < 12 {
                (y, m + 1, 1)
            } else {
                (y + 1, 1, 1)
            };
            is_date_of(next, day_number(y, m, d) + 1)
        }),
{
    lemma_months(y);
    lemma_months(y + 1);
    lemma_year_start_step(y);
}

/// The first of March, from which years are counted so that the leap day is last.
proof fn lemma_march(y: int)
    ensures
        day_number(y, 3, 1) == 365 * y + y / 4 - y / 100 + y / 400 - 719_468,
        year_start(y + 1) == day_number(y, 3, 1) + 306,
{
    lemma_months(y);
    lemma_year_start_step(y);
}

proof fn lemma_cycle(era: int, c: int, q: int, r: int)
    requires
        0 <= c < 4,
        0 <= q < 25,
        0 <= r < 4,
    ensures
        ({
            let y = 400 * era + 100 * c + 4 * q + r;
            &&& y / 4 == 100 * era + 25 * c + q
            &&& y / 100 == 4 * era + c
            &&& y / 400 == era
            &&& is_leap(y + 1) == (r == 3 && (q < 24 || c == 3))
        }),
{
    let y = 400 * era + 100 * c + 4 * q + r;
    assert(y == 4 * (100 * era + 25 * c + q) + r);
    assert(y == 100 * (4 * era + c) + (4 * q + r));
    assert(y == 400 * era + (100 * c + 4 * q + r));
}

/// The date of a day of the year that begins on the first of March of `y`.
proof fn lemma_date_in_year(y: int, doy: int, z: int)
    requires
        day_number(y, 3, 1) + doy == z || 365 * y + y / 4 - y / 100 + y / 400 - 719_468 + doy == z,
        0 <= doy <= 364 + leap_day(y + 1),
    ensures
        ({
            let mp = (5 * doy + 2) / 153;
            let d = doy - (153 * mp + 2) / 5 + 1;
            let date = if mp < 10 {
                (y, mp + 3, d)
            } else {
                (y + 1, mp - 9, d)
            };
            &&& is_date_of(date, z)
            &&& date_of(z) == date
        }),
{
    lemma_march(y);
    lemma_months(y);
    lemma_months(y + 1);
    let mp = (5 * doy + 2) / 153;
    let d = doy - (153 * mp + 2) / 5 + 1;
    let date = if mp < 10 {
        (y, mp + 3, d)
    } else {
        (y + 1, mp - 9, d)
    };
    assert(is_date_of(date, z));
    law_date_is_unique(z, date, date_of(z));
}

/// The date of a day by its 400-year cycle, the century, the 4-year group and the year
/// in it, each counted from the first of March.
#[verifier::spinoff_prover]
proof fn lemma_date_parts(era: int, c: int, q: int, r: int, doy: int, z: int)
    requires
        0 <= c < 4,
        0 <= q < 25,
        0 <= r < 4,
        0 <= doy <= 365,
        doy == 365 ==> r == 3 && (q < 24 || c == 3),
        z + 719_468 == 146_097 * era + 36_524 * c + 1461 * q + 365 * r + doy,
    ensures
        ({
            let y = 400 * era + 100 * c + 4 * q + r;
            let mp = (5 * doy + 2) / 153;
            let d = doy - (153 * mp + 2) / 5 + 1;
            let date = if mp < 10 {
                (y, mp + 3, d)
            } else {
                (y + 1, mp - 9, d)
            };
            &&& is_date_of(date, z)
            &&& date_of(z) == date
        }),
{
    let y = 400 * era + 100 * c + 4 * q + r;
    lemma_cycle(era, c, q, r);
    lemma_date_in_year(y, doy, z);
}

/// The date of a day, counted from 1970-01-01.
#[verifier::spinoff_prover]
pub fn civil_from_days(z: i64) -> (r: (i64, i64, i64))
    requires
        z <= i64::MAX - 719_468,
    ensures
        is_date_of((r.0 as int, r.1 as int, r.2 as int), z as int),
        (r.0 as int, r.1 as int, r.2 as int) == date_of(z as int),
{
    let z0: i64 = z + 719_468;
    // 400-year cycles from 0000-03-01, then centuries, 4-year groups and years in one.
    let era: i64 = if z0 >= 0 {
        z0 / 146_097
    } else {
        -((-z0 + 146_096) / 146_097)
    };
    let doe: i64 = z0 - era * 146_097;
    assert(0 <= doe <= 146_096);
    let c: i64 = if doe >= 109_572 {
        3
    } else {
        doe / 36_524
    };
    assert(0 <= c < 4);
    let doc: i64 = doe - c * 36_524;
    assert(0 <= doc <= 36_524);
    assert(doc == 36_524 ==> c == 3);
    let q: i64 = doc / 1461;
    assert(0 <= q < 25);
    let dog: i64 = doc - q * 1461;
    assert(0 <= dog <= 1460);
    assert(dog == 1460 ==> q < 24 || c == 3);
    let r: i64 = if dog >= 1095 {
        3
    } else {
        dog / 365
    };
    assert(0 <= r < 4);
    let doy: i64 = dog - r * 365;
    assert(0 <= doy <= 365);
    let y: i64 = era * 400 + c * 100 + q * 4 + r;
    proof {
        lemma_date_parts(era as int, c as int, q as int, r as int, doy as int, z as int);
    }
    let mp: i64 = (5 * doy + 2) / 153;
    let d: i64 = doy - (153 * mp + 2) / 5 + 1;
    if mp < 10 {
        (y, mp + 3, d)
    } else {
        (y + 1, mp - 9, d)
    }
}

// ---- timestamps -----------------------------------------------------------

/// The date and the time of day of an instant in UTC, in seconds since 1970-01-01:
/// `YYYY-MM-DDTHH:MM:SS`.
pub open spec fn date_time_text(secs: int) -> Seq<char> {
    let date = date_of(secs / 86_400);
    let sod = secs % 86_400;
    dec_zeros(date.0, 4) + "-"@ + dec_zeros(date.1, 2) + "-"@ + dec_zeros(date.2, 2) + "T"@
        + dec_zeros(sod / 3600, 2) + ":"@ + dec_zeros((sod % 3600) / 60, 2) + ":"@ + dec_zeros(
        sod % 60,
        2,
    )
}

/// Render an instant in UTC, in seconds since 1970-01-01: `YYYY-MM-DDTHH:MM:SSZ`.
pub fn rfc3339_utc(secs: i64) -> (r: String)
    ensures
        r@ == date_time_text(secs as int) + "Z"@,
{
    let days: i64 = if secs >= 0 {
        secs / 86_400
    } else {
        -1 - (-1 - secs) / 86_400
    };
    let sod: i64 = if secs >= 0 {
        secs % 86_400
    } else {
        86_399 - (-1 - secs) % 86_400
    };
    assert(days == secs as int / 86_400 && sod == secs as int % 86_400);
    let (y, m, d) = civil_from_days(days);
    let mut s = fmt_dec_zeros(y, 4);
    s.append("-");
    s.append(fmt_dec_zeros(m, 2).as_str());
    s.append("-");
    s.append(fmt_dec_zeros(d, 2).as_str());
    s.append("T");
    s.append(fmt_dec_zeros(sod / 3600, 2).as_str());
    s.append(":");
    s.append(fmt_dec_zeros((sod % 3600) / 60, 2).as_str());
    s.append(":");
    s.append(fmt_dec_zeros(sod % 60, 2).as_str());
    s.append("Z");
    s
}

/// A fraction of a second: none, or 3, 6 or 9 digits, as few as are needed.
pub open spec fn fraction_text(nanos: int) -> Seq<char> {
    if nanos == 0 {
        Seq::empty()
    } else if nanos % 1_000_000 == 0 {
        "."@ + dec_zeros(nanos / 1_000_000, 3)
    } else if nanos % 1_000 == 0 {
        "."@ + dec_zeros(nanos / 1_000, 6)
    } else {
        "."@ + dec_zeros(nanos, 9)
    }
}

/// What `chrono` renders an instant as, the Unix epoch standing for one that it does
/// not hold.
pub uninterp spec fn rfc3339_text(secs: int, nanos: int) -> Seq<char>;

/// Calls `chrono::DateTime::from_timestamp` and `to_rfc3339`. The result is a
/// function of the instant, named `rfc3339_text`. Claimed besides: from 1970 to 9999
/// it is the date, the time, a fraction of as many digits as are needed, and the
/// offset `+00:00`.
#[verifier::external_body]
fn chrono_rfc3339(secs: i64, nanos: u32) -> (r: String)
    requires
        nanos < 1_000_000_000,
    ensures
        r@ == rfc3339_text(secs as int, nanos as int),
        0 <= secs <= 253_402_300_799 ==> r@ == date_time_text(secs as int) + fraction_text(
            nanos as int,
        ) + "+00:00"@,
{
    chrono::DateTime::from_timestamp(secs, nanos).unwrap_or_default().to_rfc3339()
}

/// The timestamp of a dump made at an instant.
///
/// From 1970 to 9999 it carries a zero offset, so that a collector takes it: without
/// the offset it is the date, the time and the fraction.
pub fn emitted_at(secs: i64, nanos: u32) -> (r: String)
    requires
        nanos < 1_000_000_000,
    ensures
        r@ == rfc3339_text(secs as int, nanos as int),
        0 <= secs <= 253_402_300_799 ==> {
            &&& r@ == date_time_text(secs as int) + fraction_text(nanos as int) + "+00:00"@
            &&& naive_utc(r@) == Some(date_time_text(secs as int) + fraction_text(nanos as int))
        },
{
    let r = chrono_rfc3339(secs, nanos);
    proof {
        if 0 <= secs <= 253_402_300_799 {
            lemma_zero_offset(secs as int, nanos as int);
        }
    }
    r
}

proof fn lemma_zero_offset(secs: int, nanos: int)
    ensures
        naive_utc(date_time_text(secs) + fraction_text(nanos) + "+00:00"@) == Some(
            date_time_text(secs) + fraction_text(nanos),
        ),
{
    let date = date_of(secs / 86_400);
    reveal_strlit("T");
    reveal_strlit("+00:00");
    let before_t = dec_zeros(date.0, 4) + "-"@ + dec_zeros(date.1, 2) + "-"@ + dec_zeros(date.2, 2);
    let naive = date_time_text(secs) + fraction_text(nanos);
    let ts = naive + "+00:00"@;
    let t = before_t.len() as int;
    assert(naive[t] == 'T');
    let k = naive.len() as int;
    assert forall|i: int| k < i < ts.len() implies !is_sign(#[trigger] ts[i]) by {
        assert(ts[i] == "+00:00"@[i - k]);
    }
    assert(ts[t] == 'T');
    lemma_first_at(ts, 'T');
    assert(ts[k] == "+00:00"@[0]);
    lemma_sign_in_time(ts, k);
    assert(ts.skip(k) =~= "+00:00"@);
    assert(ts.take(k) =~= naive);
    assert(ts.last() == '0');
}

} // verus!
