//! UTC timestamps: days since the epoch to a civil date, and the
//! `YYYY-MM-DDTHH:MM:SSZ` form that claims and history records carry.
use vstd::prelude::*;

use crate::text::{decimal, decimal_exec, pad_zeros, pad_zeros_exec, push_all, string_of};

verus! {

/// The civil date (year, month, day) of `z` days after 0000-03-01, in the
/// proleptic Gregorian calendar (eras of 400 years, years starting in March).
pub open spec fn civil_from_days(z: int) -> (int, int, int) {
    let era = z / 146097;
    let doe = z - era * 146097;
    let yoe = (doe - doe / 1460 + doe / 36524 - doe / 146096) / 365;
    let y = yoe + era * 400;
    let doy = doe - (365 * yoe + yoe / 4 - yoe / 100);
    let mp = (5 * doy + 2) / 153;
    let d = doy - (153 * mp + 2) / 5 + 1;
    let m = if mp < 10 {
        mp + 3
    } else {
        mp - 9
    };
    (if m <= 2 {
        y + 1
    } else {
        y
    }, m, d)
}

/// The number of days from 0000-03-01 to the given civil date.
pub open spec fn days_from_civil(y: int, m: int, d: int) -> int {
    let y1 = if m <= 2 {
        y - 1
    } else {
        y
    };
    let era = y1 / 400;
    let yoe = y1 - era * 400;
    let mp = if m > 2 {
        m - 3
    } else {
        m + 9
    };
    let doy = (153 * mp + 2) / 5 + d - 1;
    let doe = yoe * 365 + yoe / 4 - yoe / 100 + doy;
    era * 146097 + doe
}

proof fn lemma_doe_parts(doe: int)
    requires
        0 <= doe < 146097,
    ensures
        0 <= (doe - doe / 1460 + doe / 36524 - doe / 146096) / 365 <= 399,
        ({
            let yoe = (doe - doe / 1460 + doe / 36524 - doe / 146096) / 365;
            let doy = doe - (365 * yoe + yoe / 4 - yoe / 100);
            0 <= doy <= 365
        }),
{
    assert(0 <= (doe - doe / 1460 + doe / 36524 - doe / 146096) / 365 <= 399) by (nonlinear_arith)
        requires
            0 <= doe < 146097,
    ;
    let yoe = (doe - doe / 1460 + doe / 36524 - doe / 146096) / 365;
    assert(0 <= doe - (365 * yoe + yoe / 4 - yoe / 100) <= 365) by (nonlinear_arith)
        requires
            0 <= doe < 146097,
            yoe == (doe - doe / 1460 + doe / 36524 - doe / 146096) / 365,
    ;
}

/// The date of a day number counts back to that day number: `civil_from_days`
/// inverts the day count `days_from_civil`, so distinct days get distinct dates.
pub proof fn law_date_counts_back(z: int)
    ensures
        ({
            let c = civil_from_days(z);
            days_from_civil(c.0, c.1, c.2) == z
        }),
{
    let era = z / 146097;
    let doe = z - era * 146097;
    assert(0 <= doe < 146097) by (nonlinear_arith)
        requires
            era == z / 146097,
            doe == z - era * 146097,
    ;
    lemma_doe_parts(doe);
    let yoe = (doe - doe / 1460 + doe / 36524 - doe / 146096) / 365;
    let y = yoe + era * 400;
    assert(y / 400 == era && y - (y / 400) * 400 == yoe) by (nonlinear_arith)
        requires
            y == yoe + era * 400,
            0 <= yoe <= 399,
    ;
    let doy = doe - (365 * yoe + yoe / 4 - yoe / 100);
    let mp = (5 * doy + 2) / 153;
    assert(0 <= mp <= 11) by (nonlinear_arith)
        requires
            0 <= doy <= 365,
            mp == (5 * doy + 2) / 153,
    ;
}

// ---------------------------------------------------------------------------
// The calendar
// ---------------------------------------------------------------------------

/// A Gregorian leap year.
pub open spec fn is_leap(y: int) -> bool {
    y % 4 == 0 && (y % 100 != 0 || y % 400 == 0)
}

/// The number of days of month `m` (1 to 12) of year `y`.
pub open spec fn days_in_month(y: int, m: int) -> int {
    if m == 2 {
        if is_leap(y) {
            29
        } else {
            28
        }
    } else if m == 4 || m == 6 || m == 9 || m == 11 {
        30
    } else {
        31
    }
}

/// The calendar day after `(y, m, d)`.
pub open spec fn next_day(y: int, m: int, d: int) -> (int, int, int) {
    if d < days_in_month(y, m) {
        (y, m, d + 1)
    } else if m < 12 {
        (y, m + 1, 1)
    } else {
        (y + 1, 1, 1)
    }
}

/// Within an era of 400 years that start in March: the year of day `doe`.
spec fn yoe_of(doe: int) -> int {
    (doe - doe / 1460 + doe / 36524 - doe / 146096) / 365
}

/// The first day of year `yoe` of an era.
spec fn ystart(yoe: int) -> int {
    365 * yoe + yoe / 4 - yoe / 100
}

/// The length of year `yoe` of an era (the last one ends on a 29 February).
spec fn year_len(yoe: int) -> int {
    if yoe == 399 {
        366
    } else {
        ystart(yoe + 1) - ystart(yoe)
    }
}

proof fn lemma_yoe_of_start(yoe: int, doy: int)
    requires
        0 <= yoe <= 399,
        0 <= doy < year_len(yoe),
    ensures
        yoe_of(ystart(yoe) + doy) == yoe,
{
    let q = yoe / 4;
    let p = yoe / 100;
    let doe = ystart(yoe) + doy;
    assert(doe == 1461 * q + 365 * (yoe - 4 * q) - p + doy);
}

proof fn lemma_doe_year(doe: int)
    requires
        0 <= doe < 146097,
    ensures
        0 <= yoe_of(doe) <= 399,
        0 <= doe - ystart(yoe_of(doe)) < year_len(yoe_of(doe)),
{
    lemma_doe_parts(doe);
    let yoe = yoe_of(doe);
    let doy = doe - ystart(yoe);
    assert(365 <= year_len(yoe) <= 366);
    if doy >= year_len(yoe) {
        lemma_yoe_of_start(yoe + 1, 0);
    }
}

/// Within a year that starts in March: the first day of month `mp`
/// (0 for March, 11 for February).
spec fn mstart(mp: int) -> int {
    (153 * mp + 2) / 5
}

spec fn month_of(doy: int) -> int {
    (5 * doy + 2) / 153
}

proof fn lemma_month_of(doy: int)
    requires
        0 <= doy <= 365,
    ensures
        0 <= month_of(doy) <= 11,
        mstart(month_of(doy)) <= doy,
        month_of(doy) < 11 ==> doy < mstart(month_of(doy) + 1),
{
}

proof fn lemma_month_of_unique(k: int, doy: int)
    requires
        0 <= k <= 11,
        mstart(k) <= doy <= 365,
        k < 11 ==> doy < mstart(k + 1),
    ensures
        month_of(doy) == k,
{
}

/// The civil date of day `doe` of era `era`.
spec fn civil_of(era: int, doe: int) -> (int, int, int) {
    let yoe = yoe_of(doe);
    let doy = doe - ystart(yoe);
    let mp = month_of(doy);
    let m = if mp < 10 {
        mp + 3
    } else {
        mp - 9
    };
    (if m <= 2 {
        yoe + era * 400 + 1
    } else {
        yoe + era * 400
    }, m, doy - mstart(mp) + 1)
}

proof fn lemma_civil_in_era(z: int, era: int, doe: int)
    requires
        z == era * 146097 + doe,
        0 <= doe < 146097,
    ensures
        civil_from_days(z) == civil_of(era, doe),
{
    assert(z / 146097 == era);
}

/// The last month of a year that starts in March has 29 days exactly when the
/// civil year it falls in is a leap year.
proof fn lemma_leap_year_len(era: int, yoe: int)
    requires
        0 <= yoe <= 399,
    ensures
        (year_len(yoe) == 366) == is_leap(yoe + era * 400 + 1),
        365 <= year_len(yoe) <= 366,
{
    let x = yoe + 1;
    let y = yoe + era * 400 + 1;
    assert(y % 4 == x % 4) by {
        vstd::arithmetic::div_mod::lemma_mod_multiples_vanish(era * 100, x, 4);
        assert(4 * (era * 100) + x == y);
    }
    assert(y % 100 == x % 100) by {
        vstd::arithmetic::div_mod::lemma_mod_multiples_vanish(era * 4, x, 100);
        assert(100 * (era * 4) + x == y);
    }
    assert(y % 400 == x % 400) by {
        vstd::arithmetic::div_mod::lemma_mod_multiples_vanish(era, x, 400);
        assert(400 * era + x == y);
    }
    assert(1 <= x <= 400);
    assert((year_len(yoe) == 366) == (x == 400 || (x % 4 == 0 && x % 100 != 0)));
}

/// Month `mp` of era year `yoe` has as many days as the civil month it is.
proof fn lemma_month_len(era: int, yoe: int, mp: int)
    requires
        0 <= yoe <= 399,
        0 <= mp <= 11,
    ensures
        ({
            let m = if mp < 10 {
                mp + 3
            } else {
                mp - 9
            };
            let cy = if m <= 2 {
                yoe + era * 400 + 1
            } else {
                yoe + era * 400
            };
            days_in_month(cy, m) == if mp < 11 {
                mstart(mp + 1) - mstart(mp)
            } else {
                year_len(yoe) - mstart(11)
            }
        }),
{
    lemma_leap_year_len(era, yoe);
}

/// Every day number names a real calendar day, and the next day number names
/// the next day: the date of `z` has a month from 1 to 12 and a day within
/// that month's length, and the date of `z + 1` is the calendar day after it.
/// Day 0 is 0000-03-01 and day 719468 is 1970-01-01.
pub proof fn law_days_follow_the_calendar(z: int)
    ensures
        ({
            let c = civil_from_days(z);
            &&& 1 <= c.1 <= 12
            &&& 1 <= c.2 <= days_in_month(c.0, c.1)
            &&& civil_from_days(z + 1) == next_day(c.0, c.1, c.2)
        }),
        civil_from_days(0) == (0int, 3int, 1int),
        civil_from_days(719468) == (1970int, 1int, 1int),
{
    let era = z / 146097;
    let doe = z - era * 146097;
    assert(0 <= doe < 146097);
    lemma_civil_in_era(z, era, doe);
    lemma_doe_year(doe);
    let yoe = yoe_of(doe);
    let doy = doe - ystart(yoe);
    lemma_month_of(doy);
    let mp = month_of(doy);
    lemma_month_len(era, yoe, mp);
    lemma_leap_year_len(era, yoe);
    if doe + 1 < 146097 {
        lemma_civil_in_era(z + 1, era, doe + 1);
        if doy + 1 < year_len(yoe) {
            lemma_yoe_of_start(yoe, doy + 1);
            assert(yoe_of(doe + 1) == yoe);
            if mp < 11 && doy + 1 == mstart(mp + 1) {
                lemma_month_of_unique(mp + 1, doy + 1);
            } else {
                lemma_month_of_unique(mp, doy + 1);
            }
        } else {
            assert(yoe < 399);
            lemma_yoe_of_start(yoe + 1, 0);
            assert(yoe_of(doe + 1) == yoe + 1);
            lemma_month_of_unique(0, 0);
        }
    } else {
        lemma_civil_in_era(z + 1, era + 1, 0);
        lemma_yoe_of_start(0, 0);
        lemma_month_of_unique(0, 0);
    }
    lemma_civil_in_era(0, 0, 0);
    lemma_yoe_of_start(0, 0);
    lemma_month_of_unique(0, 0);
    lemma_civil_in_era(719468, 4, 135080);
    lemma_yoe_of_start(369, 306);
    lemma_month_of_unique(10, 306);
}

/// The civil date of `z` days after 0000-03-01 (Howard Hinnant's algorithm):
/// `(year, month, day)`.
pub fn days_to_ymd(z: i64) -> (r: (i64, u32, u32))
    requires
        z >= i64::MIN + 146097,
    ensures
        r.0 as int == civil_from_days(z as int).0,
        r.1 as int == civil_from_days(z as int).1,
        r.2 as int == civil_from_days(z as int).2,
        1 <= r.1 <= 12,
        1 <= r.2 <= 31,
        r.2 <= days_in_month(r.0 as int, r.1 as int),
{
    proof {
        law_days_follow_the_calendar(z as int);
    }
    let era: i64 = z.checked_div_euclid(146_097).unwrap();
    assert(era * 146097 <= z && z < era * 146097 + 146097) by (nonlinear_arith)
        requires
            era == z / 146097,
    ;
    let doe: i64 = z - era * 146_097;
    let ghost doe_i = doe as int;
    proof {
        lemma_doe_parts(doe_i);
    }
    let doe_u: u64 = doe as u64;
    let yoe_u: u64 = (doe_u - doe_u / 1460 + doe_u / 36524 - doe_u / 146_096) / 365;
    let yoe: i64 = yoe_u as i64;
    assert(i64::MIN <= era * 400 && era * 400 + 399 <= i64::MAX) by (nonlinear_arith)
        requires
            era * 146097 <= z < era * 146097 + 146097,
            z >= i64::MIN + 146097,
            z <= i64::MAX,
    ;
    let y: i64 = yoe + era * 400;
    let doy_u: u64 = doe_u - (365 * yoe_u + yoe_u / 4 - yoe_u / 100);
    let mp_u: u64 = (5 * doy_u + 2) / 153;
    assert(mp_u <= 11) by (nonlinear_arith)
        requires
            doy_u <= 365,
            mp_u == (5 * doy_u + 2) / 153,
    ;
    assert(1 <= doy_u - (153 * mp_u + 2) / 5 + 1 <= 31) by (nonlinear_arith)
        requires
            doy_u <= 365,
            mp_u == (5 * doy_u + 2) / 153,
    ;
    let d: u32 = (doy_u - (153 * mp_u + 2) / 5 + 1) as u32;
    let m: u32 = (if mp_u < 10 {
        mp_u + 3
    } else {
        mp_u - 9
    }) as u32;
    let y2: i64 = if m <= 2 {
        y + 1
    } else {
        y
    };
    (y2, m, d)
}

/// `YYYY-MM-DDTHH:MM:SSZ` for a time given in seconds.
pub open spec fn iso_of(y: int, m: int, d: int, hh: int, mm: int, ss: int) -> Seq<char> {
    pad_zeros(decimal(y as nat), 4) + seq!['-'] + pad_zeros(decimal(m as nat), 2) + seq!['-']
        + pad_zeros(decimal(d as nat), 2) + seq!['T'] + pad_zeros(decimal(hh as nat), 2) + seq![':']
        + pad_zeros(decimal(mm as nat), 2) + seq![':'] + pad_zeros(decimal(ss as nat), 2) + seq![
        'Z',
    ]
}

/// The UTC time `secs` seconds after 1970-01-01T00:00:00Z, as ISO 8601.
pub open spec fn format_secs(secs: nat) -> Seq<char> {
    let days: int = secs as int / 86400;
    let t: int = secs as int % 86400;
    let c = civil_from_days(days + 719468);
    iso_of(c.0, c.1, c.2, t / 3600, (t % 3600) / 60, t % 60)
}

fn push_padded(v: &mut Vec<char>, n: u64, w: usize)
    ensures
        final(v)@ == old(v)@ + pad_zeros(decimal(n as nat), w as nat),
{
    let digits = decimal_exec(n);
    let padded = pad_zeros_exec(&digits, w);
    push_all(v, &padded);
}

/// Formats `secs` seconds after the Unix epoch as `YYYY-MM-DDTHH:MM:SSZ` (UTC).
pub fn format_unix_seconds(secs: u64) -> (r: String)
    ensures
        r@ == format_secs(secs as nat),
{
    let day_secs: u64 = 86_400;
    let days: u64 = secs / day_secs;
    let time_in_day: u64 = secs % day_secs;
    let hh = time_in_day / 3600;
    let mm = (time_in_day % 3600) / 60;
    let ss = time_in_day % 60;
    assert(days <= 213503982334601);
    let (y, mo, d) = days_to_ymd(days as i64 + 719_468);
    let ghost c = civil_from_days(days as int + 719468);
    assert(y >= 0) by (nonlinear_arith)
        requires
            y as int == c.0,
            c == civil_from_days(days as int + 719468),
            days >= 0,
    {
        assert(c.0 >= 0);
    }
    let mut v: Vec<char> = Vec::new();
    push_padded(&mut v, y as u64, 4);
    v.push('-');
    push_padded(&mut v, mo as u64, 2);
    v.push('-');
    push_padded(&mut v, d as u64, 2);
    v.push('T');
    push_padded(&mut v, hh, 2);
    v.push(':');
    push_padded(&mut v, mm, 2);
    v.push(':');
    push_padded(&mut v, ss, 2);
    v.push('Z');
    assert(v@ =~= format_secs(secs as nat));
    string_of(&v)
}

#[verifier::external_type_specification]
#[verifier::external_body]
pub struct ExSystemTime(std::time::SystemTime);

/// `SystemTime::now`: the system clock's reading. It depends on when it is
/// called, so nothing is stated of it.
#[verifier::external_body]
fn clock_now() -> (r: std::time::SystemTime) {
    std::time::SystemTime::now()
}

/// `SystemTime::duration_since(UNIX_EPOCH)`: the time since the Unix epoch,
/// `None` for a reading before it (the error case). Nothing is stated of the
/// duration, which depends on the reading.
#[verifier::external_body]
fn since_epoch(t: &std::time::SystemTime) -> (r: Option<std::time::Duration>) {
    match t.duration_since(std::time::UNIX_EPOCH) {
        Ok(d) => Some(d),
        Err(_) => None,
    }
}

/// `Duration::as_secs`: the whole seconds of a duration. The duration is
/// opaque here, so nothing is stated of the result.
#[verifier::external_body]
fn whole_secs(d: &std::time::Duration) -> (r: u64) {
    d.as_secs()
}

/// Whole seconds since the Unix epoch by the system clock, 0 when the clock
/// reads earlier than the epoch.
fn unix_now() -> (r: u64) {
    match since_epoch(&clock_now()) {
        Some(d) => whole_secs(&d),
        None => 0,
    }
}

/// The current UTC time as `YYYY-MM-DDTHH:MM:SSZ`.
pub fn iso_now() -> (r: String)
    ensures
        exists|secs: u64| r@ == format_secs(secs as nat),
{
    let secs = unix_now();
    format_unix_seconds(secs)
}

} // verus!
