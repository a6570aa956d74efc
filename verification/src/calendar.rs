//! The calendar: numbering days from the first day of 1970, and the stamps
//! `yyyymmddhhmmss` of moments in local time, which is eight hours ahead of UTC.

use vstd::prelude::*;

verus! {

/// Division that rounds towards zero, for a positive divisor.
pub open spec fn div_to_zero(a: int, b: int) -> int {
    if a >= 0 {
        a / b
    } else {
        -((-a) / b)
    }
}

/// The remainder of that division; it has the sign of `a`.
pub open spec fn rem_to_zero(a: int, b: int) -> int {
    if a >= 0 {
        a % b
    } else {
        -((-a) % b)
    }
}

/// The year in which the March before month `m` of year `y` lies.
pub open spec fn march_year(y: int, m: int) -> int {
    if m <= 2 {
        y - 1
    } else {
        y
    }
}

/// How many months month `m` comes after March.
pub open spec fn march_month(m: int) -> int {
    rem_to_zero(m + 9, 12)
}

/// Days before the month that comes `mp` months after March, counted from March.
pub open spec fn month_start(mp: int) -> int {
    div_to_zero(153 * mp + 2, 5)
}

/// Days of the first `yoe` years of an era of 400 years, where a year begins in
/// March.
pub open spec fn year_start(yoe: int) -> int {
    yoe * 365 + yoe / 4 - yoe / 100
}

/// The number of the day `d` of month `m` of year `y`, counted from the first
/// day of 1970.
pub open spec fn civil_days(y: int, m: int, d: int) -> int {
    let my = march_year(y, m);
    my / 400 * 146097 + year_start(my % 400) + month_start(march_month(m)) + d - 1 - 719468
}

/// The steps of the computation of `civil_days` stay within 64 bits.
pub open spec fn civil_fits(y: int, m: int, d: int) -> bool {
    let my = march_year(y, m);
    let doy = month_start(march_month(m)) + d - 1;
    let doe = year_start(my % 400) + doy;
    &&& i64::MIN <= my
    &&& m + 9 <= i64::MAX
    &&& i64::MIN <= doy && doy + 1 <= i64::MAX
    &&& doe <= i64::MAX
    &&& i64::MIN <= my / 400 * 146097 <= i64::MAX
    &&& i64::MIN <= my / 400 * 146097 + doe <= i64::MAX
    &&& i64::MIN <= civil_days(y, m, d)
}

/// The number of the day `d` of month `m` of year `y`, counted from the first
/// day of 1970. Months and days outside of the calendar are not rejected.
pub fn days_from_civil(y: i64, m: i64, d: i64) -> (days: i64)
    requires
        civil_fits(y as int, m as int, d as int),
    ensures
        days == civil_days(y as int, m as int, d as int),
{
    let y = if m <= 2 {
        y - 1
    } else {
        y
    };
    let era = y.checked_div_euclid(400).unwrap();
    let yoe = y - era * 400;
    let mp = (m + 9).checked_rem(12).unwrap();
    let doy = (153 * mp + 2).checked_div(5).unwrap() + d - 1;
    let doe = yoe * 365 + yoe / 4 - yoe / 100 + doy;
    era * 146097 + doe - 719468
}

/// Seconds from the first moment of 1970 to the given moment, all in one zone.
pub open spec fn epoch_of(y: int, mo: int, d: int, hh: int, mm: int, ss: int) -> int {
    civil_days(y, mo, d) * 86400 + hh * 3600 + mm * 60 + ss
}

/// Seconds from the first moment of 1970 to the given moment.
pub fn epoch_secs(y: u64, mo: u64, d: u64, hh: u64, mm: u64, ss: u64) -> (epoch: i64)
    requires
        y <= i64::MAX,
        mo <= i64::MAX,
        d <= i64::MAX,
        civil_fits(y as int, mo as int, d as int),
        hh * 3600 <= i64::MAX,
        mm * 60 <= i64::MAX,
        ss <= i64::MAX,
        i64::MIN <= civil_days(y as int, mo as int, d as int) * 86400 <= i64::MAX,
        civil_days(y as int, mo as int, d as int) * 86400 + hh * 3600 <= i64::MAX,
        civil_days(y as int, mo as int, d as int) * 86400 + hh * 3600 + mm * 60 <= i64::MAX,
        epoch_of(y as int, mo as int, d as int, hh as int, mm as int, ss as int) <= i64::MAX,
    ensures
        epoch == epoch_of(y as int, mo as int, d as int, hh as int, mm as int, ss as int),
{
    days_from_civil(y as i64, mo as i64, d as i64) * 86400 + hh as i64 * 3600 + mm as i64 * 60
        + ss as i64
}

/// The year of an era to which its day `doe` belongs.
pub open spec fn year_of_era(doe: int) -> int {
    (doe - doe / 1460 + doe / 36524 - doe / 146096) / 365
}

/// Year, month and day of the day with number `days`.
pub open spec fn date_of(days: int) -> (int, int, int) {
    let z = days + 719468;
    let era = z / 146097;
    let doe = z % 146097;
    let yoe = year_of_era(doe);
    let doy = doe - year_start(yoe);
    let mp = (5 * doy + 2) / 153;
    let d = doy - (153 * mp + 2) / 5 + 1;
    let m = if mp < 10 {
        mp + 3
    } else {
        mp - 9
    };
    let y = if m <= 2 {
        yoe + era * 400 + 1
    } else {
        yoe + era * 400
    };
    (y, m, d)
}

/// A moment as the number whose decimal digits are `yyyymmddhhmmss`.
pub open spec fn stamp(y: int, mo: int, d: int, hh: int, mm: int, ss: int) -> int {
    y * 10000000000 + mo * 100000000 + d * 1000000 + hh * 10000 + mm * 100 + ss
}

/// The stamp, eight hours ahead of UTC, of the moment `epoch` seconds after the
/// first moment of 1970.
pub open spec fn local_stamp(epoch: int) -> int {
    let local = epoch + 28800;
    let (y, m, d) = date_of(local / 86400);
    let sod = local % 86400;
    stamp(y, m, d, sod / 3600, sod % 3600 / 60, sod % 60)
}

/// What 64 unsigned bits keep of a number.
pub open spec fn low_64(n: int) -> int {
    n % 0x1_0000_0000_0000_0000
}

/// A day of an era lies in the year that is computed for it.
#[verifier::spinoff_prover]
proof fn lemma_year_of_era(doe: int)
    requires
        0 <= doe < 146097,
    ensures
        0 <= year_of_era(doe) < 400,
        year_start(year_of_era(doe)) <= doe,
        doe < year_start(year_of_era(doe) + 1) || doe == 146096,
{
}

proof fn lemma_day_of_year(doe: int)
    requires
        0 <= doe < 146097,
    ensures
        0 <= year_of_era(doe) < 400,
        0 <= doe - year_start(year_of_era(doe)) <= 365,
{
    lemma_year_of_era(doe);
}

proof fn lemma_cast_low(y: i64)
    ensures
        (y as u64) as int == low_64(y as int),
{
    assert(y >= 0 ==> (y as u64) == y) by (bit_vector);
    assert(y < 0 ==> (y as u64) == y + 0x1_0000_0000_0000_0000) by (bit_vector);
    if y < 0 {
        assert(low_64(y + 0x1_0000_0000_0000_0000) == low_64(y as int));
    }
}

/// Year, month and day of the day with number `days`.
fn civil_from_days(days: i64) -> (date: (i64, i64, i64))
    requires
        -200000000000000 <= days <= 200000000000000,
    ensures
        (date.0 as int, date.1 as int, date.2 as int) == date_of(days as int),
        1 <= date.1 <= 12,
        1 <= date.2 <= 31,
{
    let z = days + 719468;
    let era = z.checked_div_euclid(146097).unwrap();
    let doe = z - era * 146097;
    proof {
        lemma_day_of_year(doe as int);
    }
    let yoe = (doe - doe / 1460 + doe / 36524 - doe / 146096) / 365;
    let doy = doe - (365 * yoe + yoe / 4 - yoe / 100);
    let mp = (5 * doy + 2) / 153;
    let d = doy - (153 * mp + 2) / 5 + 1;
    let m = if mp < 10 {
        mp + 3
    } else {
        mp - 9
    };
    let mut y = yoe + era * 400;
    if m <= 2 {
        y += 1;
    }
    (y, m, d)
}

/// A year and the ten digits behind it, as far as 64 bits hold them.
fn join_stamp(y: i64, rest: u64) -> (n: u64)
    ensures
        n == low_64(y * 10000000000 + rest),
{
    let high: u64 = (y as u64).wrapping_mul(10000000000);
    proof {
        lemma_cast_low(y);
        vstd::arithmetic::div_mod::lemma_mul_mod_noop_left(
            y as int,
            10000000000,
            0x1_0000_0000_0000_0000,
        );
        vstd::arithmetic::div_mod::lemma_add_mod_noop_right(
            rest as int,
            y * 10000000000,
            0x1_0000_0000_0000_0000,
        );
    }
    high.wrapping_add(rest)
}

/// The stamp, in local time, of the moment `epoch` seconds after the first
/// moment of 1970, as far as 64 bits hold it.
pub fn num_from_epoch(epoch: i64) -> (n: u64)
    requires
        epoch + 28800 <= i64::MAX,
    ensures
        n == low_64(local_stamp(epoch as int)),
{
    let local = epoch + 28800;
    let days = local.checked_div_euclid(86400).unwrap();
    let sod = local.checked_rem_euclid(86400).unwrap() as u64;
    let (y, m, d) = civil_from_days(days);
    let rest: u64 = m as u64 * 100000000 + d as u64 * 1000000 + sod / 3600 * 10000 + sod % 3600 / 60
        * 100 + sod % 60;
    join_stamp(y, rest)
}

/// The year `y` has a 29th of February.
pub open spec fn is_leap(y: int) -> bool {
    y % 4 == 0 && (y % 100 != 0 || y % 400 == 0)
}

/// How many days month `m` of year `y` has.
pub open spec fn month_days(y: int, m: int) -> int {
    if m == 2 {
        if is_leap(y) {
            29
        } else {
            28
        }
    } else if m == 4 || m == 6 || m == 9 || m == 11 {
        30
    } else {
        31
    }
}

/// The calendar has a day `d` of month `m` of year `y`.
pub open spec fn valid_date(y: int, m: int, d: int) -> bool {
    1 <= m <= 12 && 1 <= d <= month_days(y, m)
}

/// Days are numbered one after the other, from the first day of 1970 on.
pub proof fn law_days_in_order(y: int, m: int, d: int)
    requires
        1 <= m <= 12,
    ensures
        civil_days(1970, 1, 1) == 0,
        civil_days(y, m, d + 1) == civil_days(y, m, d) + 1,
        m < 12 ==> civil_days(y, m + 1, 1) == civil_days(y, m, month_days(y, m)) + 1,
        m == 12 ==> civil_days(y + 1, 1, 1) == civil_days(y, m, month_days(y, m)) + 1,
{
    let my = march_year(y, m);
    lemma_leap_year(my / 400, my % 400);
    if m == 2 {
        assert(y == my % 400 + my / 400 * 400 + 1);
        if my % 400 == 399 {
            assert(y / 400 == my / 400 + 1 && y % 400 == 0);
        } else {
            assert(y / 400 == my / 400 && y % 400 == my % 400 + 1);
        }
    }
}

/// How many days the month has at most that comes `mp` months after March.
spec fn march_month_days(mp: int) -> int {
    if mp == 11 {
        29
    } else if mp == 1 || mp == 3 || mp == 6 || mp == 8 {
        30
    } else {
        31
    }
}

proof fn lemma_month_of_day(doy: int)
    requires
        0 <= doy <= 365,
    ensures
        ({
            let mp = (5 * doy + 2) / 153;
            let d = doy - (153 * mp + 2) / 5 + 1;
            0 <= mp <= 11 && 1 <= d <= march_month_days(mp) && (mp == 11 && d == 29 <==> doy == 365)
        }),
{
}

proof fn lemma_day_of_month(mp: int, d: int)
    requires
        0 <= mp <= 11,
        1 <= d <= march_month_days(mp),
    ensures
        ({
            let doy = (153 * mp + 2) / 5 + d - 1;
            0 <= doy <= 365 && (5 * doy + 2) / 153 == mp && (mp == 11 && d == 29 <==> doy == 365)
        }),
{
}

/// The eras repeat the leap years.
proof fn lemma_leap_in_era(era: int, n: int)
    ensures
        is_leap(n + era * 400) <==> is_leap(n),
{
    assert((n + era * 400) % 4 == n % 4) by {
        vstd::arithmetic::div_mod::lemma_mod_multiples_vanish(era * 100, n, 4);
    }
    assert((n + era * 400) % 100 == n % 100) by {
        vstd::arithmetic::div_mod::lemma_mod_multiples_vanish(era * 4, n, 100);
    }
    assert((n + era * 400) % 400 == n % 400) by {
        vstd::arithmetic::div_mod::lemma_mod_multiples_vanish(era, n, 400);
    }
}

proof fn lemma_quotient_step(n: int, k: int)
    requires
        0 <= n,
        k == 4 || k == 100,
    ensures
        (n + 1) / k == n / k + (if (n + 1) % k == 0 { 1int } else { 0 }),
{
}

/// The year that begins in March of the year `yoe` of an era has 366 days
/// exactly if the next February has 29.
proof fn lemma_leap_year(era: int, yoe: int)
    requires
        0 <= yoe < 400,
    ensures
        is_leap(yoe + era * 400 + 1) <==> yoe == 399 || year_start(yoe + 1) == year_start(yoe) + 366,
        year_start(yoe + 1) == year_start(yoe) + 365 || year_start(yoe + 1) == year_start(yoe) + 366,
{
    lemma_leap_in_era(era, yoe + 1);
    lemma_quotient_step(yoe, 4);
    lemma_quotient_step(yoe, 100);
}

proof fn lemma_year_start_grows(a: int, b: int)
    requires
        0 <= a <= b,
    ensures
        year_start(a) <= year_start(b),
{
}

proof fn lemma_year_found(era: int, yoe: int, doy: int)
    requires
        0 <= yoe < 400,
        0 <= doy <= 364 || (doy == 365 && is_leap(yoe + era * 400 + 1)),
    ensures
        0 <= year_start(yoe) + doy < 146097,
        year_of_era(year_start(yoe) + doy) == yoe,
{
    lemma_leap_year(era, yoe);
    let doe = year_start(yoe) + doy;
    lemma_year_start_grows(0, yoe);
    if yoe < 399 {
        lemma_year_start_grows(yoe + 1, 399);
    }
    lemma_year_of_era(doe);
    let found = year_of_era(doe);
    if found < yoe {
        lemma_year_start_grows(found + 1, yoe);
    } else if found > yoe {
        lemma_year_start_grows(yoe + 1, found);
    }
}

/// Every day has a date of the calendar, and that date is on that day.
pub proof fn law_date_of_day(days: int)
    ensures
        valid_date(date_of(days).0, date_of(days).1, date_of(days).2),
        civil_days(date_of(days).0, date_of(days).1, date_of(days).2) == days,
{
    let z = days + 719468;
    let era = z / 146097;
    let doe = z % 146097;
    lemma_year_of_era(doe);
    let yoe = year_of_era(doe);
    lemma_leap_year(era, yoe);
    let doy = doe - year_start(yoe);
    lemma_month_of_day(doy);
    let (y, m, d) = date_of(days);
    let mp = (5 * doy + 2) / 153;
    assert(march_month(m) == mp);
    assert(march_year(y, m) == yoe + era * 400);
    assert((yoe + era * 400) / 400 == era && (yoe + era * 400) % 400 == yoe);
}

/// The date of the day on which a date of the calendar falls is that date.
pub proof fn law_day_of_date(y: int, m: int, d: int)
    requires
        valid_date(y, m, d),
    ensures
        date_of(civil_days(y, m, d)) == (y, m, d),
{
    let my = march_year(y, m);
    let mp = march_month(m);
    let era = my / 400;
    let yoe = my % 400;
    assert(mp == if m <= 2 { m + 9 } else { m - 3 });
    lemma_leap_year(era, yoe);
    lemma_day_of_month(mp, d);
    let doy = (153 * mp + 2) / 5 + d - 1;
    lemma_year_found(era, yoe, doy);
    let doe = year_start(yoe) + doy;
    let z = civil_days(y, m, d) + 719468;
    assert(z == era * 146097 + doe);
    assert(z / 146097 == era && z % 146097 == doe);
}

/// A moment of the calendar at eight hours ahead of UTC is read as it is
/// written.
pub proof fn law_local_reading(y: int, mo: int, d: int, hh: int, mm: int, ss: int)
    requires
        valid_date(y, mo, d),
        0 <= hh < 24,
        0 <= mm < 60,
        0 <= ss < 60,
    ensures
        local_stamp(epoch_of(y, mo, d, hh, mm, ss) - 8 * 3600) == stamp(y, mo, d, hh, mm, ss),
{
    law_day_of_date(y, mo, d);
    lemma_stamp_of_parts(civil_days(y, mo, d), hh, mm, ss);
}

/// The parts of a moment can be read off its distance from the epoch.
#[verifier::spinoff_prover]
proof fn lemma_stamp_of_parts(days: int, hh: int, mm: int, ss: int)
    requires
        0 <= hh < 24,
        0 <= mm < 60,
        0 <= ss < 60,
    ensures
        ({
            let (y, m, d) = date_of(days);
            local_stamp(days * 86400 + hh * 3600 + mm * 60 + ss - 8 * 3600) == stamp(
                y,
                m,
                d,
                hh,
                mm,
                ss,
            )
        }),
{
    let sod = hh * 3600 + mm * 60 + ss;
    let local = days * 86400 + sod;
    assert(local / 86400 == days && local % 86400 == sod) by {
        lemma_day_and_rest(days, sod);
    }
    lemma_clock_parts(hh, mm, ss);
}

proof fn lemma_day_and_rest(days: int, sod: int)
    requires
        0 <= sod < 86400,
    ensures
        (days * 86400 + sod) / 86400 == days,
        (days * 86400 + sod) % 86400 == sod,
{
}

proof fn lemma_clock_parts(hh: int, mm: int, ss: int)
    requires
        0 <= hh < 24,
        0 <= mm < 60,
        0 <= ss < 60,
    ensures
        ({
            let sod = hh * 3600 + mm * 60 + ss;
            sod / 3600 == hh && sod % 3600 / 60 == mm && sod % 60 == ss
        }),
{
}

proof fn lemma_days_within(y: int, m: int, d: int, e: int)
    ensures
        civil_days(y, m, e) == civil_days(y, m, d) + (e - d),
{
}

proof fn lemma_months_ahead(y: int, m: int, n: int)
    requires
        1 <= m <= n <= 12,
    ensures
        civil_days(y, m, 1) <= civil_days(y, n, 1),
        m < n ==> civil_days(y, m, month_days(y, m)) < civil_days(y, n, 1),
    decreases n - m,
{
    law_days_in_order(y, m, 1);
    lemma_days_within(y, m, 1, month_days(y, m));
    if m < n {
        lemma_months_ahead(y, m + 1, n);
    }
}

proof fn lemma_years_ahead(y: int, z: int)
    requires
        y <= z,
    ensures
        civil_days(y, 1, 1) <= civil_days(z, 1, 1),
        y < z ==> civil_days(y, 12, 31) < civil_days(z, 1, 1),
    decreases z - y,
{
    law_days_in_order(y, 12, 1);
    lemma_months_ahead(y, 1, 12);
    lemma_days_within(y, 12, 1, 31);
    if y < z {
        lemma_years_ahead(y + 1, z);
    }
}

/// The later of two dates has the higher day number.
proof fn lemma_dates_in_order(y: int, m: int, d: int, y2: int, m2: int, d2: int)
    requires
        valid_date(y, m, d),
        valid_date(y2, m2, d2),
        y < y2 || (y == y2 && (m < m2 || (m == m2 && d < d2))),
    ensures
        civil_days(y, m, d) < civil_days(y2, m2, d2),
{
    lemma_days_within(y, m, d, month_days(y, m));
    lemma_days_within(y2, m2, 1, d2);
    if y < y2 {
        lemma_months_ahead(y, m, 12);
        lemma_days_within(y, 12, 1, 31);
        lemma_years_ahead(y, y2);
        lemma_months_ahead(y2, 1, m2);
    } else if m < m2 {
        lemma_months_ahead(y, m, m2);
    } else {
        lemma_days_within(y, m, d, d2);
    }
}

/// Stamps order moments as time does: the later moment has the larger stamp.
pub proof fn law_stamps_in_order(earlier: int, later: int)
    requires
        earlier < later,
    ensures
        local_stamp(earlier) < local_stamp(later),
{
    let a = earlier + 28800;
    let b = later + 28800;
    let (y, m, d) = date_of(a / 86400);
    let (y2, m2, d2) = date_of(b / 86400);
    law_date_of_day(a / 86400);
    law_date_of_day(b / 86400);
    assert(a / 86400 <= b / 86400);
    if a / 86400 < b / 86400 {
        if y > y2 || (y == y2 && (m > m2 || (m == m2 && d > d2))) {
            lemma_dates_in_order(y2, m2, d2, y, m, d);
        }
        lemma_clock_digits(a % 86400);
        lemma_clock_digits(b % 86400);
    } else {
        lemma_clock_in_order(a % 86400, b % 86400);
    }
}

/// The six digits of a second of the day.
spec fn clock_digits(sod: int) -> int {
    sod / 3600 * 10000 + sod % 3600 / 60 * 100 + sod % 60
}

proof fn lemma_clock_digits(sod: int)
    requires
        0 <= sod < 86400,
    ensures
        0 <= clock_digits(sod) < 240000,
{
}

proof fn lemma_clock_in_order(a: int, b: int)
    requires
        0 <= a < b < 86400,
    ensures
        clock_digits(a) < clock_digits(b),
{
    assert(a % 60 == a % 3600 % 60);
    assert(b % 60 == b % 3600 % 60);
    if a / 3600 == b / 3600 {
        assert(a % 3600 < b % 3600);
        assert(a % 3600 / 60 <= b % 3600 / 60);
    }
}

} // verus!
