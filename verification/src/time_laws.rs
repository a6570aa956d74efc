//! Where the time of a line is written, and which moment it is.

use vstd::prelude::*;

use crate::calendar::{
    civil_days, date_of, epoch_of, law_date_of_day, law_days_in_order, law_local_reading,
    local_stamp, low_64, stamp, valid_date,
};
use crate::time::{
    clock_at, clock_reach, date_at, digit_at, digits_number, first_clock, run_end, stamp_from,
    zone_at,
};

verus! {

/// The stamp of a line is a number of 64 bits.
pub proof fn law_stamps_fit(b: Seq<u8>, i: int)
    requires
        0 <= i,
    ensures
        stamp_from(b, i) is Some ==> 0 <= stamp_from(b, i)->0 <= u64::MAX,
    decreases b.len() - i,
{
    if i + 10 <= b.len() {
        match date_at(b, i) {
            Some(date) => {
                match first_clock(b, date.end, date.end + clock_reach()) {
                    Some(k) => {
                        lemma_first_clock(b, date.end, date.end + clock_reach());
                        lemma_run(b, i + 5);
                        let m = run_end(b, i + 5);
                        lemma_run(b, m + 1);
                        reveal_with_fuel(digits_number, 5);
                        assert(digit_at(b, i + 5));
                        assert(digit_at(b, m + 1));
                        assert(digit_at(b, m - 1));
                        assert(digit_at(b, run_end(b, m + 1) - 1));
                        assert(0 <= digits_number(b, i + 5, m) <= 99);
                        assert(0 <= digits_number(b, m + 1, run_end(b, m + 1)) <= 99);
                        assert(0 <= digits_number(b, i, i + 4) <= 9999);
                    },
                    None => {
                        if i < date.end <= b.len() {
                            law_stamps_fit(b, date.end);
                        }
                    },
                }
            },
            None => {
                law_stamps_fit(b, i + 1);
            },
        }
    }
}

proof fn lemma_run(b: Seq<u8>, i: int)
    requires
        0 <= i,
    ensures
        i <= run_end(b, i),
        forall|k: int| i <= k < run_end(b, i) ==> digit_at(b, k),
        !digit_at(b, run_end(b, i)),
    decreases b.len() - i,
{
    if digit_at(b, i) {
        lemma_run(b, i + 1);
    }
}

proof fn lemma_first_clock(b: Seq<u8>, k: int, last: int)
    ensures
        match first_clock(b, k, last) {
            Some(q) => k <= q <= last && clock_at(b, q) && forall|x: int|
                k <= x < q ==> !clock_at(b, x),
            None => forall|x: int| k <= x <= last ==> !clock_at(b, x),
        },
    decreases last - k + 1,
{
    if k <= last && !clock_at(b, k) {
        lemma_first_clock(b, k + 1, last);
    }
}

/// A digit, as a byte.
pub open spec fn is_digit_byte(x: u8) -> bool {
    48 <= x <= 57
}

/// The number that one or two digits from `i` up to `j` stand for.
pub open spec fn short_number(b: Seq<u8>, i: int, j: int) -> int {
    if j == i + 1 {
        b[i] - 48
    } else {
        (b[i] - 48) * 10 + (b[i + 1] - 48)
    }
}

/// The number that the four digits from `i` on stand for.
pub open spec fn year_number(b: Seq<u8>, i: int) -> int {
    (b[i] - 48) * 1000 + (b[i + 1] - 48) * 100 + (b[i + 2] - 48) * 10 + (b[i + 3] - 48)
}

/// A date stands in `b` from `i` on: four digits, `-` or `/`, one or two digits up to `m`,
/// the same sign, and one or two digits up to `d`, where no digit follows.
pub open spec fn date_stands(b: Seq<u8>, i: int, m: int, d: int) -> bool {
    &&& 0 <= i
    &&& d <= b.len()
    &&& 1 <= m - (i + 5) <= 2
    &&& 1 <= d - (m + 1) <= 2
    &&& is_digit_byte(b[i])
    &&& is_digit_byte(b[i + 1])
    &&& is_digit_byte(b[i + 2])
    &&& is_digit_byte(b[i + 3])
    &&& b[i + 4] == 45 || b[i + 4] == 47
    &&& forall|x: int| i + 5 <= x < m ==> is_digit_byte(#[trigger] b[x])
    &&& b[m] == b[i + 4]
    &&& forall|x: int| m + 1 <= x < d ==> is_digit_byte(#[trigger] b[x])
    &&& d == b.len() || !is_digit_byte(b[d])
}

/// A time of day stands in `b` from `k` on: three times two digits with colons between
/// them.
pub open spec fn clock_stands(b: Seq<u8>, k: int) -> bool {
    &&& 0 <= k
    &&& k + 8 <= b.len()
    &&& is_digit_byte(b[k])
    &&& is_digit_byte(b[k + 1])
    &&& b[k + 2] == 58
    &&& is_digit_byte(b[k + 3])
    &&& is_digit_byte(b[k + 4])
    &&& b[k + 5] == 58
    &&& is_digit_byte(b[k + 6])
    &&& is_digit_byte(b[k + 7])
}

proof fn lemma_run_end(b: Seq<u8>, i: int, end: int)
    requires
        0 <= i <= end <= b.len(),
        forall|x: int| i <= x < end ==> is_digit_byte(#[trigger] b[x]),
        end == b.len() || !is_digit_byte(b[end]),
    ensures
        run_end(b, i) == end,
    decreases end - i,
{
    if i < end {
        assert(is_digit_byte(b[i]));
        lemma_run_end(b, i + 1, end);
    }
}

proof fn lemma_short_number(b: Seq<u8>, i: int, j: int)
    requires
        1 <= j - i <= 2,
    ensures
        digits_number(b, i, j) == short_number(b, i, j),
{
    reveal_with_fuel(digits_number, 3);
}

proof fn lemma_date_stands(b: Seq<u8>, i: int, m: int, d: int)
    requires
        date_stands(b, i, m, d),
    ensures
        date_at(b, i) is Some,
        date_at(b, i)->0.year == year_number(b, i),
        date_at(b, i)->0.month == short_number(b, i + 5, m),
        date_at(b, i)->0.day == short_number(b, m + 1, d),
        date_at(b, i)->0.end == d,
{
    lemma_run_end(b, i + 5, m);
    lemma_run_end(b, m + 1, d);
    lemma_short_number(b, i + 5, m);
    lemma_short_number(b, m + 1, d);
    assert(is_digit_byte(b[i]) && is_digit_byte(b[i + 1]) && is_digit_byte(b[i + 2])
        && is_digit_byte(b[i + 3]));
    lemma_year_number(b, i);
}

proof fn lemma_year_number(b: Seq<u8>, i: int)
    ensures
        digits_number(b, i, i + 4) == year_number(b, i),
{
    reveal_with_fuel(digits_number, 5);
}

/// The search passes over bytes that are no digits.
proof fn lemma_passes(b: Seq<u8>, j: int, i: int)
    requires
        0 <= j <= i,
        i + 10 <= b.len(),
        forall|x: int| j <= x < i ==> !is_digit_byte(#[trigger] b[x]),
    ensures
        stamp_from(b, j) == stamp_from(b, i),
    decreases i - j,
{
    if j < i {
        assert(!is_digit_byte(b[j]));
        assert(date_at(b, j) is None);
        lemma_passes(b, j + 1, i);
    }
}

proof fn lemma_first_clock_at(b: Seq<u8>, j: int, k: int, last: int)
    requires
        0 <= j <= k <= last,
        forall|x: int| j <= x < k ==> !#[trigger] clock_stands(b, x),
        clock_stands(b, k),
    ensures
        first_clock(b, j, last) == Some(k),
    decreases k - j,
{
    if j < k {
        assert(!clock_stands(b, j));
        lemma_first_clock_at(b, j + 1, k, last);
    }
}

/// Where a date stands, and a time of day begins at most thirty bytes behind it, the first
/// of these and the date make the stamp: as they are written where no distance to UTC
/// follows, and else brought eight hours ahead of UTC.
pub proof fn law_time_at(b: Seq<u8>, i: int, m: int, d: int, k: int)
    requires
        date_stands(b, i, m, d),
        d <= k <= d + 30,
        forall|x: int| d <= x < k ==> !#[trigger] clock_stands(b, x),
        clock_stands(b, k),
    ensures
        ({
            let year = year_number(b, i);
            let month = short_number(b, i + 5, m);
            let day = short_number(b, m + 1, d);
            let hour = short_number(b, k, k + 2);
            let minute = short_number(b, k + 3, k + 5);
            let second = short_number(b, k + 6, k + 8);
            &&& zone_at(b, k + 8) is None ==> stamp_from(b, i) == Some(
                year * 10000000000 + month * 100000000 + day * 1000000 + hour * 10000 + minute * 100
                    + second,
            )
            &&& zone_at(b, k + 8) is Some ==> stamp_from(b, i) == Some(
                low_64(
                    local_stamp(
                        civil_days(year, month, day) * 86400 + hour * 3600 + minute * 60 + second
                            - zone_at(b, k + 8)->0,
                    ),
                ),
            )
        }),
{
    lemma_date_stands(b, i, m, d);
    lemma_first_clock_at(b, d, k, d + 30);
    lemma_short_number(b, k, k + 2);
    lemma_short_number(b, k + 3, k + 5);
    lemma_short_number(b, k + 6, k + 8);
}

/// The stamp of a line is made of its first date and the time of day that begins at most
/// thirty bytes behind it, as they are written where no distance to UTC follows. Where one
/// follows, the moment is brought eight hours ahead of UTC.
pub proof fn law_written_time(b: Seq<u8>, i: int, m: int, d: int, k: int)
    requires
        date_stands(b, i, m, d),
        forall|x: int| 0 <= x < i ==> !is_digit_byte(#[trigger] b[x]),
        d <= k <= d + 30,
        forall|x: int| d <= x < k ==> !is_digit_byte(#[trigger] b[x]),
        clock_stands(b, k),
    ensures
        ({
            let year = year_number(b, i);
            let month = short_number(b, i + 5, m);
            let day = short_number(b, m + 1, d);
            let hour = short_number(b, k, k + 2);
            let minute = short_number(b, k + 3, k + 5);
            let second = short_number(b, k + 6, k + 8);
            &&& zone_at(b, k + 8) is None ==> stamp_from(b, 0) == Some(
                year * 10000000000 + month * 100000000 + day * 1000000 + hour * 10000 + minute * 100
                    + second,
            )
            &&& zone_at(b, k + 8) is Some ==> stamp_from(b, 0) == Some(
                low_64(
                    local_stamp(
                        civil_days(year, month, day) * 86400 + hour * 3600 + minute * 60 + second
                            - zone_at(b, k + 8)->0,
                    ),
                ),
            )
        }),
{
    lemma_passes(b, 0, i);
    assert forall|x: int| d <= x < k implies !#[trigger] clock_stands(b, x) by {
        assert(!is_digit_byte(b[x]));
    }
    law_time_at(b, i, m, d, k);
}

/// A date without a time of day within thirty bytes is passed over: the search goes on
/// behind it.
pub proof fn law_date_alone(b: Seq<u8>, i: int, m: int, d: int)
    requires
        date_stands(b, i, m, d),
        i + 10 <= b.len(),
        forall|x: int| d <= x <= d + 30 ==> !#[trigger] clock_stands(b, x),
    ensures
        stamp_from(b, i) == stamp_from(b, d),
{
    lemma_date_stands(b, i, m, d);
    lemma_no_clock_until(b, d, d + 30);
}

proof fn lemma_no_clock_until(b: Seq<u8>, k: int, last: int)
    requires
        0 <= k,
        forall|x: int| k <= x <= last ==> !#[trigger] clock_stands(b, x),
    ensures
        first_clock(b, k, last) is None,
    decreases last - k + 1,
{
    if k <= last {
        assert(!clock_stands(b, k));
        lemma_no_clock_until(b, k + 1, last);
    }
}

/// Where no date stands the search goes on at the next byte, and at the end there is none.
pub proof fn law_no_date(b: Seq<u8>, i: int)
    requires
        0 <= i,
        forall|m: int, d: int| !#[trigger] date_stands(b, i, m, d),
    ensures
        i + 10 <= b.len() ==> stamp_from(b, i) == stamp_from(b, i + 1),
        i + 10 > b.len() ==> stamp_from(b, i) is None,
{
    if i + 10 <= b.len() && date_at(b, i) is Some {
        let m = run_end(b, i + 5);
        let d = run_end(b, m + 1);
        lemma_run(b, i + 5);
        lemma_run(b, m + 1);
        assert forall|x: int| i + 5 <= x < m implies is_digit_byte(#[trigger] b[x]) by {
            assert(digit_at(b, x));
        }
        assert forall|x: int| m + 1 <= x < d implies is_digit_byte(#[trigger] b[x]) by {
            assert(digit_at(b, x));
        }
        assert(digit_at(b, d - 1));
        assert(!digit_at(b, d));
        assert(date_stands(b, i, m, d));
    }
}

/// A line without digits has no stamp.
pub proof fn law_no_digits(b: Seq<u8>)
    requires
        forall|x: int| 0 <= x < b.len() ==> !is_digit_byte(#[trigger] b[x]),
    ensures
        stamp_from(b, 0) is None,
{
    if b.len() >= 10 {
        let i = b.len() - 10;
        lemma_passes(b, 0, i);
        assert(!is_digit_byte(b[i]));
        assert(date_at(b, i) is None);
        assert(stamp_from(b, i) == stamp_from(b, i + 1));
    }
}

/// Behind the time of day, `Z` stands for UTC, and a sign and two digits for hours before
/// or behind it, with minutes behind them, with or without a colon between the two. More
/// than fourteen hours or fifty-nine minutes are no distance, nor is anything else.
pub proof fn law_zone(b: Seq<u8>, p: int)
    requires
        0 <= p < b.len(),
        b[p] != 46,
    ensures
        b[p] == 90 ==> zone_at(b, p) == Some(0int),
        b[p] != 90 && b[p] != 43 && b[p] != 45 ==> zone_at(b, p) is None,
        (b[p] == 43 || b[p] == 45) && !(p + 3 <= b.len() && is_digit_byte(b[p + 1])
            && is_digit_byte(b[p + 2])) ==> zone_at(b, p) is None,
        (b[p] == 43 || b[p] == 45) && p + 3 <= b.len() && is_digit_byte(b[p + 1]) && is_digit_byte(
            b[p + 2],
        ) ==> {
            let hours = short_number(b, p + 1, p + 3);
            let colon = p + 6 <= b.len() && b[p + 3] == 58 && is_digit_byte(b[p + 4])
                && is_digit_byte(b[p + 5]);
            let close = p + 5 <= b.len() && is_digit_byte(b[p + 3]) && is_digit_byte(b[p + 4]);
            let minutes = if colon {
                short_number(b, p + 4, p + 6)
            } else if close {
                short_number(b, p + 3, p + 5)
            } else {
                0
            };
            &&& hours > 14 || minutes > 59 ==> zone_at(b, p) is None
            &&& hours <= 14 && minutes <= 59 && b[p] == 43 ==> zone_at(b, p) == Some(
                hours * 3600 + minutes * 60,
            )
            &&& hours <= 14 && minutes <= 59 && b[p] == 45 ==> zone_at(b, p) == Some(
                -(hours * 3600 + minutes * 60),
            )
        },
{
    lemma_short_number(b, p + 1, p + 3);
    lemma_short_number(b, p + 4, p + 6);
    lemma_short_number(b, p + 3, p + 5);
}

/// A fraction of a second does not matter: what follows its digits counts, unless that is a
/// second fraction. At the end of a line no distance is written.
pub proof fn law_fraction(b: Seq<u8>, p: int, q: int)
    requires
        0 <= p,
        p < q <= b.len(),
        b[p] == 46,
        forall|x: int| p < x < q ==> is_digit_byte(#[trigger] b[x]),
        q == b.len() || !is_digit_byte(b[q]),
    ensures
        q < b.len() && b[q] == 46 ==> zone_at(b, p) is None,
        !(q < b.len() && b[q] == 46) ==> zone_at(b, p) == zone_at(b, q),
        zone_at(b, b.len() as int) is None,
{
    lemma_run_end(b, p + 1, q);
}

/// A moment on a day of the calendar, eight hours ahead of UTC, has the stamp of its date
/// and time of day, so that a line that names that distance is read as it is written.
pub proof fn law_eight_hours(y: int, mo: int, d: int, hh: int, mm: int, ss: int)
    requires
        0 <= y <= 9999,
        valid_date(y, mo, d),
        0 <= hh < 24,
        0 <= mm < 60,
        0 <= ss < 60,
    ensures
        low_64(local_stamp(civil_days(y, mo, d) * 86400 + hh * 3600 + mm * 60 + ss - 28800)) == y
            * 10000000000 + mo * 100000000 + d * 1000000 + hh * 10000 + mm * 100 + ss,
{
    law_local_reading(y, mo, d, hh, mm, ss);
    let n = stamp(y, mo, d, hh, mm, ss);
    law_low_bits(n);
}

/// What fits in 64 bits is kept as it is, and what does not is taken round.
pub proof fn law_low_bits(n: int)
    ensures
        0 <= n <= u64::MAX ==> low_64(n) == n,
        low_64(n + 0x1_0000_0000_0000_0000) == low_64(n),
        0 <= low_64(n) <= u64::MAX,
{
    if 0 <= n <= u64::MAX {
        vstd::arithmetic::div_mod::lemma_small_mod(n as nat, 0x1_0000_0000_0000_0000);
    }
    vstd::arithmetic::div_mod::lemma_mod_add_multiples_vanish(n, 0x1_0000_0000_0000_0000);
}

/// Seconds are counted from the first moment of 1970: a day has 86400 of them, an hour
/// 3600 and a minute 60.
pub proof fn law_seconds(y: int, mo: int, d: int, hh: int, mm: int, ss: int)
    requires
        1 <= mo <= 12,
    ensures
        epoch_of(1970, 1, 1, 0, 0, 0) == 0,
        epoch_of(y, mo, d, hh, mm, ss + 1) == epoch_of(y, mo, d, hh, mm, ss) + 1,
        epoch_of(y, mo, d, hh, mm + 1, ss) == epoch_of(y, mo, d, hh, mm, ss) + 60,
        epoch_of(y, mo, d, hh + 1, mm, ss) == epoch_of(y, mo, d, hh, mm, ss) + 3600,
        epoch_of(y, mo, d + 1, hh, mm, ss) == epoch_of(y, mo, d, hh, mm, ss) + 86400,
{
    law_days_in_order(y, mo, d);
}

/// The months have their number of days: February 29 in every fourth year but those of a
/// century that is not divided by four, and 28 else.
pub proof fn law_months(y: int, m: int)
    requires
        1 <= m <= 12,
    ensures
        ({
            let next = if m == 12 {
                civil_days(y + 1, 1, 1)
            } else {
                civil_days(y, m + 1, 1)
            };
            let days = next - civil_days(y, m, 1);
            &&& m == 1 || m == 3 || m == 5 || m == 7 || m == 8 || m == 10 || m == 12 ==> days == 31
            &&& m == 4 || m == 6 || m == 9 || m == 11 ==> days == 30
            &&& m == 2 && y % 4 == 0 && (y % 100 != 0 || y % 400 == 0) ==> days == 29
            &&& m == 2 && !(y % 4 == 0 && (y % 100 != 0 || y % 400 == 0)) ==> days == 28
        }),
{
    law_days_in_order(y, m, crate::calendar::month_days(y, m));
    assert(civil_days(y, m, crate::calendar::month_days(y, m)) - civil_days(y, m, 1)
        == crate::calendar::month_days(y, m) - 1);
}

/// A date of the calendar is one of the twelve months and of the days of that month.
pub proof fn law_calendar(y: int, m: int, d: int)
    ensures
        valid_date(y, m, d) <==> 1 <= m <= 12 && 1 <= d && d <= (if m == 4 || m == 6 || m == 9 || m
            == 11 {
            30int
        } else if m != 2 {
            31
        } else if y % 4 == 0 && (y % 100 != 0 || y % 400 == 0) {
            29
        } else {
            28
        }),
{
}

/// The two months behind the last are the first two of the next year, and then they come
/// again from March on; the month before the first is the last of the year before.
pub proof fn law_other_months(y: int, m: int, d: int)
    ensures
        civil_days(y, 13, d) == civil_days(y + 1, 1, d),
        civil_days(y, 14, d) == civil_days(y + 1, 2, d),
        m >= 3 ==> civil_days(y, m + 12, d) == civil_days(y, m, d),
        civil_days(y, 0, d) == civil_days(y - 1, 12, d),
{
}

/// The stamp of a moment is that of its day, its hour, its minute and its second, eight
/// hours ahead of UTC.
pub proof fn law_local_stamp(days: int, hh: int, mm: int, ss: int)
    requires
        0 <= hh < 24,
        0 <= mm < 60,
        0 <= ss < 60,
    ensures
        ({
            let (y, m, d) = date_of(days);
            &&& valid_date(y, m, d)
            &&& civil_days(y, m, d) == days
            &&& local_stamp(days * 86400 + hh * 3600 + mm * 60 + ss - 28800) == y * 10000000000 + m
                * 100000000 + d * 1000000 + hh * 10000 + mm * 100 + ss
        }),
{
    law_date_of_day(days);
    let (y, m, d) = date_of(days);
    law_local_reading(y, m, d, hh, mm, ss);
}

} // verus!
