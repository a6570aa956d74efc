//! Timestamps in log lines: finding the first one in a line and reading it as a
//! number that can be compared.

use vstd::prelude::*;
use vstd::utf8::encode_utf8;

use crate::calendar::{
    civil_days, civil_fits, epoch_of, epoch_secs, law_local_reading, local_stamp, low_64,
    march_year, num_from_epoch, stamp, valid_date,
};

verus! {

/// The byte `c` stands at `i`.
pub open spec fn byte_at(b: Seq<u8>, i: int, c: char) -> bool {
    0 <= i < b.len() && b[i] == c as u8
}

/// An ASCII digit stands at `i`.
pub open spec fn digit_at(b: Seq<u8>, i: int) -> bool {
    0 <= i < b.len() && '0' as u8 <= b[i] <= '9' as u8
}

/// The end of the run of digits that starts at `i`.
pub open spec fn run_end(b: Seq<u8>, i: int) -> int
    decreases b.len() - i,
{
    if digit_at(b, i) {
        run_end(b, i + 1)
    } else {
        i
    }
}

/// The number that the digits from `i` up to `j` stand for.
pub open spec fn digits_number(b: Seq<u8>, i: int, j: int) -> int
    decreases j - i,
{
    if j <= i {
        0
    } else {
        digits_number(b, i, j - 1) * 10 + (b[j - 1] - '0' as u8)
    }
}

/// The distance to UTC, in seconds, that is written at `p`: `Z` or a sign and
/// `hh`, `hhmm` or `hh:mm`, behind an optional fraction of a second. `None` if
/// no distance is written there, or one that no zone has.
pub open spec fn zone_at(b: Seq<u8>, p: int) -> Option<int> {
    let q = if byte_at(b, p, '.') {
        run_end(b, p + 1)
    } else {
        p
    };
    let hh = digits_number(b, q + 1, q + 3);
    let r = if byte_at(b, q + 3, ':') {
        q + 4
    } else {
        q + 3
    };
    let mm = if digit_at(b, r) && digit_at(b, r + 1) {
        digits_number(b, r, r + 2)
    } else {
        0
    };
    if byte_at(b, q, 'Z') {
        Some(0)
    } else if !byte_at(b, q, '+') && !byte_at(b, q, '-') {
        None
    } else if !digit_at(b, q + 1) || !digit_at(b, q + 2) {
        None
    } else if hh > 14 || mm > 59 {
        None
    } else if byte_at(b, q, '-') {
        Some(-(hh * 3600 + mm * 60))
    } else {
        Some(hh * 3600 + mm * 60)
    }
}

/// Whether an ASCII digit stands at `i`.
fn is_digit_at(b: &[u8], i: usize) -> (yes: bool)
    ensures
        yes == digit_at(b@, i as int),
{
    i < b.len() && '0' as u8 <= b[i] && b[i] <= '9' as u8
}

/// Whether the byte `c` stands at `i`.
fn is_byte_at(b: &[u8], i: usize, c: u8) -> (yes: bool)
    ensures
        yes == (i < b@.len() && b@[i as int] == c),
{
    i < b.len() && b[i] == c
}

/// Steps over the digits from `i` on.
fn skip_digits(b: &[u8], i: usize) -> (j: usize)
    requires
        i <= b.len(),
    ensures
        i <= j <= b.len(),
        j == run_end(b@, i as int),
        forall|k: int| i <= k < j ==> digit_at(b@, k),
{
    let mut j = i;
    while is_digit_at(b, j)
        invariant
            i <= j <= b.len(),
            run_end(b@, i as int) == run_end(b@, j as int),
            forall|k: int| i <= k < j ==> digit_at(b@, k),
        decreases b.len() - j,
    {
        j += 1;
    }
    j
}

/// The number that up to four digits stand for.
fn read_digits(b: &[u8], i: usize, j: usize) -> (n: u64)
    requires
        i <= j <= b.len(),
        j - i <= 4,
        forall|k: int| i <= k < j ==> digit_at(b@, k),
    ensures
        n == digits_number(b@, i as int, j as int),
        j - i <= 1 ==> n <= 9,
        j - i <= 2 ==> n <= 99,
        n <= 9999,
{
    let mut n: u64 = 0;
    let mut k = i;
    while k < j
        invariant
            i <= k <= j <= b.len(),
            j - i <= 4,
            forall|m: int| i <= m < j ==> digit_at(b@, m),
            n == digits_number(b@, i as int, k as int),
            k == i ==> n == 0,
            k == i + 1 ==> n <= 9,
            k == i + 2 ==> n <= 99,
            k == i + 3 ==> n <= 999,
            n <= 9999,
        decreases j - k,
    {
        assert(digit_at(b@, k as int));
        n = n * 10 + (b[k] - '0' as u8) as u64;
        k += 1;
    }
    n
}

/// The distance to UTC, in seconds, that is written at `p` in the text `s` with the
/// bytes `b`.
pub fn tz_offset_after(b: &[u8], s: &str, p: usize) -> (off: Option<i64>)
    requires
        b@ == encode_utf8(s@),
    ensures
        match (off, zone_at(b@, p as int)) {
            (Some(o), Some(z)) => o == z,
            (None, None) => true,
            _ => false,
        },
        off is Some ==> -53940 <= off->0 <= 53940,
{
    let mut p = p;
    assert(b.len() <= usize::MAX);
    if is_byte_at(b, p, '.' as u8) {
        p = skip_digits(b, p + 1);
    }
    if is_byte_at(b, p, 'Z' as u8) {
        return Some(0);
    }
    let neg = is_byte_at(b, p, '-' as u8);
    if !neg && !is_byte_at(b, p, '+' as u8) {
        return None;
    }
    p += 1;
    if !is_digit_at(b, p) || !is_digit_at(b, p + 1) {
        return None;
    }
    let hh = read_digits(s.as_bytes(), p, p + 2) as i64;
    p += 2;
    if is_byte_at(b, p, ':' as u8) {
        p += 1;
    }
    let mm = if is_digit_at(b, p) && is_digit_at(b, p + 1) {
        read_digits(s.as_bytes(), p, p + 2) as i64
    } else {
        0
    };
    if hh > 14 || mm > 59 {
        return None;
    }
    if neg {
        Some(-(hh * 3600 + mm * 60))
    } else {
        Some(hh * 3600 + mm * 60)
    }
}

/// A date that is written in a line, and the position behind it.
pub struct WrittenDate {
    pub year: int,
    pub month: int,
    pub day: int,
    pub end: int,
}

/// The date that is written at `i`: four digits, a separator `-` or `/`, one or
/// two digits, the same separator, and one or two digits.
pub open spec fn date_at(b: Seq<u8>, i: int) -> Option<WrittenDate> {
    let month_end = run_end(b, i + 5);
    let day_end = run_end(b, month_end + 1);
    if digit_at(b, i) && digit_at(b, i + 1) && digit_at(b, i + 2) && digit_at(b, i + 3) && (
    byte_at(b, i + 4, '-') || byte_at(b, i + 4, '/')) && 1 <= month_end - (i + 5) <= 2 && month_end
        < b.len() && b[month_end] == b[i + 4] && 1 <= day_end - (month_end + 1) <= 2 {
        Some(
            WrittenDate {
                year: digits_number(b, i, i + 4),
                month: digits_number(b, i + 5, month_end),
                day: digits_number(b, month_end + 1, day_end),
                end: day_end,
            },
        )
    } else {
        None
    }
}

/// A time of day `hh:mm:ss` is written at `k`.
pub open spec fn clock_at(b: Seq<u8>, k: int) -> bool {
    digit_at(b, k) && digit_at(b, k + 1) && byte_at(b, k + 2, ':') && digit_at(b, k + 3)
        && digit_at(b, k + 4) && byte_at(b, k + 5, ':') && digit_at(b, k + 6) && digit_at(b, k + 7)
}

/// The first position from `k` to `last` at which a time of day is written.
pub open spec fn first_clock(b: Seq<u8>, k: int, last: int) -> Option<int>
    decreases last - k + 1,
{
    if k > last {
        None
    } else if clock_at(b, k) {
        Some(k)
    } else {
        first_clock(b, k + 1, last)
    }
}

/// The stamp of the date `date` and the time of day at `k`. Where a distance to
/// UTC follows, the moment is brought to local time; else it is taken as it is
/// written.
pub open spec fn written_stamp(b: Seq<u8>, date: WrittenDate, k: int) -> int {
    let hh = digits_number(b, k, k + 2);
    let mm = digits_number(b, k + 3, k + 5);
    let ss = digits_number(b, k + 6, k + 8);
    match zone_at(b, k + 8) {
        Some(off) => low_64(
            local_stamp(epoch_of(date.year, date.month, date.day, hh, mm, ss) - off),
        ),
        None => stamp(date.year, date.month, date.day, hh, mm, ss),
    }
}

/// How far behind the date the time of day may begin.
pub open spec fn clock_reach() -> int {
    30
}

/// The stamp of the first timestamp from `i` on. The search goes on behind a
/// date that no time of day follows closely.
pub open spec fn stamp_from(b: Seq<u8>, i: int) -> Option<int>
    decreases b.len() - i,
{
    if i + 10 > b.len() {
        None
    } else {
        match date_at(b, i) {
            Some(date) => match first_clock(b, date.end, date.end + clock_reach()) {
                Some(k) => Some(written_stamp(b, date, k)),
                None => if i < date.end <= b.len() {
                    stamp_from(b, date.end)
                } else {
                    None
                },
            },
            None => stamp_from(b, i + 1),
        }
    }
}

/// Whether a time of day `hh:mm:ss` is written at `k`.
fn is_clock_at(b: &[u8], k: usize) -> (yes: bool)
    requires
        k + 8 <= b.len(),
    ensures
        yes == clock_at(b@, k as int),
{
    is_digit_at(b, k) && is_digit_at(b, k + 1) && is_byte_at(b, k + 2, ':' as u8) && is_digit_at(
        b,
        k + 3,
    ) && is_digit_at(b, k + 4) && is_byte_at(b, k + 5, ':' as u8) && is_digit_at(b, k + 6)
        && is_digit_at(b, k + 7)
}

/// Finds the first time of day that begins at most `clock_reach` bytes behind `j`.
fn find_clock(b: &[u8], j: usize) -> (found: Option<usize>)
    requires
        j <= b.len(),
    ensures
        match (found, first_clock(b@, j as int, j + clock_reach())) {
            (Some(k), Some(m)) => k == m && k + 8 <= b.len() && clock_at(b@, k as int),
            (None, None) => true,
            _ => false,
        },
{
    let mut k = j;
    while b.len() >= 8 && k <= b.len() - 8 && k - j <= 30
        invariant
            j <= k <= b.len(),
            k - j <= 31,
            first_clock(b@, j as int, j + clock_reach()) == first_clock(
                b@,
                k as int,
                j + clock_reach(),
            ),
        decreases b.len() - k,
    {
        if is_clock_at(b, k) {
            return Some(k);
        }
        k += 1;
    }
    proof {
        lemma_no_clock(b@, k as int, j + clock_reach());
    }
    None
}

proof fn lemma_no_clock(b: Seq<u8>, k: int, last: int)
    requires
        k > last || k + 8 > b.len(),
    ensures
        first_clock(b, k, last) is None,
    decreases last - k + 1,
{
    if k <= last {
        lemma_no_clock(b, k + 1, last);
    }
}

/// The stamp of the date from `i` on with its month in `[i + 5, m_end)` and
/// its day in `[m_end + 1, j)`, and of the time of day at `k`.
fn read_stamp(b: &[u8], s: &str, i: usize, m_end: usize, j: usize, k: usize) -> (n: u64)
    requires
        b@ == encode_utf8(s@),
        date_at(b@, i as int) is Some,
        m_end == run_end(b@, i + 5),
        j == run_end(b@, m_end + 1),
        clock_at(b@, k as int),
        forall|x: int| i + 5 <= x < m_end ==> digit_at(b@, x),
        forall|x: int| m_end < x < j ==> digit_at(b@, x),
        j <= b.len(),
    ensures
        n == written_stamp(b@, date_at(b@, i as int)->0, k as int),
{
    assert(b.len() <= usize::MAX);
    let y = read_digits(b, i, i + 4);
    let mo = read_digits(b, i + 5, m_end);
    let d = read_digits(b, m_end + 1, j);
    let hh = read_digits(b, k, k + 2);
    let mm = read_digits(b, k + 3, k + 5);
    let ss = read_digits(b, k + 6, k + 8);
    match tz_offset_after(b, s, k + 8) {
        Some(off) => {
            proof {
                lemma_small_date(y as int, mo as int, d as int);
            }
            num_from_epoch(epoch_secs(y, mo, d, hh, mm, ss) - off)
        },
        None => y * 10000000000 + mo * 100000000 + d * 1000000 + hh * 10000 + mm * 100 + ss,
    }
}

/// Dates of four and two digits stay far from the limits of 64 bits.
proof fn lemma_small_date(y: int, m: int, d: int)
    requires
        0 <= y <= 9999,
        0 <= m <= 99,
        0 <= d <= 99,
    ensures
        civil_fits(y, m, d),
        -1000000 <= civil_days(y, m, d) <= 4000000,
{
    let my = march_year(y, m);
    assert(-1 <= my / 400 <= 24);
    assert(0 <= my % 400 < 400);
}

/// The stamp of the first timestamp in `s`: a date `yyyy-MM-dd`, with `-` or
/// `/` between its parts, and shortly behind it a time of day `HH:mm:ss`.
pub fn parse_time_num(s: &str) -> (n: Option<u64>)
    ensures
        match (n, stamp_from(encode_utf8(s@), 0)) {
            (Some(n), Some(m)) => n == m,
            (None, None) => true,
            _ => false,
        },
{
    let b = s.as_bytes();
    let mut i: usize = 0;
    while b.len() >= 10 && i <= b.len() - 10
        invariant
            b@ == encode_utf8(s@),
            i <= b.len(),
            stamp_from(b@, 0) == stamp_from(b@, i as int),
        decreases b.len() - i,
    {
        if is_digit_at(b, i) && is_digit_at(b, i + 1) && is_digit_at(b, i + 2) && is_digit_at(
            b,
            i + 3,
        ) && (is_byte_at(b, i + 4, '-' as u8) || is_byte_at(b, i + 4, '/' as u8)) {
            let m_end = skip_digits(b, i + 5);
            if m_end == i + 5 || m_end - (i + 5) > 2 || !is_byte_at(b, m_end, b[i + 4]) {
                i += 1;
                continue;
            }
            let j = skip_digits(b, m_end + 1);
            if j == m_end + 1 || j - (m_end + 1) > 2 {
                i += 1;
                continue;
            }
            if let Some(k) = find_clock(b, j) {
                return Some(read_stamp(b, s, i, m_end, j, k));
            }
            i = j;
        } else {
            i += 1;
        }
    }
    None
}

/// A moment that is written eight hours ahead of UTC is read as it is written, as
/// without a distance.
pub proof fn law_local_zone(b: Seq<u8>, date: WrittenDate, k: int)
    requires
        zone_at(b, k + 8) == Some(8 * 3600int),
        0 <= date.year <= 9999,
        valid_date(date.year, date.month, date.day),
        0 <= digits_number(b, k, k + 2) < 24,
        0 <= digits_number(b, k + 3, k + 5) < 60,
        0 <= digits_number(b, k + 6, k + 8) < 60,
    ensures
        written_stamp(b, date, k) == stamp(
            date.year,
            date.month,
            date.day,
            digits_number(b, k, k + 2),
            digits_number(b, k + 3, k + 5),
            digits_number(b, k + 6, k + 8),
        ),
{
    let hh = digits_number(b, k, k + 2);
    let mm = digits_number(b, k + 3, k + 5);
    let ss = digits_number(b, k + 6, k + 8);
    lemma_local_moment(date.year, date.month, date.day, hh, mm, ss);
}

proof fn lemma_local_moment(y: int, mo: int, d: int, hh: int, mm: int, ss: int)
    requires
        0 <= y <= 9999,
        valid_date(y, mo, d),
        0 <= hh < 24,
        0 <= mm < 60,
        0 <= ss < 60,
    ensures
        low_64(local_stamp(epoch_of(y, mo, d, hh, mm, ss) - 8 * 3600)) == stamp(
            y,
            mo,
            d,
            hh,
            mm,
            ss,
        ),
{
    law_local_reading(y, mo, d, hh, mm, ss);
    let n = local_stamp(epoch_of(y, mo, d, hh, mm, ss) - 8 * 3600);
    assert(0 <= n < 0x1_0000_0000_0000_0000);
    vstd::arithmetic::div_mod::lemma_small_mod(n as nat, 0x1_0000_0000_0000_0000);
}

/// `Z` and `+00:00` stand for the same distance.
pub proof fn law_utc(a: Seq<u8>, p: int, b: Seq<u8>, q: int)
    requires
        byte_at(a, p, 'Z'),
        byte_at(b, q, '+'),
        byte_at(b, q + 1, '0'),
        byte_at(b, q + 2, '0'),
        byte_at(b, q + 3, ':'),
        byte_at(b, q + 4, '0'),
        byte_at(b, q + 5, '0'),
    ensures
        zone_at(a, p) == Some(0int),
        zone_at(b, q) == zone_at(a, p),
{
    reveal_with_fuel(digits_number, 3);
}

} // verus!
