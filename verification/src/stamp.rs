//! Timestamps and the textual run identifier.
//!
//! A run is identified over the API by the RFC-3339 rendering of its
//! start time, in UTC with millisecond precision and the `Z` suffix:
//! `YYYY-MM-DDTHH:MM:SS.mmmZ`, always 24 characters.

use vstd::prelude::*;

use vstd::arithmetic::div_mod::lemma_fundamental_div_mod;

use crate::digits::{
    all_dec_digits, dec_val, digit_char, digit_val, lemma_dec_val_bound, lemma_dec_val_concat,
    lemma_dec_val_single, lemma_digit_char_val, parse_dec_u64, pow10,
};
use crate::strops::chars_to_string;
use crate::strops::str_eq;

verus! {

/// The last millisecond this format can render: 9999-12-31T23:59:59.999Z.
pub const MAX_STAMP_MS: i64 = 253_402_300_799_999;

/// Day number of 10000-01-01, counted from 1970-01-01.
pub const DAYS_TO_YEAR_10000: u32 = 2_932_897;

/// Gregorian leap year.
pub open spec fn is_leap(y: int) -> bool {
    y % 4 == 0 && (y % 100 != 0 || y % 400 == 0)
}

pub open spec fn days_in_year(y: int) -> int {
    if is_leap(y) {
        366
    } else {
        365
    }
}

pub open spec fn days_in_month(y: int, m: int) -> int {
    if m == 2 {
        if is_leap(y) {
            29
        } else {
            28
        }
    } else if m == 4 || m == 6 || m == 9 || m == 11 {
        30
    } else {
        31
    }
}

/// Days from 1970-01-01 to the first day of year `y`.
pub open spec fn days_before_year(y: int) -> int
    decreases y - 1970,
{
    if y <= 1970 {
        0
    } else {
        days_before_year(y - 1) + days_in_year(y - 1)
    }
}

/// Days from the first of January of `y` to the first day of month `m`.
pub open spec fn days_before_month(y: int, m: int) -> int
    decreases m - 1,
{
    if m <= 1 {
        0
    } else {
        days_before_month(y, m - 1) + days_in_month(y, m - 1)
    }
}

/// Days from 1970-01-01 to the civil date `(y, m, d)` (month and day
/// 1-based).
pub open spec fn days_from_civil(y: int, m: int, d: int) -> int {
    days_before_year(y) + days_before_month(y, m) + (d - 1)
}

/// The year holding day number `days`, counting from year `y` with
/// `days` days left.
pub open spec fn year_split(y: int, days: int) -> (int, int)
    decreases days,
{
    if days < days_in_year(y) {
        (y, days)
    } else {
        year_split(y + 1, days - days_in_year(y))
    }
}

/// The month holding the 0-based day offset `days` of year `y`,
/// starting the search at month `m`.
pub open spec fn month_split(y: int, m: int, days: int) -> (int, int)
    decreases 13 - m,
{
    if m >= 12 || days < days_in_month(y, m) {
        (m, days)
    } else {
        month_split(y, m + 1, days - days_in_month(y, m))
    }
}

/// The civil date `(year, month, day)` of day number `days` since
/// 1970-01-01 (month and day 1-based).
pub open spec fn civil_from_days(days: int) -> (int, int, int) {
    let yr = year_split(1970, days);
    let mr = month_split(yr.0, 1, yr.1);
    (yr.0, mr.0, mr.1 + 1)
}

/// Leap years in `[1970, y)`.
pub open spec fn leaps_before(y: int) -> int
    decreases y - 1970,
{
    if y <= 1970 {
        0
    } else {
        leaps_before(y - 1) + if is_leap(y - 1) {
            1int
        } else {
            0int
        }
    }
}

/// How a division by a positive constant steps when its argument steps
/// by one.
proof fn lemma_div_step(a: int, k: int)
    requires
        k > 0,
    ensures
        a / k == (a - 1) / k + if a % k == 0 {
            1int
        } else {
            0int
        },
{
    lemma_fundamental_div_mod(a, k);
    lemma_fundamental_div_mod(a - 1, k);
    let q = a / k;
    let r = a % k;
    if r == 0 {
        assert((a - 1) / k == q - 1 && (a - 1) % k == k - 1) by (nonlinear_arith)
            requires
                a == k * q,
                k > 0,
                a - 1 == k * ((a - 1) / k) + (a - 1) % k,
                0 <= (a - 1) % k < k,
        ;
    } else {
        assert(a - 1 == k * q + (r - 1));
        assert((a - 1) / k == q) by (nonlinear_arith)
            requires
                a - 1 == k * q + (r - 1),
                k > 0,
                0 <= r - 1 < k,
                a - 1 == k * ((a - 1) / k) + (a - 1) % k,
                0 <= (a - 1) % k < k,
        ;
    }
}

/// Divisibility by 400 implies divisibility by 100 and by 4.
proof fn lemma_divisibility_chain(a: int)
    ensures
        a % 400 == 0 ==> a % 100 == 0,
        a % 100 == 0 ==> a % 4 == 0,
{
    if a % 400 == 0 {
        lemma_fundamental_div_mod(a, 400);
        assert(a == 100 * (4 * (a / 400)));
        assert(a % 100 == 0) by (nonlinear_arith)
            requires
                a == 100 * (4 * (a / 400)),
        ;
    }
    if a % 100 == 0 {
        lemma_fundamental_div_mod(a, 100);
        assert(a == 4 * (25 * (a / 100)));
        assert(a % 4 == 0) by (nonlinear_arith)
            requires
                a == 4 * (25 * (a / 100)),
        ;
    }
}

/// The closed form of the leap-year count.
proof fn lemma_leaps_closed(y: int)
    requires
        y >= 1970,
    ensures
        leaps_before(y) == (y - 1) / 4 - (y - 1) / 100 + (y - 1) / 400 - 477,
    decreases y - 1970,
{
    if y == 1970 {
        assert(1969int / 4 == 492 && 1969int / 100 == 19 && 1969int / 400 == 4);
    } else {
        lemma_leaps_closed(y - 1);
        lemma_div_step(y - 1, 4);
        lemma_div_step(y - 1, 100);
        lemma_div_step(y - 1, 400);
        lemma_divisibility_chain(y - 1);
    }
}

/// Total days of the years 1970 through `y - 1`.
proof fn lemma_days_before_year_closed(y: int)
    requires
        1970 <= y,
    ensures
        days_before_year(y) == 365 * (y - 1970) + leaps_before(y),
    decreases y - 1970,
{
    if y > 1970 {
        lemma_days_before_year_closed(y - 1);
    }
}

/// The day number of 10000-01-01.
proof fn lemma_days_to_year_10000()
    ensures
        days_before_year(10000) == DAYS_TO_YEAR_10000 as int,
{
    lemma_days_before_year_closed(10000);
    lemma_leaps_closed(10000);
    assert(9999int / 4 == 2499 && 9999int / 100 == 99 && 9999int / 400 == 24);
}

/// `days_before_year` is monotone and nonnegative.
proof fn lemma_days_before_year_mono(a: int, b: int)
    requires
        1970 <= a <= b,
    ensures
        0 <= days_before_year(a) <= days_before_year(b),
    decreases b - a,
{
    if a < b {
        lemma_days_before_year_mono(a, b - 1);
    } else {
        lemma_days_before_year_nonneg(a);
    }
}

proof fn lemma_days_before_year_nonneg(y: int)
    ensures
        days_before_year(y) >= 0,
    decreases y - 1970,
{
    if y > 1970 {
        lemma_days_before_year_nonneg(y - 1);
    }
}

/// A whole year of months: the month offsets sum to the year's days.
proof fn lemma_months_sum(y: int)
    ensures
        days_before_month(y, 13) == days_in_year(y),
{
    assert(days_before_month(y, 1) == 0);
    assert(days_before_month(y, 2) == 31);
    assert(days_before_month(y, 3) == days_before_month(y, 2) + days_in_month(y, 2));
    assert(days_before_month(y, 4) == days_before_month(y, 3) + 31);
    assert(days_before_month(y, 5) == days_before_month(y, 4) + 30);
    assert(days_before_month(y, 6) == days_before_month(y, 5) + 31);
    assert(days_before_month(y, 7) == days_before_month(y, 6) + 30);
    assert(days_before_month(y, 8) == days_before_month(y, 7) + 31);
    assert(days_before_month(y, 9) == days_before_month(y, 8) + 31);
    assert(days_before_month(y, 10) == days_before_month(y, 9) + 30);
    assert(days_before_month(y, 11) == days_before_month(y, 10) + 31);
    assert(days_before_month(y, 12) == days_before_month(y, 11) + 30);
    assert(days_before_month(y, 13) == days_before_month(y, 12) + 31);
}

/// Where the month search lands: a month between the start and 12, a
/// day offset inside that month, and the day count decomposed.
proof fn lemma_month_split_props(y: int, m: int, days: int)
    requires
        1 <= m <= 12,
        0 <= days,
        days + days_before_month(y, m) < days_in_year(y),
    ensures
        m <= month_split(y, m, days).0 <= 12,
        0 <= month_split(y, m, days).1 < days_in_month(y, month_split(y, m, days).0),
        days_before_month(y, month_split(y, m, days).0) + month_split(y, m, days).1 == days
            + days_before_month(y, m),
    decreases 13 - m,
{
    if m >= 12 || days < days_in_month(y, m) {
        if m >= 12 {
            lemma_months_sum(y);
            assert(days_before_month(y, 13) == days_before_month(y, 12) + days_in_month(y, 12));
        }
    } else {
        lemma_month_split_props(y, m + 1, days - days_in_month(y, m));
    }
}

/// Where the year search lands: the decomposition of the day count into
/// full years and a day offset inside the found year.
proof fn lemma_year_split_props(y: int, days: int)
    requires
        y >= 1970,
        0 <= days,
    ensures
        year_split(y, days).0 >= y,
        0 <= year_split(y, days).1 < days_in_year(year_split(y, days).0),
        days_before_year(year_split(y, days).0) + year_split(y, days).1 == days + days_before_year(
            y,
        ),
    decreases days,
{
    if days >= days_in_year(y) {
        lemma_year_split_props(y + 1, days - days_in_year(y));
    }
}

/// Days in year `y`, executable.
fn days_in_year_x(y: u32) -> (r: u32)
    ensures
        r as int == days_in_year(y as int),
{
    if (y % 4 == 0 && y % 100 != 0) || y % 400 == 0 {
        366
    } else {
        365
    }
}

/// Days in month `m` of year `y`, executable.
pub fn days_in_month_x(y: u32, m: u32) -> (r: u32)
    ensures
        r as int == days_in_month(y as int, m as int),
        28 <= r <= 31,
{
    if m == 2 {
        if (y % 4 == 0 && y % 100 != 0) || y % 400 == 0 {
            29
        } else {
            28
        }
    } else if m == 4 || m == 6 || m == 9 || m == 11 {
        30
    } else {
        31
    }
}

/// The civil date of day number `days` since 1970-01-01.
pub fn civil_of_days(days: u32) -> (r: (u32, u32, u32))
    requires
        days < DAYS_TO_YEAR_10000,
    ensures
        (r.0 as int, r.1 as int, r.2 as int) == civil_from_days(days as int),
        1970 <= r.0 <= 9999,
        1 <= r.1 <= 12,
        1 <= r.2 <= 31,
        days_from_civil(r.0 as int, r.1 as int, r.2 as int) == days,
{
    let mut y: u32 = 1970;
    let mut rem: u32 = days;
    loop
        invariant
            1970 <= y <= 10000,
            year_split(1970, days as int) == year_split(y as int, rem as int),
            days_before_year(y as int) + rem == days,
            rem <= days,
            days < DAYS_TO_YEAR_10000,
        ensures
            year_split(1970, days as int) == (y as int, rem as int),
            days_before_year(y as int) + rem == days,
            (rem as int) < days_in_year(y as int),
            1970 <= y <= 9999,
        decreases rem,
    {
        let dy = days_in_year_x(y);
        if rem < dy {
            proof {
                assert(year_split(y as int, rem as int) == (y as int, rem as int));
                if y as int > 9999 {
                    lemma_days_before_year_mono(10000, y as int);
                    lemma_days_to_year_10000();
                }
            }
            break ;
        }
        proof {
            assert(year_split(y as int, rem as int) == year_split(
                y as int + 1,
                rem - days_in_year(y as int),
            ));
            assert(days_before_year(y as int + 1) == days_before_year(y as int) + days_in_year(
                y as int,
            ));
            if y as int + 1 > 10000 {
                lemma_days_before_year_mono(10000, y as int);
                lemma_days_to_year_10000();
            }
        }
        rem = rem - dy;
        y = y + 1;
    }
    let ghost yr = y as int;
    let ghost rem0 = rem as int;
    proof {
        assert(days_before_month(yr, 1) == 0);
        lemma_month_split_props(yr, 1, rem0);
    }
    let mut m: u32 = 1;
    loop
        invariant
            1 <= m <= 12,
            1970 <= y <= 9999,
            y as int == yr,
            rem < 366,
            month_split(yr, 1, rem0) == month_split(yr, m as int, rem as int),
            0 <= month_split(yr, 1, rem0).1 < days_in_month(yr, month_split(yr, 1, rem0).0),
            1 <= month_split(yr, 1, rem0).0 <= 12,
            days_before_month(yr, month_split(yr, 1, rem0).0) + month_split(yr, 1, rem0).1 == rem0,
            days_before_year(yr) + rem0 == days,
        ensures
            month_split(yr, 1, rem0) == (m as int, rem as int),
            1 <= m <= 12,
            (rem as int) < days_in_month(yr, m as int),
            days_before_month(yr, m as int) + rem == rem0,
            y as int == yr,
            days_before_year(yr) + rem0 == days,
        decreases 12 - m,
    {
        let dm = days_in_month_x(y, m);
        if m >= 12 || rem < dm {
            proof {
                assert(month_split(yr, m as int, rem as int) == (m as int, rem as int));
            }
            break ;
        }
        proof {
            assert(month_split(yr, m as int, rem as int) == month_split(
                yr,
                m as int + 1,
                rem - days_in_month(yr, m as int),
            ));
        }
        rem = rem - dm;
        m = m + 1;
    }
    (y, m, rem + 1)
}

/// The day number of a valid civil date below year 10000.
pub fn days_of_civil(y: u32, m: u32, d: u32) -> (r: u32)
    requires
        1970 <= y <= 9999,
        1 <= m <= 12,
        1 <= d,
        d as int <= days_in_month(y as int, m as int),
    ensures
        r as int == days_from_civil(y as int, m as int, d as int),
        r < DAYS_TO_YEAR_10000,
{
    let mut acc: u32 = 0;
    let mut yy: u32 = 1970;
    while yy < y
        invariant
            1970 <= yy <= y <= 9999,
            acc as int == days_before_year(yy as int),
        decreases y - yy,
    {
        proof {
            assert(days_before_year(yy as int + 1) == days_before_year(yy as int) + days_in_year(
                yy as int,
            ));
            lemma_days_before_year_mono(yy as int + 1, 10000);
            lemma_days_to_year_10000();
            lemma_days_before_year_nonneg(yy as int);
        }
        let dy = days_in_year_x(yy);
        acc = acc + dy;
        yy = yy + 1;
    }
    proof {
        lemma_days_before_year_mono(y as int, 10000);
        lemma_days_to_year_10000();
        lemma_days_before_year_nonneg(y as int);
    }
    let mut mm: u32 = 1;
    let mut moff: u32 = 0;
    while mm < m
        invariant
            1 <= mm <= m <= 12,
            moff as int == days_before_month(y as int, mm as int),
            moff <= 366,
        decreases m - mm,
    {
        proof {
            lemma_days_before_month_bound(y as int, mm as int + 1);
        }
        let dm = days_in_month_x(y, mm);
        moff = moff + dm;
        mm = mm + 1;
    }
    proof {
        lemma_days_from_civil_bound(y as int, m as int, d as int);
        lemma_days_to_year_10000();
    }
    acc + moff + (d - 1)
}

/// Month offsets within a year stay at or below a year's length.
proof fn lemma_days_before_month_bound(y: int, m: int)
    requires
        1 <= m <= 13,
    ensures
        0 <= days_before_month(y, m) <= 366,
    decreases m,
{
    if m > 1 {
        lemma_days_before_month_bound(y, m - 1);
        lemma_months_sum(y);
        lemma_days_before_month_mono(y, m, 13);
    }
}

proof fn lemma_days_before_month_mono(y: int, a: int, b: int)
    requires
        1 <= a <= b,
    ensures
        days_before_month(y, a) <= days_before_month(y, b),
    decreases b - a,
{
    if a < b {
        lemma_days_before_month_mono(y, a, b - 1);
    }
}

/// A valid civil date below year 10000 has a day number below
/// 10000-01-01's.
proof fn lemma_days_from_civil_bound(y: int, m: int, d: int)
    requires
        1970 <= y <= 9999,
        1 <= m <= 12,
        1 <= d <= days_in_month(y, m),
    ensures
        0 <= days_from_civil(y, m, d) < days_before_year(10000),
{
    lemma_days_before_year_mono(1970, y);
    lemma_days_before_year_mono(y + 1, 10000);
    lemma_days_before_month_bound(y, m);
    lemma_months_sum(y);
    lemma_days_before_month_mono(y, m + 1, 13);
    assert(days_before_month(y, m + 1) == days_before_month(y, m) + days_in_month(y, m));
    assert(days_before_year(y + 1) == days_before_year(y) + days_in_year(y));
}

/// Two fixed decimal digits.
pub open spec fn pad2(n: int) -> Seq<char> {
    seq![digit_char(((n / 10) % 10) as nat), digit_char((n % 10) as nat)]
}

/// Three fixed decimal digits.
pub open spec fn pad3(n: int) -> Seq<char> {
    seq![digit_char(((n / 100) % 10) as nat)] + pad2(n)
}

/// Four fixed decimal digits.
pub open spec fn pad4(n: int) -> Seq<char> {
    seq![digit_char(((n / 1000) % 10) as nat)] + pad3(n)
}

/// Day number (since 1970-01-01) of the timestamp `ms`.
pub open spec fn days_part(ms: int) -> int {
    ms / 1000 / 60 / 60 / 24
}

pub open spec fn hh_of(ms: int) -> int {
    ms / 1000 / 60 / 60 % 24
}

pub open spec fn mi_of(ms: int) -> int {
    ms / 1000 / 60 % 60
}

pub open spec fn ss_of(ms: int) -> int {
    ms / 1000 % 60
}

pub open spec fn ms3_of(ms: int) -> int {
    ms % 1000
}

/// The canonical RFC-3339 UTC text of `ms` milliseconds since the Unix
/// epoch: `YYYY-MM-DDTHH:MM:SS.mmmZ`.
pub open spec fn rfc3339_utc_of(ms: int) -> Seq<char> {
    let ymd = civil_from_days(days_part(ms));
    pad4(ymd.0) + seq!['-'] + pad2(ymd.1) + seq!['-'] + pad2(ymd.2) + seq!['T'] + pad2(hh_of(ms))
        + seq![':'] + pad2(mi_of(ms)) + seq![':'] + pad2(ss_of(ms)) + seq!['.'] + pad3(ms3_of(ms))
        + seq!['Z']
}

fn push_pad2(n: u32, out: &mut Vec<char>)
    ensures
        final(out)@ == old(out)@ + pad2(n as int),
{
    let d1: u8 = ((n / 10) % 10) as u8;
    let d0: u8 = (n % 10) as u8;
    out.push((48 + d1) as char);
    out.push((48 + d0) as char);
    assert(out@ =~= old(out)@ + pad2(n as int));
}

fn push_pad3(n: u32, out: &mut Vec<char>)
    ensures
        final(out)@ == old(out)@ + pad3(n as int),
{
    let d2: u8 = ((n / 100) % 10) as u8;
    out.push((48 + d2) as char);
    push_pad2(n, out);
    assert(out@ =~= old(out)@ + pad3(n as int));
}

fn push_pad4(n: u32, out: &mut Vec<char>)
    ensures
        final(out)@ == old(out)@ + pad4(n as int),
{
    let d3: u8 = ((n / 1000) % 10) as u8;
    out.push((48 + d3) as char);
    push_pad3(n, out);
    assert(out@ =~= old(out)@ + pad4(n as int));
}

/// A renderable timestamp's day number lies before 10000-01-01.
proof fn lemma_days_part_bound(ms: int)
    requires
        0 <= ms <= MAX_STAMP_MS as int,
    ensures
        0 <= days_part(ms) < DAYS_TO_YEAR_10000 as int,
        days_part(ms) == ms / 86_400_000,
{
    vstd::arithmetic::div_mod::lemma_div_denominator(ms, 1000, 60);
    vstd::arithmetic::div_mod::lemma_div_denominator(ms, 60_000, 60);
    vstd::arithmetic::div_mod::lemma_div_denominator(ms, 3_600_000, 24);
    lemma_fundamental_div_mod(ms, 86_400_000);
    assert(ms / 86_400_000 < DAYS_TO_YEAR_10000 as int) by (nonlinear_arith)
        requires
            ms == 86_400_000 * (ms / 86_400_000) + ms % 86_400_000,
            0 <= ms % 86_400_000 < 86_400_000,
            ms <= MAX_STAMP_MS as int,
            MAX_STAMP_MS as int == 86_400_000 * (DAYS_TO_YEAR_10000 as int) - 1,
    ;
}

/// Renders `ms` as the canonical run identifier,
/// `YYYY-MM-DDTHH:MM:SS.mmmZ`.
pub fn time_string_from_timestamp_ms(ms: i64) -> (r: String)
    requires
        0 <= ms <= MAX_STAMP_MS,
    ensures
        r@ == rfc3339_utc_of(ms as int),
{
    let ms3: u32 = (ms % 1000) as u32;
    let t1: i64 = ms / 1000;
    let ss: u32 = (t1 % 60) as u32;
    let t2: i64 = t1 / 60;
    let mi: u32 = (t2 % 60) as u32;
    let t3: i64 = t2 / 60;
    let hh: u32 = (t3 % 24) as u32;
    let days64: i64 = t3 / 24;
    proof {
        lemma_days_part_bound(ms as int);
    }
    let days: u32 = days64 as u32;
    let civ = civil_of_days(days);
    let mut v: Vec<char> = Vec::new();
    push_pad4(civ.0, &mut v);
    v.push('-');
    push_pad2(civ.1, &mut v);
    v.push('-');
    push_pad2(civ.2, &mut v);
    v.push('T');
    push_pad2(hh, &mut v);
    v.push(':');
    push_pad2(mi, &mut v);
    v.push(':');
    push_pad2(ss, &mut v);
    v.push('.');
    push_pad3(ms3, &mut v);
    v.push('Z');
    proof {
        assert(v@ =~= rfc3339_utc_of(ms as int));
    }
    chars_to_string(v)
}

/// The civil date (year, month, day) of the timestamp `ms`.
pub fn civil_of_ms(ms: i64) -> (r: (u32, u32, u32))
    requires
        0 <= ms <= MAX_STAMP_MS,
    ensures
        (r.0 as int, r.1 as int, r.2 as int) == civil_from_days(days_part(ms as int)),
        1970 <= r.0 <= 9999,
        1 <= r.1 <= 12,
        1 <= r.2 <= 31,
{
    let t1: i64 = ms / 1000;
    let t2: i64 = t1 / 60;
    let t3: i64 = t2 / 60;
    let days64: i64 = t3 / 24;
    proof {
        lemma_days_part_bound(ms as int);
    }
    civil_of_days(days64 as u32)
}

/// `pad2` renders the low two decimal digits.
proof fn lemma_pad2_val(n: int)
    requires
        0 <= n,
    ensures
        pad2(n).len() == 2,
        all_dec_digits(pad2(n)),
        dec_val(pad2(n)) == n % 100,
{
    lemma_digit_char_val(((n / 10) % 10) as nat);
    lemma_digit_char_val((n % 10) as nat);
    let a = seq![digit_char(((n / 10) % 10) as nat)];
    let b = seq![digit_char((n % 10) as nat)];
    assert(pad2(n) =~= a + b);
    lemma_dec_val_single(digit_char(((n / 10) % 10) as nat));
    lemma_dec_val_single(digit_char((n % 10) as nat));
    lemma_dec_val_concat(a, b);
    assert(pow10(1) == 10 * pow10(0));
    lemma_fundamental_div_mod(n, 10);
    lemma_fundamental_div_mod(n / 10, 10);
    lemma_fundamental_div_mod(n, 100);
    assert(((n / 10) % 10) * 10 + n % 10 == n % 100) by (nonlinear_arith)
        requires
            n >= 0,
            n == 10 * (n / 10) + n % 10,
            0 <= n % 10 < 10,
            n / 10 == 10 * (n / 10 / 10) + (n / 10) % 10,
            0 <= (n / 10) % 10 < 10,
            n == 100 * (n / 100) + n % 100,
            0 <= n % 100 < 100,
    ;
}

/// `pad3` renders the low three decimal digits.
proof fn lemma_pad3_val(n: int)
    requires
        0 <= n,
    ensures
        pad3(n).len() == 3,
        all_dec_digits(pad3(n)),
        dec_val(pad3(n)) == n % 1000,
{
    lemma_pad2_val(n);
    lemma_digit_char_val(((n / 100) % 10) as nat);
    let a = seq![digit_char(((n / 100) % 10) as nat)];
    lemma_dec_val_single(digit_char(((n / 100) % 10) as nat));
    lemma_dec_val_concat(a, pad2(n));
    assert(pow10(2) == 10 * pow10(1) && pow10(1) == 10 * pow10(0));
    lemma_fundamental_div_mod(n, 100);
    lemma_fundamental_div_mod(n / 100, 10);
    lemma_fundamental_div_mod(n, 1000);
    assert(((n / 100) % 10) * 100 + n % 100 == n % 1000) by (nonlinear_arith)
        requires
            n >= 0,
            n == 100 * (n / 100) + n % 100,
            0 <= n % 100 < 100,
            n / 100 == 10 * (n / 100 / 10) + (n / 100) % 10,
            0 <= (n / 100) % 10 < 10,
            n == 1000 * (n / 1000) + n % 1000,
            0 <= n % 1000 < 1000,
    ;
}

/// `pad4` renders the low four decimal digits.
proof fn lemma_pad4_val(n: int)
    requires
        0 <= n,
    ensures
        pad4(n).len() == 4,
        all_dec_digits(pad4(n)),
        dec_val(pad4(n)) == n % 10000,
{
    lemma_pad3_val(n);
    lemma_digit_char_val(((n / 1000) % 10) as nat);
    let a = seq![digit_char(((n / 1000) % 10) as nat)];
    lemma_dec_val_single(digit_char(((n / 1000) % 10) as nat));
    lemma_dec_val_concat(a, pad3(n));
    assert(pow10(3) == 10 * pow10(2) && pow10(2) == 10 * pow10(1) && pow10(1) == 10 * pow10(0));
    lemma_fundamental_div_mod(n, 1000);
    lemma_fundamental_div_mod(n / 1000, 10);
    lemma_fundamental_div_mod(n, 10000);
    assert(((n / 1000) % 10) * 1000 + n % 1000 == n % 10000) by (nonlinear_arith)
        requires
            n >= 0,
            n == 1000 * (n / 1000) + n % 1000,
            0 <= n % 1000 < 1000,
            n / 1000 == 10 * (n / 1000 / 10) + (n / 1000) % 10,
            0 <= (n / 1000) % 10 < 10,
            n == 10000 * (n / 10000) + n % 10000,
            0 <= n % 10000 < 10000,
    ;
}

/// Splitting a day count into a civil date and recombining returns the
/// day count: the two directions are inverses.
pub proof fn lemma_civil_round_trip(days: int)
    requires
        0 <= days < DAYS_TO_YEAR_10000 as int,
    ensures
        1970 <= civil_from_days(days).0 <= 9999,
        1 <= civil_from_days(days).1 <= 12,
        1 <= civil_from_days(days).2 <= days_in_month(
            civil_from_days(days).0,
            civil_from_days(days).1,
        ),
        days_from_civil(civil_from_days(days).0, civil_from_days(days).1, civil_from_days(days).2)
            == days,
{
    lemma_year_split_props(1970, days);
    let yr = year_split(1970, days);
    if yr.0 > 9999 {
        lemma_days_before_year_mono(10000, yr.0);
        lemma_days_to_year_10000();
    }
    assert(days_before_month(yr.0, 1) == 0);
    lemma_month_split_props(yr.0, 1, yr.1);
}


/// Splits the 24-character stamp text into its fixed-position pieces.
#[verifier::rlimit(60)]
proof fn lemma_split24(
    s: Seq<char>,
    a: Seq<char>,
    b: Seq<char>,
    c: Seq<char>,
    d: Seq<char>,
    e: Seq<char>,
    f: Seq<char>,
    g: Seq<char>,
)
    requires
        a.len() == 4,
        b.len() == 2,
        c.len() == 2,
        d.len() == 2,
        e.len() == 2,
        f.len() == 2,
        g.len() == 3,
        s == a + seq!['-'] + b + seq!['-'] + c + seq!['T'] + d + seq![':'] + e + seq![':'] + f
            + seq!['.'] + g + seq!['Z'],
    ensures
        s.len() == 24,
        s.subrange(0, 4) == a,
        s[4] == '-',
        s.subrange(5, 7) == b,
        s[7] == '-',
        s.subrange(8, 10) == c,
        s[10] == 'T',
        s.subrange(11, 13) == d,
        s[13] == ':',
        s.subrange(14, 16) == e,
        s[16] == ':',
        s.subrange(17, 19) == f,
        s[19] == '.',
        s.subrange(20, 23) == g,
        s[23] == 'Z',
{
    let p2 = a + seq!['-'];
    let p3 = p2 + b;
    let p4 = p3 + seq!['-'];
    let p5 = p4 + c;
    let p6 = p5 + seq!['T'];
    let p7 = p6 + d;
    let p8 = p7 + seq![':'];
    let p9 = p8 + e;
    let p10 = p9 + seq![':'];
    let p11 = p10 + f;
    let p12 = p11 + seq!['.'];
    let p13 = p12 + g;
    let p14 = p13 + seq!['Z'];
    assert(s == p14);
    assert(s.subrange(0, 4) =~= a);
    assert(s.subrange(5, 7) =~= b);
    assert(s.subrange(8, 10) =~= c);
    assert(s.subrange(11, 13) =~= d);
    assert(s.subrange(14, 16) =~= e);
    assert(s.subrange(17, 19) =~= f);
    assert(s.subrange(20, 23) =~= g);
}

/// The numeric facts of a renderable timestamp: component ranges, the
/// civil round trip, and the recomposition of the milliseconds.
proof fn lemma_stamp_arith(ms: int)
    requires
        0 <= ms <= MAX_STAMP_MS as int,
    ensures
        1970 <= civil_from_days(days_part(ms)).0 <= 9999,
        1 <= civil_from_days(days_part(ms)).1 <= 12,
        1 <= civil_from_days(days_part(ms)).2 <= days_in_month(
            civil_from_days(days_part(ms)).0,
            civil_from_days(days_part(ms)).1,
        ),
        0 <= hh_of(ms) < 24 && 0 <= mi_of(ms) < 60 && 0 <= ss_of(ms) < 60 && 0 <= ms3_of(ms)
            < 1000,
        days_from_civil(
            civil_from_days(days_part(ms)).0,
            civil_from_days(days_part(ms)).1,
            civil_from_days(days_part(ms)).2,
        ) == days_part(ms),
        days_part(ms) * 86_400_000 + hh_of(ms) * 3_600_000 + mi_of(ms) * 60_000 + ss_of(ms) * 1000
            + ms3_of(ms) == ms,
{
    lemma_days_part_bound(ms);
    lemma_civil_round_trip(days_part(ms));
    lemma_fundamental_div_mod(ms, 1000);
    lemma_fundamental_div_mod(ms / 1000, 60);
    lemma_fundamental_div_mod(ms / 1000 / 60, 60);
    lemma_fundamental_div_mod(ms / 1000 / 60 / 60, 24);
}

/// What the canonical text of a renderable timestamp looks like, field
/// by field: each fixed-width number reads back as its component, and
/// the components recombine into the timestamp.
#[verifier::rlimit(100)]
#[verifier::spinoff_prover]
proof fn lemma_stamp_fields(s: Seq<char>, ms: int)
    requires
        0 <= ms <= MAX_STAMP_MS as int,
        s == rfc3339_utc_of(ms),
    ensures
        s.len() == 24,
        s[4] == '-' && s[7] == '-' && s[10] == 'T' && s[13] == ':' && s[16] == ':' && s[19] == '.'
            && s[23] == 'Z',
        all_dec_digits(s.subrange(0, 4)) && dec_val(s.subrange(0, 4)) == civil_from_days(
            days_part(ms),
        ).0,
        all_dec_digits(s.subrange(5, 7)) && dec_val(s.subrange(5, 7)) == civil_from_days(
            days_part(ms),
        ).1,
        all_dec_digits(s.subrange(8, 10)) && dec_val(s.subrange(8, 10)) == civil_from_days(
            days_part(ms),
        ).2,
        all_dec_digits(s.subrange(11, 13)) && dec_val(s.subrange(11, 13)) == hh_of(ms),
        all_dec_digits(s.subrange(14, 16)) && dec_val(s.subrange(14, 16)) == mi_of(ms),
        all_dec_digits(s.subrange(17, 19)) && dec_val(s.subrange(17, 19)) == ss_of(ms),
        all_dec_digits(s.subrange(20, 23)) && dec_val(s.subrange(20, 23)) == ms3_of(ms),
        1970 <= civil_from_days(days_part(ms)).0 <= 9999,
        1 <= civil_from_days(days_part(ms)).1 <= 12,
        1 <= civil_from_days(days_part(ms)).2 <= days_in_month(
            civil_from_days(days_part(ms)).0,
            civil_from_days(days_part(ms)).1,
        ),
        0 <= hh_of(ms) < 24 && 0 <= mi_of(ms) < 60 && 0 <= ss_of(ms) < 60 && 0 <= ms3_of(ms)
            < 1000,
        days_from_civil(
            civil_from_days(days_part(ms)).0,
            civil_from_days(days_part(ms)).1,
            civil_from_days(days_part(ms)).2,
        ) == days_part(ms),
        days_part(ms) * 86_400_000 + hh_of(ms) * 3_600_000 + mi_of(ms) * 60_000 + ss_of(ms) * 1000
            + ms3_of(ms) == ms,
{
    lemma_stamp_arith(ms);
    let c = civil_from_days(days_part(ms));
    lemma_pad4_val(c.0);
    lemma_pad2_val(c.1);
    lemma_pad2_val(c.2);
    lemma_pad2_val(hh_of(ms));
    lemma_pad2_val(mi_of(ms));
    lemma_pad2_val(ss_of(ms));
    lemma_pad3_val(ms3_of(ms));
    lemma_split24(
        s,
        pad4(c.0),
        pad2(c.1),
        pad2(c.2),
        pad2(hh_of(ms)),
        pad2(mi_of(ms)),
        pad2(ss_of(ms)),
        pad3(ms3_of(ms)),
    );
    assert(c.0 % 10000 == c.0);
    assert(c.1 % 100 == c.1);
    assert(c.2 % 100 == c.2);
    assert(hh_of(ms) % 100 == hh_of(ms));
    assert(mi_of(ms) % 100 == mi_of(ms));
    assert(ss_of(ms) % 100 == ss_of(ms));
    assert(ms3_of(ms) % 1000 == ms3_of(ms));
}

/// Distinct timestamps render to distinct run identifiers: the text
/// identifies the start time uniquely.
pub proof fn lemma_run_id_injective(a: int, b: int)
    requires
        0 <= a <= MAX_STAMP_MS as int,
        0 <= b <= MAX_STAMP_MS as int,
        rfc3339_utc_of(a) == rfc3339_utc_of(b),
    ensures
        a == b,
{
    let s = rfc3339_utc_of(a);
    lemma_stamp_fields(s, a);
    lemma_stamp_fields(s, b);
}

/// Reads a canonical run identifier back into its timestamp.  Succeeds
/// exactly on the renderings of timestamps up to `MAX_STAMP_MS`.
pub fn parse_run_id(s: &str) -> (r: Option<i64>)
    ensures
        r matches Some(v) ==> 0 <= v <= MAX_STAMP_MS && s@ == rfc3339_utc_of(v as int),
        r is None ==> forall|v: i64|
            !(0 <= v <= MAX_STAMP_MS && s@ == #[trigger] rfc3339_utc_of(v as int)),
{
    let len = s.unicode_len();
    if len != 24 {
        proof {
            assert forall|v: i64|
                !(0 <= v <= MAX_STAMP_MS && s@ == #[trigger] rfc3339_utc_of(v as int)) by {
                if 0 <= v <= MAX_STAMP_MS && s@ == rfc3339_utc_of(v as int) {
                    lemma_stamp_fields(s@, v as int);
                }
            }
        }
        return None;
    }
    if s.get_char(4) != '-' || s.get_char(7) != '-' || s.get_char(10) != 'T' || s.get_char(13)
        != ':' || s.get_char(16) != ':' || s.get_char(19) != '.' || s.get_char(23) != 'Z' {
        proof {
            assert forall|v: i64|
                !(0 <= v <= MAX_STAMP_MS && s@ == #[trigger] rfc3339_utc_of(v as int)) by {
                if 0 <= v <= MAX_STAMP_MS && s@ == rfc3339_utc_of(v as int) {
                    lemma_stamp_fields(s@, v as int);
                }
            }
        }
        return None;
    }
    let ysub = s.substring_char(0, 4);
    let mosub = s.substring_char(5, 7);
    let dsub = s.substring_char(8, 10);
    let hhsub = s.substring_char(11, 13);
    let misub = s.substring_char(14, 16);
    let sssub = s.substring_char(17, 19);
    let mssub = s.substring_char(20, 23);
    let yv = parse_dec_u64(ysub);
    let mov = parse_dec_u64(mosub);
    let dv = parse_dec_u64(dsub);
    let hhv = parse_dec_u64(hhsub);
    let miv = parse_dec_u64(misub);
    let ssv = parse_dec_u64(sssub);
    let msv = parse_dec_u64(mssub);
    proof {
        lemma_dec_val_bound(ysub@);
        lemma_dec_val_bound(mosub@);
        lemma_dec_val_bound(dsub@);
        lemma_dec_val_bound(hhsub@);
        lemma_dec_val_bound(misub@);
        lemma_dec_val_bound(sssub@);
        lemma_dec_val_bound(mssub@);
        assert(pow10(4) == 10 * pow10(3) && pow10(3) == 10 * pow10(2) && pow10(2) == 10 * pow10(1)
            && pow10(1) == 10 * pow10(0) && pow10(0) == 1);
    }
    let (y, mo, d, hh, mi, ss2, ms3) = match (yv, mov, dv, hhv, miv, ssv, msv) {
        (Some(a), Some(b), Some(c), Some(dd), Some(e), Some(f), Some(g)) => (a, b, c, dd, e, f, g),
        _ => {
            proof {
                assert forall|v: i64|
                    !(0 <= v <= MAX_STAMP_MS && s@ == #[trigger] rfc3339_utc_of(v as int)) by {
                    if 0 <= v <= MAX_STAMP_MS && s@ == rfc3339_utc_of(v as int) {
                        lemma_stamp_fields(s@, v as int);
                    }
                }
            }
            return None;
        },
    };
    if !(1970 <= y && y <= 9999 && 1 <= mo && mo <= 12 && 1 <= d && hh < 24 && mi < 60 && ss2
        < 60) {
        proof {
            assert forall|v: i64|
                !(0 <= v <= MAX_STAMP_MS && s@ == #[trigger] rfc3339_utc_of(v as int)) by {
                if 0 <= v <= MAX_STAMP_MS && s@ == rfc3339_utc_of(v as int) {
                    lemma_stamp_fields(s@, v as int);
                }
            }
        }
        return None;
    }
    let dim = days_in_month_x(y as u32, mo as u32);
    if d > dim as u64 {
        proof {
            assert forall|v: i64|
                !(0 <= v <= MAX_STAMP_MS && s@ == #[trigger] rfc3339_utc_of(v as int)) by {
                if 0 <= v <= MAX_STAMP_MS && s@ == rfc3339_utc_of(v as int) {
                    lemma_stamp_fields(s@, v as int);
                }
            }
        }
        return None;
    }
    let days = days_of_civil(y as u32, mo as u32, d as u32);
    let cand: i64 = (days as i64) * 86_400_000 + (hh as i64) * 3_600_000 + (mi as i64) * 60_000 + (
    ss2 as i64) * 1000 + (ms3 as i64);
    proof {
        assert(cand <= MAX_STAMP_MS);
    }
    let rendered = time_string_from_timestamp_ms(cand);
    if str_eq(s, rendered.as_str()) {
        Some(cand)
    } else {
        proof {
            assert forall|v: i64|
                !(0 <= v <= MAX_STAMP_MS && s@ == #[trigger] rfc3339_utc_of(v as int)) by {
                if 0 <= v <= MAX_STAMP_MS && s@ == rfc3339_utc_of(v as int) {
                    lemma_stamp_fields(s@, v as int);
                    assert(days as int == days_part(v as int));
                    assert(cand as int == v as int);
                }
            }
        }
        None
    }
}

} // verus!
