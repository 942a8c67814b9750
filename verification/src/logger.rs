//! The pure parts of the JSONL session log: the records it holds about a
//! committed segment and the end of a session, and the UTC time stamp
//! (`YYYYMMDD-HHMMSS`) that names a session file.

use vstd::prelude::*;
use crate::text::{
    lemma_lex_less_append, lemma_zero_padded_order, lex_less, pow10, push_zero_padded,
    string_from_chars, zero_padded,
};

verus! {

/// A segment cut by the voice activity detector, as committed to the log.
#[derive(Clone, Copy, Debug, PartialEq, Eq, Structural)]
pub struct SegmentCommitInfo {
    /// The number of the segment within the session, from 0.
    pub segment_id: u64,
    /// Where the segment starts in the detector's 16 kHz buffer.
    pub start_sample: i32,
    /// The number of samples of the segment.
    pub samples: u32,
    /// The duration of the segment in milliseconds.
    pub duration_ms: u64,
}

/// Why a session ended.
#[derive(Clone, Copy, Debug, PartialEq, Eq, Structural)]
pub enum SessionEndReason {
    CtrlC,
    CleanExit,
    Error,
}

/// The duration in milliseconds of `n_samples` samples at `sample_rate` Hz
/// (a rate of 0 counts as 1).
pub open spec fn duration_ms_spec(n_samples: nat, sample_rate: nat) -> nat {
    (n_samples * 1000) / vstd::math::max(sample_rate as int, 1) as nat
}

/// The log record of a committed segment: `samples` is the sample count
/// truncated to 32 bits, `duration_ms` is `n_samples * 1000 / sample_rate`.
pub fn segment_commit_info(segment_id: u64, start_sample: i32, n_samples: usize, sample_rate: u32)
    -> (res: SegmentCommitInfo)
    requires
        n_samples * 1000 <= u64::MAX,
    ensures
        res.segment_id == segment_id,
        res.start_sample == start_sample,
        res.samples == n_samples as u32,
        res.duration_ms == duration_ms_spec(n_samples as nat, sample_rate as nat),
{
    let rate: u64 = if sample_rate == 0 {
        1
    } else {
        sample_rate as u64
    };
    SegmentCommitInfo {
        segment_id,
        start_sample,
        samples: n_samples as u32,
        duration_ms: (n_samples as u64) * 1000 / rate,
    }
}

/// The duration is the number of whole milliseconds the samples last: the
/// product `n_samples * 1000` is divided by the rate (a rate of 0 counting
/// as 1), so no fraction of a second is lost before the division.
pub proof fn lemma_duration_is_floor(n_samples: nat, sample_rate: nat)
    ensures
        ({
            let rate = if sample_rate == 0 {
                1
            } else {
                sample_rate
            };
            let ms = duration_ms_spec(n_samples, sample_rate);
            ms * rate <= n_samples * 1000 < (ms + 1) * rate
        }),
{
    let rate: int = if sample_rate == 0 {
        1
    } else {
        sample_rate as int
    };
    let x = (n_samples * 1000) as int;
    assert(vstd::math::max(sample_rate as int, 1) == rate);
    vstd::arithmetic::div_mod::lemma_fundamental_div_mod(x, rate);
    let q = x / rate;
    let r = x % rate;
    assert(q * rate <= x < (q + 1) * rate) by (nonlinear_arith)
        requires
            x == rate * q + r,
            0 <= r < rate,
    ;
}

// ---------------------------------------------------------------------------
// The Gregorian calendar
// ---------------------------------------------------------------------------

/// A leap year of the Gregorian calendar.
pub open spec fn is_leap_year(y: int) -> bool {
    (y % 4 == 0 && y % 100 != 0) || y % 400 == 0
}

/// Whether `y` is a leap year.
pub fn is_leap(y: i64) -> (res: bool)
    ensures
        res == is_leap_year(y as int),
{
    (y % 4 == 0 && y % 100 != 0) || y % 400 == 0
}

/// The number of days of year `y`.
pub open spec fn year_days(y: int) -> nat {
    if is_leap_year(y) {
        366
    } else {
        365
    }
}

/// The number of days of month `m` (1 to 12) of year `y`.
pub open spec fn month_days(y: int, m: int) -> nat {
    if m == 2 {
        if is_leap_year(y) {
            29
        } else {
            28
        }
    } else if m == 4 || m == 6 || m == 9 || m == 11 {
        30
    } else {
        31
    }
}

/// The number of days from 1970-01-01 to the first day of year `y`.
pub open spec fn days_before_year(y: int) -> nat
    decreases y - 1970,
{
    if y <= 1970 {
        0
    } else {
        days_before_year(y - 1) + year_days(y - 1)
    }
}

/// The number of days from the first day of year `y` to the first day of
/// its month `m`.
pub open spec fn days_before_month(y: int, m: int) -> nat
    decreases m,
{
    if m <= 1 {
        0
    } else {
        days_before_month(y, m - 1) + month_days(y, m - 1)
    }
}

/// A valid date from 1970 on.
pub open spec fn is_valid_date(y: int, m: int, d: int) -> bool {
    1970 <= y && 1 <= m <= 12 && 1 <= d <= month_days(y, m)
}

/// The number of days from 1970-01-01 to the date `y-m-d`.
pub open spec fn day_number(y: int, m: int, d: int) -> int {
    days_before_year(y) + days_before_month(y, m) + d - 1
}

/// The characters of the stamp `YYYYMMDD-HHMMSS` (the year has at least
/// four digits).
pub open spec fn stamp_chars(y: nat, mo: nat, d: nat, h: nat, mi: nat, s: nat) -> Seq<char> {
    zero_padded(y, 4) + zero_padded(mo, 2) + zero_padded(d, 2) + seq!['-'] + zero_padded(h, 2)
        + zero_padded(mi, 2) + zero_padded(s, 2)
}

/// The stamp of the instant `secs` seconds after 1970-01-01 00:00:00 UTC.
pub open spec fn is_stamp_of(res: Seq<char>, secs: nat) -> bool {
    exists|y: int, mo: int, d: int|
        #![trigger day_number(y, mo, d)]
        {
            &&& is_valid_date(y, mo, d)
            &&& day_number(y, mo, d) == secs / 86400
            &&& res == stamp_chars(
                y as nat,
                mo as nat,
                d as nat,
                (secs / 3600) % 24,
                (secs / 60) % 60,
                secs % 60,
            )
        }
}

proof fn lemma_days_before_year_grows(y: int)
    requires
        y >= 1970,
    ensures
        days_before_year(y) >= 365 * (y - 1970),
    decreases y - 1970,
{
    if y > 1970 {
        lemma_days_before_year_grows(y - 1);
    }
}

/// The twelve months of a year make up the year.
pub proof fn lemma_months_fill_year(y: int)
    ensures
        days_before_month(y, 13) == year_days(y),
{
    reveal_with_fuel(days_before_month, 13);
}

proof fn lemma_days_before_month_mono(y: int, m1: int, m2: int)
    requires
        1 <= m1 < m2,
    ensures
        days_before_month(y, m1) + month_days(y, m1) <= days_before_month(y, m2),
    decreases m2 - m1,
{
    if m2 > m1 + 1 {
        lemma_days_before_month_mono(y, m1, m2 - 1);
    }
}

proof fn lemma_days_before_year_mono(y1: int, y2: int)
    requires
        1970 <= y1 < y2,
    ensures
        days_before_year(y1) + year_days(y1) <= days_before_year(y2),
    decreases y2 - y1,
{
    if y2 > y1 + 1 {
        lemma_days_before_year_mono(y1, y2 - 1);
    }
}

proof fn lemma_day_within_year(y: int, m: int, d: int)
    requires
        is_valid_date(y, m, d),
    ensures
        days_before_year(y) <= day_number(y, m, d) < days_before_year(y) + year_days(y),
{
    lemma_months_fill_year(y);
    if m < 12 {
        lemma_days_before_month_mono(y, m, 13);
    } else {
        assert(days_before_month(y, 13) == days_before_month(y, 12) + month_days(y, 12));
    }
}

/// Two valid dates (from 1970 on) with the same day number are the same
/// date.
pub proof fn lemma_day_number_injective(y1: int, m1: int, d1: int, y2: int, m2: int, d2: int)
    requires
        is_valid_date(y1, m1, d1),
        is_valid_date(y2, m2, d2),
        day_number(y1, m1, d1) == day_number(y2, m2, d2),
    ensures
        y1 == y2 && m1 == m2 && d1 == d2,
{
    lemma_day_within_year(y1, m1, d1);
    lemma_day_within_year(y2, m2, d2);
    if y1 < y2 {
        lemma_days_before_year_mono(y1, y2);
    } else if y2 < y1 {
        lemma_days_before_year_mono(y2, y1);
    } else if m1 < m2 {
        lemma_days_before_month_mono(y1, m1, m2);
    } else if m2 < m1 {
        lemma_days_before_month_mono(y1, m2, m1);
    }
}

/// An instant has exactly one stamp.
pub proof fn lemma_stamp_unique(r1: Seq<char>, r2: Seq<char>, secs: nat)
    requires
        is_stamp_of(r1, secs),
        is_stamp_of(r2, secs),
    ensures
        r1 == r2,
{
    let (y1, m1, d1) = choose|y: int, mo: int, d: int|
        #![trigger day_number(y, mo, d)]
        {
            &&& is_valid_date(y, mo, d)
            &&& day_number(y, mo, d) == secs / 86400
            &&& r1 == stamp_chars(
                y as nat,
                mo as nat,
                d as nat,
                (secs / 3600) % 24,
                (secs / 60) % 60,
                secs % 60,
            )
        };
    let (y2, m2, d2) = choose|y: int, mo: int, d: int|
        #![trigger day_number(y, mo, d)]
        {
            &&& is_valid_date(y, mo, d)
            &&& day_number(y, mo, d) == secs / 86400
            &&& r2 == stamp_chars(
                y as nat,
                mo as nat,
                d as nat,
                (secs / 3600) % 24,
                (secs / 60) % 60,
                secs % 60,
            )
        };
    lemma_day_number_injective(y1, m1, d1, y2, m2, d2);
}

/// The leap years from year 1 to year `n`, counted by the Gregorian rule.
spec fn leaps_through(n: int) -> int {
    n / 4 - n / 100 + n / 400
}

proof fn lemma_div_step(n: int, d: int)
    requires
        n >= 1,
        d >= 1,
    ensures
        n / d - (n - 1) / d == (if n % d == 0 {
            1int
        } else {
            0int
        }),
{
    let q = (n - 1) / d;
    let r = (n - 1) % d;
    vstd::arithmetic::div_mod::lemma_fundamental_div_mod(n - 1, d);
    assert(n - 1 == q * d + r) by (nonlinear_arith)
        requires
            n - 1 == d * q + r,
    ;
    if r == d - 1 {
        assert(n == (q + 1) * d + 0) by (nonlinear_arith)
            requires
                n - 1 == q * d + r,
                r == d - 1,
        ;
        vstd::arithmetic::div_mod::lemma_fundamental_div_mod_converse(n, d, q + 1, 0);
    } else {
        vstd::arithmetic::div_mod::lemma_fundamental_div_mod_converse(n, d, q, r + 1);
    }
}

proof fn lemma_multiple_of(n: int, d: int, k: int)
    requires
        d > 0,
        k > 0,
        n % (d * k) == 0,
    ensures
        n % d == 0,
{
    assert(d * k > 0) by (nonlinear_arith)
        requires
            d > 0,
            k > 0,
    ;
    vstd::arithmetic::div_mod::lemma_fundamental_div_mod(n, d * k);
    let q = n / (d * k);
    assert(n == (q * k) * d + 0) by (nonlinear_arith)
        requires
            n == (d * k) * q + n % (d * k),
            n % (d * k) == 0,
    ;
    vstd::arithmetic::div_mod::lemma_fundamental_div_mod_converse(n, d, q * k, 0);
}

proof fn lemma_leaps_step(n: int)
    requires
        n >= 1,
    ensures
        leaps_through(n) == leaps_through(n - 1) + (if is_leap_year(n) {
            1int
        } else {
            0int
        }),
{
    lemma_div_step(n, 4);
    lemma_div_step(n, 100);
    lemma_div_step(n, 400);
    if n % 400 == 0 {
        lemma_multiple_of(n, 100, 4);
    }
    if n % 100 == 0 {
        lemma_multiple_of(n, 4, 25);
    }
}

/// The days before year `y` in closed form.
proof fn lemma_days_before_year_closed(y: int)
    requires
        y >= 1970,
    ensures
        days_before_year(y) == 365 * (y - 1970) + leaps_through(y - 1) - leaps_through(1969),
    decreases y - 1970,
{
    if y > 1970 {
        lemma_days_before_year_closed(y - 1);
        lemma_leaps_step(y - 1);
    }
}

/// The first day of year 10000, counted from 1970-01-01.
proof fn lemma_days_before_year_10000()
    ensures
        days_before_year(10000) == 2_932_897,
{
    lemma_days_before_year_closed(10000);
    assert(leaps_through(9999) == 2424);
    assert(leaps_through(1969) == 477);
}

/// Of two valid dates, the one with the smaller day number comes first in
/// (year, month, day) order.
proof fn lemma_date_order(y1: int, m1: int, d1: int, y2: int, m2: int, d2: int)
    requires
        is_valid_date(y1, m1, d1),
        is_valid_date(y2, m2, d2),
        day_number(y1, m1, d1) < day_number(y2, m2, d2),
    ensures
        y1 < y2 || (y1 == y2 && (m1 < m2 || (m1 == m2 && d1 < d2))),
{
    lemma_day_within_year(y1, m1, d1);
    lemma_day_within_year(y2, m2, d2);
    if y2 < y1 {
        lemma_days_before_year_mono(y2, y1);
    } else if y1 == y2 && m2 < m1 {
        lemma_days_before_month_mono(y1, m2, m1);
    }
}

/// The time of day of an instant, split into hours, minutes and seconds.
proof fn lemma_time_of_day(t: nat)
    ensures
        t == 86400 * (t / 86400) + 3600 * ((t / 3600) % 24) + 60 * ((t / 60) % 60) + t % 60,
        (t / 3600) % 24 < 24,
        (t / 60) % 60 < 60,
        t % 60 < 60,
{
    let a = t as int;
    vstd::arithmetic::div_mod::lemma_fundamental_div_mod(a, 60);
    vstd::arithmetic::div_mod::lemma_fundamental_div_mod(a / 60, 60);
    vstd::arithmetic::div_mod::lemma_fundamental_div_mod(a / 3600, 24);
    vstd::arithmetic::div_mod::lemma_div_denominator(a, 60, 60);
    vstd::arithmetic::div_mod::lemma_div_denominator(a, 3600, 24);
}

/// Stamps sort as the instants they name: of two instants before the first
/// day of year 10000, the later one has the later stamp in the order of
/// strings.
pub proof fn lemma_stamp_order(r1: Seq<char>, r2: Seq<char>, a: nat, b: nat)
    requires
        a < b,
        b < 86400 * days_before_year(10000),
        is_stamp_of(r1, a),
        is_stamp_of(r2, b),
    ensures
        lex_less(r1, r2),
{
    let (y1, m1, d1) = choose|y: int, mo: int, d: int|
        #![trigger day_number(y, mo, d)]
        {
            &&& is_valid_date(y, mo, d)
            &&& day_number(y, mo, d) == a / 86400
            &&& r1 == stamp_chars(
                y as nat,
                mo as nat,
                d as nat,
                (a / 3600) % 24,
                (a / 60) % 60,
                a % 60,
            )
        };
    let (y2, m2, d2) = choose|y: int, mo: int, d: int|
        #![trigger day_number(y, mo, d)]
        {
            &&& is_valid_date(y, mo, d)
            &&& day_number(y, mo, d) == b / 86400
            &&& r2 == stamp_chars(
                y as nat,
                mo as nat,
                d as nat,
                (b / 3600) % 24,
                (b / 60) % 60,
                b % 60,
            )
        };
    lemma_days_before_year_10000();
    lemma_time_of_day(a);
    lemma_time_of_day(b);
    // Both years have four digits.
    lemma_day_within_year(y1, m1, d1);
    lemma_day_within_year(y2, m2, d2);
    if y2 >= 10000 {
        if y2 > 10000 {
            lemma_days_before_year_mono(10000, y2);
        }
        assert(false);
    }
    if y1 >= 10000 {
        if y1 > 10000 {
            lemma_days_before_year_mono(10000, y1);
        }
        assert(false);
    }
    // The fields compare as the instants do.
    if a / 86400 < b / 86400 {
        lemma_date_order(y1, m1, d1, y2, m2, d2);
    } else {
        lemma_day_number_injective(y1, m1, d1, y2, m2, d2);
    }
    let h1 = (a / 3600) % 24;
    let h2 = (b / 3600) % 24;
    let i1 = (a / 60) % 60;
    let i2 = (b / 60) % 60;
    let s1 = a % 60;
    let s2 = b % 60;
    assert(pow10(4) == 10000 && pow10(2) == 100) by {
        reveal_with_fuel(pow10, 5);
    }
    lemma_zero_padded_order(y1 as nat, y2 as nat, 4);
    lemma_zero_padded_order(y2 as nat, y2 as nat, 4);
    lemma_zero_padded_order(m1 as nat, m2 as nat, 2);
    lemma_zero_padded_order(m2 as nat, m2 as nat, 2);
    lemma_zero_padded_order(d1 as nat, d2 as nat, 2);
    lemma_zero_padded_order(d2 as nat, d2 as nat, 2);
    lemma_zero_padded_order(h1, h2, 2);
    lemma_zero_padded_order(h2, h2, 2);
    lemma_zero_padded_order(i1, i2, 2);
    lemma_zero_padded_order(i2, i2, 2);
    lemma_zero_padded_order(s1, s2, 2);
    lemma_zero_padded_order(s2, s2, 2);
    let p1 = zero_padded(y1 as nat, 4);
    let p2 = zero_padded(y2 as nat, 4);
    let q1 = p1 + zero_padded(m1 as nat, 2);
    let q2 = p2 + zero_padded(m2 as nat, 2);
    if y1 < y2 {
        lemma_lex_less_append(p1, p2, zero_padded(m1 as nat, 2), zero_padded(m2 as nat, 2));
    } else if m1 < m2 {
        lemma_lex_less_append(p1, p2, zero_padded(m1 as nat, 2), zero_padded(m2 as nat, 2));
    }
    let e1 = q1 + zero_padded(d1 as nat, 2);
    let e2 = q2 + zero_padded(d2 as nat, 2);
    if lex_less(q1, q2) || d1 < d2 {
        lemma_lex_less_append(q1, q2, zero_padded(d1 as nat, 2), zero_padded(d2 as nat, 2));
    }
    let f1 = e1 + seq!['-'];
    let f2 = e2 + seq!['-'];
    if lex_less(e1, e2) {
        lemma_lex_less_append(e1, e2, seq!['-'], seq!['-']);
    }
    let g1 = f1 + zero_padded(h1, 2);
    let g2 = f2 + zero_padded(h2, 2);
    if lex_less(f1, f2) || h1 < h2 {
        lemma_lex_less_append(f1, f2, zero_padded(h1, 2), zero_padded(h2, 2));
    }
    let k1 = g1 + zero_padded(i1, 2);
    let k2 = g2 + zero_padded(i2, 2);
    if lex_less(g1, g2) || i1 < i2 {
        lemma_lex_less_append(g1, g2, zero_padded(i1, 2), zero_padded(i2, 2));
    }
    lemma_lex_less_append(k1, k2, zero_padded(s1, 2), zero_padded(s2, 2));
}

/// The day of the year, counted from 0, on which month `m` (1 to 12) of
/// year `y` begins: 0, 31, 59, 90, 120, 151, 181, 212, 243, 273, 304, 334,
/// one more from March on in a leap year.
pub open spec fn month_start(y: int, m: int) -> nat {
    let common = seq![0nat, 31, 59, 90, 120, 151, 181, 212, 243, 273, 304, 334];
    common[m - 1] + if m > 2 && is_leap_year(y) {
        1nat
    } else {
        0nat
    }
}

/// The first second of every month is stamped with that month's first day
/// at midnight: the months have the Gregorian lengths (January 31 days,
/// February 28 or 29, March 31, April 30, May 31, June 30, July 31, August
/// 31, September 30, October 31, November 30).
pub proof fn lemma_stamp_first_of_month(r: Seq<char>, y: int, m: int)
    requires
        1970 <= y,
        1 <= m <= 12,
        is_stamp_of(r, 86400 * (days_before_year(y) + month_start(y, m))),
    ensures
        r == stamp_chars(y as nat, m as nat, 1, 0, 0, 0),
{
    let day = days_before_year(y) + month_start(y, m);
    let secs: nat = 86400 * day;
    assert(secs / 86400 == day && secs / 3600 == 24 * day && secs / 60 == 1440 * day
        && secs % 60 == 0) by {
        vstd::arithmetic::div_mod::lemma_fundamental_div_mod_converse(secs as int, 86400, day as int, 0);
        vstd::arithmetic::div_mod::lemma_fundamental_div_mod_converse(secs as int, 3600, (24 * day) as int, 0);
        vstd::arithmetic::div_mod::lemma_fundamental_div_mod_converse(secs as int, 60, (1440 * day) as int, 0);
    }
    assert((24 * day) % 24 == 0) by {
        vstd::arithmetic::div_mod::lemma_fundamental_div_mod_converse((24 * day) as int, 24, day as int, 0);
    }
    assert((1440 * day) % 60 == 0) by {
        vstd::arithmetic::div_mod::lemma_fundamental_div_mod_converse((1440 * day) as int, 60, (24 * day) as int, 0);
    }
    assert(days_before_month(y, m) == month_start(y, m)) by {
        reveal_with_fuel(days_before_month, 13);
    }
    assert(is_valid_date(y, m, 1));
    assert(day_number(y, m, 1) == secs / 86400);
    let (y1, m1, d1) = choose|yy: int, mo: int, d: int|
        #![trigger day_number(yy, mo, d)]
        {
            &&& is_valid_date(yy, mo, d)
            &&& day_number(yy, mo, d) == secs / 86400
            &&& r == stamp_chars(
                yy as nat,
                mo as nat,
                d as nat,
                (secs / 3600) % 24,
                (secs / 60) % 60,
                secs % 60,
            )
        };
    lemma_day_number_injective(y1, m1, d1, y, m, 1);
}

fn year_length(y: u64) -> (res: u64)
    ensures
        res == year_days(y as int),
{
    if (y % 4 == 0 && y % 100 != 0) || y % 400 == 0 {
        366
    } else {
        365
    }
}

fn month_length(y: u64, m: u64) -> (res: u64)
    requires
        1 <= m <= 12,
    ensures
        res == month_days(y as int, m as int),
{
    if m == 2 {
        if (y % 4 == 0 && y % 100 != 0) || y % 400 == 0 {
            29
        } else {
            28
        }
    } else if m == 4 || m == 6 || m == 9 || m == 11 {
        30
    } else {
        31
    }
}

/// The UTC time stamp `YYYYMMDD-HHMMSS` of `secs` seconds after the Unix
/// epoch.
pub fn utc_stamp_from_epoch_secs(secs: u64) -> (res: String)
    ensures
        is_stamp_of(res@, secs as nat),
{
    let s = secs % 60;
    let mi = (secs / 60) % 60;
    let h = (secs / 3600) % 24;
    let total_days = secs / 86400;
    let mut days = total_days;
    let mut year: u64 = 1970;
    proof {
        lemma_days_before_year_grows(1970);
    }
    while days >= year_length(year)
        invariant
            year >= 1970,
            days_before_year(year as int) + days == total_days,
            total_days <= u64::MAX / 86400,
        decreases days,
    {
        let dy = year_length(year);
        proof {
            lemma_days_before_year_grows(year as int);
        }
        days = days - dy;
        year = year + 1;
    }
    let mut month: u64 = 1;
    proof {
        lemma_months_fill_year(year as int);
    }
    while month < 12 && days >= month_length(year, month)
        invariant
            1 <= month <= 12,
            days_before_month(year as int, month as int) + days < year_days(year as int),
            days_before_year(year as int) + days_before_month(year as int, month as int) + days
                == total_days,
            days_before_month(year as int, 13) == year_days(year as int),
        decreases 12 - month,
    {
        days = days - month_length(year, month);
        month = month + 1;
    }
    proof {
        if month == 12 {
            assert(days_before_month(year as int, 13) == days_before_month(year as int, 12)
                + month_days(year as int, 12));
        }
    }
    let day = days + 1;
    assert(is_valid_date(year as int, month as int, day as int));
    assert(day_number(year as int, month as int, day as int) == secs / 86400);
    let mut out: Vec<char> = Vec::new();
    push_zero_padded(&mut out, year, 4);
    push_zero_padded(&mut out, month, 2);
    push_zero_padded(&mut out, day, 2);
    out.push('-');
    push_zero_padded(&mut out, h, 2);
    push_zero_padded(&mut out, mi, 2);
    push_zero_padded(&mut out, s, 2);
    let res = string_from_chars(out.as_slice());
    proof {
        assert(res@ =~= stamp_chars(
            year as nat,
            month as nat,
            day as nat,
            (secs / 3600) as nat % 24,
            (secs / 60) as nat % 60,
            secs as nat % 60,
        ));
        assert(day_number(year as int, month as int, day as int) == secs / 86400);
    }
    res
}

/// The name of the session file started at `secs` seconds after the epoch:
/// `session-YYYYMMDD-HHMMSS.jsonl`.
pub fn session_file_name(secs: u64) -> (res: String)
    ensures
        exists|stamp: Seq<char>|
            is_stamp_of(stamp, secs as nat) && res@ == seq!['s', 'e', 's', 's', 'i', 'o', 'n', '-']
                + stamp + seq!['.', 'j', 's', 'o', 'n', 'l'],
{
    let stamp = utc_stamp_from_epoch_secs(secs);
    let mut out: Vec<char> = Vec::new();
    out.push('s');
    out.push('e');
    out.push('s');
    out.push('s');
    out.push('i');
    out.push('o');
    out.push('n');
    out.push('-');
    let st = crate::text::chars_of(stamp.as_str());
    let n = st.len();
    let ghost before = out@;
    let mut i: usize = 0;
    while i < n
        invariant
            n == st@.len(),
            i <= n,
            out@ == before + st@.take(i as int),
        decreases n - i,
    {
        out.push(st[i]);
        i = i + 1;
        assert(st@.take(i as int) =~= st@.take((i - 1) as int).push(st@[i - 1]));
    }
    assert(st@.take(n as int) =~= st@);
    out.push('.');
    out.push('j');
    out.push('s');
    out.push('o');
    out.push('n');
    out.push('l');
    let res = string_from_chars(out.as_slice());
    assert(res@ =~= seq!['s', 'e', 's', 's', 'i', 'o', 'n', '-'] + stamp@ + seq![
        '.',
        'j',
        's',
        'o',
        'n',
        'l',
    ]);
    res
}

} // verus!
