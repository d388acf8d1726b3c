//! Calendar dates of points in time.
use vstd::prelude::*;

verus! {

/// A leap year of the Gregorian calendar.
pub open spec fn leap(y: int) -> bool {
    y % 4 == 0 && (y % 100 != 0 || y % 400 == 0)
}

/// Days in a month.
pub open spec fn month_len(y: int, m: int) -> int {
    if m == 2 {
        if leap(y) {
            29
        } else {
            28
        }
    } else if m == 4 || m == 6 || m == 9 || m == 11 {
        30
    } else {
        31
    }
}

/// Days of a year before a month.
pub open spec fn month_start(y: int, m: int) -> int
    decreases m,
{
    if m <= 1 {
        0
    } else {
        month_start(y, m - 1) + month_len(y, m - 1)
    }
}

/// Days from 1970-01-01 to the first of January: 365 for each year, and one for each
/// leap year in between.
pub open spec fn year_start(y: int) -> int {
    365 * (y - 1970) + ((y - 1) / 4 - (y - 1) / 100 + (y - 1) / 400) - 477
}

/// A date of the calendar.
pub open spec fn valid_date(y: int, m: int, d: int) -> bool {
    1 <= m <= 12 && 1 <= d <= month_len(y, m)
}

/// Days from 1970-01-01 to a date.
pub open spec fn day_number(y: int, m: int, d: int) -> int {
    year_start(y) + month_start(y, m) + d - 1
}

/// A year ends where the next one starts.
pub proof fn years_follow_each_other(y: int)
    ensures
        year_start(1970) == 0,
        year_start(y + 1) == year_start(y) + month_start(y, 12) + month_len(y, 12),
        year_start(y + 1) - year_start(y) == if leap(y) { 366int } else { 365int },
{
    reveal_with_fuel(month_start, 13);
}

/// The calendar counts from 1970, leaves no day out and repeats every 400 years: every
/// fourth year is a leap year, but for the centuries that 400 does not divide.
pub proof fn calendar_is_gregorian(y: int, m: int, d: int)
    ensures
        day_number(1970, 1, 1) == 0,
        day_number(y + 400, m, d) == day_number(y, m, d) + 146097,
        day_number(y, m, d + 1) == day_number(y, m, d) + 1,
        day_number(y + 1, 1, 1) - day_number(y, 1, 1) == (if y % 4 == 0 && (y % 100 != 0 || y % 400
            == 0) {
            366int
        } else {
            365int
        }),
{
    lemma_months_repeat(y, m);
    lemma_eras(y - 1, 1);
    assert(year_start(y + 400) == year_start(y) + 146097);
    assert(month_start(y, 1) == 0 && month_start(y + 1, 1) == 0 && month_start(1970, 1) == 0);
    years_follow_each_other(y);
}

proof fn lemma_months_repeat(y: int, m: int)
    ensures
        month_start(y + 400, m) == month_start(y, m),
    decreases m,
{
    lemma_eras(y, 1);
    if m > 1 {
        lemma_months_repeat(y, m - 1);
    }
}

/// Months have 31 or 30 days, in their usual order, and February 28 or 29.
pub proof fn months_have_their_lengths(y: int, m: int)
    requires
        1 <= m <= 12,
    ensures
        day_number(y, m + 1, 1) - day_number(y, m, 1) == (if m == 2 {
            if leap(y) {
                29int
            } else {
                28int
            }
        } else if m == 4 || m == 6 || m == 9 || m == 11 {
            30int
        } else {
            31int
        }),
        m == 12 ==> day_number(y, 13, 1) == day_number(y + 1, 1, 1),
{
    reveal_with_fuel(month_start, 14);
    years_follow_each_other(y);
}

proof fn lemma_month_end(y: int, m: int, n: int)
    requires
        1 <= m < n <= 12,
    ensures
        month_start(y, m) + month_len(y, m) <= month_start(y, n),
    decreases n,
{
    if m < n - 1 {
        lemma_month_end(y, m, n - 1);
    }
}

proof fn lemma_year_order(a: int, b: int)
    requires
        a < b,
    ensures
        year_start(a + 1) <= year_start(b),
    decreases b - a,
{
    if a + 1 < b {
        lemma_year_order(a, b - 1);
        years_follow_each_other(b - 1);
    }
}

proof fn lemma_in_year(y: int, m: int, d: int)
    requires
        valid_date(y, m, d),
    ensures
        year_start(y) <= day_number(y, m, d) < year_start(y + 1),
{
    years_follow_each_other(y);
    lemma_month_start_nonnegative(y, m);
    if m < 12 {
        lemma_month_end(y, m, 12);
    }
}

proof fn lemma_month_start_nonnegative(y: int, m: int)
    ensures
        month_start(y, m) >= 0,
    decreases m,
{
    if m > 1 {
        lemma_month_start_nonnegative(y, m - 1);
    }
}

/// Different dates are different days.
pub proof fn dates_are_unique(y1: int, m1: int, d1: int, y2: int, m2: int, d2: int)
    requires
        valid_date(y1, m1, d1),
        valid_date(y2, m2, d2),
        day_number(y1, m1, d1) == day_number(y2, m2, d2),
    ensures
        y1 == y2,
        m1 == m2,
        d1 == d2,
{
    lemma_in_year(y1, m1, d1);
    lemma_in_year(y2, m2, d2);
    if y1 < y2 {
        lemma_year_order(y1, y2);
    } else if y2 < y1 {
        lemma_year_order(y2, y1);
    }
    if m1 < m2 {
        lemma_month_end(y1, m1, m2);
    } else if m2 < m1 {
        lemma_month_end(y1, m2, m1);
    }
}

/// Days of a 400-year era, counted from the first of March, before year `k` of it.
spec fn era_year(k: int) -> int {
    365 * k + k / 4 - k / 100 + k / 400
}

/// Year of the era in which day `e` lies.
proof fn lemma_year_of_era(e: int)
    requires
        0 <= e < 146097,
    ensures
        ({
            let k = (e - e / 1460 + e / 36524 - e / 146096) / 365;
            &&& 0 <= k < 400
            &&& era_year(k) <= e < era_year(k + 1)
        }),
{
}

proof fn lemma_before(k: int, d: int)
    requires
        d > 1,
    ensures
        (k - 1) / d == k / d - (if k % d == 0 { 1int } else { 0int }),
{
    let (q, r) = (k / d, k % d);
    vstd::arithmetic::div_mod::lemma_fundamental_div_mod(k, d);
    if r == 0 {
        assert(k - 1 == d * (q - 1) + (d - 1)) by (nonlinear_arith)
            requires
                k == d * q + r,
                r == 0,
        ;
        vstd::arithmetic::div_mod::lemma_fundamental_div_mod_converse(k - 1, d, q - 1, d - 1);
    } else {
        vstd::arithmetic::div_mod::lemma_fundamental_div_mod_converse(k - 1, d, q, r - 1);
    }
}

proof fn lemma_eras(k: int, era: int)
    ensures
        (k + 400 * era) / 4 == k / 4 + 100 * era,
        (k + 400 * era) / 100 == k / 100 + 4 * era,
        (k + 400 * era) / 400 == k / 400 + era,
        (k + 400 * era) % 4 == k % 4,
        (k + 400 * era) % 100 == k % 100,
        (k + 400 * era) % 400 == k % 400,
{
    vstd::arithmetic::div_mod::lemma_fundamental_div_mod(k, 4);
    vstd::arithmetic::div_mod::lemma_fundamental_div_mod(k, 100);
    vstd::arithmetic::div_mod::lemma_fundamental_div_mod(k, 400);
    let y = k + 400 * era;
    vstd::arithmetic::div_mod::lemma_fundamental_div_mod_converse(
        y,
        4,
        k / 4 + 100 * era,
        k % 4,
    );
    vstd::arithmetic::div_mod::lemma_fundamental_div_mod_converse(
        y,
        100,
        k / 100 + 4 * era,
        k % 100,
    );
    vstd::arithmetic::div_mod::lemma_fundamental_div_mod_converse(y, 400, k / 400 + era, k % 400);
}

/// The first of March of a year, by era and year of the era.
proof fn lemma_march(era: int, k: int)
    requires
        0 <= k < 400,
    ensures
        year_start(k + 400 * era) + month_start(k + 400 * era, 3) == 146097 * era + 365 * k + k / 4
            - k / 100 - 719468,
{
    let y = k + 400 * era;
    lemma_eras(k, era);
    lemma_before(y, 4);
    lemma_before(y, 100);
    lemma_before(y, 400);
    assert(k / 400 == 0);
    assert(k % 400 == k);
    assert(month_start(y, 3) == 31 + month_len(y, 2)) by {
        reveal_with_fuel(month_start, 4);
    }
    assert(k % 100 == 0 ==> k % 4 == 0);
    assert(k % 400 == 0 ==> k % 100 == 0);
}

/// Months counted from March: `(153 * p + 2) / 5` days lie before month `p`.
proof fn lemma_month_from_march(y: int, p: int)
    requires
        0 <= p < 12,
    ensures
        p < 10 ==> month_start(y, p + 3) == month_start(y, 3) + (153 * p + 2) / 5,
        p >= 10 ==> year_start(y + 1) + month_start(y + 1, p - 9) == year_start(y) + month_start(
            y,
            3,
        ) + (153 * p + 2) / 5,
{
    reveal_with_fuel(month_start, 13);
    years_follow_each_other(y);
}

/// Day `e` of an era, taken apart into year of the era, month from March and day.
proof fn lemma_parts(e: int)
    requires
        0 <= e < 146097,
    ensures
        ({
            let k = (e - e / 1460 + e / 36524 - e / 146096) / 365;
            let doy = e - (365 * k + k / 4 - k / 100);
            let p = (5 * doy + 2) / 153;
            &&& 0 <= k < 400
            &&& 0 <= doy <= 365
            &&& 0 <= p < 12
            &&& 0 <= doy - (153 * p + 2) / 5 <= 30
            &&& p == 11 ==> doy - (153 * p + 2) / 5 < month_len(k + 1, 2)
            &&& p == 1 || p == 3 || p == 6 || p == 8 ==> doy - (153 * p + 2) / 5 < 30
        }),
{
    lemma_year_of_era(e);
}

/// The date of a day of an era is valid and is that day.
proof fn lemma_date(era: int, k: int, p: int, d: int)
    requires
        0 <= k < 400,
        0 <= p < 12,
        0 <= d <= 30,
        p == 11 ==> d < month_len(k + 1, 2),
        p == 1 || p == 3 || p == 6 || p == 8 ==> d < 30,
    ensures
        ({
            let m = if p < 10 { p + 3 } else { p - 9 };
            let y = k + 400 * era + if p < 10 { 0int } else { 1int };
            &&& valid_date(y, m, d + 1)
            &&& day_number(y, m, d + 1) == 146097 * era + 365 * k + k / 4 - k / 100 - 719468 + (153
                * p + 2) / 5 + d
        }),
{
    let y = k + 400 * era;
    lemma_march(era, k);
    lemma_month_from_march(y, p);
    assert(leap(y + 1) == leap(k + 1));
}

/// Convert days since 1970-01-01 into a year, month and day.
pub fn civil_from_days(z: i64) -> (r: (i64, u32, u32))
    requires
        z <= i64::MAX - 719468,
    ensures
        valid_date(r.0 as int, r.1 as int, r.2 as int),
        day_number(r.0 as int, r.1 as int, r.2 as int) == z,
{
    let z1: i64 = z + 719468;
    let era: i64 = if z1 >= 0 {
        z1 / 146097
    } else {
        -((-(z1 + 1)) / 146097) - 1
    };
    let doe: i64 = z1 - era * 146097;
    assert(0 <= doe < 146097);
    proof {
        lemma_parts(doe as int);
    }
    let yoe: i64 = (doe - doe / 1460 + doe / 36524 - doe / 146096) / 365;
    let doy: i64 = doe - (365 * yoe + yoe / 4 - yoe / 100);
    let mp: i64 = (5 * doy + 2) / 153;
    let day: i64 = doy - (153 * mp + 2) / 5;
    proof {
        lemma_date(era as int, yoe as int, mp as int, day as int);
    }
    if mp < 10 {
        (yoe + era * 400, (mp + 3) as u32, (day + 1) as u32)
    } else {
        (yoe + era * 400 + 1, (mp - 9) as u32, (day + 1) as u32)
    }
}

/// A point in time in UTC, to the minute.
#[derive(Clone, Copy, Debug, PartialEq, Eq, Structural)]
pub struct Timestamp {
    pub year: i64,
    pub month: u32,
    pub day: u32,
    pub hour: u32,
    pub minute: u32,
}

/// The point in time `secs` seconds after the start of 1970.
pub fn timestamp(secs: u64) -> (t: Timestamp)
    ensures
        valid_date(t.year as int, t.month as int, t.day as int),
        t.hour < 24,
        t.minute < 60,
        day_number(t.year as int, t.month as int, t.day as int) * 86400 + t.hour * 3600 + t.minute
            * 60 == secs - secs % 60,
{
    let days: u64 = secs / 86400;
    let rem: u64 = secs % 86400;
    let (year, month, day) = civil_from_days(days as i64);
    Timestamp {
        year,
        month,
        day,
        hour: (rem / 3600) as u32,
        minute: (rem % 3600 / 60) as u32,
    }
}

} // verus!
