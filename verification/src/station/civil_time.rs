//! Calendar dates from Unix seconds, in UTC.

use vstd::prelude::*;

verus! {

pub open spec fn leap(y: int) -> bool {
    y % 4 == 0 && (y % 100 != 0 || y % 400 == 0)
}

pub open spec fn days_in_month(y: int, m: int) -> int {
    if m == 2 {
        if leap(y) {
            29
        } else {
            28
        }
    } else if m == 4 || m == 6 || m == 9 || m == 11 {
        30
    } else {
        31
    }
}

/// Days of a year before the first of a month.
pub open spec fn days_before_month(y: int, m: int) -> int
    decreases m,
{
    if m <= 1 {
        0
    } else {
        days_before_month(y, m - 1) + days_in_month(y, m - 1)
    }
}

/// Days from the first day of year 0 to the first day of year `y`.
pub open spec fn days_before_year(y: int) -> int {
    365 * y + (y - 1) / 4 - (y - 1) / 100 + (y - 1) / 400 + 1
}

pub open spec fn is_date(y: int, m: int, d: int) -> bool {
    1 <= m <= 12 && 1 <= d <= days_in_month(y, m)
}

/// Days from 1 January 1970 to a date.
pub open spec fn unix_day(y: int, m: int, d: int) -> int {
    days_before_year(y) + days_before_month(y, m) + d - 1 - 719528
}

/// A date and a time of day.
#[derive(Debug, Clone, Copy, PartialEq, Eq)]
pub struct Civil {
    pub year: i64,
    pub month: u32,
    pub day: u32,
    pub hour: u32,
    pub minute: u32,
    pub second: u32,
}

/// The date and time that `unix` seconds after the epoch are.
pub open spec fn civil_at(c: Civil, unix: int) -> bool {
    &&& is_date(c.year as int, c.month as int, c.day as int)
    &&& c.hour < 24
    &&& c.minute < 60
    &&& c.second < 60
    &&& unix == unix_day(c.year as int, c.month as int, c.day as int) * 86400 + c.hour * 3600
        + c.minute * 60 + c.second
}

/// The date and time of `unix` seconds after the epoch.
pub open spec fn civil_of(unix: int) -> Civil {
    choose|c: Civil| civil_at(c, unix)
}

proof fn lemma_month_starts(y: int)
    ensures
        days_before_month(y, 1) == 0,
        days_before_month(y, 2) == 31,
        days_before_month(y, 3) == 59 + (if leap(y) {
            1int
        } else {
            0
        }),
        days_before_month(y, 4) == days_before_month(y, 3) + 31,
        days_before_month(y, 5) == days_before_month(y, 3) + 61,
        days_before_month(y, 6) == days_before_month(y, 3) + 92,
        days_before_month(y, 7) == days_before_month(y, 3) + 122,
        days_before_month(y, 8) == days_before_month(y, 3) + 153,
        days_before_month(y, 9) == days_before_month(y, 3) + 184,
        days_before_month(y, 10) == days_before_month(y, 3) + 214,
        days_before_month(y, 11) == days_before_month(y, 3) + 245,
        days_before_month(y, 12) == days_before_month(y, 3) + 275,
{
    reveal_with_fuel(days_before_month, 13);
}

/// The day number of 1 March, for a year written as a 400-year cycle and a
/// year in it.
proof fn lemma_march(era: int, yoe: int)
    requires
        0 <= yoe < 400,
    ensures
        ({
            let y = era * 400 + yoe;
            &&& days_before_year(y) + days_before_month(y, 3) == era * 146097 + 365 * yoe + yoe / 4
                - yoe / 100 + 60
            &&& days_before_year(y + 1) == era * 146097 + 365 * yoe + yoe / 4 - yoe / 100 + 366
            &&& leap(y + 1) == ((yoe + 1) % 4 == 0 && ((yoe + 1) % 100 != 0 || yoe + 1 == 400))
        }),
{
    let y = era * 400 + yoe;
    lemma_month_starts(y);
    assert(y % 4 == yoe % 4);
    assert(y % 100 == yoe % 100);
    assert(y % 400 == yoe);
    assert((y + 1) % 4 == (yoe + 1) % 4);
    assert((y + 1) % 100 == (yoe + 1) % 100);
    assert((y + 1) % 400 == (yoe + 1) % 400);
    assert(y / 4 == era * 100 + yoe / 4);
    assert(y / 100 == era * 4 + yoe / 100);
    assert(y / 400 == era);
    assert((y - 1) / 4 == y / 4 - (if y % 4 == 0 {
        1int
    } else {
        0
    }));
    assert((y - 1) / 100 == y / 100 - (if y % 100 == 0 {
        1int
    } else {
        0
    }));
    assert((y - 1) / 400 == y / 400 - (if y % 400 == 0 {
        1int
    } else {
        0
    }));
}

/// The year of a 400-year cycle, counted from March, and the day in it.
fn year_of_era(doe: u32) -> (r: (u32, u32))
    requires
        doe < 146097,
    ensures
        r.0 < 400,
        doe == 365 * r.0 + r.0 / 4 - r.0 / 100 + r.1,
        r.1 <= 365,
        r.1 == 365 ==> (r.0 + 1) % 4 == 0 && ((r.0 + 1) % 100 != 0 || r.0 + 1 == 400),
{
    let c: u32 = if doe / 36524 > 3 {
        3
    } else {
        doe / 36524
    };
    let d1: u32 = doe - c * 36524;
    let q: u32 = if d1 / 1461 > 24 {
        24
    } else {
        d1 / 1461
    };
    let d2: u32 = d1 - q * 1461;
    let y: u32 = if d2 / 365 > 3 {
        3
    } else {
        d2 / 365
    };
    let doy: u32 = d2 - y * 365;
    let yoe: u32 = 100 * c + 4 * q + y;
    assert(yoe / 4 == 25 * c + q);
    assert(yoe / 100 == c);
    (yoe, doy)
}

/// Month and day of the month, for a day counted from 1 March.
fn month_of_day(doy: u32) -> (r: (u32, u32))
    requires
        doy <= 365,
    ensures
        1 <= r.0 <= 12,
        1 <= r.1 <= 31,
        ({
            let start = if r.0 == 3 {
                0int
            } else if r.0 == 4 {
                31
            } else if r.0 == 5 {
                61
            } else if r.0 == 6 {
                92
            } else if r.0 == 7 {
                122
            } else if r.0 == 8 {
                153
            } else if r.0 == 9 {
                184
            } else if r.0 == 10 {
                214
            } else if r.0 == 11 {
                245
            } else if r.0 == 12 {
                275
            } else if r.0 == 1 {
                306
            } else {
                337
            };
            doy == start + r.1 - 1
        }),
        r.0 == 4 || r.0 == 6 || r.0 == 9 || r.0 == 11 ==> r.1 <= 30,
        r.0 == 2 ==> r.1 <= 29,
{
    if doy < 31 {
        (3, doy + 1)
    } else if doy < 61 {
        (4, doy - 30)
    } else if doy < 92 {
        (5, doy - 60)
    } else if doy < 122 {
        (6, doy - 91)
    } else if doy < 153 {
        (7, doy - 121)
    } else if doy < 184 {
        (8, doy - 152)
    } else if doy < 214 {
        (9, doy - 183)
    } else if doy < 245 {
        (10, doy - 213)
    } else if doy < 275 {
        (11, doy - 244)
    } else if doy < 306 {
        (12, doy - 274)
    } else if doy < 337 {
        (1, doy - 305)
    } else {
        (2, doy - 336)
    }
}

/// Quotient of `n` by `d`, rounded down, and the remainder.
fn floor_div(n: i64, d: i64) -> (r: (i64, i64))
    requires
        2 <= d <= 200_000,
    ensures
        r.0 == n as int / d as int,
        r.1 == n as int % d as int,
        0 <= r.1 < d,
{
    proof {
        let x = n as int;
        let y = d as int;
        assert(-0x8000_0000_0000_0000 <= x / y <= 0x7fff_ffff_ffff_ffff && 0 <= x % y < y)
            by (nonlinear_arith)
            requires
                y >= 2,
                -0x8000_0000_0000_0000 <= x <= 0x7fff_ffff_ffff_ffff,
        ;
    }
    (n.checked_div_euclid(d).unwrap(), n.checked_rem_euclid(d).unwrap())
}

/// The date and time of day of `unix` seconds after the epoch.
pub fn civil_from_unix(unix: i64) -> (r: Civil)
    ensures
        civil_at(r, unix as int),
        r == civil_of(unix as int),
        r.year > i64::MIN,
{
    let (days, secs) = floor_div(unix, 86400);
    let (era, doe) = floor_div(days + 719468, 146097);
    let (yoe, doy) = year_of_era(doe as u32);
    let (m, d) = month_of_day(doy);
    let y0: i64 = era * 400 + yoe as i64;
    let year: i64 = if m <= 2 {
        y0 + 1
    } else {
        y0
    };
    let s: u32 = secs as u32;
    let r = Civil {
        year,
        month: m,
        day: d,
        hour: s / 3600,
        minute: s / 60 % 60,
        second: s % 60,
    };
    proof {
        lemma_march(era as int, yoe as int);
        lemma_month_starts(year as int);
        lemma_month_starts(y0 as int);
        assert(unix_day(year as int, m as int, d as int) == days);
        assert(r.hour * 3600 + r.minute * 60 + r.second == s);
        assert(civil_at(r, unix as int));
        law_civil_is_unique(r, civil_of(unix as int), unix as int);
    }
    r
}

/// The days of a year lie between its first day and the next year's.
proof fn lemma_day_in_year(y: int, m: int, d: int)
    requires
        is_date(y, m, d),
    ensures
        0 <= days_before_month(y, m) + d - 1 < days_before_year(y + 1) - days_before_year(y),
{
    lemma_month_starts(y);
    assert(y / 4 == (y - 1) / 4 + (if y % 4 == 0 {
        1int
    } else {
        0
    }));
    assert(y / 100 == (y - 1) / 100 + (if y % 100 == 0 {
        1int
    } else {
        0
    }));
    assert(y / 400 == (y - 1) / 400 + (if y % 400 == 0 {
        1int
    } else {
        0
    }));
    assert(y % 400 == 0 ==> y % 100 == 0);
    assert(y % 100 == 0 ==> y % 4 == 0);
}

/// Later years begin later.
proof fn lemma_years_ascend(a: int, b: int)
    requires
        a <= b,
    ensures
        days_before_year(a) <= days_before_year(b),
{
    let x = a - 1;
    let y = b - 1;
    assert(y / 4 >= x / 4 && y / 400 >= x / 400);
    assert(y / 100 - x / 100 <= y - x);
}

/// Earlier dates have earlier days.
proof fn lemma_days_ascend(y1: int, m1: int, d1: int, y2: int, m2: int, d2: int)
    requires
        is_date(y1, m1, d1),
        is_date(y2, m2, d2),
        y1 < y2 || (y1 == y2 && m1 < m2),
    ensures
        unix_day(y1, m1, d1) < unix_day(y2, m2, d2),
{
    if y1 < y2 {
        lemma_day_in_year(y1, m1, d1);
        lemma_day_in_year(y2, m2, d2);
        lemma_years_ascend(y1 + 1, y2);
    } else {
        lemma_month_starts(y1);
    }
}

/// Every second has one date and time of day.
pub proof fn law_civil_is_unique(a: Civil, b: Civil, unix: int)
    requires
        civil_at(a, unix),
        civil_at(b, unix),
    ensures
        a == b,
{
    let (y1, m1, d1) = (a.year as int, a.month as int, a.day as int);
    let (y2, m2, d2) = (b.year as int, b.month as int, b.day as int);
    if y1 < y2 || (y1 == y2 && m1 < m2) {
        lemma_days_ascend(y1, m1, d1, y2, m2, d2);
    } else if y2 < y1 || (y1 == y2 && m2 < m1) {
        lemma_days_ascend(y2, m2, d2, y1, m1, d1);
    }
}

/// Long and short months alternate, with two long ones together in July and
/// August; February has a day more every fourth year, but for three
/// centuries out of four.
pub proof fn law_months_have_their_days(y: int, m: int)
    requires
        1 <= m <= 12,
    ensures
        m != 2 ==> days_in_month(y, m) == 30 + (m + m / 8) % 2,
        m == 2 ==> days_in_month(y, m) == 28 || days_in_month(y, m) == 29,
        m == 2 ==> (days_in_month(y, m) == 29) == ((y % 4 == 0 && y % 100 != 0) || y % 400 == 0),
{
}

/// The count of days begins with 1970 and goes up by one from each date to
/// the next, over the ends of months and years too.
pub proof fn law_days_follow_each_other(y: int, m: int, d: int)
    requires
        is_date(y, m, d),
    ensures
        unix_day(1970, 1, 1) == 0,
        unix_day(y, m, d + 1) == unix_day(y, m, d) + 1,
        m < 12 && d == days_in_month(y, m) ==> unix_day(y, m + 1, 1) == unix_day(y, m, d) + 1,
        m == 12 && d == 31 ==> unix_day(y + 1, 1, 1) == unix_day(y, m, d) + 1,
{
    lemma_month_starts(y);
    lemma_month_starts(y + 1);
    lemma_month_starts(1970);
    assert(y / 4 == (y - 1) / 4 + (if y % 4 == 0 {
        1int
    } else {
        0
    }));
    assert(y / 100 == (y - 1) / 100 + (if y % 100 == 0 {
        1int
    } else {
        0
    }));
    assert(y / 400 == (y - 1) / 400 + (if y % 400 == 0 {
        1int
    } else {
        0
    }));
}

}
