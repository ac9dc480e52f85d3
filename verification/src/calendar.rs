//! The Gregorian calendar.

use vstd::prelude::*;

verus! {

/// A day of the Gregorian calendar.
#[derive(Clone, Copy)]
pub struct Date {
    pub year: u64,
    pub month: u64,
    pub day: u64,
}

/// Whether a year has a 29 February.
pub open spec fn is_leap(year: int) -> bool {
    year % 4 == 0 && (year % 100 != 0 || year % 400 == 0)
}

/// How many days a month has.
pub open spec fn month_len(year: int, month: int) -> int {
    if month == 2 {
        if is_leap(year) {
            29
        } else {
            28
        }
    } else if month == 4 || month == 6 || month == 9 || month == 11 {
        30
    } else {
        31
    }
}

/// How many days a year has.
pub open spec fn year_len(year: int) -> int {
    if is_leap(year) {
        366
    } else {
        365
    }
}

/// Days from 1970-01-01 to the first day of a year from 1970 on.
pub open spec fn days_before_year(year: int) -> int
    decreases year,
{
    if year <= 1970 {
        0
    } else {
        days_before_year(year - 1) + year_len(year - 1)
    }
}

/// Days from the first day of a year to the first day of a month.
pub open spec fn days_before_month(year: int, month: int) -> int
    decreases month,
{
    if month <= 1 {
        0
    } else {
        days_before_month(year, month - 1) + month_len(year, month - 1)
    }
}

/// A date that is in the calendar, from 1970 on.
pub open spec fn is_date(d: Date) -> bool {
    &&& d.year >= 1970
    &&& 1 <= d.month <= 12
    &&& 1 <= d.day <= month_len(d.year as int, d.month as int)
}

/// Days from 1970-01-01 to a date.
pub open spec fn day_number(d: Date) -> int {
    days_before_year(d.year as int) + days_before_month(d.year as int, d.month as int) + d.day - 1
}

/// The date that is `days` days after 1970-01-01.
pub open spec fn date_of(days: int) -> Date {
    choose|d: Date| is_date(d) && day_number(d) == days
}

/// Days before a year, without counting: every fourth year is a leap year, but for every
/// hundredth, but for every four hundredth.
proof fn lemma_days_before_year(year: int)
    requires
        year >= 1970,
    ensures
        days_before_year(year) == 365 * (year - 1970) + (year - 1) / 4 - (year - 1) / 100 + (year
            - 1) / 400 - 477,
    decreases year,
{
    if year > 1970 {
        lemma_days_before_year(year - 1);
        let y = year - 1;
        assert(y / 4 == (y - 1) / 4 + if y % 4 == 0 {
            1int
        } else {
            0int
        });
        assert(y / 100 == (y - 1) / 100 + if y % 100 == 0 {
            1int
        } else {
            0int
        });
        assert(y / 400 == (y - 1) / 400 + if y % 400 == 0 {
            1int
        } else {
            0int
        });
        assert(y % 400 == 0 ==> y % 100 == 0);
        assert(y % 100 == 0 ==> y % 4 == 0);
    }
}

proof fn lemma_days_before_year_grows(a: int, b: int)
    requires
        1970 <= a < b,
    ensures
        days_before_year(a) + year_len(a) <= days_before_year(b),
    decreases b - a,
{
    if a + 1 < b {
        lemma_days_before_year_grows(a, b - 1);
    }
}

proof fn lemma_days_before_month_grows(year: int, a: int, b: int)
    requires
        1 <= a < b <= 13,
    ensures
        days_before_month(year, a) + month_len(year, a) <= days_before_month(year, b),
    decreases b - a,
{
    if a + 1 < b {
        lemma_days_before_month_grows(year, a, b - 1);
    }
}

proof fn lemma_months(year: int)
    ensures
        days_before_month(year, 13) == year_len(year),
        days_before_month(year, 3) == 59 + year_len(year) - 365,
        forall|m: int|
            3 <= m <= 12 ==> #[trigger] days_before_month(year, m) == 59 + year_len(year) - 365 + (
            153 * (m - 3) + 2) / 5,
{
    reveal_with_fuel(days_before_month, 14);
    assert forall|m: int| 3 <= m <= 12 implies #[trigger] days_before_month(year, m) == 59
        + year_len(year) - 365 + (153 * (m - 3) + 2) / 5 by {
        if m == 3 {
        } else if m == 4 {
        } else if m == 5 {
        } else if m == 6 {
        } else if m == 7 {
        } else if m == 8 {
        } else if m == 9 {
        } else if m == 10 {
        } else if m == 11 {
        } else {
        }
    }
}

/// No two dates are the same number of days after 1970-01-01.
pub proof fn law_day_numbers_are_distinct(a: Date, b: Date)
    requires
        is_date(a),
        is_date(b),
        day_number(a) == day_number(b),
    ensures
        a == b,
{
    let (ya, yb) = (a.year as int, b.year as int);
    lemma_months(ya);
    lemma_months(yb);
    if a.month < 13 {
        lemma_days_before_month_grows(ya, a.month as int, 13);
    }
    if b.month < 13 {
        lemma_days_before_month_grows(yb, b.month as int, 13);
    }
    lemma_days_before_month_positive(ya, a.month as int);
    lemma_days_before_month_positive(yb, b.month as int);
    if ya < yb {
        lemma_days_before_year_grows(ya, yb);
    } else if yb < ya {
        lemma_days_before_year_grows(yb, ya);
    }
    if a.month < b.month {
        lemma_days_before_month_grows(ya, a.month as int, b.month as int);
    } else if b.month < a.month {
        lemma_days_before_month_grows(ya, b.month as int, a.month as int);
    }
}

/// Whether a date comes before another.
pub open spec fn earlier(a: Date, b: Date) -> bool {
    a.year < b.year || (a.year == b.year && (a.month < b.month || (a.month == b.month && a.day
        < b.day)))
}

/// Of two dates the one that is fewer days after 1970-01-01 comes first.
pub proof fn law_day_numbers_rise(a: Date, b: Date)
    requires
        is_date(a),
        is_date(b),
        day_number(a) < day_number(b),
    ensures
        earlier(a, b),
{
    let (ya, yb) = (a.year as int, b.year as int);
    lemma_months(ya);
    lemma_months(yb);
    lemma_days_before_month_grows(ya, a.month as int, 13);
    lemma_days_before_month_grows(yb, b.month as int, 13);
    lemma_days_before_month_positive(ya, a.month as int);
    lemma_days_before_month_positive(yb, b.month as int);
    if yb < ya {
        lemma_days_before_year_grows(yb, ya);
    } else if ya == yb && b.month < a.month {
        lemma_days_before_month_grows(ya, b.month as int, a.month as int);
    }
}

/// Every day from 1970-01-01 on has a date.
pub proof fn law_every_day_has_a_date(days: int)
    requires
        0 <= days <= 0x1000_0000_0000,
    ensures
        is_date(date_of(days)),
        day_number(date_of(days)) == days,
{
    let d = lemma_some_date(days);
    assert(is_date(d) && day_number(d) == days);
}

proof fn lemma_some_date(days: int) -> (d: Date)
    requires
        0 <= days <= 0x1000_0000_0000,
    ensures
        is_date(d),
        day_number(d) == days,
        d.year <= 1970 + days,
    decreases days,
{
    if days == 0 {
        Date { year: 1970, month: 1, day: 1 }
    } else {
        let e = lemma_some_date(days - 1);
        let (y, m) = (e.year as int, e.month as int);
        if e.day < month_len(y, m) {
            Date { year: e.year, month: e.month, day: (e.day + 1) as u64 }
        } else if e.month < 12 {
            Date { year: e.year, month: (e.month + 1) as u64, day: 1 }
        } else {
            lemma_months(y);
            assert(days_before_month(y, 13) == days_before_month(y, 12) + month_len(y, 12));
            Date { year: (e.year + 1) as u64, month: 1, day: 1 }
        }
    }
}

proof fn lemma_days_before_month_positive(year: int, month: int)
    ensures
        days_before_month(year, month) >= 0,
    decreases month,
{
    if month > 1 {
        lemma_days_before_month_positive(year, month - 1);
    }
}

/// The day of the year and the month that it falls in, for a year that starts on 1 March.
proof fn lemma_month_of_day(doy: int)
    requires
        0 <= doy <= 365,
    ensures
        ({
            let mp = (5 * doy + 2) / 153;
            let d = doy - (153 * mp + 2) / 5 + 1;
            &&& 0 <= mp <= 11
            &&& 1 <= d <= 31
            &&& mp == 1 || mp == 3 || mp == 6 || mp == 8 ==> d <= 30
            &&& mp == 11 ==> d <= 29
            &&& doy == 365 <==> mp == 11 && d == 29
            &&& doy < 306 <==> mp < 10
        }),
{
}

/// Where a year that starts on 1 March stands in the calendar.
proof fn lemma_march_year(y: int, doy: int, z: int)
    requires
        y >= 0,
        z >= 719_468,
        0 <= doy <= 365,
        doy == 365 ==> is_leap(y + 1),
        z == 365 * y + y / 4 - y / 100 + y / 400 + doy,
    ensures
        ({
            let mp = (5 * doy + 2) / 153;
            let d = doy - (153 * mp + 2) / 5 + 1;
            let m = if mp < 10 {
                mp + 3
            } else {
                mp - 9
            };
            let year = if m <= 2 {
                y + 1
            } else {
                y
            };
            &&& 0 <= mp <= 11
            &&& year >= 1970
            &&& 1 <= m <= 12
            &&& 1 <= d <= month_len(year, m)
            &&& days_before_year(year) + days_before_month(year, m) + d - 1 == z - 719_468
        }),
{
    lemma_month_of_day(doy);
    let mp = (5 * doy + 2) / 153;
    if y < 1969 {
        assert(y / 4 <= 492);
        assert(y / 400 <= 4);
        assert(y <= 1968);
        assert(365 * y + y / 4 - y / 100 + y / 400 + doy < 719_468) by {
            assert(y / 100 >= 0);
            if y >= 1600 {
                assert(y / 100 >= 16);
            }
        }
    }
    assert(y >= 1969);
    if mp < 10 {
        if y == 1969 {
            assert(false);
        }
        lemma_days_before_year(y);
        lemma_months(y);
        assert(y / 4 == (y - 1) / 4 + if y % 4 == 0 {
            1int
        } else {
            0int
        });
        assert(y / 100 == (y - 1) / 100 + if y % 100 == 0 {
            1int
        } else {
            0int
        });
        assert(y / 400 == (y - 1) / 400 + if y % 400 == 0 {
            1int
        } else {
            0int
        });
        assert(y % 400 == 0 ==> y % 100 == 0);
        assert(y % 100 == 0 ==> y % 4 == 0);
    } else {
        lemma_days_before_year(y + 1);
        reveal_with_fuel(days_before_month, 3);
    }
}

/// The date that is `days` days after 1970-01-01.
pub fn days_to_ymd(days: u64) -> (r: Date)
    requires
        days <= 0x1000_0000_0000,
    ensures
        is_date(r),
        day_number(r) == days,
        r == date_of(days as int),
{
    let z: u64 = days + 719_468;
    let era: u64 = z / 146_097;
    let doe: u64 = z % 146_097;
    let c: u64 = if doe / 36_524 < 3 {
        doe / 36_524
    } else {
        3
    };
    let doc: u64 = doe - c * 36_524;
    let q: u64 = if doc / 1461 < 24 {
        doc / 1461
    } else {
        24
    };
    let doq: u64 = doc - q * 1461;
    let k: u64 = if doq / 365 < 3 {
        doq / 365
    } else {
        3
    };
    let doy: u64 = doq - k * 365;
    let yoe: u64 = c * 100 + q * 4 + k;
    let y: u64 = era * 400 + yoe;
    proof {
        assert(yoe as int / 4 == c * 25 + q);
        assert(yoe as int / 100 == c);
        assert(doe == 365 * yoe + yoe as int / 4 - yoe as int / 100 + doy);
        assert(y as int / 4 == era * 100 + yoe as int / 4);
        assert(y as int / 100 == era * 4 + yoe as int / 100);
        assert(y as int / 400 == era);
        assert((y + 1) as int % 4 == (k + 1) as int % 4);
        assert((y + 1) as int % 400 == (yoe + 1) as int % 400);
        if doy == 365 {
            assert(k == 3);
            assert((yoe + 1) as int % 100 == 0 ==> q == 24);
            assert(q == 24 && k == 3 ==> c == 3);
            assert((y + 1) as int % 100 == (yoe + 1) as int % 100);
        }
        lemma_march_year(y as int, doy as int, z as int);
    }
    let mp: u64 = (5 * doy + 2) / 153;
    let d: u64 = doy - (153 * mp + 2) / 5 + 1;
    let m: u64 = if mp < 10 {
        mp + 3
    } else {
        mp - 9
    };
    let r = Date {
        year: if m <= 2 {
            y + 1
        } else {
            y
        },
        month: m,
        day: d,
    };
    proof {
        assert(is_date(r) && day_number(r) == days as int);
        law_day_numbers_are_distinct(r, date_of(days as int));
    }
    r
}

} // verus!
