//! Dates, counted from 14 October 1582.
use vstd::prelude::*;

verus! {

/// Leap years of the Gregorian calendar.
pub open spec fn leap(year: int) -> bool {
    (year % 4 == 0 && year % 100 != 0) || year % 400 == 0
}

/// The number of days in a month; 0 where there is no such month.
pub open spec fn month_length(month: int, year: int) -> int {
    if month == 1 || month == 3 || month == 5 || month == 7 || month == 8 || month == 10 || month
        == 12 {
        31
    } else if month == 4 || month == 6 || month == 9 || month == 11 {
        30
    } else if month == 2 {
        if leap(year) {
            29
        } else {
            28
        }
    } else {
        0
    }
}

/// The number of days in a year.
pub open spec fn year_length(year: int) -> int {
    if leap(year) {
        366
    } else {
        365
    }
}

/// The number of days before a year: 1582 has 79 of them.
pub open spec fn days_before_year(year: int) -> int
    decreases year,
{
    if year <= 1582 {
        0
    } else if year == 1583 {
        79
    } else {
        days_before_year(year - 1) + year_length(year - 1)
    }
}

/// The number of days of a year before a month.
pub open spec fn days_before_month(month: int, year: int) -> int
    decreases month,
{
    if month <= 1 {
        0
    } else {
        days_before_month(month - 1, year) + month_length(month - 1, year)
    }
}

/// A day from 14 October 1582 on.
pub open spec fn valid_date(day: int, month: int, year: int) -> bool {
    &&& year >= 1582
    &&& 1 <= month <= 12
    &&& 1 <= day <= month_length(month, year)
    &&& year == 1582 ==> month > 10 || (month == 10 && day >= 14)
}

/// The number of days from 14 October 1582 to a valid date.
pub open spec fn day_number(day: int, month: int, year: int) -> int {
    if year == 1582 {
        if month == 10 {
            day - 14
        } else if month == 11 {
            18 + (day - 1)
        } else {
            18 + 30 + (day - 1)
        }
    } else {
        days_before_year(year) + days_before_month(month, year) + (day - 1)
    }
}

/// The year from `year` on in which the `rest`th day falls, and the day in it.
pub open spec fn year_from(year: int, rest: int) -> (int, int)
    decreases rest,
{
    if rest < year_length(year) {
        (year, rest)
    } else {
        year_from(year + 1, rest - year_length(year))
    }
}

/// The month from `month` on in which the `rest`th day falls, and the day in it.
pub open spec fn month_from(month: int, year: int, rest: int) -> (int, int)
    decreases 12 - month,
{
    if month >= 12 || rest < month_length(month, year) {
        (month, rest)
    } else {
        month_from(month + 1, year, rest - month_length(month, year))
    }
}

/// The date of a day number: day, month and year.
pub open spec fn date_of(days: int) -> (int, int, int) {
    if days < 18 {
        (14 + days, 10, 1582)
    } else if days < 48 {
        (1 + (days - 18), 11, 1582)
    } else if days < 79 {
        (1 + (days - 48), 12, 1582)
    } else {
        let (year, rest) = year_from(1583, days - 79);
        let (month, day) = month_from(1, year, rest);
        (1 + day, month, year)
    }
}

/// The day numbers whose year fits in 32 bits.
pub open spec fn has_date(days: int) -> bool {
    days < 79 || year_from(1583, days - 79).0 <= u32::MAX
}

pub fn is_leap_year(year: u32) -> (r: bool)
    ensures
        r == leap(year as int),
{
    (year % 4 == 0 && year % 100 != 0) || (year % 400 == 0)
}

pub fn days_in_month(month: u32, year: u32) -> (r: u32)
    ensures
        r == month_length(month as int, year as int),
{
    match month {
        1 | 3 | 5 | 7 | 8 | 10 | 12 => 31,
        4 | 6 | 9 | 11 => 30,
        2 => if is_leap_year(year) {
            29
        } else {
            28
        },
        _ => 0,
    }
}

/// The number of days from 14 October 1582 to a date, where it is valid.
pub fn days_since_1582_10_14(day: u32, month: u32, year: u32) -> (r: Option<u64>)
    ensures
        match r {
            Some(n) => valid_date(day as int, month as int, year as int) && n == day_number(
                day as int,
                month as int,
                year as int,
            ),
            None => !valid_date(day as int, month as int, year as int),
        },
        r matches Some(n) ==> n <= 366 * year + 366,
{
    if year < 1582 || month < 1 || month > 12 || day < 1 {
        return None;
    }
    if year == 1582 && (month < 10 || (month == 10 && day < 14)) {
        return None;
    }
    if day > days_in_month(month, year) {
        return None;
    }
    if year == 1582 {
        return if month == 10 {
            Some((day - 14) as u64)
        } else if month == 11 {
            Some(18 + (day - 1) as u64)
        } else {
            Some(18 + 30 + (day - 1) as u64)
        };
    }
    let mut days: u64 = 79;
    let mut y: u32 = 1583;
    while y < year
        invariant
            1583 <= y <= year,
            days == days_before_year(y as int),
            days <= 366 * y,
        decreases year - y,
    {
        days = days + (if is_leap_year(y) {
            366
        } else {
            365
        });
        y = y + 1;
    }
    let mut m: u32 = 1;
    while m < month
        invariant
            1 <= m <= month <= 12,
            year >= 1583,
            days <= 366 * year + 31 * (m - 1),
            days == days_before_year(year as int) + days_before_month(m as int, year as int),
        decreases month - m,
    {
        days = days + days_in_month(m, year) as u64;
        m = m + 1;
    }
    proof {
        lemma_months_fit(month as int, year as int);
        lemma_years_fit(year as int);
    }
    Some(days + (day - 1) as u64)
}

proof fn lemma_years_fit(year: int)
    requires
        year >= 1583,
    ensures
        0 <= days_before_year(year) <= 366 * year,
    decreases year,
{
    if year > 1583 {
        lemma_years_fit(year - 1);
    }
}

/// The months of a year add up to it.
proof fn lemma_months_fit(month: int, year: int)
    requires
        1 <= month <= 12,
    ensures
        0 <= days_before_month(month, year),
        days_before_month(month, year) + month_length(month, year) <= year_length(year),
        days_before_month(12, year) + 31 == year_length(year),
{
    reveal_with_fuel(days_before_month, 13);
}

/// The date of a day number, where its year fits.
pub fn date_from_days(n: u64) -> (r: Option<(u32, u32, u32)>)
    ensures
        match r {
            Some((d, m, y)) => has_date(n as int) && (d as int, m as int, y as int) == date_of(
                n as int,
            ),
            None => !has_date(n as int),
        },
{
    if n < 18 {
        return Some((14 + n as u32, 10, 1582));
    }
    if n < 48 {
        return Some((1 + (n - 18) as u32, 11, 1582));
    }
    if n < 79 {
        return Some((1 + (n - 48) as u32, 12, 1582));
    }
    let mut rest: u64 = n - 79;
    let mut year: u32 = 1583;
    loop
        invariant
            year >= 1583,
            n >= 79,
            year_from(1583, n - 79) == year_from(year as int, rest as int),
        ensures
            year_from(1583, n - 79) == (year as int, rest as int),
            0 <= rest < year_length(year as int),
        decreases rest,
    {
        let len: u64 = if is_leap_year(year) {
            366
        } else {
            365
        };
        if rest < len {
            break ;
        }
        if year == u32::MAX {
            proof {
                lemma_year_from_grows(year + 1, rest - len);
            }
            return None;
        }
        rest = rest - len;
        year = year + 1;
    }
    let ghost first = rest as int;
    let mut month: u32 = 1;
    loop
        invariant
            1 <= month <= 12,
            n >= 79,
            year_from(1583, n - 79) == (year as int, first),
            month_from(1, year as int, first) == month_from(month as int, year as int, rest as int),
            rest + days_before_month(month as int, year as int) == first,
            first < year_length(year as int),
        ensures
            month_from(1, year as int, first) == (month as int, rest as int),
            rest < 31,
            n >= 79,
            year_from(1583, n - 79) == (year as int, first),
        decreases 12 - month,
    {
        let len: u64 = days_in_month(month, year) as u64;
        proof {
            lemma_months_fit(month as int, year as int);
        }
        if rest < len {
            break ;
        }
        proof {
            assert(month < 12);
        }
        rest = rest - len;
        month = month + 1;
    }
    Some((1 + rest as u32, month, year))
}

proof fn lemma_year_from_grows(year: int, rest: int)
    ensures
        year_from(year, rest).0 >= year,
    decreases rest,
{
    if rest >= year_length(year) {
        lemma_year_from_grows(year + 1, rest - year_length(year));
    }
}

/// The day that falls `rest` days into a year is found in that year.
proof fn lemma_year_found(year: int, rest: int)
    requires
        year >= 1583,
        0 <= rest < year_length(year),
    ensures
        year_from(1583, days_before_year(year) - 79 + rest) == (year, rest),
{
    lemma_year_skips(1583, year, rest);
}

proof fn lemma_year_skips(from: int, year: int, rest: int)
    requires
        1583 <= from <= year,
        0 <= rest < year_length(year),
    ensures
        year_from(from, days_before_year(year) - days_before_year(from) + rest) == (year, rest),
    decreases year - from,
{
    if from < year {
        lemma_year_skips(from + 1, year, rest);
        lemma_years_increase(from + 1, year);
    }
}

proof fn lemma_years_increase(a: int, b: int)
    requires
        1583 <= a <= b,
    ensures
        days_before_year(a) <= days_before_year(b),
    decreases b - a,
{
    if a < b {
        lemma_years_increase(a, b - 1);
    }
}

proof fn lemma_month_found(month: int, year: int, day: int)
    requires
        1 <= month <= 12,
        0 <= day < month_length(month, year),
    ensures
        month_from(1, year, days_before_month(month, year) + day) == (month, day),
{
    lemma_month_skips(1, month, year, day);
}

proof fn lemma_month_skips(from: int, month: int, year: int, day: int)
    requires
        1 <= from <= month <= 12,
        0 <= day < month_length(month, year),
    ensures
        month_from(
            from,
            year,
            days_before_month(month, year) - days_before_month(from, year) + day,
        ) == (month, day),
    decreases month - from,
{
    if from < month {
        lemma_month_skips(from + 1, month, year, day);
        lemma_months_increase(from + 1, month, year);
    }
}

proof fn lemma_months_increase(a: int, b: int, year: int)
    requires
        1 <= a <= b <= 12,
    ensures
        days_before_month(a, year) <= days_before_month(b, year),
    decreases b - a,
{
    if a < b {
        lemma_months_increase(a, b - 1, year);
    }
}

/// A valid date is the date of its day number.
pub proof fn law_date_of_day_number(day: int, month: int, year: int)
    requires
        valid_date(day, month, year),
    ensures
        date_of(day_number(day, month, year)) == (day, month, year),
{
    if year > 1582 {
        lemma_months_fit(month, year);
        lemma_years_increase(1583, year);
        let rest = days_before_month(month, year) + (day - 1);
        lemma_year_found(year, rest);
        lemma_month_found(month, year, day - 1);
    }
}

/// The day number of the date of a day number is that number.
pub proof fn law_day_number_of_date(days: int)
    requires
        0 <= days,
    ensures
        ({
            let (day, month, year) = date_of(days);
            valid_date(day, month, year) && day_number(day, month, year) == days
        }),
{
    if days >= 79 {
        let (year, rest) = year_from(1583, days - 79);
        lemma_year_from_value(1583, days - 79);
        lemma_month_from_value(1, year, rest);
        lemma_months_fit(12, year);
    }
}

/// The day that follows a date: day, month and year.
pub open spec fn next_date(day: int, month: int, year: int) -> (int, int, int) {
    if day < month_length(month, year) {
        (day + 1, month, year)
    } else if month < 12 {
        (1, month + 1, year)
    } else {
        (1, 1, year + 1)
    }
}

/// Consecutive dates have consecutive day numbers.
pub proof fn law_consecutive_dates(day: int, month: int, year: int)
    requires
        valid_date(day, month, year),
    ensures
        ({
            let (d, m, y) = next_date(day, month, year);
            valid_date(d, m, y) && day_number(d, m, y) == day_number(day, month, year) + 1
        }),
{
    lemma_months_fit(month, year);
    if year == 1582 {
        reveal_with_fuel(days_before_year, 2);
        reveal_with_fuel(days_before_month, 2);
    }
}

/// Two dates with one day number are the same date.
pub proof fn law_day_numbers_differ(a: (int, int, int), b: (int, int, int))
    requires
        valid_date(a.0, a.1, a.2),
        valid_date(b.0, b.1, b.2),
        day_number(a.0, a.1, a.2) == day_number(b.0, b.1, b.2),
    ensures
        a == b,
{
    law_date_of_day_number(a.0, a.1, a.2);
    law_date_of_day_number(b.0, b.1, b.2);
}

proof fn lemma_year_from_value(from: int, rest: int)
    requires
        1583 <= from,
        0 <= rest,
    ensures
        ({
            let (year, left) = year_from(from, rest);
            &&& year >= from
            &&& 0 <= left < year_length(year)
            &&& days_before_year(year) + left == days_before_year(from) + rest
        }),
    decreases rest,
{
    if rest >= year_length(from) {
        lemma_year_from_value(from + 1, rest - year_length(from));
    }
}

proof fn lemma_month_from_value(from: int, year: int, rest: int)
    requires
        1 <= from <= 12,
        0 <= rest,
        rest + days_before_month(from, year) < year_length(year),
    ensures
        ({
            let (month, left) = month_from(from, year, rest);
            &&& from <= month <= 12
            &&& 0 <= left < month_length(month, year)
            &&& days_before_month(month, year) + left == days_before_month(from, year) + rest
        }),
    decreases 12 - from,
{
    lemma_months_fit(12, year);
    if from < 12 && rest >= month_length(from, year) {
        lemma_month_from_value(from + 1, year, rest - month_length(from, year));
    }
}

} // verus!
