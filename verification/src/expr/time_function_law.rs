//! What the functions on dates and times give, by name.
use vstd::prelude::*;

use crate::arith::{meaning, NumOp};
use crate::arith_law::exact;
use crate::dataset::DatasetView;
use crate::expr::builtin;
use crate::expr::builtin::Builtin;
use crate::expr::date;
use crate::expr::function_law;
use crate::expr::function_law::{num, result};
use crate::number;
use crate::number::{nearest, Number};
use crate::number_law;
use crate::number_law::small;
use crate::value::ValueView;

verus! {

/// The number of days from the first of March of the year 0 to a date, with years
/// that begin in March.
pub open spec fn civil_days(day: int, month: int, year: int) -> int {
    let y = if month > 2 {
        year
    } else {
        year - 1
    };
    let m = if month > 2 {
        month - 3
    } else {
        month + 9
    };
    365 * y + y / 4 - y / 100 + y / 400 + (153 * m + 2) / 5 + day - 1
}

#[verifier::rlimit(40)]
proof fn lemma_days_before_year(year: int)
    requires
        year >= 1583,
    ensures
        date::days_before_year(year) == 365 * (year - 1) + (year - 1) / 4 - (year - 1) / 100 + (year
            - 1) / 400 - 577734,
    decreases year,
{
    if year > 1583 {
        lemma_days_before_year(year - 1);
        let y = year - 1;
        assert(y / 4 == (y - 1) / 4 + (if y % 4 == 0 {
            1int
        } else {
            0
        }));
        assert(y / 100 == (y - 1) / 100 + (if y % 100 == 0 {
            1int
        } else {
            0
        }));
        assert(y / 400 == (y - 1) / 400 + (if y % 400 == 0 {
            1int
        } else {
            0
        }));
        assert(y % 400 == 0 ==> y % 100 == 0);
        assert(y % 100 == 0 ==> y % 4 == 0);
    }
}

#[verifier::rlimit(40)]
proof fn lemma_year_begins(year: int)
    ensures
        year / 4 - year / 100 + year / 400 == (year - 1) / 4 - (year - 1) / 100 + (year - 1) / 400
            + date::year_length(year) - 365,
{
    assert(year / 4 == (year - 1) / 4 + (if year % 4 == 0 {
        1int
    } else {
        0
    }));
    assert(year / 100 == (year - 1) / 100 + (if year % 100 == 0 {
        1int
    } else {
        0
    }));
    assert(year / 400 == (year - 1) / 400 + (if year % 400 == 0 {
        1int
    } else {
        0
    }));
    assert(year % 400 == 0 ==> year % 100 == 0);
    assert(year % 100 == 0 ==> year % 4 == 0);
}

/// Dates are counted by the calendar of Gregory: the day number of a date is its
/// distance from 14 October 1582.
pub proof fn law_calendar(day: int, month: int, year: int)
    requires
        date::valid_date(day, month, year),
    ensures
        date::day_number(day, month, year) == civil_days(day, month, year) - civil_days(
            14,
            10,
            1582,
        ),
{
    assert(civil_days(14, 10, 1582) == 578040);
    if year > 1582 {
        lemma_days_before_year(year);
        lemma_year_begins(year);
        reveal_with_fuel(date::days_before_month, 13);
        let m = if month > 2 {
            month - 3
        } else {
            month + 9
        };
        assert(m == 0 ==> (153 * m + 2) / 5 == 0);
        assert(m == 1 ==> (153 * m + 2) / 5 == 31);
        assert(m == 2 ==> (153 * m + 2) / 5 == 61);
        assert(m == 3 ==> (153 * m + 2) / 5 == 92);
        assert(m == 4 ==> (153 * m + 2) / 5 == 122);
        assert(m == 5 ==> (153 * m + 2) / 5 == 153);
        assert(m == 6 ==> (153 * m + 2) / 5 == 184);
        assert(m == 7 ==> (153 * m + 2) / 5 == 214);
        assert(m == 8 ==> (153 * m + 2) / 5 == 245);
        assert(m == 9 ==> (153 * m + 2) / 5 == 275);
        assert(m == 10 ==> (153 * m + 2) / 5 == 306);
        assert(m == 11 ==> (153 * m + 2) / 5 == 337);
    }
}

/// Division of which the whole part is that of the integers, and a product with zero
/// that is zero, as those of doubles are.
pub open spec fn floors<F: Fn(NumOp) -> Number>(calc: F) -> bool {
    &&& forall|a: int, b: int|
        0 <= a && small(a) && 0 < b && small(b) ==> #[trigger] meaning(
            calc,
            NumOp::Div(nearest(a), nearest(b)),
        ).floored() == nearest(a / b)
    &&& forall|b: int|
        0 <= b && small(b) ==> #[trigger] meaning(calc, NumOp::Mul(nearest(0), nearest(b)))
            == nearest(0)
}

/// DATE.DMY gives the seconds from the start of 14 October 1582 to that of a date,
/// DATE.MDY the same with month and day the other way round; a date that there is
/// not, or one before that day, is missing.
pub proof fn law_seconds_of_date<F: Fn(NumOp) -> Number>(
    day: int,
    month: int,
    year: int,
    ds: DatasetView,
    calc: F,
)
    requires
        exact(calc),
        floors(calc),
        0 <= day <= u32::MAX,
        0 <= month <= u32::MAX,
        0 <= year <= 1000000,
    ensures
        ({
            let dmy = result(
                "DATE.DMY"@,
                seq![num(nearest(day)), num(nearest(month)), num(nearest(year))],
                ds,
                calc,
            );
            let mdy = result(
                "DATE.MDY"@,
                seq![num(nearest(month)), num(nearest(day)), num(nearest(year))],
                ds,
                calc,
            );
            &&& dmy == mdy
            &&& dmy == Some(
                if date::valid_date(day, month, year) {
                    num(
                        nearest(
                            86400 * (civil_days(day, month, year) - civil_days(14, 10, 1582)),
                        ),
                    )
                } else {
                    ValueView::SystemMissing
                },
            )
        }),
{
    lemma_date_call(day, month, year, ds, calc);
    if date::valid_date(day, month, year) {
        law_calendar(day, month, year);
        lemma_day_number_range(day, month, year);
        lemma_product(date::day_number(day, month, year), 86400, calc);
    }
}

/// Products and quotients of integers.
proof fn lemma_product<F: Fn(NumOp) -> Number>(a: int, b: int, calc: F)
    requires
        exact(calc),
        floors(calc),
        0 <= a < 1000000000,
        0 < b <= 86400,
    ensures
        0 <= b * a < 86400000000000,
        meaning(calc, NumOp::Mul(nearest(a), nearest(b))) == nearest(b * a),
        meaning(calc, NumOp::Div(nearest(b * a), nearest(b))) == nearest(a),
{
    assert(0 <= b * a < 86400000000000) by (nonlinear_arith)
        requires
            0 <= a < 1000000000,
            0 < b <= 86400,
    ;
    assert(a * b == b * a) by (nonlinear_arith);
    assert(a != 0 ==> a * b != 0) by (nonlinear_arith)
        requires
            b > 0,
    ;
    vstd::arithmetic::div_mod::lemma_mod_multiples_basic(a, b);
    vstd::arithmetic::div_mod::lemma_div_multiples_vanish(a, b);
    assert(meaning(calc, NumOp::Mul(nearest(a), nearest(b))) == nearest(a * b));
    assert(meaning(calc, NumOp::Div(nearest(b * a), nearest(b))) == nearest((b * a) / b));
}

proof fn lemma_sum<F: Fn(NumOp) -> Number>(a: int, b: int, calc: F)
    requires
        exact(calc),
        small(a),
        small(b),
        small(a + b),
    ensures
        meaning(calc, NumOp::Add(nearest(a), nearest(b))) == nearest(a + b),
{
}

proof fn lemma_date_call<F: Fn(NumOp) -> Number>(
    day: int,
    month: int,
    year: int,
    ds: DatasetView,
    calc: F,
)
    requires
        0 <= day <= u32::MAX,
        0 <= month <= u32::MAX,
        0 <= year <= 1000000,
    ensures
        ({
            let dmy = result(
                "DATE.DMY"@,
                seq![num(nearest(day)), num(nearest(month)), num(nearest(year))],
                ds,
                calc,
            );
            let mdy = result(
                "DATE.MDY"@,
                seq![num(nearest(month)), num(nearest(day)), num(nearest(year))],
                ds,
                calc,
            );
            &&& dmy == mdy
            &&& dmy == Some(
                if date::valid_date(day, month, year) {
                    num(
                        meaning(
                            calc,
                            NumOp::Mul(
                                nearest(date::day_number(day, month, year)),
                                nearest(86400),
                            ),
                        ),
                    )
                } else {
                    ValueView::SystemMissing
                },
            )
        }),
{
    lemma_date_named(nearest(day), nearest(month), nearest(year), ds, calc);
    lemma_counted(day);
    lemma_counted(month);
    lemma_counted(year);
}

proof fn lemma_counted(n: int)
    requires
        0 <= n <= u32::MAX,
    ensures
        nearest(n).saturated(0, u32::MAX as int) == n,
{
    number::law_small_integers_exact(n);
}

proof fn lemma_date_named<F: Fn(NumOp) -> Number>(
    d: Number,
    m: Number,
    y: Number,
    ds: DatasetView,
    calc: F,
)
    ensures
        result("DATE.DMY"@, seq![num(d), num(m), num(y)], ds, calc) == Some(
            builtin::date_seconds(d, m, y, calc),
        ),
        result("DATE.MDY"@, seq![num(m), num(d), num(y)], ds, calc) == Some(
            builtin::date_seconds(d, m, y, calc),
        ),
{
    let a = seq![num(d), num(m), num(y)];
    let b = seq![num(m), num(d), num(y)];
    lemma_called("DATE.DMY"@, Builtin::DateDmy, a, ds, calc);
    lemma_called("DATE.MDY"@, Builtin::DateMdy, b, ds, calc);
    assert(a[0] == num(d) && a[1] == num(m) && a[2] == num(y));
    assert(b[0] == num(m) && b[1] == num(d) && b[2] == num(y));
    assert(builtin::temporal(Builtin::DateDmy, a, calc) == Some(
        builtin::date_seconds(d, m, y, calc),
    ));
    assert(builtin::temporal(Builtin::DateMdy, b, calc) == Some(
        builtin::date_seconds(d, m, y, calc),
    ));
}

proof fn lemma_called<F: Fn(NumOp) -> Number>(
    name: Seq<char>,
    f: Builtin,
    args: Seq<ValueView>,
    ds: DatasetView,
    calc: F,
)
    requires
        (name == "DATE.DMY"@ && f == Builtin::DateDmy) || (name == "DATE.MDY"@ && f
            == Builtin::DateMdy),
    ensures
        result(name, args, ds, calc) == builtin::temporal(f, args, calc),
{
    function_law::lemma_temporal_names();
    function_law::lemma_call(name, None, args, ds, 0, 0, calc);
}

proof fn lemma_day_number_range(day: int, month: int, year: int)
    requires
        date::valid_date(day, month, year),
        year <= 1000000,
    ensures
        0 <= date::day_number(day, month, year) < 400000000,
{
    law_calendar(day, month, year);
    date::law_date_of_day_number(day, month, year);
    if year > 1582 {
        lemma_days_before_year(year);
        reveal_with_fuel(date::days_before_month, 13);
        assert((year - 1) / 4 >= (year - 1) / 100);
        assert((year - 1) / 400 >= 0);
    }
}

/// The parts of a date and the time of day are those that DATE.DMY and TIME.HMS put
/// together.
pub proof fn law_parts_of_date<F: Fn(NumOp) -> Number>(
    day: int,
    month: int,
    year: int,
    h: int,
    m: int,
    s: int,
    ds: DatasetView,
    calc: F,
)
    requires
        floors(calc),
        date::valid_date(day, month, year),
        year <= 1000000,
        0 <= h < 24,
        0 <= m < 60,
        0 <= s < 60,
    ensures
        ({
            let days = civil_days(day, month, year) - civil_days(14, 10, 1582);
            let t = seq![num(nearest(86400 * days + 3600 * h + 60 * m + s))];
            &&& result("XDATE.MDAY"@, t, ds, calc) == Some(num(nearest(day)))
            &&& result("XDATE.MONTH"@, t, ds, calc) == Some(num(nearest(month)))
            &&& result("XDATE.YEAR"@, t, ds, calc) == Some(num(nearest(year)))
            &&& result("XDATE.HOUR"@, t, ds, calc) == Some(num(nearest(h)))
            &&& result("XDATE.MINUTE"@, t, ds, calc) == Some(num(nearest(m)))
            &&& result("XDATE.SECOND"@, t, ds, calc) == Some(num(nearest(s)))
        }),
{
    law_calendar(day, month, year);
    lemma_day_number_range(day, month, year);
    let n = date::day_number(day, month, year);
    let t = 86400 * n + 3600 * h + 60 * m + s;
    lemma_clock_parts(n, h, m, s);
    date::law_date_of_day_number(day, month, year);
    if n >= 79 {
        assert(date::date_of(n).2 == date::year_from(1583, n - 79).0);
    }
    lemma_date_calls(t, ds, calc);
    lemma_clock_calls(t, ds, calc);
}

proof fn lemma_clock_parts(n: int, h: int, m: int, s: int)
    requires
        0 <= n,
        0 <= h < 24,
        0 <= m < 60,
        0 <= s < 60,
    ensures
        ({
            let t = 86400 * n + 3600 * h + 60 * m + s;
            &&& t / 86400 == n
            &&& t / 3600 % 24 == h
            &&& t / 60 % 60 == m
            &&& t % 60 == s
        }),
{
    let t = 86400 * n + 3600 * h + 60 * m + s;
    assert(t / 86400 == n);
    assert(t / 3600 == 24 * n + h);
    assert(t / 60 == 1440 * n + 60 * h + m);
    assert((24 * n + h) % 24 == h);
    assert((1440 * n + 60 * h + m) % 60 == m);
    assert(t % 60 == s);
}

proof fn lemma_date_calls<F: Fn(NumOp) -> Number>(t: int, ds: DatasetView, calc: F)
    requires
        floors(calc),
        0 <= t,
        small(t),
        date::has_date(t / 86400),
    ensures
        ({
            let a = seq![num(nearest(t))];
            let (day, month, year) = date::date_of(t / 86400);
            &&& result("XDATE.MDAY"@, a, ds, calc) == Some(num(nearest(day)))
            &&& result("XDATE.MONTH"@, a, ds, calc) == Some(num(nearest(month)))
            &&& result("XDATE.YEAR"@, a, ds, calc) == Some(num(nearest(year)))
        }),
{
    function_law::lemma_temporal_names();
    let a = seq![num(nearest(t))];
    assert(a[0] == num(nearest(t)));
    function_law::lemma_call("XDATE.MDAY"@, None, a, ds, 0, 0, calc);
    function_law::lemma_call("XDATE.MONTH"@, None, a, ds, 0, 0, calc);
    function_law::lemma_call("XDATE.YEAR"@, None, a, ds, 0, 0, calc);
    number_law::law_integers_keep_their_order(t, 0);
    assert(meaning(calc, NumOp::Div(nearest(t), nearest(86400))).floored() == nearest(t / 86400));
    number::law_small_integers_exact(t / 86400);
}

proof fn lemma_clock_calls<F: Fn(NumOp) -> Number>(t: int, ds: DatasetView, calc: F)
    requires
        floors(calc),
        0 <= t,
        small(t),
    ensures
        ({
            let a = seq![num(nearest(t))];
            &&& result("XDATE.HOUR"@, a, ds, calc) == Some(num(nearest(t / 3600 % 24)))
            &&& result("XDATE.MINUTE"@, a, ds, calc) == Some(num(nearest(t / 60 % 60)))
            &&& result("XDATE.SECOND"@, a, ds, calc) == Some(num(nearest(t % 60)))
        }),
{
    function_law::lemma_temporal_names();
    let a = seq![num(nearest(t))];
    assert(a[0] == num(nearest(t)));
    function_law::lemma_call("XDATE.HOUR"@, None, a, ds, 0, 0, calc);
    function_law::lemma_call("XDATE.MINUTE"@, None, a, ds, 0, 0, calc);
    function_law::lemma_call("XDATE.SECOND"@, None, a, ds, 0, 0, calc);
    number_law::law_integers_keep_their_order(0, t);
    number_law::law_integers_are_whole(t);
    assert(meaning(calc, NumOp::Div(nearest(t), nearest(3600))).floored() == nearest(t / 3600));
    assert(meaning(calc, NumOp::Div(nearest(t), nearest(60))).floored() == nearest(t / 60));
    number::law_small_integers_exact(t);
    number::law_small_integers_exact(t / 3600);
    number::law_small_integers_exact(t / 60);
}

/// XDATE.WKDAY counts from 1, on Sundays, to 7: 14 October 1582 is a Thursday, the
/// fifth, and the day after the seventh is the first again. The time of day does not
/// matter.
pub proof fn law_day_of_week<F: Fn(NumOp) -> Number>(
    days: int,
    time: int,
    ds: DatasetView,
    calc: F,
)
    requires
        floors(calc),
        0 <= days,
        0 <= time < 86400,
        small(86400 * days + time),
        small(86400 * (days + 1)),
    ensures
        ({
            let today = result("XDATE.WKDAY"@, seq![num(nearest(86400 * days + time))], ds, calc);
            let next = result("XDATE.WKDAY"@, seq![num(nearest(86400 * (days + 1)))], ds, calc);
            &&& days == 0 ==> today == Some(num(nearest(5)))
            &&& exists|w: int|
                1 <= w <= 7 && today == Some(num(#[trigger] nearest(w))) && next == Some(
                    num(
                        nearest(
                            if w == 7 {
                                1
                            } else {
                                w + 1
                            },
                        ),
                    ),
                )
        }),
{
    let t = 86400 * days + time;
    let u = 86400 * (days + 1);
    lemma_weekday(t, ds, calc);
    lemma_weekday(u, ds, calc);
    let w = lemma_week(days, time);
    assert(result("XDATE.WKDAY"@, seq![num(nearest(t))], ds, calc) == Some(num(nearest(w))));
}

proof fn lemma_week(days: int, time: int) -> (w: int)
    requires
        0 <= days,
        0 <= time < 86400,
    ensures
        1 <= w <= 7,
        ((86400 * days + time) / 86400 + 4) % 7 + 1 == w,
        (86400 * (days + 1) / 86400 + 4) % 7 + 1 == if w == 7 {
            1
        } else {
            w + 1
        },
        days == 0 ==> w == 5,
{
    assert((86400 * days + time) / 86400 == days);
    assert(86400 * (days + 1) / 86400 == days + 1);
    (days + 4) % 7 + 1
}

proof fn lemma_weekday<F: Fn(NumOp) -> Number>(t: int, ds: DatasetView, calc: F)
    requires
        floors(calc),
        0 <= t,
        small(t),
    ensures
        result("XDATE.WKDAY"@, seq![num(nearest(t))], ds, calc) == Some(
            num(nearest((t / 86400 + 4) % 7 + 1)),
        ),
{
    function_law::lemma_temporal_names();
    let a = seq![num(nearest(t))];
    assert(a[0] == num(nearest(t)));
    function_law::lemma_call("XDATE.WKDAY"@, None, a, ds, 0, 0, calc);
    assert(meaning(calc, NumOp::Div(nearest(t), nearest(86400))).floored() == nearest(t / 86400));
    number::law_small_integers_exact(t / 86400);
    number_law::law_integers_keep_their_order(0, t / 86400);
}

/// TIME.HMS gives the seconds of hours, minutes and seconds.
pub proof fn law_hours_minutes_seconds<F: Fn(NumOp) -> Number>(
    h: int,
    m: int,
    s: int,
    ds: DatasetView,
    calc: F,
)
    requires
        exact(calc),
        floors(calc),
        0 <= h < 1000000000,
        0 <= m < 1000000000,
        0 <= s < 1000000000,
    ensures
        result("TIME.HMS"@, seq![num(nearest(h)), num(nearest(m)), num(nearest(s))], ds, calc)
            == Some(num(nearest(3600 * h + 60 * m + s))),
{
    law_clock_of_any(nearest(h), nearest(m), nearest(s), ds, calc);
    let (a, b) = (3600 * h, 60 * m);
    lemma_product(h, 3600, calc);
    lemma_product(m, 60, calc);
    lemma_sum(a, b, calc);
    lemma_sum(a + b, s, calc);
}

/// TIME.HMS of any numbers: hours and minutes are taken for seconds and added up.
pub proof fn law_clock_of_any<F: Fn(NumOp) -> Number>(
    h: Number,
    m: Number,
    s: Number,
    ds: DatasetView,
    calc: F,
)
    ensures
        ({
            let a = meaning(calc, NumOp::Mul(h, nearest(3600)));
            let b = meaning(calc, NumOp::Mul(m, nearest(60)));
            let sum = meaning(calc, NumOp::Add(meaning(calc, NumOp::Add(a, b)), s));
            result("TIME.HMS"@, seq![num(h), num(m), num(s)], ds, calc) == Some(num(sum))
        }),
{
    function_law::lemma_temporal_names();
    function_law::lemma_call("TIME.HMS"@, None, seq![num(h), num(m), num(s)], ds, 0, 0, calc);
}

/// TIME.DAYS gives the seconds of days, and CTIME.DAYS, CTIME.HOURS, CTIME.MINUTES
/// and CTIME.SECONDS say how many units seconds are.
pub proof fn law_spans<F: Fn(NumOp) -> Number>(n: int, ds: DatasetView, calc: F)
    requires
        exact(calc),
        floors(calc),
        0 <= n < 1000000000,
    ensures
        result("TIME.DAYS"@, seq![num(nearest(n))], ds, calc) == Some(num(nearest(86400 * n))),
        result("CTIME.DAYS"@, seq![num(nearest(86400 * n))], ds, calc) == Some(num(nearest(n))),
        result("CTIME.HOURS"@, seq![num(nearest(3600 * n))], ds, calc) == Some(num(nearest(n))),
        result("CTIME.MINUTES"@, seq![num(nearest(60 * n))], ds, calc) == Some(num(nearest(n))),
        result("CTIME.SECONDS"@, seq![num(nearest(n))], ds, calc) == Some(num(nearest(n))),
{
    law_spans_of_any(nearest(n), ds, calc);
    law_spans_of_any(nearest(86400 * n), ds, calc);
    law_spans_of_any(nearest(3600 * n), ds, calc);
    law_spans_of_any(nearest(60 * n), ds, calc);
    lemma_product(n, 86400, calc);
    lemma_product(n, 3600, calc);
    lemma_product(n, 60, calc);
}

/// Spans of any length: TIME.DAYS multiplies, and the CTIME functions divide.
pub proof fn law_spans_of_any<F: Fn(NumOp) -> Number>(t: Number, ds: DatasetView, calc: F)
    ensures
        ({
            let a = seq![num(t)];
            let over = |k: int| Some(num(meaning(calc, NumOp::Div(t, nearest(k)))));
            &&& result("TIME.DAYS"@, a, ds, calc) == Some(
                num(meaning(calc, NumOp::Mul(t, nearest(86400)))),
            )
            &&& result("CTIME.DAYS"@, a, ds, calc) == over(86400)
            &&& result("CTIME.HOURS"@, a, ds, calc) == over(3600)
            &&& result("CTIME.MINUTES"@, a, ds, calc) == over(60)
            &&& result("CTIME.SECONDS"@, a, ds, calc) == Some(num(t))
        }),
{
    function_law::lemma_temporal_names();
    let a = seq![num(t)];
    assert(a[0] == num(t));
    function_law::lemma_call("TIME.DAYS"@, None, a, ds, 0, 0, calc);
    function_law::lemma_call("CTIME.DAYS"@, None, a, ds, 0, 0, calc);
    function_law::lemma_call("CTIME.HOURS"@, None, a, ds, 0, 0, calc);
    function_law::lemma_call("CTIME.MINUTES"@, None, a, ds, 0, 0, calc);
    function_law::lemma_call("CTIME.SECONDS"@, None, a, ds, 0, 0, calc);
}

/// Seconds before 14 October 1582 have no date, day of the week or time of day.
pub proof fn law_before_the_first_day<F: Fn(NumOp) -> Number>(t: int, ds: DatasetView, calc: F)
    requires
        t < 0,
        small(t),
    ensures
        ({
            let a = seq![num(nearest(t))];
            let none = Some(ValueView::SystemMissing);
            &&& result("XDATE.MDAY"@, a, ds, calc) == none
            &&& result("XDATE.MONTH"@, a, ds, calc) == none
            &&& result("XDATE.YEAR"@, a, ds, calc) == none
            &&& result("XDATE.HOUR"@, a, ds, calc) == none
            &&& result("XDATE.MINUTE"@, a, ds, calc) == none
            &&& result("XDATE.SECOND"@, a, ds, calc) == none
        }),
{
    function_law::lemma_temporal_names();
    let a = seq![num(nearest(t))];
    assert(a[0] == num(nearest(t)));
    number_law::law_integers_keep_their_order(t, 0);
    number_law::law_integers_keep_their_order(0, t);
    function_law::lemma_call("XDATE.MDAY"@, None, a, ds, 0, 0, calc);
    function_law::lemma_call("XDATE.MONTH"@, None, a, ds, 0, 0, calc);
    function_law::lemma_call("XDATE.YEAR"@, None, a, ds, 0, 0, calc);
    function_law::lemma_call("XDATE.HOUR"@, None, a, ds, 0, 0, calc);
    function_law::lemma_call("XDATE.MINUTE"@, None, a, ds, 0, 0, calc);
    function_law::lemma_call("XDATE.SECOND"@, None, a, ds, 0, 0, calc);
}

} // verus!
