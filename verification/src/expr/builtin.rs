//! The functions of expressions on values.
use vstd::prelude::*;
use vstd::utf8::{decode_utf8, encode_utf8, is_char_boundary};

use crate::arith;
use crate::arith::{find_greatest, find_least, mean, perform, squared_deviations, sum, NumOp};
use crate::expr::date;
use crate::expr::date::{date_from_days, days_since_1582_10_14};
use crate::number;
use crate::number::Number;
use crate::text;
use crate::text::{
    chars_of, find_text, len_of, same_text, to_lower, to_upper, trim_end_of, trim_start_of,
};
use crate::value::{Value, ValueView};

verus! {

broadcast use crate::text::lemma_views_push;

/// The functions that expressions can call.
#[derive(Debug, Clone, Copy, PartialEq, Eq, Structural)]
pub enum Builtin {
    Sum,
    Mean,
    Min,
    Max,
    Variance,
    Sd,
    Value,
    Missing,
    Sysmis,
    Nmiss,
    Nvalid,
    Abs,
    Sqrt,
    Exp,
    Ln,
    Lg10,
    Rnd,
    Trunc,
    Mod,
    Sin,
    Cos,
    Tan,
    Arsin,
    Arcos,
    Artan,
    Concat,
    Lower,
    Upper,
    Length,
    Substr,
    Lpad,
    Rpad,
    Ltrim,
    Rtrim,
    Index,
    DateDmy,
    DateMdy,
    TimeHms,
    TimeDays,
    XdateYear,
    XdateMonth,
    XdateMday,
    XdateWkday,
    XdateHour,
    XdateMinute,
    XdateSecond,
    CtimeDays,
    CtimeHours,
    CtimeMinutes,
    CtimeSeconds,
    /// Any other name.
    Unknown,
}

/// The aggregates over several arguments.
pub open spec fn aggregate_named(name: Seq<char>) -> Option<Builtin> {
    if name == "SUM"@ {
        Some(Builtin::Sum)
    } else if name == "MEAN"@ {
        Some(Builtin::Mean)
    } else if name == "MIN"@ {
        Some(Builtin::Min)
    } else if name == "MAX"@ {
        Some(Builtin::Max)
    } else if name == "VARIANCE"@ {
        Some(Builtin::Variance)
    } else if name == "SD"@ {
        Some(Builtin::Sd)
    } else {
        None
    }
}

/// The functions on missing values.
pub open spec fn missing_named(name: Seq<char>) -> Option<Builtin> {
    if name == "VALUE"@ {
        Some(Builtin::Value)
    } else if name == "MISSING"@ {
        Some(Builtin::Missing)
    } else if name == "SYSMIS"@ {
        Some(Builtin::Sysmis)
    } else if name == "NMISS"@ {
        Some(Builtin::Nmiss)
    } else if name == "NVALID"@ {
        Some(Builtin::Nvalid)
    } else {
        None
    }
}

/// The functions on numbers.
pub open spec fn numeric_named(name: Seq<char>) -> Option<Builtin> {
    if name == "ABS"@ {
        Some(Builtin::Abs)
    } else if name == "SQRT"@ {
        Some(Builtin::Sqrt)
    } else if name == "EXP"@ {
        Some(Builtin::Exp)
    } else if name == "LN"@ {
        Some(Builtin::Ln)
    } else if name == "LG10"@ {
        Some(Builtin::Lg10)
    } else if name == "RND"@ {
        Some(Builtin::Rnd)
    } else if name == "TRUNC"@ {
        Some(Builtin::Trunc)
    } else if name == "MOD"@ {
        Some(Builtin::Mod)
    } else if name == "SIN"@ {
        Some(Builtin::Sin)
    } else if name == "COS"@ {
        Some(Builtin::Cos)
    } else if name == "TAN"@ {
        Some(Builtin::Tan)
    } else if name == "ARSIN"@ {
        Some(Builtin::Arsin)
    } else if name == "ARCOS"@ {
        Some(Builtin::Arcos)
    } else if name == "ARTAN"@ {
        Some(Builtin::Artan)
    } else {
        None
    }
}

/// The functions on texts.
pub open spec fn textual_named(name: Seq<char>) -> Option<Builtin> {
    if name == "CONCAT"@ {
        Some(Builtin::Concat)
    } else if name == "LOWER"@ || name == "LOWERCASE"@ {
        Some(Builtin::Lower)
    } else if name == "UPPER"@ || name == "UPPERCASE"@ {
        Some(Builtin::Upper)
    } else if name == "LENGTH"@ || name == "CHAR.LENGTH"@ {
        Some(Builtin::Length)
    } else if name == "SUBSTR"@ || name == "CHAR.SUBSTR"@ {
        Some(Builtin::Substr)
    } else if name == "LPAD"@ {
        Some(Builtin::Lpad)
    } else if name == "RPAD"@ {
        Some(Builtin::Rpad)
    } else if name == "LTRIM"@ {
        Some(Builtin::Ltrim)
    } else if name == "RTRIM"@ {
        Some(Builtin::Rtrim)
    } else if name == "INDEX"@ || name == "CHAR.INDEX"@ {
        Some(Builtin::Index)
    } else {
        None
    }
}

/// The functions on dates and times.
pub open spec fn temporal_named(name: Seq<char>) -> Option<Builtin> {
    if name == "DATE.DMY"@ {
        Some(Builtin::DateDmy)
    } else if name == "DATE.MDY"@ {
        Some(Builtin::DateMdy)
    } else if name == "TIME.HMS"@ {
        Some(Builtin::TimeHms)
    } else if name == "TIME.DAYS"@ {
        Some(Builtin::TimeDays)
    } else if name == "XDATE.YEAR"@ {
        Some(Builtin::XdateYear)
    } else if name == "XDATE.MONTH"@ {
        Some(Builtin::XdateMonth)
    } else if name == "XDATE.MDAY"@ {
        Some(Builtin::XdateMday)
    } else if name == "XDATE.WKDAY"@ {
        Some(Builtin::XdateWkday)
    } else if name == "XDATE.HOUR"@ {
        Some(Builtin::XdateHour)
    } else if name == "XDATE.MINUTE"@ {
        Some(Builtin::XdateMinute)
    } else if name == "XDATE.SECOND"@ {
        Some(Builtin::XdateSecond)
    } else if name == "CTIME.DAYS"@ {
        Some(Builtin::CtimeDays)
    } else if name == "CTIME.HOURS"@ {
        Some(Builtin::CtimeHours)
    } else if name == "CTIME.MINUTES"@ {
        Some(Builtin::CtimeMinutes)
    } else if name == "CTIME.SECONDS"@ {
        Some(Builtin::CtimeSeconds)
    } else {
        None
    }
}

/// The first of two that there is.
pub open spec fn first_of(a: Option<Builtin>, b: Option<Builtin>) -> Option<Builtin> {
    if a is Some {
        a
    } else {
        b
    }
}

/// The function of a name in upper case.
pub open spec fn function_named(name: Seq<char>) -> Builtin {
    match first_of(
        first_of(aggregate_named(name), missing_named(name)),
        first_of(numeric_named(name), first_of(textual_named(name), temporal_named(name))),
    ) {
        Some(f) => f,
        None => Builtin::Unknown,
    }
}

/// A truth value as a number.
pub open spec fn truth(b: bool) -> ValueView {
    ValueView::Numeric(
        number::nearest(
            if b {
                1
            } else {
                0
            },
        ),
    )
}

/// The numbers among values.
pub open spec fn numbers_of(v: Seq<ValueView>) -> Seq<Number>
    decreases v.len(),
{
    if v.len() == 0 {
        Seq::empty()
    } else {
        match v.last() {
            ValueView::Numeric(n) => numbers_of(v.drop_last()).push(n),
            _ => numbers_of(v.drop_last()),
        }
    }
}

/// The number of missing values.
pub open spec fn missing_count(v: Seq<ValueView>) -> nat
    decreases v.len(),
{
    if v.len() == 0 {
        0
    } else if v.last() is SystemMissing {
        missing_count(v.drop_last()) + 1
    } else {
        missing_count(v.drop_last())
    }
}

/// The variance of numbers: the squares of the differences to the mean over one
/// less than their number.
pub open spec fn variance_of<F: Fn(NumOp) -> Number>(v: Seq<Number>, calc: F) -> Number {
    let n = number::nearest(v.len() as int);
    let squares = arith::sum_of(arith::deviations(v, arith::mean_of(v, calc), calc), calc);
    let less = arith::meaning(calc, NumOp::Sub(n, number::nearest(1)));
    arith::meaning(calc, NumOp::Div(squares, less))
}

/// An aggregate of the numbers among its arguments. There must be as many as
/// are asked for: one, or two for a variance, where nothing else is said.
pub open spec fn aggregated<F: Fn(NumOp) -> Number>(
    f: Builtin,
    min_valid: Option<usize>,
    args: Seq<ValueView>,
    calc: F,
) -> ValueView {
    let nums = numbers_of(args);
    let required = match min_valid {
        Some(n) => n as int,
        None => if f == Builtin::Sd || f == Builtin::Variance {
            2
        } else {
            1
        },
    };
    if nums.len() < required {
        ValueView::SystemMissing
    } else {
        match f {
            Builtin::Sum => ValueView::Numeric(arith::sum_of(nums, calc)),
            Builtin::Mean => ValueView::Numeric(arith::mean_of(nums, calc)),
            Builtin::Min => ValueView::Numeric(arith::least(nums)),
            Builtin::Max => ValueView::Numeric(arith::greatest(nums)),
            Builtin::Variance => ValueView::Numeric(variance_of(nums, calc)),
            Builtin::Sd => ValueView::Numeric(
                arith::meaning(calc, NumOp::Sqrt(variance_of(nums, calc))),
            ),
            _ => ValueView::SystemMissing,
        }
    }
}

/// A number rounded to a multiple of another by `op`.
pub open spec fn to_multiple<F: Fn(NumOp) -> Number>(
    x: Number,
    unit: Number,
    trunc: bool,
    calc: F,
) -> ValueView {
    let q = arith::meaning(calc, NumOp::Div(x, unit));
    let whole = if trunc {
        q.truncated()
    } else {
        q.rounded()
    };
    ValueView::Numeric(arith::meaning(calc, NumOp::Mul(whole, unit)))
}

/// A function of one number.
pub open spec fn of_one<F: Fn(NumOp) -> Number>(f: Builtin, x: Number, calc: F) -> ValueView {
    let one = number::nearest(1);
    match f {
        Builtin::Abs => ValueView::Numeric(x.absolute()),
        Builtin::Sqrt => if number::nearest(0).at_most(x) {
            ValueView::Numeric(arith::meaning(calc, NumOp::Sqrt(x)))
        } else {
            ValueView::SystemMissing
        },
        Builtin::Exp => ValueView::Numeric(arith::meaning(calc, NumOp::Exp(x))),
        Builtin::Ln => if number::nearest(0).below(x) {
            ValueView::Numeric(arith::meaning(calc, NumOp::Ln(x)))
        } else {
            ValueView::SystemMissing
        },
        Builtin::Lg10 => if number::nearest(0).below(x) {
            ValueView::Numeric(arith::meaning(calc, NumOp::Log10(x)))
        } else {
            ValueView::SystemMissing
        },
        Builtin::Rnd => ValueView::Numeric(x.rounded()),
        Builtin::Trunc => ValueView::Numeric(x.truncated()),
        Builtin::Sin => ValueView::Numeric(arith::meaning(calc, NumOp::Sin(x))),
        Builtin::Cos => ValueView::Numeric(arith::meaning(calc, NumOp::Cos(x))),
        Builtin::Tan => ValueView::Numeric(arith::meaning(calc, NumOp::Tan(x))),
        Builtin::Arsin => if one.negated().at_most(x) && x.at_most(one) {
            ValueView::Numeric(arith::meaning(calc, NumOp::Asin(x)))
        } else {
            ValueView::SystemMissing
        },
        Builtin::Arcos => if one.negated().at_most(x) && x.at_most(one) {
            ValueView::Numeric(arith::meaning(calc, NumOp::Acos(x)))
        } else {
            ValueView::SystemMissing
        },
        Builtin::Artan => ValueView::Numeric(arith::meaning(calc, NumOp::Atan(x))),
        _ => ValueView::SystemMissing,
    }
}

/// A function of two numbers; a zero as the second gives a missing value.
pub open spec fn of_two<F: Fn(NumOp) -> Number>(
    f: Builtin,
    x: Number,
    y: Number,
    calc: F,
) -> ValueView {
    if y.equals(number::nearest(0)) {
        ValueView::SystemMissing
    } else {
        match f {
            Builtin::Rnd => to_multiple(x, y, false, calc),
            Builtin::Trunc => to_multiple(x, y, true, calc),
            Builtin::Mod => ValueView::Numeric(arith::meaning(calc, NumOp::Rem(x, y))),
            _ => ValueView::SystemMissing,
        }
    }
}

/// A function on numbers.
pub open spec fn numeric<F: Fn(NumOp) -> Number>(
    f: Builtin,
    args: Seq<ValueView>,
    calc: F,
) -> ValueView {
    if args.len() == 1 {
        match args[0] {
            ValueView::Numeric(x) => of_one(f, x, calc),
            _ => ValueView::SystemMissing,
        }
    } else if args.len() == 2 {
        match (args[0], args[1]) {
            (ValueView::Numeric(x), ValueView::Numeric(y)) => of_two(f, x, y, calc),
            _ => ValueView::SystemMissing,
        }
    } else {
        ValueView::SystemMissing
    }
}

/// Texts one after the other; missing where one of the values is no text.
pub open spec fn concatenated(args: Seq<ValueView>) -> ValueView
    decreases args.len(),
{
    if args.len() == 0 {
        ValueView::String(Seq::empty())
    } else {
        match (concatenated(args.drop_last()), args.last()) {
            (ValueView::String(a), ValueView::String(b)) => ValueView::String(a + b),
            _ => ValueView::SystemMissing,
        }
    }
}

/// The part of a text between two byte positions. There is none where a position
/// is inside a character.
pub open spec fn text_slice(t: Seq<char>, from: int, to: int) -> Option<Seq<char>> {
    let b = encode_utf8(t);
    if 0 <= from <= to <= b.len() && is_char_boundary(b, from) && is_char_boundary(b, to) {
        Some(decode_utf8(b.subrange(from, to)))
    } else {
        None
    }
}

/// The part of a text from a position counted from 1, of a length in bytes or up
/// to its end. A position outside the text gives the empty text. There is no
/// result where a character would be cut or the end cannot be counted.
pub open spec fn substring(t: Seq<char>, pos: Number, len: Option<Number>) -> Option<ValueView> {
    let n = text::byte_len(t) as int;
    let p = pos.saturated(isize::MIN as int, isize::MAX as int);
    if p <= 0 || p > n {
        Some(ValueView::String(Seq::empty()))
    } else {
        let start = p - 1;
        let end = match len {
            Some(l) => start + l.saturated(0, usize::MAX as int),
            None => n,
        };
        if end > usize::MAX {
            None
        } else {
            match text_slice(
                t,
                start,
                if end < n {
                    end
                } else {
                    n
                },
            ) {
                Some(part) => Some(ValueView::String(part)),
                None => None,
            }
        }
    }
}

/// `n` times one character.
pub open spec fn repeated(c: char, n: nat) -> Seq<char> {
    Seq::new(n, |i: int| c)
}

/// A text filled up to a length. The missing bytes are counted, and as many
/// characters are put in. There is no result where that is more than a text can hold.
pub open spec fn filled(t: Seq<char>, len: Number, pad: Seq<char>, left: bool) -> Option<ValueView> {
    let want = len.saturated(0, usize::MAX as int);
    let n = text::byte_len(t) as int;
    if n >= want || pad.len() == 0 {
        Some(ValueView::String(t))
    } else if want - n > isize::MAX {
        None
    } else if left {
        Some(ValueView::String(repeated(pad[0], (want - n) as nat) + t))
    } else {
        Some(ValueView::String(t + repeated(pad[0], (want - n) as nat)))
    }
}

/// A text without the first character of another at its start or end.
pub open spec fn stripped(t: Seq<char>, chars: Seq<char>, left: bool) -> Seq<char> {
    if chars.len() == 0 {
        t
    } else if left {
        text::drop_start(t, text::same_as(chars[0]))
    } else {
        text::drop_end(t, text::same_as(chars[0]))
    }
}

/// A function of one text.
pub open spec fn of_text(f: Builtin, t: Seq<char>) -> ValueView {
    match f {
        Builtin::Lower => ValueView::String(text::lowercase(t)),
        Builtin::Upper => ValueView::String(text::uppercase(t)),
        Builtin::Length => ValueView::Numeric(number::nearest(text::byte_len(t) as int)),
        Builtin::Ltrim => ValueView::String(text::trimmed_start(t)),
        Builtin::Rtrim => ValueView::String(text::trimmed_end(t)),
        _ => ValueView::SystemMissing,
    }
}

/// A function on texts.
pub open spec fn textual(f: Builtin, args: Seq<ValueView>) -> Option<ValueView> {
    if f == Builtin::Concat {
        Some(concatenated(args))
    } else if args.len() == 1 {
        match args[0] {
            ValueView::String(t) => Some(of_text(f, t)),
            _ => Some(ValueView::SystemMissing),
        }
    } else if args.len() == 2 {
        match (f, args[0], args[1]) {
            (Builtin::Substr, ValueView::String(t), ValueView::Numeric(p)) => substring(t, p, None),
            (Builtin::Lpad, ValueView::String(t), ValueView::Numeric(n)) => filled(
                t,
                n,
                seq![' '],
                true,
            ),
            (Builtin::Rpad, ValueView::String(t), ValueView::Numeric(n)) => filled(
                t,
                n,
                seq![' '],
                false,
            ),
            (Builtin::Ltrim, ValueView::String(t), ValueView::String(c)) => Some(
                ValueView::String(stripped(t, c, true)),
            ),
            (Builtin::Rtrim, ValueView::String(t), ValueView::String(c)) => Some(
                ValueView::String(stripped(t, c, false)),
            ),
            (Builtin::Index, ValueView::String(t), ValueView::String(x)) => Some(
                ValueView::Numeric(
                    number::nearest(
                        match text::offset_of(t, x) {
                            Some(k) => k as int + 1,
                            None => 0,
                        },
                    ),
                ),
            ),
            _ => Some(ValueView::SystemMissing),
        }
    } else if args.len() == 3 {
        match (f, args[0], args[1], args[2]) {
            (
                Builtin::Substr,
                ValueView::String(t),
                ValueView::Numeric(p),
                ValueView::Numeric(n),
            ) => substring(t, p, Some(n)),
            (
                Builtin::Lpad,
                ValueView::String(t),
                ValueView::Numeric(n),
                ValueView::String(pad),
            ) => filled(t, n, pad, true),
            (
                Builtin::Rpad,
                ValueView::String(t),
                ValueView::Numeric(n),
                ValueView::String(pad),
            ) => filled(t, n, pad, false),
            _ => Some(ValueView::SystemMissing),
        }
    } else {
        Some(ValueView::SystemMissing)
    }
}

/// The seconds of a date; missing where it is not valid.
pub open spec fn date_seconds<F: Fn(NumOp) -> Number>(
    d: Number,
    m: Number,
    y: Number,
    calc: F,
) -> ValueView {
    let day = d.saturated(0, u32::MAX as int);
    let month = m.saturated(0, u32::MAX as int);
    let year = y.saturated(0, u32::MAX as int);
    if date::valid_date(day, month, year) {
        ValueView::Numeric(
            arith::meaning(
                calc,
                NumOp::Mul(
                    number::nearest(date::day_number(day, month, year)),
                    number::nearest(86400),
                ),
            ),
        )
    } else {
        ValueView::SystemMissing
    }
}

/// A quotient without its fraction.
pub open spec fn whole_quotient<F: Fn(NumOp) -> Number>(t: Number, unit: int, calc: F) -> Number {
    arith::meaning(calc, NumOp::Div(t, number::nearest(unit))).floored()
}

/// The part of a date: 0 is the day, 1 the month, 2 the year. Seconds before the
/// first day have none; there is no result for seconds that no date has.
pub open spec fn date_part<F: Fn(NumOp) -> Number>(t: Number, part: int, calc: F) -> Option<
    ValueView,
> {
    if t.below(number::nearest(0)) {
        Some(ValueView::SystemMissing)
    } else {
        let q = whole_quotient(t, 86400, calc);
        let days = q.saturated(0, u64::MAX as int);
        if q.nan() || !date::has_date(days) {
            None
        } else {
            let (day, month, year) = date::date_of(days);
            Some(
                ValueView::Numeric(
                    number::nearest(
                        if part == 0 {
                            day
                        } else if part == 1 {
                            month
                        } else {
                            year
                        },
                    ),
                ),
            )
        }
    }
}

/// The remainder of the division that rounds towards zero.
pub open spec fn remainder(a: int, b: int) -> int {
    if a >= 0 {
        a % b
    } else {
        -((-a) % b)
    }
}

/// The day of the week: 14 October 1582 is day 5. There is no result where it
/// cannot be counted.
pub open spec fn weekday<F: Fn(NumOp) -> Number>(t: Number, calc: F) -> Option<ValueView> {
    let q = whole_quotient(t, 86400, calc);
    let days = q.saturated(i64::MIN as int, i64::MAX as int);
    if !number::nearest(0).at_most(q) {
        Some(ValueView::SystemMissing)
    } else if days + 4 > i64::MAX {
        None
    } else {
        Some(ValueView::Numeric(number::nearest(remainder(days + 4, 7) + 1)))
    }
}

/// A part of the time of day: whole units of `unit` seconds, of which `cycle` make
/// the next.
pub open spec fn clock<F: Fn(NumOp) -> Number>(
    t: Number,
    unit: int,
    cycle: int,
    calc: F,
) -> ValueView {
    let q = if unit == 1 {
        t.floored()
    } else {
        whole_quotient(t, unit, calc)
    };
    if number::nearest(0).at_most(t) {
        ValueView::Numeric(
            number::nearest(remainder(q.saturated(i64::MIN as int, i64::MAX as int), cycle)),
        )
    } else {
        ValueView::SystemMissing
    }
}

/// A function of one time.
pub open spec fn of_time<F: Fn(NumOp) -> Number>(f: Builtin, t: Number, calc: F) -> Option<
    ValueView,
> {
    match f {
        Builtin::TimeDays => Some(
            ValueView::Numeric(arith::meaning(calc, NumOp::Mul(t, number::nearest(86400)))),
        ),
        Builtin::XdateYear => date_part(t, 2, calc),
        Builtin::XdateMonth => date_part(t, 1, calc),
        Builtin::XdateMday => date_part(t, 0, calc),
        Builtin::XdateWkday => weekday(t, calc),
        Builtin::XdateHour => Some(clock(t, 3600, 24, calc)),
        Builtin::XdateMinute => Some(clock(t, 60, 60, calc)),
        Builtin::XdateSecond => Some(clock(t, 1, 60, calc)),
        Builtin::CtimeDays => Some(
            ValueView::Numeric(arith::meaning(calc, NumOp::Div(t, number::nearest(86400)))),
        ),
        Builtin::CtimeHours => Some(
            ValueView::Numeric(arith::meaning(calc, NumOp::Div(t, number::nearest(3600)))),
        ),
        Builtin::CtimeMinutes => Some(
            ValueView::Numeric(arith::meaning(calc, NumOp::Div(t, number::nearest(60)))),
        ),
        Builtin::CtimeSeconds => Some(ValueView::Numeric(t)),
        _ => Some(ValueView::SystemMissing),
    }
}

/// The seconds of hours, minutes and seconds.
pub open spec fn clock_seconds<F: Fn(NumOp) -> Number>(
    h: Number,
    m: Number,
    s: Number,
    calc: F,
) -> ValueView {
    let a = arith::meaning(calc, NumOp::Mul(h, number::nearest(3600)));
    let b = arith::meaning(calc, NumOp::Mul(m, number::nearest(60)));
    ValueView::Numeric(
        arith::meaning(calc, NumOp::Add(arith::meaning(calc, NumOp::Add(a, b)), s)),
    )
}

/// A function on dates and times.
pub open spec fn temporal<F: Fn(NumOp) -> Number>(
    f: Builtin,
    args: Seq<ValueView>,
    calc: F,
) -> Option<ValueView> {
    if args.len() == 1 {
        match args[0] {
            ValueView::Numeric(t) => of_time(f, t, calc),
            _ => Some(ValueView::SystemMissing),
        }
    } else if args.len() == 3 {
        match (args[0], args[1], args[2]) {
            (ValueView::Numeric(a), ValueView::Numeric(b), ValueView::Numeric(c)) => match f {
                Builtin::DateDmy => Some(date_seconds(a, b, c, calc)),
                Builtin::DateMdy => Some(date_seconds(b, a, c, calc)),
                Builtin::TimeHms => Some(clock_seconds(a, b, c, calc)),
                _ => Some(ValueView::SystemMissing),
            },
            _ => Some(ValueView::SystemMissing),
        }
    } else {
        Some(ValueView::SystemMissing)
    }
}

/// A function on numbers.
pub open spec fn is_numeric(f: Builtin) -> bool {
    f == Builtin::Abs || f == Builtin::Sqrt || f == Builtin::Exp || f == Builtin::Ln || f
        == Builtin::Lg10 || f == Builtin::Rnd || f == Builtin::Trunc || f == Builtin::Mod || f
        == Builtin::Sin || f == Builtin::Cos || f == Builtin::Tan || f == Builtin::Arsin || f
        == Builtin::Arcos || f == Builtin::Artan
}

/// A function on texts.
pub open spec fn is_textual(f: Builtin) -> bool {
    f == Builtin::Concat || f == Builtin::Lower || f == Builtin::Upper || f == Builtin::Length || f
        == Builtin::Substr || f == Builtin::Lpad || f == Builtin::Rpad || f == Builtin::Ltrim || f
        == Builtin::Rtrim || f == Builtin::Index
}

/// A function on the values of its arguments. There is no result where a text
/// would be cut inside a character or a number cannot be counted.
pub open spec fn applied<F: Fn(NumOp) -> Number>(
    f: Builtin,
    args: Seq<ValueView>,
    calc: F,
) -> Option<ValueView> {
    if is_numeric(f) {
        Some(numeric(f, args, calc))
    } else if is_textual(f) {
        textual(f, args)
    } else {
        temporal(f, args, calc)
    }
}

fn find_aggregate(name: &str) -> (r: Option<Builtin>)
    ensures
        r == aggregate_named(name@),
{
    if same_text(name, "SUM") {
        Some(Builtin::Sum)
    } else if same_text(name, "MEAN") {
        Some(Builtin::Mean)
    } else if same_text(name, "MIN") {
        Some(Builtin::Min)
    } else if same_text(name, "MAX") {
        Some(Builtin::Max)
    } else if same_text(name, "VARIANCE") {
        Some(Builtin::Variance)
    } else if same_text(name, "SD") {
        Some(Builtin::Sd)
    } else {
        None
    }
}

fn find_missing(name: &str) -> (r: Option<Builtin>)
    ensures
        r == missing_named(name@),
{
    if same_text(name, "VALUE") {
        Some(Builtin::Value)
    } else if same_text(name, "MISSING") {
        Some(Builtin::Missing)
    } else if same_text(name, "SYSMIS") {
        Some(Builtin::Sysmis)
    } else if same_text(name, "NMISS") {
        Some(Builtin::Nmiss)
    } else if same_text(name, "NVALID") {
        Some(Builtin::Nvalid)
    } else {
        None
    }
}

fn find_numeric(name: &str) -> (r: Option<Builtin>)
    ensures
        r == numeric_named(name@),
{
    if same_text(name, "ABS") {
        Some(Builtin::Abs)
    } else if same_text(name, "SQRT") {
        Some(Builtin::Sqrt)
    } else if same_text(name, "EXP") {
        Some(Builtin::Exp)
    } else if same_text(name, "LN") {
        Some(Builtin::Ln)
    } else if same_text(name, "LG10") {
        Some(Builtin::Lg10)
    } else if same_text(name, "RND") {
        Some(Builtin::Rnd)
    } else if same_text(name, "TRUNC") {
        Some(Builtin::Trunc)
    } else if same_text(name, "MOD") {
        Some(Builtin::Mod)
    } else if same_text(name, "SIN") {
        Some(Builtin::Sin)
    } else if same_text(name, "COS") {
        Some(Builtin::Cos)
    } else if same_text(name, "TAN") {
        Some(Builtin::Tan)
    } else if same_text(name, "ARSIN") {
        Some(Builtin::Arsin)
    } else if same_text(name, "ARCOS") {
        Some(Builtin::Arcos)
    } else if same_text(name, "ARTAN") {
        Some(Builtin::Artan)
    } else {
        None
    }
}

fn find_textual(name: &str) -> (r: Option<Builtin>)
    ensures
        r == textual_named(name@),
{
    if same_text(name, "CONCAT") {
        Some(Builtin::Concat)
    } else if same_text(name, "LOWER") || same_text(name, "LOWERCASE") {
        Some(Builtin::Lower)
    } else if same_text(name, "UPPER") || same_text(name, "UPPERCASE") {
        Some(Builtin::Upper)
    } else if same_text(name, "LENGTH") || same_text(name, "CHAR.LENGTH") {
        Some(Builtin::Length)
    } else if same_text(name, "SUBSTR") || same_text(name, "CHAR.SUBSTR") {
        Some(Builtin::Substr)
    } else if same_text(name, "LPAD") {
        Some(Builtin::Lpad)
    } else if same_text(name, "RPAD") {
        Some(Builtin::Rpad)
    } else if same_text(name, "LTRIM") {
        Some(Builtin::Ltrim)
    } else if same_text(name, "RTRIM") {
        Some(Builtin::Rtrim)
    } else if same_text(name, "INDEX") || same_text(name, "CHAR.INDEX") {
        Some(Builtin::Index)
    } else {
        None
    }
}

fn find_temporal(name: &str) -> (r: Option<Builtin>)
    ensures
        r == temporal_named(name@),
{
    if same_text(name, "DATE.DMY") {
        Some(Builtin::DateDmy)
    } else if same_text(name, "DATE.MDY") {
        Some(Builtin::DateMdy)
    } else if same_text(name, "TIME.HMS") {
        Some(Builtin::TimeHms)
    } else if same_text(name, "TIME.DAYS") {
        Some(Builtin::TimeDays)
    } else if same_text(name, "XDATE.YEAR") {
        Some(Builtin::XdateYear)
    } else if same_text(name, "XDATE.MONTH") {
        Some(Builtin::XdateMonth)
    } else if same_text(name, "XDATE.MDAY") {
        Some(Builtin::XdateMday)
    } else if same_text(name, "XDATE.WKDAY") {
        Some(Builtin::XdateWkday)
    } else if same_text(name, "XDATE.HOUR") {
        Some(Builtin::XdateHour)
    } else if same_text(name, "XDATE.MINUTE") {
        Some(Builtin::XdateMinute)
    } else if same_text(name, "XDATE.SECOND") {
        Some(Builtin::XdateSecond)
    } else if same_text(name, "CTIME.DAYS") {
        Some(Builtin::CtimeDays)
    } else if same_text(name, "CTIME.HOURS") {
        Some(Builtin::CtimeHours)
    } else if same_text(name, "CTIME.MINUTES") {
        Some(Builtin::CtimeMinutes)
    } else if same_text(name, "CTIME.SECONDS") {
        Some(Builtin::CtimeSeconds)
    } else {
        None
    }
}

/// Finds the function of a name in upper case.
pub fn find_function(name: &str) -> (r: Builtin)
    ensures
        r == function_named(name@),
{
    if let Some(f) = find_aggregate(name) {
        return f;
    }
    if let Some(f) = find_missing(name) {
        return f;
    }
    if let Some(f) = find_numeric(name) {
        return f;
    }
    if let Some(f) = find_textual(name) {
        return f;
    }
    if let Some(f) = find_temporal(name) {
        return f;
    }
    Builtin::Unknown
}

/// A truth value as a number.
pub fn truth_value(b: bool) -> (r: Value)
    ensures
        r@ == truth(b),
{
    Value::Numeric(
        Number::from_usize(
            if b {
                1
            } else {
                0
            },
        ),
    )
}

/// The numbers among values.
pub fn collect_numbers(v: &Vec<Value>) -> (r: Vec<Number>)
    ensures
        r@ == numbers_of(text::views(v@)),
{
    let ghost vv = text::views(v@);
    let mut out: Vec<Number> = Vec::new();
    let mut i: usize = 0;
    proof {
        assert(vv.take(0) =~= Seq::empty());
    }
    while i < v.len()
        invariant
            i <= v.len(),
            vv == text::views(v@),
            out@ == numbers_of(vv.take(i as int)),
        decreases v.len() - i,
    {
        proof {
            assert(vv.take(i + 1).drop_last() =~= vv.take(i as int));
            assert(vv.take(i + 1).last() == v@[i as int]@);
        }
        if let Value::Numeric(n) = &v[i] {
            out.push(*n);
        }
        i = i + 1;
    }
    proof {
        assert(vv.take(vv.len() as int) =~= vv);
    }
    out
}

/// Counts missing values.
pub fn count_missing(v: &Vec<Value>) -> (r: usize)
    ensures
        r == missing_count(text::views(v@)),
        r <= v@.len(),
{
    let ghost vv = text::views(v@);
    let mut n: usize = 0;
    let mut i: usize = 0;
    proof {
        assert(vv.take(0) =~= Seq::empty());
    }
    while i < v.len()
        invariant
            n <= i <= v.len(),
            vv == text::views(v@),
            n == missing_count(vv.take(i as int)),
        decreases v.len() - i,
    {
        proof {
            assert(vv.take(i + 1).drop_last() =~= vv.take(i as int));
            assert(vv.take(i + 1).last() == v@[i as int]@);
        }
        if v[i].is_missing() {
            n = n + 1;
        }
        i = i + 1;
    }
    proof {
        assert(vv.take(vv.len() as int) =~= vv);
    }
    n
}

fn variance<F: Fn(NumOp) -> Number>(v: &Vec<Number>, calc: &F) -> (r: Number)
    requires
        arith::steady(*calc),
    ensures
        r == variance_of(v@, *calc),
{
    let m = mean(v, calc);
    let squares = sum(&squared_deviations(v, m, calc), calc);
    let less = perform(calc, NumOp::Sub(Number::from_usize(v.len()), Number::from_usize(1)));
    perform(calc, NumOp::Div(squares, less))
}

/// Computes an aggregate of values.
pub fn aggregate_values<F: Fn(NumOp) -> Number>(
    f: Builtin,
    min_valid: Option<usize>,
    args: &Vec<Value>,
    calc: &F,
) -> (r: Value)
    requires
        arith::steady(*calc),
    ensures
        r@ == aggregated(f, min_valid, text::views(args@), *calc),
{
    let nums = collect_numbers(args);
    let required: usize = match min_valid {
        Some(n) => n,
        None => match f {
            Builtin::Sd | Builtin::Variance => 2,
            _ => 1,
        },
    };
    if nums.len() < required {
        return Value::SystemMissing;
    }
    match f {
        Builtin::Sum => Value::Numeric(sum(&nums, calc)),
        Builtin::Mean => Value::Numeric(mean(&nums, calc)),
        Builtin::Min => Value::Numeric(find_least(&nums)),
        Builtin::Max => Value::Numeric(find_greatest(&nums)),
        Builtin::Variance => Value::Numeric(variance(&nums, calc)),
        Builtin::Sd => Value::Numeric(perform(calc, NumOp::Sqrt(variance(&nums, calc)))),
        _ => Value::SystemMissing,
    }
}

fn apply_one<F: Fn(NumOp) -> Number>(f: Builtin, x: Number, calc: &F) -> (r: Value)
    requires
        arith::steady(*calc),
    ensures
        r@ == of_one(f, x, *calc),
{
    let zero = Number::from_usize(0);
    let one = Number::from_usize(1);
    match f {
        Builtin::Abs => Value::Numeric(x.abs()),
        Builtin::Sqrt => if zero.is_at_most(&x) {
            Value::Numeric(perform(calc, NumOp::Sqrt(x)))
        } else {
            Value::SystemMissing
        },
        Builtin::Exp => Value::Numeric(perform(calc, NumOp::Exp(x))),
        Builtin::Ln => if zero.is_below(&x) {
            Value::Numeric(perform(calc, NumOp::Ln(x)))
        } else {
            Value::SystemMissing
        },
        Builtin::Lg10 => if zero.is_below(&x) {
            Value::Numeric(perform(calc, NumOp::Log10(x)))
        } else {
            Value::SystemMissing
        },
        Builtin::Rnd => Value::Numeric(x.round()),
        Builtin::Trunc => Value::Numeric(x.trunc()),
        Builtin::Sin => Value::Numeric(perform(calc, NumOp::Sin(x))),
        Builtin::Cos => Value::Numeric(perform(calc, NumOp::Cos(x))),
        Builtin::Tan => Value::Numeric(perform(calc, NumOp::Tan(x))),
        Builtin::Arsin => if one.negate().is_at_most(&x) && x.is_at_most(&one) {
            Value::Numeric(perform(calc, NumOp::Asin(x)))
        } else {
            Value::SystemMissing
        },
        Builtin::Arcos => if one.negate().is_at_most(&x) && x.is_at_most(&one) {
            Value::Numeric(perform(calc, NumOp::Acos(x)))
        } else {
            Value::SystemMissing
        },
        Builtin::Artan => Value::Numeric(perform(calc, NumOp::Atan(x))),
        _ => Value::SystemMissing,
    }
}

fn apply_two<F: Fn(NumOp) -> Number>(f: Builtin, x: Number, y: Number, calc: &F) -> (r: Value)
    requires
        arith::steady(*calc),
    ensures
        r@ == of_two(f, x, y, *calc),
{
    if y.is_equal(&Number::from_usize(0)) {
        return Value::SystemMissing;
    }
    match f {
        Builtin::Rnd => {
            let q = perform(calc, NumOp::Div(x, y));
            let whole = q.round();
            Value::Numeric(perform(calc, NumOp::Mul(whole, y)))
        },
        Builtin::Trunc => {
            let q = perform(calc, NumOp::Div(x, y));
            let whole = q.trunc();
            Value::Numeric(perform(calc, NumOp::Mul(whole, y)))
        },
        Builtin::Mod => Value::Numeric(perform(calc, NumOp::Rem(x, y))),
        _ => Value::SystemMissing,
    }
}

fn apply_numeric<F: Fn(NumOp) -> Number>(f: Builtin, args: &Vec<Value>, calc: &F) -> (r: Value)
    requires
        arith::steady(*calc),
    ensures
        r@ == numeric(f, text::views(args@), *calc),
{
    if args.len() == 1 {
        match &args[0] {
            Value::Numeric(x) => apply_one(f, *x, calc),
            _ => Value::SystemMissing,
        }
    } else if args.len() == 2 {
        match (&args[0], &args[1]) {
            (Value::Numeric(x), Value::Numeric(y)) => apply_two(f, *x, *y, calc),
            _ => Value::SystemMissing,
        }
    } else {
        Value::SystemMissing
    }
}

fn concat(args: &Vec<Value>) -> (r: Value)
    ensures
        r@ == concatenated(text::views(args@)),
{
    let ghost vv = text::views(args@);
    let mut t = String::new();
    let mut i: usize = 0;
    proof {
        assert(vv.take(0) =~= Seq::empty());
        assert(t@ =~= Seq::empty());
        assert(concatenated(vv.take(0)) == ValueView::String(Seq::empty()));
    }
    while i < args.len()
        invariant
            i <= args.len(),
            vv == text::views(args@),
            concatenated(vv.take(i as int)) == ValueView::String(t@),
        decreases args.len() - i,
    {
        proof {
            assert(vv.take(i + 1).drop_last() =~= vv.take(i as int));
            assert(vv.take(i + 1).last() == args@[i as int]@);
        }
        match &args[i] {
            Value::String(s) => {
                t.append(s.as_str());
            },
            _ => {
                proof {
                    assert(concatenated(vv.take(i + 1)) is SystemMissing);
                    lemma_missing_stays(vv, i + 1);
                }
                return Value::SystemMissing;
            },
        }
        i = i + 1;
    }
    proof {
        assert(vv.take(vv.len() as int) =~= vv);
    }
    Value::String(t)
}

proof fn lemma_missing_stays(v: Seq<ValueView>, n: int)
    requires
        0 <= n <= v.len(),
        concatenated(v.take(n)) is SystemMissing,
    ensures
        concatenated(v) is SystemMissing,
    decreases v.len() - n,
{
    if n < v.len() {
        assert(v.take(n + 1).drop_last() =~= v.take(n));
        lemma_missing_stays(v, n + 1);
    } else {
        assert(v.take(n) =~= v);
    }
}

/// The part of a text between two byte positions.
fn slice(t: &str, from: usize, to: usize) -> (r: Option<String>)
    requires
        from <= to <= text::byte_len(t@),
    ensures
        match r {
            Some(part) => text_slice(t@, from as int, to as int) == Some(part@),
            None => text_slice(t@, from as int, to as int) is None,
        },
{
    let ghost b = encode_utf8(t@);
    proof {
        vstd::utf8::encode_utf8_valid_utf8(t@);
    }
    if !t.is_char_boundary(from) || !t.is_char_boundary(to) {
        return None;
    }
    let (head, _) = t.split_at(to);
    proof {
        let h = b.subrange(0, to as int);
        vstd::utf8::valid_utf8_split(b, to as int);
        if from < to {
            vstd::utf8::is_char_boundary_iff_not_is_continuation_byte(b, from as int);
            vstd::utf8::is_char_boundary_iff_not_is_continuation_byte(h, from as int);
            assert(h[from as int] == b[from as int]);
        } else {
            vstd::utf8::is_char_boundary_start_end_of_seq(h);
        }
    }
    let (_, part) = head.split_at(from);
    proof {
        let h = b.subrange(0, to as int);
        assert(h.subrange(from as int, h.len() as int) =~= b.subrange(from as int, to as int));
        vstd::utf8::encode_utf8_decode_utf8(part@);
    }
    Some(part.to_owned())
}

fn take_substring(t: &str, pos: Number, len: Option<Number>) -> (r: Option<Value>)
    ensures
        match r {
            Some(v) => substring(t@, pos, len) == Some(v@),
            None => substring(t@, pos, len) is None,
        },
{
    let n = len_of(t);
    let p = pos.to_isize();
    if p <= 0 || p as usize > n {
        let empty = String::new();
        proof {
            assert(empty@ =~= Seq::empty());
        }
        return Some(Value::String(empty));
    }
    let start: usize = (p - 1) as usize;
    let end: usize = match len {
        Some(l) => {
            let count = l.to_usize();
            if count > usize::MAX - start {
                return None;
            }
            start + count
        },
        None => n,
    };
    let stop: usize = if end < n {
        end
    } else {
        n
    };
    match slice(t, start, stop) {
        Some(part) => Some(Value::String(part)),
        None => None,
    }
}

fn fill(t: &str, len: Number, pad: &str, left: bool) -> (r: Option<Value>)
    ensures
        match r {
            Some(v) => filled(t@, len, pad@, left) == Some(v@),
            None => filled(t@, len, pad@, left) is None,
        },
{
    let want = len.to_usize();
    let n = len_of(t);
    let chars = chars_of(pad);
    if n >= want || chars.len() == 0 {
        return Some(Value::String(t.to_owned()));
    }
    let count: usize = want - n;
    if count > isize::MAX as usize {
        return None;
    }
    let c = chars[0];
    let mut run = String::new();
    let mut i: usize = 0;
    proof {
        assert(run@ =~= repeated(c, 0));
    }
    while i < count
        invariant
            i <= count,
            run@ =~= repeated(c, i as nat),
        decreases count - i,
    {
        run.push(c);
        i = i + 1;
    }
    if left {
        run.append(t);
        Some(Value::String(run))
    } else {
        let mut out = t.to_owned();
        out.append(run.as_str());
        Some(Value::String(out))
    }
}

fn strip(t: &str, chars: &str, left: bool) -> (r: String)
    ensures
        r@ == stripped(t@, chars@, left),
{
    let c = chars_of(chars);
    if c.len() == 0 {
        return t.to_owned();
    }
    if left {
        trim_start_of(t, Some(c[0]))
    } else {
        trim_end_of(t, Some(c[0]))
    }
}

fn apply_text(f: Builtin, t: &str) -> (r: Value)
    ensures
        r@ == of_text(f, t@),
{
    match f {
        Builtin::Lower => Value::String(to_lower(t)),
        Builtin::Upper => Value::String(to_upper(t)),
        Builtin::Length => Value::Numeric(Number::from_usize(len_of(t))),
        Builtin::Ltrim => Value::String(trim_start_of(t, None)),
        Builtin::Rtrim => Value::String(trim_end_of(t, None)),
        _ => Value::SystemMissing,
    }
}

fn apply_textual(f: Builtin, args: &Vec<Value>) -> (r: Option<Value>)
    ensures
        match r {
            Some(v) => textual(f, text::views(args@)) == Some(v@),
            None => textual(f, text::views(args@)) is None,
        },
{
    proof {
        reveal_strlit(" ");
        assert(" "@ =~= seq![' ']);
    }
    if let Builtin::Concat = f {
        return Some(concat(args));
    }
    if args.len() == 1 {
        match &args[0] {
            Value::String(t) => Some(apply_text(f, t.as_str())),
            _ => Some(Value::SystemMissing),
        }
    } else if args.len() == 2 {
        match (f, &args[0], &args[1]) {
            (Builtin::Substr, Value::String(t), Value::Numeric(p)) => take_substring(
                t.as_str(),
                *p,
                None,
            ),
            (Builtin::Lpad, Value::String(t), Value::Numeric(n)) => fill(t.as_str(), *n, " ", true),
            (Builtin::Rpad, Value::String(t), Value::Numeric(n)) => fill(t.as_str(), *n, " ", false),
            (Builtin::Ltrim, Value::String(t), Value::String(c)) => Some(
                Value::String(strip(t.as_str(), c.as_str(), true)),
            ),
            (Builtin::Rtrim, Value::String(t), Value::String(c)) => Some(
                Value::String(strip(t.as_str(), c.as_str(), false)),
            ),
            (Builtin::Index, Value::String(t), Value::String(x)) => {
                let at: u128 = match find_text(t.as_str(), x.as_str()) {
                    Some(k) => k as u128 + 1,
                    None => 0,
                };
                Some(Value::Numeric(Number::from_u128(at)))
            },
            _ => Some(Value::SystemMissing),
        }
    } else if args.len() == 3 {
        match (f, &args[0], &args[1], &args[2]) {
            (Builtin::Substr, Value::String(t), Value::Numeric(p), Value::Numeric(n)) =>
                take_substring(t.as_str(), *p, Some(*n)),
            (Builtin::Lpad, Value::String(t), Value::Numeric(n), Value::String(pad)) => fill(
                t.as_str(),
                *n,
                pad.as_str(),
                true,
            ),
            (Builtin::Rpad, Value::String(t), Value::Numeric(n), Value::String(pad)) => fill(
                t.as_str(),
                *n,
                pad.as_str(),
                false,
            ),
            _ => Some(Value::SystemMissing),
        }
    } else {
        Some(Value::SystemMissing)
    }
}

fn seconds_of_date<F: Fn(NumOp) -> Number>(d: Number, m: Number, y: Number, calc: &F) -> (r: Value)
    requires
        arith::steady(*calc),
    ensures
        r@ == date_seconds(d, m, y, *calc),
{
    match days_since_1582_10_14(d.to_u32(), m.to_u32(), y.to_u32()) {
        Some(days) => Value::Numeric(
            perform(
                calc,
                NumOp::Mul(Number::from_u128(days as u128), Number::from_usize(86400)),
            ),
        ),
        None => Value::SystemMissing,
    }
}

/// The date of a number of seconds. The outer option is empty where the seconds
/// have no date that can be counted, the inner one before the first day.
pub fn seconds_to_date<F: Fn(NumOp) -> Number>(seconds: Number, calc: &F) -> (r: Option<
    Option<(u32, u32, u32)>,
>)
    requires
        arith::steady(*calc),
    ensures
        match r {
            None => !seconds.below(number::nearest(0)) && (whole_quotient(
                seconds,
                86400,
                *calc,
            ).nan() || !date::has_date(
                whole_quotient(seconds, 86400, *calc).saturated(0, u64::MAX as int),
            )),
            Some(None) => seconds.below(number::nearest(0)),
            Some(Some((d, m, y))) => !seconds.below(number::nearest(0)) && !whole_quotient(
                seconds,
                86400,
                *calc,
            ).nan() && date::has_date(
                whole_quotient(seconds, 86400, *calc).saturated(0, u64::MAX as int),
            ) && (d as int, m as int, y as int) == date::date_of(
                whole_quotient(seconds, 86400, *calc).saturated(0, u64::MAX as int),
            ),
        },
{
    if seconds.is_below(&Number::from_usize(0)) {
        return Some(None);
    }
    let q = quotient(seconds, 86400, calc);
    if q.is_nan() {
        return None;
    }
    match date_from_days(q.to_u64()) {
        Some(date) => Some(Some(date)),
        None => None,
    }
}

fn quotient<F: Fn(NumOp) -> Number>(t: Number, unit: usize, calc: &F) -> (r: Number)
    requires
        arith::steady(*calc),
    ensures
        r == whole_quotient(t, unit as int, *calc),
{
    let q = perform(calc, NumOp::Div(t, Number::from_usize(unit)));
    q.floor()
}

fn part_of_date<F: Fn(NumOp) -> Number>(t: Number, part: u8, calc: &F) -> (r: Option<Value>)
    requires
        arith::steady(*calc),
        part <= 2,
    ensures
        match r {
            Some(v) => date_part(t, part as int, *calc) == Some(v@),
            None => date_part(t, part as int, *calc) is None,
        },
{
    match seconds_to_date(t, calc) {
        None => None,
        Some(None) => Some(Value::SystemMissing),
        Some(Some((d, m, y))) => {
            let n: u32 = if part == 0 {
                d
            } else if part == 1 {
                m
            } else {
                y
            };
            Some(Value::Numeric(Number::from_u128(n as u128)))
        },
    }
}

fn remainder_of(a: i64, b: i64) -> (r: i64)
    requires
        b > 0,
    ensures
        r == remainder(a as int, b as int),
        -b < r < b,
{
    if a >= 0 {
        a % b
    } else {
        let m: i128 = -(a as i128);
        let k: i128 = m % (b as i128);
        (-k) as i64
    }
}

fn weekday_of<F: Fn(NumOp) -> Number>(t: Number, calc: &F) -> (r: Option<Value>)
    requires
        arith::steady(*calc),
    ensures
        match r {
            Some(v) => weekday(t, *calc) == Some(v@),
            None => weekday(t, *calc) is None,
        },
{
    let q = quotient(t, 86400, calc);
    if !Number::from_usize(0).is_at_most(&q) {
        return Some(Value::SystemMissing);
    }
    let days = q.to_i64();
    if days > i64::MAX - 4 {
        return None;
    }
    Some(Value::Numeric(Number::from_i64(remainder_of(days + 4, 7) + 1)))
}

fn clock_part<F: Fn(NumOp) -> Number>(t: Number, unit: usize, cycle: i64, calc: &F) -> (r: Value)
    requires
        arith::steady(*calc),
        cycle > 0,
    ensures
        r@ == clock(t, unit as int, cycle as int, *calc),
{
    if !Number::from_usize(0).is_at_most(&t) {
        return Value::SystemMissing;
    }
    let q = if unit == 1 {
        t.floor()
    } else {
        quotient(t, unit, calc)
    };
    Value::Numeric(Number::from_i64(remainder_of(q.to_i64(), cycle)))
}

fn apply_time<F: Fn(NumOp) -> Number>(f: Builtin, t: Number, calc: &F) -> (r: Option<Value>)
    requires
        arith::steady(*calc),
    ensures
        match r {
            Some(v) => of_time(f, t, *calc) == Some(v@),
            None => of_time(f, t, *calc) is None,
        },
{
    match f {
        Builtin::TimeDays => Some(
            Value::Numeric(perform(calc, NumOp::Mul(t, Number::from_usize(86400)))),
        ),
        Builtin::XdateYear => part_of_date(t, 2, calc),
        Builtin::XdateMonth => part_of_date(t, 1, calc),
        Builtin::XdateMday => part_of_date(t, 0, calc),
        Builtin::XdateWkday => weekday_of(t, calc),
        Builtin::XdateHour => Some(clock_part(t, 3600, 24, calc)),
        Builtin::XdateMinute => Some(clock_part(t, 60, 60, calc)),
        Builtin::XdateSecond => Some(clock_part(t, 1, 60, calc)),
        Builtin::CtimeDays => Some(
            Value::Numeric(perform(calc, NumOp::Div(t, Number::from_usize(86400)))),
        ),
        Builtin::CtimeHours => Some(
            Value::Numeric(perform(calc, NumOp::Div(t, Number::from_usize(3600)))),
        ),
        Builtin::CtimeMinutes => Some(
            Value::Numeric(perform(calc, NumOp::Div(t, Number::from_usize(60)))),
        ),
        Builtin::CtimeSeconds => Some(Value::Numeric(t)),
        _ => Some(Value::SystemMissing),
    }
}

fn apply_temporal<F: Fn(NumOp) -> Number>(f: Builtin, args: &Vec<Value>, calc: &F) -> (r: Option<
    Value,
>)
    requires
        arith::steady(*calc),
    ensures
        match r {
            Some(v) => temporal(f, text::views(args@), *calc) == Some(v@),
            None => temporal(f, text::views(args@), *calc) is None,
        },
{
    if args.len() == 1 {
        match &args[0] {
            Value::Numeric(t) => apply_time(f, *t, calc),
            _ => Some(Value::SystemMissing),
        }
    } else if args.len() == 3 {
        match (&args[0], &args[1], &args[2]) {
            (Value::Numeric(a), Value::Numeric(b), Value::Numeric(c)) => match f {
                Builtin::DateDmy => Some(seconds_of_date(*a, *b, *c, calc)),
                Builtin::DateMdy => Some(seconds_of_date(*b, *a, *c, calc)),
                Builtin::TimeHms => {
                    let h = perform(calc, NumOp::Mul(*a, Number::from_usize(3600)));
                    let m = perform(calc, NumOp::Mul(*b, Number::from_usize(60)));
                    let hm = perform(calc, NumOp::Add(h, m));
                    Some(Value::Numeric(perform(calc, NumOp::Add(hm, *c))))
                },
                _ => Some(Value::SystemMissing),
            },
            _ => Some(Value::SystemMissing),
        }
    } else {
        Some(Value::SystemMissing)
    }
}

/// Applies a function to the values of its arguments.
pub fn apply<F: Fn(NumOp) -> Number>(f: Builtin, args: &Vec<Value>, calc: &F) -> (r: Option<Value>)
    requires
        arith::steady(*calc),
    ensures
        match r {
            Some(v) => applied(f, text::views(args@), *calc) == Some(v@),
            None => applied(f, text::views(args@), *calc) is None,
        },
{
    match f {
        Builtin::Abs | Builtin::Sqrt | Builtin::Exp | Builtin::Ln | Builtin::Lg10 | Builtin::Rnd
        | Builtin::Trunc | Builtin::Mod | Builtin::Sin | Builtin::Cos | Builtin::Tan
        | Builtin::Arsin | Builtin::Arcos | Builtin::Artan => Some(apply_numeric(f, args, calc)),
        Builtin::Concat | Builtin::Lower | Builtin::Upper | Builtin::Length | Builtin::Substr
        | Builtin::Lpad | Builtin::Rpad | Builtin::Ltrim | Builtin::Rtrim | Builtin::Index =>
            apply_textual(f, args),
        _ => apply_temporal(f, args, calc),
    }
}

} // verus!
