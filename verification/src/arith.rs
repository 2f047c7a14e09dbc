//! Rounded arithmetic, handed in by the caller.
//!
//! Operations whose result is rounded, and the conversions between numbers and
//! decimal text, are carried out by functions that the caller supplies. A
//! contract speaks of such a function by its meaning: the one result that the
//! function has for an operand.
use vstd::prelude::*;

use crate::number::Number;

verus! {

/// One rounded operation on doubles.
#[derive(Debug, Clone, Copy, PartialEq, Eq, Structural)]
pub enum NumOp {
    /// The number that a sum starts from.
    EmptySum,
    Add(Number, Number),
    Sub(Number, Number),
    Mul(Number, Number),
    Div(Number, Number),
    /// The remainder of the truncated division.
    Rem(Number, Number),
    /// The first operand to the power of the second.
    Pow(Number, Number),
    /// The operand to an integer power.
    PowInt(Number, i32),
    Sqrt(Number),
    Exp(Number),
    Ln(Number),
    Log10(Number),
    Sin(Number),
    Cos(Number),
    Tan(Number),
    Asin(Number),
    Acos(Number),
    Atan(Number),
}

/// How a number is written as text.
#[derive(Debug, Clone, Copy, PartialEq, Eq, Structural)]
pub enum Style {
    /// The shortest text that reads back as the number.
    Plain,
    /// With this many decimal places.
    Fixed(u8),
}

/// The result of `f` on an operation.
pub open spec fn meaning<F: Fn(NumOp) -> Number>(f: F, op: NumOp) -> Number {
    choose|r: Number| call_ensures(f, (op,), r)
}

/// `f` can be called on every operation and has one result for each.
pub open spec fn steady<F: Fn(NumOp) -> Number>(f: F) -> bool {
    &&& forall|op: NumOp| #[trigger] call_requires(f, (op,))
    &&& forall|op: NumOp, r: Number| #[trigger]
        call_ensures(f, (op,), r) ==> r == meaning(f, op)
}

/// Carries out one operation.
pub fn perform<F: Fn(NumOp) -> Number>(f: &F, op: NumOp) -> (r: Number)
    requires
        steady(*f),
    ensures
        r == meaning(*f, op),
{
    f(op)
}

/// The sum of numbers, from the first to the last.
pub open spec fn sum_of<F: Fn(NumOp) -> Number>(v: Seq<Number>, f: F) -> Number
    decreases v.len(),
{
    if v.len() == 0 {
        meaning(f, NumOp::EmptySum)
    } else {
        meaning(f, NumOp::Add(sum_of(v.drop_last(), f), v.last()))
    }
}

/// Adds numbers up.
pub fn sum<F: Fn(NumOp) -> Number>(v: &Vec<Number>, f: &F) -> (r: Number)
    requires
        steady(*f),
    ensures
        r == sum_of(v@, *f),
{
    let mut acc = perform(f, NumOp::EmptySum);
    let mut i: usize = 0;
    proof {
        assert(v@.take(0) =~= Seq::empty());
    }
    while i < v.len()
        invariant
            i <= v.len(),
            steady(*f),
            acc == sum_of(v@.take(i as int), *f),
        decreases v.len() - i,
    {
        acc = perform(f, NumOp::Add(acc, v[i]));
        proof {
            assert(v@.take(i + 1).drop_last() =~= v@.take(i as int));
        }
        i = i + 1;
    }
    proof {
        assert(v@.take(v@.len() as int) =~= v@);
    }
    acc
}

/// The smallest of numbers, or positive infinity.
pub open spec fn least(v: Seq<Number>) -> Number
    decreases v.len(),
{
    if v.len() == 0 {
        Number { bits: crate::number::INFINITE_MAGNITUDE }
    } else {
        least(v.drop_last()).smaller(v.last())
    }
}

/// The largest of numbers, or negative infinity.
pub open spec fn greatest(v: Seq<Number>) -> Number
    decreases v.len(),
{
    if v.len() == 0 {
        Number { bits: (crate::number::SIGN_WEIGHT + crate::number::INFINITE_MAGNITUDE) as u64 }
    } else {
        greatest(v.drop_last()).larger(v.last())
    }
}

/// Finds the smallest of numbers.
pub fn find_least(v: &Vec<Number>) -> (r: Number)
    ensures
        r == least(v@),
{
    let mut acc = Number::infinity();
    let mut i: usize = 0;
    proof {
        assert(v@.take(0) =~= Seq::empty());
    }
    while i < v.len()
        invariant
            i <= v.len(),
            acc == least(v@.take(i as int)),
        decreases v.len() - i,
    {
        acc = acc.min(&v[i]);
        proof {
            assert(v@.take(i + 1).drop_last() =~= v@.take(i as int));
        }
        i = i + 1;
    }
    proof {
        assert(v@.take(v@.len() as int) =~= v@);
    }
    acc
}

/// Finds the largest of numbers.
pub fn find_greatest(v: &Vec<Number>) -> (r: Number)
    ensures
        r == greatest(v@),
{
    let mut acc = Number::negative_infinity();
    let mut i: usize = 0;
    proof {
        assert(v@.take(0) =~= Seq::empty());
    }
    while i < v.len()
        invariant
            i <= v.len(),
            acc == greatest(v@.take(i as int)),
        decreases v.len() - i,
    {
        acc = acc.max(&v[i]);
        proof {
            assert(v@.take(i + 1).drop_last() =~= v@.take(i as int));
        }
        i = i + 1;
    }
    proof {
        assert(v@.take(v@.len() as int) =~= v@);
    }
    acc
}

/// The mean of numbers.
pub open spec fn mean_of<F: Fn(NumOp) -> Number>(v: Seq<Number>, f: F) -> Number {
    meaning(f, NumOp::Div(sum_of(v, f), crate::number::nearest(v.len() as int)))
}

/// Takes the mean of numbers.
pub fn mean<F: Fn(NumOp) -> Number>(v: &Vec<Number>, f: &F) -> (r: Number)
    requires
        steady(*f),
    ensures
        r == mean_of(v@, *f),
{
    let total = sum(v, f);
    perform(f, NumOp::Div(total, Number::from_usize(v.len())))
}

/// The squares of the differences between numbers and their mean.
pub open spec fn deviations<F: Fn(NumOp) -> Number>(v: Seq<Number>, mean: Number, f: F) -> Seq<
    Number,
> {
    Seq::new(
        v.len(),
        |i: int| meaning(f, NumOp::PowInt(meaning(f, NumOp::Sub(v[i], mean)), 2)),
    )
}

/// Squares the differences between numbers and their mean.
pub fn squared_deviations<F: Fn(NumOp) -> Number>(v: &Vec<Number>, mean: Number, f: &F) -> (r: Vec<
    Number,
>)
    requires
        steady(*f),
    ensures
        r@ == deviations(v@, mean, *f),
{
    let mut out: Vec<Number> = Vec::new();
    let mut i: usize = 0;
    while i < v.len()
        invariant
            i <= v.len(),
            steady(*f),
            out@ =~= deviations(v@, mean, *f).take(i as int),
        decreases v.len() - i,
    {
        let d = perform(f, NumOp::Sub(v[i], mean));
        out.push(perform(f, NumOp::PowInt(d, 2)));
        i = i + 1;
    }
    out
}

/// The text that `f` gives for a number.
pub open spec fn shown<S: Fn(Number, Style) -> String>(f: S, n: Number, style: Style) -> Seq<char> {
    choose|t: Seq<char>| gives_text(f, n, style, t)
}

/// `t` is a text that `f` may return for `n`.
pub open spec fn gives_text<S: Fn(Number, Style) -> String>(
    f: S,
    n: Number,
    style: Style,
    t: Seq<char>,
) -> bool {
    exists|r: String| #[trigger] call_ensures(f, (n, style), r) && r@ == t
}

/// `f` can be called on every number and writes each in one way.
pub open spec fn steady_text<S: Fn(Number, Style) -> String>(f: S) -> bool {
    &&& forall|n: Number, style: Style| #[trigger] call_requires(f, (n, style))
    &&& forall|n: Number, style: Style, r: String| #[trigger]
        call_ensures(f, (n, style), r) ==> r@ == shown(f, n, style)
}

/// Writes a number as text.
pub fn show<S: Fn(Number, Style) -> String>(f: &S, n: Number, style: Style) -> (r: String)
    requires
        steady_text(*f),
    ensures
        r@ == shown(*f, n, style),
{
    f(n, style)
}

/// The number that `f` reads from a decimal literal.
pub open spec fn literal<R: Fn(String) -> Number>(f: R, text: Seq<char>) -> Number {
    choose|n: Number| gives_number(f, text, n)
}

/// `n` is a number that `f` may return for a literal.
pub open spec fn gives_number<R: Fn(String) -> Number>(f: R, text: Seq<char>, n: Number) -> bool {
    exists|s: String| s@ == text && #[trigger] call_ensures(f, (s,), n)
}

/// `f` can be called on every text and reads one number from each.
pub open spec fn steady_reader<R: Fn(String) -> Number>(f: R) -> bool {
    &&& forall|s: String| #[trigger] call_requires(f, (s,))
    &&& forall|s: String, n: Number| #[trigger]
        call_ensures(f, (s,), n) ==> n == literal(f, s@)
}

/// Reads a decimal literal.
pub fn read_literal<R: Fn(String) -> Number>(f: &R, text: String) -> (n: Number)
    requires
        steady_reader(*f),
    ensures
        n == literal(*f, text@),
{
    f(text)
}

} // verus!
