//! What operators and variables give.
use vstd::prelude::*;

use crate::arith::{meaning, NumOp};
use crate::arith_law::exact;
use crate::batch::CellView;
use crate::dataset::DatasetView;
use crate::expr::ast::{BinaryOp, ExprView, UnaryOp};
use crate::expr::eval;
use crate::expr::law;
use crate::number;
use crate::number::{nearest, Number};
use crate::number_law;
use crate::number_law::small;
use crate::text;
use crate::value::ValueView;

verus! {

/// An operator between two values.
pub open spec fn between(op: BinaryOp, l: ValueView, r: ValueView) -> ExprView {
    ExprView::Binary(op, Box::new(ExprView::Value(l)), Box::new(ExprView::Value(r)))
}

/// An operator between two numbers.
pub open spec fn numbers(op: BinaryOp, l: Number, r: Number) -> ExprView {
    between(op, ValueView::Numeric(l), ValueView::Numeric(r))
}

/// An operator before a value.
pub open spec fn before(op: UnaryOp, v: ValueView) -> ExprView {
    ExprView::Unary(op, Box::new(ExprView::Value(v)))
}

/// The number one where something is true, and zero where it is not.
pub open spec fn flag(b: bool) -> Option<ValueView> {
    Some(
        ValueView::Numeric(
            nearest(
                if b {
                    1
                } else {
                    0
                },
            ),
        ),
    )
}

/// Arithmetic operators carry out the operation of their name on the left and the
/// right operand, in this order.
pub proof fn law_arithmetic<F: Fn(NumOp) -> Number>(
    l: Number,
    r: Number,
    ds: DatasetView,
    b: int,
    row: int,
    calc: F,
)
    ensures
        eval::evaluated(numbers(BinaryOp::Add, l, r), ds, b, row, calc) == Some(
            ValueView::Numeric(meaning(calc, NumOp::Add(l, r))),
        ),
        eval::evaluated(numbers(BinaryOp::Sub, l, r), ds, b, row, calc) == Some(
            ValueView::Numeric(meaning(calc, NumOp::Sub(l, r))),
        ),
        eval::evaluated(numbers(BinaryOp::Mul, l, r), ds, b, row, calc) == Some(
            ValueView::Numeric(meaning(calc, NumOp::Mul(l, r))),
        ),
        !r.zero() ==> eval::evaluated(numbers(BinaryOp::Div, l, r), ds, b, row, calc) == Some(
            ValueView::Numeric(meaning(calc, NumOp::Div(l, r))),
        ),
        r.zero() ==> eval::evaluated(numbers(BinaryOp::Div, l, r), ds, b, row, calc) == Some(
            ValueView::SystemMissing,
        ),
        meaning(calc, NumOp::Pow(l, r)).finite() ==> eval::evaluated(
            numbers(BinaryOp::Pow, l, r),
            ds,
            b,
            row,
            calc,
        ) == Some(ValueView::Numeric(meaning(calc, NumOp::Pow(l, r)))),
        !meaning(calc, NumOp::Pow(l, r)).finite() ==> eval::evaluated(
            numbers(BinaryOp::Pow, l, r),
            ds,
            b,
            row,
            calc,
        ) == Some(ValueView::SystemMissing),
{
    number::law_small_integers_exact(0);
    assert(nearest(0).magnitude() == 0);
    reveal_with_fuel(eval::evaluated, 2);
}

/// With exact arithmetic the operators compute with integers as integers do.
pub proof fn law_arithmetic_of_integers<F: Fn(NumOp) -> Number>(
    x: int,
    y: int,
    ds: DatasetView,
    b: int,
    row: int,
    calc: F,
)
    requires
        exact(calc),
        small(x),
        small(y),
    ensures
        small(x + y) ==> eval::evaluated(
            numbers(BinaryOp::Add, nearest(x), nearest(y)),
            ds,
            b,
            row,
            calc,
        ) == Some(ValueView::Numeric(nearest(x + y))),
        small(x - y) ==> eval::evaluated(
            numbers(BinaryOp::Sub, nearest(x), nearest(y)),
            ds,
            b,
            row,
            calc,
        ) == Some(ValueView::Numeric(nearest(x - y))),
        small(x * y) && x * y != 0 ==> eval::evaluated(
            numbers(BinaryOp::Mul, nearest(x), nearest(y)),
            ds,
            b,
            row,
            calc,
        ) == Some(ValueView::Numeric(nearest(x * y))),
        y > 0 && x % y == 0 ==> eval::evaluated(
            numbers(BinaryOp::Div, nearest(x), nearest(y)),
            ds,
            b,
            row,
            calc,
        ) == Some(ValueView::Numeric(nearest(x / y))),
        y == 0 ==> eval::evaluated(
            numbers(BinaryOp::Div, nearest(x), nearest(y)),
            ds,
            b,
            row,
            calc,
        ) == Some(ValueView::SystemMissing),
{
    law_arithmetic(nearest(x), nearest(y), ds, b, row, calc);
    number_law::law_integers_keep_their_order(y, 0);
}

/// Taking away and adding the same integer gives the number back.
pub proof fn law_difference_and_sum<F: Fn(NumOp) -> Number>(
    x: int,
    y: int,
    ds: DatasetView,
    b: int,
    row: int,
    calc: F,
)
    requires
        exact(calc),
        small(x),
        small(y),
        small(x - y),
    ensures
        eval::evaluated(
            ExprView::Binary(
                BinaryOp::Add,
                Box::new(numbers(BinaryOp::Sub, nearest(x), nearest(y))),
                Box::new(ExprView::Value(ValueView::Numeric(nearest(y)))),
            ),
            ds,
            b,
            row,
            calc,
        ) == Some(ValueView::Numeric(nearest(x))),
{
    law_arithmetic_of_integers(x, y, ds, b, row, calc);
    reveal_with_fuel(eval::evaluated, 2);
}

/// Comparisons of integers hold where they hold of the integers.
pub proof fn law_comparisons_of_integers<F: Fn(NumOp) -> Number>(
    x: int,
    y: int,
    ds: DatasetView,
    b: int,
    row: int,
    calc: F,
)
    requires
        small(x),
        small(y),
    ensures
        eval::evaluated(numbers(BinaryOp::Eq, nearest(x), nearest(y)), ds, b, row, calc) == flag(
            x == y,
        ),
        eval::evaluated(numbers(BinaryOp::Ne, nearest(x), nearest(y)), ds, b, row, calc) == flag(
            x != y,
        ),
        eval::evaluated(numbers(BinaryOp::Lt, nearest(x), nearest(y)), ds, b, row, calc) == flag(
            x < y,
        ),
        eval::evaluated(numbers(BinaryOp::Le, nearest(x), nearest(y)), ds, b, row, calc) == flag(
            x <= y,
        ),
        eval::evaluated(numbers(BinaryOp::Gt, nearest(x), nearest(y)), ds, b, row, calc) == flag(
            x > y,
        ),
        eval::evaluated(numbers(BinaryOp::Ge, nearest(x), nearest(y)), ds, b, row, calc) == flag(
            x >= y,
        ),
{
    number_law::law_integers_keep_their_order(x, y);
    number_law::law_integers_keep_their_order(y, x);
    reveal_with_fuel(eval::evaluated, 2);
}

/// A comparison with a NaN is false, but for "not equal".
pub proof fn law_comparisons_with_nan<F: Fn(NumOp) -> Number>(
    l: Number,
    r: Number,
    ds: DatasetView,
    b: int,
    row: int,
    calc: F,
)
    requires
        l.nan() || r.nan(),
    ensures
        eval::evaluated(numbers(BinaryOp::Eq, l, r), ds, b, row, calc) == flag(false),
        eval::evaluated(numbers(BinaryOp::Ne, l, r), ds, b, row, calc) == flag(true),
        eval::evaluated(numbers(BinaryOp::Lt, l, r), ds, b, row, calc) == flag(false),
        eval::evaluated(numbers(BinaryOp::Le, l, r), ds, b, row, calc) == flag(false),
        eval::evaluated(numbers(BinaryOp::Gt, l, r), ds, b, row, calc) == flag(false),
        eval::evaluated(numbers(BinaryOp::Ge, l, r), ds, b, row, calc) == flag(false),
{
    reveal_with_fuel(eval::evaluated, 2);
}

/// Where two texts agree up to a character, the one with the smaller code point
/// comes first; a text comes before every longer one that starts with it.
pub proof fn law_text_order_by_first_difference(
    common: Seq<char>,
    c: char,
    x: Seq<char>,
    d: char,
    y: Seq<char>,
)
    requires
        (c as u32) < (d as u32),
    ensures
        text::text_below(common.push(c) + x, common.push(d) + y),
        !text::text_below(common.push(d) + y, common.push(c) + x),
        text::text_below(common, common.push(c) + x),
        !text::text_below(common.push(c) + x, common),
        !text::text_below(common, common),
    decreases common.len(),
{
    let (s, t) = (common.push(c) + x, common.push(d) + y);
    if common.len() > 0 {
        let rest = common.skip(1);
        law_text_order_by_first_difference(rest, c, x, d, y);
        assert(s[0] == common[0]);
        assert(t[0] == common[0]);
        assert(s.skip(1) =~= rest.push(c) + x);
        assert(t.skip(1) =~= rest.push(d) + y);
    } else {
        assert(s[0] == c);
        assert(t[0] == d);
    }
}

/// Comparisons of texts: equality is that of the texts, and the others go by their
/// order.
pub proof fn law_comparisons_of_texts<F: Fn(NumOp) -> Number>(
    x: Seq<char>,
    y: Seq<char>,
    ds: DatasetView,
    b: int,
    row: int,
    calc: F,
)
    ensures
        ({
            let (l, r) = (ValueView::String(x), ValueView::String(y));
            &&& eval::evaluated(between(BinaryOp::Eq, l, r), ds, b, row, calc) == flag(x == y)
            &&& eval::evaluated(between(BinaryOp::Ne, l, r), ds, b, row, calc) == flag(x != y)
            &&& eval::evaluated(between(BinaryOp::Lt, l, r), ds, b, row, calc) == flag(
                text::text_below(x, y),
            )
            &&& eval::evaluated(between(BinaryOp::Le, l, r), ds, b, row, calc) == flag(
                text::text_below(x, y) || x == y,
            )
            &&& eval::evaluated(between(BinaryOp::Gt, l, r), ds, b, row, calc) == flag(
                text::text_below(y, x),
            )
            &&& eval::evaluated(between(BinaryOp::Ge, l, r), ds, b, row, calc) == flag(
                text::text_below(y, x) || x == y,
            )
        }),
{
    crate::text_order::law_text_order(x, y);
    crate::text_order::law_text_order(y, x);
    reveal_with_fuel(eval::evaluated, 2);
}

/// A number and a text have neither sum nor comparison.
pub proof fn law_mixed_operands<F: Fn(NumOp) -> Number>(
    op: BinaryOp,
    n: Number,
    t: Seq<char>,
    ds: DatasetView,
    b: int,
    row: int,
    calc: F,
)
    requires
        op != BinaryOp::And,
        op != BinaryOp::Or,
    ensures
        eval::evaluated(
            between(op, ValueView::Numeric(n), ValueView::String(t)),
            ds,
            b,
            row,
            calc,
        ) == Some(ValueView::SystemMissing),
        eval::evaluated(
            between(op, ValueView::String(t), ValueView::Numeric(n)),
            ds,
            b,
            row,
            calc,
        ) == Some(ValueView::SystemMissing),
        op == BinaryOp::Add || op == BinaryOp::Sub || op == BinaryOp::Mul || op == BinaryOp::Div
            || op == BinaryOp::Pow ==> eval::evaluated(
            between(op, ValueView::String(t), ValueView::String(t)),
            ds,
            b,
            row,
            calc,
        ) == Some(ValueView::SystemMissing),
{
    reveal_with_fuel(eval::evaluated, 2);
}

/// A sign before an integer: minus gives the opposite, and plus the same.
pub proof fn law_signs<F: Fn(NumOp) -> Number>(
    x: int,
    n: Number,
    ds: DatasetView,
    b: int,
    row: int,
    calc: F,
)
    requires
        small(x),
        x != 0,
    ensures
        eval::evaluated(before(UnaryOp::Neg, ValueView::Numeric(nearest(x))), ds, b, row, calc)
            == Some(ValueView::Numeric(nearest(-x))),
        eval::evaluated(before(UnaryOp::Pos, ValueView::Numeric(n)), ds, b, row, calc) == Some(
            ValueView::Numeric(n),
        ),
        eval::evaluated(
            ExprView::Unary(
                UnaryOp::Neg,
                Box::new(before(UnaryOp::Neg, ValueView::Numeric(n))),
            ),
            ds,
            b,
            row,
            calc,
        ) == Some(ValueView::Numeric(n)),
{
    number_law::law_integers_keep_their_sign(x);
    reveal_with_fuel(eval::evaluated, 3);
    assert(n.negated().negated() == n);
}

/// Logic on numbers: zero is false, and every other number is true.
pub proof fn law_logic_of_numbers<F: Fn(NumOp) -> Number>(
    l: Number,
    r: Number,
    ds: DatasetView,
    b: int,
    row: int,
    calc: F,
)
    ensures
        eval::evaluated(numbers(BinaryOp::And, l, r), ds, b, row, calc) == flag(
            !l.zero() && !r.zero(),
        ),
        eval::evaluated(numbers(BinaryOp::Or, l, r), ds, b, row, calc) == flag(
            !l.zero() || !r.zero(),
        ),
        eval::evaluated(before(UnaryOp::Not, ValueView::Numeric(nearest(0))), ds, b, row, calc)
            == flag(true),
        eval::evaluated(before(UnaryOp::Not, ValueView::Numeric(nearest(1))), ds, b, row, calc)
            == flag(false),
{
    number_law::law_integers_keep_their_order(0, 1);
    assert(nearest(0).magnitude() == 0);
    reveal_with_fuel(eval::evaluated, 2);
}

/// Logic with a missing operand: false decides a conjunction and true a disjunction,
/// and otherwise the result is missing.
pub proof fn law_logic_with_missing<F: Fn(NumOp) -> Number>(
    n: Number,
    ds: DatasetView,
    b: int,
    row: int,
    calc: F,
)
    ensures
        ({
            let (v, m) = (ValueView::Numeric(n), ValueView::SystemMissing);
            let none = Some(ValueView::SystemMissing);
            &&& eval::evaluated(between(BinaryOp::And, v, m), ds, b, row, calc) == (if n.zero() {
                flag(false)
            } else {
                none
            })
            &&& eval::evaluated(between(BinaryOp::And, m, v), ds, b, row, calc) == (if n.zero() {
                flag(false)
            } else {
                none
            })
            &&& eval::evaluated(between(BinaryOp::Or, v, m), ds, b, row, calc) == (if n.zero() {
                none
            } else {
                flag(true)
            })
            &&& eval::evaluated(between(BinaryOp::Or, m, v), ds, b, row, calc) == (if n.zero() {
                none
            } else {
                flag(true)
            })
            &&& eval::evaluated(before(UnaryOp::Not, m), ds, b, row, calc) == none
        }),
{
    assert(nearest(0).magnitude() == 0);
    reveal_with_fuel(eval::evaluated, 2);
}

/// A variable has the number or the text of its entry in the row; a null entry and a
/// user-missing number are missing, and so is a variable that is not there.
pub proof fn law_variable<F: Fn(NumOp) -> Number>(
    name: Seq<char>,
    ds: DatasetView,
    b: int,
    row: int,
    calc: F,
)
    ensures
        ds.index_of(name) is None ==> eval::evaluated(
            ExprView::Variable(name),
            ds,
            b,
            row,
            calc,
        ) == Some(ValueView::SystemMissing),
        ds.index_of(name) matches Some(i) && eval::present(ds, b, row, i as int) ==> {
            let i = ds.index_of(name)->0 as int;
            let cell = ds.batches[b].columns[i].cells[row];
            let found = eval::evaluated(ExprView::Variable(name), ds, b, row, calc);
            &&& cell is Null ==> found == Some(ValueView::SystemMissing)
            &&& cell matches CellView::Text(t) ==> found == Some(ValueView::String(t))
            &&& cell matches CellView::Number(n) ==> found == Some(
                if ds.variables[i].missing.holds(n) {
                    ValueView::SystemMissing
                } else {
                    ValueView::Numeric(n)
                },
            )
        },
{
}

/// An operator takes its operands by their values: what they are computed from does not
/// matter. Where the value of the left one decides, the right one is not needed.
pub proof fn law_operands_by_value<F: Fn(NumOp) -> Number>(
    op: BinaryOp,
    sign: UnaryOp,
    x: ExprView,
    y: ExprView,
    l: ValueView,
    r: ValueView,
    ds: DatasetView,
    b: int,
    row: int,
    calc: F,
)
    requires
        eval::evaluated(x, ds, b, row, calc) == Some(l),
    ensures
        eval::evaluated(y, ds, b, row, calc) == Some(r) ==> eval::evaluated(
            ExprView::Binary(op, Box::new(x), Box::new(y)),
            ds,
            b,
            row,
            calc,
        ) == eval::evaluated(between(op, l, r), ds, b, row, calc),
        eval::evaluated(ExprView::Unary(sign, Box::new(x)), ds, b, row, calc) == eval::evaluated(
            before(sign, l),
            ds,
            b,
            row,
            calc,
        ),
        l == ValueView::Numeric(nearest(0)) ==> eval::evaluated(
            ExprView::Binary(BinaryOp::And, Box::new(x), Box::new(y)),
            ds,
            b,
            row,
            calc,
        ) == flag(false),
        l == ValueView::Numeric(nearest(1)) ==> eval::evaluated(
            ExprView::Binary(BinaryOp::Or, Box::new(x), Box::new(y)),
            ds,
            b,
            row,
            calc,
        ) == flag(true),
{
    let (vl, vr) = (ExprView::Value(l), ExprView::Value(r));
    assert(eval::evaluated(vl, ds, b, row, calc) == Some(l));
    assert(eval::evaluated(vr, ds, b, row, calc) == Some(r));
    law::lemma_truth_values();
}

/// Comparisons of finite numbers, whole or not, compare their values.
pub proof fn law_comparisons_of_numbers<F: Fn(NumOp) -> Number>(
    x: Number,
    y: Number,
    ds: DatasetView,
    b: int,
    row: int,
    calc: F,
)
    requires
        x.finite(),
        y.finite(),
    ensures
        ({
            let (p, q) = (number_law::value(x), number_law::value(y));
            &&& eval::evaluated(numbers(BinaryOp::Eq, x, y), ds, b, row, calc) == flag(p == q)
            &&& eval::evaluated(numbers(BinaryOp::Ne, x, y), ds, b, row, calc) == flag(p != q)
            &&& eval::evaluated(numbers(BinaryOp::Lt, x, y), ds, b, row, calc) == flag(p < q)
            &&& eval::evaluated(numbers(BinaryOp::Le, x, y), ds, b, row, calc) == flag(p <= q)
            &&& eval::evaluated(numbers(BinaryOp::Gt, x, y), ds, b, row, calc) == flag(p > q)
            &&& eval::evaluated(numbers(BinaryOp::Ge, x, y), ds, b, row, calc) == flag(p >= q)
        }),
{
    number_law::law_order_by_value(x, y);
    number_law::law_order_by_value(y, x);
    reveal_with_fuel(eval::evaluated, 2);
}

} // verus!
