//! Evaluation of expressions.
use vstd::prelude::*;

use crate::arith;
use crate::arith::{perform, NumOp};
use crate::dataset;
use crate::dataset::{read_cell, read_raw, Dataset, DatasetView};
use crate::expr::ast::{BinaryOp, Expr, ExprView, UnaryOp};
use crate::expr::builtin;
use crate::expr::builtin::{
    aggregate_values, apply, count_missing, find_function, truth_value, Builtin,
};
use crate::number;
use crate::number::Number;
use crate::text;
use crate::text::{is_text_below, same_text};
use crate::value::{Value, ValueView};
use crate::variable::VariableType;

verus! {

broadcast use crate::text::lemma_views_push;

/// The entry of a variable in a row is there and legible.
pub open spec fn present(ds: DatasetView, b: int, r: int, idx: int) -> bool {
    &&& 0 <= b < ds.batches.len()
    &&& 0 <= idx < ds.variables.len()
    &&& idx < ds.batches[b].columns.len()
    &&& 0 <= r < ds.batches[b].columns[idx].cells.len()
    &&& dataset::legible(ds.variables[idx].var_type, ds.batches[b].columns[idx], r)
}

/// The value of a variable in a row; one that the dataset does not have is
/// missing. `raw` keeps user-missing numbers. There is no value where the row
/// has no legible entry of the variable.
pub open spec fn looked_up(
    ds: DatasetView,
    b: int,
    r: int,
    name: Seq<char>,
    raw: bool,
) -> Option<ValueView> {
    match ds.index_of(name) {
        None => Some(ValueView::SystemMissing),
        Some(idx) => if present(ds, b, r, idx as int) {
            let cell = ds.batches[b].columns[idx as int].cells[r];
            Some(
                if raw {
                    dataset::raw_value(ds.variables[idx as int].var_type, cell)
                } else {
                    dataset::value_of_cell(ds.variables[idx as int], cell)
                },
            )
        } else {
            None
        },
    }
}

/// An operator before a value.
pub open spec fn unary(op: UnaryOp, v: ValueView) -> ValueView {
    match v {
        ValueView::Numeric(n) => match op {
            UnaryOp::Neg => ValueView::Numeric(n.negated()),
            UnaryOp::Pos => ValueView::Numeric(n),
            UnaryOp::Not => if n.equals(number::nearest(0)) {
                builtin::truth(true)
            } else if n.equals(number::nearest(1)) {
                builtin::truth(false)
            } else {
                ValueView::SystemMissing
            },
        },
        _ => ValueView::SystemMissing,
    }
}

/// A number that is zero.
pub open spec fn is_zero(v: ValueView) -> bool {
    v matches ValueView::Numeric(n) && n.equals(number::nearest(0))
}

/// A number that is not zero.
pub open spec fn is_set(v: ValueView) -> bool {
    v matches ValueView::Numeric(n) && !n.equals(number::nearest(0))
}

/// Conjunction of three truth values: false where one is, true where both are.
/// A text is neither, and makes it missing unless the first is false.
pub open spec fn conjunction(l: ValueView, r: ValueView) -> ValueView {
    if is_zero(l) || (is_zero(r) && !(l is String)) {
        builtin::truth(false)
    } else if is_set(l) && is_set(r) {
        builtin::truth(true)
    } else {
        ValueView::SystemMissing
    }
}

/// Disjunction of three truth values: true where one is, false where neither is.
/// A text is neither, and makes it missing unless the first is true.
pub open spec fn disjunction(l: ValueView, r: ValueView) -> ValueView {
    if is_set(l) || (is_set(r) && !(l is String)) {
        builtin::truth(true)
    } else if is_zero(l) && is_zero(r) {
        builtin::truth(false)
    } else {
        ValueView::SystemMissing
    }
}

/// An operator between numbers.
pub open spec fn between_numbers<F: Fn(NumOp) -> Number>(
    op: BinaryOp,
    l: Number,
    r: Number,
    calc: F,
) -> ValueView {
    match op {
        BinaryOp::Add => ValueView::Numeric(arith::meaning(calc, NumOp::Add(l, r))),
        BinaryOp::Sub => ValueView::Numeric(arith::meaning(calc, NumOp::Sub(l, r))),
        BinaryOp::Mul => ValueView::Numeric(arith::meaning(calc, NumOp::Mul(l, r))),
        BinaryOp::Div => if r.equals(number::nearest(0)) {
            ValueView::SystemMissing
        } else {
            ValueView::Numeric(arith::meaning(calc, NumOp::Div(l, r)))
        },
        BinaryOp::Pow => {
            let p = arith::meaning(calc, NumOp::Pow(l, r));
            if p.finite() {
                ValueView::Numeric(p)
            } else {
                ValueView::SystemMissing
            }
        },
        BinaryOp::Eq => builtin::truth(l.equals(r)),
        BinaryOp::Ne => builtin::truth(!l.equals(r)),
        BinaryOp::Lt => builtin::truth(l.below(r)),
        BinaryOp::Le => builtin::truth(l.at_most(r)),
        BinaryOp::Gt => builtin::truth(r.below(l)),
        BinaryOp::Ge => builtin::truth(r.at_most(l)),
        _ => ValueView::SystemMissing,
    }
}

/// An operator between texts.
pub open spec fn between_texts(op: BinaryOp, l: Seq<char>, r: Seq<char>) -> ValueView {
    match op {
        BinaryOp::Eq => builtin::truth(l == r),
        BinaryOp::Ne => builtin::truth(l != r),
        BinaryOp::Lt => builtin::truth(text::text_below(l, r)),
        BinaryOp::Le => builtin::truth(!text::text_below(r, l)),
        BinaryOp::Gt => builtin::truth(text::text_below(r, l)),
        BinaryOp::Ge => builtin::truth(!text::text_below(l, r)),
        _ => ValueView::SystemMissing,
    }
}

/// An operator between two values, other than those of logic.
pub open spec fn binary<F: Fn(NumOp) -> Number>(
    op: BinaryOp,
    l: ValueView,
    r: ValueView,
    calc: F,
) -> ValueView {
    match (l, r) {
        (ValueView::Numeric(a), ValueView::Numeric(b)) => between_numbers(op, a, b, calc),
        (ValueView::String(a), ValueView::String(b)) => between_texts(op, a, b),
        _ => ValueView::SystemMissing,
    }
}

/// The second operand of a conjunction or disjunction does not matter.
pub open spec fn decided(op: BinaryOp, l: ValueView) -> bool {
    (op == BinaryOp::And && is_zero(l)) || (op == BinaryOp::Or && is_set(l))
}

/// A function on the values of its arguments.
pub open spec fn called<F: Fn(NumOp) -> Number>(
    f: Builtin,
    min_valid: Option<usize>,
    args: Seq<ValueView>,
    calc: F,
) -> Option<ValueView> {
    match f {
        Builtin::Sum
        | Builtin::Mean
        | Builtin::Min
        | Builtin::Max
        | Builtin::Variance
        | Builtin::Sd => Some(builtin::aggregated(f, min_valid, args, calc)),
        Builtin::Missing | Builtin::Sysmis => Some(builtin::truth(args[0] is SystemMissing)),
        Builtin::Nmiss => Some(
            ValueView::Numeric(number::nearest(builtin::missing_count(args) as int)),
        ),
        Builtin::Nvalid => Some(
            ValueView::Numeric(number::nearest(args.len() - builtin::missing_count(args))),
        ),
        _ => builtin::applied(f, args, calc),
    }
}

/// The value of an expression in a row. There is none where an entry that it
/// reads is not there or not legible, where a text would be cut inside a
/// character, and where a length or a date cannot be counted.
pub open spec fn evaluated<F: Fn(NumOp) -> Number>(
    e: ExprView,
    ds: DatasetView,
    b: int,
    r: int,
    calc: F,
) -> Option<ValueView>
    decreases e,
{
    match e {
        ExprView::Value(v) => Some(v),
        ExprView::Variable(name) => looked_up(ds, b, r, name, false),
        ExprView::Unary(op, a) => match evaluated(*a, ds, b, r, calc) {
            Some(v) => Some(unary(op, v)),
            None => None,
        },
        ExprView::Binary(op, x, y) => match evaluated(*x, ds, b, r, calc) {
            None => None,
            Some(left) => if decided(op, left) {
                Some(builtin::truth(op == BinaryOp::Or))
            } else {
                match evaluated(*y, ds, b, r, calc) {
                    None => None,
                    Some(right) => Some(
                        match op {
                            BinaryOp::And => conjunction(left, right),
                            BinaryOp::Or => disjunction(left, right),
                            _ => binary(op, left, right, calc),
                        },
                    ),
                }
            },
        },
        ExprView::FunctionCall { name, min_valid, args } => {
            let f = builtin::function_named(name);
            if f == Builtin::Value {
                if args.len() == 1 && args[0] is Variable {
                    looked_up(ds, b, r, args[0]->Variable_0, true)
                } else {
                    Some(ValueView::SystemMissing)
                }
            } else if f == Builtin::Sysmis && args.len() == 1 && args[0] is Variable {
                match looked_up(ds, b, r, args[0]->Variable_0, true) {
                    Some(v) => Some(builtin::truth(v is SystemMissing)),
                    None => None,
                }
            } else if (f == Builtin::Missing || f == Builtin::Sysmis) && args.len() != 1 {
                Some(ValueView::SystemMissing)
            } else {
                match all_evaluated(args, ds, b, r, calc) {
                    None => None,
                    Some(values) => called(f, min_valid, values, calc),
                }
            }
        },
    }
}

/// The values of several expressions.
pub open spec fn all_evaluated<F: Fn(NumOp) -> Number>(
    args: Seq<ExprView>,
    ds: DatasetView,
    b: int,
    r: int,
    calc: F,
) -> Option<Seq<ValueView>>
    decreases args,
{
    if args.len() == 0 {
        Some(Seq::empty())
    } else {
        match all_evaluated(args.drop_last(), ds, b, r, calc) {
            None => None,
            Some(before) => match evaluated(args.last(), ds, b, r, calc) {
                None => None,
                Some(v) => Some(before.push(v)),
            },
        }
    }
}

proof fn lemma_all_evaluated_len<F: Fn(NumOp) -> Number>(
    args: Seq<ExprView>,
    ds: DatasetView,
    b: int,
    r: int,
    calc: F,
)
    ensures
        all_evaluated(args, ds, b, r, calc) matches Some(v) ==> v.len() == args.len(),
    decreases args.len(),
{
    if args.len() > 0 {
        lemma_all_evaluated_len(args.drop_last(), ds, b, r, calc);
    }
}

proof fn lemma_fault_stays<F: Fn(NumOp) -> Number>(
    args: Seq<ExprView>,
    n: int,
    ds: DatasetView,
    b: int,
    r: int,
    calc: F,
)
    requires
        0 <= n <= args.len(),
        all_evaluated(args.take(n), ds, b, r, calc) is None,
    ensures
        all_evaluated(args, ds, b, r, calc) is None,
    decreases args.len() - n,
{
    if n < args.len() {
        assert(args.take(n + 1).drop_last() =~= args.take(n));
        lemma_fault_stays(args, n + 1, ds, b, r, calc);
    } else {
        assert(args.take(n) =~= args);
    }
}

/// The value of a variable in a row.
pub fn get_variable_value(
    dataset: &Dataset,
    batch_idx: usize,
    row_idx: usize,
    name: &str,
    ignore_user_missing: bool,
) -> (r: Option<Value>)
    ensures
        match r {
            Some(v) => looked_up(
                dataset@,
                batch_idx as int,
                row_idx as int,
                name@,
                ignore_user_missing,
            ) == Some(v@),
            None => looked_up(
                dataset@,
                batch_idx as int,
                row_idx as int,
                name@,
                ignore_user_missing,
            ) is None,
        },
{
    let idx = match dataset.variable_index(name) {
        Some(i) => i,
        None => return Some(Value::SystemMissing),
    };
    if batch_idx >= dataset.batches.len() || idx >= dataset.variables.len() || idx
        >= dataset.batches[batch_idx].columns.len() {
        return None;
    }
    let column = &dataset.batches[batch_idx].columns[idx];
    if row_idx >= column.cells.len() {
        return None;
    }
    let var = &dataset.variables[idx];
    let cell = &column.cells[row_idx];
    let legible = match cell {
        crate::batch::Cell::Null => true,
        crate::batch::Cell::Number(_) => matches!(var.var_type, VariableType::Numeric) && matches!(
            column.kind,
            crate::batch::ColumnKind::Float64
        ),
        crate::batch::Cell::Text(_) => matches!(var.var_type, VariableType::String(_)) && matches!(
            column.kind,
            crate::batch::ColumnKind::Utf8
        ),
        _ => false,
    };
    if !legible {
        return None;
    }
    if ignore_user_missing {
        Some(read_raw(var.var_type, cell))
    } else {
        Some(read_cell(var, cell))
    }
}

fn apply_unary(op: UnaryOp, v: &Value) -> (r: Value)
    ensures
        r@ == unary(op, v@),
{
    match v {
        Value::Numeric(n) => match op {
            UnaryOp::Neg => Value::Numeric(n.negate()),
            UnaryOp::Pos => Value::Numeric(*n),
            UnaryOp::Not => if n.is_equal(&Number::from_usize(0)) {
                truth_value(true)
            } else if n.is_equal(&Number::from_usize(1)) {
                truth_value(false)
            } else {
                Value::SystemMissing
            },
        },
        _ => Value::SystemMissing,
    }
}

fn zero(v: &Value) -> (r: bool)
    ensures
        r == is_zero(v@),
{
    match v {
        Value::Numeric(n) => n.is_equal(&Number::from_usize(0)),
        _ => false,
    }
}

fn set(v: &Value) -> (r: bool)
    ensures
        r == is_set(v@),
{
    match v {
        Value::Numeric(n) => !n.is_equal(&Number::from_usize(0)),
        _ => false,
    }
}

fn apply_logic(op: BinaryOp, l: &Value, r: &Value) -> (v: Value)
    requires
        op == BinaryOp::And || op == BinaryOp::Or,
    ensures
        v@ == match op {
            BinaryOp::And => conjunction(l@, r@),
            _ => disjunction(l@, r@),
        },
{
    let text = matches!(l, Value::String(_));
    match op {
        BinaryOp::And => if zero(l) || (zero(r) && !text) {
            truth_value(false)
        } else if set(l) && set(r) {
            truth_value(true)
        } else {
            Value::SystemMissing
        },
        _ => if set(l) || (set(r) && !text) {
            truth_value(true)
        } else if zero(l) && zero(r) {
            truth_value(false)
        } else {
            Value::SystemMissing
        },
    }
}

fn apply_numbers<F: Fn(NumOp) -> Number>(op: BinaryOp, l: Number, r: Number, calc: &F) -> (v: Value)
    requires
        arith::steady(*calc),
    ensures
        v@ == between_numbers(op, l, r, *calc),
{
    match op {
        BinaryOp::Add => Value::Numeric(perform(calc, NumOp::Add(l, r))),
        BinaryOp::Sub => Value::Numeric(perform(calc, NumOp::Sub(l, r))),
        BinaryOp::Mul => Value::Numeric(perform(calc, NumOp::Mul(l, r))),
        BinaryOp::Div => if r.is_equal(&Number::from_usize(0)) {
            Value::SystemMissing
        } else {
            Value::Numeric(perform(calc, NumOp::Div(l, r)))
        },
        BinaryOp::Pow => {
            let p = perform(calc, NumOp::Pow(l, r));
            if p.is_nan() || p.is_infinite() {
                Value::SystemMissing
            } else {
                Value::Numeric(p)
            }
        },
        BinaryOp::Eq => truth_value(l.is_equal(&r)),
        BinaryOp::Ne => truth_value(!l.is_equal(&r)),
        BinaryOp::Lt => truth_value(l.is_below(&r)),
        BinaryOp::Le => truth_value(l.is_at_most(&r)),
        BinaryOp::Gt => truth_value(r.is_below(&l)),
        BinaryOp::Ge => truth_value(r.is_at_most(&l)),
        _ => Value::SystemMissing,
    }
}

fn apply_texts(op: BinaryOp, l: &str, r: &str) -> (v: Value)
    ensures
        v@ == between_texts(op, l@, r@),
{
    match op {
        BinaryOp::Eq => truth_value(same_text(l, r)),
        BinaryOp::Ne => truth_value(!same_text(l, r)),
        BinaryOp::Lt => truth_value(is_text_below(l, r)),
        BinaryOp::Le => truth_value(!is_text_below(r, l)),
        BinaryOp::Gt => truth_value(is_text_below(r, l)),
        BinaryOp::Ge => truth_value(!is_text_below(l, r)),
        _ => Value::SystemMissing,
    }
}

fn call_function<F: Fn(NumOp) -> Number>(
    f: Builtin,
    min_valid: Option<usize>,
    args: &Vec<Value>,
    calc: &F,
) -> (r: Option<Value>)
    requires
        arith::steady(*calc),
        (f == Builtin::Missing || f == Builtin::Sysmis) ==> args@.len() == 1,
    ensures
        match r {
            Some(v) => called(f, min_valid, text::views(args@), *calc) == Some(v@),
            None => called(f, min_valid, text::views(args@), *calc) is None,
        },
{
    match f {
        Builtin::Sum
        | Builtin::Mean
        | Builtin::Min
        | Builtin::Max
        | Builtin::Variance
        | Builtin::Sd => Some(aggregate_values(f, min_valid, args, calc)),
        Builtin::Missing | Builtin::Sysmis => Some(truth_value(args[0].is_missing())),
        Builtin::Nmiss => Some(Value::Numeric(Number::from_usize(count_missing(args)))),
        Builtin::Nvalid => Some(
            Value::Numeric(Number::from_usize(args.len() - count_missing(args))),
        ),
        _ => apply(f, args, calc),
    }
}

fn evaluate_all<F: Fn(NumOp) -> Number>(
    args: &Vec<Expr>,
    dataset: &Dataset,
    batch_idx: usize,
    row_idx: usize,
    calc: &F,
) -> (r: Option<Vec<Value>>)
    requires
        arith::steady(*calc),
    ensures
        match r {
            Some(v) => all_evaluated(
                text::views(args@),
                dataset@,
                batch_idx as int,
                row_idx as int,
                *calc,
            ) == Some(text::views(v@)) && v@.len() == args@.len(),
            None => all_evaluated(
                text::views(args@),
                dataset@,
                batch_idx as int,
                row_idx as int,
                *calc,
            ) is None,
        },
    decreases args,
{
    let ghost av = text::views(args@);
    let mut values: Vec<Value> = Vec::new();
    let mut i: usize = 0;
    proof {
        assert(av.take(0) =~= Seq::empty());
        assert(text::views(values@) =~= Seq::empty());
    }
    while i < args.len()
        invariant
            i <= args.len(),
            av == text::views(args@),
            arith::steady(*calc),
            values@.len() == i,
            all_evaluated(
                av.take(i as int),
                dataset@,
                batch_idx as int,
                row_idx as int,
                *calc,
            ) == Some(text::views(values@)),
        decreases args.len() - i,
    {
        proof {
            assert(av.take(i + 1).drop_last() =~= av.take(i as int));
            assert(av.take(i + 1).last() == args@[i as int]@);
        }
        match args[i].evaluate(dataset, batch_idx, row_idx, calc) {
            Some(v) => {
                values.push(v);
            },
            None => {
                proof {
                    lemma_fault_stays(
                        av,
                        i + 1,
                        dataset@,
                        batch_idx as int,
                        row_idx as int,
                        *calc,
                    );
                }
                return None;
            },
        }
        i = i + 1;
    }
    proof {
        assert(av.take(av.len() as int) =~= av);
    }
    Some(values)
}

impl Expr {
    /// The value in a row, where there is one.
    pub(crate) fn evaluate<F: Fn(NumOp) -> Number>(
        &self,
        dataset: &Dataset,
        batch_idx: usize,
        row_idx: usize,
        calc: &F,
    ) -> (r: Option<Value>)
        requires
            arith::steady(*calc),
        ensures
            match r {
                Some(v) => evaluated(
                    self@,
                    dataset@,
                    batch_idx as int,
                    row_idx as int,
                    *calc,
                ) == Some(v@),
                None => evaluated(
                    self@,
                    dataset@,
                    batch_idx as int,
                    row_idx as int,
                    *calc,
                ) is None,
            },
        decreases self,
    {
        match self {
            Expr::Value(v) => Some(v.clone()),
            Expr::Variable(name) => get_variable_value(
                dataset,
                batch_idx,
                row_idx,
                name.as_str(),
                false,
            ),
            Expr::Unary(op, a) => match a.evaluate(dataset, batch_idx, row_idx, calc) {
                Some(v) => Some(apply_unary(*op, &v)),
                None => None,
            },
            Expr::Binary(op, x, y) => {
                let left = match x.evaluate(dataset, batch_idx, row_idx, calc) {
                    Some(v) => v,
                    None => return None,
                };
                match *op {
                    BinaryOp::And => if zero(&left) {
                        return Some(truth_value(false));
                    },
                    BinaryOp::Or => if set(&left) {
                        return Some(truth_value(true));
                    },
                    _ => {},
                }
                let right = match y.evaluate(dataset, batch_idx, row_idx, calc) {
                    Some(v) => v,
                    None => return None,
                };
                match *op {
                    BinaryOp::And | BinaryOp::Or => Some(apply_logic(*op, &left, &right)),
                    _ => match (&left, &right) {
                        (Value::Numeric(l), Value::Numeric(r)) => Some(
                            apply_numbers(*op, *l, *r, calc),
                        ),
                        (Value::String(l), Value::String(r)) => Some(
                            apply_texts(*op, l.as_str(), r.as_str()),
                        ),
                        _ => Some(Value::SystemMissing),
                    },
                }
            },
            Expr::FunctionCall { name, min_valid, args } => {
                let ghost av = text::views(args@);
                proof {
                    assert(self@->args =~= av);
                }
                let f = find_function(name.as_str());
                if let Builtin::Value = f {
                    if args.len() == 1 {
                        if let Expr::Variable(vname) = &args[0] {
                            return get_variable_value(
                                dataset,
                                batch_idx,
                                row_idx,
                                vname.as_str(),
                                true,
                            );
                        }
                    }
                    return Some(Value::SystemMissing);
                }
                if let Builtin::Sysmis = f {
                    if args.len() == 1 {
                        if let Expr::Variable(vname) = &args[0] {
                            return match get_variable_value(
                                dataset,
                                batch_idx,
                                row_idx,
                                vname.as_str(),
                                true,
                            ) {
                                Some(v) => Some(truth_value(v.is_missing())),
                                None => None,
                            };
                        }
                    }
                }
                if matches!(f, Builtin::Missing | Builtin::Sysmis) && args.len() != 1 {
                    return Some(Value::SystemMissing);
                }
                match evaluate_all(args, dataset, batch_idx, row_idx, calc) {
                    Some(values) => call_function(f, *min_valid, &values, calc),
                    None => None,
                }
            },
        }
    }

    /// The value in a row. `calc` carries out rounded operations.
    pub fn eval<F: Fn(NumOp) -> Number>(
        &self,
        dataset: &Dataset,
        batch_idx: usize,
        row_idx: usize,
        calc: &F,
    ) -> (r: Value)
        requires
            arith::steady(*calc),
            evaluated(self@, dataset@, batch_idx as int, row_idx as int, *calc) is Some,
        ensures
            evaluated(self@, dataset@, batch_idx as int, row_idx as int, *calc) == Some(r@),
    {
        match self.evaluate(dataset, batch_idx, row_idx, calc) {
            Some(v) => v,
            None => Value::SystemMissing,
        }
    }

    /// The value in a row, where it has one: not where an entry is not there or
    /// not legible, a text would be cut inside a character, or a length or a date
    /// cannot be counted.
    pub fn try_eval<F: Fn(NumOp) -> Number>(
        &self,
        dataset: &Dataset,
        batch_idx: usize,
        row_idx: usize,
        calc: &F,
    ) -> (r: Option<Value>)
        requires
            arith::steady(*calc),
        ensures
            match r {
                Some(v) => evaluated(
                    self@,
                    dataset@,
                    batch_idx as int,
                    row_idx as int,
                    *calc,
                ) == Some(v@),
                None => evaluated(
                    self@,
                    dataset@,
                    batch_idx as int,
                    row_idx as int,
                    *calc,
                ) is None,
            },
    {
        if self.evaluate(dataset, batch_idx, row_idx, calc).is_none() {
            return None;
        }
        Some(self.eval(dataset, batch_idx, row_idx, calc))
    }
}

} // verus!
