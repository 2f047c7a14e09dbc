//! What functions give, by name.
use vstd::prelude::*;

use crate::arith::{meaning, NumOp};
use crate::arith_law;
use crate::arith_law::{
    doubles, exact, has_number, is_largest, is_smallest, squares, squares_small, sums_small, total,
};
use crate::dataset::DatasetView;
use crate::descriptives_law::squared_difference;
use crate::expr::ast::ExprView;
use crate::expr::builtin;
use crate::expr::builtin::Builtin;
use crate::expr::eval;
use crate::expr::operator_law::flag;
use crate::number::{nearest, Number};
use crate::number_law;
use crate::number_law::small;
use crate::value::ValueView;

verus! {

/// A call of a function on values.
pub open spec fn call(name: Seq<char>, args: Seq<ValueView>) -> ExprView {
    call_of(name, None, args)
}

/// A call of a function on values, with the number of valid ones that it asks for.
pub open spec fn call_of(name: Seq<char>, min_valid: Option<usize>, args: Seq<ValueView>) -> ExprView {
    ExprView::FunctionCall {
        name,
        min_valid,
        args: Seq::new(args.len(), |i: int| ExprView::Value(args[i])),
    }
}

/// The value of a call of a function on values.
pub open spec fn result<F: Fn(NumOp) -> Number>(
    name: Seq<char>,
    args: Seq<ValueView>,
    ds: DatasetView,
    calc: F,
) -> Option<ValueView> {
    eval::evaluated(call(name, args), ds, 0, 0, calc)
}

/// A number as a value.
pub open spec fn num(n: Number) -> ValueView {
    ValueView::Numeric(n)
}

proof fn lemma_arguments<F: Fn(NumOp) -> Number>(
    args: Seq<ValueView>,
    ds: DatasetView,
    b: int,
    row: int,
    calc: F,
)
    ensures
        eval::all_evaluated(
            Seq::new(args.len(), |i: int| ExprView::Value(args[i])),
            ds,
            b,
            row,
            calc,
        ) == Some(args),
    decreases args.len(),
{
    let all = Seq::new(args.len(), |i: int| ExprView::Value(args[i]));
    if args.len() > 0 {
        let head = args.drop_last();
        lemma_arguments(head, ds, b, row, calc);
        assert(all.drop_last() =~= Seq::new(head.len(), |i: int| ExprView::Value(head[i])));
        assert(head.push(args.last()) =~= args);
        assert(all.last() == ExprView::Value(args.last()));
        assert(eval::evaluated(all.last(), ds, b, row, calc) == Some(args.last()));
    } else {
        assert(all =~= Seq::empty());
        assert(args =~= Seq::empty());
    }
}

/// A call of a function that is not one on missing values.
pub proof fn lemma_call<F: Fn(NumOp) -> Number>(
    name: Seq<char>,
    min_valid: Option<usize>,
    args: Seq<ValueView>,
    ds: DatasetView,
    b: int,
    row: int,
    calc: F,
)
    requires
        builtin::function_named(name) != Builtin::Value,
        builtin::function_named(name) == Builtin::Missing || builtin::function_named(name)
            == Builtin::Sysmis ==> args.len() == 1,
    ensures
        eval::evaluated(call_of(name, min_valid, args), ds, b, row, calc) == eval::called(
            builtin::function_named(name),
            min_valid,
            args,
            calc,
        ),
{
    lemma_arguments(args, ds, b, row, calc);
    let list = Seq::new(args.len(), |i: int| ExprView::Value(args[i]));
    if args.len() == 1 {
        assert(list[0] is Value);
    }
}

proof fn lemma_aggregate_names()
    ensures
        builtin::function_named("SUM"@) == Builtin::Sum,
        builtin::function_named("MEAN"@) == Builtin::Mean,
        builtin::function_named("MIN"@) == Builtin::Min,
        builtin::function_named("MAX"@) == Builtin::Max,
        builtin::function_named("VARIANCE"@) == Builtin::Variance,
        builtin::function_named("SD"@) == Builtin::Sd,
        builtin::function_named("VALUE"@) == Builtin::Value,
        builtin::function_named("MISSING"@) == Builtin::Missing,
        builtin::function_named("SYSMIS"@) == Builtin::Sysmis,
        builtin::function_named("NMISS"@) == Builtin::Nmiss,
        builtin::function_named("NVALID"@) == Builtin::Nvalid,
{
    lemma_literals();
}

proof fn lemma_numeric_names()
    ensures
        builtin::function_named("ABS"@) == Builtin::Abs,
        builtin::function_named("SQRT"@) == Builtin::Sqrt,
        builtin::function_named("EXP"@) == Builtin::Exp,
        builtin::function_named("LN"@) == Builtin::Ln,
        builtin::function_named("LG10"@) == Builtin::Lg10,
        builtin::function_named("RND"@) == Builtin::Rnd,
        builtin::function_named("TRUNC"@) == Builtin::Trunc,
        builtin::function_named("MOD"@) == Builtin::Mod,
        builtin::function_named("SIN"@) == Builtin::Sin,
        builtin::function_named("COS"@) == Builtin::Cos,
        builtin::function_named("TAN"@) == Builtin::Tan,
        builtin::function_named("ARSIN"@) == Builtin::Arsin,
        builtin::function_named("ARCOS"@) == Builtin::Arcos,
        builtin::function_named("ARTAN"@) == Builtin::Artan,
{
    lemma_literals();
}

pub proof fn lemma_textual_names()
    ensures
        builtin::function_named("CONCAT"@) == Builtin::Concat,
        builtin::function_named("LOWER"@) == Builtin::Lower,
        builtin::function_named("UPPER"@) == Builtin::Upper,
        builtin::function_named("LENGTH"@) == Builtin::Length,
        builtin::function_named("SUBSTR"@) == Builtin::Substr,
        builtin::function_named("LPAD"@) == Builtin::Lpad,
        builtin::function_named("RPAD"@) == Builtin::Rpad,
        builtin::function_named("LTRIM"@) == Builtin::Ltrim,
        builtin::function_named("RTRIM"@) == Builtin::Rtrim,
        builtin::function_named("INDEX"@) == Builtin::Index,
        builtin::function_named("LOWERCASE"@) == Builtin::Lower,
        builtin::function_named("UPPERCASE"@) == Builtin::Upper,
        builtin::function_named("CHAR.LENGTH"@) == Builtin::Length,
        builtin::function_named("CHAR.SUBSTR"@) == Builtin::Substr,
        builtin::function_named("CHAR.INDEX"@) == Builtin::Index,
{
    lemma_literals();
}

#[verifier::spinoff_prover]
proof fn lemma_temporal_names_0()
    ensures
        builtin::function_named("DATE.DMY"@) == Builtin::DateDmy,
        builtin::function_named("DATE.MDY"@) == Builtin::DateMdy,
        builtin::function_named("TIME.HMS"@) == Builtin::TimeHms,
{
    lemma_literals();
}

#[verifier::spinoff_prover]
proof fn lemma_temporal_names_1()
    ensures
        builtin::function_named("TIME.DAYS"@) == Builtin::TimeDays,
        builtin::function_named("XDATE.YEAR"@) == Builtin::XdateYear,
        builtin::function_named("XDATE.MONTH"@) == Builtin::XdateMonth,
{
    lemma_literals();
}

#[verifier::spinoff_prover]
proof fn lemma_temporal_names_2()
    ensures
        builtin::function_named("XDATE.MDAY"@) == Builtin::XdateMday,
        builtin::function_named("XDATE.WKDAY"@) == Builtin::XdateWkday,
        builtin::function_named("XDATE.HOUR"@) == Builtin::XdateHour,
{
    lemma_literals();
}

#[verifier::spinoff_prover]
proof fn lemma_temporal_names_3()
    ensures
        builtin::function_named("XDATE.MINUTE"@) == Builtin::XdateMinute,
        builtin::function_named("XDATE.SECOND"@) == Builtin::XdateSecond,
        builtin::function_named("CTIME.DAYS"@) == Builtin::CtimeDays,
{
    lemma_literals();
}

#[verifier::spinoff_prover]
proof fn lemma_temporal_names_4()
    ensures
        builtin::function_named("CTIME.HOURS"@) == Builtin::CtimeHours,
        builtin::function_named("CTIME.MINUTES"@) == Builtin::CtimeMinutes,
        builtin::function_named("CTIME.SECONDS"@) == Builtin::CtimeSeconds,
{
    lemma_literals();
}

pub proof fn lemma_temporal_names()
    ensures
        builtin::function_named("DATE.DMY"@) == Builtin::DateDmy,
        builtin::function_named("DATE.MDY"@) == Builtin::DateMdy,
        builtin::function_named("TIME.HMS"@) == Builtin::TimeHms,
        builtin::function_named("TIME.DAYS"@) == Builtin::TimeDays,
        builtin::function_named("XDATE.YEAR"@) == Builtin::XdateYear,
        builtin::function_named("XDATE.MONTH"@) == Builtin::XdateMonth,
        builtin::function_named("XDATE.MDAY"@) == Builtin::XdateMday,
        builtin::function_named("XDATE.WKDAY"@) == Builtin::XdateWkday,
        builtin::function_named("XDATE.HOUR"@) == Builtin::XdateHour,
        builtin::function_named("XDATE.MINUTE"@) == Builtin::XdateMinute,
        builtin::function_named("XDATE.SECOND"@) == Builtin::XdateSecond,
        builtin::function_named("CTIME.DAYS"@) == Builtin::CtimeDays,
        builtin::function_named("CTIME.HOURS"@) == Builtin::CtimeHours,
        builtin::function_named("CTIME.MINUTES"@) == Builtin::CtimeMinutes,
        builtin::function_named("CTIME.SECONDS"@) == Builtin::CtimeSeconds,
{
    lemma_temporal_names_0();
    lemma_temporal_names_1();
    lemma_temporal_names_2();
    lemma_temporal_names_3();
    lemma_temporal_names_4();
}

/// The characters of the names.
pub proof fn lemma_literals()
    ensures
        "SUM"@ == seq!['S', 'U', 'M'],
        "MEAN"@ == seq!['M', 'E', 'A', 'N'],
        "MIN"@ == seq!['M', 'I', 'N'],
        "MAX"@ == seq!['M', 'A', 'X'],
        "VARIANCE"@ == seq!['V', 'A', 'R', 'I', 'A', 'N', 'C', 'E'],
        "SD"@ == seq!['S', 'D'],
        "VALUE"@ == seq!['V', 'A', 'L', 'U', 'E'],
        "MISSING"@ == seq!['M', 'I', 'S', 'S', 'I', 'N', 'G'],
        "SYSMIS"@ == seq!['S', 'Y', 'S', 'M', 'I', 'S'],
        "NMISS"@ == seq!['N', 'M', 'I', 'S', 'S'],
        "NVALID"@ == seq!['N', 'V', 'A', 'L', 'I', 'D'],
        "ABS"@ == seq!['A', 'B', 'S'],
        "SQRT"@ == seq!['S', 'Q', 'R', 'T'],
        "EXP"@ == seq!['E', 'X', 'P'],
        "LN"@ == seq!['L', 'N'],
        "LG10"@ == seq!['L', 'G', '1', '0'],
        "RND"@ == seq!['R', 'N', 'D'],
        "TRUNC"@ == seq!['T', 'R', 'U', 'N', 'C'],
        "MOD"@ == seq!['M', 'O', 'D'],
        "SIN"@ == seq!['S', 'I', 'N'],
        "COS"@ == seq!['C', 'O', 'S'],
        "TAN"@ == seq!['T', 'A', 'N'],
        "ARSIN"@ == seq!['A', 'R', 'S', 'I', 'N'],
        "ARCOS"@ == seq!['A', 'R', 'C', 'O', 'S'],
        "ARTAN"@ == seq!['A', 'R', 'T', 'A', 'N'],
        "CONCAT"@ == seq!['C', 'O', 'N', 'C', 'A', 'T'],
        "LOWER"@ == seq!['L', 'O', 'W', 'E', 'R'],
        "LOWERCASE"@ == seq!['L', 'O', 'W', 'E', 'R', 'C', 'A', 'S', 'E'],
        "UPPER"@ == seq!['U', 'P', 'P', 'E', 'R'],
        "UPPERCASE"@ == seq!['U', 'P', 'P', 'E', 'R', 'C', 'A', 'S', 'E'],
        "LENGTH"@ == seq!['L', 'E', 'N', 'G', 'T', 'H'],
        "CHAR.LENGTH"@ == seq!['C', 'H', 'A', 'R', '.', 'L', 'E', 'N', 'G', 'T', 'H'],
        "SUBSTR"@ == seq!['S', 'U', 'B', 'S', 'T', 'R'],
        "CHAR.SUBSTR"@ == seq!['C', 'H', 'A', 'R', '.', 'S', 'U', 'B', 'S', 'T', 'R'],
        "LPAD"@ == seq!['L', 'P', 'A', 'D'],
        "RPAD"@ == seq!['R', 'P', 'A', 'D'],
        "LTRIM"@ == seq!['L', 'T', 'R', 'I', 'M'],
        "RTRIM"@ == seq!['R', 'T', 'R', 'I', 'M'],
        "INDEX"@ == seq!['I', 'N', 'D', 'E', 'X'],
        "CHAR.INDEX"@ == seq!['C', 'H', 'A', 'R', '.', 'I', 'N', 'D', 'E', 'X'],
        "DATE.DMY"@ == seq!['D', 'A', 'T', 'E', '.', 'D', 'M', 'Y'],
        "DATE.MDY"@ == seq!['D', 'A', 'T', 'E', '.', 'M', 'D', 'Y'],
        "TIME.HMS"@ == seq!['T', 'I', 'M', 'E', '.', 'H', 'M', 'S'],
        "TIME.DAYS"@ == seq!['T', 'I', 'M', 'E', '.', 'D', 'A', 'Y', 'S'],
        "XDATE.YEAR"@ == seq!['X', 'D', 'A', 'T', 'E', '.', 'Y', 'E', 'A', 'R'],
        "XDATE.MONTH"@ == seq!['X', 'D', 'A', 'T', 'E', '.', 'M', 'O', 'N', 'T', 'H'],
        "XDATE.MDAY"@ == seq!['X', 'D', 'A', 'T', 'E', '.', 'M', 'D', 'A', 'Y'],
        "XDATE.WKDAY"@ == seq!['X', 'D', 'A', 'T', 'E', '.', 'W', 'K', 'D', 'A', 'Y'],
        "XDATE.HOUR"@ == seq!['X', 'D', 'A', 'T', 'E', '.', 'H', 'O', 'U', 'R'],
        "XDATE.MINUTE"@ == seq!['X', 'D', 'A', 'T', 'E', '.', 'M', 'I', 'N', 'U', 'T', 'E'],
        "XDATE.SECOND"@ == seq!['X', 'D', 'A', 'T', 'E', '.', 'S', 'E', 'C', 'O', 'N', 'D'],
        "CTIME.DAYS"@ == seq!['C', 'T', 'I', 'M', 'E', '.', 'D', 'A', 'Y', 'S'],
        "CTIME.HOURS"@ == seq!['C', 'T', 'I', 'M', 'E', '.', 'H', 'O', 'U', 'R', 'S'],
        "CTIME.MINUTES"@ == seq!['C', 'T', 'I', 'M', 'E', '.', 'M', 'I', 'N', 'U', 'T', 'E', 'S'],
        "CTIME.SECONDS"@ == seq!['C', 'T', 'I', 'M', 'E', '.', 'S', 'E', 'C', 'O', 'N', 'D', 'S'],
{
    reveal_strlit("SUM");
    assert("SUM"@ =~= seq!['S', 'U', 'M']);
    reveal_strlit("MEAN");
    assert("MEAN"@ =~= seq!['M', 'E', 'A', 'N']);
    reveal_strlit("MIN");
    assert("MIN"@ =~= seq!['M', 'I', 'N']);
    reveal_strlit("MAX");
    assert("MAX"@ =~= seq!['M', 'A', 'X']);
    reveal_strlit("VARIANCE");
    assert("VARIANCE"@ =~= seq!['V', 'A', 'R', 'I', 'A', 'N', 'C', 'E']);
    reveal_strlit("SD");
    assert("SD"@ =~= seq!['S', 'D']);
    reveal_strlit("VALUE");
    assert("VALUE"@ =~= seq!['V', 'A', 'L', 'U', 'E']);
    reveal_strlit("MISSING");
    assert("MISSING"@ =~= seq!['M', 'I', 'S', 'S', 'I', 'N', 'G']);
    reveal_strlit("SYSMIS");
    assert("SYSMIS"@ =~= seq!['S', 'Y', 'S', 'M', 'I', 'S']);
    reveal_strlit("NMISS");
    assert("NMISS"@ =~= seq!['N', 'M', 'I', 'S', 'S']);
    reveal_strlit("NVALID");
    assert("NVALID"@ =~= seq!['N', 'V', 'A', 'L', 'I', 'D']);
    reveal_strlit("ABS");
    assert("ABS"@ =~= seq!['A', 'B', 'S']);
    reveal_strlit("SQRT");
    assert("SQRT"@ =~= seq!['S', 'Q', 'R', 'T']);
    reveal_strlit("EXP");
    assert("EXP"@ =~= seq!['E', 'X', 'P']);
    reveal_strlit("LN");
    assert("LN"@ =~= seq!['L', 'N']);
    reveal_strlit("LG10");
    assert("LG10"@ =~= seq!['L', 'G', '1', '0']);
    reveal_strlit("RND");
    assert("RND"@ =~= seq!['R', 'N', 'D']);
    reveal_strlit("TRUNC");
    assert("TRUNC"@ =~= seq!['T', 'R', 'U', 'N', 'C']);
    reveal_strlit("MOD");
    assert("MOD"@ =~= seq!['M', 'O', 'D']);
    reveal_strlit("SIN");
    assert("SIN"@ =~= seq!['S', 'I', 'N']);
    reveal_strlit("COS");
    assert("COS"@ =~= seq!['C', 'O', 'S']);
    reveal_strlit("TAN");
    assert("TAN"@ =~= seq!['T', 'A', 'N']);
    reveal_strlit("ARSIN");
    assert("ARSIN"@ =~= seq!['A', 'R', 'S', 'I', 'N']);
    reveal_strlit("ARCOS");
    assert("ARCOS"@ =~= seq!['A', 'R', 'C', 'O', 'S']);
    reveal_strlit("ARTAN");
    assert("ARTAN"@ =~= seq!['A', 'R', 'T', 'A', 'N']);
    reveal_strlit("CONCAT");
    assert("CONCAT"@ =~= seq!['C', 'O', 'N', 'C', 'A', 'T']);
    reveal_strlit("LOWER");
    assert("LOWER"@ =~= seq!['L', 'O', 'W', 'E', 'R']);
    reveal_strlit("LOWERCASE");
    assert("LOWERCASE"@ =~= seq!['L', 'O', 'W', 'E', 'R', 'C', 'A', 'S', 'E']);
    reveal_strlit("UPPER");
    assert("UPPER"@ =~= seq!['U', 'P', 'P', 'E', 'R']);
    reveal_strlit("UPPERCASE");
    assert("UPPERCASE"@ =~= seq!['U', 'P', 'P', 'E', 'R', 'C', 'A', 'S', 'E']);
    reveal_strlit("LENGTH");
    assert("LENGTH"@ =~= seq!['L', 'E', 'N', 'G', 'T', 'H']);
    reveal_strlit("CHAR.LENGTH");
    assert("CHAR.LENGTH"@ =~= seq!['C', 'H', 'A', 'R', '.', 'L', 'E', 'N', 'G', 'T', 'H']);
    reveal_strlit("SUBSTR");
    assert("SUBSTR"@ =~= seq!['S', 'U', 'B', 'S', 'T', 'R']);
    reveal_strlit("CHAR.SUBSTR");
    assert("CHAR.SUBSTR"@ =~= seq!['C', 'H', 'A', 'R', '.', 'S', 'U', 'B', 'S', 'T', 'R']);
    reveal_strlit("LPAD");
    assert("LPAD"@ =~= seq!['L', 'P', 'A', 'D']);
    reveal_strlit("RPAD");
    assert("RPAD"@ =~= seq!['R', 'P', 'A', 'D']);
    reveal_strlit("LTRIM");
    assert("LTRIM"@ =~= seq!['L', 'T', 'R', 'I', 'M']);
    reveal_strlit("RTRIM");
    assert("RTRIM"@ =~= seq!['R', 'T', 'R', 'I', 'M']);
    reveal_strlit("INDEX");
    assert("INDEX"@ =~= seq!['I', 'N', 'D', 'E', 'X']);
    reveal_strlit("CHAR.INDEX");
    assert("CHAR.INDEX"@ =~= seq!['C', 'H', 'A', 'R', '.', 'I', 'N', 'D', 'E', 'X']);
    reveal_strlit("DATE.DMY");
    assert("DATE.DMY"@ =~= seq!['D', 'A', 'T', 'E', '.', 'D', 'M', 'Y']);
    reveal_strlit("DATE.MDY");
    assert("DATE.MDY"@ =~= seq!['D', 'A', 'T', 'E', '.', 'M', 'D', 'Y']);
    reveal_strlit("TIME.HMS");
    assert("TIME.HMS"@ =~= seq!['T', 'I', 'M', 'E', '.', 'H', 'M', 'S']);
    reveal_strlit("TIME.DAYS");
    assert("TIME.DAYS"@ =~= seq!['T', 'I', 'M', 'E', '.', 'D', 'A', 'Y', 'S']);
    reveal_strlit("XDATE.YEAR");
    assert("XDATE.YEAR"@ =~= seq!['X', 'D', 'A', 'T', 'E', '.', 'Y', 'E', 'A', 'R']);
    reveal_strlit("XDATE.MONTH");
    assert("XDATE.MONTH"@ =~= seq!['X', 'D', 'A', 'T', 'E', '.', 'M', 'O', 'N', 'T', 'H']);
    reveal_strlit("XDATE.MDAY");
    assert("XDATE.MDAY"@ =~= seq!['X', 'D', 'A', 'T', 'E', '.', 'M', 'D', 'A', 'Y']);
    reveal_strlit("XDATE.WKDAY");
    assert("XDATE.WKDAY"@ =~= seq!['X', 'D', 'A', 'T', 'E', '.', 'W', 'K', 'D', 'A', 'Y']);
    reveal_strlit("XDATE.HOUR");
    assert("XDATE.HOUR"@ =~= seq!['X', 'D', 'A', 'T', 'E', '.', 'H', 'O', 'U', 'R']);
    reveal_strlit("XDATE.MINUTE");
    assert("XDATE.MINUTE"@ =~= seq!['X', 'D', 'A', 'T', 'E', '.', 'M', 'I', 'N', 'U', 'T', 'E']);
    reveal_strlit("XDATE.SECOND");
    assert("XDATE.SECOND"@ =~= seq!['X', 'D', 'A', 'T', 'E', '.', 'S', 'E', 'C', 'O', 'N', 'D']);
    reveal_strlit("CTIME.DAYS");
    assert("CTIME.DAYS"@ =~= seq!['C', 'T', 'I', 'M', 'E', '.', 'D', 'A', 'Y', 'S']);
    reveal_strlit("CTIME.HOURS");
    assert("CTIME.HOURS"@ =~= seq!['C', 'T', 'I', 'M', 'E', '.', 'H', 'O', 'U', 'R', 'S']);
    reveal_strlit("CTIME.MINUTES");
    assert("CTIME.MINUTES"@ =~= seq!['C', 'T', 'I', 'M', 'E', '.', 'M', 'I', 'N', 'U', 'T', 'E', 'S']);
    reveal_strlit("CTIME.SECONDS");
    assert("CTIME.SECONDS"@ =~= seq!['C', 'T', 'I', 'M', 'E', '.', 'S', 'E', 'C', 'O', 'N', 'D', 'S']);
}


/// The functions on one number carry out the operation of their name; what has no
/// real result is missing.
pub proof fn law_functions_of_one_number<F: Fn(NumOp) -> Number>(
    x: Number,
    ds: DatasetView,
    calc: F,
)
    ensures
        result("ABS"@, seq![num(x)], ds, calc) == Some(num(x.absolute())),
        result("EXP"@, seq![num(x)], ds, calc) == Some(num(meaning(calc, NumOp::Exp(x)))),
        result("SIN"@, seq![num(x)], ds, calc) == Some(num(meaning(calc, NumOp::Sin(x)))),
        result("COS"@, seq![num(x)], ds, calc) == Some(num(meaning(calc, NumOp::Cos(x)))),
        result("TAN"@, seq![num(x)], ds, calc) == Some(num(meaning(calc, NumOp::Tan(x)))),
        result("ARTAN"@, seq![num(x)], ds, calc) == Some(num(meaning(calc, NumOp::Atan(x)))),
        result("SQRT"@, seq![num(x)], ds, calc) == Some(
            if nearest(0).at_most(x) {
                num(meaning(calc, NumOp::Sqrt(x)))
            } else {
                ValueView::SystemMissing
            },
        ),
        result("LN"@, seq![num(x)], ds, calc) == Some(
            if nearest(0).below(x) {
                num(meaning(calc, NumOp::Ln(x)))
            } else {
                ValueView::SystemMissing
            },
        ),
        result("LG10"@, seq![num(x)], ds, calc) == Some(
            if nearest(0).below(x) {
                num(meaning(calc, NumOp::Log10(x)))
            } else {
                ValueView::SystemMissing
            },
        ),
        result("ARSIN"@, seq![num(x)], ds, calc) == Some(
            if nearest(-1).at_most(x) && x.at_most(nearest(1)) {
                num(meaning(calc, NumOp::Asin(x)))
            } else {
                ValueView::SystemMissing
            },
        ),
        result("ARCOS"@, seq![num(x)], ds, calc) == Some(
            if nearest(-1).at_most(x) && x.at_most(nearest(1)) {
                num(meaning(calc, NumOp::Acos(x)))
            } else {
                ValueView::SystemMissing
            },
        ),
        result("RND"@, seq![num(x)], ds, calc) == Some(num(x.rounded())),
        result("TRUNC"@, seq![num(x)], ds, calc) == Some(num(x.truncated())),
{
    lemma_numeric_names();
    number_law::law_integers_keep_their_sign(1);
    let a = seq![num(x)];
    lemma_call("ABS"@, None, a, ds, 0, 0, calc);
    lemma_call("EXP"@, None, a, ds, 0, 0, calc);
    lemma_call("SIN"@, None, a, ds, 0, 0, calc);
    lemma_call("COS"@, None, a, ds, 0, 0, calc);
    lemma_call("TAN"@, None, a, ds, 0, 0, calc);
    lemma_call("ARTAN"@, None, a, ds, 0, 0, calc);
    lemma_call("SQRT"@, None, a, ds, 0, 0, calc);
    lemma_call("LN"@, None, a, ds, 0, 0, calc);
    lemma_call("LG10"@, None, a, ds, 0, 0, calc);
    lemma_call("ARSIN"@, None, a, ds, 0, 0, calc);
    lemma_call("ARCOS"@, None, a, ds, 0, 0, calc);
    lemma_call("RND"@, None, a, ds, 0, 0, calc);
    lemma_call("TRUNC"@, None, a, ds, 0, 0, calc);
}

/// The size of an integer; and an integer is rounded to itself.
pub proof fn law_size_of_integer<F: Fn(NumOp) -> Number>(x: int, ds: DatasetView, calc: F)
    requires
        small(x),
    ensures
        result("ABS"@, seq![num(nearest(x))], ds, calc) == Some(
            num(
                nearest(
                    if x < 0 {
                        -x
                    } else {
                        x
                    },
                ),
            ),
        ),
        result("RND"@, seq![num(nearest(x))], ds, calc) == Some(num(nearest(x))),
        result("TRUNC"@, seq![num(nearest(x))], ds, calc) == Some(num(nearest(x))),
        x < 0 ==> result("SQRT"@, seq![num(nearest(x))], ds, calc) == Some(
            ValueView::SystemMissing,
        ),
{
    law_functions_of_one_number(nearest(x), ds, calc);
    number_law::law_integers_keep_their_sign(x);
    number_law::law_integers_are_whole(x);
    number_law::law_integers_keep_their_order(0, x);
}

/// The root of the square of an integer.
pub proof fn law_root_of_square<F: Fn(NumOp) -> Number>(x: int, ds: DatasetView, calc: F)
    requires
        exact(calc),
        x >= 0,
        small(x * x),
    ensures
        result("SQRT"@, seq![num(nearest(x * x))], ds, calc) == Some(num(nearest(x))),
{
    law_functions_of_one_number(nearest(x * x), ds, calc);
    assert(x * x >= 0) by (nonlinear_arith);
    number_law::law_integers_keep_their_order(0, x * x);
    assert(meaning(calc, NumOp::Sqrt(nearest(x * x))) == nearest(x));
}

/// The remainder of a division of integers.
pub proof fn law_remainder<F: Fn(NumOp) -> Number>(x: int, y: int, ds: DatasetView, calc: F)
    requires
        exact(calc),
        0 <= x,
        small(x),
        0 < y,
        small(y),
    ensures
        result("MOD"@, seq![num(nearest(x)), num(nearest(y))], ds, calc) == Some(
            num(nearest(x % y)),
        ),
{
    lemma_numeric_names();
    number_law::law_integers_keep_their_order(y, 0);
    let two = seq![num(nearest(x)), num(nearest(y))];
    assert(two[0] == num(nearest(x)) && two[1] == num(nearest(y)));
    lemma_call("MOD"@, None, two, ds, 0, 0, calc);
    assert(meaning(calc, NumOp::Rem(nearest(x), nearest(y))) == nearest(x % y));
}

/// A multiple of an integer is rounded to itself.
pub proof fn law_rounding_to_multiples<F: Fn(NumOp) -> Number>(
    x: int,
    y: int,
    ds: DatasetView,
    calc: F,
)
    requires
        exact(calc),
        small(x),
        small(y),
        y > 0,
        x != 0,
        x % y == 0,
    ensures
        result("RND"@, seq![num(nearest(x)), num(nearest(y))], ds, calc) == Some(num(nearest(x))),
        result("TRUNC"@, seq![num(nearest(x)), num(nearest(y))], ds, calc) == Some(num(nearest(x))),
{
    lemma_numeric_names();
    number_law::law_integers_keep_their_order(y, 0);
    let two = seq![num(nearest(x)), num(nearest(y))];
    lemma_call("RND"@, None, two, ds, 0, 0, calc);
    lemma_call("TRUNC"@, None, two, ds, 0, 0, calc);
    let q = x / y;
    vstd::arithmetic::div_mod::lemma_fundamental_div_mod(x, y);
    assert(q * y == x) by {
        assert(y * q == q * y) by (nonlinear_arith);
    }
    assert(small(q)) by (nonlinear_arith)
        requires
            small(x),
            q * y == x,
            y > 0,
    ;
    number_law::law_integers_are_whole(q);
    assert(meaning(calc, NumOp::Div(nearest(x), nearest(y))) == nearest(q));
    assert(meaning(calc, NumOp::Mul(nearest(q), nearest(y))) == nearest(q * y));
}

/// There is no multiple of zero and no remainder of a division by it.
pub proof fn law_multiples_of_zero<F: Fn(NumOp) -> Number>(x: Number, ds: DatasetView, calc: F)
    ensures
        result("RND"@, seq![num(x), num(nearest(0))], ds, calc) == Some(ValueView::SystemMissing),
        result("TRUNC"@, seq![num(x), num(nearest(0))], ds, calc) == Some(ValueView::SystemMissing),
        result("MOD"@, seq![num(x), num(nearest(0))], ds, calc) == Some(ValueView::SystemMissing),
{
    lemma_numeric_names();
    number_law::law_integers_keep_their_order(0, 0);
    lemma_call("RND"@, None, seq![num(x), num(nearest(0))], ds, 0, 0, calc);
    lemma_call("TRUNC"@, None, seq![num(x), num(nearest(0))], ds, 0, 0, calc);
    lemma_call("MOD"@, None, seq![num(x), num(nearest(0))], ds, 0, 0, calc);
}

/// The numbers among arguments.
pub open spec fn numbers_in(args: Seq<ValueView>) -> Seq<Number> {
    args.filter(|x: ValueView| x is Numeric).map_values(|x: ValueView| x->Numeric_0)
}

/// MIN and MAX give one of the numbers among the arguments, and none of these is
/// smaller or larger; the other arguments are passed over.
pub proof fn law_min_and_max<F: Fn(NumOp) -> Number>(
    args: Seq<ValueView>,
    ds: DatasetView,
    calc: F,
)
    requires
        has_number(numbers_in(args)),
    ensures
        result("MIN"@, args, ds, calc) matches Some(ValueView::Numeric(n)) && is_smallest(
            n,
            numbers_in(args),
        ),
        result("MAX"@, args, ds, calc) matches Some(ValueView::Numeric(n)) && is_largest(
            n,
            numbers_in(args),
        ),
{
    lemma_aggregate_names();
    crate::transform::aggregate_law::law_numbers_among(args);
    arith_law::law_extremes(numbers_in(args));
    lemma_call("MIN"@, None, args, ds, 0, 0, calc);
    lemma_call("MAX"@, None, args, ds, 0, 0, calc);
}

/// SUM, MEAN, VARIANCE and SD of integers among the arguments are those of the
/// integers; the other arguments are passed over.
pub proof fn law_aggregates_of_integers<F: Fn(NumOp) -> Number>(
    args: Seq<ValueView>,
    v: Seq<int>,
    m: int,
    q: int,
    k: int,
    ds: DatasetView,
    calc: F,
)
    requires
        exact(calc),
        numbers_in(args) == doubles(v),
        v.len() > 0,
        small(v.len() as int),
        sums_small(v),
    ensures
        result("SUM"@, args, ds, calc) == Some(num(nearest(total(v)))),
        total(v) == m * v.len() ==> result("MEAN"@, args, ds, calc) == Some(num(nearest(m))),
        v.len() > 1 && total(v) == m * v.len() && squares_small(v, m) && total(squares(v, m)) == q
            * (v.len() - 1) ==> result("VARIANCE"@, args, ds, calc) == Some(num(nearest(q))) && (q
            == k * k && k >= 0 && small(q) ==> result("SD"@, args, ds, calc) == Some(
            num(nearest(k)),
        )),
{
    lemma_aggregate_names();
    crate::transform::aggregate_law::law_numbers_among(args);
    lemma_call("SUM"@, None, args, ds, 0, 0, calc);
    lemma_call("MEAN"@, None, args, ds, 0, 0, calc);
    lemma_call("VARIANCE"@, None, args, ds, 0, 0, calc);
    lemma_call("SD"@, None, args, ds, 0, 0, calc);
    arith_law::law_sum_of_integers(v, calc);
    assert(doubles(v).len() == v.len());
    if total(v) == m * v.len() {
        arith_law::law_mean_of_integers(v, m, calc);
        if v.len() > 1 && squares_small(v, m) && total(squares(v, m)) == q * (v.len() - 1) {
            arith_law::law_squares_of_integers(v, m, calc);
            let n = v.len() - 1;
            let t = total(squares(v, m));
            assert(squares(v, m).take(squares(v, m).len() as int) =~= squares(v, m));
            assert(small(total(squares(v, m).take(squares(v, m).len() as int))));
            vstd::arithmetic::div_mod::lemma_mod_multiples_basic(q, n);
            vstd::arithmetic::div_mod::lemma_div_multiples_vanish(q, n);
            assert(n * q == q * n) by (nonlinear_arith);
            assert(meaning(calc, NumOp::Sub(nearest(v.len() as int), nearest(1))) == nearest(n));
            assert(meaning(calc, NumOp::Div(nearest(t), nearest(n))) == nearest(q));
            if q == k * k && k >= 0 && small(q) {
                assert(meaning(calc, NumOp::Sqrt(nearest(k * k))) == nearest(k));
            }
        }
    }
}

/// An aggregate is missing where there are fewer numbers than it asks for: the
/// number behind its name, or two for VARIANCE and SD, and one for the others.
pub proof fn law_aggregates_of_too_few<F: Fn(NumOp) -> Number>(
    args: Seq<ValueView>,
    min_valid: usize,
    ds: DatasetView,
    b: int,
    row: int,
    calc: F,
)
    ensures
        numbers_in(args).len() == 0 ==> {
            &&& result("SUM"@, args, ds, calc) == Some(ValueView::SystemMissing)
            &&& result("MEAN"@, args, ds, calc) == Some(ValueView::SystemMissing)
            &&& result("MIN"@, args, ds, calc) == Some(ValueView::SystemMissing)
            &&& result("MAX"@, args, ds, calc) == Some(ValueView::SystemMissing)
        },
        numbers_in(args).len() < 2 ==> {
            &&& result("VARIANCE"@, args, ds, calc) == Some(ValueView::SystemMissing)
            &&& result("SD"@, args, ds, calc) == Some(ValueView::SystemMissing)
        },
        eval::evaluated(call_of("MEAN"@, Some(min_valid), args), ds, b, row, calc) == (
        if numbers_in(args).len() < min_valid {
            Some(ValueView::SystemMissing)
        } else {
            Some(num(crate::arith::mean_of(numbers_in(args), calc)))
        }),
        eval::evaluated(call_of("SUM"@, Some(min_valid), args), ds, b, row, calc) == (
        if numbers_in(args).len() < min_valid {
            Some(ValueView::SystemMissing)
        } else {
            Some(num(crate::arith::sum_of(numbers_in(args), calc)))
        }),
        numbers_in(args).len() < min_valid ==> {
            &&& eval::evaluated(call_of("MIN"@, Some(min_valid), args), ds, b, row, calc) == Some(
                ValueView::SystemMissing,
            )
            &&& eval::evaluated(call_of("MAX"@, Some(min_valid), args), ds, b, row, calc) == Some(
                ValueView::SystemMissing,
            )
            &&& eval::evaluated(call_of("SD"@, Some(min_valid), args), ds, b, row, calc) == Some(
                ValueView::SystemMissing,
            )
            &&& eval::evaluated(call_of("VARIANCE"@, Some(min_valid), args), ds, b, row, calc)
                == Some(ValueView::SystemMissing)
        },
{
    lemma_aggregate_names();
    crate::transform::aggregate_law::law_numbers_among(args);
    let few = Some(min_valid);
    lemma_call("SUM"@, None, args, ds, 0, 0, calc);
    lemma_call("MEAN"@, None, args, ds, 0, 0, calc);
    lemma_call("MIN"@, None, args, ds, 0, 0, calc);
    lemma_call("MAX"@, None, args, ds, 0, 0, calc);
    lemma_call("VARIANCE"@, None, args, ds, 0, 0, calc);
    lemma_call("SD"@, None, args, ds, 0, 0, calc);
    lemma_call("SUM"@, few, args, ds, b, row, calc);
    lemma_call("MEAN"@, few, args, ds, b, row, calc);
    lemma_call("MIN"@, few, args, ds, b, row, calc);
    lemma_call("MAX"@, few, args, ds, b, row, calc);
    lemma_call("VARIANCE"@, few, args, ds, b, row, calc);
    lemma_call("SD"@, few, args, ds, b, row, calc);
}

proof fn lemma_missing_count(args: Seq<ValueView>)
    ensures
        builtin::missing_count(args) == args.filter(|x: ValueView| x is SystemMissing).len(),
        builtin::missing_count(args) <= args.len(),
    decreases args.len(),
{
    reveal(Seq::filter);
    if args.len() > 0 {
        lemma_missing_count(args.drop_last());
    }
}

/// NMISS and NVALID count the arguments that are missing and those that are not;
/// together they are all. MISSING tells which a value is.
pub proof fn law_missing_counts<F: Fn(NumOp) -> Number>(
    args: Seq<ValueView>,
    v: ValueView,
    ds: DatasetView,
    calc: F,
)
    ensures
        result("NMISS"@, args, ds, calc) == Some(
            num(nearest(args.filter(|x: ValueView| x is SystemMissing).len() as int)),
        ),
        result("NVALID"@, args, ds, calc) == Some(
            num(nearest(args.len() - args.filter(|x: ValueView| x is SystemMissing).len())),
        ),
        result("MISSING"@, seq![v], ds, calc) == flag(v is SystemMissing),
        result("SYSMIS"@, seq![v], ds, calc) == flag(v is SystemMissing),
{
    lemma_aggregate_names();
    lemma_missing_count(args);
    lemma_call("NMISS"@, None, args, ds, 0, 0, calc);
    lemma_call("NVALID"@, None, args, ds, 0, 0, calc);
    lemma_call("MISSING"@, None, seq![v], ds, 0, 0, calc);
    lemma_call("SYSMIS"@, None, seq![v], ds, 0, 0, calc);
}

/// Of a variable, VALUE gives the number also where it is user-missing, and SYSMIS
/// tells only whether its entry is null; MISSING tells both.
pub proof fn law_user_missing_variable<F: Fn(NumOp) -> Number>(
    name: Seq<char>,
    n: Number,
    ds: DatasetView,
    b: int,
    row: int,
    calc: F,
)
    requires
        ds.index_of(name) matches Some(i) && eval::present(ds, b, row, i as int)
            && ds.batches[b].columns[i as int].cells[row] == crate::batch::CellView::Number(n),
    ensures
        ({
            let args = seq![ExprView::Variable(name)];
            let on = |f: Seq<char>| ExprView::FunctionCall { name: f, min_valid: None, args };
            let missing = ds.variables[ds.index_of(name)->0 as int].missing.holds(n);
            &&& eval::evaluated(on("VALUE"@), ds, b, row, calc) == Some(num(n))
            &&& eval::evaluated(on("SYSMIS"@), ds, b, row, calc) == flag(false)
            &&& eval::evaluated(on("MISSING"@), ds, b, row, calc) == flag(missing)
        }),
{
    lemma_aggregate_names();
    let args = seq![ExprView::Variable(name)];
    assert(args[0] == ExprView::Variable(name));
    assert(args.drop_last() =~= Seq::empty());
    reveal_with_fuel(eval::evaluated, 2);
    reveal_with_fuel(eval::all_evaluated, 2);
    let v = eval::evaluated(ExprView::Variable(name), ds, b, row, calc)->0;
    assert(Seq::<ValueView>::empty().push(v) =~= seq![v]);
    assert(eval::all_evaluated(args, ds, b, row, calc) == Some(seq![v]));
    assert(seq![v][0] == v);
}

proof fn lemma_values_of<F: Fn(NumOp) -> Number>(
    args: Seq<ExprView>,
    values: Seq<ValueView>,
    ds: DatasetView,
    b: int,
    row: int,
    calc: F,
)
    requires
        args.len() == values.len(),
        forall|i: int|
            0 <= i < args.len() ==> eval::evaluated(#[trigger] args[i], ds, b, row, calc) == Some(
                values[i],
            ),
    ensures
        eval::all_evaluated(args, ds, b, row, calc) == Some(values),
    decreases args.len(),
{
    if args.len() > 0 {
        let (a, v) = (args.drop_last(), values.drop_last());
        assert forall|i: int| 0 <= i < a.len() implies eval::evaluated(
            #[trigger] a[i],
            ds,
            b,
            row,
            calc,
        ) == Some(v[i]) by {
            assert(a[i] == args[i]);
        }
        lemma_values_of(a, v, ds, b, row, calc);
        assert(args[args.len() - 1] == args.last());
        assert(v.push(values.last()) =~= values);
    } else {
        assert(values =~= Seq::empty());
    }
}

/// A function takes its arguments by their values, in their order: what they are
/// computed from does not matter. (VALUE and SYSMIS look at a variable itself.)
pub proof fn law_arguments_by_value<F: Fn(NumOp) -> Number>(
    name: Seq<char>,
    min_valid: Option<usize>,
    args: Seq<ExprView>,
    values: Seq<ValueView>,
    ds: DatasetView,
    b: int,
    row: int,
    calc: F,
)
    requires
        name != "VALUE"@,
        name != "SYSMIS"@,
        args.len() == values.len(),
        forall|i: int|
            0 <= i < args.len() ==> eval::evaluated(#[trigger] args[i], ds, b, row, calc) == Some(
                values[i],
            ),
    ensures
        eval::evaluated(ExprView::FunctionCall { name, min_valid, args }, ds, b, row, calc)
            == eval::evaluated(call_of(name, min_valid, values), ds, b, row, calc),
{
    lemma_values_of(args, values, ds, b, row, calc);
    lemma_arguments(values, ds, b, row, calc);
    lemma_only_names(name);
}

/// Two functions have one name each.
proof fn lemma_only_names(name: Seq<char>)
    requires
        name != "VALUE"@,
        name != "SYSMIS"@,
    ensures
        builtin::function_named(name) != Builtin::Value,
        builtin::function_named(name) != Builtin::Sysmis,
{
}

/// RND and TRUNC of any number to multiples of another round and cut the quotient and
/// multiply it back; MOD is the remainder of the division.
pub proof fn law_multiples<F: Fn(NumOp) -> Number>(x: Number, y: Number, ds: DatasetView, calc: F)
    requires
        !y.equals(nearest(0)),
    ensures
        ({
            let two = seq![num(x), num(y)];
            let q = meaning(calc, NumOp::Div(x, y));
            &&& result("RND"@, two, ds, calc) == Some(num(meaning(calc, NumOp::Mul(q.rounded(), y))))
            &&& result("TRUNC"@, two, ds, calc) == Some(
                num(meaning(calc, NumOp::Mul(q.truncated(), y))),
            )
            &&& result("MOD"@, two, ds, calc) == Some(num(meaning(calc, NumOp::Rem(x, y))))
        }),
{
    lemma_numeric_names();
    let two = seq![num(x), num(y)];
    assert(two[0] == num(x) && two[1] == num(y));
    lemma_call("RND"@, None, two, ds, 0, 0, calc);
    lemma_call("TRUNC"@, None, two, ds, 0, 0, calc);
    lemma_call("MOD"@, None, two, ds, 0, 0, calc);
}

/// The sum of the squared differences to the mean over one less than the number of
/// numbers.
pub open spec fn sample_variance<F: Fn(NumOp) -> Number>(v: Seq<Number>, calc: F) -> Number {
    let mean = meaning(
        calc,
        NumOp::Div(crate::arith::sum_of(v, calc), nearest(v.len() as int)),
    );
    let squares = v.map_values(|y: Number| squared_difference(y, mean, calc));
    let less = meaning(calc, NumOp::Sub(nearest(v.len() as int), nearest(1)));
    meaning(calc, NumOp::Div(crate::arith::sum_of(squares, calc), less))
}

/// How the aggregates of any numbers relate: MEAN is SUM over the number of numbers, SD
/// the root of VARIANCE, and one more number is added to SUM.
pub proof fn law_aggregates_relate<F: Fn(NumOp) -> Number>(
    args: Seq<ValueView>,
    x: Number,
    ds: DatasetView,
    calc: F,
)
    requires
        numbers_in(args).len() > 0,
    ensures
        ({
            let n = numbers_in(args).len() as int;
            &&& result("SUM"@, args, ds, calc) matches Some(ValueView::Numeric(s)) && {
                &&& result("MEAN"@, args, ds, calc) == Some(
                    num(meaning(calc, NumOp::Div(s, nearest(n)))),
                )
                &&& result("SUM"@, args.push(num(x)), ds, calc) == Some(
                    num(meaning(calc, NumOp::Add(s, x))),
                )
            }
            &&& n > 1 ==> (result("VARIANCE"@, args, ds, calc) matches Some(
                ValueView::Numeric(q),
            ) && q == sample_variance(numbers_in(args), calc) && result("SD"@, args, ds, calc)
                == Some(num(meaning(calc, NumOp::Sqrt(q)))))
        }),
{
    lemma_aggregate_names();
    crate::transform::aggregate_law::law_numbers_among(args);
    let more = args.push(num(x));
    assert(more.drop_last() =~= args);
    assert(builtin::numbers_of(more) == builtin::numbers_of(args).push(x));
    arith_law::law_sum_grows(numbers_in(args), x, calc);
    let v = numbers_in(args);
    let mean = crate::arith::mean_of(v, calc);
    assert(v.map_values(|y: Number| squared_difference(y, mean, calc))
        =~= crate::arith::deviations(v, mean, calc));
    lemma_call("SUM"@, None, args, ds, 0, 0, calc);
    lemma_call("SUM"@, None, more, ds, 0, 0, calc);
    lemma_call("MEAN"@, None, args, ds, 0, 0, calc);
    lemma_call("VARIANCE"@, None, args, ds, 0, 0, calc);
    lemma_call("SD"@, None, args, ds, 0, 0, calc);
}

} // verus!
