use oxstat::arith::NumOp;
use oxstat::batch::{Batch, Cell, Column, ColumnKind, Field};
use oxstat::dataset::Dataset;
use oxstat::expr::builtin::seconds_to_date;
use oxstat::expr::date::{date_from_days, days_in_month, days_since_1582_10_14, is_leap_year};
use oxstat::expr::{parse, BinaryOp, Expr, UnaryOp};
use oxstat::number::Number;
use oxstat::value::Value;
use oxstat::variable::Variable;

fn num(x: f64) -> Number {
    Number::from_bits(x.to_bits())
}

fn float(n: Number) -> f64 {
    f64::from_bits(n.bits)
}

fn calc(op: NumOp) -> Number {
    num(match op {
        NumOp::EmptySum => std::iter::empty::<f64>().sum(),
        NumOp::Add(a, b) => float(a) + float(b),
        NumOp::Sub(a, b) => float(a) - float(b),
        NumOp::Mul(a, b) => float(a) * float(b),
        NumOp::Div(a, b) => float(a) / float(b),
        NumOp::Rem(a, b) => float(a) % float(b),
        NumOp::Pow(a, b) => float(a).powf(float(b)),
        NumOp::PowInt(a, k) => float(a).powi(k),
        NumOp::Sqrt(a) => float(a).sqrt(),
        NumOp::Exp(a) => float(a).exp(),
        NumOp::Ln(a) => float(a).ln(),
        NumOp::Log10(a) => float(a).log10(),
        NumOp::Sin(a) => float(a).sin(),
        NumOp::Cos(a) => float(a).cos(),
        NumOp::Tan(a) => float(a).tan(),
        NumOp::Asin(a) => float(a).asin(),
        NumOp::Acos(a) => float(a).acos(),
        NumOp::Atan(a) => float(a).atan(),
    })
}

fn numbers(cells: &[Option<f64>]) -> Column {
    Column {
        kind: ColumnKind::Float64,
        cells: cells
            .iter()
            .map(|c| match c {
                Some(x) => Cell::Number(num(*x)),
                None => Cell::Null,
            })
            .collect(),
    }
}

fn texts(cells: &[Option<&str>]) -> Column {
    Column {
        kind: ColumnKind::Utf8,
        cells: cells
            .iter()
            .map(|c| match c {
                Some(s) => Cell::Text(s.to_string()),
                None => Cell::Null,
            })
            .collect(),
    }
}

fn batch(columns: Vec<(&str, Column)>) -> Batch {
    let mut fields = Vec::new();
    let mut data = Vec::new();
    for (name, column) in columns {
        fields.push(Field { name: name.to_string(), kind: column.kind.clone() });
        data.push(column);
    }
    Batch::try_new(fields, data).unwrap()
}

fn read(text: String) -> Number {
    num(text.parse::<f64>().unwrap())
}

fn parsed(text: &str) -> Expr {
    parse(text, &read).unwrap()
}

fn create_mock_dataset() -> Dataset {
    let mut dataset = Dataset::new();
    dataset.batches.push(batch(vec![
        ("X", numbers(&[Some(10.0), Some(20.0), None, Some(99.0)])),
        ("Y", numbers(&[Some(2.0), Some(0.0), Some(5.0), Some(4.0)])),
        ("S", texts(&[Some("apple"), Some("banana"), None, Some("pear")])),
    ]));
    let mut x_var = Variable::numeric("X");
    x_var.missing.discrete.push(num(99.0));
    dataset.add_variable(x_var);
    dataset.add_variable(Variable::numeric("Y"));
    dataset.add_variable(Variable::string("S", 10));
    dataset
}

fn eval_at(text: &str, row: usize) -> Value {
    parsed(text).eval(&create_mock_dataset(), 0, row, &calc)
}

fn number(x: f64) -> Value {
    Value::Numeric(num(x))
}

fn literal(x: f64) -> Box<Expr> {
    Box::new(Expr::Value(number(x)))
}

fn named(name: &str) -> Box<Expr> {
    Box::new(Expr::Variable(name.to_string()))
}

#[test]
fn test_parser_basic() {
    assert_eq!(
        parsed("1 + 2 * 3"),
        Expr::Binary(
            BinaryOp::Add,
            literal(1.0),
            Box::new(Expr::Binary(BinaryOp::Mul, literal(2.0), literal(3.0)))
        )
    );
    assert_eq!(
        parsed("2 ** 3 ** 2"),
        Expr::Binary(
            BinaryOp::Pow,
            literal(2.0),
            Box::new(Expr::Binary(BinaryOp::Pow, literal(3.0), literal(2.0)))
        )
    );
    assert_eq!(parsed("-X"), Expr::Unary(UnaryOp::Neg, named("X")));
}

#[test]
fn test_parser_logical() {
    assert_eq!(
        parsed("X > 5 AND Y < 10"),
        Expr::Binary(
            BinaryOp::And,
            Box::new(Expr::Binary(BinaryOp::Gt, named("X"), literal(5.0))),
            Box::new(Expr::Binary(BinaryOp::Lt, named("Y"), literal(10.0)))
        )
    );
}

#[test]
fn test_eval_basic() {
    assert_eq!(eval_at("X + Y", 0), number(12.0));
    assert_eq!(eval_at("X / Y", 0), number(5.0));
    assert_eq!(eval_at("X / Y", 1), Value::SystemMissing);
    assert_eq!(eval_at("S = 'apple'", 0), number(1.0));
    assert_eq!(eval_at("S = 'apple'", 1), number(0.0));
}

#[test]
fn test_eval_missing_values() {
    assert_eq!(eval_at("X + Y", 2), Value::SystemMissing);
    assert_eq!(eval_at("X + Y", 3), Value::SystemMissing);
    assert_eq!(eval_at("VALUE(X) + Y", 3), number(103.0));
    assert_eq!(eval_at("MISSING(X)", 3), number(1.0));
    assert_eq!(eval_at("SYSMIS(X)", 3), number(0.0));
}

#[test]
fn test_eval_date_functions() {
    assert_eq!(eval_at("DATE.DMY(14, 10, 1582)", 0), number(0.0));
    assert_eq!(eval_at("XDATE.YEAR(DATE.DMY(15, 6, 2026))", 0), number(2026.0));
}

#[test]
fn parse_ignores_outer_white_space() {
    assert_eq!(parsed("  X + 1\n"), parsed("X + 1"));
}

#[test]
fn parse_reads_operator_words_and_symbols() {
    let op = |text: &str| match parsed(text) {
        Expr::Binary(op, _, _) => op,
        other => panic!("{:?}", other),
    };
    assert_eq!(op("X EQ Y"), BinaryOp::Eq);
    assert_eq!(op("X ne Y"), BinaryOp::Ne);
    assert_eq!(op("X <= Y"), BinaryOp::Le);
    assert_eq!(op("X GE Y"), BinaryOp::Ge);
    assert_eq!(op("X OR Y"), BinaryOp::Or);
    assert_eq!(op("X - Y"), BinaryOp::Sub);
}

#[test]
fn parse_keeps_names_that_begin_like_operators() {
    assert_eq!(parsed("ORDER"), *named("ORDER"));
    assert_eq!(
        parsed("NOT X"),
        Expr::Unary(UnaryOp::Not, named("X"))
    );
}

#[test]
fn parse_reads_the_minimum_of_valid_arguments() {
    assert_eq!(
        parsed("mean.2(X, Y)"),
        Expr::FunctionCall {
            name: "MEAN".to_string(),
            min_valid: Some(2),
            args: vec![*named("X"), *named("Y")],
        }
    );
}

#[test]
fn parse_refuses_what_is_left_over() {
    assert_eq!(
        parse("1 2", &read).unwrap_err(),
        "Trailing characters: '2'"
    );
    assert!(parse("", &read).is_err());
    assert!(parse("(1", &read).is_err());
}

#[test]
fn missing_propagates_and_logic_is_three_valued() {
    assert_eq!(eval_at("X > 5", 2), Value::SystemMissing);
    assert_eq!(eval_at("(X > 5) AND (Y = 0)", 2), number(0.0));
    assert_eq!(eval_at("(Y = 0) AND (X > 5)", 2), number(0.0));
    assert_eq!(eval_at("(X > 5) OR (Y = 5)", 2), number(1.0));
    assert_eq!(eval_at("(X > 5) OR (Y = 0)", 2), Value::SystemMissing);
    assert_eq!(eval_at("NOT (X > 5)", 2), Value::SystemMissing);
}

#[test]
fn de_morgan_holds_on_values() {
    for row in 0..4 {
        assert_eq!(
            eval_at("NOT ((X > 5) AND (Y > 3))", row),
            eval_at("(NOT (X > 5)) OR (NOT (Y > 3))", row)
        );
    }
}

#[test]
fn functions_of_numbers() {
    assert_eq!(eval_at("ABS(-3)", 0), number(3.0));
    assert_eq!(eval_at("SQRT(16)", 0), number(4.0));
    assert_eq!(eval_at("SQRT(-1)", 0), Value::SystemMissing);
    assert_eq!(eval_at("MOD(7, 4)", 0), number(3.0));
    assert_eq!(eval_at("SUM(X, Y)", 2), number(5.0));
    assert_eq!(eval_at("MEAN(X, Y)", 0), number(6.0));
    assert_eq!(eval_at("MEAN.2(X, Y)", 2), Value::SystemMissing);
    assert_eq!(eval_at("NMISS(X, Y)", 2), number(1.0));
    assert_eq!(eval_at("NVALID(X, Y)", 2), number(1.0));
    assert_eq!(eval_at("MAX(X, Y)", 0), number(10.0));
    assert_eq!(eval_at("SD(1, 3)", 0), number(2.0f64.sqrt()));
    assert_eq!(eval_at("VARIANCE(1, 3)", 0), number(2.0));
}

#[test]
fn functions_of_texts() {
    let text = |s: &str| Value::String(s.to_string());
    assert_eq!(eval_at("UPPER(S)", 0), text("APPLE"));
    assert_eq!(eval_at("UPPER('straße')", 0), text("STRASSE"));
    assert_eq!(eval_at("LOWER('ÄB')", 0), text("äb"));
    assert_eq!(eval_at("CONCAT(S, '!')", 0), text("apple!"));
    assert_eq!(eval_at("SUBSTR(S, 2, 3)", 0), text("ppl"));
    assert_eq!(eval_at("LENGTH(S)", 0), number(5.0));
    assert_eq!(eval_at("INDEX(S, 'p')", 0), number(2.0));
}

#[test]
fn names_may_hold_letters_of_any_script() {
    assert_eq!(parsed("größe + 1"), Expr::Binary(BinaryOp::Add, named("größe"), literal(1.0)));
    assert!(parse("gr€ + 1", &read).is_err());
}

#[test]
fn an_unknown_variable_is_missing() {
    assert_eq!(eval_at("NOWHERE", 0), Value::SystemMissing);
}

#[test]
fn try_eval_gives_no_value_for_a_row_that_is_not_there() {
    let dataset = create_mock_dataset();
    assert!(parsed("X").try_eval(&dataset, 0, 9, &calc).is_none());
    assert_eq!(parsed("X").try_eval(&dataset, 0, 0, &calc), Some(number(10.0)));
}

#[test]
fn dates_and_day_numbers_go_back_and_forth() {
    assert_eq!(days_since_1582_10_14(14, 10, 1582), Some(0));
    for n in [0u64, 1, 17, 18, 78, 79, 100_000, 162_000] {
        let (d, m, y) = date_from_days(n).unwrap();
        assert_eq!(days_since_1582_10_14(d, m, y), Some(n));
    }
    assert!(is_leap_year(2000) && !is_leap_year(1900));
    assert_eq!(days_in_month(2, 2024), 29);
    assert_eq!(days_since_1582_10_14(30, 2, 2024), None);
}

#[test]
fn consecutive_dates_have_consecutive_numbers() {
    assert_eq!(days_since_1582_10_14(31, 10, 1582), Some(17));
    assert_eq!(days_since_1582_10_14(1, 11, 1582), Some(18));
    assert_eq!(days_since_1582_10_14(1, 12, 1582), Some(48));
    assert_eq!(days_since_1582_10_14(31, 12, 1582), Some(78));
    assert_eq!(days_since_1582_10_14(1, 1, 1583), Some(79));
    for n in 0..2000u64 {
        let (d, m, y) = date_from_days(n).unwrap();
        assert_eq!(days_since_1582_10_14(d, m, y), Some(n));
    }
}

#[test]
fn a_date_comes_back_from_its_seconds() {
    assert_eq!(seconds_to_date(num(17.0 * 86400.0), &calc), Some(Some((31, 10, 1582))));
    assert_eq!(seconds_to_date(num(18.0 * 86400.0 + 86399.0), &calc), Some(Some((1, 11, 1582))));
    assert_eq!(seconds_to_date(num(-1.0), &calc), Some(None));
    assert_eq!(eval_at("XDATE.MDAY(DATE.DMY(31, 10, 1582) + 100)", 0), number(31.0));
    assert_eq!(eval_at("XDATE.WKDAY(DATE.DMY(1, 11, 1582))", 0), number(2.0));
    assert_eq!(eval_at("XDATE.WKDAY(DATE.DMY(1, 1, 2000))", 0), number(7.0));
    assert_eq!(eval_at("DATE.DMY(1, 1, 1970)", 0), number(141_428.0 * 86400.0));
}

#[test]
fn index_agrees_with_substr_and_length() {
    assert_eq!(eval_at("INDEX('banana', 'na')", 0), number(3.0));
    assert_eq!(
        eval_at("SUBSTR('banana', INDEX('banana', 'na'), LENGTH('na'))", 0),
        Value::String("na".to_string())
    );
    assert_eq!(eval_at("INDEX('banana', 'x')", 0), number(0.0));
    assert_eq!(eval_at("SUBSTR('banana', 6, 2)", 0), Value::String("a".to_string()));
}

#[test]
fn outer_brackets_leave_no_trace() {
    for s in ["X", "1 + 2 * Y", "MEAN(X, (Y + 1))", "'(a'", "NOT X = 2", "- (X) ** 2"] {
        assert_eq!(parsed(&format!("({s})")), parsed(s));
        assert_eq!(parsed(&format!("  {s}  ")), parsed(s));
        assert!(parse(&format!("{s})"), &read).is_err());
    }
    assert!(parse("(X", &read).is_err());
}
