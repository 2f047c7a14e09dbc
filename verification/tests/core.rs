use oxstat::batch::{Batch, Cell, Column, ColumnKind, Field};
use oxstat::dataset::Dataset;
use oxstat::number::Number;
use oxstat::text;
use oxstat::text_order::sort_texts;
use oxstat::value::Value;
use oxstat::variable::{MeasureLevel, ValueLabels, Variable, VariableType};

fn num(x: f64) -> Number {
    Number::from_bits(x.to_bits())
}

fn doubles(cells: &[f64]) -> Column {
    Column {
        kind: ColumnKind::Float64,
        cells: cells.iter().map(|x| Cell::Number(num(*x))).collect(),
    }
}

fn field(name: &str) -> Field {
    Field { name: name.to_string(), kind: ColumnKind::Float64 }
}

fn samples() -> Vec<f64> {
    vec![
        0.0,
        -0.0,
        1.0,
        -1.0,
        0.5,
        -2.75,
        255.9,
        1e18,
        -1e18,
        1e19,
        4.9e-324,
        f64::MAX,
        f64::MIN,
        f64::INFINITY,
        f64::NEG_INFINITY,
        f64::NAN,
    ]
}

#[test]
fn numbers_agree_with_doubles() {
    for a in samples() {
        let x = num(a);
        assert_eq!(x.is_nan(), a.is_nan());
        assert_eq!(x.is_infinite(), a.is_infinite());
        assert_eq!(x.to_i64(), a as i64);
        assert_eq!(x.to_u64(), a as u64);
        assert_eq!(x.to_u32(), a as u32);
        assert_eq!(x.negate().bits, (-a).to_bits());
        assert_eq!(x.abs().bits, a.abs().to_bits());
        for b in samples() {
            let y = num(b);
            assert_eq!(x.is_equal(&y), a == b);
            assert_eq!(x.is_below(&y), a < b);
            assert_eq!(x.is_at_most(&y), a <= b);
            assert_eq!(x.total_key() < y.total_key(), a.total_cmp(&b).is_lt());
        }
    }
}

#[test]
fn integers_become_the_nearest_double() {
    for n in [0i64, 1, -1, 7, 1 << 53, (1 << 53) + 1, (1 << 53) + 3, i64::MAX, i64::MIN] {
        assert_eq!(Number::from_i64(n).bits, (n as f64).to_bits());
    }
    for n in [0u128, 5, u64::MAX as u128, u128::MAX, (1u128 << 100) + 12345] {
        assert_eq!(Number::from_u128(n).bits, (n as f64).to_bits());
    }
}

#[test]
fn white_space_is_that_of_std() {
    for u in 0..0x3100u32 {
        if let Some(c) = char::from_u32(u) {
            assert_eq!(text::is_white(c), c.is_whitespace());
        }
    }
}

#[test]
fn texts_are_trimmed_split_and_joined() {
    assert_eq!(text::trim("\t a b \n"), "\t a b \n".trim());
    assert_eq!(text::trim_end("  x \u{2003}"), "  x");
    let parts = text::split("a;b;;c", ';');
    assert_eq!(parts, vec!["a", "b", "", "c"]);
    assert_eq!(text::join(&parts, ";"), "a;b;;c");
    assert_eq!(text::decimal_of(1_234_567_890_123), "1234567890123");
    assert_eq!(text::decimal_of_int(i64::MIN), i64::MIN.to_string());
    assert_eq!(text::len_of("Zürich"), 7);
    assert_eq!(text::find_text("Zürich", "rich"), "Zürich".find("rich"));
    assert_eq!(text::find_text("abc", "x"), None);
}

#[test]
fn texts_are_ordered_by_code_points() {
    let list: Vec<String> = ["b", "a", "", "ä", "ab", "Z", "b"].iter().map(|s| s.to_string()).collect();
    let mut expected = list.clone();
    expected.sort();
    assert_eq!(sort_texts(&list), expected);
}

#[test]
fn values_are_missing_or_numbers() {
    assert!(Value::SystemMissing.is_missing());
    assert!(!Value::Numeric(num(1.0)).is_missing());
    assert_eq!(Value::Numeric(num(1.5)).as_f64(), Some(num(1.5)));
    assert_eq!(Value::String("x".to_string()).as_f64(), None);
    assert!(Value::Numeric(num(0.0)) == Value::Numeric(num(-0.0)));
    assert!(Value::Numeric(num(f64::NAN)) != Value::Numeric(num(f64::NAN)));
}

#[test]
fn variables_have_the_defaults_of_their_type() {
    let n = Variable::numeric("age");
    assert_eq!(n.var_type, VariableType::Numeric);
    assert_eq!((n.print_width, n.print_decimals), (8, 2));
    assert_eq!(n.measure, MeasureLevel::Scale);
    let s = Variable::string("name", 260);
    assert_eq!(s.var_type, VariableType::String(260));
    assert_eq!((s.print_width, s.print_decimals), (4, 0));
    assert_eq!(s.measure, MeasureLevel::Nominal);
}

#[test]
fn user_missing_values_are_discrete_or_in_a_range() {
    let mut var = Variable::numeric("x");
    var.missing.discrete.push(num(99.0));
    assert!(var.missing.is_user_missing(num(99.0)));
    assert!(!var.missing.is_user_missing(num(98.0)));
    var.missing.range = Some((num(-9.0), num(-1.0)));
    assert!(var.missing.is_user_missing(num(-9.0)));
    assert!(var.missing.is_user_missing(num(-1.0)));
    assert!(!var.missing.is_user_missing(num(0.0)));
    assert!(!var.missing.is_user_missing(num(f64::NAN)));
}

#[test]
fn a_label_replaces_the_one_of_its_value() {
    let mut labels = ValueLabels::new();
    assert!(labels.is_empty());
    labels.insert(1, "one".to_string());
    labels.insert(2, "two".to_string());
    labels.insert(1, "uno".to_string());
    assert_eq!(labels.len(), 2);
    assert_eq!(labels.get(&1), Some(&"uno".to_string()));
    assert_eq!(labels.get(&3), None);
}

#[test]
fn names_are_found_in_any_case() {
    let mut dataset = Dataset::new();
    dataset.add_variable(Variable::numeric("Straße"));
    dataset.add_variable(Variable::numeric("B"));
    dataset.add_variable(Variable::numeric("b"));
    assert_eq!(dataset.n_variables(), 3);
    assert_eq!(dataset.variable_index("STRASSE"), Some(0));
    assert_eq!(dataset.variable_index("b"), Some(2));
    assert_eq!(dataset.variable_index("C"), None);
    assert_eq!(dataset.variable("straße").unwrap().name, "Straße");
}

fn one_batch() -> Dataset {
    let mut dataset = Dataset::new();
    dataset.batches.push(Batch::try_new(vec![field("A")], vec![doubles(&[1.0, 2.0])]).unwrap());
    dataset.add_variable(Variable::numeric("A"));
    dataset
}

#[test]
fn a_column_is_inserted_or_replaced() {
    let mut dataset = one_batch();
    dataset
        .insert_or_replace_column("B", Variable::numeric("B"), vec![doubles(&[3.0, 4.0])])
        .unwrap();
    assert_eq!(dataset.n_variables(), 2);
    assert_eq!(dataset.batches[0].columns.len(), 2);
    assert_eq!(dataset.batches[0].fields[1].name, "B");
    dataset
        .insert_or_replace_column("a", Variable::numeric("a"), vec![doubles(&[5.0, 6.0])])
        .unwrap();
    assert_eq!(dataset.n_variables(), 2);
    assert_eq!(dataset.variables[0].name, "a");
    assert_eq!(dataset.batches[0].columns[0].cells, doubles(&[5.0, 6.0]).cells);
}

#[test]
fn a_column_of_another_length_is_refused() {
    let mut dataset = one_batch();
    let r = dataset.insert_or_replace_column("B", Variable::numeric("B"), vec![doubles(&[3.0])]);
    assert_eq!(
        r.err().unwrap(),
        "Invalid argument error: all columns in a record batch must have the same length"
    );
    let none = dataset.try_insert_or_replace_column("C", Variable::numeric("C"), Vec::new());
    assert!(none.is_none());
    assert_eq!(dataset.variable_index("C"), None);
}

#[test]
fn a_batch_needs_columns_of_the_fields() {
    assert_eq!(
        Batch::try_new(vec![field("A")], Vec::new()).err().unwrap(),
        "Invalid argument error: number of columns(0) must match number of fields(1) in schema"
    );
    assert_eq!(
        Batch::try_new(Vec::new(), Vec::new()).err().unwrap(),
        "Invalid argument error: must either specify a row count or at least one column"
    );
}

#[test]
fn numbers_are_rounded_to_integers() {
    let values = [
        0.0,
        -0.0,
        0.49999999999999994,
        0.5,
        -0.5,
        1.5,
        2.5,
        -2.5,
        -2.7,
        2.7,
        250.99999999,
        5e-324,
        -1e-300,
        4503599627370495.5,
        -4503599627370495.5,
        4503599627370496.0,
        1e300,
        f64::INFINITY,
        f64::NEG_INFINITY,
    ];
    for x in values {
        let n = Number::from_bits(x.to_bits());
        assert_eq!(n.round().bits, x.round().to_bits());
        assert_eq!(n.trunc().bits, x.trunc().to_bits());
        assert_eq!(n.floor().bits, x.floor().to_bits());
    }
    assert!(Number::from_bits(f64::NAN.to_bits()).round().is_nan());
    assert_eq!(Number::from_bits((-3.0f64).to_bits()).to_whole(), Some(-3));
    assert_eq!(Number::from_bits(3.5f64.to_bits()).to_whole(), None);
    assert_eq!(Number::from_bits((-0.0f64).to_bits()).to_whole(), None);
    assert_eq!(Number::from_bits(9007199254740992.0f64.to_bits()).to_whole(), None);
}
