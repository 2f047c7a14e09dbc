use oxstat::arith::{NumOp, Style};
use oxstat::batch::{Batch, Cell, Column, ColumnKind, Field};
use oxstat::dataset::Dataset;
use oxstat::descriptives::{
    extract_f64_values, format_val, run, try_run, DescriptivesOptions, Statistic,
};
use oxstat::number::Number;
use oxstat::output::{render_text, OutputItem, Table};
use oxstat::variable::Variable;

fn num(x: f64) -> Number {
    Number::from_bits(x.to_bits())
}

fn float(n: Number) -> f64 {
    f64::from_bits(n.bits)
}

fn calc(op: NumOp) -> Number {
    num(match op {
        NumOp::EmptySum => std::iter::empty::<f64>().sum(),
        NumOp::Add(a, b) => float(a) + float(b),
        NumOp::Sub(a, b) => float(a) - float(b),
        NumOp::Mul(a, b) => float(a) * float(b),
        NumOp::Div(a, b) => float(a) / float(b),
        NumOp::Rem(a, b) => float(a) % float(b),
        NumOp::Pow(a, b) => float(a).powf(float(b)),
        NumOp::PowInt(a, k) => float(a).powi(k),
        NumOp::Sqrt(a) => float(a).sqrt(),
        NumOp::Exp(a) => float(a).exp(),
        NumOp::Ln(a) => float(a).ln(),
        NumOp::Log10(a) => float(a).log10(),
        NumOp::Sin(a) => float(a).sin(),
        NumOp::Cos(a) => float(a).cos(),
        NumOp::Tan(a) => float(a).tan(),
        NumOp::Asin(a) => float(a).asin(),
        NumOp::Acos(a) => float(a).acos(),
        NumOp::Atan(a) => float(a).atan(),
    })
}

fn numbers(cells: &[Option<f64>]) -> Column {
    Column {
        kind: ColumnKind::Float64,
        cells: cells
            .iter()
            .map(|c| match c {
                Some(x) => Cell::Number(num(*x)),
                None => Cell::Null,
            })
            .collect(),
    }
}

fn texts(cells: &[Option<&str>]) -> Column {
    Column {
        kind: ColumnKind::Utf8,
        cells: cells
            .iter()
            .map(|c| match c {
                Some(s) => Cell::Text(s.to_string()),
                None => Cell::Null,
            })
            .collect(),
    }
}

fn batch(columns: Vec<(&str, Column)>) -> Batch {
    let mut fields = Vec::new();
    let mut data = Vec::new();
    for (name, column) in columns {
        fields.push(Field { name: name.to_string(), kind: column.kind.clone() });
        data.push(column);
    }
    Batch::try_new(fields, data).unwrap()
}

fn show(n: Number, style: Style) -> String {
    match style {
        Style::Plain => format!("{}", float(n)),
        Style::Fixed(d) => format!("{:.1$}", float(n), d as usize),
    }
}

fn table_of(dataset: &Dataset, options: &DescriptivesOptions) -> Table {
    let output = run(dataset, options, &calc, &show);
    assert_eq!(output.len(), 1);
    match output.into_iter().next().unwrap() {
        OutputItem::Table(table) => table,
        other => panic!("{:?}", other),
    }
}

#[test]
fn test_descriptives_calculations() {
    let mut dataset = Dataset::new();
    dataset.batches.push(batch(vec![(
        "x",
        numbers(&[Some(1.0), Some(2.0), Some(3.0), Some(4.0), Some(5.0)]),
    )]));
    let mut var = Variable::numeric("x");
    var.print_decimals = 2;
    dataset.add_variable(var);

    let options = DescriptivesOptions {
        variables: vec!["x".to_string()],
        statistics: vec![
            Statistic::Mean,
            Statistic::StdDev,
            Statistic::Min,
            Statistic::Max,
            Statistic::Sum,
            Statistic::Variance,
            Statistic::Skewness,
            Statistic::Kurtosis,
        ],
    };

    let output = run(&dataset, &options, &calc, &show);
    assert_eq!(output.len(), 1);

    if let OutputItem::Table(table) = &output[0] {
        assert_eq!(table.rows.len(), 1);
        let row = &table.rows[0];
        assert_eq!(row[0], "x");
        assert_eq!(row[1], "5");
        assert_eq!(row[2], "3.00");
        assert_eq!(row[3], "1.58");
        assert_eq!(row[4], "1.00");
        assert_eq!(row[5], "5.00");
        assert_eq!(row[6], "15.00");
        assert_eq!(row[7], "2.50");
        assert_eq!(row[8], "0.000");
        assert_eq!(row[9], "-1.200");
    } else {
        panic!("Expected OutputItem::Table");
    }
}

#[test]
fn all_numeric_variables_are_the_default() {
    let mut dataset = Dataset::new();
    dataset.batches.push(batch(vec![
        ("a", numbers(&[Some(1.0), Some(9.0), None])),
        ("s", texts(&[Some("x"), Some("y"), None])),
        ("b", numbers(&[Some(4.0), Some(6.0), Some(8.0)])),
    ]));
    let mut a = Variable::numeric("a");
    a.label = Some("First".to_string());
    a.missing.discrete.push(num(9.0));
    dataset.add_variable(a);
    dataset.add_variable(Variable::string("s", 1));
    dataset.add_variable(Variable::numeric("b"));
    let table = table_of(&dataset, &DescriptivesOptions::default());
    assert_eq!(
        table.column_headers,
        vec!["Variable", "N", "Mean", "Std. Deviation", "Minimum", "Maximum"]
    );
    assert_eq!(table.rows[0], vec!["First", "1", "1.00", ".", "1.00", "1.00"]);
    assert_eq!(table.rows[1], vec!["b", "3", "6.00", "2.00", "4.00", "8.00"]);
    assert_eq!(table.footnotes, vec!["Valid N (listwise) = 1"]);
}

#[test]
fn names_that_are_not_there_are_passed_over() {
    let mut dataset = Dataset::new();
    dataset.batches.push(batch(vec![("a", numbers(&[None]))]));
    dataset.add_variable(Variable::numeric("a"));
    let options = DescriptivesOptions {
        variables: vec!["nowhere".to_string(), "A".to_string()],
        statistics: vec![Statistic::Sum, Statistic::Range],
    };
    let table = table_of(&dataset, &options);
    assert_eq!(table.rows, vec![vec!["a", "0", &show(calc(NumOp::EmptySum), Style::Fixed(2)), "."]]);
    assert_eq!(table.footnotes, vec!["Valid N (listwise) = 0"]);
}

#[test]
fn columns_of_other_types_are_read_as_numbers() {
    let column = |kind: ColumnKind, cells: Vec<Cell>| Column { kind, cells };
    let ints = column(ColumnKind::Int64, vec![Cell::Integer(-7), Cell::Null]);
    assert_eq!(extract_f64_values(&ints), vec![Some(num(-7.0)), None]);
    let truths = column(ColumnKind::Boolean, vec![Cell::Bool(true), Cell::Bool(false)]);
    assert_eq!(extract_f64_values(&truths), vec![Some(num(1.0)), Some(num(0.0))]);
    let words = column(
        ColumnKind::Utf8,
        vec![
            Cell::Text("2.5".to_string()),
            Cell::Text("two".to_string()),
            Cell::Text("1e3".to_string()),
            Cell::Null,
        ],
    );
    assert_eq!(
        extract_f64_values(&words),
        vec![Some(num(2.5)), None, Some(num(1000.0)), None]
    );
}

#[test]
fn skewness_and_kurtosis_of_uneven_numbers() {
    let mut dataset = Dataset::new();
    dataset.batches.push(batch(vec![(
        "x",
        numbers(&[Some(1.0), Some(1.0), Some(1.0), Some(5.0)]),
    )]));
    dataset.add_variable(Variable::numeric("x"));
    let options = DescriptivesOptions {
        variables: Vec::new(),
        statistics: vec![Statistic::Skewness, Statistic::Kurtosis, Statistic::Range],
    };
    let table = table_of(&dataset, &options);
    assert_eq!(table.rows[0], vec!["x", "4", "2.000", "4.000", "4.00"]);
}

#[test]
fn a_batch_without_the_column_is_told_apart() {
    let mut dataset = Dataset::new();
    dataset.batches.push(batch(vec![("a", numbers(&[Some(1.0)]))]));
    dataset.add_variable(Variable::numeric("a"));
    dataset.add_variable(Variable::numeric("b"));
    let options = DescriptivesOptions::default();
    assert!(try_run(&dataset, &options, &calc, &show).is_none());
    dataset.variables.pop();
    let mut other = Dataset::new();
    other.batches.push(batch(vec![("a", numbers(&[Some(1.0)]))]));
    other.add_variable(Variable::numeric("a"));
    assert!(try_run(&other, &options, &calc, &show).is_some());
}

#[test]
fn values_that_are_not_numbers_are_points() {
    assert_eq!(format_val(num(f64::NAN), 2, &show), ".");
    assert_eq!(format_val(num(1.005), 1, &show), "1.0");
}

#[test]
fn items_are_rendered_as_text() {
    let items = vec![
        OutputItem::Title("Überschrift".to_string()),
        OutputItem::Text("note".to_string()),
        OutputItem::Table(Table {
            title: "T".to_string(),
            column_headers: vec!["a".to_string(), "b".to_string()],
            rows: vec![vec!["1".to_string(), "2".to_string()]],
            footnotes: vec!["f".to_string()],
        }),
        OutputItem::Chart { chart_type: "bar".to_string(), data: "d".to_string() },
    ];
    assert_eq!(
        render_text(&items),
        "\nÜberschrift\n============\nnote\n\nT\na\tb\n---\n1\t2\n  * f\n[Chart: bar]\n"
    );
    let parts = format!("{}{}", render_text(&items[0..2]), render_text(&items[2..4]));
    assert_eq!(render_text(&items), parts);
}
