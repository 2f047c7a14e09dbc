use oxstat::arith::Style;
use oxstat::batch::{Batch, Cell, Column, ColumnKind, Field};
use oxstat::dataset::Dataset;
use oxstat::import::excel::{read_range, Sheet, SheetCell};
use oxstat::import::parquet::{
    parquet_dataset, parquet_metadata, variable_from_metadata,
};
use oxstat::import::schema::csv_dataset;
use oxstat::number::Number;
use oxstat::variable::{MeasureLevel, Variable, VariableType};

fn num(x: f64) -> Number {
    Number::from_bits(x.to_bits())
}

fn show(n: Number, style: Style) -> String {
    match style {
        Style::Plain => format!("{}", f64::from_bits(n.bits)),
        Style::Fixed(d) => format!("{:.1$}", f64::from_bits(n.bits), d as usize),
    }
}

fn text(s: &str) -> SheetCell {
    SheetCell::Text(s.to_string())
}

fn sheet(rows: Vec<Vec<SheetCell>>) -> Sheet {
    Sheet { start_row: 0, start_col: 0, width: rows[0].len(), rows }
}

fn field(name: &str, kind: ColumnKind) -> Field {
    Field { name: name.to_string(), kind }
}

fn words(cells: &[&str]) -> Column {
    Column {
        kind: ColumnKind::Utf8,
        cells: cells.iter().map(|s| Cell::Text(s.to_string())).collect(),
    }
}

fn doubles(cells: &[f64]) -> Column {
    Column {
        kind: ColumnKind::Float64,
        cells: cells.iter().map(|x| Cell::Number(num(*x))).collect(),
    }
}

#[test]
fn a_sheet_becomes_a_dataset() {
    let loaded = read_range(
        &sheet(vec![
            vec![text(" id "), text("name"), SheetCell::Empty, SheetCell::Int(7), text("ok")],
            vec![
                SheetCell::Int(1),
                text("Alice"),
                SheetCell::Float(num(0.5)),
                SheetCell::Empty,
                SheetCell::Bool(true),
            ],
            vec![
                SheetCell::Float(num(2.5)),
                SheetCell::Int(12),
                SheetCell::Bool(true),
                SheetCell::Empty,
                SheetCell::Error("#N/A".to_string()),
            ],
        ]),
        &show,
    )
    .unwrap();
    let found: Vec<&str> = loaded.variables.iter().map(|v| v.name.as_str()).collect();
    assert_eq!(found, vec!["id", "name", "col_2", "7", "ok"]);
    assert_eq!(loaded.n_cases(), 2);
    let types: Vec<VariableType> = loaded.variables.iter().map(|v| v.var_type).collect();
    assert_eq!(
        types,
        vec![
            VariableType::Numeric,
            VariableType::String(5),
            VariableType::Numeric,
            VariableType::String(8),
            VariableType::Numeric,
        ]
    );
    let column = |c: usize| loaded.batches[0].columns[c].cells.clone();
    assert_eq!(column(0), vec![Cell::Number(num(1.0)), Cell::Number(num(2.5))]);
    assert_eq!(
        column(1),
        vec![Cell::Text("Alice".to_string()), Cell::Text("12".to_string())]
    );
    assert_eq!(column(2), vec![Cell::Number(num(0.5)), Cell::Null]);
    assert_eq!(column(3), vec![Cell::Null, Cell::Null]);
    assert_eq!(column(4), vec![Cell::Bool(true), Cell::Null]);
}

#[test]
fn a_sheet_without_data_is_refused() {
    let short = sheet(vec![vec![text("a")]]);
    assert_eq!(read_range(&short, &show).err().unwrap(), "Worksheet has no data or columns");
    let narrow = Sheet { start_row: 0, start_col: 0, width: 0, rows: vec![vec![], vec![]] };
    assert_eq!(read_range(&narrow, &show).err().unwrap(), "Worksheet has no data or columns");
}

#[test]
fn a_range_means_the_same_wherever_it_starts() {
    let rows = || {
        vec![
            vec![text("a"), SheetCell::Empty],
            vec![SheetCell::Int(4), text("x")],
            vec![SheetCell::Empty, text("yz")],
        ]
    };
    let first = read_range(&sheet(rows()), &show).unwrap();
    let moved = Sheet { start_row: 2, start_col: 1, width: 2, rows: rows() };
    let second = read_range(&moved, &show).unwrap();
    for loaded in [&first, &second] {
        let names: Vec<&str> = loaded.variables.iter().map(|v| v.name.as_str()).collect();
        assert_eq!(names, vec!["a", "col_1"]);
        assert_eq!(loaded.variables[1].var_type, VariableType::String(2));
        let columns = &loaded.batches[0].columns;
        assert_eq!(columns[0].cells, vec![Cell::Number(num(4.0)), Cell::Null]);
        assert_eq!(
            columns[1].cells,
            vec![Cell::Text("x".to_string()), Cell::Text("yz".to_string())]
        );
    }
}

#[test]
fn dates_and_durations_are_texts() {
    let loaded = read_range(
        &sheet(vec![
            vec![text("d")],
            vec![SheetCell::DateTime(num(45000.25))],
            vec![SheetCell::DateTimeIso("2024-01-01".to_string())],
            vec![SheetCell::DurationIso("PT1H".to_string())],
        ]),
        &show,
    )
    .unwrap();
    let expected: Vec<Cell> = ["45000.25", "2024-01-01", "PT1H"]
        .iter()
        .map(|s| Cell::Text(s.to_string()))
        .collect();
    assert_eq!(loaded.batches[0].columns[0].cells, expected);
    assert_eq!(loaded.variables[0].var_type, VariableType::String(10));
}

#[test]
fn csv_variables_are_inferred_from_the_columns() {
    let fields = vec![
        field("id", ColumnKind::Int64),
        field("name", ColumnKind::Utf8),
        field("score", ColumnKind::Float64),
    ];
    let ids = Column {
        kind: ColumnKind::Int64,
        cells: vec![Cell::Integer(1), Cell::Integer(2), Cell::Integer(3)],
    };
    let batch = Batch::try_new(
        vec![
            field("id", ColumnKind::Int64),
            field("name", ColumnKind::Utf8),
            field("score", ColumnKind::Float64),
        ],
        vec![ids, words(&["Alice", "Bob", "Charlie"]), doubles(&[95.5, 88.0, 92.3])],
    )
    .unwrap();
    let dataset = csv_dataset(&fields, vec![batch]);
    assert_eq!(dataset.n_variables(), 3);
    assert_eq!(dataset.n_cases(), 3);
    let var_id = dataset.variable("id").unwrap();
    assert_eq!(var_id.var_type, VariableType::Numeric);
    assert_eq!(var_id.measure, MeasureLevel::Scale);
    let var_name = dataset.variable("name").unwrap();
    assert_eq!(var_name.var_type, VariableType::String(7));
    assert_eq!(var_name.measure, MeasureLevel::Nominal);
    let var_score = dataset.variable("score").unwrap();
    assert_eq!(var_score.var_type, VariableType::Numeric);
    assert_eq!(var_score.measure, MeasureLevel::Scale);
}

#[test]
fn texts_without_characters_have_the_default_width() {
    let fields = vec![field("t", ColumnKind::LargeUtf8)];
    let dataset = csv_dataset(&fields, Vec::new());
    assert_eq!(dataset.variables[0].var_type, VariableType::String(8));
}

fn scores() -> Dataset {
    let mut dataset = Dataset::new();
    dataset.batches.push(
        Batch::try_new(vec![field("score", ColumnKind::Float64)], vec![doubles(&[99.0, 88.0])])
            .unwrap(),
    );
    let mut var = Variable::numeric("score");
    var.label = Some("Test Score".to_string());
    var.missing.discrete.push(num(-1.0));
    var.value_labels.insert(99, "top".to_string());
    dataset.add_variable(var);
    dataset
}

#[test]
fn metadata_comes_back_with_the_columns() {
    let mut dataset = scores();
    let metadata = parquet_metadata(&dataset).unwrap();
    let fields = vec![field("score", ColumnKind::Float64)];
    let batches = std::mem::take(&mut dataset.batches);
    let loaded = parquet_dataset(&fields, metadata, batches);
    assert_eq!(loaded.n_variables(), 1);
    assert_eq!(loaded.n_cases(), 2);
    let var_loaded = loaded.variable("score").unwrap();
    assert_eq!(var_loaded.label, Some("Test Score".to_string()));
    assert!(var_loaded.missing.is_user_missing(num(-1.0)));
    assert_eq!(var_loaded.value_labels.get(&99), Some(&"top".to_string()));
}

#[test]
fn a_text_comes_back_with_its_width() {
    let mut dataset = Dataset::new();
    dataset.batches.push(
        Batch::try_new(vec![field("t", ColumnKind::Utf8)], vec![words(&["abc"])]).unwrap(),
    );
    dataset.add_variable(Variable::string("t", 300));
    let mut metadata = parquet_metadata(&dataset).unwrap();
    let var = variable_from_metadata(
        &field("t", ColumnKind::Utf8),
        metadata.pop().unwrap().unwrap(),
    );
    assert_eq!(var.var_type, VariableType::String(300));
    assert_eq!(var.print_width, 44);
}

#[test]
fn a_text_whose_width_was_not_kept_has_its_display_width() {
    let mut metadata = parquet_metadata(&scores()).unwrap().pop().unwrap().unwrap();
    assert_eq!(metadata.width, None);
    metadata.print_width = 12;
    let var = variable_from_metadata(&field("t", ColumnKind::Utf8), metadata);
    assert_eq!(var.var_type, VariableType::String(12));
}

#[test]
fn a_field_without_metadata_is_inferred() {
    let batch =
        Batch::try_new(vec![field("t", ColumnKind::Utf8)], vec![words(&["abc", "de"])]).unwrap();
    let loaded = parquet_dataset(&vec![field("t", ColumnKind::Utf8)], vec![None], vec![batch]);
    assert_eq!(loaded.variables[0].var_type, VariableType::String(3));
    let none = parquet_dataset(&vec![field("t", ColumnKind::Utf8)], vec![None], Vec::new());
    assert_eq!(none.variables[0].var_type, VariableType::String(8));
}

#[test]
fn a_dataset_without_batches_is_not_written() {
    let empty = Dataset::new();
    assert_eq!(parquet_metadata(&empty).err().unwrap(), "Dataset has no record batches");
    let mut uneven = scores();
    uneven.batches.push(
        Batch::try_new(vec![field("score", ColumnKind::Utf8)], vec![words(&["x"])]).unwrap(),
    );
    assert_eq!(
        parquet_metadata(&uneven).err().unwrap(),
        "Invalid argument error: column types must match schema types, expected Float64 but found Utf8 at column index 0"
    );
}
