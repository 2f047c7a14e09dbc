use oxstat::arith::NumOp;
use oxstat::batch::{Batch, Cell, Column, ColumnKind, Field};
use oxstat::dataset::Dataset;
use oxstat::number::Number;
use oxstat::sav::bytes::{read_i32, read_string, ByteReader, SavError};
use oxstat::sav::reader::{read_sav, CompressedReader};
use oxstat::sav::writer::{try_write_sav, write_sav, CompressedWriter};
use oxstat::transform::rows::get_cell_value;
use oxstat::value::Value;
use oxstat::variable::{MeasureLevel, Variable};

fn num(x: f64) -> Number {
    Number::from_bits(x.to_bits())
}

fn float(n: Number) -> f64 {
    f64::from_bits(n.bits)
}

fn calc(op: NumOp) -> Number {
    num(match op {
        NumOp::EmptySum => std::iter::empty::<f64>().sum(),
        NumOp::Add(a, b) => float(a) + float(b),
        NumOp::Sub(a, b) => float(a) - float(b),
        NumOp::Mul(a, b) => float(a) * float(b),
        NumOp::Div(a, b) => float(a) / float(b),
        NumOp::Rem(a, b) => float(a) % float(b),
        NumOp::Pow(a, b) => float(a).powf(float(b)),
        NumOp::PowInt(a, k) => float(a).powi(k),
        NumOp::Sqrt(a) => float(a).sqrt(),
        NumOp::Exp(a) => float(a).exp(),
        NumOp::Ln(a) => float(a).ln(),
        NumOp::Log10(a) => float(a).log10(),
        NumOp::Sin(a) => float(a).sin(),
        NumOp::Cos(a) => float(a).cos(),
        NumOp::Tan(a) => float(a).tan(),
        NumOp::Asin(a) => float(a).asin(),
        NumOp::Acos(a) => float(a).acos(),
        NumOp::Atan(a) => float(a).atan(),
    })
}

fn numbers(cells: &[Option<f64>]) -> Column {
    Column {
        kind: ColumnKind::Float64,
        cells: cells
            .iter()
            .map(|c| match c {
                Some(x) => Cell::Number(num(*x)),
                None => Cell::Null,
            })
            .collect(),
    }
}

fn texts(cells: &[Option<&str>]) -> Column {
    Column {
        kind: ColumnKind::Utf8,
        cells: cells
            .iter()
            .map(|c| match c {
                Some(s) => Cell::Text(s.to_string()),
                None => Cell::Null,
            })
            .collect(),
    }
}

fn batch(columns: Vec<(&str, Column)>) -> Batch {
    let mut fields = Vec::new();
    let mut data = Vec::new();
    for (name, column) in columns {
        fields.push(Field { name: name.to_string(), kind: column.kind.clone() });
        data.push(column);
    }
    Batch::try_new(fields, data).unwrap()
}

fn patched(mut data: Vec<u8>, at: usize, part: &[u8]) -> Vec<u8> {
    data[at..at + part.len()].copy_from_slice(part);
    data
}

fn create_scores() -> Dataset {
    let mut dataset = Dataset::new();
    dataset.batches.push(batch(vec![("score", numbers(&[Some(85.0), Some(92.0)]))]));
    let mut var = Variable::numeric("score");
    var.label = Some("Math Score".to_string());
    dataset.add_variable(var);
    dataset
}

fn create_mixed() -> Dataset {
    let mut dataset = Dataset::new();
    dataset.batches.push(batch(vec![
        ("answer", numbers(&[Some(1.0), Some(-99.0), None])),
        ("a_longer_variable_name", numbers(&[Some(0.125), Some(1e300), Some(-3.0)])),
        ("city", texts(&[Some("Berlin"), Some("a town with a long name"), None])),
    ]));
    dataset.batches.push(batch(vec![
        ("answer", numbers(&[Some(151.0), Some(152.0)])),
        ("a_longer_variable_name", numbers(&[Some(f64::MAX), Some(7.5)])),
        ("city", texts(&[Some("Zürich"), Some("")])),
    ]));
    let mut answer = Variable::numeric("answer");
    answer.label = Some("The answer".to_string());
    answer.value_labels.insert(1, "yes".to_string());
    answer.value_labels.insert(2, "no".to_string());
    answer.missing.discrete.push(num(-99.0));
    answer.missing.range = Some((num(-5.0), num(-1.0)));
    answer.print_decimals = 0;
    answer.measure = MeasureLevel::Nominal;
    dataset.add_variable(answer);
    dataset.add_variable(Variable::numeric("a_longer_variable_name"));
    dataset.add_variable(Variable::string("city", 24));
    dataset
}

fn codes_of(data: &[u8]) -> usize {
    let end = [0xE7u8, 0x03, 0, 0, 0, 0, 0, 0];
    (0..data.len() - 8).rev().find(|&i| data[i..i + 8] == end).unwrap() + 8
}

#[test]
fn test_sav_read_write() {
    let dataset = create_scores();
    let data = write_sav(&dataset, &calc);
    let loaded = read_sav(data, &calc).unwrap();
    assert_eq!(loaded.n_variables(), 1);
    assert_eq!(loaded.n_cases(), 2);
    let var_loaded = loaded.variable("score").unwrap();
    assert_eq!(var_loaded.label, Some("Math Score".to_string()));
}

#[test]
fn what_was_written_is_read_back() {
    let dataset = create_mixed();
    let loaded = read_sav(write_sav(&dataset, &calc), &calc).unwrap();
    assert_eq!(loaded.n_cases(), 5);
    let found: Vec<&str> = loaded.variables.iter().map(|v| v.name.as_str()).collect();
    assert_eq!(found, vec!["ANSWER", "a_longer_variable_name", "CITY"]);
    let answer = loaded.variable("answer").unwrap();
    assert_eq!(answer.label, Some("The answer".to_string()));
    assert_eq!(answer.value_labels.get(&1), Some(&"yes".to_string()));
    assert_eq!(answer.value_labels.get(&2), Some(&"no".to_string()));
    assert_eq!(answer.value_labels.get(&3), None);
    assert!(answer.missing.is_user_missing(num(-99.0)));
    assert!(answer.missing.is_user_missing(num(-2.0)));
    assert!(!answer.missing.is_user_missing(num(1.0)));
    let cell = |r: usize, c: usize| get_cell_value(&loaded, 0, r, c);
    assert_eq!(cell(0, 0), Value::Numeric(num(1.0)));
    assert_eq!(cell(1, 0), Value::SystemMissing);
    assert_eq!(cell(2, 0), Value::SystemMissing);
    assert_eq!(cell(3, 0), Value::Numeric(num(151.0)));
    assert_eq!(cell(4, 0), Value::Numeric(num(152.0)));
    assert_eq!(cell(0, 1), Value::Numeric(num(0.125)));
    assert_eq!(cell(1, 1), Value::Numeric(num(1e300)));
    assert_eq!(cell(2, 1), Value::Numeric(num(-3.0)));
    assert_eq!(cell(0, 2), Value::String("Berlin".to_string()));
    assert_eq!(cell(1, 2), Value::String("a town with a long name".to_string()));
    assert_eq!(cell(3, 2), Value::String("Zürich".to_string()));
}

#[test]
fn the_file_starts_with_its_header() {
    let data = write_sav(&create_scores(), &calc);
    assert_eq!(&data[0..4], b"$FL2");
    assert_eq!(&data[64..68], &[2, 0, 0, 0]);
    assert_eq!(&data[80..84], &[2, 0, 0, 0]);
    assert_eq!(&data[84..92], &100.0f64.to_le_bytes());
    let at = codes_of(&data);
    assert_eq!(&data[at..at + 3], &[185, 192, 252]);
}

#[test]
fn text_that_is_not_utf8_is_replaced() {
    let data = write_sav(&create_scores(), &calc);
    let at = (0..data.len()).find(|&i| data[i..].starts_with(b"Math")).unwrap();
    let loaded = read_sav(patched(data, at, &[0xFF]), &calc).unwrap();
    assert_eq!(loaded.variables[0].label, Some("\u{FFFD}ath Score".to_string()));
}

#[test]
fn a_file_that_is_cut_is_refused() {
    let data = write_sav(&create_scores(), &calc);
    assert_eq!(read_sav(Vec::new(), &calc).err(), Some(SavError::UnexpectedEof));
    assert_eq!(read_sav(data[0..180].to_vec(), &calc).err(), Some(SavError::UnexpectedEof));
}

#[test]
fn a_header_that_is_not_known_is_refused() {
    let data = write_sav(&create_scores(), &calc);
    assert_eq!(
        read_sav(patched(data.clone(), 0, b"$XYZ"), &calc).err(),
        Some(SavError::InvalidHeader)
    );
    let error = read_sav(patched(data, 64, &[7, 0, 0, 0]), &calc).err().unwrap();
    assert_eq!(error, SavError::InvalidLayout(7));
    assert_eq!(error.message(), "Invalid layout code: 7");
}

#[test]
fn records_that_are_not_known_are_refused() {
    let data = write_sav(&create_scores(), &calc);
    let error = read_sav(patched(data.clone(), 176, &[5, 0, 0, 0]), &calc).err().unwrap();
    assert_eq!(error.message(), "Unsupported dictionary record type: 5");
    let mut labels = data[0..176].to_vec();
    labels.extend_from_slice(&[3, 0, 0, 0, 0, 0, 0, 0, 9, 0, 0, 0]);
    assert_eq!(
        read_sav(labels, &calc).err(),
        Some(SavError::LabelsWithoutVariables)
    );
    let mut extension = data[0..176].to_vec();
    extension.extend_from_slice(&[7, 0, 0, 0, 9, 0, 0, 0, 255, 255, 255, 255, 1, 0, 0, 0]);
    assert_eq!(read_sav(extension, &calc).err(), Some(SavError::Malformed));
}

#[test]
fn a_dictionary_without_variables_is_refused() {
    let mut data = write_sav(&create_scores(), &calc)[0..176].to_vec();
    data.extend_from_slice(&[0xE7, 0x03, 0, 0, 0, 0, 0, 0]);
    assert_eq!(read_sav(data, &calc).err(), Some(SavError::NoColumns));
}

#[test]
fn rows_that_miss_a_value_are_refused() {
    let mut dataset = Dataset::new();
    dataset.batches.push(batch(vec![
        ("A", numbers(&[Some(1.0), Some(2.0)])),
        ("TOWN", texts(&[Some("x"), Some("y")])),
    ]));
    dataset.add_variable(Variable::numeric("A"));
    dataset.add_variable(Variable::string("TOWN", 16));
    let data = write_sav(&dataset, &calc);
    let at = (0..data.len()).find(|&i| data[i..].starts_with(b"TOWN    ")).unwrap();
    let error = read_sav(patched(data, at - 20, &[24]), &calc).err();
    assert_eq!(error, Some(SavError::UnevenColumns));
}

#[test]
fn a_row_that_ends_early_is_dropped() {
    let mut dataset = Dataset::new();
    dataset.batches.push(batch(vec![
        ("A", numbers(&[Some(1.0), Some(2.0)])),
        ("B", numbers(&[Some(3.0), Some(4.0)])),
    ]));
    dataset.add_variable(Variable::numeric("A"));
    dataset.add_variable(Variable::numeric("B"));
    let data = write_sav(&dataset, &calc);
    let at = codes_of(&data);
    let loaded = read_sav(patched(data, at + 3, &[252]), &calc).unwrap();
    assert_eq!(loaded.n_cases(), 1);
}

#[test]
fn integers_and_texts_are_read_from_bytes() {
    let mut reader = ByteReader::new(vec![0xFE, 0xFF, 0xFF, 0xFF, b'h', b'i', b' ', b' ', 1]);
    assert_eq!(read_i32(&mut reader), Ok(-2));
    assert_eq!(read_string(&mut reader, 4), Ok("hi".to_string()));
    assert_eq!(read_i32(&mut reader), Err(SavError::UnexpectedEof));
}

#[test]
fn the_compressed_writer_fills_blocks_of_eight_codes() {
    let mut writer = CompressedWriter::new(Vec::new());
    for n in 0..8 {
        writer.write_value(&Value::Numeric(num(n as f64)), &calc);
    }
    assert_eq!(writer.inner, vec![100, 101, 102, 103, 104, 105, 106, 107]);
    writer.write_value(&Value::Numeric(num(0.5)), &calc);
    writer.write_value(&Value::SystemMissing, &calc);
    writer.close();
    let mut expected = vec![100, 101, 102, 103, 104, 105, 106, 107, 253, 255, 252, 0, 0, 0, 0, 0];
    expected.extend_from_slice(&0.5f64.to_le_bytes());
    assert_eq!(writer.inner, expected);
}

#[test]
fn a_text_that_would_be_cut_inside_a_character_is_told_apart() {
    let mut dataset = Dataset::new();
    dataset.batches.push(batch(vec![("T", texts(&[Some("1234567ü")]))]));
    dataset.add_variable(Variable::string("T", 16));
    assert!(try_write_sav(&dataset, &calc).is_none());
    let scores = create_scores();
    assert_eq!(try_write_sav(&scores, &calc), Some(write_sav(&scores, &calc)));
}

#[test]
fn measurement_levels_come_back() {
    let mut dataset = create_mixed();
    dataset.variables[1].measure = MeasureLevel::Ordinal;
    let loaded = read_sav(write_sav(&dataset, &calc), &calc).unwrap();
    let levels: Vec<MeasureLevel> = loaded.variables.iter().map(|v| v.measure).collect();
    assert_eq!(
        levels,
        vec![MeasureLevel::Nominal, MeasureLevel::Ordinal, MeasureLevel::Nominal]
    );
    assert_eq!(dataset.variables[2].measure, MeasureLevel::Nominal);
}

#[test]
fn a_file_without_measurement_levels_has_scales() {
    let data = write_sav(&create_scores(), &calc);
    let at = codes_of(&data) - 8;
    let mut plain = data[..at - 17].to_vec();
    plain.extend_from_slice(&data[at..]);
    let loaded = read_sav(plain, &calc).unwrap();
    assert_eq!(loaded.variables[0].measure, MeasureLevel::Scale);
    assert_eq!(loaded.n_cases(), 2);
}

#[test]
fn a_file_that_is_cut_behind_its_dictionary_gives_the_first_cases() {
    let data = write_sav(&create_mixed(), &calc);
    let whole = read_sav(data.clone(), &calc).unwrap();
    let mut last = 0;
    for m in codes_of(&data)..=data.len() {
        let part = read_sav(data[..m].to_vec(), &calc).unwrap();
        let k = part.n_cases();
        assert!(last <= k && k <= whole.n_cases());
        assert_eq!(part.n_variables(), whole.n_variables());
        for c in 0..3 {
            assert_eq!(part.batches[0].columns[c].cells, whole.batches[0].columns[c].cells[..k]);
        }
        last = k;
    }
    assert_eq!(last, whole.n_cases());
}

#[test]
fn compressed_values_are_read_back_in_order() {
    let values = vec![
        Value::Numeric(num(3.0)),
        Value::SystemMissing,
        Value::Numeric(num(0.1)),
        Value::String("ab".to_string()),
        Value::String("123456789".to_string()),
        Value::Numeric(num(-99.0)),
        Value::Numeric(num(151.0)),
        Value::Numeric(num(1e9)),
        Value::Numeric(num(-100.0)),
    ];
    let mut writer = CompressedWriter::new(Vec::new());
    for v in &values {
        writer.write_value(v, &calc);
    }
    writer.close();
    let mut bytes = ByteReader::new(writer.inner);
    let mut reader = CompressedReader::new();
    let bias = num(100.0);
    for v in &values {
        let expected = match v {
            Value::String(s) => Value::String(format!("{:<8}", &s[..s.len().min(8)])),
            Value::Numeric(n) => Value::Numeric(*n),
            Value::SystemMissing => Value::SystemMissing,
        };
        assert_eq!(reader.read_next_value(&mut bytes, bias, &calc), Some(expected));
    }
    assert_eq!(reader.read_next_value(&mut bytes, bias, &calc), None);
}

#[test]
fn written_cells_lose_only_trailing_blanks() {
    let mut dataset = Dataset::new();
    dataset.batches.push(batch(vec![
        ("N", numbers(&[None, Some(0.1)])),
        ("T", texts(&[Some("ab  "), None])),
    ]));
    dataset.add_variable(Variable::numeric("N"));
    dataset.add_variable(Variable::string("T", 5));
    let loaded = read_sav(write_sav(&dataset, &calc), &calc).unwrap();
    let columns = &loaded.batches[0].columns;
    assert_eq!(columns[0].cells, vec![Cell::Null, Cell::Number(num(0.1))]);
    assert_eq!(columns[1].cells, vec![Cell::Text("ab".to_string()), Cell::Text(String::new())]);
}

#[test]
fn cells_and_definitions_come_back_whatever_the_names() {
    let mut dataset = Dataset::new();
    dataset.batches.push(batch(vec![
        ("a=b and more", numbers(&[Some(1.0), Some(2.5)])),
        ("tab\there", texts(&[Some("x"), Some("yz")])),
        ("VAR00001", numbers(&[None, Some(7.0)])),
    ]));
    let mut first = Variable::numeric("a=b and more");
    first.measure = MeasureLevel::Ordinal;
    first.label = Some("first".to_string());
    dataset.add_variable(first);
    dataset.add_variable(Variable::string("tab\there", 4));
    let mut last = Variable::numeric("VAR00001");
    last.measure = MeasureLevel::Nominal;
    dataset.add_variable(last);
    let data = write_sav(&dataset, &calc);
    let loaded = read_sav(data.clone(), &calc).unwrap();
    let levels: Vec<MeasureLevel> = loaded.variables.iter().map(|v| v.measure).collect();
    assert_eq!(
        levels,
        vec![MeasureLevel::Ordinal, MeasureLevel::Nominal, MeasureLevel::Nominal]
    );
    assert_eq!(loaded.variables[0].label, Some("first".to_string()));
    let columns = &loaded.batches[0].columns;
    assert_eq!(columns[0].cells, vec![Cell::Number(num(1.0)), Cell::Number(num(2.5))]);
    assert_eq!(columns[1].cells, vec![Cell::Text("x".to_string()), Cell::Text("yz".to_string())]);
    assert_eq!(columns[2].cells, vec![Cell::Null, Cell::Number(num(7.0))]);
    let at = codes_of(&data);
    assert_eq!(read_sav(data[..at].to_vec(), &calc).unwrap().n_variables(), 3);
}
