use oxstat::arith::{NumOp, Style};
use oxstat::batch::{Batch, Cell, Column, ColumnKind, Field};
use oxstat::dataset::Dataset;
use oxstat::expr::parse;
use oxstat::number::Number;
use oxstat::transform::aggregate::{aggregate, try_aggregate, AggFunction, AggSpec};
use oxstat::transform::files::{
    add_files, match_files_one_to_one, try_add_files, try_match_files_one_to_one,
};
use oxstat::transform::join::{match_files_by_key, try_match_files_by_key};
use oxstat::transform::long::{try_vars_to_cases, vars_to_cases, TransposeSpec};
use oxstat::transform::rows::{get_batch_row_index, get_cell_value};
use oxstat::transform::select::{select_if, try_select_if};
use oxstat::transform::sort::{sort_cases, try_sort_cases, SortKey, SortOrder};
use oxstat::transform::wide::{cases_to_vars, try_cases_to_vars};
use oxstat::value::Value;
use oxstat::variable::{Variable, VariableType};

fn num(x: f64) -> Number {
    Number::from_bits(x.to_bits())
}

fn float(n: Number) -> f64 {
    f64::from_bits(n.bits)
}

fn calc(op: NumOp) -> Number {
    num(match op {
        NumOp::EmptySum => std::iter::empty::<f64>().sum(),
        NumOp::Add(a, b) => float(a) + float(b),
        NumOp::Sub(a, b) => float(a) - float(b),
        NumOp::Mul(a, b) => float(a) * float(b),
        NumOp::Div(a, b) => float(a) / float(b),
        NumOp::Rem(a, b) => float(a) % float(b),
        NumOp::Pow(a, b) => float(a).powf(float(b)),
        NumOp::PowInt(a, k) => float(a).powi(k),
        NumOp::Sqrt(a) => float(a).sqrt(),
        NumOp::Exp(a) => float(a).exp(),
        NumOp::Ln(a) => float(a).ln(),
        NumOp::Log10(a) => float(a).log10(),
        NumOp::Sin(a) => float(a).sin(),
        NumOp::Cos(a) => float(a).cos(),
        NumOp::Tan(a) => float(a).tan(),
        NumOp::Asin(a) => float(a).asin(),
        NumOp::Acos(a) => float(a).acos(),
        NumOp::Atan(a) => float(a).atan(),
    })
}

fn numbers(cells: &[Option<f64>]) -> Column {
    Column {
        kind: ColumnKind::Float64,
        cells: cells
            .iter()
            .map(|c| match c {
                Some(x) => Cell::Number(num(*x)),
                None => Cell::Null,
            })
            .collect(),
    }
}

fn texts(cells: &[Option<&str>]) -> Column {
    Column {
        kind: ColumnKind::Utf8,
        cells: cells
            .iter()
            .map(|c| match c {
                Some(s) => Cell::Text(s.to_string()),
                None => Cell::Null,
            })
            .collect(),
    }
}

fn batch(columns: Vec<(&str, Column)>) -> Batch {
    let mut fields = Vec::new();
    let mut data = Vec::new();
    for (name, column) in columns {
        fields.push(Field { name: name.to_string(), kind: column.kind.clone() });
        data.push(column);
    }
    Batch::try_new(fields, data).unwrap()
}

fn show(n: Number, style: Style) -> String {
    match style {
        Style::Plain => format!("{}", float(n)),
        Style::Fixed(d) => format!("{:.1$}", float(n), d as usize),
    }
}

fn read(text: String) -> Number {
    num(text.parse::<f64>().unwrap())
}

fn number(x: f64) -> Value {
    Value::Numeric(num(x))
}

fn text(s: &str) -> Value {
    Value::String(s.to_string())
}

fn names(list: &[&str]) -> Vec<String> {
    list.iter().map(|s| s.to_string()).collect()
}

fn create_test_dataset() -> Dataset {
    let mut dataset = Dataset::new();
    dataset.batches.push(batch(vec![
        ("ID", numbers(&[Some(1.0), Some(2.0), Some(3.0), Some(4.0)])),
        ("GROUP", numbers(&[Some(1.0), Some(1.0), Some(2.0), Some(2.0)])),
        ("SCORE", numbers(&[Some(80.0), Some(90.0), Some(70.0), None])),
    ]));
    dataset.add_variable(Variable::numeric("ID"));
    dataset.add_variable(Variable::numeric("GROUP"));
    dataset.add_variable(Variable::numeric("SCORE"));
    dataset
}

#[test]
fn test_select_if_transform() {
    let dataset = create_test_dataset();
    let expr = parse("SCORE >= 80", &read).unwrap();
    let filtered = select_if(&dataset, &expr, &calc).unwrap();
    assert_eq!(filtered.n_cases(), 2);
    assert_eq!(get_cell_value(&filtered, 0, 0, 0), number(1.0));
    assert_eq!(get_cell_value(&filtered, 0, 1, 0), number(2.0));
}

#[test]
fn test_sort_cases_transform() {
    let dataset = create_test_dataset();
    let keys = vec![SortKey { var_name: "SCORE".to_string(), order: SortOrder::Descending }];
    let sorted = sort_cases(&dataset, &keys).unwrap();
    assert_eq!(get_cell_value(&sorted, 0, 0, 2), number(90.0));
    assert_eq!(get_cell_value(&sorted, 0, 1, 2), number(80.0));
    assert_eq!(get_cell_value(&sorted, 0, 2, 2), number(70.0));
    assert_eq!(get_cell_value(&sorted, 0, 3, 2), Value::SystemMissing);
}

#[test]
fn test_aggregate_transform() {
    let dataset = create_test_dataset();
    let specs = vec![
        AggSpec {
            target_var: "AVG_SCORE".to_string(),
            function: AggFunction::Mean("SCORE".to_string()),
        },
        AggSpec { target_var: "N_CASES".to_string(), function: AggFunction::Count },
    ];
    let agg = aggregate(&dataset, &names(&["GROUP"]), &specs, &calc).unwrap();
    assert_eq!(agg.n_cases(), 2);

    let row0_grp = get_cell_value(&agg, 0, 0, 0);
    let row1_grp = get_cell_value(&agg, 0, 1, 0);

    if row0_grp == number(1.0) {
        assert_eq!(get_cell_value(&agg, 0, 0, 1), number(85.0));
        assert_eq!(get_cell_value(&agg, 0, 0, 2), number(2.0));
        assert_eq!(row1_grp, number(2.0));
        assert_eq!(get_cell_value(&agg, 0, 1, 1), number(70.0));
        assert_eq!(get_cell_value(&agg, 0, 1, 2), number(2.0));
    } else {
        assert_eq!(row0_grp, number(2.0));
        assert_eq!(get_cell_value(&agg, 0, 0, 1), number(70.0));
        assert_eq!(get_cell_value(&agg, 0, 0, 2), number(2.0));
        assert_eq!(row1_grp, number(1.0));
        assert_eq!(get_cell_value(&agg, 0, 1, 1), number(85.0));
        assert_eq!(get_cell_value(&agg, 0, 1, 2), number(2.0));
    }
}

#[test]
fn test_add_files_transform() {
    let ds1 = create_test_dataset();
    let ds2 = create_test_dataset();
    let appended = add_files(&[&ds1, &ds2]).unwrap();
    assert_eq!(appended.n_cases(), 8);
    assert_eq!(appended.n_variables(), 3);
}

#[test]
fn test_match_files_one_to_one_transform() {
    let ds1 = create_test_dataset();
    let mut ds2 = Dataset::new();
    ds2.batches.push(batch(vec![("EXTRA", numbers(&[Some(100.0), Some(200.0)]))]));
    ds2.add_variable(Variable::numeric("EXTRA"));

    let matched = match_files_one_to_one(&[&ds1, &ds2]).unwrap();
    assert_eq!(matched.n_cases(), 4);
    assert_eq!(matched.n_variables(), 4);
    assert_eq!(get_cell_value(&matched, 0, 0, 3), number(100.0));
    assert_eq!(get_cell_value(&matched, 0, 2, 3), Value::SystemMissing);
}

fn create_lookup() -> Dataset {
    let mut lookup = Dataset::new();
    lookup.batches.push(batch(vec![
        ("GROUP", numbers(&[Some(1.0), Some(2.0)])),
        ("DESC", texts(&[Some("Alpha"), Some("Beta")])),
    ]));
    lookup.add_variable(Variable::numeric("GROUP"));
    lookup.add_variable(Variable::string("DESC", 10));
    lookup
}

#[test]
fn test_match_files_by_key_transform() {
    let primary = create_test_dataset();
    let lookup = create_lookup();
    let joined = match_files_by_key(&primary, &lookup, &names(&["GROUP"])).unwrap();
    assert_eq!(joined.n_cases(), 4);
    assert_eq!(joined.n_variables(), 4);
    assert_eq!(get_cell_value(&joined, 0, 0, 3), text("Alpha"));
    assert_eq!(get_cell_value(&joined, 0, 2, 3), text("Beta"));
}

#[test]
fn test_vars_to_cases_transform() {
    let mut dataset = Dataset::new();
    dataset.batches.push(batch(vec![
        ("ID", numbers(&[Some(10.0)])),
        ("INC1", numbers(&[Some(100.0)])),
        ("INC2", numbers(&[Some(200.0)])),
    ]));
    dataset.add_variable(Variable::numeric("ID"));
    dataset.add_variable(Variable::numeric("INC1"));
    dataset.add_variable(Variable::numeric("INC2"));

    let specs = vec![TransposeSpec {
        target_var: "INC".to_string(),
        source_vars: names(&["INC1", "INC2"]),
    }];
    let reshaped = vars_to_cases(&dataset, &specs, Some("YEAR"), &names(&["ID"])).unwrap();
    assert_eq!(reshaped.n_cases(), 2);
    assert_eq!(reshaped.n_variables(), 3);
    assert_eq!(get_cell_value(&reshaped, 0, 0, 1), number(100.0));
    assert_eq!(get_cell_value(&reshaped, 0, 0, 2), number(1.0));
    assert_eq!(get_cell_value(&reshaped, 0, 1, 1), number(200.0));
    assert_eq!(get_cell_value(&reshaped, 0, 1, 2), number(2.0));
}

fn create_long() -> Dataset {
    let mut dataset = Dataset::new();
    dataset.batches.push(batch(vec![
        ("ID", numbers(&[Some(10.0), Some(10.0)])),
        ("YEAR", numbers(&[Some(1.0), Some(2.0)])),
        ("INC", numbers(&[Some(100.0), Some(200.0)])),
    ]));
    dataset.add_variable(Variable::numeric("ID"));
    dataset.add_variable(Variable::numeric("YEAR"));
    dataset.add_variable(Variable::numeric("INC"));
    dataset
}

#[test]
fn test_cases_to_vars_transform() {
    let dataset = create_long();
    let reshaped =
        cases_to_vars(&dataset, &names(&["ID"]), "YEAR", &names(&["INC"]), &show).unwrap();
    assert_eq!(reshaped.n_cases(), 1);
    assert_eq!(reshaped.n_variables(), 3);
    assert_eq!(get_cell_value(&reshaped, 0, 0, 1), number(100.0));
    assert_eq!(get_cell_value(&reshaped, 0, 0, 2), number(200.0));
}

#[test]
fn an_empty_dataset_gives_an_empty_dataset() {
    let none = Dataset::new();
    let expr = parse("1", &read).unwrap();
    assert_eq!(select_if(&none, &expr, &calc).unwrap().n_variables(), 0);
    assert_eq!(sort_cases(&none, &[]).unwrap().n_cases(), 0);
    assert_eq!(aggregate(&none, &names(&["X"]), &[], &calc).unwrap().n_cases(), 0);
    assert_eq!(add_files(&[]).unwrap().n_variables(), 0);
    assert_eq!(match_files_one_to_one(&[]).unwrap().n_variables(), 0);
    assert_eq!(match_files_by_key(&none, &none, &names(&["X"])).unwrap().n_cases(), 0);
    assert_eq!(vars_to_cases(&none, &[], None, &[]).unwrap().n_cases(), 0);
    assert_eq!(cases_to_vars(&none, &[], "X", &[], &show).unwrap().n_cases(), 0);
}

#[test]
fn a_missing_name_is_reported() {
    let ds = create_test_dataset();
    let key = vec![SortKey { var_name: "NO".to_string(), order: SortOrder::Ascending }];
    assert_eq!(sort_cases(&ds, &key).err().unwrap(), "Var not found: NO");
    assert_eq!(
        sort_cases(&ds, &[]).err().unwrap(),
        "Invalid argument error: Sort requires at least one column"
    );
    assert_eq!(
        aggregate(&ds, &names(&["NO"]), &[], &calc).err().unwrap(),
        "Break var not found: NO"
    );
    let specs = vec![AggSpec {
        target_var: "T".to_string(),
        function: AggFunction::Sum("NO".to_string()),
    }];
    assert_eq!(
        aggregate(&ds, &names(&["GROUP"]), &specs, &calc).err().unwrap(),
        "Var not found: NO"
    );
    assert_eq!(
        match_files_by_key(&ds, &create_lookup(), &names(&["NO"])).err().unwrap(),
        "Key not found in primary: NO"
    );
    assert_eq!(
        match_files_by_key(&ds, &create_lookup(), &names(&["SCORE"])).err().unwrap(),
        "Key not found in lookup: SCORE"
    );
    let wide = vec![TransposeSpec { target_var: "T".to_string(), source_vars: names(&["NO"]) }];
    assert_eq!(
        vars_to_cases(&ds, &wide, None, &[]).err().unwrap(),
        "Source var not found: NO"
    );
    assert_eq!(
        vars_to_cases(&ds, &wide, None, &names(&["AWAY"])).err().unwrap(),
        "Keep var not found: AWAY"
    );
    assert_eq!(
        cases_to_vars(&ds, &names(&["NO"]), "ID", &[], &show).err().unwrap(),
        "ID var not found: NO"
    );
    assert_eq!(
        cases_to_vars(&ds, &names(&["ID"]), "NO", &[], &show).err().unwrap(),
        "Index var not found: NO"
    );
    assert_eq!(
        cases_to_vars(&ds, &names(&["ID"]), "GROUP", &names(&["NO"]), &show).err().unwrap(),
        "Group var not found: NO"
    );
}

#[test]
fn rows_are_sorted_by_several_keys() {
    let mut ds = Dataset::new();
    ds.batches.push(batch(vec![
        ("NAME", texts(&[Some("b"), Some("a"), None])),
        ("N", numbers(&[Some(1.0), Some(5.0), Some(0.0)])),
    ]));
    ds.batches.push(batch(vec![
        ("NAME", texts(&[Some("b"), Some("Z")])),
        ("N", numbers(&[Some(-2.0), Some(7.0)])),
    ]));
    ds.add_variable(Variable::string("NAME", 1));
    ds.add_variable(Variable::numeric("N"));
    let keys = vec![
        SortKey { var_name: "name".to_string(), order: SortOrder::Ascending },
        SortKey { var_name: "N".to_string(), order: SortOrder::Descending },
    ];
    let sorted = sort_cases(&ds, &keys).unwrap();
    let column = |c: usize| -> Vec<Value> {
        (0..5).map(|r| get_cell_value(&sorted, 0, r, c)).collect()
    };
    assert_eq!(
        column(0),
        vec![Value::SystemMissing, text("Z"), text("a"), text("b"), text("b")]
    );
    assert_eq!(
        column(1),
        vec![number(0.0), number(7.0), number(5.0), number(1.0), number(-2.0)]
    );
}

#[test]
fn sorted_numbers_go_by_the_total_order() {
    let mut ds = Dataset::new();
    ds.batches.push(batch(vec![(
        "N",
        numbers(&[Some(f64::NAN), Some(1.0), Some(0.0), Some(-0.0), Some(f64::NEG_INFINITY)]),
    )]));
    ds.add_variable(Variable::numeric("N"));
    let keys = vec![SortKey { var_name: "N".to_string(), order: SortOrder::Ascending }];
    let sorted = sort_cases(&ds, &keys).unwrap();
    let bits: Vec<u64> = (0..5)
        .map(|r| match get_cell_value(&sorted, 0, r, 0) {
            Value::Numeric(n) => n.bits,
            other => panic!("{:?}", other),
        })
        .collect();
    let expected: Vec<u64> = [f64::NEG_INFINITY, -0.0, 0.0, 1.0, f64::NAN]
        .iter()
        .map(|x: &f64| x.to_bits())
        .collect();
    assert_eq!(bits, expected);
}

#[test]
fn aggregates_of_each_kind() {
    let ds = create_test_dataset();
    let spec = |name: &str, function: AggFunction| AggSpec {
        target_var: name.to_string(),
        function,
    };
    let specs = vec![
        spec("A", AggFunction::Sum("SCORE".to_string())),
        spec("B", AggFunction::Min("SCORE".to_string())),
        spec("C", AggFunction::Max("SCORE".to_string())),
        spec("D", AggFunction::Count),
    ];
    let all = aggregate(&ds, &[], &specs, &calc).unwrap();
    assert_eq!(all.n_cases(), 1);
    assert_eq!(get_cell_value(&all, 0, 0, 0), number(240.0));
    assert_eq!(get_cell_value(&all, 0, 0, 1), number(70.0));
    assert_eq!(get_cell_value(&all, 0, 0, 2), number(90.0));
    assert_eq!(get_cell_value(&all, 0, 0, 3), number(4.0));
}

#[test]
fn group_sizes_add_up_to_the_cases() {
    let ds = create_test_dataset();
    let specs = vec![AggSpec { target_var: "N".to_string(), function: AggFunction::Count }];
    let agg = aggregate(&ds, &names(&["GROUP"]), &specs, &calc).unwrap();
    let mut total = 0.0;
    for r in 0..agg.n_cases() {
        if let Value::Numeric(n) = get_cell_value(&agg, 0, r, 1) {
            total += float(n);
        }
    }
    assert_eq!(total, ds.n_cases() as f64);
}

#[test]
fn a_sum_without_numbers_is_missing() {
    let mut ds = Dataset::new();
    ds.batches.push(batch(vec![("X", numbers(&[None, None]))]));
    ds.add_variable(Variable::numeric("X"));
    let specs = vec![AggSpec {
        target_var: "S".to_string(),
        function: AggFunction::Sum("X".to_string()),
    }];
    let agg = aggregate(&ds, &[], &specs, &calc).unwrap();
    assert_eq!(get_cell_value(&agg, 0, 0, 0), Value::SystemMissing);
}

#[test]
fn added_files_fill_missing_variables_with_nulls() {
    let ds1 = create_test_dataset();
    let ds2 = create_lookup();
    let appended = add_files(&[&ds1, &ds2]).unwrap();
    assert_eq!(appended.n_variables(), 4);
    assert_eq!(appended.n_cases(), 6);
    assert_eq!(get_cell_value(&appended, 0, 4, 0), Value::SystemMissing);
    assert_eq!(get_cell_value(&appended, 0, 4, 1), number(1.0));
    assert_eq!(get_cell_value(&appended, 0, 5, 3), text("Beta"));
    assert_eq!(get_cell_value(&appended, 0, 0, 3), Value::SystemMissing);
}

#[test]
fn a_file_without_batches_cannot_be_added() {
    let ds1 = create_test_dataset();
    let mut ds2 = Dataset::new();
    ds2.add_variable(Variable::numeric("id"));
    assert_eq!(
        add_files(&[&ds1, &ds2]).err().unwrap(),
        "Compute error: concat requires input of at least one array"
    );
}

#[test]
fn a_key_without_a_partner_gives_nulls_and_the_first_partner_wins() {
    let primary = create_test_dataset();
    let mut lookup = Dataset::new();
    lookup.batches.push(batch(vec![
        ("GROUP", numbers(&[Some(2.0), Some(2.0)])),
        ("DESC", texts(&[Some("first"), Some("second")])),
    ]));
    lookup.add_variable(Variable::numeric("GROUP"));
    lookup.add_variable(Variable::string("DESC", 10));
    let joined = match_files_by_key(&primary, &lookup, &names(&["GROUP"])).unwrap();
    assert_eq!(get_cell_value(&joined, 0, 0, 3), Value::SystemMissing);
    assert_eq!(get_cell_value(&joined, 0, 3, 3), text("first"));
}

#[test]
fn long_rows_follow_the_sources_of_each_case() {
    let ds = create_test_dataset();
    let specs = vec![TransposeSpec {
        target_var: "V".to_string(),
        source_vars: names(&["GROUP", "SCORE"]),
    }];
    let long = vars_to_cases(&ds, &specs, None, &names(&["ID"])).unwrap();
    assert_eq!(long.n_cases(), 8);
    assert_eq!(get_cell_value(&long, 0, 5, 0), number(3.0));
    assert_eq!(get_cell_value(&long, 0, 4, 1), number(2.0));
    assert_eq!(get_cell_value(&long, 0, 5, 1), number(70.0));
    assert_eq!(get_cell_value(&long, 0, 7, 1), Value::SystemMissing);
    assert_eq!(get_batch_row_index(&ds, 3), (0, 3));
}

#[test]
fn wide_variables_are_named_by_the_sorted_index_values() {
    let mut ds = Dataset::new();
    ds.batches.push(batch(vec![
        ("ID", texts(&[Some("p"), Some("p"), Some("q"), Some("q")])),
        ("K", numbers(&[Some(10.0), Some(9.5), Some(9.5), None])),
        ("V", texts(&[Some("one"), Some("two"), Some("three"), Some("four")])),
    ]));
    ds.add_variable(Variable::string("ID", 1));
    ds.add_variable(Variable::numeric("K"));
    ds.add_variable(Variable::string("V", 5));
    let wide = cases_to_vars(&ds, &names(&["ID"]), "K", &names(&["V"]), &show).unwrap();
    let found: Vec<&str> = wide.variables.iter().map(|v| v.name.as_str()).collect();
    assert_eq!(found, vec!["ID", "V_10", "V_9.5"]);
    assert_eq!(get_cell_value(&wide, 0, 0, 1), text("one"));
    assert_eq!(get_cell_value(&wide, 0, 0, 2), text("two"));
    assert_eq!(get_cell_value(&wide, 0, 1, 1), Value::SystemMissing);
    assert_eq!(get_cell_value(&wide, 0, 1, 2), text("three"));
    assert_eq!(wide.variables[1].var_type, VariableType::String(3));
}

#[test]
fn the_last_row_with_an_index_value_wins() {
    let mut ds = create_long();
    ds.batches.push(batch(vec![
        ("ID", numbers(&[Some(10.0)])),
        ("YEAR", numbers(&[Some(1.0)])),
        ("INC", numbers(&[Some(7.0)])),
    ]));
    let wide = cases_to_vars(&ds, &names(&["ID"]), "YEAR", &names(&["INC"]), &show).unwrap();
    assert_eq!(wide.n_cases(), 1);
    assert_eq!(get_cell_value(&wide, 0, 0, 1), number(7.0));
}

#[test]
fn user_missing_values_leave_the_groups_as_missing() {
    let mut ds = create_test_dataset();
    ds.variables[1].missing.discrete.push(num(2.0));
    let specs = vec![AggSpec { target_var: "N".to_string(), function: AggFunction::Count }];
    let agg = aggregate(&ds, &names(&["GROUP"]), &specs, &calc).unwrap();
    assert_eq!(agg.n_cases(), 2);
    assert_eq!(get_cell_value(&agg, 0, 1, 0), Value::SystemMissing);
}

#[test]
fn what_cannot_be_read_is_told_apart() {
    let mut ds = create_test_dataset();
    ds.variables[2] = Variable::string("SCORE", 3);
    let expr = parse("SCORE = 'x'", &read).unwrap();
    assert!(try_select_if(&ds, &expr, &calc).is_none());
    let specs = vec![AggSpec {
        target_var: "S".to_string(),
        function: AggFunction::Sum("SCORE".to_string()),
    }];
    assert!(try_aggregate(&ds, &[], &specs, &calc).is_none());
    let keys = vec![SortKey { var_name: "SCORE".to_string(), order: SortOrder::Ascending }];
    assert_eq!(
        try_sort_cases(&ds, &keys).unwrap().err().unwrap(),
        "Invalid argument error: column types must match schema types, expected Utf8 but found Float64 at column index 2"
    );
    let fine = create_test_dataset();
    assert_eq!(try_add_files(&[&fine, &fine]).unwrap().unwrap().n_cases(), 8);
    assert_eq!(try_match_files_one_to_one(&[&fine]).unwrap().unwrap().n_cases(), 4);
    assert_eq!(
        try_match_files_by_key(&fine, &create_lookup(), &names(&["GROUP"])).unwrap().unwrap().n_cases(),
        4
    );
    assert!(try_vars_to_cases(&fine, &[], None, &[]).is_none());
    assert!(try_cases_to_vars(&ds, &names(&["SCORE"]), "ID", &[], &show).is_none());
}

fn create_pairs(a: &[&str], b: &[&str], name: &str, values: &[f64]) -> Dataset {
    let some = |list: &[&str]| texts(&list.iter().map(|s| Some(*s)).collect::<Vec<_>>());
    let mut dataset = Dataset::new();
    dataset.batches.push(batch(vec![
        ("A", some(a)),
        ("B", some(b)),
        (name, numbers(&values.iter().map(|x| Some(*x)).collect::<Vec<_>>())),
    ]));
    dataset.add_variable(Variable::string("A", 8));
    dataset.add_variable(Variable::string("B", 8));
    dataset.add_variable(Variable::numeric(name));
    dataset
}

fn total_of_v() -> Vec<AggSpec> {
    vec![AggSpec {
        target_var: "TOTAL".to_string(),
        function: AggFunction::Sum("V".to_string()),
    }]
}

#[test]
fn a_comma_in_the_last_text_keeps_keys_apart() {
    let dataset = create_pairs(&["x", "x", "x"], &["z", "y,S:z", "z"], "V", &[1.0, 10.0, 2.0]);
    let out = aggregate(&dataset, &names(&["A", "B"]), &total_of_v(), &calc).unwrap();
    assert_eq!(out.n_cases(), 2);
    assert_eq!(get_cell_value(&out, 0, 0, 2), number(3.0));
    assert_eq!(get_cell_value(&out, 0, 1, 2), number(10.0));
}

#[test]
fn a_text_with_the_separators_reads_like_several() {
    let dataset = create_pairs(&["x,S:y", "x"], &["z", "y,S:z"], "V", &[1.0, 10.0]);
    let out = aggregate(&dataset, &names(&["A", "B"]), &total_of_v(), &calc).unwrap();
    assert_eq!(out.n_cases(), 1);
    assert_eq!(get_cell_value(&out, 0, 0, 0), text("x,S:y"));
    assert_eq!(get_cell_value(&out, 0, 0, 2), number(11.0));
    let lookup = create_pairs(&["x"], &["y,S:z"], "W", &[7.0]);
    let joined = match_files_by_key(&dataset, &lookup, &names(&["A", "B"])).unwrap();
    assert_eq!(get_cell_value(&joined, 0, 0, 3), number(7.0));
    assert_eq!(get_cell_value(&joined, 0, 1, 3), number(7.0));
}

#[test]
fn cases_to_vars_undoes_vars_to_cases() {
    let mut wide = Dataset::new();
    wide.batches.push(batch(vec![
        ("ID", numbers(&[Some(30.0), Some(10.0)])),
        ("S1", numbers(&[Some(1.0), None])),
        ("S2", numbers(&[Some(2.0), Some(4.0)])),
    ]));
    wide.batches.push(batch(vec![
        ("ID", numbers(&[Some(20.0)])),
        ("S1", numbers(&[Some(5.0)])),
        ("S2", numbers(&[None])),
    ]));
    for name in ["ID", "S1", "S2"] {
        wide.add_variable(Variable::numeric(name));
    }
    let specs = vec![TransposeSpec {
        target_var: "T".to_string(),
        source_vars: names(&["S1", "S2"]),
    }];
    let long = vars_to_cases(&wide, &specs, Some("IDX"), &names(&["ID"])).unwrap();
    assert_eq!(long.n_cases(), 6);
    let out = cases_to_vars(&long, &names(&["ID"]), "IDX", &names(&["T"]), &show).unwrap();
    assert_eq!(out.n_cases(), 3);
    let expected = [
        (30.0, Some(1.0), Some(2.0)),
        (10.0, None, Some(4.0)),
        (20.0, Some(5.0), None),
    ];
    let first = out.variable_index("T_1").unwrap();
    let second = out.variable_index("T_2").unwrap();
    for (row, (id, a, b)) in expected.iter().enumerate() {
        let value = |x: &Option<f64>| x.map_or(Value::SystemMissing, number);
        assert_eq!(get_cell_value(&out, 0, row, 0), number(*id));
        assert_eq!(get_cell_value(&out, 0, row, first), value(a));
        assert_eq!(get_cell_value(&out, 0, row, second), value(b));
    }
}
