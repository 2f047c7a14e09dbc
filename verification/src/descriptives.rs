//! DESCRIPTIVES procedure.
//!
//! Computes mean, std deviation, min, max, skewness, kurtosis.
use vstd::prelude::*;

use arrow::array::{AsArray, LargeStringArray};
use arrow::datatypes::{DataType, Float64Type};

use crate::arith;
use crate::arith::{
    find_greatest, find_least, mean, perform, show, squared_deviations, sum, NumOp, Style,
};
use crate::batch::{Cell, CellView, Column, ColumnKind, ColumnView, KindView};
use crate::dataset;
use crate::dataset::{Dataset, DatasetView};
use crate::number;
use crate::number::Number;
use crate::output;
use crate::output::{OutputItem, OutputView, Table, TableView};
use crate::text;
use crate::text::{decimal_of, join_two};
use crate::transform::rows;
use crate::transform::rows::is_covered;
use crate::value::{MissingValues, MissingView};
use crate::variable::{Variable, VariableType, VariableView};

verus! {

broadcast use crate::text::lemma_views_push;

/// Available statistics for DESCRIPTIVES.
#[derive(Debug, Clone, Copy, PartialEq, Eq, Structural)]
pub enum Statistic {
    Mean,
    StdDev,
    Min,
    Max,
    Variance,
    Skewness,
    Kurtosis,
    Sum,
    Range,
}

/// Options for the DESCRIPTIVES command.
pub struct DescriptivesOptions {
    pub variables: Vec<String>,
    pub statistics: Vec<Statistic>,
}

impl Default for DescriptivesOptions {
    fn default() -> (r: Self)
        ensures
            r.variables@.len() == 0,
            r.statistics@ == seq![
                Statistic::Mean,
                Statistic::StdDev,
                Statistic::Min,
                Statistic::Max,
            ],
    {
        let mut statistics: Vec<Statistic> = Vec::new();
        statistics.push(Statistic::Mean);
        statistics.push(Statistic::StdDev);
        statistics.push(Statistic::Min);
        statistics.push(Statistic::Max);
        DescriptivesOptions { variables: Vec::new(), statistics }
    }
}

/// The largest number of cases that DESCRIPTIVES takes: the products of the
/// kurtosis stay within 128 bits.
pub const MOST_CASES: u64 = 0x3FF_FFFF_FFFF;

/// The bits of the double that arrow's cast from text to `Float64` reads from a
/// text; none where it reads no number.
pub uninterp spec fn cast_number(text: Seq<char>) -> Option<u64>;

/// Calls `cast` of arrow-cast on a `LargeUtf8` column of one text, with `Float64`
/// as the target. The entry is the number that is read from the text, or null; it
/// depends on the text alone, and is named by its bits.
#[verifier::external_body]
fn cast_text(s: &str) -> (r: Option<u64>)
    ensures
        r == cast_number(s@),
{
    match arrow::compute::cast(&LargeStringArray::from(vec![s]), &DataType::Float64) {
        Ok(array) => array.as_primitive::<Float64Type>().iter().next().flatten().map(|x| x.to_bits()),
        Err(_) => None,
    }
}

/// An entry of a column as a number. Integers become the nearest double, truth
/// values zero and one, and texts are read.
pub open spec fn entry_number(kind: KindView, cell: CellView) -> Option<Number> {
    match (kind, cell) {
        (KindView::Int64, CellView::Integer(n)) => Some(number::nearest(n as int)),
        (KindView::Int32, CellView::Integer(n)) => Some(number::nearest(n as int)),
        (KindView::Boolean, CellView::Bool(b)) => Some(
            number::nearest(
                if b {
                    1
                } else {
                    0
                },
            ),
        ),
        (KindView::Utf8, CellView::Text(t)) => text_number(t),
        (KindView::LargeUtf8, CellView::Text(t)) => text_number(t),
        (KindView::Float64, CellView::Number(n)) => Some(n),
        (KindView::Float32, CellView::Number(n)) => Some(n),
        (KindView::Other(_), CellView::Number(n)) => Some(n),
        _ => None,
    }
}

/// The number that a text is read as.
pub open spec fn text_number(t: Seq<char>) -> Option<Number> {
    match cast_number(t) {
        Some(bits) => Some(Number { bits }),
        None => None,
    }
}

/// The entries of a column as numbers.
pub open spec fn column_numbers(c: ColumnView) -> Seq<Option<Number>> {
    Seq::new(c.cells.len(), |i: int| entry_number(c.kind, c.cells[i]))
}

/// The entries of a variable in the first `n` batches as numbers.
pub open spec fn numbers_in(ds: DatasetView, idx: int, n: int) -> Seq<Option<Number>>
    decreases n,
{
    if n <= 0 {
        Seq::empty()
    } else {
        numbers_in(ds, idx, n - 1) + column_numbers(ds.batches[n - 1].columns[idx])
    }
}

/// The entries of a variable as numbers.
pub open spec fn variable_numbers(ds: DatasetView, idx: int) -> Seq<Option<Number>> {
    numbers_in(ds, idx, ds.batches.len() as int)
}

/// An entry counts: it is a number, and not user-missing.
pub open spec fn counts(missing: MissingView, entry: Option<Number>) -> bool {
    entry matches Some(n) && !missing.holds(n)
}

/// The numbers among entries that count.
pub open spec fn valid_numbers(missing: MissingView, entries: Seq<Option<Number>>) -> Seq<Number>
    decreases entries.len(),
{
    if entries.len() == 0 {
        Seq::empty()
    } else if counts(missing, entries.last()) {
        valid_numbers(missing, entries.drop_last()).push(entries.last()->0)
    } else {
        valid_numbers(missing, entries.drop_last())
    }
}

/// The powers of the standardized numbers.
pub open spec fn powers<F: Fn(NumOp) -> Number>(
    v: Seq<Number>,
    mean: Number,
    sd: Number,
    k: i32,
    calc: F,
) -> Seq<Number> {
    Seq::new(
        v.len(),
        |i: int|
            arith::meaning(
                calc,
                NumOp::PowInt(
                    arith::meaning(
                        calc,
                        NumOp::Div(arith::meaning(calc, NumOp::Sub(v[i], mean)), sd),
                    ),
                    k,
                ),
            ),
    )
}

/// The mean; not a number where there is none.
pub open spec fn mean_value<F: Fn(NumOp) -> Number>(v: Seq<Number>, calc: F) -> Number {
    if v.len() > 0 {
        arith::mean_of(v, calc)
    } else {
        number::quiet_nan()
    }
}

/// The sample variance; not a number where there are less than two.
pub open spec fn variance_value<F: Fn(NumOp) -> Number>(v: Seq<Number>, calc: F) -> Number {
    if v.len() > 1 {
        arith::meaning(
            calc,
            NumOp::Div(
                arith::sum_of(arith::deviations(v, mean_value(v, calc), calc), calc),
                number::nearest(v.len() - 1),
            ),
        )
    } else {
        number::quiet_nan()
    }
}

/// The standard deviation.
pub open spec fn deviation_value<F: Fn(NumOp) -> Number>(v: Seq<Number>, calc: F) -> Number {
    if v.len() > 1 {
        arith::meaning(calc, NumOp::Sqrt(variance_value(v, calc)))
    } else {
        number::quiet_nan()
    }
}

/// The skewness: `n / ((n - 1) * (n - 2))` times the sum of the standardized
/// numbers' cubes.
pub open spec fn skewness_value<F: Fn(NumOp) -> Number>(v: Seq<Number>, calc: F) -> Number {
    let n = v.len();
    let sd = deviation_value(v, calc);
    if n > 2 && number::nearest(0).below(sd) {
        let factor = arith::meaning(
            calc,
            NumOp::Div(
                number::nearest(n as int),
                arith::meaning(calc, NumOp::Mul(number::nearest(n - 1), number::nearest(n - 2))),
            ),
        );
        arith::meaning(
            calc,
            NumOp::Mul(factor, arith::sum_of(powers(v, mean_value(v, calc), sd, 3, calc), calc)),
        )
    } else {
        number::quiet_nan()
    }
}

/// The kurtosis: `n * (n + 1) / ((n - 1) * (n - 2) * (n - 3))` times the sum of the
/// standardized numbers' fourth powers, less
/// `3 * (n - 1)^2 / ((n - 2) * (n - 3))`.
pub open spec fn kurtosis_value<F: Fn(NumOp) -> Number>(v: Seq<Number>, calc: F) -> Number {
    let n = v.len() as int;
    let sd = deviation_value(v, calc);
    if n > 3 && number::nearest(0).below(sd) {
        let factor = arith::meaning(
            calc,
            NumOp::Div(
                number::nearest(n * (n + 1)),
                number::nearest((n - 1) * (n - 2) * (n - 3)),
            ),
        );
        let first = arith::meaning(
            calc,
            NumOp::Mul(factor, arith::sum_of(powers(v, mean_value(v, calc), sd, 4, calc), calc)),
        );
        let square = arith::meaning(calc, NumOp::PowInt(number::nearest(n - 1), 2));
        let second = arith::meaning(
            calc,
            NumOp::Div(
                arith::meaning(calc, NumOp::Mul(number::nearest(3), square)),
                number::nearest((n - 2) * (n - 3)),
            ),
        );
        arith::meaning(calc, NumOp::Sub(first, second))
    } else {
        number::quiet_nan()
    }
}

/// A statistic of numbers.
pub open spec fn statistic<F: Fn(NumOp) -> Number>(v: Seq<Number>, s: Statistic, calc: F) -> Number {
    match s {
        Statistic::Mean => mean_value(v, calc),
        Statistic::StdDev => deviation_value(v, calc),
        Statistic::Min => if v.len() > 0 {
            arith::least(v)
        } else {
            number::quiet_nan()
        },
        Statistic::Max => if v.len() > 0 {
            arith::greatest(v)
        } else {
            number::quiet_nan()
        },
        Statistic::Variance => variance_value(v, calc),
        Statistic::Skewness => skewness_value(v, calc),
        Statistic::Kurtosis => kurtosis_value(v, calc),
        Statistic::Sum => arith::sum_of(v, calc),
        Statistic::Range => if v.len() > 0 {
            arith::meaning(calc, NumOp::Sub(arith::greatest(v), arith::least(v)))
        } else {
            number::quiet_nan()
        },
    }
}

/// The header of a statistic.
pub open spec fn statistic_name(s: Statistic) -> Seq<char> {
    match s {
        Statistic::Mean => "Mean"@,
        Statistic::StdDev => "Std. Deviation"@,
        Statistic::Min => "Minimum"@,
        Statistic::Max => "Maximum"@,
        Statistic::Variance => "Variance"@,
        Statistic::Skewness => "Skewness"@,
        Statistic::Kurtosis => "Kurtosis"@,
        Statistic::Sum => "Sum"@,
        Statistic::Range => "Range"@,
    }
}

/// The decimals of a statistic: three for skewness and kurtosis, else those of the
/// variable.
pub open spec fn statistic_decimals(s: Statistic, decimals: u8) -> u8 {
    match s {
        Statistic::Skewness => 3,
        Statistic::Kurtosis => 3,
        _ => decimals,
    }
}

/// A number as text, and "." for one that is not a number.
pub open spec fn value_text<S: Fn(Number, Style) -> String>(n: Number, decimals: u8, f: S) -> Seq<
    char,
> {
    if n.nan() {
        "."@
    } else {
        arith::shown(f, n, Style::Fixed(decimals))
    }
}

/// The row of a variable: its label or name, the number of valid cases, and the
/// statistics.
pub open spec fn variable_row<F: Fn(NumOp) -> Number, S: Fn(Number, Style) -> String>(
    var: VariableView,
    v: Seq<Number>,
    stats: Seq<Statistic>,
    calc: F,
    f: S,
) -> Seq<Seq<char>> {
    seq![
        match var.label {
            Some(l) => l,
            None => var.name,
        },
        text::decimal(v.len()),
    ] + Seq::new(
        stats.len(),
        |i: int|
            value_text(
                statistic(v, stats[i], calc),
                statistic_decimals(stats[i], var.print_decimals),
                f,
            ),
    )
}

/// The names to run on: those asked for, or those of all numeric variables.
pub open spec fn names_to_run(vars: Seq<VariableView>, asked: Seq<Seq<char>>) -> Seq<Seq<char>> {
    if asked.len() > 0 {
        asked
    } else {
        numeric_names(vars)
    }
}

/// The names of the numeric variables.
pub open spec fn numeric_names(vars: Seq<VariableView>) -> Seq<Seq<char>>
    decreases vars.len(),
{
    if vars.len() == 0 {
        Seq::empty()
    } else if vars.last().var_type is Numeric {
        numeric_names(vars.drop_last()).push(vars.last().name)
    } else {
        numeric_names(vars.drop_last())
    }
}

/// The numeric variables of these names; names that the dataset does not have are
/// passed over.
pub open spec fn found_numeric(ds: DatasetView, names: Seq<Seq<char>>) -> Seq<usize>
    decreases names.len(),
{
    if names.len() == 0 {
        Seq::empty()
    } else {
        let before = found_numeric(ds, names.drop_last());
        match ds.index_of(names.last()) {
            Some(i) if ds.variables[i as int].var_type is Numeric => before.push(i),
            _ => before,
        }
    }
}

/// The variables that DESCRIPTIVES runs on.
pub open spec fn described(ds: DatasetView, asked: Seq<Seq<char>>) -> Seq<usize> {
    found_numeric(ds, names_to_run(ds.variables, asked))
}

/// A case is valid in all variables.
pub open spec fn case_valid(ds: DatasetView, idxs: Seq<usize>, r: int) -> bool {
    forall|k: int|
        0 <= k < idxs.len() ==> counts(
            ds.variables[(#[trigger] idxs[k]) as int].missing,
            variable_numbers(ds, idxs[k] as int)[r],
        )
}

/// The number of cases among the first `n` that are valid in all variables.
pub open spec fn valid_cases(ds: DatasetView, idxs: Seq<usize>, n: int) -> nat
    decreases n,
{
    if n <= 0 {
        0
    } else {
        valid_cases(ds, idxs, n - 1) + if case_valid(ds, idxs, n - 1) {
            1nat
        } else {
            0nat
        }
    }
}

/// The number of cases that are valid in all variables; none without a variable.
pub open spec fn listwise(ds: DatasetView, idxs: Seq<usize>) -> nat {
    if idxs.len() == 0 {
        0
    } else {
        valid_cases(ds, idxs, ds.n_cases() as int)
    }
}

/// The table that DESCRIPTIVES makes.
pub open spec fn description<F: Fn(NumOp) -> Number, S: Fn(Number, Style) -> String>(
    ds: DatasetView,
    asked: Seq<Seq<char>>,
    stats: Seq<Statistic>,
    calc: F,
    f: S,
) -> TableView {
    let idxs = described(ds, asked);
    TableView {
        title: "Descriptive Statistics"@,
        column_headers: seq!["Variable"@, "N"@] + Seq::new(
            stats.len(),
            |i: int| statistic_name(stats[i]),
        ),
        rows: Seq::new(
            idxs.len(),
            |k: int|
                variable_row(
                    ds.variables[idxs[k] as int],
                    valid_numbers(
                        ds.variables[idxs[k] as int].missing,
                        variable_numbers(ds, idxs[k] as int),
                    ),
                    stats,
                    calc,
                    f,
                ),
        ),
        footnotes: seq!["Valid N (listwise) = "@ + text::decimal(listwise(ds, idxs))],
    }
}

/// Every batch has the columns of the variables to describe.
pub open spec fn can_describe(ds: DatasetView, asked: Seq<Seq<char>>) -> bool {
    forall|k: int|
        0 <= k < described(ds, asked).len() ==> rows::covered(
            ds,
            (#[trigger] described(ds, asked)[k]) as int,
        )
}

/// A variable has as many entries as the first `n` batches have rows.
pub proof fn lemma_numbers_len(ds: DatasetView, idx: int, n: int)
    requires
        ds.wf(),
        rows::covered(ds, idx),
        0 <= idx,
        0 <= n <= ds.batches.len(),
    ensures
        numbers_in(ds, idx, n).len() == dataset::rows_in(ds.batches.take(n)),
    decreases n,
{
    if n > 0 {
        lemma_numbers_len(ds, idx, n - 1);
        dataset::lemma_rows_split(ds.batches, n - 1);
        assert(ds.batches[n - 1].wf());
        assert(ds.batches[n - 1].columns[idx].cells.len() == ds.batches[n - 1].num_rows);
    } else {
        assert(ds.batches.take(0) =~= Seq::empty());
    }
}

proof fn lemma_variable_len(ds: DatasetView, idx: int)
    requires
        ds.wf(),
        rows::covered(ds, idx),
        0 <= idx,
    ensures
        variable_numbers(ds, idx).len() == ds.n_cases(),
{
    lemma_numbers_len(ds, idx, ds.batches.len() as int);
    assert(ds.batches.take(ds.batches.len() as int) =~= ds.batches);
}

proof fn lemma_valid_len(missing: MissingView, entries: Seq<Option<Number>>)
    ensures
        valid_numbers(missing, entries).len() <= entries.len(),
    decreases entries.len(),
{
    if entries.len() > 0 {
        lemma_valid_len(missing, entries.drop_last());
    }
}

/// Reads an entry as a number.
fn read_entry(kind: &ColumnKind, cell: &Cell) -> (r: Option<Number>)
    ensures
        r == entry_number(kind@, cell@),
{
    match (kind, cell) {
        (ColumnKind::Int64, Cell::Integer(n)) => Some(Number::from_i64(*n)),
        (ColumnKind::Int32, Cell::Integer(n)) => Some(Number::from_i64(*n)),
        (ColumnKind::Boolean, Cell::Bool(b)) => Some(
            Number::from_usize(
                if *b {
                    1
                } else {
                    0
                },
            ),
        ),
        (ColumnKind::Utf8, Cell::Text(t)) => read_text(t.as_str()),
        (ColumnKind::LargeUtf8, Cell::Text(t)) => read_text(t.as_str()),
        (ColumnKind::Float64, Cell::Number(n)) => Some(*n),
        (ColumnKind::Float32, Cell::Number(n)) => Some(*n),
        (ColumnKind::Other(_), Cell::Number(n)) => Some(*n),
        _ => None,
    }
}

/// Reads a text as a number.
fn read_text(t: &str) -> (r: Option<Number>)
    ensures
        r == text_number(t@),
{
    match cast_text(t) {
        Some(bits) => Some(Number { bits }),
        None => None,
    }
}

/// Extract numeric values as optional numbers from any column.
pub fn extract_f64_values(column: &Column) -> (r: Vec<Option<Number>>)
    ensures
        r@ == column_numbers(column@),
{
    let ghost all = column_numbers(column@);
    let mut out: Vec<Option<Number>> = Vec::new();
    let mut i: usize = 0;
    while i < column.cells.len()
        invariant
            i <= column.cells@.len(),
            all == column_numbers(column@),
            out@ =~= all.take(i as int),
        decreases column.cells@.len() - i,
    {
        out.push(read_entry(&column.kind, &column.cells[i]));
        i = i + 1;
    }
    proof {
        assert(all.take(all.len() as int) =~= all);
    }
    out
}

/// Reads all entries of a variable.
fn read_variable(dataset: &Dataset, idx: usize) -> (r: Vec<Option<Number>>)
    requires
        rows::covered(dataset@, idx as int),
    ensures
        r@ == variable_numbers(dataset@, idx as int),
{
    let mut out: Vec<Option<Number>> = Vec::new();
    let mut b: usize = 0;
    while b < dataset.batches.len()
        invariant
            b <= dataset.batches@.len(),
            rows::covered(dataset@, idx as int),
            out@ =~= numbers_in(dataset@, idx as int, b as int),
        decreases dataset.batches@.len() - b,
    {
        proof {
            assert(idx < dataset@.batches[b as int].columns.len());
        }
        let mut more = extract_f64_values(&dataset.batches[b].columns[idx]);
        out.append(&mut more);
        b = b + 1;
    }
    out
}

/// Whether an entry counts.
fn is_counted(missing: &MissingValues, entry: Option<Number>) -> (r: bool)
    ensures
        r == counts(missing@, entry),
{
    match entry {
        Some(n) => !missing.is_user_missing(n),
        None => false,
    }
}

/// Picks the numbers that count.
fn pick_valid(missing: &MissingValues, entries: &Vec<Option<Number>>) -> (r: Vec<Number>)
    ensures
        r@ == valid_numbers(missing@, entries@),
{
    let mut out: Vec<Number> = Vec::new();
    let mut i: usize = 0;
    proof {
        assert(entries@.take(0) =~= Seq::empty());
    }
    while i < entries.len()
        invariant
            i <= entries@.len(),
            out@ == valid_numbers(missing@, entries@.take(i as int)),
        decreases entries@.len() - i,
    {
        proof {
            assert(entries@.take(i + 1).drop_last() =~= entries@.take(i as int));
            assert(entries@.take(i + 1).last() == entries@[i as int]);
        }
        if let Some(n) = entries[i] {
            if !missing.is_user_missing(n) {
                out.push(n);
            }
        }
        i = i + 1;
    }
    proof {
        assert(entries@.take(entries@.len() as int) =~= entries@);
    }
    out
}

/// Takes powers of the standardized numbers.
fn take_powers<F: Fn(NumOp) -> Number>(
    v: &Vec<Number>,
    mean: Number,
    sd: Number,
    k: i32,
    calc: &F,
) -> (r: Vec<Number>)
    requires
        arith::steady(*calc),
    ensures
        r@ == powers(v@, mean, sd, k, *calc),
{
    let ghost all = powers(v@, mean, sd, k, *calc);
    let mut out: Vec<Number> = Vec::new();
    let mut i: usize = 0;
    while i < v.len()
        invariant
            i <= v@.len(),
            arith::steady(*calc),
            all == powers(v@, mean, sd, k, *calc),
            out@ =~= all.take(i as int),
        decreases v@.len() - i,
    {
        let d = perform(calc, NumOp::Sub(v[i], mean));
        let z = perform(calc, NumOp::Div(d, sd));
        out.push(perform(calc, NumOp::PowInt(z, k)));
        i = i + 1;
    }
    proof {
        assert(all.take(all.len() as int) =~= all);
    }
    out
}

/// The statistics of a variable.
struct Summary {
    sum: Number,
    mean: Number,
    min: Number,
    max: Number,
    range: Number,
    variance: Number,
    std_dev: Number,
    skewness: Number,
    kurtosis: Number,
}

impl Summary {
    /// The field of a statistic.
    closed spec fn field(&self, s: Statistic) -> Number {
        match s {
            Statistic::Mean => self.mean,
            Statistic::StdDev => self.std_dev,
            Statistic::Min => self.min,
            Statistic::Max => self.max,
            Statistic::Variance => self.variance,
            Statistic::Skewness => self.skewness,
            Statistic::Kurtosis => self.kurtosis,
            Statistic::Sum => self.sum,
            Statistic::Range => self.range,
        }
    }

    /// The fields are the statistics of these numbers.
    closed spec fn describes<F: Fn(NumOp) -> Number>(&self, v: Seq<Number>, calc: F) -> bool {
        forall|s: Statistic| #[trigger] self.field(s) == statistic(v, s, calc)
    }

    /// The field of a statistic.
    fn get(&self, s: Statistic) -> (r: Number)
        ensures
            r == self.field(s),
    {
        match s {
            Statistic::Mean => self.mean,
            Statistic::StdDev => self.std_dev,
            Statistic::Min => self.min,
            Statistic::Max => self.max,
            Statistic::Variance => self.variance,
            Statistic::Skewness => self.skewness,
            Statistic::Kurtosis => self.kurtosis,
            Statistic::Sum => self.sum,
            Statistic::Range => self.range,
        }
    }
}

/// Computes the skewness.
fn find_skewness<F: Fn(NumOp) -> Number>(v: &Vec<Number>, mean: Number, sd: Number, calc: &F) -> (r:
    Number)
    requires
        arith::steady(*calc),
        mean == mean_value(v@, *calc),
        sd == deviation_value(v@, *calc),
    ensures
        r == skewness_value(v@, *calc),
{
    let n = v.len();
    if n <= 2 || !Number::from_usize(0).is_below(&sd) {
        return Number::not_a_number();
    }
    let cubes = take_powers(v, mean, sd, 3, calc);
    let total = sum(&cubes, calc);
    let product = perform(
        calc,
        NumOp::Mul(Number::from_usize(n - 1), Number::from_usize(n - 2)),
    );
    let factor = perform(calc, NumOp::Div(Number::from_usize(n), product));
    perform(calc, NumOp::Mul(factor, total))
}

proof fn lemma_products_fit(n: int)
    requires
        3 < n <= MOST_CASES,
    ensures
        n * (n + 1) <= u128::MAX,
        0 <= (n - 1) * (n - 2) <= u128::MAX,
        0 <= (n - 1) * (n - 2) * (n - 3) <= u128::MAX,
        0 <= (n - 2) * (n - 3) <= u128::MAX,
{
    let m = MOST_CASES as int;
    assert(n * (n + 1) <= m * (m + 1)) by (nonlinear_arith)
        requires
            3 < n <= m,
    ;
    assert(0 <= (n - 1) * (n - 2) <= m * m) by (nonlinear_arith)
        requires
            3 < n <= m,
    ;
    assert(0 <= (n - 2) * (n - 3) <= m * m) by (nonlinear_arith)
        requires
            3 < n <= m,
    ;
    let p = (n - 1) * (n - 2);
    assert(0 <= p * (n - 3) <= (m * m) * m) by (nonlinear_arith)
        requires
            3 < n <= m,
            0 <= p <= m * m,
    ;
}

/// Computes the kurtosis.
fn find_kurtosis<F: Fn(NumOp) -> Number>(v: &Vec<Number>, mean: Number, sd: Number, calc: &F) -> (r:
    Number)
    requires
        arith::steady(*calc),
        v@.len() <= MOST_CASES,
        mean == mean_value(v@, *calc),
        sd == deviation_value(v@, *calc),
    ensures
        r == kurtosis_value(v@, *calc),
{
    if v.len() <= 3 || !Number::from_usize(0).is_below(&sd) {
        return Number::not_a_number();
    }
    let n: u128 = v.len() as u128;
    proof {
        lemma_products_fit(n as int);
    }
    let fourths = take_powers(v, mean, sd, 4, calc);
    let total = sum(&fourths, calc);
    let above = Number::from_u128(n * (n + 1));
    let below = Number::from_u128((n - 1) * (n - 2) * (n - 3));
    let factor = perform(calc, NumOp::Div(above, below));
    let first = perform(calc, NumOp::Mul(factor, total));
    let square = perform(calc, NumOp::PowInt(Number::from_u128(n - 1), 2));
    let triple = perform(calc, NumOp::Mul(Number::from_u128(3), square));
    let second = perform(calc, NumOp::Div(triple, Number::from_u128((n - 2) * (n - 3))));
    perform(calc, NumOp::Sub(first, second))
}

/// Computes all statistics.
fn summarize<F: Fn(NumOp) -> Number>(v: &Vec<Number>, calc: &F) -> (r: Summary)
    requires
        arith::steady(*calc),
        v@.len() <= MOST_CASES,
    ensures
        r.describes(v@, *calc),
{
    let n = v.len();
    let total = sum(v, calc);
    let mut average = Number::not_a_number();
    let mut min = Number::not_a_number();
    let mut max = Number::not_a_number();
    let mut range = Number::not_a_number();
    if n > 0 {
        average = mean(v, calc);
        min = find_least(v);
        max = find_greatest(v);
        range = perform(calc, NumOp::Sub(max, min));
    }
    let mut variance = Number::not_a_number();
    let mut std_dev = Number::not_a_number();
    if n > 1 {
        let squares = squared_deviations(v, average, calc);
        let square_sum = sum(&squares, calc);
        variance = perform(calc, NumOp::Div(square_sum, Number::from_usize(n - 1)));
        std_dev = perform(calc, NumOp::Sqrt(variance));
    }
    let skewness = find_skewness(v, average, std_dev, calc);
    let kurtosis = find_kurtosis(v, average, std_dev, calc);
    Summary { sum: total, mean: average, min, max, range, variance, std_dev, skewness, kurtosis }
}

/// Format values as string, displaying "." for what is not a number.
pub fn format_val<S: Fn(Number, Style) -> String>(val: Number, decimals: u8, shown: &S) -> (r: String)
    requires
        arith::steady_text(*shown),
    ensures
        r@ == value_text(val, decimals, *shown),
{
    if val.is_nan() {
        ".".to_owned()
    } else {
        show(shown, val, Style::Fixed(decimals))
    }
}

/// The header of a statistic.
fn name_of(s: Statistic) -> (r: String)
    ensures
        r@ == statistic_name(s),
{
    match s {
        Statistic::Mean => "Mean".to_owned(),
        Statistic::StdDev => "Std. Deviation".to_owned(),
        Statistic::Min => "Minimum".to_owned(),
        Statistic::Max => "Maximum".to_owned(),
        Statistic::Variance => "Variance".to_owned(),
        Statistic::Skewness => "Skewness".to_owned(),
        Statistic::Kurtosis => "Kurtosis".to_owned(),
        Statistic::Sum => "Sum".to_owned(),
        Statistic::Range => "Range".to_owned(),
    }
}

/// Makes the row of a variable.
fn make_row<F: Fn(NumOp) -> Number, S: Fn(Number, Style) -> String>(
    var: &Variable,
    v: &Vec<Number>,
    stats: &Vec<Statistic>,
    calc: &F,
    shown: &S,
) -> (r: Vec<String>)
    requires
        arith::steady(*calc),
        arith::steady_text(*shown),
        v@.len() <= MOST_CASES,
    ensures
        text::views(r@) == variable_row(var@, v@, stats@, *calc, *shown),
{
    let ghost all = variable_row(var@, v@, stats@, *calc, *shown);
    let summary = summarize(v, calc);
    let mut row: Vec<String> = Vec::new();
    let name = match &var.label {
        Some(l) => l.clone(),
        None => var.name.clone(),
    };
    row.push(name);
    row.push(decimal_of(v.len() as u64));
    proof {
        assert(text::views(row@) =~= all.take(2));
    }
    let mut i: usize = 0;
    while i < stats.len()
        invariant
            i <= stats@.len(),
            arith::steady_text(*shown),
            summary.describes(v@, *calc),
            all == variable_row(var@, v@, stats@, *calc, *shown),
            text::views(row@) =~= all.take(2 + i),
        decreases stats@.len() - i,
    {
        let s = stats[i];
        let decimals: u8 = match s {
            Statistic::Skewness => 3,
            Statistic::Kurtosis => 3,
            _ => var.print_decimals,
        };
        let value = summary.get(s);
        row.push(format_val(value, decimals, shown));
        i = i + 1;
    }
    proof {
        assert(all.take(all.len() as int) =~= all);
    }
    row
}

/// Lists the variables to run on.
fn find_described(dataset: &Dataset, asked: &Vec<String>) -> (r: Vec<usize>)
    requires
        dataset@.wf(),
    ensures
        r@ == described(dataset@, text::views(asked@)),
        forall|k: int| 0 <= k < r@.len() ==> (#[trigger] r@[k]) < dataset@.variables.len(),
{
    if asked.len() > 0 {
        return find_numeric(dataset, asked);
    }
    let ghost vv = dataset@.variables;
    let mut names: Vec<String> = Vec::new();
    let mut i: usize = 0;
    proof {
        assert(vv.take(0) =~= Seq::empty());
        assert(text::views(names@) =~= Seq::empty());
    }
    while i < dataset.variables.len()
        invariant
            i <= dataset.variables@.len(),
            vv == dataset@.variables,
            text::views(names@) == numeric_names(vv.take(i as int)),
        decreases dataset.variables@.len() - i,
    {
        proof {
            assert(vv.take(i + 1).drop_last() =~= vv.take(i as int));
            assert(vv.take(i + 1).last() == vv[i as int]);
        }
        if matches!(dataset.variables[i].var_type, VariableType::Numeric) {
            names.push(dataset.variables[i].name.clone());
        }
        i = i + 1;
    }
    proof {
        assert(vv.take(vv.len() as int) =~= vv);
    }
    find_numeric(dataset, &names)
}

/// Looks up the numeric variables of these names.
fn find_numeric(dataset: &Dataset, names: &Vec<String>) -> (r: Vec<usize>)
    requires
        dataset@.wf(),
    ensures
        r@ == found_numeric(dataset@, text::views(names@)),
        forall|k: int| 0 <= k < r@.len() ==> (#[trigger] r@[k]) < dataset@.variables.len(),
{
    let ghost nv = text::views(names@);
    let mut out: Vec<usize> = Vec::new();
    let mut i: usize = 0;
    proof {
        assert(nv.take(0) =~= Seq::empty());
    }
    while i < names.len()
        invariant
            i <= names@.len(),
            dataset@.wf(),
            nv == text::views(names@),
            out@ == found_numeric(dataset@, nv.take(i as int)),
            forall|k: int|
                0 <= k < out@.len() ==> (#[trigger] out@[k]) < dataset@.variables.len(),
        decreases names@.len() - i,
    {
        proof {
            assert(nv.take(i + 1).drop_last() =~= nv.take(i as int));
            assert(nv.take(i + 1).last() == nv[i as int]);
        }
        if let Some(idx) = dataset.variable_index(names[i].as_str()) {
            if matches!(dataset.variables[idx].var_type, VariableType::Numeric) {
                out.push(idx);
            }
        }
        i = i + 1;
    }
    proof {
        assert(nv.take(nv.len() as int) =~= nv);
    }
    out
}

/// Counts the cases that are valid in all variables.
fn count_listwise(dataset: &Dataset, idxs: &Vec<usize>, data: &Vec<Vec<Option<Number>>>) -> (r: usize)
    requires
        dataset@.n_cases() <= usize::MAX,
        idxs@.len() == data@.len(),
        forall|k: int|
            0 <= k < idxs@.len() ==> (#[trigger] idxs@[k]) < dataset@.variables.len()
                && data@[k]@ == variable_numbers(dataset@, idxs@[k] as int) && data@[k]@.len()
                == dataset@.n_cases(),
    ensures
        r == listwise(dataset@, idxs@),
{
    if idxs.len() == 0 {
        return 0;
    }
    let n = dataset.n_cases();
    let mut total: usize = 0;
    let mut r: usize = 0;
    while r < n
        invariant
            r <= n,
            n == dataset@.n_cases(),
            idxs@.len() == data@.len(),
            forall|k: int|
                0 <= k < idxs@.len() ==> (#[trigger] idxs@[k]) < dataset@.variables.len()
                    && data@[k]@ == variable_numbers(dataset@, idxs@[k] as int) && data@[k]@.len()
                    == dataset@.n_cases(),
            total <= r,
            total == valid_cases(dataset@, idxs@, r as int),
        decreases n - r,
    {
        let mut valid = true;
        let mut k: usize = 0;
        while k < idxs.len()
            invariant
                r < n,
                k <= idxs@.len(),
                n == dataset@.n_cases(),
                idxs@.len() == data@.len(),
                forall|k: int|
                    0 <= k < idxs@.len() ==> (#[trigger] idxs@[k]) < dataset@.variables.len()
                        && data@[k]@ == variable_numbers(dataset@, idxs@[k] as int)
                        && data@[k]@.len() == dataset@.n_cases(),
                valid == forall|j: int|
                    0 <= j < k ==> counts(
                        dataset@.variables[(#[trigger] idxs@[j]) as int].missing,
                        variable_numbers(dataset@, idxs@[j] as int)[r as int],
                    ),
            decreases idxs@.len() - k,
        {
            proof {
                assert(idxs@[k as int] < dataset@.variables.len());
            }
            let entry = data[k][r];
            if !is_counted(&dataset.variables[idxs[k]].missing, entry) {
                proof {
                    assert(!counts(
                        dataset@.variables[idxs@[k as int] as int].missing,
                        variable_numbers(dataset@, idxs@[k as int] as int)[r as int],
                    ));
                }
                valid = false;
            }
            k = k + 1;
        }
        proof {
            assert(valid == case_valid(dataset@, idxs@, r as int));
        }
        if valid {
            total = total + 1;
        }
        r = r + 1;
    }
    total
}

/// Run DESCRIPTIVES on a dataset.
pub fn run<F: Fn(NumOp) -> Number, S: Fn(Number, Style) -> String>(
    dataset: &Dataset,
    options: &DescriptivesOptions,
    calc: &F,
    shown: &S,
) -> (r: Vec<OutputItem>)
    requires
        arith::steady(*calc),
        arith::steady_text(*shown),
        dataset@.wf(),
        dataset@.n_cases() <= usize::MAX,
        dataset@.n_cases() <= MOST_CASES,
        can_describe(dataset@, text::views(options.variables@)),
    ensures
        text::views(r@) == seq![
            OutputView::Table(
                description(
                    dataset@,
                    text::views(options.variables@),
                    options.statistics@,
                    *calc,
                    *shown,
                ),
            ),
        ],
{
    let ghost ds = dataset@;
    let ghost asked = text::views(options.variables@);
    let ghost t = description(ds, asked, options.statistics@, *calc, *shown);
    let idxs = find_described(dataset, &options.variables);
    let mut data: Vec<Vec<Option<Number>>> = Vec::new();
    let mut rows: Vec<Vec<String>> = Vec::new();
    let mut k: usize = 0;
    while k < idxs.len()
        invariant
            k <= idxs@.len(),
            ds == dataset@,
            ds.wf(),
            arith::steady(*calc),
            arith::steady_text(*shown),
            ds.n_cases() <= MOST_CASES,
            asked == text::views(options.variables@),
            can_describe(ds, asked),
            idxs@ == described(ds, asked),
            forall|k: int| 0 <= k < idxs@.len() ==> (#[trigger] idxs@[k]) < ds.variables.len(),
            t == description(ds, asked, options.statistics@, *calc, *shown),
            data@.len() == k,
            forall|j: int|
                0 <= j < k ==> data@[j]@ == variable_numbers(ds, (#[trigger] idxs@[j]) as int)
                    && data@[j]@.len() == ds.n_cases(),
            output::row_texts(rows@) =~= t.rows.take(k as int),
        decreases idxs@.len() - k,
    {
        let idx = idxs[k];
        proof {
            assert(idxs@[k as int] < ds.variables.len());
            assert(rows::covered(ds, described(ds, asked)[k as int] as int));
            lemma_variable_len(ds, idx as int);
            lemma_valid_len(
                ds.variables[idx as int].missing,
                variable_numbers(ds, idx as int),
            );
        }
        let entries = read_variable(dataset, idx);
        let var = &dataset.variables[idx];
        let valid = pick_valid(&var.missing, &entries);
        let row = make_row(var, &valid, &options.statistics, calc, shown);
        let ghost before = rows@;
        rows.push(row);
        data.push(entries);
        proof {
            assert(output::row_texts(rows@) =~= output::row_texts(before).push(text::views(row@)));
        }
        k = k + 1;
    }
    let listwise_n = count_listwise(dataset, &idxs, &data);
    let mut headers: Vec<String> = Vec::new();
    headers.push("Variable".to_owned());
    headers.push("N".to_owned());
    proof {
        assert(text::views(headers@) =~= t.column_headers.take(2));
    }
    let mut i: usize = 0;
    while i < options.statistics.len()
        invariant
            i <= options.statistics@.len(),
            t == description(ds, asked, options.statistics@, *calc, *shown),
            text::views(headers@) =~= t.column_headers.take(2 + i),
        decreases options.statistics@.len() - i,
    {
        headers.push(name_of(options.statistics[i]));
        i = i + 1;
    }
    let count = decimal_of(listwise_n as u64);
    let mut footnotes: Vec<String> = Vec::new();
    footnotes.push(join_two("Valid N (listwise) = ", count.as_str()));
    let table = Table {
        title: "Descriptive Statistics".to_owned(),
        column_headers: headers,
        rows,
        footnotes,
    };
    proof {
        assert(t.column_headers.take(t.column_headers.len() as int) =~= t.column_headers);
        assert(t.rows.take(t.rows.len() as int) =~= t.rows);
        assert(table@ =~= t);
    }
    let mut out: Vec<OutputItem> = Vec::new();
    out.push(OutputItem::Table(table));
    proof {
        assert(text::views(out@) =~= seq![OutputView::Table(t)]);
    }
    out
}

/// DESCRIPTIVES, where every batch has the columns of the variables.
pub fn try_run<F: Fn(NumOp) -> Number, S: Fn(Number, Style) -> String>(
    dataset: &Dataset,
    options: &DescriptivesOptions,
    calc: &F,
    shown: &S,
) -> (r: Option<Vec<OutputItem>>)
    requires
        arith::steady(*calc),
        arith::steady_text(*shown),
        dataset@.wf(),
        dataset@.n_cases() <= usize::MAX,
        dataset@.n_cases() <= MOST_CASES,
    ensures
        match r {
            Some(x) => can_describe(dataset@, text::views(options.variables@)) && text::views(x@)
                == seq![
                OutputView::Table(
                    description(
                        dataset@,
                        text::views(options.variables@),
                        options.statistics@,
                        *calc,
                        *shown,
                    ),
                ),
            ],
            None => !can_describe(dataset@, text::views(options.variables@)),
        },
{
    let idxs = find_described(dataset, &options.variables);
    let mut k: usize = 0;
    while k < idxs.len()
        invariant
            k <= idxs@.len(),
            idxs@ == described(dataset@, text::views(options.variables@)),
            forall|j: int| 0 <= j < k ==> rows::covered(dataset@, (#[trigger] idxs@[j]) as int),
        decreases idxs@.len() - k,
    {
        if !is_covered(dataset, idxs[k]) {
            proof {
                assert(!rows::covered(dataset@, idxs@[k as int] as int));
            }
            return None;
        }
        k = k + 1;
    }
    Some(run(dataset, options, calc, shown))
}

} // verus!
