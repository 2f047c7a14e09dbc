//! AGGREGATE.
use vstd::prelude::*;

use crate::arith;
use crate::arith::{find_greatest, find_least, mean, sum, NumOp};
use crate::batch::{Column, ColumnView};
use crate::dataset::{Dataset, DatasetView};
use crate::expr::builtin;
use crate::expr::builtin::collect_numbers;
use crate::number;
use crate::number::Number;
use crate::text;
use crate::transform::rows;
use crate::transform::rows::{
    are_usable, get_first_values, get_values, group_by, is_readable, make_column, make_table,
    name_error, resolve,
};
use crate::value::{Value, ValueView};
use crate::variable;
use crate::variable::{Variable, VariableType, VariableView};

verus! {

broadcast use crate::text::lemma_views_push;

/// What is computed for each group; all but the count have a source variable.
#[derive(Debug, Clone)]
pub enum AggFunction {
    Sum(String),
    Mean(String),
    Min(String),
    Max(String),
    Count,
}

/// A variable to compute.
#[derive(Debug, Clone)]
pub struct AggSpec {
    pub target_var: String,
    pub function: AggFunction,
}

/// What an [`AggFunction`] holds.
#[verifier::ext_equal]
pub enum AggFunctionView {
    Sum(Seq<char>),
    Mean(Seq<char>),
    Min(Seq<char>),
    Max(Seq<char>),
    Count,
}

/// What an [`AggSpec`] holds.
#[verifier::ext_equal]
pub struct AggSpecView {
    pub target_var: Seq<char>,
    pub function: AggFunctionView,
}

impl View for AggFunction {
    type V = AggFunctionView;

    open spec fn view(&self) -> AggFunctionView {
        match self {
            AggFunction::Sum(s) => AggFunctionView::Sum(s@),
            AggFunction::Mean(s) => AggFunctionView::Mean(s@),
            AggFunction::Min(s) => AggFunctionView::Min(s@),
            AggFunction::Max(s) => AggFunctionView::Max(s@),
            AggFunction::Count => AggFunctionView::Count,
        }
    }
}

impl View for AggSpec {
    type V = AggSpecView;

    open spec fn view(&self) -> AggSpecView {
        AggSpecView { target_var: self.target_var@, function: self.function@ }
    }
}

impl AggFunctionView {
    /// The name of the source variable.
    pub open spec fn source(self) -> Option<Seq<char>> {
        match self {
            AggFunctionView::Sum(s) => Some(s),
            AggFunctionView::Mean(s) => Some(s),
            AggFunctionView::Min(s) => Some(s),
            AggFunctionView::Max(s) => Some(s),
            AggFunctionView::Count => None,
        }
    }
}

impl AggFunction {
    /// The name of the source variable.
    fn source(&self) -> (r: Option<&String>)
        ensures
            match r {
                Some(s) => self@.source() == Some(s@),
                None => self@.source() is None,
            },
    {
        match self {
            AggFunction::Sum(s) => Some(s),
            AggFunction::Mean(s) => Some(s),
            AggFunction::Min(s) => Some(s),
            AggFunction::Max(s) => Some(s),
            AggFunction::Count => None,
        }
    }
}

/// What a function gives of the numbers of a source variable; nothing where there
/// is no number.
pub open spec fn summary<F: Fn(NumOp) -> Number>(
    f: AggFunctionView,
    nums: Seq<Number>,
    calc: F,
) -> ValueView {
    if nums.len() == 0 {
        ValueView::SystemMissing
    } else {
        match f {
            AggFunctionView::Sum(_) => ValueView::Numeric(arith::sum_of(nums, calc)),
            AggFunctionView::Mean(_) => ValueView::Numeric(arith::mean_of(nums, calc)),
            AggFunctionView::Min(_) => ValueView::Numeric(arith::least(nums)),
            AggFunctionView::Max(_) => ValueView::Numeric(arith::greatest(nums)),
            AggFunctionView::Count => ValueView::SystemMissing,
        }
    }
}

/// What a function gives for a group of rows.
pub open spec fn group_value<F: Fn(NumOp) -> Number>(
    ds: DatasetView,
    rows: Seq<(usize, usize)>,
    f: AggFunctionView,
    calc: F,
) -> ValueView {
    match f.source() {
        None => ValueView::Numeric(number::nearest(rows.len() as int)),
        Some(name) => summary(
            f,
            builtin::numbers_of(rows::values_at(ds, rows, ds.index_of(name)->0 as int)),
            calc,
        ),
    }
}

/// What a function gives for each group.
pub open spec fn group_values<F: Fn(NumOp) -> Number>(
    ds: DatasetView,
    groups: Seq<Seq<(usize, usize)>>,
    f: AggFunctionView,
    calc: F,
) -> Seq<ValueView> {
    Seq::new(groups.len(), |g: int| group_value(ds, groups[g], f, calc))
}

/// The first from `i` on whose source variable the dataset does not have.
pub open spec fn first_unknown(ds: DatasetView, specs: Seq<AggSpecView>, i: int) -> Option<int>
    decreases specs.len() - i,
{
    if i < 0 || i >= specs.len() {
        None
    } else if specs[i].function.source() matches Some(name) && ds.index_of(name) is None {
        Some(i)
    } else {
        first_unknown(ds, specs, i + 1)
    }
}

/// The variables of the result: those that tell the groups apart, then the
/// computed ones.
pub open spec fn result_variables(
    ds: DatasetView,
    idxs: Seq<usize>,
    specs: Seq<AggSpecView>,
) -> Seq<VariableView> {
    Seq::new(idxs.len(), |i: int| ds.variables[idxs[i] as int]) + Seq::new(
        specs.len(),
        |k: int| variable::numeric_variable(specs[k].target_var),
    )
}

/// The columns of the result, with an entry for each group.
pub open spec fn result_columns<F: Fn(NumOp) -> Number>(
    ds: DatasetView,
    idxs: Seq<usize>,
    specs: Seq<AggSpecView>,
    calc: F,
) -> Seq<ColumnView> {
    Seq::new(
        idxs.len(),
        |i: int|
            rows::typed_column(
                ds.variables[idxs[i] as int].var_type,
                rows::first_values(ds, rows::grouped(ds, idxs), idxs[i] as int),
            ),
    ) + Seq::new(
        specs.len(),
        |k: int|
            rows::typed_column(
                VariableType::Numeric,
                group_values(ds, rows::grouped(ds, idxs), specs[k].function, calc),
            ),
    )
}

/// What AGGREGATE gives: a row for each group of rows with equal keys of the
/// break variables, in the order in which the groups come first.
pub open spec fn aggregated<F: Fn(NumOp) -> Number>(
    ds: DatasetView,
    breaks: Seq<Seq<char>>,
    specs: Seq<AggSpecView>,
    calc: F,
) -> Result<DatasetView, Seq<char>> {
    if ds.batches.len() == 0 {
        Ok(rows::nothing())
    } else {
        match rows::first_missing(ds, breaks, 0) {
            Some(k) => Err("Break var not found: "@ + breaks[k]),
            None => {
                let idxs = rows::indices_of(ds, breaks);
                match first_unknown(ds, specs, 0) {
                    Some(k) if ds.n_cases() > 0 => Err(
                        "Var not found: "@ + specs[k].function.source()->0,
                    ),
                    _ => rows::table_of(
                        result_variables(ds, idxs, specs),
                        result_columns(ds, idxs, specs, calc),
                    ),
                }
            },
        }
    }
}

/// The first `n` source variables can be read.
pub open spec fn sources_readable(ds: DatasetView, specs: Seq<AggSpecView>, n: int) -> bool {
    forall|k: int|
        0 <= k < n ==> ((#[trigger] specs[k]).function.source() matches Some(name) ==> ds.readable(
            ds.index_of(name)->0 as int,
        ))
}

/// The data that AGGREGATE comes to read can be read.
pub open spec fn can_aggregate(
    ds: DatasetView,
    breaks: Seq<Seq<char>>,
    specs: Seq<AggSpecView>,
) -> bool {
    ds.batches.len() > 0 && rows::first_missing(ds, breaks, 0) is None ==> {
        &&& rows::usable(ds, rows::indices_of(ds, breaks))
        &&& sources_readable(
            ds,
            specs,
            match first_unknown(ds, specs, 0) {
                Some(k) => k,
                None => specs.len() as int,
            },
        )
    }
}

proof fn lemma_first_unknown(ds: DatasetView, specs: Seq<AggSpecView>, i: int)
    requires
        0 <= i,
    ensures
        match first_unknown(ds, specs, i) {
            Some(k) => i <= k < specs.len() && specs[k].function.source() is Some && forall|j: int|
                i <= j < k ==> ((#[trigger] specs[j]).function.source() matches Some(name)
                    ==> ds.index_of(name) is Some),
            None => forall|j: int|
                i <= j < specs.len() ==> ((#[trigger] specs[j]).function.source() matches Some(name)
                    ==> ds.index_of(name) is Some),
        },
    decreases specs.len() - i,
{
    if i < specs.len() && !(specs[i].function.source() matches Some(name) && ds.index_of(name)
        is None) {
        lemma_first_unknown(ds, specs, i + 1);
    }
}

/// Finds the first whose source variable the dataset does not have.
fn find_unknown(ds: &Dataset, specs: &[AggSpec]) -> (r: Option<usize>)
    ensures
        match r {
            Some(k) => first_unknown(ds@, text::views(specs@), 0) == Some(k as int) && k
                < specs@.len(),
            None => first_unknown(ds@, text::views(specs@), 0) is None,
        },
{
    let ghost sv = text::views(specs@);
    let mut i: usize = 0;
    while i < specs.len()
        invariant
            i <= specs@.len(),
            sv == text::views(specs@),
            first_unknown(ds@, sv, 0) == first_unknown(ds@, sv, i as int),
        decreases specs@.len() - i,
    {
        proof {
            assert(sv[i as int] == specs@[i as int]@);
        }
        if let Some(name) = specs[i].function.source() {
            if ds.variable_index(name.as_str()).is_none() {
                return Some(i);
            }
        }
        i = i + 1;
    }
    None
}

/// Computes a function of the numbers of a source variable.
fn summarize<F: Fn(NumOp) -> Number>(f: &AggFunction, nums: &Vec<Number>, calc: &F) -> (r: Value)
    requires
        arith::steady(*calc),
    ensures
        r@ == summary(f@, nums@, *calc),
{
    if nums.len() == 0 {
        return Value::SystemMissing;
    }
    match f {
        AggFunction::Sum(_) => Value::Numeric(sum(nums, calc)),
        AggFunction::Mean(_) => Value::Numeric(mean(nums, calc)),
        AggFunction::Min(_) => Value::Numeric(find_least(nums)),
        AggFunction::Max(_) => Value::Numeric(find_greatest(nums)),
        AggFunction::Count => Value::SystemMissing,
    }
}

/// The numbers of a variable at several positions.
pub fn get_group_numeric_values(ds: &Dataset, positions: &Vec<(usize, usize)>, var_idx: usize) -> (r:
    Vec<Number>)
    requires
        ds@.wf(),
        var_idx < ds@.variables.len(),
        forall|i: int| 0 <= i < positions@.len() ==> rows::in_range(ds@, #[trigger] positions@[i]),
        ds@.readable(var_idx as int),
    ensures
        r@ == builtin::numbers_of(rows::values_at(ds@, positions@, var_idx as int)),
{
    let vals = get_values(ds, positions, var_idx);
    collect_numbers(&vals)
}

/// Computes a function for each group.
fn aggregate_groups<F: Fn(NumOp) -> Number>(
    ds: &Dataset,
    groups: &Vec<Vec<(usize, usize)>>,
    f: &AggFunction,
    calc: &F,
) -> (r: Vec<Value>)
    requires
        arith::steady(*calc),
        ds@.wf(),
        rows::sound_groups(ds@, rows::lists(groups@)),
        groups@.len() > 0 ==> (f@.source() matches Some(name) ==> ds@.index_of(name) is Some
            && ds@.readable(ds@.index_of(name)->0 as int)),
    ensures
        text::views(r@) == group_values(ds@, rows::lists(groups@), f@, *calc),
{
    let ghost lv = rows::lists(groups@);
    let ghost all = group_values(ds@, lv, f@, *calc);
    let mut out: Vec<Value> = Vec::new();
    let mut g: usize = 0;
    while g < groups.len()
        invariant
            g <= groups.len(),
            arith::steady(*calc),
            ds@.wf(),
            lv == rows::lists(groups@),
            all == group_values(ds@, lv, f@, *calc),
            rows::sound_groups(ds@, lv),
            groups@.len() > 0 ==> (f@.source() matches Some(name) ==> ds@.index_of(name) is Some
                && ds@.readable(ds@.index_of(name)->0 as int)),
            text::views(out@) =~= all.take(g as int),
        decreases groups.len() - g,
    {
        proof {
            assert(lv[g as int] == groups@[g as int]@);
            assert forall|m: int| 0 <= m < groups@[g as int]@.len() implies rows::in_range(
                ds@,
                #[trigger] groups@[g as int]@[m],
            ) by {
                assert(rows::in_range(ds@, lv[g as int][m]));
            }
        }
        let v = match f.source() {
            None => Value::Numeric(Number::from_usize(groups[g].len())),
            Some(name) => match ds.variable_index(name.as_str()) {
                Some(idx) => {
                    let nums = get_group_numeric_values(ds, &groups[g], idx);
                    summarize(f, &nums, calc)
                },
                None => Value::SystemMissing,
            },
        };
        out.push(v);
        g = g + 1;
    }
    proof {
        assert(all.take(lv.len() as int) =~= all);
    }
    out
}

/// AGGREGATE: one row for each group of rows that agree in the break
/// variables.
pub fn aggregate<F: Fn(NumOp) -> Number>(
    dataset: &Dataset,
    break_vars: &[String],
    specs: &[AggSpec],
    calc: &F,
) -> (r: Result<Dataset, String>)
    requires
        arith::steady(*calc),
        dataset@.wf(),
        can_aggregate(dataset@, text::views(break_vars@), text::views(specs@)),
    ensures
        rows::gives(
            r,
            aggregated(dataset@, text::views(break_vars@), text::views(specs@), *calc),
        ),
{
    if dataset.batches.len() == 0 {
        return Ok(Dataset::new());
    }
    let ghost ds = dataset@;
    let ghost sv = text::views(specs@);
    let idxs = match resolve(dataset, break_vars) {
        Ok(idxs) => idxs,
        Err(k) => {
            return Err(name_error("Break var not found: ", break_vars[k].as_str()));
        },
    };
    let groups = group_by(dataset, &idxs);
    let ghost lv = rows::lists(groups@);
    proof {
        assert(ds.batches.len() == dataset.batches.len());
        rows::lemma_grouped(ds, idxs@);
        lemma_first_unknown(ds, sv, 0);
        assert(lv.len() == groups@.len());
    }
    if groups.len() > 0 {
        if let Some(k) = find_unknown(dataset, specs) {
            proof {
                assert(sv[k as int] == specs@[k as int]@);
            }
            if let Some(name) = specs[k].function.source() {
                return Err(name_error("Var not found: ", name.as_str()));
            }
        }
    }
    let ghost vars = result_variables(ds, idxs@, sv);
    let ghost cols = result_columns(ds, idxs@, sv, *calc);
    let mut variables: Vec<Variable> = Vec::new();
    let mut columns: Vec<Column> = Vec::new();
    let mut i: usize = 0;
    while i < idxs.len()
        invariant
            i <= idxs@.len(),
            ds == dataset@,
            ds.wf(),
            rows::usable(ds, idxs@),
            lv == rows::lists(groups@),
            lv == rows::grouped(ds, idxs@),
            rows::sound_groups(ds, lv),
            vars == result_variables(ds, idxs@, sv),
            cols == result_columns(ds, idxs@, sv, *calc),
            text::views(variables@) =~= vars.take(i as int),
            text::views(columns@) =~= cols.take(i as int),
        decreases idxs@.len() - i,
    {
        proof {
            assert(idxs@[i as int] < ds.variables.len());
        }
        let idx = idxs[i];
        variables.push(dataset.variables[idx].clone());
        let vals = get_first_values(dataset, &groups, idx);
        columns.push(make_column(dataset.variables[idx].var_type, &vals));
        i = i + 1;
    }
    let mut k: usize = 0;
    while k < specs.len()
        invariant
            k <= specs@.len(),
            arith::steady(*calc),
            ds == dataset@,
            ds.wf(),
            sv == text::views(specs@),
            lv == rows::lists(groups@),
            lv == rows::grouped(ds, idxs@),
            rows::sound_groups(ds, lv),
            vars == result_variables(ds, idxs@, sv),
            cols == result_columns(ds, idxs@, sv, *calc),
            groups@.len() > 0 ==> forall|j: int|
                0 <= j < sv.len() ==> ((#[trigger] sv[j]).function.source() matches Some(name)
                    ==> ds.index_of(name) is Some && ds.readable(ds.index_of(name)->0 as int)),
            text::views(variables@) =~= vars.take(idxs@.len() + k),
            text::views(columns@) =~= cols.take(idxs@.len() + k),
        decreases specs@.len() - k,
    {
        proof {
            assert(sv[k as int] == specs@[k as int]@);
        }
        variables.push(Variable::numeric(specs[k].target_var.as_str()));
        let vals = aggregate_groups(dataset, &groups, &specs[k].function, calc);
        columns.push(make_column(VariableType::Numeric, &vals));
        k = k + 1;
    }
    proof {
        assert(vars.take(vars.len() as int) =~= vars);
        assert(cols.take(cols.len() as int) =~= cols);
    }
    make_table(variables, columns)
}

/// Whether the first `n` source variables can be read.
fn are_sources_readable(ds: &Dataset, specs: &[AggSpec], n: usize) -> (r: bool)
    requires
        ds@.wf(),
        n <= specs@.len(),
        forall|j: int|
            0 <= j < n ==> ((#[trigger] text::views(specs@)[j]).function.source() matches Some(name)
                ==> ds@.index_of(name) is Some),
    ensures
        r == sources_readable(ds@, text::views(specs@), n as int),
{
    let ghost sv = text::views(specs@);
    let mut k: usize = 0;
    while k < n
        invariant
            k <= n <= specs@.len(),
            ds@.wf(),
            sv == text::views(specs@),
            sources_readable(ds@, sv, k as int),
            forall|j: int|
                0 <= j < n ==> ((#[trigger] sv[j]).function.source() matches Some(name)
                    ==> ds@.index_of(name) is Some),
        decreases n - k,
    {
        proof {
            assert(sv[k as int] == specs@[k as int]@);
        }
        if let Some(name) = specs[k].function.source() {
            if let Some(idx) = ds.variable_index(name.as_str()) {
                if !is_readable(ds, idx) {
                    proof {
                        let at = ds@.index_of(sv[k as int].function.source()->0)->0 as int;
                        assert(!ds@.readable(at));
                    }
                    return false;
                }
            }
        }
        k = k + 1;
    }
    true
}

/// AGGREGATE, where the data can be read.
pub fn try_aggregate<F: Fn(NumOp) -> Number>(
    dataset: &Dataset,
    break_vars: &[String],
    specs: &[AggSpec],
    calc: &F,
) -> (r: Option<Result<Dataset, String>>)
    requires
        arith::steady(*calc),
        dataset@.wf(),
    ensures
        match r {
            Some(x) => can_aggregate(dataset@, text::views(break_vars@), text::views(specs@))
                && rows::gives(
                x,
                aggregated(dataset@, text::views(break_vars@), text::views(specs@), *calc),
            ),
            None => !can_aggregate(dataset@, text::views(break_vars@), text::views(specs@)),
        },
{
    let ghost ds = dataset@;
    let ghost sv = text::views(specs@);
    if dataset.batches.len() > 0 {
        if let Ok(idxs) = resolve(dataset, break_vars) {
            if !are_usable(dataset, &idxs) {
                return None;
            }
            let n = match find_unknown(dataset, specs) {
                Some(k) => k,
                None => specs.len(),
            };
            proof {
                lemma_first_unknown(ds, sv, 0);
            }
            if !are_sources_readable(dataset, specs, n) {
                return None;
            }
        }
    }
    Some(aggregate(dataset, break_vars, specs, calc))
}

} // verus!
