//! RESHAPE: VARSTOCASES, from wide to long.
use vstd::prelude::*;

use crate::batch;
use crate::batch::{kind_for, Cell, Column, ColumnView};
use crate::dataset::{Dataset, DatasetView};
use crate::number;
use crate::number::Number;
use crate::text;
use crate::transform::rows;
use crate::transform::rows::{
    array_from_values, get_batch_row_index, get_cell_value, is_legible_at, is_readable,
    make_column, make_table, name_error,
};
use crate::value::{Value, ValueView};
use crate::variable;
use crate::variable::{Variable, VariableType, VariableView};

verus! {

broadcast use crate::text::lemma_views_push;

/// A variable that takes the values of several others in turn.
#[derive(Debug, Clone)]
pub struct TransposeSpec {
    pub target_var: String,
    pub source_vars: Vec<String>,
}

/// What a [`TransposeSpec`] holds.
#[verifier::ext_equal]
pub struct TransposeView {
    pub target_var: Seq<char>,
    pub source_vars: Seq<Seq<char>>,
}

impl View for TransposeSpec {
    type V = TransposeView;

    open spec fn view(&self) -> TransposeView {
        TransposeView {
            target_var: self.target_var@,
            source_vars: text::views(self.source_vars@),
        }
    }
}

/// Each position `n` times.
pub open spec fn repeated(at: Seq<(usize, usize)>, n: nat) -> Seq<(usize, usize)>
    decreases at.len(),
{
    if at.len() == 0 {
        Seq::empty()
    } else {
        repeated(at.drop_last(), n) + Seq::new(n, |j: int| at.last())
    }
}

/// The values of several variables, row after row.
pub open spec fn row_values(ds: DatasetView, at: Seq<(usize, usize)>, idxs: Seq<usize>) -> Seq<
    ValueView,
>
    decreases at.len(),
{
    if at.len() == 0 {
        Seq::empty()
    } else {
        row_values(ds, at.drop_last(), idxs) + Seq::new(
            idxs.len(),
            |j: int| rows::value_at(ds, at.last(), idxs[j] as int),
        )
    }
}

/// The numbers from one to `n`, for each of `cases` cases.
pub open spec fn counters(cases: nat, n: nat) -> Seq<ValueView>
    decreases cases,
{
    if cases == 0 {
        Seq::empty()
    } else {
        counters((cases - 1) as nat, n) + Seq::new(
            n,
            |j: int| ValueView::Numeric(number::nearest(j + 1)),
        )
    }
}

/// The entries of a variable at several positions.
pub open spec fn column_at(ds: DatasetView, idx: int, at: Seq<(usize, usize)>) -> ColumnView {
    ColumnView {
        kind: batch::kind_of_type(ds.variables[idx].var_type),
        cells: Seq::new(
            at.len(),
            |i: int| ds.batches[at[i].0 as int].columns[idx].cells[at[i].1 as int],
        ),
    }
}

/// A variable that is kept, with its entry for each of the new rows.
pub open spec fn kept_part(ds: DatasetView, name: Seq<char>, n: nat) -> Option<
    Result<(VariableView, ColumnView), Seq<char>>,
> {
    match ds.index_of(name) {
        None => Some(Err("Keep var not found: "@ + name)),
        Some(idx) => if n == 0 || ds.readable(idx as int) {
            Some(
                Ok(
                    (
                        ds.variables[idx as int],
                        column_at(ds, idx as int, repeated(rows::positions(ds), n)),
                    ),
                ),
            )
        } else {
            None
        },
    }
}

/// Whether the first row of sources can be read, from the `j`th source on: the
/// first that cannot stops.
pub open spec fn sources_from(ds: DatasetView, names: Seq<Seq<char>>, n: int, j: int) -> Option<
    Result<(), Seq<char>>,
>
    decreases n - j,
{
    if j >= n {
        Some(Ok(()))
    } else if j < 0 || j >= names.len() {
        None
    } else {
        match ds.index_of(names[j]) {
            None => Some(Err("Source var not found: "@ + names[j])),
            Some(idx) => if ds.legible_at(
                rows::positions(ds)[0].0 as int,
                rows::positions(ds)[0].1 as int,
                idx as int,
            ) {
                sources_from(ds, names, n, j + 1)
            } else {
                None
            },
        }
    }
}

/// The values that a new variable takes: those of its first `n` sources, row after
/// row.
pub open spec fn source_values(ds: DatasetView, names: Seq<Seq<char>>, n: nat) -> Option<
    Result<Seq<ValueView>, Seq<char>>,
> {
    if rows::positions(ds).len() == 0 || n == 0 {
        Some(Ok(Seq::empty()))
    } else {
        match sources_from(ds, names, n as int, 0) {
            None => None,
            Some(Err(e)) => Some(Err(e)),
            Some(Ok(_)) => {
                let idxs = rows::indices_of(ds, names.take(n as int));
                if rows::usable(ds, idxs) {
                    Some(Ok(row_values(ds, rows::positions(ds), idxs)))
                } else {
                    None
                }
            },
        }
    }
}

/// A variable for values, and its column.
pub open spec fn value_part(name: Seq<char>, vals: Seq<ValueView>) -> (VariableView, ColumnView) {
    (
        variable::variable_of(name, rows::type_of_values(vals)),
        rows::typed_column(rows::type_of_values(vals), vals),
    )
}

/// A new variable, with its entry for each of the new rows.
pub open spec fn new_part(ds: DatasetView, one: TransposeView, n: nat) -> Option<
    Result<(VariableView, ColumnView), Seq<char>>,
> {
    match source_values(ds, one.source_vars, n) {
        Some(Ok(vals)) => Some(Ok(value_part(one.target_var, vals))),
        Some(Err(e)) => Some(Err(e)),
        None => None,
    }
}

/// The variable that counts the rows of a case.
pub open spec fn counter_part(ds: DatasetView, name: Seq<char>, n: nat) -> (
    VariableView,
    ColumnView,
) {
    (
        variable::numeric_variable(name),
        rows::typed_column(VariableType::Numeric, counters(rows::positions(ds).len(), n)),
    )
}

/// The variables of the result with their columns: kept, new, and the counter.
pub open spec fn long_parts(
    ds: DatasetView,
    specs: Seq<TransposeView>,
    index_var: Option<Seq<char>>,
    keep: Seq<Seq<char>>,
) -> Seq<Option<Result<(VariableView, ColumnView), Seq<char>>>> {
    let n = specs[0].source_vars.len();
    Seq::new(keep.len(), |k: int| kept_part(ds, keep[k], n)) + Seq::new(
        specs.len(),
        |k: int| new_part(ds, specs[k], n),
    ) + match index_var {
        Some(name) => seq![Some(Ok(counter_part(ds, name, n)))],
        None => Seq::empty(),
    }
}

/// The first of each pair.
pub open spec fn part_variables(parts: Seq<(VariableView, ColumnView)>) -> Seq<VariableView> {
    Seq::new(parts.len(), |i: int| parts[i].0)
}

/// The second of each pair.
pub open spec fn part_columns(parts: Seq<(VariableView, ColumnView)>) -> Seq<ColumnView> {
    Seq::new(parts.len(), |i: int| parts[i].1)
}

/// What VARSTOCASES gives. There is no outcome where data that it comes to read
/// cannot be read, or a new variable has fewer sources than the first.
pub open spec fn lengthened(
    ds: DatasetView,
    specs: Seq<TransposeView>,
    index_var: Option<Seq<char>>,
    keep: Seq<Seq<char>>,
) -> Option<Result<DatasetView, Seq<char>>> {
    if ds.batches.len() == 0 {
        Some(Ok(rows::nothing()))
    } else if specs.len() == 0 {
        None
    } else {
        match rows::gathered(long_parts(ds, specs, index_var, keep)) {
            Some(Ok(parts)) => Some(rows::table_of(part_variables(parts), part_columns(parts))),
            Some(Err(e)) => Some(Err(e)),
            None => None,
        }
    }
}

/// The new rows can be counted.
pub open spec fn long_fits(ds: DatasetView, specs: Seq<TransposeView>) -> bool {
    ds.n_cases() <= usize::MAX && (specs.len() > 0 ==> ds.n_cases() * specs[0].source_vars.len()
        <= usize::MAX)
}

/// Case `c` gives the new rows from `c * n` on: the `j`th of them takes its value
/// from the `j`th source.
pub proof fn law_long_row(
    ds: DatasetView,
    at: Seq<(usize, usize)>,
    idxs: Seq<usize>,
    c: int,
    j: int,
)
    requires
        0 <= c < at.len(),
        0 <= j < idxs.len(),
    ensures
        row_values(ds, at, idxs).len() == at.len() * idxs.len(),
        0 <= c * idxs.len() + j < at.len() * idxs.len(),
        row_values(ds, at, idxs)[c * idxs.len() + j] == rows::value_at(ds, at[c], idxs[j] as int),
        repeated(at, idxs.len()).len() == at.len() * idxs.len(),
        repeated(at, idxs.len())[c * idxs.len() + j] == at[c],
        counters(at.len(), idxs.len()).len() == at.len() * idxs.len(),
        counters(at.len(), idxs.len())[c * idxs.len() + j] == ValueView::Numeric(
            number::nearest(j + 1),
        ),
    decreases at.len(),
{
    let n = idxs.len() as int;
    let m = at.len() as int;
    lemma_long_len(ds, at.drop_last(), idxs);
    lemma_long_len(ds, at, idxs);
    assert((m - 1) * n == m * n - n) by (nonlinear_arith);
    if c < m - 1 {
        law_long_row(ds, at.drop_last(), idxs, c, j);
        assert(at.drop_last()[c] == at[c]);
    } else {
        assert(c * n == (m - 1) * n);
        assert(0 <= (m - 1) * n) by (nonlinear_arith)
            requires
                m >= 1,
                n >= 0,
        ;
    }
}

pub proof fn lemma_long_len(ds: DatasetView, at: Seq<(usize, usize)>, idxs: Seq<usize>)
    ensures
        row_values(ds, at, idxs).len() == at.len() * idxs.len(),
        repeated(at, idxs.len()).len() == at.len() * idxs.len(),
        counters(at.len(), idxs.len()).len() == at.len() * idxs.len(),
    decreases at.len(),
{
    let n = idxs.len() as int;
    let m = at.len() as int;
    if m > 0 {
        lemma_long_len(ds, at.drop_last(), idxs);
        assert((m - 1) * n == m * n - n) by (nonlinear_arith);
    } else {
        assert(m * n == 0) by (nonlinear_arith)
            requires
                m == 0,
        ;
    }
}

/// Lists the positions of all rows.
fn find_positions(ds: &Dataset) -> (r: Vec<(usize, usize)>)
    requires
        ds@.n_cases() <= usize::MAX,
    ensures
        r@ == rows::positions(ds@),
        r@.len() == ds@.n_cases(),
        forall|i: int| 0 <= i < r@.len() ==> rows::in_range(ds@, #[trigger] r@[i]),
{
    let ghost at = rows::positions(ds@);
    proof {
        assert(ds@.batches.len() == ds.batches.len());
        rows::lemma_positions(ds@, ds@.batches.len() as int);
        assert(ds@.batches.take(ds@.batches.len() as int) =~= ds@.batches);
    }
    let n = ds.n_cases();
    let mut out: Vec<(usize, usize)> = Vec::new();
    let mut i: usize = 0;
    while i < n
        invariant
            i <= n,
            n == ds@.n_cases(),
            at == rows::positions(ds@),
            at.len() == n,
            out@ =~= at.take(i as int),
        decreases n - i,
    {
        out.push(get_batch_row_index(ds, i));
        i = i + 1;
    }
    proof {
        assert(at.take(n as int) =~= at);
    }
    out
}

proof fn lemma_repeated(ds: DatasetView, at: Seq<(usize, usize)>, n: nat)
    requires
        forall|i: int| 0 <= i < at.len() ==> rows::in_range(ds, #[trigger] at[i]),
    ensures
        forall|i: int|
            0 <= i < repeated(at, n).len() ==> rows::in_range(ds, #[trigger] repeated(at, n)[i]),
        n == 0 ==> repeated(at, n).len() == 0,
    decreases at.len(),
{
    if at.len() > 0 {
        assert forall|i: int| 0 <= i < at.drop_last().len() implies rows::in_range(
            ds,
            #[trigger] at.drop_last()[i],
        ) by {
            assert(rows::in_range(ds, at[i]));
        }
        lemma_repeated(ds, at.drop_last(), n);
        let before = repeated(at.drop_last(), n);
        let all = repeated(at, n);
        assert forall|i: int| 0 <= i < all.len() implies rows::in_range(ds, #[trigger] all[i]) by {
            if i < before.len() {
                assert(all[i] == before[i]);
            } else {
                assert(all[i] == at[at.len() - 1]);
            }
        }
    }
}

/// Lists each position `n` times.
fn repeat(at: &Vec<(usize, usize)>, n: usize) -> (r: Vec<(usize, usize)>)
    ensures
        r@ == repeated(at@, n as nat),
{
    let mut out: Vec<(usize, usize)> = Vec::new();
    let mut i: usize = 0;
    proof {
        assert(at@.take(0) =~= Seq::empty());
    }
    while i < at.len()
        invariant
            i <= at@.len(),
            out@ == repeated(at@.take(i as int), n as nat),
        decreases at@.len() - i,
    {
        let ghost before = out@;
        let p = at[i];
        let mut j: usize = 0;
        while j < n
            invariant
                i < at@.len(),
                p == at@[i as int],
                j <= n,
                out@ =~= before + Seq::new(j as nat, |k: int| p),
            decreases n - j,
        {
            out.push(p);
            j = j + 1;
        }
        proof {
            assert(at@.take(i + 1).drop_last() =~= at@.take(i as int));
            assert(at@.take(i + 1).last() == p);
            assert(out@ =~= repeated(at@.take(i + 1), n as nat));
        }
        i = i + 1;
    }
    proof {
        assert(at@.take(at@.len() as int) =~= at@);
    }
    out
}

/// Build a column array from a list of positions.
pub fn build_column_from_positions(
    ds: &Dataset,
    var_idx: usize,
    positions: &Vec<(usize, usize)>,
) -> (r: Column)
    requires
        ds@.wf(),
        var_idx < ds@.variables.len(),
        forall|i: int|
            0 <= i < positions@.len() ==> rows::in_range(ds@, #[trigger] positions@[i])
                && ds@.legible_at(positions@[i].0 as int, positions@[i].1 as int, var_idx as int),
    ensures
        r@ == column_at(ds@, var_idx as int, positions@),
{
    let ghost all = column_at(ds@, var_idx as int, positions@);
    let mut cells: Vec<Cell> = Vec::new();
    let mut i: usize = 0;
    while i < positions.len()
        invariant
            i <= positions@.len(),
            ds@.wf(),
            var_idx < ds@.variables.len(),
            forall|i: int|
                0 <= i < positions@.len() ==> rows::in_range(ds@, #[trigger] positions@[i])
                    && ds@.legible_at(
                    positions@[i].0 as int,
                    positions@[i].1 as int,
                    var_idx as int,
                ),
            all == column_at(ds@, var_idx as int, positions@),
            text::views(cells@) =~= all.cells.take(i as int),
        decreases positions@.len() - i,
    {
        let (b, r) = positions[i];
        proof {
            assert(rows::in_range(ds@, positions@[i as int]));
            assert(ds@.batches[b as int].wf());
            assert(ds@.batches[b as int].columns[var_idx as int].cells.len()
                == ds@.batches[b as int].num_rows);
        }
        cells.push(ds.batches[b].columns[var_idx].cells[r].clone());
        i = i + 1;
    }
    proof {
        assert(all.cells.take(positions@.len() as int) =~= all.cells);
    }
    Column { kind: kind_for(ds.variables[var_idx].var_type), cells }
}

/// Checks that the first row of sources can be read.
fn check_sources(ds: &Dataset, names: &Vec<String>, n: usize, first: (usize, usize)) -> (r: Option<
    Result<Vec<usize>, String>,
>)
    requires
        ds@.wf(),
        rows::positions(ds@).len() > 0,
        first == rows::positions(ds@)[0],
        rows::in_range(ds@, first),
    ensures
        match r {
            Some(Ok(v)) => sources_from(ds@, text::views(names@), n as int, 0) == Some(
                Ok::<(), Seq<char>>(()),
            ) && n <= names@.len() && v@ == rows::indices_of(
                ds@,
                text::views(names@).take(n as int),
            ) && forall|k: int| 0 <= k < v@.len() ==> (#[trigger] v@[k]) < ds@.variables.len(),
            Some(Err(e)) => sources_from(ds@, text::views(names@), n as int, 0) == Some(
                Err::<(), Seq<char>>(e@),
            ),
            None => sources_from(ds@, text::views(names@), n as int, 0) is None,
        },
{
    let ghost nv = text::views(names@);
    let ghost all = rows::indices_of(ds@, nv);
    let mut out: Vec<usize> = Vec::new();
    let mut j: usize = 0;
    while j < n
        invariant
            j <= n,
            j <= names@.len(),
            ds@.wf(),
            nv == text::views(names@),
            first == rows::positions(ds@)[0],
            rows::in_range(ds@, first),
            sources_from(ds@, nv, n as int, 0) == sources_from(ds@, nv, n as int, j as int),
            all == rows::indices_of(ds@, nv),
            out@ =~= all.take(j as int),
            forall|k: int| 0 <= k < out@.len() ==> (#[trigger] out@[k]) < ds@.variables.len(),
        decreases n - j,
    {
        if j >= names.len() {
            return None;
        }
        match ds.variable_index(names[j].as_str()) {
            None => {
                return Some(Err(name_error("Source var not found: ", names[j].as_str())));
            },
            Some(idx) => {
                if !is_legible_at(ds, first, idx) {
                    return None;
                }
                out.push(idx);
            },
        }
        j = j + 1;
    }
    proof {
        assert(all.take(n as int) =~= rows::indices_of(ds@, nv.take(n as int)));
    }
    Some(Ok(out))
}

/// Reads the values of several variables, row after row.
fn read_rows(ds: &Dataset, at: &Vec<(usize, usize)>, idxs: &Vec<usize>) -> (r: Vec<Value>)
    requires
        ds@.wf(),
        forall|i: int| 0 <= i < at@.len() ==> rows::in_range(ds@, #[trigger] at@[i]),
        rows::usable(ds@, idxs@),
    ensures
        text::views(r@) == row_values(ds@, at@, idxs@),
{
    let mut out: Vec<Value> = Vec::new();
    let mut i: usize = 0;
    proof {
        assert(at@.take(0) =~= Seq::empty());
        assert(text::views(out@) =~= Seq::empty());
    }
    while i < at.len()
        invariant
            i <= at@.len(),
            ds@.wf(),
            forall|i: int| 0 <= i < at@.len() ==> rows::in_range(ds@, #[trigger] at@[i]),
            rows::usable(ds@, idxs@),
            text::views(out@) == row_values(ds@, at@.take(i as int), idxs@),
        decreases at@.len() - i,
    {
        let ghost before = text::views(out@);
        let (b, r) = at[i];
        let ghost row = Seq::new(
            idxs@.len(),
            |j: int| rows::value_at(ds@, at@[i as int], idxs@[j] as int),
        );
        let mut j: usize = 0;
        while j < idxs.len()
            invariant
                j <= idxs@.len(),
                i < at@.len(),
                (b, r) == at@[i as int],
                ds@.wf(),
                rows::in_range(ds@, (b, r)),
                rows::usable(ds@, idxs@),
                row == Seq::new(
                    idxs@.len(),
                    |j: int| rows::value_at(ds@, at@[i as int], idxs@[j] as int),
                ),
                text::views(out@) =~= before + row.take(j as int),
            decreases idxs@.len() - j,
        {
            proof {
                assert(idxs@[j as int] < ds@.variables.len());
                assert(ds@.legible_at(b as int, r as int, idxs@[j as int] as int));
            }
            out.push(get_cell_value(ds, b, r, idxs[j]));
            j = j + 1;
        }
        proof {
            assert(row.take(idxs@.len() as int) =~= row);
            assert(at@.take(i + 1).drop_last() =~= at@.take(i as int));
            assert(at@.take(i + 1).last() == at@[i as int]);
            assert(row_values(ds@, at@.take(i + 1), idxs@) =~= before + row);
        }
        i = i + 1;
    }
    proof {
        assert(at@.take(at@.len() as int) =~= at@);
    }
    out
}

/// Reads the values that a new variable takes.
fn read_sources(ds: &Dataset, names: &Vec<String>, n: usize, at: &Vec<(usize, usize)>) -> (r: Option<
    Result<Vec<Value>, String>,
>)
    requires
        ds@.wf(),
        at@ == rows::positions(ds@),
        forall|i: int| 0 <= i < at@.len() ==> rows::in_range(ds@, #[trigger] at@[i]),
    ensures
        match r {
            Some(Ok(v)) => source_values(ds@, text::views(names@), n as nat) == Some(
                Ok::<Seq<ValueView>, Seq<char>>(text::views(v@)),
            ),
            Some(Err(e)) => source_values(ds@, text::views(names@), n as nat) == Some(
                Err::<Seq<ValueView>, Seq<char>>(e@),
            ),
            None => source_values(ds@, text::views(names@), n as nat) is None,
        },
{
    if at.len() == 0 || n == 0 {
        let none: Vec<Value> = Vec::new();
        proof {
            assert(text::views(none@) =~= Seq::empty());
        }
        return Some(Ok(none));
    }
    proof {
        assert(rows::in_range(ds@, at@[0]));
    }
    match check_sources(ds, names, n, at[0]) {
        None => None,
        Some(Err(e)) => Some(Err(e)),
        Some(Ok(idxs)) => {
            if !rows::are_usable(ds, &idxs) {
                return None;
            }
            Some(Ok(read_rows(ds, at, &idxs)))
        },
    }
}

/// Counts from one to `n` for each of `cases` cases.
fn count_rows(cases: usize, n: usize) -> (r: Vec<Value>)
    ensures
        text::views(r@) == counters(cases as nat, n as nat),
{
    let mut out: Vec<Value> = Vec::new();
    let mut i: usize = 0;
    proof {
        assert(text::views(out@) =~= Seq::empty());
    }
    while i < cases
        invariant
            i <= cases,
            text::views(out@) == counters(i as nat, n as nat),
        decreases cases - i,
    {
        let ghost before = text::views(out@);
        let mut j: usize = 0;
        while j < n
            invariant
                j <= n,
                text::views(out@) =~= before + Seq::new(
                    j as nat,
                    |k: int| ValueView::Numeric(number::nearest(k + 1)),
                ),
            decreases n - j,
        {
            out.push(Value::Numeric(Number::from_usize(j + 1)));
            j = j + 1;
        }
        proof {
            assert(text::views(out@) =~= counters((i + 1) as nat, n as nat));
        }
        i = i + 1;
    }
    out
}

/// The variables with their columns.
spec fn zipped(vars: Seq<Variable>, columns: Seq<Column>) -> Seq<(VariableView, ColumnView)> {
    Seq::new(vars.len(), |i: int| (vars[i]@, columns[i]@))
}

proof fn lemma_zipped(vars: Seq<Variable>, columns: Seq<Column>, var: Variable, column: Column)
    requires
        vars.len() == columns.len(),
    ensures
        zipped(vars.push(var), columns.push(column)) == zipped(vars, columns).push(
            (var@, column@),
        ),
{
    assert(zipped(vars.push(var), columns.push(column)) =~= zipped(vars, columns).push(
        (var@, column@),
    ));
}

/// The name of the counter.
pub open spec fn name_view(name: Option<&str>) -> Option<Seq<char>> {
    match name {
        Some(s) => Some(s@),
        None => None,
    }
}

fn make_long(
    dataset: &Dataset,
    specs: &[TransposeSpec],
    index_var: Option<&str>,
    keep_vars: &[String],
) -> (r: Option<Result<(Vec<Variable>, Vec<Column>), String>>)
    requires
        dataset@.wf(),
        dataset@.batches.len() > 0,
        specs@.len() > 0,
        long_fits(dataset@, text::views(specs@)),
    ensures
        match r {
            Some(Ok((vars, columns))) => lengthened(
                dataset@,
                text::views(specs@),
                name_view(index_var),
                text::views(keep_vars@),
            ) == Some(rows::table_of(text::views(vars@), text::views(columns@))),
            Some(Err(e)) => lengthened(
                dataset@,
                text::views(specs@),
                name_view(index_var),
                text::views(keep_vars@),
            ) == Some(Err::<DatasetView, Seq<char>>(e@)),
            None => lengthened(
                dataset@,
                text::views(specs@),
                name_view(index_var),
                text::views(keep_vars@),
            ) is None,
        },
{
    let ghost ds = dataset@;
    let ghost sv = text::views(specs@);
    let ghost kv = text::views(keep_vars@);
    let ghost parts = long_parts(ds, sv, name_view(index_var), kv);
    proof {
        assert(sv[0] == specs@[0]@);
    }
    let n = specs[0].source_vars.len();
    let at = find_positions(dataset);
    let kept = repeat(&at, n);
    proof {
        lemma_repeated(ds, at@, n as nat);
        assert(parts.take(0) =~= Seq::empty());
    }
    let mut vars: Vec<Variable> = Vec::new();
    let mut columns: Vec<Column> = Vec::new();
    proof {
        assert(zipped(vars@, columns@) =~= Seq::empty());
    }
    let mut k: usize = 0;
    while k < keep_vars.len()
        invariant
            k <= keep_vars@.len(),
            ds == dataset@,
            ds.wf(),
            ds.batches.len() > 0,
            sv == text::views(specs@),
            kv == text::views(keep_vars@),
            parts == long_parts(ds, sv, name_view(index_var), kv),
            sv.len() > 0,
            n == sv[0].source_vars.len(),
            kept@ == repeated(rows::positions(ds), n as nat),
            forall|i: int| 0 <= i < kept@.len() ==> rows::in_range(ds, #[trigger] kept@[i]),
            n == 0 ==> kept@.len() == 0,
            vars@.len() == columns@.len(),
            rows::gathered(parts.take(k as int)) == Some(
                Ok::<Seq<(VariableView, ColumnView)>, Seq<char>>(zipped(vars@, columns@)),
            ),
        decreases keep_vars@.len() - k,
    {
        proof {
            assert(parts[k as int] == kept_part(ds, keep_vars@[k as int]@, n as nat));
            rows::lemma_gathered_next(parts, k as int);
        }
        match dataset.variable_index(keep_vars[k].as_str()) {
            None => {
                return Some(Err(name_error("Keep var not found: ", keep_vars[k].as_str())));
            },
            Some(idx) => {
                if n > 0 && !is_readable(dataset, idx) {
                    return None;
                }
                proof {
                    assert forall|i: int| 0 <= i < kept@.len() implies rows::in_range(
                        ds,
                        #[trigger] kept@[i],
                    ) && ds.legible_at(kept@[i].0 as int, kept@[i].1 as int, idx as int) by {
                        assert(rows::in_range(ds, kept@[i]));
                    }
                }
                let var = dataset.variables[idx].clone();
                let column = build_column_from_positions(dataset, idx, &kept);
                proof {
                    lemma_zipped(vars@, columns@, var, column);
                }
                vars.push(var);
                columns.push(column);
            },
        }
        k = k + 1;
    }
    let mut m: usize = 0;
    while m < specs.len()
        invariant
            m <= specs@.len(),
            ds == dataset@,
            ds.wf(),
            ds.batches.len() > 0,
            sv == text::views(specs@),
            kv == text::views(keep_vars@),
            parts == long_parts(ds, sv, name_view(index_var), kv),
            sv.len() > 0,
            n == sv[0].source_vars.len(),
            at@ == rows::positions(ds),
            forall|i: int| 0 <= i < at@.len() ==> rows::in_range(ds, #[trigger] at@[i]),
            vars@.len() == columns@.len(),
            rows::gathered(parts.take(kv.len() + m)) == Some(
                Ok::<Seq<(VariableView, ColumnView)>, Seq<char>>(zipped(vars@, columns@)),
            ),
        decreases specs@.len() - m,
    {
        proof {
            assert(sv[m as int] == specs@[m as int]@);
            assert(parts[kv.len() + m] == new_part(ds, specs@[m as int]@, n as nat));
            rows::lemma_gathered_next(parts, kv.len() + m);
        }
        match read_sources(dataset, &specs[m].source_vars, n, &at) {
            None => {
                return None;
            },
            Some(Err(e)) => {
                return Some(Err(e));
            },
            Some(Ok(vals)) => {
                let (column, var_type) = array_from_values(&vals);
                let var = Variable::of_type(specs[m].target_var.as_str(), var_type);
                proof {
                    lemma_zipped(vars@, columns@, var, column);
                }
                vars.push(var);
                columns.push(column);
            },
        }
        m = m + 1;
    }
    if let Some(name) = index_var {
        proof {
            assert(parts[(kv.len() + sv.len()) as int] == Some(
                Ok::<(VariableView, ColumnView), Seq<char>>(counter_part(ds, name@, n as nat)),
            ));
            rows::lemma_gathered_next(parts, (kv.len() + sv.len()) as int);
        }
        let var = Variable::numeric(name);
        let vals = count_rows(at.len(), n);
        let column = make_column(VariableType::Numeric, &vals);
        proof {
            lemma_zipped(vars@, columns@, var, column);
        }
        vars.push(var);
        columns.push(column);
    }
    proof {
        assert(parts.take(parts.len() as int) =~= parts);
        let z = zipped(vars@, columns@);
        assert(part_variables(z) =~= text::views(vars@));
        assert(part_columns(z) =~= text::views(columns@));
    }
    Some(Ok((vars, columns)))
}

/// RESHAPE: VARSTOCASES (Wide to Long)
pub fn vars_to_cases(
    dataset: &Dataset,
    specs: &[TransposeSpec],
    index_var: Option<&str>,
    keep_vars: &[String],
) -> (r: Result<Dataset, String>)
    requires
        dataset@.wf(),
        long_fits(dataset@, text::views(specs@)),
        lengthened(
            dataset@,
            text::views(specs@),
            name_view(index_var),
            text::views(keep_vars@),
        ) is Some,
    ensures
        rows::gives(
            r,
            lengthened(
                dataset@,
                text::views(specs@),
                name_view(index_var),
                text::views(keep_vars@),
            )->0,
        ),
{
    if dataset.batches.len() == 0 {
        return Ok(Dataset::new());
    }
    match make_long(dataset, specs, index_var, keep_vars) {
        Some(Ok((vars, columns))) => make_table(vars, columns),
        Some(Err(e)) => Err(e),
        None => Err(String::new()),
    }
}

/// VARSTOCASES, where the data can be read.
pub fn try_vars_to_cases(
    dataset: &Dataset,
    specs: &[TransposeSpec],
    index_var: Option<&str>,
    keep_vars: &[String],
) -> (r: Option<Result<Dataset, String>>)
    requires
        dataset@.wf(),
        long_fits(dataset@, text::views(specs@)),
    ensures
        match r {
            Some(x) => lengthened(
                dataset@,
                text::views(specs@),
                name_view(index_var),
                text::views(keep_vars@),
            ) matches Some(y) && rows::gives(x, y),
            None => lengthened(
                dataset@,
                text::views(specs@),
                name_view(index_var),
                text::views(keep_vars@),
            ) is None,
        },
{
    if dataset.batches.len() > 0 {
        if specs.len() == 0 || make_long(dataset, specs, index_var, keep_vars).is_none() {
            return None;
        }
    }
    Some(vars_to_cases(dataset, specs, index_var, keep_vars))
}

} // verus!
