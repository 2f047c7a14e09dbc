//! What AGGREGATE says of a group.
use vstd::prelude::*;

use crate::arith::NumOp;
use crate::arith_law;
use crate::arith_law::{doubles, exact, has_number, is_largest, is_smallest, sums_small, total};
use crate::batch::CellView;
use crate::dataset::DatasetView;
use crate::expr::builtin;
use crate::number::{nearest, Number};
use crate::number_law::small;
use crate::transform::aggregate;
use crate::transform::aggregate::{AggFunctionView, AggSpecView};
use crate::transform::law;
use crate::transform::merge_law;
use crate::transform::merge_law::entries_of;
use crate::transform::rows;
use crate::value::ValueView;
use crate::variable::VariableType;

verus! {

/// The numbers among values are those that are numbers, in order.
pub proof fn law_numbers_among(v: Seq<ValueView>)
    ensures
        builtin::numbers_of(v) == v.filter(|x: ValueView| x is Numeric).map_values(
            |x: ValueView| x->Numeric_0,
        ),
    decreases v.len(),
{
    reveal(Seq::filter);
    let pred = |x: ValueView| x is Numeric;
    let got = |x: ValueView| x->Numeric_0;
    if v.len() > 0 {
        let head = v.drop_last();
        law_numbers_among(head);
        let before = head.filter(pred);
        if v.last() is Numeric {
            assert(before.push(v.last()).map_values(got) =~= before.map_values(got).push(
                v.last()->Numeric_0,
            ));
        }
        assert(builtin::numbers_of(v) =~= v.filter(pred).map_values(got));
    } else {
        assert(builtin::numbers_of(v) =~= v.filter(pred).map_values(got));
    }
}

/// The numbers of a variable in the rows of a group.
pub open spec fn group_numbers(
    ds: DatasetView,
    group: Seq<(usize, usize)>,
    name: Seq<char>,
) -> Seq<Number> {
    Seq::new(
        group.len(),
        |i: int| ds.value_at(group[i].0 as int, group[i].1 as int, ds.index_of(name)->0 as int),
    ).filter(|x: ValueView| x is Numeric).map_values(|x: ValueView| x->Numeric_0)
}

proof fn lemma_group_numbers(ds: DatasetView, group: Seq<(usize, usize)>, name: Seq<char>)
    ensures
        builtin::numbers_of(rows::values_at(ds, group, ds.index_of(name)->0 as int))
            == group_numbers(ds, group, name),
{
    let idx = ds.index_of(name)->0 as int;
    law_numbers_among(rows::values_at(ds, group, idx));
    assert(rows::values_at(ds, group, idx) =~= Seq::new(
        group.len(),
        |i: int| ds.value_at(group[i].0 as int, group[i].1 as int, idx),
    ));
}

/// The minimum of a group is one of its numbers, and none is smaller; the maximum
/// is one of them, and none is larger.
pub proof fn law_group_extremes<F: Fn(NumOp) -> Number>(
    ds: DatasetView,
    group: Seq<(usize, usize)>,
    name: Seq<char>,
    calc: F,
)
    requires
        has_number(group_numbers(ds, group, name)),
    ensures
        aggregate::group_value(ds, group, AggFunctionView::Min(name), calc) matches
            ValueView::Numeric(n) && is_smallest(n, group_numbers(ds, group, name)),
        aggregate::group_value(ds, group, AggFunctionView::Max(name), calc) matches
            ValueView::Numeric(n) && is_largest(n, group_numbers(ds, group, name)),
{
    lemma_group_numbers(ds, group, name);
    arith_law::law_extremes(group_numbers(ds, group, name));
}

/// The minimum and the maximum of a group do not depend on the order of its rows.
pub proof fn law_reordered_group_extremes<F: Fn(NumOp) -> Number>(
    ds: DatasetView,
    a: Seq<(usize, usize)>,
    b: Seq<(usize, usize)>,
    name: Seq<char>,
    calc: F,
)
    requires
        has_number(group_numbers(ds, a, name)),
        has_number(group_numbers(ds, b, name)),
        group_numbers(ds, a, name).to_multiset() == group_numbers(ds, b, name).to_multiset(),
    ensures
        aggregate::group_value(ds, a, AggFunctionView::Min(name), calc)->Numeric_0.equals(
            aggregate::group_value(ds, b, AggFunctionView::Min(name), calc)->Numeric_0,
        ),
        aggregate::group_value(ds, a, AggFunctionView::Max(name), calc)->Numeric_0.equals(
            aggregate::group_value(ds, b, AggFunctionView::Max(name), calc)->Numeric_0,
        ),
{
    let (u, v) = (group_numbers(ds, a, name), group_numbers(ds, b, name));
    law_group_extremes(ds, a, name, calc);
    law_group_extremes(ds, b, name, calc);
    let i = choose|i: int| 0 <= i < u.len() && !(#[trigger] u[i]).nan();
    let j = choose|j: int| 0 <= j < v.len() && !(#[trigger] v[j]).nan();
    let m = aggregate::group_value(ds, a, AggFunctionView::Min(name), calc)->Numeric_0;
    let n = aggregate::group_value(ds, b, AggFunctionView::Min(name), calc)->Numeric_0;
    let p = aggregate::group_value(ds, a, AggFunctionView::Max(name), calc)->Numeric_0;
    let q = aggregate::group_value(ds, b, AggFunctionView::Max(name), calc)->Numeric_0;
    assert(m.at_most(u[i]) && n.at_most(v[j]) && u[i].at_most(p) && v[j].at_most(q));
    arith_law::law_extremes_do_not_depend_on_order(u, v, m, n);
    arith_law::law_extremes_do_not_depend_on_order(u, v, p, q);
}

/// With exact arithmetic the sum and the mean of a group of integers are those of
/// the integers.
pub proof fn law_group_sum_and_mean<F: Fn(NumOp) -> Number>(
    ds: DatasetView,
    group: Seq<(usize, usize)>,
    name: Seq<char>,
    v: Seq<int>,
    m: int,
    calc: F,
)
    requires
        exact(calc),
        group_numbers(ds, group, name) == doubles(v),
        v.len() > 0,
        small(v.len() as int),
        sums_small(v),
    ensures
        aggregate::group_value(ds, group, AggFunctionView::Sum(name), calc) == ValueView::Numeric(
            nearest(total(v)),
        ),
        total(v) == m * v.len() ==> aggregate::group_value(
            ds,
            group,
            AggFunctionView::Mean(name),
            calc,
        ) == ValueView::Numeric(nearest(m)),
{
    lemma_group_numbers(ds, group, name);
    arith_law::law_sum_of_integers(v, calc);
    if total(v) == m * v.len() {
        arith_law::law_mean_of_integers(v, m, calc);
    }
}

/// The count of a group is the number of its rows, whatever they hold; a summary of
/// a variable without a number in the group is missing.
pub proof fn law_group_count<F: Fn(NumOp) -> Number>(
    ds: DatasetView,
    group: Seq<(usize, usize)>,
    name: Seq<char>,
    calc: F,
)
    ensures
        aggregate::group_value(ds, group, AggFunctionView::Count, calc) == ValueView::Numeric(
            nearest(group.len() as int),
        ),
        group_numbers(ds, group, name).len() == 0 ==> {
            &&& aggregate::group_value(ds, group, AggFunctionView::Sum(name), calc) is SystemMissing
            &&& aggregate::group_value(ds, group, AggFunctionView::Mean(name), calc) is SystemMissing
            &&& aggregate::group_value(ds, group, AggFunctionView::Min(name), calc) is SystemMissing
            &&& aggregate::group_value(ds, group, AggFunctionView::Max(name), calc) is SystemMissing
        },
{
    lemma_group_numbers(ds, group, name);
}

/// The rows in which a variable has a value, in order.
pub open spec fn rows_with(ds: DatasetView, idx: usize, v: ValueView) -> Seq<(usize, usize)> {
    rows::positions(ds).filter(|p: (usize, usize)| rows::value_at(ds, p, idx as int) == v)
}

proof fn lemma_members_filtered(
    ds: DatasetView,
    at: Seq<(usize, usize)>,
    idx: usize,
    q: (usize, usize),
    n: int,
)
    requires
        0 <= n <= at.len(),
    ensures
        rows::members(
            rows::row_keys(ds, at, seq![idx]).take(n),
            at,
            rows::row_key(ds, q, seq![idx]),
        ) == at.take(n).filter(
            |p: (usize, usize)|
                rows::value_at(ds, p, idx as int) == rows::value_at(ds, q, idx as int),
        ),
    decreases n,
{
    reveal(Seq::filter);
    let keys = rows::row_keys(ds, at, seq![idx]);
    let pred = |p: (usize, usize)|
        rows::value_at(ds, p, idx as int) == rows::value_at(ds, q, idx as int);
    if n > 0 {
        lemma_members_filtered(ds, at, idx, q, n - 1);
        assert(keys.take(n).drop_last() =~= keys.take(n - 1));
        assert(at.take(n).drop_last() =~= at.take(n - 1));
        assert(keys.take(n).last() == rows::row_key(ds, at[n - 1], seq![idx]));
        assert(at.take(n).last() == at[n - 1]);
        law::law_key_tells_value(ds, at[n - 1], idx, ds, q, idx);
    } else {
        assert(keys.take(0) =~= Seq::empty());
        assert(at.take(0) =~= Seq::empty());
        assert(rows::members(keys.take(0), at, rows::row_key(ds, q, seq![idx])) =~= at.take(
            0,
        ).filter(pred));
    }
}

/// The groups by one variable are the rows with one value each.
proof fn lemma_group_by_one(ds: DatasetView, idx: usize, g: int)
    requires
        ds.batches.len() <= usize::MAX,
        0 <= g < rows::grouped(ds, seq![idx]).len(),
    ensures
        ({
            let group = rows::grouped(ds, seq![idx])[g];
            &&& group.len() > 0
            &&& group == rows_with(ds, idx, rows::value_at(ds, group[0], idx as int))
        }),
{
    let at = rows::positions(ds);
    let keys = rows::row_keys(ds, at, seq![idx]);
    let group = rows::grouped(ds, seq![idx])[g];
    let key = rows::distinct(keys)[g];
    rows::law_distinct(keys);
    assert(rows::distinct(keys).contains(key));
    assert(keys.contains(key));
    rows::law_members(keys, at, key);
    let i = choose|i: int|
        0 <= i < keys.len() && (#[trigger] keys[i]) == key && at[i] == group[0];
    assert(key == rows::row_key(ds, group[0], seq![idx]));
    lemma_members_filtered(ds, at, idx, group[0], at.len() as int);
    assert(keys.take(at.len() as int) =~= keys);
    assert(at.take(at.len() as int) =~= at);
}

/// AGGREGATE by one variable: each row of the result has a value of that variable,
/// no two have the same, and each value of a case is there; and beside it stands
/// what each function gives of the cases with that value.
pub proof fn law_aggregate_by_one<F: Fn(NumOp) -> Number>(
    ds: DatasetView,
    name: Seq<char>,
    specs: Seq<AggSpecView>,
    calc: F,
    out: DatasetView,
)
    requires
        ds.batches.len() > 0,
        ds.batches.len() <= usize::MAX,
        rows::grouped(ds, rows::indices_of(ds, seq![name])).len() <= usize::MAX,
        ds.index_of(name) is Some,
        rows::usable(ds, rows::indices_of(ds, seq![name])),
        aggregate::aggregated(ds, seq![name], specs, calc) == Ok::<DatasetView, Seq<char>>(out),
    ensures
        ({
            let idx = ds.index_of(name)->0;
            &&& out.batches.len() == 1
            &&& forall|g: int, k: int|
                0 <= g < out.n_cases() && 0 <= k < specs.len() ==> #[trigger] out.value_at(
                    0,
                    g,
                    1 + k,
                ) == aggregate::group_value(
                    ds,
                    rows_with(ds, idx, out.value_at(0, g, 0)),
                    specs[k].function,
                    calc,
                )
            &&& forall|g: int, h: int|
                0 <= g < h < out.n_cases() ==> #[trigger] out.value_at(0, g, 0)
                    != #[trigger] out.value_at(0, h, 0)
            &&& forall|p: (usize, usize)|
                #[trigger] rows::positions(ds).contains(p) ==> exists|g: int|
                    0 <= g < out.n_cases() && #[trigger] out.value_at(0, g, 0) == rows::value_at(
                        ds,
                        p,
                        idx as int,
                    )
        }),
{
    let idx = ds.index_of(name)->0;
    let idxs = rows::indices_of(ds, seq![name]);
    assert(idxs =~= seq![idx]);
    rows::lemma_first_missing(ds, seq![name], 0);
    assert(seq![name][0] == name);
    law::law_aggregated_cases(ds, seq![name], specs, calc, out);
    let groups = rows::grouped(ds, idxs);
    rows::lemma_grouped(ds, idxs);
    let at = rows::positions(ds);
    let keys = rows::row_keys(ds, at, idxs);
    rows::law_distinct(keys);
    assert(idxs[0] < ds.variables.len() && ds.readable(idxs[0] as int));
    assert(out.variables == aggregate::result_variables(ds, idxs, specs));
    assert(out.batches[0].columns == aggregate::result_columns(ds, idxs, specs, calc));
    assert forall|g: int| 0 <= g < groups.len() implies #[trigger] out.value_at(0, g, 0)
        == rows::value_at(ds, groups[g][0], idx as int) by {
        assert(groups[g].len() > 0);
        let p = groups[g][0];
        assert(rows::in_range(ds, groups[g][0]));
        assert(ds.legible_at(p.0 as int, p.1 as int, idx as int));
        let column = out.batches[0].columns[0];
        assert(column.cells[g] == rows::cell_in(
            ds.variables[idx as int].var_type,
            rows::value_at(ds, p, idx as int),
        ));
    }
    assert forall|g: int, k: int| 0 <= g < out.n_cases() && 0 <= k < specs.len() implies #[trigger] out.value_at(
        0,
        g,
        1 + k,
    ) == aggregate::group_value(
        ds,
        rows_with(ds, idx, out.value_at(0, g, 0)),
        specs[k].function,
        calc,
    ) by {
        lemma_group_by_one(ds, idx, g);
        let v = aggregate::group_value(ds, groups[g], specs[k].function, calc);
        assert(!(v is String));
        let column = out.batches[0].columns[1 + k];
        assert(column.cells[g] == rows::cell_in(VariableType::Numeric, v));
        assert(out.value_at(0, g, 0) == rows::value_at(ds, groups[g][0], idx as int));
    }
    assert forall|g: int, h: int| 0 <= g < h < out.n_cases() implies #[trigger] out.value_at(0, g, 0)
        != #[trigger] out.value_at(0, h, 0) by {
        lemma_group_by_one(ds, idx, g);
        lemma_group_by_one(ds, idx, h);
        lemma_group_key(ds, idx, g);
        lemma_group_key(ds, idx, h);
        law::law_key_tells_value(ds, groups[g][0], idx, ds, groups[h][0], idx);
        assert(rows::distinct(keys)[g] != rows::distinct(keys)[h]);
    }
    assert forall|p: (usize, usize)| #[trigger] at.contains(p) implies exists|g: int|
        0 <= g < out.n_cases() && #[trigger] out.value_at(0, g, 0) == rows::value_at(
            ds,
            p,
            idx as int,
        ) by {
        let i = choose|i: int| 0 <= i < at.len() && at[i] == p;
        assert(keys[i] == rows::row_key(ds, p, idxs));
        assert(keys.contains(keys[i]));
        assert(rows::distinct(keys).contains(keys[i]));
        let g = choose|g: int| 0 <= g < rows::distinct(keys).len() && rows::distinct(keys)[g]
            == keys[i];
        lemma_group_key(ds, idx, g);
        law::law_key_tells_value(ds, groups[g][0], idx, ds, p, idx);
        assert(out.value_at(0, g, 0) == rows::value_at(ds, p, idx as int));
    }
}

proof fn lemma_group_key(ds: DatasetView, idx: usize, g: int)
    requires
        0 <= g < rows::grouped(ds, seq![idx]).len(),
    ensures
        rows::row_key(ds, rows::grouped(ds, seq![idx])[g][0], seq![idx]) == rows::distinct(
            rows::row_keys(ds, rows::positions(ds), seq![idx]),
        )[g],
{
    let at = rows::positions(ds);
    let keys = rows::row_keys(ds, at, seq![idx]);
    let key = rows::distinct(keys)[g];
    rows::law_distinct(keys);
    assert(rows::distinct(keys).contains(key));
    assert(keys.contains(key));
    rows::law_members(keys, at, key);
    let group = rows::members(keys, at, key);
    let i = choose|i: int|
        0 <= i < keys.len() && (#[trigger] keys[i]) == key && at[i] == group[0];
}

/// The rows that have the key of a row, in order.
pub open spec fn rows_like(
    ds: DatasetView,
    idxs: Seq<usize>,
    at: Seq<(usize, usize)>,
    q: (usize, usize),
) -> Seq<(usize, usize)> {
    at.filter(|p: (usize, usize)| rows::row_key(ds, p, idxs) == rows::row_key(ds, q, idxs))
}

proof fn lemma_members_like(
    ds: DatasetView,
    idxs: Seq<usize>,
    at: Seq<(usize, usize)>,
    q: (usize, usize),
    n: int,
)
    requires
        0 <= n <= at.len(),
    ensures
        rows::members(rows::row_keys(ds, at, idxs).take(n), at, rows::row_key(ds, q, idxs))
            == rows_like(ds, idxs, at.take(n), q),
    decreases n,
{
    reveal(Seq::filter);
    let keys = rows::row_keys(ds, at, idxs);
    if n > 0 {
        lemma_members_like(ds, idxs, at, q, n - 1);
        assert(keys.take(n).drop_last() =~= keys.take(n - 1));
        assert(at.take(n).drop_last() =~= at.take(n - 1));
        assert(keys.take(n).last() == rows::row_key(ds, at[n - 1], idxs));
        assert(at.take(n).last() == at[n - 1]);
    } else {
        assert(keys.take(0) =~= Seq::empty());
        assert(at.take(0) =~= Seq::empty());
        assert(rows::members(keys.take(0), at, rows::row_key(ds, q, idxs)) =~= rows_like(
            ds,
            idxs,
            at.take(0),
            q,
        ));
    }
}

/// A group is all the rows with the key of its first, in order.
pub proof fn law_group_is_complete(ds: DatasetView, idxs: Seq<usize>, g: int)
    requires
        0 <= g < rows::grouped(ds, idxs).len(),
    ensures
        ({
            let group = rows::grouped(ds, idxs)[g];
            group.len() > 0 && group == rows_like(ds, idxs, rows::positions(ds), group[0])
        }),
{
    let at = rows::positions(ds);
    let keys = rows::row_keys(ds, at, idxs);
    let group = rows::grouped(ds, idxs)[g];
    let key = rows::distinct(keys)[g];
    rows::law_distinct(keys);
    assert(rows::distinct(keys).contains(key));
    rows::law_members(keys, at, key);
    let i = choose|i: int|
        0 <= i < keys.len() && (#[trigger] keys[i]) == key && at[i] == group[0];
    assert(key == rows::row_key(ds, group[0], idxs));
    lemma_members_like(ds, idxs, at, group[0], at.len() as int);
    assert(keys.take(at.len() as int) =~= keys);
    assert(at.take(at.len() as int) =~= at);
}

/// AGGREGATE by any variables: the row of a group holds their values in its first row,
/// and beside them, under the name of its target, what each function gives of the group.
pub proof fn law_aggregated_entries<F: Fn(NumOp) -> Number>(
    ds: DatasetView,
    breaks: Seq<Seq<char>>,
    specs: Seq<AggSpecView>,
    calc: F,
    out: DatasetView,
    g: int,
)
    requires
        ds.batches.len() > 0,
        aggregate::aggregated(ds, breaks, specs, calc) == Ok::<DatasetView, Seq<char>>(out),
        0 <= g < rows::grouped(ds, rows::indices_of(ds, breaks)).len(),
    ensures
        ({
            let idxs = rows::indices_of(ds, breaks);
            let group = rows::grouped(ds, idxs)[g];
            let n = breaks.len() as int;
            &&& out.variables.len() == n + specs.len()
            &&& forall|i: int|
                0 <= i < n ==> #[trigger] entries_of(out, i)[g] == rows::cell_in(
                    ds.variables[idxs[i] as int].var_type,
                    rows::value_at(ds, group[0], idxs[i] as int),
                )
            &&& forall|k: int|
                0 <= k < specs.len() ==> {
                    &&& out.variables[n + k].name == (#[trigger] specs[k]).target_var
                    &&& out.variables[n + k].var_type is Numeric
                    &&& entries_of(out, n + k)[g] == match aggregate::group_value(
                        ds,
                        group,
                        specs[k].function,
                        calc,
                    ) {
                        ValueView::Numeric(x) => CellView::Number(x),
                        _ => CellView::Null,
                    }
                }
        }),
{
    let idxs = rows::indices_of(ds, breaks);
    let n = breaks.len() as int;
    let groups = rows::grouped(ds, idxs);
    let columns = aggregate::result_columns(ds, idxs, specs, calc);
    merge_law::lemma_table_entries(
        aggregate::result_variables(ds, idxs, specs),
        columns,
        out,
    );
    assert forall|i: int| 0 <= i < n implies #[trigger] entries_of(out, i)[g] == rows::cell_in(
        ds.variables[idxs[i] as int].var_type,
        rows::value_at(ds, groups[g][0], idxs[i] as int),
    ) by {
        assert(columns[i] == rows::typed_column(
            ds.variables[idxs[i] as int].var_type,
            rows::first_values(ds, groups, idxs[i] as int),
        ));
    }
    assert forall|k: int| 0 <= k < specs.len() implies entries_of(out, n + k)[g]
        == rows::cell_in(
        VariableType::Numeric,
        aggregate::group_value(ds, groups[g], (#[trigger] specs[k]).function, calc),
    ) by {
        assert(columns[n + k] == rows::typed_column(
            VariableType::Numeric,
            aggregate::group_values(ds, groups, specs[k].function, calc),
        ));
    }
}

/// The mean of a group is its sum over the number of its numbers.
pub proof fn law_group_mean<F: Fn(NumOp) -> Number>(
    ds: DatasetView,
    group: Seq<(usize, usize)>,
    name: Seq<char>,
    calc: F,
)
    requires
        group_numbers(ds, group, name).len() > 0,
    ensures
        aggregate::group_value(ds, group, AggFunctionView::Sum(name), calc) matches
            ValueView::Numeric(s) && aggregate::group_value(
            ds,
            group,
            AggFunctionView::Mean(name),
            calc,
        ) == ValueView::Numeric(
            crate::arith::meaning(
                calc,
                NumOp::Div(s, nearest(group_numbers(ds, group, name).len() as int)),
            ),
        ),
{
    lemma_group_numbers(ds, group, name);
}

} // verus!
