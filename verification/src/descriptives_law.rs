//! What DESCRIPTIVES says of numbers.
use vstd::prelude::*;

use crate::arith;
use crate::arith::{meaning, NumOp, Style};
use crate::arith_law;
use crate::arith_law::{
    doubles, exact, has_number, is_largest, is_smallest, squares, squares_small, sums_small, total,
};
use crate::dataset::DatasetView;
use crate::descriptives;
use crate::descriptives::{statistic, Statistic};
use crate::number::{nearest, Number};
use crate::number_law;
use crate::number_law::small;
use crate::text;
use crate::value::MissingView;
use crate::variable::VariableView;

verus! {

/// The minimum and the maximum are among the numbers, and none of these is smaller
/// or larger; the range is the difference between the two.
pub proof fn law_minimum_and_maximum<F: Fn(NumOp) -> Number>(v: Seq<Number>, calc: F)
    requires
        has_number(v),
    ensures
        is_smallest(statistic(v, Statistic::Min, calc), v),
        is_largest(statistic(v, Statistic::Max, calc), v),
        statistic(v, Statistic::Range, calc) == meaning(
            calc,
            NumOp::Sub(
                statistic(v, Statistic::Max, calc),
                statistic(v, Statistic::Min, calc),
            ),
        ),
{
    arith_law::law_extremes(v);
}

/// The minimum and the maximum do not depend on the order of the numbers.
pub proof fn law_extremes_of_reordered<F: Fn(NumOp) -> Number>(
    u: Seq<Number>,
    v: Seq<Number>,
    calc: F,
)
    requires
        has_number(u),
        has_number(v),
        u.to_multiset() == v.to_multiset(),
    ensures
        statistic(u, Statistic::Min, calc).equals(statistic(v, Statistic::Min, calc)),
        statistic(u, Statistic::Max, calc).equals(statistic(v, Statistic::Max, calc)),
{
    law_minimum_and_maximum(u, calc);
    law_minimum_and_maximum(v, calc);
    let (a, b) = (statistic(u, Statistic::Min, calc), statistic(v, Statistic::Min, calc));
    let (c, d) = (statistic(u, Statistic::Max, calc), statistic(v, Statistic::Max, calc));
    let i = choose|i: int| 0 <= i < u.len() && !(#[trigger] u[i]).nan();
    let j = choose|j: int| 0 <= j < v.len() && !(#[trigger] v[j]).nan();
    assert(a.at_most(u[i]) && b.at_most(v[j]) && u[i].at_most(c) && v[j].at_most(d));
    arith_law::law_extremes_do_not_depend_on_order(u, v, a, b);
    arith_law::law_extremes_do_not_depend_on_order(u, v, c, d);
}

/// With exact arithmetic the sum and the mean of integers are those of the integers.
pub proof fn law_sum_and_mean<F: Fn(NumOp) -> Number>(v: Seq<int>, m: int, calc: F)
    requires
        exact(calc),
        v.len() > 0,
        small(v.len() as int),
        sums_small(v),
        total(v) == m * v.len(),
    ensures
        statistic(doubles(v), Statistic::Sum, calc) == nearest(total(v)),
        statistic(doubles(v), Statistic::Mean, calc) == nearest(m),
{
    arith_law::law_sum_of_integers(v, calc);
    arith_law::law_mean_of_integers(v, m, calc);
}

/// With exact arithmetic the variance of integers is the sum of the squared
/// differences to their mean over one less than their number, and the standard
/// deviation is its root.
pub proof fn law_variance_and_deviation<F: Fn(NumOp) -> Number>(
    v: Seq<int>,
    m: int,
    q: int,
    k: int,
    calc: F,
)
    requires
        exact(calc),
        v.len() > 1,
        small(v.len() as int),
        sums_small(v),
        total(v) == m * v.len(),
        squares_small(v, m),
        total(squares(v, m)) == q * (v.len() - 1),
    ensures
        statistic(doubles(v), Statistic::Variance, calc) == nearest(q),
        q == k * k && k >= 0 && small(q) ==> statistic(doubles(v), Statistic::StdDev, calc)
            == nearest(k),
{
    law_sum_and_mean(v, m, calc);
    arith_law::law_squares_of_integers(v, m, calc);
    let n = v.len() - 1;
    let t = total(squares(v, m));
    assert(squares(v, m).take(squares(v, m).len() as int) =~= squares(v, m));
    assert(small(total(squares(v, m).take(squares(v, m).len() as int))));
    vstd::arithmetic::div_mod::lemma_mod_multiples_basic(q, n);
    vstd::arithmetic::div_mod::lemma_div_multiples_vanish(q, n);
    assert(n * q == q * n) by (nonlinear_arith);
    assert(meaning(calc, NumOp::Div(nearest(t), nearest(n))) == nearest(q));
    if q == k * k && k >= 0 && small(q) {
        assert(meaning(calc, NumOp::Sqrt(nearest(k * k))) == nearest(k));
    }
}

/// Statistics that need more numbers than there are are not numbers.
pub proof fn law_too_few_numbers<F: Fn(NumOp) -> Number>(v: Seq<Number>, calc: F)
    ensures
        v.len() == 0 ==> statistic(v, Statistic::Mean, calc).nan() && statistic(
            v,
            Statistic::Min,
            calc,
        ).nan() && statistic(v, Statistic::Max, calc).nan() && statistic(
            v,
            Statistic::Range,
            calc,
        ).nan(),
        v.len() < 2 ==> statistic(v, Statistic::Variance, calc).nan() && statistic(
            v,
            Statistic::StdDev,
            calc,
        ).nan(),
        v.len() < 3 ==> statistic(v, Statistic::Skewness, calc).nan(),
        v.len() < 4 ==> statistic(v, Statistic::Kurtosis, calc).nan(),
{
}

/// Integers `z[i]` of deviations from an integer: `m + z[i] * k`.
pub open spec fn spread(z: Seq<int>, m: int, k: int) -> Seq<int> {
    Seq::new(z.len(), |i: int| m + z[i] * k)
}

/// The third powers.
pub open spec fn cubes(z: Seq<int>) -> Seq<int> {
    Seq::new(z.len(), |i: int| z[i] * z[i] * z[i])
}

/// The fourth powers.
pub open spec fn fourths(z: Seq<int>) -> Seq<int> {
    Seq::new(z.len(), |i: int| z[i] * z[i] * z[i] * z[i])
}

/// Integers whose mean is `m` and whose standard deviation is `k`, from which they
/// differ by multiples of `k`, all small enough to be exact.
pub open spec fn standardized(z: Seq<int>, m: int, k: int) -> bool {
    let v = spread(z, m, k);
    &&& small(z.len() as int + 1)
    &&& k > 0
    &&& small(k)
    &&& small(k * k)
    &&& sums_small(v)
    &&& total(v) == m * v.len()
    &&& squares_small(v, m)
    &&& total(squares(v, m)) == (k * k) * (v.len() - 1)
    &&& forall|i: int|
        0 <= i < z.len() ==> small(#[trigger] z[i]) && small(z[i] * k) && small(z[i] * z[i] * z[i])
            && small(z[i] * z[i] * z[i] * z[i])
    &&& sums_small(cubes(z))
    &&& sums_small(fourths(z))
}

proof fn lemma_standard_scores<F: Fn(NumOp) -> Number>(z: Seq<int>, m: int, k: int, calc: F)
    requires
        exact(calc),
        z.len() > 1,
        standardized(z, m, k),
    ensures
        descriptives::deviation_value(doubles(spread(z, m, k)), calc) == nearest(k),
        descriptives::mean_value(doubles(spread(z, m, k)), calc) == nearest(m),
        descriptives::powers(doubles(spread(z, m, k)), nearest(m), nearest(k), 3, calc) == doubles(
            cubes(z),
        ),
        descriptives::powers(doubles(spread(z, m, k)), nearest(m), nearest(k), 4, calc) == doubles(
            fourths(z),
        ),
        nearest(0).below(nearest(k)),
{
    let v = spread(z, m, k);
    law_sum_and_mean(v, m, calc);
    law_variance_and_deviation(v, m, k * k, k, calc);
    number_law::law_integers_keep_their_order(0, k);
    let p3 = descriptives::powers(doubles(v), nearest(m), nearest(k), 3, calc);
    let p4 = descriptives::powers(doubles(v), nearest(m), nearest(k), 4, calc);
    assert forall|i: int| 0 <= i < z.len() implies p3[i] == doubles(cubes(z))[i] && p4[i]
        == doubles(fourths(z))[i] by {
        assert(small(z[i]) && small(z[i] * k));
        assert(small(v[i]));
        assert(v[i] - m == z[i] * k);
        assert(meaning(calc, NumOp::Sub(nearest(v[i]), nearest(m))) == nearest(z[i] * k));
        vstd::arithmetic::div_mod::lemma_mod_multiples_basic(z[i], k);
        vstd::arithmetic::div_mod::lemma_div_multiples_vanish(z[i], k);
        assert(k * z[i] == z[i] * k) by (nonlinear_arith);
        assert(meaning(calc, NumOp::Div(nearest(z[i] * k), nearest(k))) == nearest(z[i]));
        assert(meaning(calc, NumOp::PowInt(nearest(z[i]), 3)) == nearest(z[i] * z[i] * z[i]));
        assert(meaning(calc, NumOp::PowInt(nearest(z[i]), 4)) == nearest(
            z[i] * z[i] * z[i] * z[i],
        ));
    }
    assert(p3 =~= doubles(cubes(z)));
    assert(p4 =~= doubles(fourths(z)));
}

/// The skewness of `n` integers: the sum of the cubes of their distances from the
/// mean, counted in standard deviations, times `n / ((n - 1) * (n - 2))`.
pub proof fn law_skewness<F: Fn(NumOp) -> Number>(z: Seq<int>, m: int, k: int, calc: F)
    requires
        exact(calc),
        z.len() > 2,
        standardized(z, m, k),
        small((z.len() - 1) * (z.len() - 2)),
    ensures
        statistic(doubles(spread(z, m, k)), Statistic::Skewness, calc) == meaning(
            calc,
            NumOp::Mul(
                meaning(
                    calc,
                    NumOp::Div(
                        nearest(z.len() as int),
                        nearest((z.len() - 1) * (z.len() - 2)),
                    ),
                ),
                nearest(total(cubes(z))),
            ),
        ),
{
    let n = z.len() as int;
    lemma_standard_scores(z, m, k, calc);
    arith_law::law_sum_of_integers(cubes(z), calc);
    assert((n - 1) * (n - 2) > 0) by (nonlinear_arith)
        requires
            n > 2,
    ;
    assert(meaning(calc, NumOp::Mul(nearest(n - 1), nearest(n - 2))) == nearest(
        (n - 1) * (n - 2),
    ));
}

/// The excess kurtosis of `n` integers: the sum of the fourth powers of their
/// distances from the mean, counted in standard deviations, times
/// `n * (n + 1) / ((n - 1) * (n - 2) * (n - 3))`, less
/// `3 * (n - 1)^2 / ((n - 2) * (n - 3))`.
pub proof fn law_kurtosis<F: Fn(NumOp) -> Number>(z: Seq<int>, m: int, k: int, calc: F)
    requires
        exact(calc),
        z.len() > 3,
        standardized(z, m, k),
        small(3 * ((z.len() - 1) * (z.len() - 1))),
    ensures
        ({
            let n = z.len() as int;
            statistic(doubles(spread(z, m, k)), Statistic::Kurtosis, calc) == meaning(
                calc,
                NumOp::Sub(
                    meaning(
                        calc,
                        NumOp::Mul(
                            meaning(
                                calc,
                                NumOp::Div(
                                    nearest(n * (n + 1)),
                                    nearest((n - 1) * (n - 2) * (n - 3)),
                                ),
                            ),
                            nearest(total(fourths(z))),
                        ),
                    ),
                    meaning(
                        calc,
                        NumOp::Div(
                            nearest(3 * ((n - 1) * (n - 1))),
                            nearest((n - 2) * (n - 3)),
                        ),
                    ),
                ),
            )
        }),
{
    let n = z.len() as int;
    lemma_standard_scores(z, m, k, calc);
    arith_law::law_sum_of_integers(fourths(z), calc);
    assert((n - 1) * (n - 1) > 0) by (nonlinear_arith)
        requires
            n > 3,
    ;
    assert(meaning(calc, NumOp::PowInt(nearest(n - 1), 2)) == nearest((n - 1) * (n - 1)));
    assert(meaning(calc, NumOp::Mul(nearest(3), nearest((n - 1) * (n - 1)))) == nearest(
        3 * ((n - 1) * (n - 1)),
    ));
}

/// Equal numbers are neither skew nor peaked: without a deviation there is no
/// skewness and no kurtosis.
pub proof fn law_no_deviation<F: Fn(NumOp) -> Number>(v: Seq<Number>, calc: F)
    requires
        !nearest(0).below(statistic(v, Statistic::StdDev, calc)),
    ensures
        statistic(v, Statistic::Skewness, calc).nan(),
        statistic(v, Statistic::Kurtosis, calc).nan(),
{
}

/// An entry that is a number and not user-missing.
pub open spec fn is_valid(missing: MissingView, entry: Option<Number>) -> bool {
    entry matches Some(n) && !(exists|i: int|
        0 <= i < missing.discrete.len() && n.equals(#[trigger] missing.discrete[i])) && !(
    missing.range matches Some((lo, hi)) && lo.at_most(n) && n.at_most(hi))
}

/// The valid numbers are the entries that are numbers and not user-missing, in order.
pub proof fn law_valid_numbers(missing: MissingView, entries: Seq<Option<Number>>)
    ensures
        descriptives::valid_numbers(missing, entries) == entries.filter(
            |e: Option<Number>| is_valid(missing, e),
        ).map_values(|e: Option<Number>| e->0),
    decreases entries.len(),
{
    reveal(Seq::filter);
    let pred = |e: Option<Number>| is_valid(missing, e);
    let got = |e: Option<Number>| e->0;
    if entries.len() > 0 {
        let head = entries.drop_last();
        law_valid_numbers(missing, head);
        let last = entries.last();
        if last is Some {
            number_law::law_user_missing(missing, last->0);
        }
        let before = head.filter(pred);
        if is_valid(missing, last) {
            assert(entries.filter(pred) == before.push(last));
            assert(before.push(last).map_values(got) =~= before.map_values(got).push(last->0));
        }
        assert(descriptives::valid_numbers(missing, entries) =~= entries.filter(pred).map_values(
            got,
        ));
    } else {
        assert(descriptives::valid_numbers(missing, entries) =~= entries.filter(pred).map_values(
            got,
        ));
    }
}

/// The cases that are valid in every variable are counted: those of the list of all
/// cases that are left when the others are taken out.
pub proof fn law_listwise(ds: DatasetView, idxs: Seq<usize>)
    requires
        idxs.len() > 0,
    ensures
        descriptives::listwise(ds, idxs) == Seq::new(ds.n_cases(), |r: int| r).filter(
            |r: int|
                forall|k: int|
                    0 <= k < idxs.len() ==> is_valid(
                        ds.variables[(#[trigger] idxs[k]) as int].missing,
                        descriptives::variable_numbers(ds, idxs[k] as int)[r],
                    ),
        ).len(),
{
    lemma_listwise(ds, idxs, ds.n_cases());
}

proof fn lemma_listwise(ds: DatasetView, idxs: Seq<usize>, n: nat)
    ensures
        descriptives::valid_cases(ds, idxs, n as int) == Seq::new(n, |r: int| r).filter(
            |r: int|
                forall|k: int|
                    0 <= k < idxs.len() ==> is_valid(
                        ds.variables[(#[trigger] idxs[k]) as int].missing,
                        descriptives::variable_numbers(ds, idxs[k] as int)[r],
                    ),
        ).len(),
    decreases n,
{
    reveal(Seq::filter);
    let pred = |r: int|
        forall|k: int|
            0 <= k < idxs.len() ==> is_valid(
                ds.variables[(#[trigger] idxs[k]) as int].missing,
                descriptives::variable_numbers(ds, idxs[k] as int)[r],
            );
    let all = Seq::new(n, |r: int| r);
    if n > 0 {
        let m = (n - 1) as nat;
        lemma_listwise(ds, idxs, m);
        assert(all.drop_last() =~= Seq::new(m, |r: int| r));
        assert(all.last() == m);
        assert forall|k: int| 0 <= k < idxs.len() implies is_valid(
            ds.variables[(#[trigger] idxs[k]) as int].missing,
            descriptives::variable_numbers(ds, idxs[k] as int)[m as int],
        ) == descriptives::counts(
            ds.variables[idxs[k] as int].missing,
            descriptives::variable_numbers(ds, idxs[k] as int)[m as int],
        ) by {
            let e = descriptives::variable_numbers(ds, idxs[k] as int)[m as int];
            if e is Some {
                number_law::law_user_missing(ds.variables[idxs[k] as int].missing, e->0);
            }
        }
        assert(pred(m as int) == descriptives::case_valid(ds, idxs, m as int)) by {
            if descriptives::case_valid(ds, idxs, m as int) {
                assert forall|k: int| 0 <= k < idxs.len() implies is_valid(
                    ds.variables[(#[trigger] idxs[k]) as int].missing,
                    descriptives::variable_numbers(ds, idxs[k] as int)[m as int],
                ) by {}
            }
        }
    } else {
        assert(all =~= Seq::empty());
    }
}

/// The text of a statistic in the table: a point where it is not a number, and the
/// number with `decimals` places otherwise.
pub open spec fn is_cell<S: Fn(Number, Style) -> String>(
    cell: Seq<char>,
    n: Number,
    decimals: u8,
    f: S,
) -> bool {
    if n.nan() {
        cell == seq!['.']
    } else {
        cell == arith::shown(f, n, Style::Fixed(decimals))
    }
}

/// The table of DESCRIPTIVES: each row starts with the label of its variable, or its
/// name where it has none, and the number of valid numbers; behind them each column
/// holds the statistic that its header names, with three decimals for skewness and
/// kurtosis and those of the variable for the others.
pub proof fn law_table<F: Fn(NumOp) -> Number, S: Fn(Number, Style) -> String>(
    ds: DatasetView,
    asked: Seq<Seq<char>>,
    stats: Seq<Statistic>,
    k: int,
    i: int,
    calc: F,
    f: S,
)
    requires
        0 <= k < descriptives::described(ds, asked).len(),
        0 <= i < stats.len(),
    ensures
        ({
            let t = descriptives::description(ds, asked, stats, calc, f);
            let var = ds.variables[descriptives::described(ds, asked)[k] as int];
            let entries = descriptives::variable_numbers(
                ds,
                descriptives::described(ds, asked)[k] as int,
            );
            let v = entries.filter(|e: Option<Number>| is_valid(var.missing, e)).map_values(
                |e: Option<Number>| e->0,
            );
            &&& t.rows.len() == descriptives::described(ds, asked).len()
            &&& t.rows[k].len() == t.column_headers.len() == 2 + stats.len()
            &&& t.rows[k][0] == (if var.label is Some {
                var.label->0
            } else {
                var.name
            })
            &&& t.rows[k][1] == text::decimal(v.len())
            &&& is_cell(
                t.rows[k][2 + i],
                statistic(v, stats[i], calc),
                if stats[i] == Statistic::Skewness || stats[i] == Statistic::Kurtosis {
                    3
                } else {
                    var.print_decimals
                },
                f,
            )
            &&& stats[i] == Statistic::Mean ==> t.column_headers[2 + i] == "Mean"@
            &&& stats[i] == Statistic::StdDev ==> t.column_headers[2 + i] == "Std. Deviation"@
            &&& stats[i] == Statistic::Min ==> t.column_headers[2 + i] == "Minimum"@
            &&& stats[i] == Statistic::Max ==> t.column_headers[2 + i] == "Maximum"@
            &&& stats[i] == Statistic::Variance ==> t.column_headers[2 + i] == "Variance"@
            &&& stats[i] == Statistic::Skewness ==> t.column_headers[2 + i] == "Skewness"@
            &&& stats[i] == Statistic::Kurtosis ==> t.column_headers[2 + i] == "Kurtosis"@
            &&& stats[i] == Statistic::Sum ==> t.column_headers[2 + i] == "Sum"@
            &&& stats[i] == Statistic::Range ==> t.column_headers[2 + i] == "Range"@
        }),
{
    let j = descriptives::described(ds, asked)[k] as int;
    law_valid_numbers(ds.variables[j].missing, descriptives::variable_numbers(ds, j));
    reveal_strlit(".");
    assert("."@ =~= seq!['.']);
}

/// The entries of a variable are those of its columns, batch after batch: a double
/// as it is, an integer as its nearest double, a truth value as one or zero, and
/// null where there is none.
pub proof fn law_entries(ds: DatasetView, idx: int, b: int, r: int)
    requires
        ds.wf(),
        0 <= b < ds.batches.len(),
        0 <= idx,
        crate::transform::rows::covered(ds, idx),
        0 <= r < ds.batches[b].num_rows,
    ensures
        ({
            let at = crate::dataset::rows_in(ds.batches.take(b)) + r;
            let column = ds.batches[b].columns[idx];
            let entry = descriptives::variable_numbers(ds, idx)[at];
            &&& column.cells[r] is Null ==> entry is None
            &&& column.kind is Float64 && column.cells[r] is Number ==> entry == Some(
                column.cells[r]->Number_0,
            )
            &&& column.kind is Int64 && column.cells[r] is Integer ==> entry == Some(
                nearest(column.cells[r]->Integer_0 as int),
            )
            &&& column.kind is Int32 && column.cells[r] is Integer ==> entry == Some(
                nearest(column.cells[r]->Integer_0 as int),
            )
            &&& column.kind is Boolean && column.cells[r] == crate::batch::CellView::Bool(true)
                ==> entry == Some(nearest(1))
            &&& column.kind is Boolean && column.cells[r] == crate::batch::CellView::Bool(false)
                ==> entry == Some(nearest(0))
        }),
{
    lemma_entry_place(ds, idx, b, r, ds.batches.len() as int);
}

proof fn lemma_entry_place(ds: DatasetView, idx: int, b: int, r: int, n: int)
    requires
        ds.wf(),
        0 <= b < n <= ds.batches.len(),
        0 <= idx,
        crate::transform::rows::covered(ds, idx),
        0 <= r < ds.batches[b].num_rows,
    ensures
        crate::dataset::rows_in(ds.batches.take(b)) + r < descriptives::numbers_in(
            ds,
            idx,
            n,
        ).len(),
        descriptives::numbers_in(ds, idx, n)[crate::dataset::rows_in(ds.batches.take(b)) + r]
            == descriptives::entry_number(
            ds.batches[b].columns[idx].kind,
            ds.batches[b].columns[idx].cells[r],
        ),
    decreases n,
{
    descriptives::lemma_numbers_len(ds, idx, n - 1);
    crate::dataset::lemma_rows_split(ds.batches, n - 1);
    assert(ds.batches[n - 1].wf());
    assert(idx < ds.batches[n - 1].columns.len());
    assert(ds.batches[n - 1].columns[idx].cells.len() == ds.batches[n - 1].num_rows);
    if b < n - 1 {
        lemma_entry_place(ds, idx, b, r, n - 1);
    }
}

/// The variables that are described are numeric ones; where all names that are asked
/// for belong to numeric variables, they are those of the names, in order.
pub proof fn law_described(ds: DatasetView, asked: Seq<Seq<char>>)
    requires
        ds.wf(),
    ensures
        forall|k: int|
            0 <= k < descriptives::described(ds, asked).len() ==> ds.variables[(
            #[trigger] descriptives::described(ds, asked)[k]) as int].var_type is Numeric,
        asked.len() > 0 && (forall|k: int|
            0 <= k < asked.len() ==> (ds.index_of(#[trigger] asked[k]) matches Some(i)
                && ds.variables[i as int].var_type is Numeric)) ==> descriptives::described(
            ds,
            asked,
        ) == Seq::new(asked.len(), |k: int| ds.index_of(asked[k])->0),
{
    lemma_numeric_only(ds, descriptives::names_to_run(ds.variables, asked));
    if asked.len() > 0 && (forall|k: int|
        0 <= k < asked.len() ==> (ds.index_of(#[trigger] asked[k]) matches Some(i)
            && ds.variables[i as int].var_type is Numeric)) {
        lemma_all_found(ds, asked);
    }
}

proof fn lemma_numeric_only(ds: DatasetView, names: Seq<Seq<char>>)
    ensures
        forall|k: int|
            0 <= k < descriptives::found_numeric(ds, names).len() ==> ds.variables[(
            #[trigger] descriptives::found_numeric(ds, names)[k]) as int].var_type is Numeric,
    decreases names.len(),
{
    if names.len() > 0 {
        let head = names.drop_last();
        lemma_numeric_only(ds, head);
        let before = descriptives::found_numeric(ds, head);
        let all = descriptives::found_numeric(ds, names);
        assert forall|k: int| 0 <= k < all.len() implies ds.variables[(
        #[trigger] all[k]) as int].var_type is Numeric by {
            if k < before.len() {
                assert(all[k] == before[k]);
            }
        }
    }
}

proof fn lemma_all_found(ds: DatasetView, names: Seq<Seq<char>>)
    requires
        forall|k: int|
            0 <= k < names.len() ==> (ds.index_of(#[trigger] names[k]) matches Some(i)
                && ds.variables[i as int].var_type is Numeric),
    ensures
        descriptives::found_numeric(ds, names) == Seq::new(
            names.len(),
            |k: int| ds.index_of(names[k])->0,
        ),
    decreases names.len(),
{
    let all = Seq::new(names.len(), |k: int| ds.index_of(names[k])->0);
    if names.len() > 0 {
        let head = names.drop_last();
        assert forall|k: int| 0 <= k < head.len() implies (ds.index_of(
            #[trigger] head[k],
        ) matches Some(i) && ds.variables[i as int].var_type is Numeric) by {
            assert(head[k] == names[k]);
        }
        lemma_all_found(ds, head);
        assert(names[names.len() - 1] == names.last());
        assert(all =~= Seq::new(head.len(), |k: int| ds.index_of(head[k])->0).push(
            ds.index_of(names.last())->0,
        ));
    } else {
        assert(descriptives::found_numeric(ds, names) =~= all);
    }
}

/// Where no names are asked for, the numeric variables are described, each by its name
/// and in their order; names that are asked for and belong to no numeric variable are
/// passed over.
pub proof fn law_described_in_order(ds: DatasetView, asked: Seq<Seq<char>>)
    ensures
        ({
            let names = if asked.len() > 0 {
                asked
            } else {
                ds.variables.filter(|v: VariableView| v.var_type is Numeric).map_values(
                    |v: VariableView| v.name,
                )
            };
            descriptives::described(ds, asked) == names.filter(
                |n: Seq<char>| is_numeric(ds, n),
            ).map_values(|n: Seq<char>| ds.index_of(n)->0)
        }),
{
    lemma_numeric_names(ds.variables);
    lemma_found_in_order(ds, descriptives::names_to_run(ds.variables, asked));
}

/// A name belongs to a numeric variable.
pub open spec fn is_numeric(ds: DatasetView, name: Seq<char>) -> bool {
    ds.index_of(name) matches Some(i) && ds.variables[i as int].var_type is Numeric
}

proof fn lemma_numeric_names(vars: Seq<VariableView>)
    ensures
        descriptives::numeric_names(vars) == vars.filter(
            |v: VariableView| v.var_type is Numeric,
        ).map_values(|v: VariableView| v.name),
    decreases vars.len(),
{
    reveal(Seq::filter);
    let p = |v: VariableView| v.var_type is Numeric;
    let g = |v: VariableView| v.name;
    if vars.len() > 0 {
        let head = vars.drop_last();
        lemma_numeric_names(head);
        let before = head.filter(p);
        if vars.last().var_type is Numeric {
            assert(vars.filter(p) == before.push(vars.last()));
            assert(before.push(vars.last()).map_values(g) =~= before.map_values(g).push(
                vars.last().name,
            ));
        }
    } else {
        assert(descriptives::numeric_names(vars) =~= vars.filter(p).map_values(g));
    }
}

proof fn lemma_found_in_order(ds: DatasetView, names: Seq<Seq<char>>)
    ensures
        descriptives::found_numeric(ds, names) == names.filter(
            |n: Seq<char>| is_numeric(ds, n),
        ).map_values(|n: Seq<char>| ds.index_of(n)->0),
    decreases names.len(),
{
    reveal(Seq::filter);
    let p = |n: Seq<char>| is_numeric(ds, n);
    let g = |n: Seq<char>| ds.index_of(n)->0;
    if names.len() > 0 {
        let head = names.drop_last();
        lemma_found_in_order(ds, head);
        let before = head.filter(p);
        if is_numeric(ds, names.last()) {
            assert(names.filter(p) == before.push(names.last()));
            assert(before.push(names.last()).map_values(g) =~= before.map_values(g).push(
                ds.index_of(names.last())->0,
            ));
        }
    } else {
        assert(descriptives::found_numeric(ds, names) =~= names.filter(p).map_values(g));
    }
}

/// The squared difference between a number and another.
pub open spec fn squared_difference<F: Fn(NumOp) -> Number>(
    x: Number,
    mean: Number,
    calc: F,
) -> Number {
    meaning(calc, NumOp::PowInt(meaning(calc, NumOp::Sub(x, mean)), 2))
}

/// How the statistics of any numbers relate: one more number is added to the sum, the
/// mean is the sum over the number of numbers, the variance is the sum of the squared
/// differences to the mean over one less than that number, and the standard deviation
/// its root.
pub proof fn law_statistics_relate<F: Fn(NumOp) -> Number>(v: Seq<Number>, x: Number, calc: F)
    ensures
        statistic(v.push(x), Statistic::Sum, calc) == meaning(
            calc,
            NumOp::Add(statistic(v, Statistic::Sum, calc), x),
        ),
        v.len() > 0 ==> statistic(v, Statistic::Mean, calc) == meaning(
            calc,
            NumOp::Div(statistic(v, Statistic::Sum, calc), nearest(v.len() as int)),
        ),
        v.len() > 1 ==> {
            let mean = statistic(v, Statistic::Mean, calc);
            let squares = v.map_values(|y: Number| squared_difference(y, mean, calc));
            &&& statistic(v, Statistic::Variance, calc) == meaning(
                calc,
                NumOp::Div(statistic(squares, Statistic::Sum, calc), nearest(v.len() - 1)),
            )
            &&& statistic(v, Statistic::StdDev, calc) == meaning(
                calc,
                NumOp::Sqrt(statistic(v, Statistic::Variance, calc)),
            )
        },
{
    arith_law::law_sum_grows(v, x, calc);
    let mean = statistic(v, Statistic::Mean, calc);
    assert(v.map_values(|y: Number| squared_difference(y, mean, calc)) =~= arith::deviations(
        v,
        mean,
        calc,
    ));
}

/// A power of the distance of a number from the mean, in standard deviations.
pub open spec fn score_power<F: Fn(NumOp) -> Number>(
    x: Number,
    mean: Number,
    sd: Number,
    k: i32,
    calc: F,
) -> Number {
    meaning(
        calc,
        NumOp::PowInt(meaning(calc, NumOp::Div(meaning(calc, NumOp::Sub(x, mean)), sd)), k),
    )
}

/// The skewness and the kurtosis of any numbers that differ, from their mean and their
/// standard deviation: the sums of the third and fourth powers of the distances, with
/// the factors for a sample of their number.
pub proof fn law_moments_relate<F: Fn(NumOp) -> Number>(v: Seq<Number>, calc: F)
    requires
        nearest(0).below(statistic(v, Statistic::StdDev, calc)),
    ensures
        ({
            let n = v.len() as int;
            let mean = statistic(v, Statistic::Mean, calc);
            let sd = statistic(v, Statistic::StdDev, calc);
            let sum = |k: i32|
                statistic(
                    v.map_values(|x: Number| score_power(x, mean, sd, k, calc)),
                    Statistic::Sum,
                    calc,
                );
            let over = |a: Number, b: Number| meaning(calc, NumOp::Div(a, b));
            let times = |a: Number, b: Number| meaning(calc, NumOp::Mul(a, b));
            &&& n > 2 ==> statistic(v, Statistic::Skewness, calc) == times(
                over(nearest(n), times(nearest(n - 1), nearest(n - 2))),
                sum(3),
            )
            &&& n > 3 ==> statistic(v, Statistic::Kurtosis, calc) == meaning(
                calc,
                NumOp::Sub(
                    times(
                        over(nearest(n * (n + 1)), nearest((n - 1) * (n - 2) * (n - 3))),
                        sum(4),
                    ),
                    over(
                        times(nearest(3), meaning(calc, NumOp::PowInt(nearest(n - 1), 2))),
                        nearest((n - 2) * (n - 3)),
                    ),
                ),
            )
        }),
{
    let mean = statistic(v, Statistic::Mean, calc);
    let sd = statistic(v, Statistic::StdDev, calc);
    assert(v.map_values(|x: Number| score_power(x, mean, sd, 3, calc)) =~= descriptives::powers(
        v,
        mean,
        sd,
        3,
        calc,
    ));
    assert(v.map_values(|x: Number| score_power(x, mean, sd, 4, calc)) =~= descriptives::powers(
        v,
        mean,
        sd,
        4,
        calc,
    ));
}

} // verus!
