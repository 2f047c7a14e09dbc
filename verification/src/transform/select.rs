//! SELECT IF: keeps the rows that meet a condition.
use vstd::prelude::*;

use crate::arith;
use crate::arith::NumOp;
use crate::batch;
use crate::batch::{copy_fields, Batch, BatchView, Cell, Column, ColumnView};
use crate::dataset;
use crate::dataset::{Dataset, DatasetView};
use crate::expr::ast::{Expr, ExprView};
use crate::expr::eval;
use crate::number;
use crate::number::Number;
use crate::text;
use crate::transform::rows;
use crate::value::{Value, ValueView};
use crate::variable::Variable;

verus! {

broadcast use crate::text::lemma_views_push;

/// The condition holds in a row: its value is a number other than zero.
pub open spec fn holds<F: Fn(NumOp) -> Number>(
    ds: DatasetView,
    e: ExprView,
    b: int,
    r: int,
    calc: F,
) -> bool {
    eval::evaluated(e, ds, b, r, calc) matches Some(ValueView::Numeric(n)) && !n.equals(
        number::nearest(0),
    )
}

/// The condition has a value in every row.
pub open spec fn evaluable<F: Fn(NumOp) -> Number>(ds: DatasetView, e: ExprView, calc: F) -> bool {
    forall|b: int, r: int|
        0 <= b < ds.batches.len() && 0 <= r < ds.batches[b].num_rows ==> (
        #[trigger] eval::evaluated(e, ds, b, r, calc)) is Some
}

/// The rows of a batch before the `n`th in which the condition holds.
pub open spec fn kept_rows<F: Fn(NumOp) -> Number>(
    ds: DatasetView,
    e: ExprView,
    b: int,
    n: int,
    calc: F,
) -> Seq<int>
    decreases n,
{
    if n <= 0 {
        Seq::empty()
    } else if holds(ds, e, b, n - 1, calc) {
        kept_rows(ds, e, b, n - 1, calc).push(n - 1)
    } else {
        kept_rows(ds, e, b, n - 1, calc)
    }
}

/// A column with some of its entries.
pub open spec fn picked(c: ColumnView, rows: Seq<int>) -> ColumnView {
    ColumnView { kind: c.kind, cells: Seq::new(rows.len(), |i: int| c.cells[rows[i]]) }
}

/// A batch with some of its rows.
pub open spec fn picked_batch(b: BatchView, rows: Seq<int>) -> BatchView {
    BatchView {
        fields: b.fields,
        columns: Seq::new(b.columns.len(), |i: int| picked(b.columns[i], rows)),
        num_rows: rows.len() as usize,
    }
}

/// The first `n` batches with the rows in which the condition holds, without
/// those that have none.
pub open spec fn kept_batches<F: Fn(NumOp) -> Number>(
    ds: DatasetView,
    e: ExprView,
    n: int,
    calc: F,
) -> Seq<BatchView>
    decreases n,
{
    if n <= 0 {
        Seq::empty()
    } else {
        let before = kept_batches(ds, e, n - 1, calc);
        let rows = kept_rows(ds, e, n - 1, ds.batches[n - 1].num_rows as int, calc);
        if rows.len() > 0 {
            before.push(picked_batch(ds.batches[n - 1], rows))
        } else {
            before
        }
    }
}

/// The rows in which the condition holds.
pub open spec fn selected<F: Fn(NumOp) -> Number>(ds: DatasetView, e: ExprView, calc: F) -> DatasetView {
    if ds.batches.len() == 0 {
        rows::nothing()
    } else {
        dataset::dataset_of(
            ds.variables,
            kept_batches(ds, e, ds.batches.len() as int, calc),
        )
    }
}

/// The kept rows are in order, and are those in which the condition holds.
pub proof fn law_kept_rows<F: Fn(NumOp) -> Number>(
    ds: DatasetView,
    e: ExprView,
    b: int,
    n: int,
    calc: F,
)
    requires
        0 <= n,
    ensures
        kept_rows(ds, e, b, n, calc).len() <= n,
        forall|i: int, j: int|
            0 <= i < j < kept_rows(ds, e, b, n, calc).len() ==> kept_rows(ds, e, b, n, calc)[i]
                < kept_rows(ds, e, b, n, calc)[j],
        forall|r: int| #[trigger]
            kept_rows(ds, e, b, n, calc).contains(r) <==> 0 <= r < n && holds(ds, e, b, r, calc),
    decreases n,
{
    let all = kept_rows(ds, e, b, n, calc);
    if n > 0 {
        law_kept_rows(ds, e, b, n - 1, calc);
        let before = kept_rows(ds, e, b, n - 1, calc);
        assert forall|i: int, j: int| 0 <= i < j < all.len() implies all[i] < all[j] by {
            if j == before.len() {
                assert(before.contains(before[i]));
            }
        }
        assert forall|r: int| #[trigger] all.contains(r) <==> 0 <= r < n && holds(ds, e, b, r, calc) by {
            assert(before.contains(r) <==> 0 <= r < n - 1 && holds(ds, e, b, r, calc));
            if all.contains(r) {
                let i = choose|i: int| 0 <= i < all.len() && all[i] == r;
                if i < before.len() {
                    assert(before[i] == r);
                }
            }
            if 0 <= r < n && holds(ds, e, b, r, calc) {
                if r < n - 1 {
                    let i = choose|i: int| 0 <= i < before.len() && before[i] == r;
                    assert(all[i] == r);
                } else {
                    assert(all[before.len() as int] == r);
                }
            }
        }
    }
}

/// The indices of rows.
spec fn row_numbers(v: Seq<usize>) -> Seq<int> {
    Seq::new(v.len(), |i: int| v[i] as int)
}

fn pick_column(c: &Column, list: &Vec<usize>) -> (r: Column)
    requires
        forall|i: int| 0 <= i < list@.len() ==> (#[trigger] list@[i]) < c.cells@.len(),
    ensures
        r@ == picked(c@, row_numbers(list@)),
{
    let mut cells: Vec<Cell> = Vec::new();
    let mut i: usize = 0;
    while i < list.len()
        invariant
            i <= list.len(),
            forall|i: int| 0 <= i < list@.len() ==> (#[trigger] list@[i]) < c.cells@.len(),
            text::views(cells@) =~= picked(c@, row_numbers(list@)).cells.take(i as int),
        decreases list.len() - i,
    {
        proof {
            assert(list@[i as int] < c.cells@.len());
        }
        cells.push(c.cells[list[i]].clone());
        i = i + 1;
    }
    let r = Column { kind: c.kind.clone(), cells };
    proof {
        assert(r@ =~= picked(c@, row_numbers(list@)));
    }
    r
}

fn pick_batch(b: &Batch, list: &Vec<usize>) -> (r: Batch)
    requires
        b@.wf(),
        forall|i: int| 0 <= i < list@.len() ==> (#[trigger] list@[i]) < b.num_rows,
    ensures
        r@ == picked_batch(b@, row_numbers(list@)),
{
    let ghost rows = row_numbers(list@);
    let mut columns: Vec<Column> = Vec::new();
    let mut i: usize = 0;
    while i < b.columns.len()
        invariant
            i <= b.columns.len(),
            b@.wf(),
            rows == row_numbers(list@),
            forall|i: int| 0 <= i < list@.len() ==> (#[trigger] list@[i]) < b.num_rows,
            text::views(columns@) =~= picked_batch(b@, rows).columns.take(i as int),
        decreases b.columns.len() - i,
    {
        proof {
            assert(b@.columns[i as int].cells.len() == b.num_rows);
        }
        columns.push(pick_column(&b.columns[i], list));
        i = i + 1;
    }
    let r = Batch { fields: copy_fields(&b.fields), columns, num_rows: list.len() };
    proof {
        assert(r@ =~= picked_batch(b@, rows));
    }
    r
}

/// A copy of the variables.
pub(crate) fn copy_variables(v: &Vec<Variable>) -> (r: Vec<Variable>)
    ensures
        text::views(r@) == text::views(v@),
{
    let mut out: Vec<Variable> = Vec::new();
    let mut i: usize = 0;
    while i < v.len()
        invariant
            i <= v.len(),
            text::views(out@) =~= text::views(v@).take(i as int),
        decreases v.len() - i,
    {
        out.push(v[i].clone());
        i = i + 1;
    }
    proof {
        assert(text::views(v@).take(v@.len() as int) =~= text::views(v@));
    }
    out
}

/// SELECT IF: keeps the rows that meet a condition, and deletes the others.
pub fn select_if<F: Fn(NumOp) -> Number>(dataset: &Dataset, expr: &Expr, calc: &F) -> (r: Result<
    Dataset,
    String,
>)
    requires
        arith::steady(*calc),
        dataset@.wf(),
        evaluable(dataset@, expr@, *calc),
    ensures
        r matches Ok(out) && out@ == selected(dataset@, expr@, *calc) && out@.wf(),
{
    if dataset.batches.len() == 0 {
        return Ok(Dataset::new());
    }
    let ghost ds = dataset@;
    let ghost e = expr@;
    let mut batches: Vec<Batch> = Vec::new();
    let mut b: usize = 0;
    proof {
        assert(text::views(batches@) =~= Seq::empty());
    }
    while b < dataset.batches.len()
        invariant
            b <= dataset.batches.len(),
            ds == dataset@,
            e == expr@,
            ds.wf(),
            arith::steady(*calc),
            evaluable(ds, e, *calc),
            text::views(batches@) == kept_batches(ds, e, b as int, *calc),
            batch::all_wf(text::views(batches@)),
        decreases dataset.batches.len() - b,
    {
        let n = dataset.batches[b].num_rows;
        let mut list: Vec<usize> = Vec::new();
        let mut r: usize = 0;
        proof {
            assert(row_numbers(list@) =~= Seq::empty());
        }
        while r < n
            invariant
                r <= n,
                b < ds.batches.len(),
                n == ds.batches[b as int].num_rows,
                ds == dataset@,
                e == expr@,
                arith::steady(*calc),
                evaluable(ds, e, *calc),
                row_numbers(list@) == kept_rows(ds, e, b as int, r as int, *calc),
                forall|i: int| 0 <= i < list@.len() ==> (#[trigger] list@[i]) < n,
            decreases n - r,
        {
            let ghost before = row_numbers(list@);
            proof {
                assert(eval::evaluated(e, ds, b as int, r as int, *calc) is Some);
            }
            let keep = match expr.eval(dataset, b, r, calc) {
                Value::Numeric(x) => !x.is_equal(&Number::from_usize(0)),
                _ => false,
            };
            if keep {
                list.push(r);
                proof {
                    assert(row_numbers(list@) =~= before.push(r as int));
                }
            }
            r = r + 1;
        }
        proof {
            assert(ds.batches[b as int].wf());
        }
        if list.len() > 0 {
            batches.push(pick_batch(&dataset.batches[b], &list));
        }
        b = b + 1;
    }
    Ok(Dataset::from_parts(copy_variables(&dataset.variables), batches))
}

/// SELECT IF, where the condition has a value in every row.
pub fn try_select_if<F: Fn(NumOp) -> Number>(dataset: &Dataset, expr: &Expr, calc: &F) -> (r: Option<
    Result<Dataset, String>,
>)
    requires
        arith::steady(*calc),
        dataset@.wf(),
    ensures
        match r {
            Some(x) => evaluable(dataset@, expr@, *calc) && (x matches Ok(out) && out@ == selected(
                dataset@,
                expr@,
                *calc,
            ) && out@.wf()),
            None => !evaluable(dataset@, expr@, *calc),
        },
{
    let ghost ds = dataset@;
    let ghost e = expr@;
    let mut b: usize = 0;
    while b < dataset.batches.len()
        invariant
            b <= dataset.batches.len(),
            ds == dataset@,
            e == expr@,
            arith::steady(*calc),
            forall|x: int, y: int|
                0 <= x < b && 0 <= y < ds.batches[x].num_rows ==> (#[trigger] eval::evaluated(
                    e,
                    ds,
                    x,
                    y,
                    *calc,
                )) is Some,
        decreases dataset.batches.len() - b,
    {
        let mut y: usize = 0;
        while y < dataset.batches[b].num_rows
            invariant
                b < ds.batches.len(),
                y <= ds.batches[b as int].num_rows,
                ds == dataset@,
                e == expr@,
                arith::steady(*calc),
                forall|r: int|
                    0 <= r < y ==> (#[trigger] eval::evaluated(
                        e,
                        ds,
                        b as int,
                        r,
                        *calc,
                    )) is Some,
            decreases ds.batches[b as int].num_rows - y,
        {
            if expr.evaluate(dataset, b, y, calc).is_none() {
                proof {
                    assert(eval::evaluated(e, ds, b as int, y as int, *calc) is None);
                }
                return None;
            }
            y = y + 1;
        }
        b = b + 1;
    }
    Some(select_if(dataset, expr, calc))
}

} // verus!
