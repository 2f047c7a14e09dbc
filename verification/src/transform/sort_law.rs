//! What SORT CASES and SELECT IF do with cases.
use vstd::prelude::*;

use crate::arith::NumOp;
use crate::batch::{CellView, ColumnView};
use crate::dataset;
use crate::dataset::DatasetView;
use crate::expr::ast::ExprView;
use crate::number;
use crate::number::{nearest, Number};
use crate::number_law;
use crate::number_law::small;
use crate::text;
use crate::text_order;
use crate::transform::merge_law;
use crate::transform::merge_law::{entries, entries_of};
use crate::transform::rows;
use crate::transform::select;
use crate::transform::sort;
use crate::transform::sort::{SortKeyView, SortOrder};
use crate::value::ValueView;

verus! {

/// An entry that stands before another is not the larger one in ascending order and
/// not the smaller one in descending order; nulls come first in ascending and last in
/// descending order.
pub open spec fn in_order(order: SortOrder, x: CellView, y: CellView) -> bool {
    let (low, high) = if order == SortOrder::Ascending {
        (x, y)
    } else {
        (y, x)
    };
    match (low, high) {
        (CellView::Number(a), CellView::Number(b)) => !b.below(a),
        (CellView::Text(a), CellView::Text(b)) => !text::text_below(b, a),
        (_, CellView::Null) => low is Null,
        _ => true,
    }
}

/// The entries of a column are nulls or of its kind.
pub open spec fn typed(c: ColumnView) -> bool {
    forall|i: int|
        0 <= i < c.cells.len() ==> ((#[trigger] c.cells[i]) is Null || (c.kind is Float64
            && c.cells[i] is Number) || (!(c.kind is Float64) && c.cells[i] is Text))
}

proof fn lemma_key_columns(ds: DatasetView, keys: Seq<SortKeyView>, n: int, by: Seq<ColumnView>)
    requires
        0 <= n <= keys.len(),
        sort::key_columns(ds, keys, n) == Some(Ok::<Seq<ColumnView>, Seq<char>>(by)),
    ensures
        by.len() == n,
        forall|q: int|
            0 <= q < n ==> ds.index_of((#[trigger] keys[q]).var_name) is Some && by[q].cells
                == entries_of(ds, ds.index_of(keys[q].var_name)->0 as int),
    decreases n,
{
    if n > 0 {
        let before = sort::key_columns(ds, keys, n - 1)->0->Ok_0;
        lemma_key_columns(ds, keys, n - 1, before);
        let idx = ds.index_of(keys[n - 1].var_name)->0 as int;
        merge_law::lemma_column_entries(ds, idx);
    }
}

proof fn lemma_not_before(
    by: Seq<ColumnView>,
    keys: Seq<SortKeyView>,
    k: int,
    q: int,
    i: int,
    j: int,
)
    requires
        0 <= k <= q < by.len(),
        by.len() == keys.len(),
        !sort::row_before(by, keys, k, j, i),
        forall|p: int| k <= p < q ==> (#[trigger] by[p]).cells[i] == by[p].cells[j],
    ensures
        !sort::before_by(by[q], keys[q].order, j, i),
    decreases q - k,
{
    if k < q {
        assert(by[k].cells[i] == by[k].cells[j]);
        if by[k].cells[i] is Text {
            text_order::law_text_order(by[k].cells[i]->Text_0, by[k].cells[j]->Text_0);
        }
        assert(!sort::before_by(by[k], keys[k].order, i, j));
        assert(!sort::before_by(by[k], keys[k].order, j, i));
        lemma_not_before(by, keys, k + 1, q, i, j);
    }
}

/// SORT CASES puts whole rows in another order, each once. Of two rows the first key
/// in which they differ decides: by it they are in order.
pub proof fn law_sorted_rows(
    ds: DatasetView,
    keys: Seq<SortKeyView>,
    by: Seq<ColumnView>,
    all: Seq<ColumnView>,
    out: DatasetView,
)
    requires
        sort::sort_input(ds, keys) == Some(
            Ok::<(Seq<ColumnView>, Seq<ColumnView>), Seq<char>>((by, all)),
        ),
        sort::is_sorted_form(ds, keys, by, all, out),
        forall|q: int| 0 <= q < by.len() ==> typed(#[trigger] by[q]) && by[q].cells.len() == ds.n_cases(),
        forall|k: Seq<char>| #[trigger] ds.names.contains_key(k) ==> ds.names[k] < ds.variables.len(),
    ensures
        exists|order: Seq<u32>|
            {
                &&& #[trigger] sort::permutes(order, ds.n_cases())
                &&& forall|j: int, a: int|
                    0 <= j < ds.variables.len() && 0 <= a < ds.n_cases()
                        ==> #[trigger] entries_of(out, j)[a] == entries_of(ds, j)[order[a] as int]
            },
        forall|q: int, a: int, b: int|
            0 <= q < keys.len() && 0 <= a < b < ds.n_cases() && (forall|p: int|
                0 <= p < q ==> #[trigger] key_entry(out, ds, keys, p, a) == key_entry(
                    out,
                    ds,
                    keys,
                    p,
                    b,
                )) ==> in_order(
                keys[q].order,
                #[trigger] key_entry(out, ds, keys, q, a),
                #[trigger] key_entry(out, ds, keys, q, b),
            ),
{
    let nv = ds.variables.len() as int;
    lemma_key_columns(ds, keys, keys.len() as int, by);
    rows::lemma_all_columns(ds, nv);
    let order = choose|order: Seq<u32>| #[trigger]
        sort::sorts(by, keys, ds.n_cases(), order) && rows::table_of(
            ds.variables,
            sort::all_reordered(all, order),
        ) == Ok::<DatasetView, Seq<char>>(out);
    let columns = sort::all_reordered(all, order);
    merge_law::lemma_table_entries(ds.variables, columns, out);
    assert forall|j: int, a: int| 0 <= j < nv && 0 <= a < ds.n_cases() implies
        #[trigger] entries_of(out, j)[a] == entries_of(ds, j)[order[a] as int] by {
        merge_law::lemma_column_entries(ds, j);
        assert(columns[j] == sort::reordered(all[j], order));
    }
    assert(sort::permutes(order, ds.n_cases()));
    assert forall|q: int, a: int, b: int|
        0 <= q < keys.len() && 0 <= a < b < ds.n_cases() && (forall|p: int|
            0 <= p < q ==> #[trigger] key_entry(out, ds, keys, p, a) == key_entry(
                out,
                ds,
                keys,
                p,
                b,
            )) implies in_order(
        keys[q].order,
        #[trigger] key_entry(out, ds, keys, q, a),
        #[trigger] key_entry(out, ds, keys, q, b),
    ) by {
        let (i, j) = (order[a] as int, order[b] as int);
        assert(order[a] < ds.n_cases() && order[b] < ds.n_cases());
        assert forall|p: int| 0 <= p < keys.len() implies #[trigger] by[p].cells[i] == key_entry(
            out,
            ds,
            keys,
            p,
            a,
        ) && by[p].cells[j] == key_entry(out, ds, keys, p, b) by {
            assert(ds.index_of(keys[p].var_name) is Some);
            let v = ds.index_of(keys[p].var_name)->0 as int;
            assert(0 <= v < nv);
            assert(entries_of(out, v)[a] == entries_of(ds, v)[i]);
            assert(entries_of(out, v)[b] == entries_of(ds, v)[j]);
        }
        assert forall|p: int| 0 <= p < q implies (#[trigger] by[p]).cells[i] == by[p].cells[j] by {
            assert(by[p].cells[i] == key_entry(out, ds, keys, p, a));
        }
        assert(!sort::row_before(by, keys, 0, j, i));
        lemma_not_before(by, keys, 0, q, i, j);
        let c = by[q];
        assert(typed(c) && c.cells.len() == ds.n_cases());
        assert(c.cells[i] == key_entry(out, ds, keys, q, a));
        lemma_ordered(c, keys[q].order, i, j);
    }
}

/// The entry of a key in a row of the result.
pub open spec fn key_entry(
    out: DatasetView,
    ds: DatasetView,
    keys: Seq<SortKeyView>,
    q: int,
    a: int,
) -> CellView {
    entries_of(out, ds.index_of(keys[q].var_name)->0 as int)[a]
}

proof fn lemma_ordered(c: ColumnView, order: SortOrder, i: int, j: int)
    requires
        typed(c),
        0 <= i < c.cells.len(),
        0 <= j < c.cells.len(),
        !sort::before_by(c, order, j, i),
    ensures
        in_order(order, c.cells[i], c.cells[j]),
{
    let (x, y) = (c.cells[i], c.cells[j]);
    if let (CellView::Number(a), CellView::Number(b)) = (x, y) {
        number::law_order_is_total(a, b);
        number::law_order_is_total(b, a);
    }
}

/// SELECT IF takes every number but zero for true; zero, a missing value and a text
/// are not.
pub proof fn law_condition<F: Fn(NumOp) -> Number>(
    n: int,
    x: Number,
    t: Seq<char>,
    ds: DatasetView,
    b: int,
    r: int,
    calc: F,
)
    requires
        small(n),
    ensures
        select::holds(ds, ExprView::Value(ValueView::Numeric(nearest(n))), b, r, calc) <==> n != 0,
        x.finite() ==> (select::holds(ds, ExprView::Value(ValueView::Numeric(x)), b, r, calc)
            <==> number_law::value(x) != 0),
        !select::holds(ds, ExprView::Value(ValueView::SystemMissing), b, r, calc),
        !select::holds(ds, ExprView::Value(ValueView::String(t)), b, r, calc),
{
    number_law::law_integers_keep_their_order(n, 0);
    number::law_small_integers_exact(0);
    assert(number::nearest_bits(0) == 0);
    number_law::lemma_no_units(nearest(0));
    if x.finite() {
        number_law::law_order_by_value(x, nearest(0));
    }
}

/// The cases in which a condition holds, in order.
pub open spec fn chosen<F: Fn(NumOp) -> Number>(
    ds: DatasetView,
    e: ExprView,
    at: Seq<(usize, usize)>,
    calc: F,
) -> Seq<(usize, usize)> {
    at.filter(|p: (usize, usize)| select::holds(ds, e, p.0 as int, p.1 as int, calc))
}

/// The entries of the `i`th variable in some cases.
pub open spec fn entries_at(ds: DatasetView, at: Seq<(usize, usize)>, i: int) -> Seq<CellView> {
    Seq::new(at.len(), |k: int| ds.batches[at[k].0 as int].columns[i].cells[at[k].1 as int])
}

proof fn lemma_chosen_in_batch<F: Fn(NumOp) -> Number>(
    ds: DatasetView,
    e: ExprView,
    b: int,
    n: int,
    calc: F,
)
    requires
        0 <= b <= usize::MAX,
        0 <= n <= usize::MAX,
    ensures
        ({
            let all = Seq::new(n as nat, |r: int| (b as usize, r as usize));
            let kept = select::kept_rows(ds, e, b, n, calc);
            chosen(ds, e, all, calc) == Seq::new(
                kept.len(),
                |k: int| (b as usize, kept[k] as usize),
            )
        }),
    decreases n,
{
    reveal(Seq::filter);
    let all = Seq::new(n as nat, |r: int| (b as usize, r as usize));
    let kept = select::kept_rows(ds, e, b, n, calc);
    let want = Seq::new(kept.len(), |k: int| (b as usize, kept[k] as usize));
    if n > 0 {
        lemma_chosen_in_batch(ds, e, b, n - 1, calc);
        let fewer = Seq::new((n - 1) as nat, |r: int| (b as usize, r as usize));
        assert(all.drop_last() =~= fewer);
        let before = select::kept_rows(ds, e, b, n - 1, calc);
        assert(chosen(ds, e, all, calc) =~= want);
    } else {
        assert(all =~= Seq::empty());
        assert(chosen(ds, e, all, calc) =~= want);
    }
}

proof fn lemma_chosen<F: Fn(NumOp) -> Number>(
    ds: DatasetView,
    e: ExprView,
    i: int,
    n: int,
    calc: F,
)
    requires
        ds.wf(),
        ds.batches.len() <= usize::MAX,
        0 <= i,
        rows::covered(ds, i),
        0 <= n <= ds.batches.len(),
    ensures
        entries(select::kept_batches(ds, e, n, calc), i) == entries_at(
            ds,
            chosen(ds, e, rows::positions_in(ds.batches, n), calc),
            i,
        ),
        dataset::rows_in(select::kept_batches(ds, e, n, calc)) == chosen(
            ds,
            e,
            rows::positions_in(ds.batches, n),
            calc,
        ).len(),
    decreases n,
{
    let out = select::kept_batches(ds, e, n, calc);
    let at = rows::positions_in(ds.batches, n);
    let p = |p: (usize, usize)| select::holds(ds, e, p.0 as int, p.1 as int, calc);
    reveal(Seq::filter);
    if n > 0 {
        lemma_chosen(ds, e, i, n - 1, calc);
        let b = n - 1;
        let rows = ds.batches[b].num_rows as int;
        let before = rows::positions_in(ds.batches, n - 1);
        let own = Seq::new(rows as nat, |r: int| (b as usize, r as usize));
        assert(at =~= before + own);
        Seq::filter_distributes_over_add(before, own, p);
        lemma_chosen_in_batch(ds, e, b, rows, calc);
        select::law_kept_rows(ds, e, b, rows, calc);
        let kept = select::kept_rows(ds, e, b, rows, calc);
        let first = select::kept_batches(ds, e, n - 1, calc);
        let chosen_before = chosen(ds, e, before, calc);
        let chosen_own = chosen(ds, e, own, calc);
        assert(chosen(ds, e, at, calc) == chosen_before + chosen_own);
        assert(ds.batches[b].wf());
        assert(i < ds.batches[b].columns.len());
        if kept.len() > 0 {
            let last = select::picked_batch(ds.batches[b], kept);
            assert(out.drop_last() =~= first);
            merge_law::lemma_entries_last(out, i);
            assert forall|k: int| 0 <= k < kept.len() implies 0 <= #[trigger] kept[k] < rows by {
                assert(kept.contains(kept[k]));
            }
            assert(last.columns[i].cells =~= entries_at(ds, chosen_own, i));
        } else {
            assert(chosen_own =~= Seq::empty());
        }
        assert(entries(out, i) =~= entries_at(ds, chosen(ds, e, at, calc), i));
    } else {
        assert(at =~= Seq::empty());
        assert(entries(out, i) =~= entries_at(ds, chosen(ds, e, at, calc), i));
    }
}

/// SELECT IF keeps the cases in which the condition holds, all of them and no other,
/// in their order and with all their entries.
pub proof fn law_selected_rows<F: Fn(NumOp) -> Number>(
    ds: DatasetView,
    e: ExprView,
    i: int,
    calc: F,
)
    requires
        ds.wf(),
        0 < ds.batches.len() <= usize::MAX,
        0 <= i,
        rows::covered(ds, i),
    ensures
        ({
            let out = select::selected(ds, e, calc);
            let at = chosen(ds, e, rows::positions(ds), calc);
            &&& out.variables == ds.variables
            &&& out.n_cases() == at.len()
            &&& entries_of(out, i) == entries_at(ds, at, i)
        }),
{
    lemma_chosen(ds, e, i, ds.batches.len() as int, calc);
}

} // verus!
