//! What stands in the rows that VARSTOCASES makes.
use vstd::prelude::*;

use crate::batch::{CellView, ColumnView};
use crate::dataset::DatasetView;
use crate::number::nearest;
use crate::text;
use crate::transform::law;
use crate::transform::long;
use crate::transform::long::TransposeView;
use crate::transform::merge_law;
use crate::transform::merge_law::entries_of;
use crate::transform::rows;
use crate::value::ValueView;
use crate::variable::{VariableType, VariableView};

verus! {

proof fn lemma_widest(vals: Seq<ValueView>)
    ensures
        forall|i: int|
            0 <= i < vals.len() ==> ((#[trigger] vals[i]) matches ValueView::String(s)
                ==> text::byte_len(s) <= rows::widest(vals)),
        rows::widest(vals) > 0 ==> exists|i: int|
            0 <= i < vals.len() && ((#[trigger] vals[i]) matches ValueView::String(s)
                && text::byte_len(s) == rows::widest(vals)),
    decreases vals.len(),
{
    if vals.len() > 0 {
        let head = vals.drop_last();
        lemma_widest(head);
        assert forall|i: int| 0 <= i < vals.len() implies ((#[trigger] vals[i]) matches
            ValueView::String(s) ==> text::byte_len(s) <= rows::widest(vals)) by {
            if i < head.len() {
                assert(head[i] == vals[i]);
            }
        }
        if rows::widest(vals) > 0 {
            if rows::widest(vals) == rows::widest(head) {
                let i = choose|i: int|
                    0 <= i < head.len() && ((#[trigger] head[i]) matches ValueView::String(s)
                        && text::byte_len(s) == rows::widest(head));
                assert(vals[i] == head[i]);
            } else {
                assert(vals[vals.len() - 1] is String);
            }
        }
    }
}

/// Values make a variable of texts where one of them is a text: it is as wide as the
/// longest, or 8 wide where all are empty. Otherwise they make one of numbers.
pub proof fn law_type_of_values(vals: Seq<ValueView>)
    requires
        forall|i: int|
            0 <= i < vals.len() ==> ((#[trigger] vals[i]) matches ValueView::String(s)
                ==> text::byte_len(s) <= u32::MAX),
    ensures
        match rows::type_of_values(vals) {
            VariableType::Numeric => forall|i: int|
                0 <= i < vals.len() ==> !((#[trigger] vals[i]) is String),
            VariableType::String(w) => {
                &&& exists|i: int| 0 <= i < vals.len() && (#[trigger] vals[i]) is String
                &&& forall|i: int|
                    0 <= i < vals.len() ==> ((#[trigger] vals[i]) matches ValueView::String(s)
                        ==> text::byte_len(s) <= w)
                &&& w != 8 ==> exists|i: int|
                    0 <= i < vals.len() && ((#[trigger] vals[i]) matches ValueView::String(s)
                        && text::byte_len(s) == w)
            },
        },
{
    lemma_widest(vals);
}

/// The entry of a value.
pub open spec fn entry_of(v: ValueView) -> CellView {
    match v {
        ValueView::Numeric(n) => CellView::Number(n),
        ValueView::String(t) => CellView::Text(t),
        ValueView::SystemMissing => CellView::Null,
    }
}

/// VARSTOCASES makes of each case one row for each source, in order. In the `j`th row
/// of a case the kept variables hold what they held in the case, a new variable the
/// value of its `j`th source (a number among texts is null), and the counter `j`,
/// counted from 1.
pub proof fn law_long_entries(
    ds: DatasetView,
    specs: Seq<TransposeView>,
    index_var: Option<Seq<char>>,
    keep: Seq<Seq<char>>,
    out: DatasetView,
    c: int,
    j: int,
)
    requires
        ds.wf(),
        0 < ds.batches.len() <= usize::MAX,
        specs.len() > 0,
        long::lengthened(ds, specs, index_var, keep) == Some(Ok::<DatasetView, Seq<char>>(out)),
        0 <= c < ds.n_cases(),
        0 <= j < specs[0].source_vars.len(),
    ensures
        ({
            let p = rows::positions(ds)[c];
            let row = c * specs[0].source_vars.len() + j;
            let kept = keep.len() as int;
            &&& out.variables.len() == kept + specs.len() + (if index_var is Some {
                1int
            } else {
                0
            })
            &&& forall|k: int|
                0 <= k < kept ==> (ds.index_of(#[trigger] keep[k]) matches Some(i)
                    && out.variables[k] == ds.variables[i as int] && entries_of(out, k)[row]
                    == ds.batches[p.0 as int].columns[i as int].cells[p.1 as int])
            &&& forall|q: int|
                0 <= q < specs.len() ==> {
                    let var = out.variables[kept + q];
                    &&& (#[trigger] specs[q]).source_vars.len() > j
                    &&& var.name == specs[q].target_var
                    &&& ds.index_of(specs[q].source_vars[j]) matches Some(i) && {
                        let v = rows::value_at(ds, p, i as int);
                        entries_of(out, kept + q)[row] == if v is Numeric && var.var_type is String {
                            CellView::Null
                        } else {
                            entry_of(v)
                        }
                    }
                }
            &&& index_var matches Some(name) ==> {
                &&& out.variables[kept + specs.len()].name == name
                &&& entries_of(out, kept + specs.len())[row] == CellView::Number(nearest(j + 1))
            }
        }),
{
    let n = specs[0].source_vars.len();
    let at = rows::positions(ds);
    let parts = long::long_parts(ds, specs, index_var, keep);
    let all = rows::gathered(parts)->0->Ok_0;
    law::lemma_gathered(parts, all);
    merge_law::lemma_table_entries(long::part_variables(all), long::part_columns(all), out);
    rows::lemma_positions(ds, ds.batches.len() as int);
    assert(ds.batches.take(ds.batches.len() as int) =~= ds.batches);
    let kept = keep.len() as int;
    let row = c * n + j;
    let some = Seq::new(n, |j: int| 0usize);
    long::law_long_row(ds, at, some, c, j);
    assert forall|k: int| 0 <= k < kept implies (ds.index_of(#[trigger] keep[k]) matches Some(i)
        && out.variables[k] == ds.variables[i as int] && entries_of(out, k)[row]
        == ds.batches[at[c].0 as int].columns[i as int].cells[at[c].1 as int]) by {
        assert(parts[k] == long::kept_part(ds, keep[k], n));
        assert(parts[k] == Some(Ok::<(VariableView, ColumnView), Seq<char>>(all[k])));
        assert(long::part_columns(all)[k] == all[k].1);
        assert(long::part_variables(all)[k] == all[k].0);
    }
    assert forall|q: int| 0 <= q < specs.len() implies {
        let var = out.variables[kept + q];
        &&& (#[trigger] specs[q]).source_vars.len() > j
        &&& var.name == specs[q].target_var
        &&& ds.index_of(specs[q].source_vars[j]) matches Some(i) && {
            let v = rows::value_at(ds, at[c], i as int);
            entries_of(out, kept + q)[row] == if v is Numeric && var.var_type is String {
                CellView::Null
            } else {
                entry_of(v)
            }
        }
    } by {
        let k = kept + q;
        assert(parts[k] == long::new_part(ds, specs[q], n));
        assert(parts[k] == Some(Ok::<(VariableView, ColumnView), Seq<char>>(all[k])));
        assert(long::part_columns(all)[k] == all[k].1);
        assert(long::part_variables(all)[k] == all[k].0);
        let names = specs[q].source_vars;
        lemma_sources(ds, names, n as int, 0);
        let idxs = rows::indices_of(ds, names.take(n as int));
        assert(names.take(n as int)[j] == names[j]);
        long::law_long_row(ds, at, idxs, c, j);
        let vals = long::row_values(ds, at, idxs);
        assert(idxs[j] == ds.index_of(names[j])->0);
        assert(vals[row] == rows::value_at(ds, at[c], idxs[j] as int));
    }
    if let Some(name) = index_var {
        let k = kept + specs.len();
        assert(parts[k] == Some(
            Ok::<(VariableView, ColumnView), Seq<char>>(long::counter_part(ds, name, n)),
        ));
        assert(parts[k] == Some(Ok::<(VariableView, ColumnView), Seq<char>>(all[k])));
        assert(long::part_columns(all)[k] == all[k].1);
        assert(long::part_variables(all)[k] == all[k].0);
    }
}

/// The sources are variables of the dataset.
proof fn lemma_sources(ds: DatasetView, names: Seq<Seq<char>>, n: int, from: int)
    requires
        0 <= from <= n,
        long::sources_from(ds, names, n, from) matches Some(Ok(_)),
    ensures
        from < n ==> names.len() >= n,
        forall|j: int| from <= j < n ==> ds.index_of(#[trigger] names[j]) is Some,
    decreases n - from,
{
    if from < n {
        lemma_sources(ds, names, n, from + 1);
    }
}

} // verus!
