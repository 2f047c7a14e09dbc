//! Variables are found by name, and a column that is put in stands in its place.
use vstd::prelude::*;

use crate::batch;
use crate::batch::{BatchView, CellView, ColumnView};
use crate::dataset;
use crate::number::Number;
use crate::text;
use crate::value::ValueView;
use crate::variable::VariableView;

verus! {

/// A variable of a dataset is found under its name in any case, and of two of one
/// name the later; a name that none has is not found.
pub proof fn law_found_by_name(vars: Seq<VariableView>, batches: Seq<BatchView>, name: Seq<char>)
    requires
        vars.len() <= usize::MAX,
    ensures
        match dataset::dataset_of(vars, batches).index_of(name) {
            Some(i) => i < vars.len() && text::uppercase(vars[i as int].name) == text::uppercase(
                name,
            ) && forall|j: int|
                i < j < vars.len() ==> text::uppercase((#[trigger] vars[j]).name)
                    != text::uppercase(name),
            None => forall|j: int|
                0 <= j < vars.len() ==> text::uppercase((#[trigger] vars[j]).name)
                    != text::uppercase(name),
        },
    decreases vars.len(),
{
    if vars.len() > 0 {
        let fewer = vars.drop_last();
        law_found_by_name(fewer, batches, name);
        if text::uppercase(vars.last().name) != text::uppercase(name) {
            match dataset::dataset_of(vars, batches).index_of(name) {
                Some(i) => {
                    assert(fewer[i as int] == vars[i as int]);
                    assert forall|j: int| i < j < vars.len() implies text::uppercase(
                        (#[trigger] vars[j]).name,
                    ) != text::uppercase(name) by {
                        if j < fewer.len() {
                            assert(fewer[j] == vars[j]);
                        }
                    }
                },
                None => {
                    assert forall|j: int| 0 <= j < vars.len() implies text::uppercase(
                        (#[trigger] vars[j]).name,
                    ) != text::uppercase(name) by {
                        if j < fewer.len() {
                            assert(fewer[j] == vars[j]);
                        }
                    }
                },
            }
        }
    }
}

/// A column that is put into each batch stands at the place of the variable it
/// replaces, or behind the last column, and the other columns stay as they were.
pub proof fn law_column_put_in(
    batches: Seq<BatchView>,
    at: Option<usize>,
    name: Seq<char>,
    columns: Seq<ColumnView>,
    out: Seq<BatchView>,
    b: int,
)
    requires
        dataset::batches_with_column(batches, at, name, columns) == Some(
            Ok::<Seq<BatchView>, Seq<char>>(out),
        ),
        0 <= b < batches.len(),
    ensures
        out.len() == batches.len(),
        ({
            let old = batches[b];
            let k = match at {
                Some(i) => i as int,
                None => old.columns.len() as int,
            };
            &&& b < columns.len()
            &&& out[b].columns.len() == old.columns.len() + if at is Some {
                0int
            } else {
                1
            }
            &&& 0 <= k < out[b].columns.len()
            &&& out[b].columns[k] == columns[b]
            &&& out[b].fields[k].name == name
            &&& out[b].fields[k].kind == columns[b].kind
            &&& forall|j: int|
                0 <= j < old.columns.len() && j != k ==> #[trigger] out[b].columns[j]
                    == old.columns[j]
            &&& forall|j: int|
                0 <= j < old.columns.len() && j < old.fields.len() && j != k
                    ==> #[trigger] out[b].fields[j] == old.fields[j]
        }),
    decreases batches.len(),
{
    let done = dataset::batches_with_column(batches.drop_last(), at, name, columns)->0->Ok_0;
    if b < batches.len() - 1 {
        law_column_put_in(batches.drop_last(), at, name, columns, done, b);
        assert(out[b] == done[b]);
    } else {
        lemma_same_count(batches.drop_last(), at, name, columns, done);
    }
}

proof fn lemma_same_count(
    batches: Seq<BatchView>,
    at: Option<usize>,
    name: Seq<char>,
    columns: Seq<ColumnView>,
    out: Seq<BatchView>,
)
    requires
        dataset::batches_with_column(batches, at, name, columns) == Some(
            Ok::<Seq<BatchView>, Seq<char>>(out),
        ),
    ensures
        out.len() == batches.len(),
    decreases batches.len(),
{
    if batches.len() > 0 {
        let done = dataset::batches_with_column(batches.drop_last(), at, name, columns)->0->Ok_0;
        lemma_same_count(batches.drop_last(), at, name, columns, done);
    }
}

/// An entry is the value that it holds: a number of a numeric variable unless it is
/// user-missing, a text of a variable of texts; a null, or an entry of another kind, is
/// missing.
pub proof fn law_entry_value(var: VariableView, n: Number, t: Seq<char>)
    ensures
        ({
            let of = |c: CellView| dataset::value_of_cell(var, c);
            let none = ValueView::SystemMissing;
            &&& of(CellView::Null) == none
            &&& of(CellView::Number(n)) == if var.var_type is Numeric && !var.missing.holds(n) {
                ValueView::Numeric(n)
            } else {
                none
            }
            &&& of(CellView::Text(t)) == if var.var_type is String {
                ValueView::String(t)
            } else {
                none
            }
        }),
{
}

/// Columns go into a batch where there is one for each field, of the field's kind, and
/// all are of one length.
pub proof fn law_batch_holds_columns(fields: Seq<batch::FieldView>, columns: Seq<ColumnView>)
    requires
        columns.len() > 0 ==> columns[0].cells.len() <= usize::MAX,
    ensures
        batch::batch_of(fields, columns) is Ok <==> {
            &&& columns.len() > 0
            &&& fields.len() == columns.len()
            &&& forall|i: int|
                0 <= i < columns.len() ==> (#[trigger] columns[i]).cells.len()
                    == columns[0].cells.len()
            &&& forall|i: int|
                0 <= i < columns.len() ==> (#[trigger] columns[i]).kind == fields[i].kind
        },
        batch::batch_of(fields, columns) matches Ok(b) ==> b.wf() && b.columns == columns
            && b.fields == fields && b.num_rows == columns[0].cells.len(),
{
    batch::lemma_kind_mismatch(fields, columns, 0);
    assert(batch::batch_of(fields, columns) matches Ok(b) ==> b.columns == columns);
}

} // verus!
