//! Variable definitions inferred from fields and their columns.
use vstd::prelude::*;

use crate::batch;
use crate::batch::{Batch, BatchView, Cell, CellView, ColumnKind, ColumnView, Field, FieldView};
use crate::dataset;
use crate::dataset::Dataset;
use crate::text;
use crate::text::{len_of, same_text};
use crate::transform::rows;
use crate::transform::rows::make_type;
use crate::variable;
use crate::variable::{Variable, VariableType, VariableView};

verus! {

broadcast use crate::text::lemma_views_push;

/// The first field of a name, from `i` on.
pub open spec fn first_field(fields: Seq<FieldView>, name: Seq<char>, i: int) -> Option<int>
    decreases fields.len() - i,
{
    if i < 0 || i >= fields.len() {
        None
    } else if fields[i].name == name {
        Some(i)
    } else {
        first_field(fields, name, i + 1)
    }
}

/// The bytes of the longest text.
pub open spec fn text_width(cells: Seq<CellView>) -> nat
    decreases cells.len(),
{
    if cells.len() == 0 {
        0
    } else {
        let before = text_width(cells.drop_last());
        match cells.last() {
            CellView::Text(s) if text::byte_len(s) > before => text::byte_len(s),
            _ => before,
        }
    }
}

/// The texts of a column are measured: those of `Utf8`, and of `LargeUtf8` where
/// `large` says so.
pub open spec fn measured(c: ColumnView, large: bool) -> bool {
    c.kind is Utf8 || large && c.kind is LargeUtf8
}

/// The bytes of the longest text of a column in the first `n` batches.
pub open spec fn column_width(batches: Seq<BatchView>, idx: int, large: bool, n: int) -> nat
    decreases n,
{
    if n <= 0 {
        0
    } else {
        let before = column_width(batches, idx, large, n - 1);
        let c = batches[n - 1].columns[idx];
        if measured(c, large) && text_width(c.cells) > before {
            text_width(c.cells)
        } else {
            before
        }
    }
}

/// The bytes of the longest text of the first column of a name.
pub open spec fn named_width(
    fields: Seq<FieldView>,
    batches: Seq<BatchView>,
    name: Seq<char>,
    large: bool,
) -> nat {
    match first_field(fields, name, 0) {
        Some(i) => column_width(batches, i, large, batches.len() as int),
        None => 0,
    }
}

/// The type of the variable of a field: texts as wide as the longest one, else
/// numbers.
pub open spec fn field_type(
    field: FieldView,
    fields: Seq<FieldView>,
    batches: Seq<BatchView>,
    large: bool,
) -> VariableType {
    if field.kind.textual() {
        rows::type_of_width(named_width(fields, batches, field.name, large))
    } else {
        VariableType::Numeric
    }
}

/// The variables of fields.
pub open spec fn schema_variables(
    fields: Seq<FieldView>,
    batches: Seq<BatchView>,
    large: bool,
) -> Seq<VariableView> {
    Seq::new(
        fields.len(),
        |i: int|
            variable::variable_of(fields[i].name, field_type(fields[i], fields, batches, large)),
    )
}

/// Each batch has a column for each of the fields.
pub open spec fn covers(fields: Seq<FieldView>, batches: Seq<BatchView>) -> bool {
    forall|b: int|
        0 <= b < batches.len() ==> fields.len() <= (#[trigger] batches[b]).columns.len()
}

/// The first field of a name has it, and none before does.
pub proof fn lemma_first_field(fields: Seq<FieldView>, name: Seq<char>, i: int)
    requires
        0 <= i,
    ensures
        match first_field(fields, name, i) {
            Some(k) => i <= k < fields.len() && fields[k].name == name && forall|j: int|
                i <= j < k ==> (#[trigger] fields[j]).name != name,
            None => forall|j: int| i <= j < fields.len() ==> (#[trigger] fields[j]).name != name,
        },
    decreases fields.len() - i,
{
    if i < fields.len() && fields[i].name != name {
        lemma_first_field(fields, name, i + 1);
    }
}

/// Finds the first field of a name.
pub fn find_field(fields: &Vec<Field>, name: &str) -> (r: Option<usize>)
    ensures
        match r {
            Some(i) => first_field(text::views(fields@), name@, 0) == Some(i as int) && i
                < fields@.len(),
            None => first_field(text::views(fields@), name@, 0) is None,
        },
{
    let ghost fv = text::views(fields@);
    let mut i: usize = 0;
    while i < fields.len()
        invariant
            i <= fields@.len(),
            fv == text::views(fields@),
            first_field(fv, name@, 0) == first_field(fv, name@, i as int),
        decreases fields@.len() - i,
    {
        proof {
            assert(fv[i as int] == fields@[i as int]@);
        }
        if same_text(fields[i].name.as_str(), name) {
            return Some(i);
        }
        i = i + 1;
    }
    None
}

/// Finds the bytes of the longest text.
fn find_text_width(cells: &Vec<Cell>) -> (r: usize)
    ensures
        r == text_width(text::views(cells@)),
{
    let ghost cv = text::views(cells@);
    let mut width: usize = 0;
    let mut i: usize = 0;
    proof {
        assert(cv.take(0) =~= Seq::empty());
    }
    while i < cells.len()
        invariant
            i <= cells@.len(),
            cv == text::views(cells@),
            width == text_width(cv.take(i as int)),
        decreases cells@.len() - i,
    {
        proof {
            assert(cv.take(i + 1).drop_last() =~= cv.take(i as int));
            assert(cv.take(i + 1).last() == cv[i as int]);
        }
        if let Cell::Text(s) = &cells[i] {
            let n = len_of(s.as_str());
            if n > width {
                width = n;
            }
        }
        i = i + 1;
    }
    proof {
        assert(cv.take(cv.len() as int) =~= cv);
    }
    width
}

/// Finds the bytes of the longest text of a column.
fn find_column_width(batches: &Vec<Batch>, idx: usize, large: bool) -> (r: usize)
    requires
        forall|b: int|
            0 <= b < batches@.len() ==> idx < (#[trigger] text::views(batches@)[b]).columns.len(),
    ensures
        r == column_width(text::views(batches@), idx as int, large, batches@.len() as int),
{
    let ghost bv = text::views(batches@);
    let mut width: usize = 0;
    let mut b: usize = 0;
    while b < batches.len()
        invariant
            b <= batches@.len(),
            bv == text::views(batches@),
            forall|b: int| 0 <= b < batches@.len() ==> idx < (#[trigger] bv[b]).columns.len(),
            width == column_width(bv, idx as int, large, b as int),
        decreases batches@.len() - b,
    {
        proof {
            assert(idx < bv[b as int].columns.len());
        }
        let column = &batches[b].columns[idx];
        let measure = match column.kind {
            ColumnKind::Utf8 => true,
            ColumnKind::LargeUtf8 => large,
            _ => false,
        };
        if measure {
            let n = find_text_width(&column.cells);
            if n > width {
                width = n;
            }
        }
        b = b + 1;
    }
    width
}

/// Infers the type of the variable of a field.
pub fn infer_type(field: &Field, fields: &Vec<Field>, batches: &Vec<Batch>, large: bool) -> (r:
    VariableType)
    requires
        covers(text::views(fields@), text::views(batches@)),
    ensures
        r == field_type(field@, text::views(fields@), text::views(batches@), large),
{
    if !field.kind.is_textual() {
        return VariableType::Numeric;
    }
    let width = match find_field(fields, field.name.as_str()) {
        Some(i) => {
            proof {
                let bv = text::views(batches@);
                assert forall|b: int| 0 <= b < batches@.len() implies i < (
                #[trigger] bv[b]).columns.len() by {
                    assert(text::views(fields@).len() <= bv[b].columns.len());
                }
            }
            find_column_width(batches, i, large)
        },
        None => 0,
    };
    make_type(width)
}

/// Infers the variables of fields.
pub fn infer_variables(fields: &Vec<Field>, batches: &Vec<Batch>, large: bool) -> (r: Vec<Variable>)
    requires
        covers(text::views(fields@), text::views(batches@)),
    ensures
        text::views(r@) == schema_variables(text::views(fields@), text::views(batches@), large),
{
    let ghost fv = text::views(fields@);
    let ghost bv = text::views(batches@);
    let ghost all = schema_variables(fv, bv, large);
    let mut out: Vec<Variable> = Vec::new();
    let mut i: usize = 0;
    while i < fields.len()
        invariant
            i <= fields@.len(),
            fv == text::views(fields@),
            bv == text::views(batches@),
            covers(fv, bv),
            all == schema_variables(fv, bv, large),
            text::views(out@) =~= all.take(i as int),
        decreases fields@.len() - i,
    {
        let t = infer_type(&fields[i], fields, batches, large);
        out.push(Variable::of_type(fields[i].name.as_str(), t));
        i = i + 1;
    }
    proof {
        assert(all.take(all.len() as int) =~= all);
    }
    out
}

/// The dataset of the batches that were read from a CSV file under a schema: the
/// variables are inferred from the fields.
pub fn csv_dataset(fields: &Vec<Field>, batches: Vec<Batch>) -> (r: Dataset)
    requires
        covers(text::views(fields@), text::views(batches@)),
    ensures
        r@ == dataset::dataset_of(
            schema_variables(text::views(fields@), text::views(batches@), true),
            text::views(batches@),
        ),
        batch::all_wf(text::views(batches@)) ==> r@.wf(),
{
    let variables = infer_variables(fields, &batches, true);
    Dataset::from_parts(variables, batches)
}

} // verus!
