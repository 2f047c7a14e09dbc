//! What variables and entries come out of the tables of other formats.
use vstd::prelude::*;

use crate::arith;
use crate::arith::Style;
use crate::batch::{BatchView, CellView, FieldView, KindView};
use crate::import::excel;
use crate::import::excel::{SheetCellView, SheetView};
use crate::import::parquet;
use crate::import::schema;
use crate::number::{nearest, Number};
use crate::text;
use crate::transform::merge_law::{entries, entries_of};
use crate::variable::VariableType;

verus! {

proof fn lemma_text_width(cells: Seq<CellView>)
    ensures
        forall|r: int|
            0 <= r < cells.len() ==> ((#[trigger] cells[r]) matches CellView::Text(s)
                ==> text::byte_len(s) <= schema::text_width(cells)),
        schema::text_width(cells) > 0 ==> exists|r: int|
            0 <= r < cells.len() && ((#[trigger] cells[r]) matches CellView::Text(s)
                && text::byte_len(s) == schema::text_width(cells)),
    decreases cells.len(),
{
    if cells.len() > 0 {
        let head = cells.drop_last();
        lemma_text_width(head);
        assert forall|r: int| 0 <= r < cells.len() implies ((#[trigger] cells[r]) matches
            CellView::Text(s) ==> text::byte_len(s) <= schema::text_width(cells)) by {
            if r < head.len() {
                assert(head[r] == cells[r]);
            }
        }
        if schema::text_width(cells) > 0 {
            if schema::text_width(cells) == schema::text_width(head) {
                let r = choose|r: int|
                    0 <= r < head.len() && ((#[trigger] head[r]) matches CellView::Text(s)
                        && text::byte_len(s) == schema::text_width(head));
                assert(cells[r] == head[r]);
            } else {
                assert(cells[cells.len() - 1] is Text);
            }
        }
    }
}

/// A text of so many bytes stands at a place of a column of texts: one of `Utf8`, or
/// of `LargeUtf8` where these count too.
pub open spec fn long_text(
    batches: Seq<BatchView>,
    i: int,
    b: int,
    r: int,
    n: nat,
    large: bool,
) -> bool {
    &&& 0 <= b < batches.len()
    &&& batches[b].columns[i].kind is Utf8 || (large && batches[b].columns[i].kind is LargeUtf8)
    &&& 0 <= r < batches[b].columns[i].cells.len()
    &&& batches[b].columns[i].cells[r] matches CellView::Text(s) && text::byte_len(s) == n
}

proof fn lemma_column_width(batches: Seq<BatchView>, i: int, n: int, large: bool)
    requires
        0 <= n <= batches.len(),
    ensures
        forall|b: int, r: int, k: nat| #[trigger]
            long_text(batches, i, b, r, k, large) && b < n ==> k <= schema::column_width(
                batches,
                i,
                large,
                n,
            ),
        schema::column_width(batches, i, large, n) > 0 ==> exists|b: int, r: int| #[trigger]
            long_text(batches, i, b, r, schema::column_width(batches, i, large, n), large),
    decreases n,
{
    if n > 0 {
        lemma_column_width(batches, i, n - 1, large);
        let before = schema::column_width(batches, i, large, n - 1);
        let all = schema::column_width(batches, i, large, n);
        let c = batches[n - 1].columns[i];
        lemma_text_width(c.cells);
        assert forall|b: int, r: int, k: nat| #[trigger]
            long_text(batches, i, b, r, k, large) && b < n implies k <= all by {
            if b == n - 1 {
                assert(c.cells[r] is Text);
            }
        }
        if all > 0 {
            if all == before {
                let (b, r) = choose|b: int, r: int| #[trigger] long_text(batches, i, b, r, before, large);
                assert(long_text(batches, i, b, r, all, large));
            } else {
                let r = choose|r: int|
                    0 <= r < c.cells.len() && ((#[trigger] c.cells[r]) matches CellView::Text(s)
                        && text::byte_len(s) == all);
                assert(long_text(batches, i, n - 1, r, all, large));
            }
        }
    }
}

/// The variable of a field has its name. A field of texts makes a variable of texts
/// into which each of them fits, and which is no wider than the longest, or 8 wide
/// where all are empty; any other field makes a variable of numbers.
pub proof fn law_inferred_variables(
    fields: Seq<FieldView>,
    batches: Seq<BatchView>,
    i: int,
    large: bool,
)
    requires
        0 <= i < fields.len(),
        forall|j: int| 0 <= j < i ==> (#[trigger] fields[j]).name != fields[i].name,
        forall|b: int, r: int, k: nat| #[trigger]
            long_text(batches, i, b, r, k, large) ==> k <= u32::MAX,
    ensures
        ({
            let v = schema::schema_variables(fields, batches, large)[i];
            &&& v.name == fields[i].name
            &&& match v.var_type {
                VariableType::Numeric => !fields[i].kind.textual(),
                VariableType::String(w) => {
                    &&& fields[i].kind.textual()
                    &&& forall|b: int, r: int, k: nat| #[trigger]
                        long_text(batches, i, b, r, k, large) ==> k <= w
                    &&& (exists|b: int, r: int| #[trigger]
                        long_text(batches, i, b, r, w as nat, large)) || (w == 8 && forall|
                        b: int,
                        r: int,
                        k: nat,
                    | #[trigger]
                        long_text(batches, i, b, r, k, large) ==> k == 0)
                },
            }
        }),
{
    schema::lemma_first_field(fields, fields[i].name, 0);
    let n = batches.len() as int;
    lemma_column_width(batches, i, n, large);
    assert(schema::first_field(fields, fields[i].name, 0) == Some(i));
}

/// The variable of a Parquet column without metadata is the one that is inferred from
/// its `Utf8` columns; without data a variable of texts is 8 wide.
pub proof fn law_default_variable(field: FieldView, batches: Seq<BatchView>, i: int)
    ensures
        batches.len() > 0 && 0 <= i < batches[0].fields.len() ==> parquet::default_variable(
            batches[0].fields[i],
            batches,
        ) == schema::schema_variables(batches[0].fields, batches, false)[i],
        parquet::default_variable(field, batches).name == field.name,
        parquet::default_variable(field, batches).var_type is Numeric <==> !field.kind.textual(),
        field.kind.textual() && batches.len() == 0 ==> parquet::default_variable(
            field,
            batches,
        ).var_type == VariableType::String(8),
{
}

/// The data cells of a worksheet column are none that is a text or a date.
pub open spec fn no_texts(s: SheetView, c: int) -> bool {
    forall|r: int|
        1 <= r < s.rows.len() ==> !((#[trigger] s.rows[r][c]) is Text) && !(
        s.rows[r][c] is DateTime) && !(s.rows[r][c] is DateTimeIso)
}

/// The data cells of a worksheet column are none that is a number.
pub open spec fn no_numbers(s: SheetView, c: int) -> bool {
    forall|r: int|
        1 <= r < s.rows.len() ==> !((#[trigger] s.rows[r][c]) is Int) && !(s.rows[r][c] is Float)
}

proof fn lemma_sheet_entries<S: Fn(Number, Style) -> String>(s: SheetView, c: int, f: S)
    requires
        s.rows.len() >= 2,
        0 <= c < s.width,
    ensures
        ({
            let out = excel::sheet_dataset(s, f)->Ok_0;
            &&& excel::sheet_dataset(s, f) is Ok
            &&& out.variables.len() == s.width
            &&& entries_of(out, c) == excel::sheet_column(s, c, f).cells
            &&& out.batches[0].columns[c].kind == excel::sheet_kind(s, c)
        }),
{
    let out = excel::sheet_dataset(s, f)->Ok_0;
    assert(out.batches.skip(1) =~= Seq::empty());
    assert(entries(out.batches.skip(1), c) =~= Seq::empty());
    assert(entries_of(out, c) =~= excel::sheet_column(s, c, f).cells);
}

/// A worksheet column with a number and no text or date holds its numbers, and nulls
/// for all else; it makes a variable of numbers.
pub proof fn law_sheet_numbers<S: Fn(Number, Style) -> String>(s: SheetView, c: int, r: int, f: S)
    requires
        s.rows.len() >= 2,
        0 <= c < s.width,
        1 <= r < s.rows.len(),
        no_texts(s, c),
        !no_numbers(s, c),
    ensures
        ({
            let out = excel::sheet_dataset(s, f)->Ok_0;
            &&& entries_of(out, c).len() == s.rows.len() - 1
            &&& entries_of(out, c)[r - 1] == match s.rows[r][c] {
                SheetCellView::Int(n) => CellView::Number(nearest(n as int)),
                SheetCellView::Float(n) => CellView::Number(n),
                _ => CellView::Null,
            }
            &&& out.variables[c].var_type == VariableType::Numeric
        }),
{
    lemma_sheet_entries(s, c, f);
    let m = choose|m: int|
        1 <= m < s.rows.len() && ((#[trigger] s.rows[m][c]) is Int || s.rows[m][c] is Float);
    assert(excel::numeric(s.rows[m][c]));
    assert(!excel::some_textual(s, c));
    assert(excel::some_numeric(s, c));
}

/// A worksheet column with a text or a date holds texts: those that are there,
/// numbers in digits, and nulls for empty cells and errors.
pub proof fn law_sheet_texts<S: Fn(Number, Style) -> String>(s: SheetView, c: int, r: int, f: S)
    requires
        s.rows.len() >= 2,
        0 <= c < s.width,
        1 <= r < s.rows.len(),
        !no_texts(s, c),
    ensures
        ({
            let out = excel::sheet_dataset(s, f)->Ok_0;
            &&& entries_of(out, c).len() == s.rows.len() - 1
            &&& entries_of(out, c)[r - 1] == match s.rows[r][c] {
                SheetCellView::Text(t) => CellView::Text(t),
                SheetCellView::DateTimeIso(t) => CellView::Text(t),
                SheetCellView::DurationIso(t) => CellView::Text(t),
                SheetCellView::Int(n) => CellView::Text(text::decimal_int(n as int)),
                SheetCellView::Float(n) => CellView::Text(arith::shown(f, n, Style::Plain)),
                SheetCellView::DateTime(n) => CellView::Text(arith::shown(f, n, Style::Plain)),
                SheetCellView::Bool(true) => CellView::Text("true"@),
                SheetCellView::Bool(false) => CellView::Text("false"@),
                SheetCellView::Empty | SheetCellView::Error(_) => CellView::Null,
            }
            &&& out.variables[c].var_type is String
        }),
{
    lemma_sheet_entries(s, c, f);
    let m = choose|m: int|
        1 <= m < s.rows.len() && ((#[trigger] s.rows[m][c]) is Text || s.rows[m][c] is DateTime
            || s.rows[m][c] is DateTimeIso);
    assert(excel::textual(s.rows[m][c]));
    assert(excel::some_textual(s, c));
}

/// A worksheet column of truth values, without texts, dates and numbers, holds them.
pub proof fn law_sheet_truth_values<S: Fn(Number, Style) -> String>(
    s: SheetView,
    c: int,
    r: int,
    b: bool,
    f: S,
)
    requires
        s.rows.len() >= 2,
        0 <= c < s.width,
        1 <= r < s.rows.len(),
        no_texts(s, c),
        no_numbers(s, c),
        s.rows[r][c] == SheetCellView::Bool(b),
    ensures
        ({
            let out = excel::sheet_dataset(s, f)->Ok_0;
            &&& out.batches[0].columns[c].kind == KindView::Boolean
            &&& entries_of(out, c)[r - 1] == CellView::Bool(b)
        }),
{
    lemma_sheet_entries(s, c, f);
    assert(s.rows[r][c] is Bool);
    assert(!excel::some_textual(s, c));
    assert(!excel::some_numeric(s, c));
    assert(excel::some_bool(s, c));
}

/// The first row of a worksheet names the variables: a text without the white space
/// around it, and the column's number where the cell is empty.
pub proof fn law_sheet_names<S: Fn(Number, Style) -> String>(s: SheetView, c: int, f: S)
    requires
        s.rows.len() >= 2,
        0 <= c < s.width,
    ensures
        excel::sheet_dataset(s, f)->Ok_0.variables[c].name == match s.rows[0][c] {
            SheetCellView::Text(t) => text::trimmed(t),
            SheetCellView::Empty => "col_"@ + text::decimal(c as nat),
            SheetCellView::Int(n) => text::trimmed(text::decimal_int(n as int)),
            _ => excel::sheet_dataset(s, f)->Ok_0.variables[c].name,
        },
{
    lemma_sheet_entries(s, c, f);
}

/// A worksheet without a data row or without a column is refused.
pub proof fn law_empty_sheet<S: Fn(Number, Style) -> String>(s: SheetView, f: S)
    ensures
        excel::sheet_dataset(s, f) is Err <==> s.rows.len() < 2 || s.width == 0,
{
}

} // verus!
