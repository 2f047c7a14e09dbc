//! Excel worksheets.
use vstd::prelude::*;

use crate::arith;
use crate::arith::{show, Style};
use crate::batch;
use crate::batch::{
    Batch, BatchView, Cell, CellView, Column, ColumnKind, ColumnView, Field, FieldView, KindView,
};
use crate::dataset;
use crate::dataset::{Dataset, DatasetView};
use crate::import::schema;
use crate::import::schema::infer_variables;
use crate::number;
use crate::number::Number;
use crate::text;
use crate::text::{decimal_of, decimal_of_int, join_two, trim};

verus! {

broadcast use crate::text::lemma_views_push;

/// A cell of a worksheet. A date and time is the number that the sheet holds.
pub enum SheetCell {
    Empty,
    Int(i64),
    Float(Number),
    Text(String),
    Bool(bool),
    DateTime(Number),
    DateTimeIso(String),
    DurationIso(String),
    /// An error, by its text.
    Error(String),
}

/// What a [`SheetCell`] holds.
#[verifier::ext_equal]
pub enum SheetCellView {
    Empty,
    Int(i64),
    Float(Number),
    Text(Seq<char>),
    Bool(bool),
    DateTime(Number),
    DateTimeIso(Seq<char>),
    DurationIso(Seq<char>),
    Error(Seq<char>),
}

impl View for SheetCell {
    type V = SheetCellView;

    open spec fn view(&self) -> SheetCellView {
        match self {
            SheetCell::Empty => SheetCellView::Empty,
            SheetCell::Int(n) => SheetCellView::Int(*n),
            SheetCell::Float(n) => SheetCellView::Float(*n),
            SheetCell::Text(s) => SheetCellView::Text(s@),
            SheetCell::Bool(b) => SheetCellView::Bool(*b),
            SheetCell::DateTime(n) => SheetCellView::DateTime(*n),
            SheetCell::DateTimeIso(s) => SheetCellView::DateTimeIso(s@),
            SheetCell::DurationIso(s) => SheetCellView::DurationIso(s@),
            SheetCell::Error(s) => SheetCellView::Error(s@),
        }
    }
}

/// The used part of a worksheet: the position of its first cell, and its rows.
pub struct Sheet {
    pub start_row: usize,
    pub start_col: usize,
    pub width: usize,
    pub rows: Vec<Vec<SheetCell>>,
}

/// What a [`Sheet`] holds.
#[verifier::ext_equal]
pub struct SheetView {
    pub start_row: int,
    pub start_col: int,
    pub width: nat,
    pub rows: Seq<Seq<SheetCellView>>,
}

/// The cells of several rows.
pub open spec fn sheet_rows(rows: Seq<Vec<SheetCell>>) -> Seq<Seq<SheetCellView>> {
    Seq::new(rows.len(), |i: int| text::views(rows[i]@))
}

impl View for Sheet {
    type V = SheetView;

    open spec fn view(&self) -> SheetView {
        SheetView {
            start_row: self.start_row as int,
            start_col: self.start_col as int,
            width: self.width as nat,
            rows: sheet_rows(self.rows@),
        }
    }
}

impl SheetView {
    /// Each row has the sheet's width.
    pub open spec fn wf(self) -> bool {
        forall|i: int| 0 <= i < self.rows.len() ==> (#[trigger] self.rows[i]).len() == self.width
    }
}

/// A cell as text.
pub open spec fn cell_text<S: Fn(Number, Style) -> String>(cell: SheetCellView, f: S) -> Seq<char> {
    match cell {
        SheetCellView::Empty => Seq::empty(),
        SheetCellView::Int(n) => text::decimal_int(n as int),
        SheetCellView::Float(n) => arith::shown(f, n, Style::Plain),
        SheetCellView::Text(s) => s,
        SheetCellView::Bool(b) => if b {
            "true"@
        } else {
            "false"@
        },
        SheetCellView::DateTime(n) => arith::shown(f, n, Style::Plain),
        SheetCellView::DateTimeIso(s) => s,
        SheetCellView::DurationIso(s) => s,
        SheetCellView::Error(s) => s,
    }
}

/// The name of a column: the text of its first cell without white space around it,
/// or its number where the cell is empty.
pub open spec fn header<S: Fn(Number, Style) -> String>(s: SheetView, c: int, f: S) -> Seq<char> {
    match s.rows[0][c] {
        SheetCellView::Empty => "col_"@ + text::decimal(c as nat),
        cell => text::trimmed(cell_text(cell, f)),
    }
}

/// A cell that makes its column one of texts.
pub open spec fn textual(cell: SheetCellView) -> bool {
    cell is Text || cell is DateTime || cell is DateTimeIso
}

/// A cell that makes its column one of numbers, where there is no text.
pub open spec fn numeric(cell: SheetCellView) -> bool {
    cell is Int || cell is Float
}

/// One of the data cells of a column is textual.
pub open spec fn some_textual(s: SheetView, c: int) -> bool {
    exists|r: int| 1 <= r < s.rows.len() && textual(#[trigger] s.rows[r][c])
}

/// One of the data cells of a column is numeric.
pub open spec fn some_numeric(s: SheetView, c: int) -> bool {
    exists|r: int| 1 <= r < s.rows.len() && numeric(#[trigger] s.rows[r][c])
}

/// One of the data cells of a column is a truth value.
pub open spec fn some_bool(s: SheetView, c: int) -> bool {
    exists|r: int| 1 <= r < s.rows.len() && (#[trigger] s.rows[r][c]) is Bool
}

/// The type of a column.
pub open spec fn sheet_kind(s: SheetView, c: int) -> KindView {
    if some_textual(s, c) {
        KindView::Utf8
    } else if some_numeric(s, c) {
        KindView::Float64
    } else if some_bool(s, c) {
        KindView::Boolean
    } else {
        KindView::Utf8
    }
}

/// A cell as an entry of a column of a type.
pub open spec fn entry<S: Fn(Number, Style) -> String>(
    kind: KindView,
    cell: SheetCellView,
    f: S,
) -> CellView {
    match kind {
        KindView::Float64 => match cell {
            SheetCellView::Int(n) => CellView::Number(number::nearest(n as int)),
            SheetCellView::Float(n) => CellView::Number(n),
            _ => CellView::Null,
        },
        KindView::Boolean => match cell {
            SheetCellView::Bool(b) => CellView::Bool(b),
            _ => CellView::Null,
        },
        _ => match cell {
            SheetCellView::Empty => CellView::Null,
            SheetCellView::Error(_) => CellView::Null,
            other => CellView::Text(cell_text(other, f)),
        },
    }
}

/// The column of the data cells.
pub open spec fn sheet_column<S: Fn(Number, Style) -> String>(
    s: SheetView,
    c: int,
    f: S,
) -> ColumnView {
    ColumnView {
        kind: sheet_kind(s, c),
        cells: Seq::new(
            (s.rows.len() - 1) as nat,
            |i: int| entry(sheet_kind(s, c), s.rows[i + 1][c], f),
        ),
    }
}

/// The batch of the data cells.
pub open spec fn sheet_batch<S: Fn(Number, Style) -> String>(s: SheetView, f: S) -> BatchView {
    BatchView {
        fields: Seq::new(
            s.width,
            |c: int| FieldView { name: header(s, c, f), kind: sheet_kind(s, c) },
        ),
        columns: Seq::new(s.width, |c: int| sheet_column(s, c, f)),
        num_rows: (s.rows.len() - 1) as usize,
    }
}

/// The dataset of a worksheet: the first row names the variables, the others are
/// the cases.
pub open spec fn sheet_dataset<S: Fn(Number, Style) -> String>(s: SheetView, f: S) -> Result<
    DatasetView,
    Seq<char>,
> {
    if s.rows.len() < 2 || s.width == 0 {
        Err("Worksheet has no data or columns"@)
    } else {
        let b = sheet_batch(s, f);
        Ok(dataset::dataset_of(schema::schema_variables(b.fields, seq![b], true), seq![b]))
    }
}

/// Writes a cell as text.
fn show_cell<S: Fn(Number, Style) -> String>(cell: &SheetCell, f: &S) -> (r: String)
    requires
        arith::steady_text(*f),
    ensures
        r@ == cell_text(cell@, *f),
{
    match cell {
        SheetCell::Empty => {
            let none = String::new();
            proof {
                assert(none@ =~= Seq::empty());
            }
            none
        },
        SheetCell::Int(n) => decimal_of_int(*n),
        SheetCell::Float(n) => show(f, *n, Style::Plain),
        SheetCell::Text(s) => s.clone(),
        SheetCell::Bool(b) => if *b {
            "true".to_owned()
        } else {
            "false".to_owned()
        },
        SheetCell::DateTime(n) => show(f, *n, Style::Plain),
        SheetCell::DateTimeIso(s) => s.clone(),
        SheetCell::DurationIso(s) => s.clone(),
        SheetCell::Error(s) => s.clone(),
    }
}

/// Reads the name of a column.
fn read_header<S: Fn(Number, Style) -> String>(s: &Sheet, c: usize, f: &S) -> (r: String)
    requires
        arith::steady_text(*f),
        s@.wf(),
        s@.rows.len() >= 1,
        c < s.width,
    ensures
        r@ == header(s@, c as int, *f),
{
    proof {
        assert(s@.rows[0].len() == s@.width);
    }
    match &s.rows[0][c] {
        SheetCell::Empty => {
            let d = decimal_of(c as u64);
            join_two("col_", d.as_str())
        },
        cell => {
            let t = show_cell(cell, f);
            trim(t.as_str())
        },
    }
}

/// Infers the type of a column.
fn infer_kind(s: &Sheet, c: usize) -> (r: ColumnKind)
    requires
        s@.wf(),
        c < s.width,
    ensures
        r@ == sheet_kind(s@, c as int),
{
    let mut text_seen = false;
    let mut number_seen = false;
    let mut bool_seen = false;
    let mut r: usize = 1;
    while r < s.rows.len()
        invariant
            1 <= r,
            r <= s.rows@.len() || r == 1,
            s@.wf(),
            c < s.width,
            text_seen == exists|i: int| 1 <= i < r && textual(#[trigger] s@.rows[i][c as int]),
            number_seen == exists|i: int| 1 <= i < r && numeric(#[trigger] s@.rows[i][c as int]),
            bool_seen == exists|i: int| 1 <= i < r && (#[trigger] s@.rows[i][c as int]) is Bool,
        decreases s.rows@.len() - r,
    {
        proof {
            assert(s@.rows[r as int].len() == s@.width);
            assert(s@.rows[r as int][c as int] == s.rows@[r as int]@[c as int]@);
        }
        match &s.rows[r][c] {
            SheetCell::Text(_) | SheetCell::DateTime(_) | SheetCell::DateTimeIso(_) => {
                text_seen = true;
            },
            SheetCell::Int(_) | SheetCell::Float(_) => {
                number_seen = true;
            },
            SheetCell::Bool(_) => {
                bool_seen = true;
            },
            _ => {},
        }
        r = r + 1;
    }
    if text_seen {
        ColumnKind::Utf8
    } else if number_seen {
        ColumnKind::Float64
    } else if bool_seen {
        ColumnKind::Boolean
    } else {
        ColumnKind::Utf8
    }
}

/// Makes an entry of a column of a type.
fn make_entry<S: Fn(Number, Style) -> String>(
    kind: &ColumnKind,
    cell: &SheetCell,
    f: &S,
) -> (r: Cell)
    requires
        arith::steady_text(*f),
    ensures
        r@ == entry(kind@, cell@, *f),
{
    match kind {
        ColumnKind::Float64 => match cell {
            SheetCell::Int(n) => Cell::Number(Number::from_i64(*n)),
            SheetCell::Float(n) => Cell::Number(*n),
            _ => Cell::Null,
        },
        ColumnKind::Boolean => match cell {
            SheetCell::Bool(b) => Cell::Bool(*b),
            _ => Cell::Null,
        },
        _ => match cell {
            SheetCell::Empty => Cell::Null,
            SheetCell::Error(_) => Cell::Null,
            other => Cell::Text(show_cell(other, f)),
        },
    }
}

/// Reads the data cells of a column.
fn read_column<S: Fn(Number, Style) -> String>(s: &Sheet, c: usize, f: &S) -> (r: Column)
    requires
        arith::steady_text(*f),
        s@.wf(),
        s@.rows.len() >= 2,
        c < s.width,
    ensures
        r@ == sheet_column(s@, c as int, *f),
{
    let kind = infer_kind(s, c);
    let ghost all = sheet_column(s@, c as int, *f).cells;
    let mut cells: Vec<Cell> = Vec::new();
    let mut r: usize = 1;
    proof {
        assert(s@.rows.len() == s.rows@.len());
    }
    while r < s.rows.len()
        invariant
            1 <= r <= s.rows@.len(),
            arith::steady_text(*f),
            s@.wf(),
            c < s.width,
            s@.rows.len() == s.rows@.len(),
            kind@ == sheet_kind(s@, c as int),
            all == sheet_column(s@, c as int, *f).cells,
            text::views(cells@) =~= all.take(r - 1),
        decreases s.rows@.len() - r,
    {
        proof {
            assert(s@.rows[r as int].len() == s@.width);
            assert(all[r - 1] == entry(kind@, s@.rows[r as int][c as int], *f));
        }
        cells.push(make_entry(&kind, &s.rows[r][c], f));
        r = r + 1;
    }
    proof {
        assert(all.take(all.len() as int) =~= all);
    }
    Column { kind, cells }
}

/// The fields and columns make a batch.
proof fn lemma_sheet_batch<S: Fn(Number, Style) -> String>(s: SheetView, f: S)
    requires
        s.rows.len() >= 2,
        s.rows.len() <= usize::MAX,
        s.width > 0,
    ensures
        batch::batch_of(sheet_batch(s, f).fields, sheet_batch(s, f).columns) == Ok::<
            BatchView,
            Seq<char>,
        >(sheet_batch(s, f)),
{
    let b = sheet_batch(s, f);
    batch::lemma_kind_mismatch(b.fields, b.columns, 0);
}

/// The same cells give the same dataset, wherever in the worksheet they stand.
pub proof fn law_position_does_not_matter<S: Fn(Number, Style) -> String>(
    a: SheetView,
    b: SheetView,
    f: S,
)
    requires
        a.width == b.width,
        a.rows == b.rows,
    ensures
        sheet_dataset(a, f) == sheet_dataset(b, f),
{
    if a.rows.len() >= 2 && a.width > 0 {
        let (x, y) = (sheet_batch(a, f), sheet_batch(b, f));
        assert forall|c: int| 0 <= c < a.width implies #[trigger] sheet_column(a, c, f)
            == sheet_column(b, c, f) by {
            assert(sheet_kind(a, c) == sheet_kind(b, c));
            assert(sheet_column(a, c, f).cells =~= sheet_column(b, c, f).cells);
        }
        assert(x.fields =~= y.fields);
        assert(x.columns =~= y.columns) by {
            assert forall|c: int| 0 <= c < a.width implies x.columns[c] == y.columns[c] by {
                assert(sheet_column(a, c, f) == sheet_column(b, c, f));
            }
        }
        assert(x == y);
    }
}

/// Convert a worksheet to a Dataset.
pub fn read_range<S: Fn(Number, Style) -> String>(range: &Sheet, shown: &S) -> (r: Result<
    Dataset,
    String,
>)
    requires
        arith::steady_text(*shown),
        range@.wf(),
    ensures
        match r {
            Ok(ds) => sheet_dataset(range@, *shown) == Ok::<DatasetView, Seq<char>>(ds@)
                && ds@.wf(),
            Err(e) => sheet_dataset(range@, *shown) == Err::<DatasetView, Seq<char>>(e@),
        },
{
    if range.rows.len() < 2 || range.width == 0 {
        return Err("Worksheet has no data or columns".to_owned());
    }
    let ghost s = range@;
    let ghost b = sheet_batch(s, *shown);
    let mut fields: Vec<Field> = Vec::new();
    let mut columns: Vec<Column> = Vec::new();
    let mut c: usize = 0;
    while c < range.width
        invariant
            c <= range.width,
            arith::steady_text(*shown),
            s == range@,
            s.wf(),
            s.rows.len() >= 2,
            b == sheet_batch(s, *shown),
            s.width == range.width,
            text::views(fields@) =~= b.fields.take(c as int),
            text::views(columns@) =~= b.columns.take(c as int),
        decreases range.width - c,
    {
        let column = read_column(range, c, shown);
        let field = Field { name: read_header(range, c, shown), kind: column.kind.clone() };
        fields.push(field);
        columns.push(column);
        c = c + 1;
    }
    proof {
        assert(b.fields.take(s.width as int) =~= b.fields);
        assert(b.columns.take(s.width as int) =~= b.columns);
        assert(s.rows.len() == range.rows@.len());
        lemma_sheet_batch(s, *shown);
    }
    let batch = Batch::try_new(fields, columns)?;
    let mut batches: Vec<Batch> = Vec::new();
    batches.push(batch);
    proof {
        assert(text::views(batches@) =~= seq![b]);
        assert(batches@[0]@ == b);
    }
    let variables = infer_variables(&batches[0].fields, &batches, true);
    Ok(Dataset::from_parts(variables, batches))
}

} // verus!
