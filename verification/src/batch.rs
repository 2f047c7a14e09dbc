//! Columnar data: typed columns and batches of rows.
use vstd::prelude::*;

use crate::number::Number;
use crate::text;
use crate::text::{decimal_of, same_text};
use crate::variable::VariableType;

verus! {

broadcast use crate::text::lemma_views_push;

/// The data type of a column.
#[derive(Debug, PartialEq)]
pub enum ColumnKind {
    Float64,
    Float32,
    Int64,
    Int32,
    Boolean,
    Utf8,
    LargeUtf8,
    /// Any other type, by its name. The cells hold the numbers that the entries
    /// convert to, the integers that stand for them where they convert to none, and
    /// null where there is neither.
    Other(String),
}

/// What a [`ColumnKind`] holds.
#[verifier::ext_equal]
pub enum KindView {
    Float64,
    Float32,
    Int64,
    Int32,
    Boolean,
    Utf8,
    LargeUtf8,
    Other(Seq<char>),
}

impl View for ColumnKind {
    type V = KindView;

    open spec fn view(&self) -> KindView {
        match self {
            ColumnKind::Float64 => KindView::Float64,
            ColumnKind::Float32 => KindView::Float32,
            ColumnKind::Int64 => KindView::Int64,
            ColumnKind::Int32 => KindView::Int32,
            ColumnKind::Boolean => KindView::Boolean,
            ColumnKind::Utf8 => KindView::Utf8,
            ColumnKind::LargeUtf8 => KindView::LargeUtf8,
            ColumnKind::Other(s) => KindView::Other(s@),
        }
    }
}

impl Clone for ColumnKind {
    fn clone(&self) -> (r: Self)
        ensures
            r@ == self@,
    {
        match self {
            ColumnKind::Float64 => ColumnKind::Float64,
            ColumnKind::Float32 => ColumnKind::Float32,
            ColumnKind::Int64 => ColumnKind::Int64,
            ColumnKind::Int32 => ColumnKind::Int32,
            ColumnKind::Boolean => ColumnKind::Boolean,
            ColumnKind::Utf8 => ColumnKind::Utf8,
            ColumnKind::LargeUtf8 => ColumnKind::LargeUtf8,
            ColumnKind::Other(s) => ColumnKind::Other(s.clone()),
        }
    }
}

impl KindView {
    /// The name of the type.
    pub open spec fn name(self) -> Seq<char> {
        match self {
            KindView::Float64 => "Float64"@,
            KindView::Float32 => "Float32"@,
            KindView::Int64 => "Int64"@,
            KindView::Int32 => "Int32"@,
            KindView::Boolean => "Boolean"@,
            KindView::Utf8 => "Utf8"@,
            KindView::LargeUtf8 => "LargeUtf8"@,
            KindView::Other(s) => s,
        }
    }

    /// The values of the type are text.
    pub open spec fn textual(self) -> bool {
        self is Utf8 || self is LargeUtf8
    }
}

impl ColumnKind {
    /// The name of the type.
    pub fn name(&self) -> (r: String)
        ensures
            r@ == self@.name(),
    {
        match self {
            ColumnKind::Float64 => "Float64".to_owned(),
            ColumnKind::Float32 => "Float32".to_owned(),
            ColumnKind::Int64 => "Int64".to_owned(),
            ColumnKind::Int32 => "Int32".to_owned(),
            ColumnKind::Boolean => "Boolean".to_owned(),
            ColumnKind::Utf8 => "Utf8".to_owned(),
            ColumnKind::LargeUtf8 => "LargeUtf8".to_owned(),
            ColumnKind::Other(s) => s.clone(),
        }
    }

    /// Whether two types are the same.
    pub fn is_same(&self, other: &ColumnKind) -> (r: bool)
        ensures
            r == (self@ == other@),
    {
        match (self, other) {
            (ColumnKind::Float64, ColumnKind::Float64) => true,
            (ColumnKind::Float32, ColumnKind::Float32) => true,
            (ColumnKind::Int64, ColumnKind::Int64) => true,
            (ColumnKind::Int32, ColumnKind::Int32) => true,
            (ColumnKind::Boolean, ColumnKind::Boolean) => true,
            (ColumnKind::Utf8, ColumnKind::Utf8) => true,
            (ColumnKind::LargeUtf8, ColumnKind::LargeUtf8) => true,
            (ColumnKind::Other(a), ColumnKind::Other(b)) => same_text(a.as_str(), b.as_str()),
            _ => false,
        }
    }

    /// Whether the values of the type are text.
    pub fn is_textual(&self) -> (r: bool)
        ensures
            r == self@.textual(),
    {
        matches!(self, ColumnKind::Utf8 | ColumnKind::LargeUtf8)
    }
}

/// One entry of a column.
#[derive(Debug, PartialEq)]
pub enum Cell {
    Null,
    Number(Number),
    Integer(i64),
    Bool(bool),
    Text(String),
}

/// What a [`Cell`] holds.
#[verifier::ext_equal]
pub enum CellView {
    Null,
    Number(Number),
    Integer(i64),
    Bool(bool),
    Text(Seq<char>),
}

impl View for Cell {
    type V = CellView;

    open spec fn view(&self) -> CellView {
        match self {
            Cell::Null => CellView::Null,
            Cell::Number(n) => CellView::Number(*n),
            Cell::Integer(n) => CellView::Integer(*n),
            Cell::Bool(b) => CellView::Bool(*b),
            Cell::Text(s) => CellView::Text(s@),
        }
    }
}

impl Clone for Cell {
    fn clone(&self) -> (r: Self)
        ensures
            r@ == self@,
    {
        match self {
            Cell::Null => Cell::Null,
            Cell::Number(n) => Cell::Number(*n),
            Cell::Integer(n) => Cell::Integer(*n),
            Cell::Bool(b) => Cell::Bool(*b),
            Cell::Text(s) => Cell::Text(s.clone()),
        }
    }
}

/// A typed column.
#[derive(Debug, PartialEq)]
pub struct Column {
    pub kind: ColumnKind,
    pub cells: Vec<Cell>,
}

/// What a [`Column`] holds.
#[verifier::ext_equal]
pub struct ColumnView {
    pub kind: KindView,
    pub cells: Seq<CellView>,
}

impl View for Column {
    type V = ColumnView;

    open spec fn view(&self) -> ColumnView {
        ColumnView { kind: self.kind@, cells: text::views(self.cells@) }
    }
}

impl Clone for Column {
    fn clone(&self) -> (r: Self)
        ensures
            r@ == self@,
    {
        Column { kind: self.kind.clone(), cells: copy_cells(&self.cells) }
    }
}

/// A copy of a list of cells.
pub fn copy_cells(v: &Vec<Cell>) -> (r: Vec<Cell>)
    ensures
        text::views(r@) == text::views(v@),
{
    let mut out: Vec<Cell> = Vec::new();
    let mut i: usize = 0;
    while i < v.len()
        invariant
            i <= v.len(),
            text::views(out@) =~= text::views(v@).take(i as int),
        decreases v.len() - i,
    {
        out.push(v[i].clone());
        i = i + 1;
    }
    proof {
        assert(text::views(v@).take(v@.len() as int) =~= text::views(v@));
    }
    out
}

/// The column type that holds the values of a variable.
pub open spec fn kind_of_type(t: VariableType) -> KindView {
    match t {
        VariableType::Numeric => KindView::Float64,
        VariableType::String(_) => KindView::Utf8,
    }
}

/// The column type that holds the values of a variable.
pub fn kind_for(t: VariableType) -> (r: ColumnKind)
    ensures
        r@ == kind_of_type(t),
{
    match t {
        VariableType::Numeric => ColumnKind::Float64,
        VariableType::String(_) => ColumnKind::Utf8,
    }
}

/// The name and type of a column.
#[derive(Debug)]
pub struct Field {
    pub name: String,
    pub kind: ColumnKind,
}

/// What a [`Field`] holds.
#[verifier::ext_equal]
pub struct FieldView {
    pub name: Seq<char>,
    pub kind: KindView,
}

impl View for Field {
    type V = FieldView;

    open spec fn view(&self) -> FieldView {
        FieldView { name: self.name@, kind: self.kind@ }
    }
}

impl Clone for Field {
    fn clone(&self) -> (r: Self)
        ensures
            r@ == self@,
    {
        Field { name: self.name.clone(), kind: self.kind.clone() }
    }
}

/// Columns of equal length, each with its field.
#[derive(Debug)]
pub struct Batch {
    pub fields: Vec<Field>,
    pub columns: Vec<Column>,
    pub num_rows: usize,
}

/// What a [`Batch`] holds.
#[verifier::ext_equal]
pub struct BatchView {
    pub fields: Seq<FieldView>,
    pub columns: Seq<ColumnView>,
    pub num_rows: usize,
}

impl View for Batch {
    type V = BatchView;

    open spec fn view(&self) -> BatchView {
        BatchView {
            fields: text::views(self.fields@),
            columns: text::views(self.columns@),
            num_rows: self.num_rows,
        }
    }
}

impl BatchView {
    /// Every column has its field, the field's type and the batch's number of rows.
    pub open spec fn wf(self) -> bool {
        &&& self.fields.len() == self.columns.len()
        &&& forall|i: int|
            0 <= i < self.columns.len() ==> (#[trigger] self.columns[i]).cells.len()
                == self.num_rows && self.columns[i].kind == self.fields[i].kind
    }
}

/// Every batch is in order.
pub open spec fn all_wf(batches: Seq<BatchView>) -> bool {
    forall|b: int| 0 <= b < batches.len() ==> (#[trigger] batches[b]).wf()
}

/// The first position from `i` on at which the types of field and column differ.
pub open spec fn kind_mismatch(fields: Seq<FieldView>, columns: Seq<ColumnView>, i: int) -> Option<
    int,
>
    decreases columns.len() - i,
{
    if i < 0 || i >= columns.len() {
        None
    } else if columns[i].kind != fields[i].kind {
        Some(i)
    } else {
        kind_mismatch(fields, columns, i + 1)
    }
}

/// All columns have this many cells.
pub open spec fn same_lengths(columns: Seq<ColumnView>, n: nat) -> bool {
    forall|i: int| 0 <= i < columns.len() ==> (#[trigger] columns[i]).cells.len() == n
}

/// The batch that fields and columns make, or what is wrong with them.
pub open spec fn batch_of(fields: Seq<FieldView>, columns: Seq<ColumnView>) -> Result<
    BatchView,
    Seq<char>,
> {
    if fields.len() != columns.len() {
        Err(
            "Invalid argument error: number of columns("@ + text::decimal(columns.len())
                + ") must match number of fields("@ + text::decimal(fields.len()) + ") in schema"@,
        )
    } else if columns.len() == 0 {
        Err("Invalid argument error: must either specify a row count or at least one column"@)
    } else if !same_lengths(columns, columns[0].cells.len()) {
        Err("Invalid argument error: all columns in a record batch must have the same length"@)
    } else {
        match kind_mismatch(fields, columns, 0) {
            Some(i) => Err(
                "Invalid argument error: column types must match schema types, expected "@
                    + fields[i].kind.name() + " but found "@ + columns[i].kind.name()
                    + " at column index "@ + text::decimal(i as nat),
            ),
            None => Ok(BatchView { fields, columns, num_rows: columns[0].cells.len() as usize }),
        }
    }
}

/// Where no mismatch is found the types agree from there on; one that is found
/// is in range.
pub proof fn lemma_kind_mismatch(fields: Seq<FieldView>, columns: Seq<ColumnView>, from: int)
    requires
        0 <= from,
    ensures
        match kind_mismatch(fields, columns, from) {
            Some(i) => from <= i < columns.len() && columns[i].kind != fields[i].kind,
            None => forall|i: int|
                from <= i < columns.len() ==> (#[trigger] columns[i]).kind == fields[i].kind,
        },
    decreases columns.len() - from,
{
    if from < columns.len() && columns[from].kind == fields[from].kind {
        lemma_kind_mismatch(fields, columns, from + 1);
    }
}

impl Batch {
    /// Makes a batch of fields and columns.
    pub fn try_new(fields: Vec<Field>, columns: Vec<Column>) -> (r: Result<Batch, String>)
        ensures
            match r {
                Ok(b) => batch_of(text::views(fields@), text::views(columns@)) == Ok::<BatchView, Seq<char>>(
                    b@,
                ) && b@.wf(),
                Err(e) => batch_of(text::views(fields@), text::views(columns@)) == Err::<BatchView, Seq<char>>(
                    e@,
                ),
            },
    {
        let ghost fv = text::views(fields@);
        let ghost cv = text::views(columns@);
        if fields.len() != columns.len() {
            let a = decimal_of(columns.len() as u64);
            let b = decimal_of(fields.len() as u64);
            let mut e = "Invalid argument error: number of columns(".to_owned();
            e.append(a.as_str());
            e.append(") must match number of fields(");
            e.append(b.as_str());
            e.append(") in schema");
            return Err(e);
        }
        if columns.len() == 0 {
            return Err(
                "Invalid argument error: must either specify a row count or at least one column".to_owned(),
            );
        }
        let n = columns[0].cells.len();
        let mut i: usize = 0;
        while i < columns.len()
            invariant
                i <= columns.len(),
                0 < columns.len(),
                fv.len() == cv.len(),
                fv == text::views(fields@),
                cv == text::views(columns@),
                n == cv[0].cells.len(),
                forall|j: int| 0 <= j < i ==> (#[trigger] cv[j]).cells.len() == n,
            decreases columns.len() - i,
        {
            if columns[i].cells.len() != n {
                proof {
                    assert(cv[i as int].cells.len() != n);
                }
                return Err(
                    "Invalid argument error: all columns in a record batch must have the same length".to_owned(),
                );
            }
            i = i + 1;
        }
        let mut i: usize = 0;
        while i < columns.len()
            invariant
                i <= columns.len(),
                0 < columns.len(),
                fv == text::views(fields@),
                cv == text::views(columns@),
                fv.len() == cv.len(),
                n == cv[0].cells.len(),
                same_lengths(cv, n as nat),
                kind_mismatch(fv, cv, 0) == kind_mismatch(fv, cv, i as int),
            decreases columns.len() - i,
        {
            if !columns[i].kind.is_same(&fields[i].kind) {
                let a = fields[i].kind.name();
                let b = columns[i].kind.name();
                let c = decimal_of(i as u64);
                let mut e =
                    "Invalid argument error: column types must match schema types, expected ".to_owned();
                e.append(a.as_str());
                e.append(" but found ");
                e.append(b.as_str());
                e.append(" at column index ");
                e.append(c.as_str());
                proof {
                    assert(kind_mismatch(fv, cv, i as int) == Some(i as int));
                }
                return Err(e);
            }
            i = i + 1;
        }
        proof {
            lemma_kind_mismatch(fv, cv, 0);
        }
        Ok(Batch { fields, columns, num_rows: n })
    }
}

impl Clone for Batch {
    fn clone(&self) -> (r: Self)
        ensures
            r@ == self@,
    {
        Batch {
            fields: copy_fields(&self.fields),
            columns: copy_columns(&self.columns),
            num_rows: self.num_rows,
        }
    }
}

/// A copy of a list of fields.
pub fn copy_fields(v: &Vec<Field>) -> (r: Vec<Field>)
    ensures
        text::views(r@) == text::views(v@),
{
    let mut out: Vec<Field> = Vec::new();
    let mut i: usize = 0;
    while i < v.len()
        invariant
            i <= v.len(),
            text::views(out@) =~= text::views(v@).take(i as int),
        decreases v.len() - i,
    {
        out.push(v[i].clone());
        i = i + 1;
    }
    proof {
        assert(text::views(v@).take(v@.len() as int) =~= text::views(v@));
    }
    out
}

/// A copy of a list of columns.
pub fn copy_columns(v: &Vec<Column>) -> (r: Vec<Column>)
    ensures
        text::views(r@) == text::views(v@),
{
    let mut out: Vec<Column> = Vec::new();
    let mut i: usize = 0;
    while i < v.len()
        invariant
            i <= v.len(),
            text::views(out@) =~= text::views(v@).take(i as int),
        decreases v.len() - i,
    {
        out.push(v[i].clone());
        i = i + 1;
    }
    proof {
        assert(text::views(v@).take(v@.len() as int) =~= text::views(v@));
    }
    out
}

/// The cells of several columns, one column after another.
pub open spec fn joined_cells(columns: Seq<ColumnView>) -> Seq<CellView>
    decreases columns.len(),
{
    if columns.len() == 0 {
        Seq::empty()
    } else {
        joined_cells(columns.drop_last()) + columns.last().cells
    }
}

/// All columns have the type of the first.
pub open spec fn one_kind(columns: Seq<ColumnView>) -> bool {
    forall|i: int| 0 <= i < columns.len() ==> (#[trigger] columns[i]).kind == columns[0].kind
}

/// Several columns as one, or why they cannot be one.
pub open spec fn concatenated(columns: Seq<ColumnView>) -> Result<ColumnView, Seq<char>> {
    if columns.len() == 0 {
        Err("Compute error: concat requires input of at least one array"@)
    } else if !one_kind(columns) {
        Err(
            "Invalid argument error: It is not possible to concatenate arrays of different data types."@,
        )
    } else {
        Ok(ColumnView { kind: columns[0].kind, cells: joined_cells(columns) })
    }
}

/// Joins columns of one type.
pub fn concat_columns(columns: &Vec<Column>) -> (r: Result<Column, String>)
    ensures
        match r {
            Ok(c) => concatenated(text::views(columns@)) == Ok::<ColumnView, Seq<char>>(c@),
            Err(e) => concatenated(text::views(columns@)) == Err::<ColumnView, Seq<char>>(e@),
        },
{
    let ghost cv = text::views(columns@);
    if columns.len() == 0 {
        return Err("Compute error: concat requires input of at least one array".to_owned());
    }
    let mut cells: Vec<Cell> = Vec::new();
    let mut i: usize = 0;
    proof {
        assert(cv.take(0) =~= Seq::<ColumnView>::empty());
        assert(text::views(cells@) =~= joined_cells(cv.take(0)));
    }
    while i < columns.len()
        invariant
            i <= columns.len(),
            0 < columns.len(),
            cv == text::views(columns@),
            text::views(cells@) == joined_cells(cv.take(i as int)),
            forall|j: int| 0 <= j < i ==> (#[trigger] cv[j]).kind == cv[0].kind,
        decreases columns.len() - i,
    {
        if !columns[i].kind.is_same(&columns[0].kind) {
            proof {
                assert(cv[i as int].kind != cv[0].kind);
            }
            return Err(
                "Invalid argument error: It is not possible to concatenate arrays of different data types.".to_owned(),
            );
        }
        let ghost before = text::views(cells@);
        let mut j: usize = 0;
        proof {
            assert(cv[i as int].cells.take(0) =~= Seq::<CellView>::empty());
            assert(before + cv[i as int].cells.take(0) =~= before);
        }
        while j < columns[i].cells.len()
            invariant
                i < columns.len(),
                cv == text::views(columns@),
                j <= columns[i as int].cells.len(),
                text::views(cells@) == before + cv[i as int].cells.take(j as int),
            decreases columns[i as int].cells.len() - j,
        {
            cells.push(columns[i].cells[j].clone());
            proof {
                let c = cv[i as int].cells;
                assert(c.take(j + 1) =~= c.take(j as int).push(c[j as int]));
                assert(text::views(cells@) =~= before + c.take(j + 1));
            }
            j = j + 1;
        }
        proof {
            let c = cv[i as int].cells;
            assert(c.take(c.len() as int) =~= c);
            assert(cv.take(i + 1).drop_last() =~= cv.take(i as int));
        }
        i = i + 1;
    }
    proof {
        assert(cv.take(cv.len() as int) =~= cv);
    }
    Ok(Column { kind: columns[0].kind.clone(), cells })
}

/// A column of `n` nulls.
pub open spec fn null_column(t: VariableType, n: nat) -> ColumnView {
    ColumnView { kind: kind_of_type(t), cells: Seq::new(n, |i: int| CellView::Null) }
}

/// Makes a column of nulls.
pub fn create_null_array(var_type: VariableType, length: usize) -> (r: Column)
    ensures
        r@ == null_column(var_type, length as nat),
{
    let mut cells: Vec<Cell> = Vec::new();
    let mut i: usize = 0;
    while i < length
        invariant
            i <= length,
            text::views(cells@) =~= Seq::new(i as nat, |k: int| CellView::Null),
        decreases length - i,
    {
        cells.push(Cell::Null);
        i = i + 1;
    }
    Column { kind: kind_for(var_type), cells }
}

} // verus!
