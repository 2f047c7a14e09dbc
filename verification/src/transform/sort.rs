//! SORT CASES.
use vstd::prelude::*;

use arrow::array::{ArrayRef, Int64Array, StringArray};
use arrow::compute::{lexsort_to_indices, SortColumn, SortOptions};

use crate::batch;
use crate::batch::{copy_columns, Cell, CellView, Column, ColumnKind, ColumnView};
use crate::dataset;
use crate::dataset::{Dataset, DatasetView};
use crate::text;
use crate::transform::rows;
use crate::transform::rows::{collect_all, concat_column_batches, is_covered, make_table, name_error};
use crate::transform::select::copy_variables;
use crate::variable::VariableView;

verus! {

broadcast use crate::text::lemma_views_push;

/// The direction of a sort.
#[derive(Debug, Clone, Copy, PartialEq, Eq, Structural)]
pub enum SortOrder {
    Ascending,
    Descending,
}

/// A variable to sort by.
#[derive(Debug, Clone)]
pub struct SortKey {
    pub var_name: String,
    pub order: SortOrder,
}

/// What a [`SortKey`] holds.
#[verifier::ext_equal]
pub struct SortKeyView {
    pub var_name: Seq<char>,
    pub order: SortOrder,
}

impl View for SortKey {
    type V = SortKeyView;

    open spec fn view(&self) -> SortKeyView {
        SortKeyView { var_name: self.var_name@, order: self.order }
    }
}

/// The values of a column that rows are sorted by.
pub enum SortValues {
    Numbers(Vec<Option<i64>>),
    Texts(Vec<Option<String>>),
}

/// A column that rows are sorted by.
pub struct SortSlot {
    pub values: SortValues,
    pub descending: bool,
    pub nulls_first: bool,
}

/// The bytes of several texts.
pub open spec fn text_bytes(v: Seq<Option<String>>) -> nat
    decreases v.len(),
{
    if v.len() == 0 {
        0
    } else {
        text_bytes(v.drop_last()) + match v.last() {
            Some(s) => text::byte_len(s@),
            None => 0,
        }
    }
}

impl SortSlot {
    /// The number of values.
    pub open spec fn count(&self) -> nat {
        match self.values {
            SortValues::Numbers(v) => v@.len(),
            SortValues::Texts(v) => v@.len(),
        }
    }

    /// The bytes of the texts.
    pub open spec fn bytes(&self) -> nat {
        match self.values {
            SortValues::Numbers(_) => 0,
            SortValues::Texts(v) => text_bytes(v@),
        }
    }

    /// A value is null.
    pub open spec fn null(&self, i: int) -> bool {
        match self.values {
            SortValues::Numbers(v) => v@[i] is None,
            SortValues::Texts(v) => v@[i] is None,
        }
    }

    /// A value is smaller than another; neither is null.
    pub open spec fn smaller(&self, i: int, j: int) -> bool {
        match self.values {
            SortValues::Numbers(v) => v@[i]->0 < v@[j]->0,
            SortValues::Texts(v) => text::text_below(v@[i]->0@, v@[j]->0@),
        }
    }

    /// One row comes before another by this column alone. Nulls come first or
    /// last whatever the direction.
    pub open spec fn before(&self, i: int, j: int) -> bool {
        if self.null(i) || self.null(j) {
            if self.nulls_first {
                self.null(i) && !self.null(j)
            } else {
                !self.null(i) && self.null(j)
            }
        } else if self.descending {
            self.smaller(j, i)
        } else {
            self.smaller(i, j)
        }
    }
}

/// One row comes before another by the columns from the `k`th on: the first
/// that tells them apart decides.
pub open spec fn slots_before(slots: Seq<SortSlot>, k: int, i: int, j: int) -> bool
    decreases slots.len() - k,
{
    if k < 0 || k >= slots.len() {
        false
    } else if slots[k].before(i, j) {
        true
    } else if slots[k].before(j, i) {
        false
    } else {
        slots_before(slots, k + 1, i, j)
    }
}

/// Each of the first `n` row numbers once.
pub open spec fn permutes(order: Seq<u32>, n: nat) -> bool {
    &&& order.len() == n
    &&& forall|a: int| 0 <= a < n ==> (#[trigger] order[a]) < n
    &&& forall|a: int, b: int|
        0 <= a < n && 0 <= b < n && #[trigger] order[a] == #[trigger] order[b] ==> a == b
}

/// Calls `lexsort_to_indices` of arrow-ord on `Int64` and `Utf8` columns. It
/// gives the row numbers in sorted order: each row once, and no row before one
/// that comes before it by the columns. The first column that tells two rows
/// apart decides; a direction turns the order of the values, texts go by their
/// bytes (which is the order of their code points), and nulls come first or last
/// as the column says. Rows that no column tells apart may come in any order.
/// Without a column it refuses. The bytes of a column's texts must be countable
/// by the 32-bit offsets of `Utf8`.
#[verifier::external_body]
fn sort_rows(slots: &Vec<SortSlot>) -> (r: Result<Vec<u32>, String>)
    requires
        forall|k: int|
            0 <= k < slots@.len() ==> (#[trigger] slots@[k]).count() == slots@[0].count(),
        slots@.len() > 0 ==> slots@[0].count() <= u32::MAX,
        forall|k: int| 0 <= k < slots@.len() ==> (#[trigger] slots@[k]).bytes() <= i32::MAX,
    ensures
        match r {
            Ok(order) => slots@.len() > 0 && permutes(order@, slots@[0].count()) && forall|
                a: int,
                b: int,
            |
                0 <= a < b < order@.len() ==> !#[trigger] slots_before(
                    slots@,
                    0,
                    order@[b] as int,
                    order@[a] as int,
                ),
            Err(e) => slots@.len() == 0 && e@
                == "Invalid argument error: Sort requires at least one column"@,
        },
{
    let columns: Vec<SortColumn> = slots.iter().map(|slot| SortColumn {
        values: match &slot.values {
            SortValues::Numbers(v) => std::sync::Arc::new(Int64Array::from(v.clone())) as ArrayRef,
            SortValues::Texts(v) => std::sync::Arc::new(StringArray::from(v.clone())) as ArrayRef,
        },
        options: Some(SortOptions { descending: slot.descending, nulls_first: slot.nulls_first }),
    }).collect();
    match lexsort_to_indices(&columns, None) {
        Ok(order) => Ok(order.values().to_vec()),
        Err(e) => Err(e.to_string()),
    }
}

/// The bytes of the texts of a column.
pub open spec fn cell_bytes(cells: Seq<CellView>) -> nat
    decreases cells.len(),
{
    if cells.len() == 0 {
        0
    } else {
        cell_bytes(cells.drop_last()) + match cells.last() {
            CellView::Text(s) => text::byte_len(s),
            _ => 0,
        }
    }
}

/// An entry has no value to sort by.
pub open spec fn blank(c: ColumnView, i: int) -> bool {
    if c.kind is Float64 {
        !(c.cells[i] is Number)
    } else {
        !(c.cells[i] is Text)
    }
}

/// One row comes before another by a column of numbers or texts alone. Nulls come
/// first in ascending and last in descending order.
pub open spec fn before_by(c: ColumnView, order: SortOrder, i: int, j: int) -> bool {
    if blank(c, i) || blank(c, j) {
        if order == SortOrder::Ascending {
            blank(c, i) && !blank(c, j)
        } else {
            !blank(c, i) && blank(c, j)
        }
    } else {
        let (x, y) = if order == SortOrder::Ascending {
            (c.cells[i], c.cells[j])
        } else {
            (c.cells[j], c.cells[i])
        };
        if c.kind is Float64 {
            x->Number_0.total_rank() < y->Number_0.total_rank()
        } else {
            text::text_below(x->Text_0, y->Text_0)
        }
    }
}

/// One row comes before another by the keys from the `k`th on.
pub open spec fn row_before(
    columns: Seq<ColumnView>,
    keys: Seq<SortKeyView>,
    k: int,
    i: int,
    j: int,
) -> bool
    decreases columns.len() - k,
{
    if k < 0 || k >= columns.len() {
        false
    } else if before_by(columns[k], keys[k].order, i, j) {
        true
    } else if before_by(columns[k], keys[k].order, j, i) {
        false
    } else {
        row_before(columns, keys, k + 1, i, j)
    }
}

/// The columns of the first `n` keys, or why there is one that cannot be had.
/// There is no outcome where a batch lacks the column of a key or the texts of
/// one are too long for a column.
pub open spec fn key_columns(ds: DatasetView, keys: Seq<SortKeyView>, n: int) -> Option<
    Result<Seq<ColumnView>, Seq<char>>,
>
    decreases n,
{
    if n <= 0 {
        Some(Ok(Seq::empty()))
    } else {
        match key_columns(ds, keys, n - 1) {
            Some(Ok(before)) => match ds.index_of(keys[n - 1].var_name) {
                None => Some(Err("Var not found: "@ + keys[n - 1].var_name)),
                Some(idx) => if !rows::covered(ds, idx as int) {
                    None
                } else {
                    match batch::concatenated(rows::columns_at(ds, idx as int)) {
                        Ok(c) => if c.kind is Utf8 && cell_bytes(c.cells) > i32::MAX {
                            None
                        } else {
                            Some(Ok(before.push(c)))
                        },
                        Err(e) => Some(Err(e)),
                    }
                },
            },
            stopped => stopped,
        }
    }
}

/// What a sort works on: the columns of the keys and of all variables, or why
/// the dataset cannot be sorted.
pub open spec fn sort_input(ds: DatasetView, keys: Seq<SortKeyView>) -> Option<
    Result<(Seq<ColumnView>, Seq<ColumnView>), Seq<char>>,
> {
    match key_columns(ds, keys, keys.len() as int) {
        None => None,
        Some(Err(e)) => Some(Err(e)),
        Some(Ok(by)) => if keys.len() == 0 {
            Some(Err("Invalid argument error: Sort requires at least one column"@))
        } else {
            match rows::all_columns(ds, ds.variables.len() as int) {
                None => None,
                Some(Err(e)) => Some(Err(e)),
                Some(Ok(all)) => match batch::batch_of(dataset::fields_for(ds.variables), all) {
                    Ok(_) => Some(Ok((by, all))),
                    Err(e) => Some(Err(e)),
                },
            }
        },
    }
}

/// A column with its entries in another order.
pub open spec fn reordered(c: ColumnView, order: Seq<u32>) -> ColumnView {
    ColumnView {
        kind: c.kind,
        cells: Seq::new(order.len(), |i: int| c.cells[order[i] as int]),
    }
}

/// Columns with their entries in another order.
pub open spec fn all_reordered(columns: Seq<ColumnView>, order: Seq<u32>) -> Seq<ColumnView> {
    Seq::new(columns.len(), |i: int| reordered(columns[i], order))
}

/// `order` lists each row once, and no row before one that comes before it.
pub open spec fn sorts(
    by: Seq<ColumnView>,
    keys: Seq<SortKeyView>,
    n: nat,
    order: Seq<u32>,
) -> bool {
    &&& permutes(order, n)
    &&& forall|a: int, b: int|
        0 <= a < b < n ==> !#[trigger] row_before(by, keys, 0, order[b] as int, order[a] as int)
}

/// `out` is the dataset with its rows in a sorted order.
pub open spec fn is_sorted_form(
    ds: DatasetView,
    keys: Seq<SortKeyView>,
    by: Seq<ColumnView>,
    all: Seq<ColumnView>,
    out: DatasetView,
) -> bool {
    exists|order: Seq<u32>| #[trigger]
        sorts(by, keys, ds.n_cases(), order) && rows::table_of(
            ds.variables,
            all_reordered(all, order),
        ) == Ok::<DatasetView, Seq<char>>(out)
}

/// The bytes of texts stay within a bound.
fn bytes_fit(c: &Column) -> (r: bool)
    ensures
        r == (cell_bytes(c@.cells) <= i32::MAX),
{
    let ghost cv = c@.cells;
    let mut total: u64 = 0;
    let mut i: usize = 0;
    proof {
        assert(cv.take(0) =~= Seq::empty());
    }
    while i < c.cells.len()
        invariant
            i <= c.cells.len(),
            cv == c@.cells,
            total == cell_bytes(cv.take(i as int)),
            total <= i32::MAX,
        decreases c.cells.len() - i,
    {
        proof {
            assert(cv.take(i + 1).drop_last() =~= cv.take(i as int));
            assert(cv.take(i + 1).last() == cv[i as int]);
            lemma_bytes_grow(cv, i + 1);
        }
        if let Cell::Text(s) = &c.cells[i] {
            let n = text::len_of(s.as_str()) as u64;
            if n > 0x7FFF_FFFF || total + n > 0x7FFF_FFFF {
                return false;
            }
            total = total + n;
        }
        i = i + 1;
    }
    proof {
        assert(cv.take(cv.len() as int) =~= cv);
    }
    true
}

proof fn lemma_bytes_grow(cells: Seq<CellView>, n: int)
    requires
        0 <= n <= cells.len(),
    ensures
        cell_bytes(cells.take(n)) <= cell_bytes(cells),
    decreases cells.len() - n,
{
    if n < cells.len() {
        lemma_bytes_grow(cells, n + 1);
        assert(cells.take(n + 1).drop_last() =~= cells.take(n));
    } else {
        assert(cells.take(n) =~= cells);
    }
}

/// Collects the columns of the keys.
fn collect_keys(dataset: &Dataset, keys: &[SortKey]) -> (r: Option<Result<Vec<Column>, String>>)
    requires
        dataset@.wf(),
    ensures
        match r {
            None => key_columns(dataset@, text::views(keys@), keys@.len() as int) is None,
            Some(Ok(v)) => key_columns(dataset@, text::views(keys@), keys@.len() as int) == Some(
                Ok::<Seq<ColumnView>, Seq<char>>(text::views(v@)),
            ) && v@.len() == keys@.len() && forall|k: int|
                0 <= k < v@.len() ==> (#[trigger] v@[k])@.cells.len() == dataset@.n_cases() && (
                v@[k]@.kind is Utf8 ==> cell_bytes(v@[k]@.cells) <= i32::MAX),
            Some(Err(e)) => key_columns(dataset@, text::views(keys@), keys@.len() as int) == Some(
                Err::<Seq<ColumnView>, Seq<char>>(e@),
            ),
        },
{
    let ghost ds = dataset@;
    let ghost kv = text::views(keys@);
    let mut out: Vec<Column> = Vec::new();
    let mut i: usize = 0;
    proof {
        assert(text::views(out@) =~= Seq::empty());
    }
    while i < keys.len()
        invariant
            i <= keys.len(),
            ds == dataset@,
            ds.wf(),
            kv == text::views(keys@),
            out@.len() == i,
            forall|k: int|
                0 <= k < out@.len() ==> (#[trigger] out@[k])@.cells.len() == ds.n_cases() && (
                out@[k]@.kind is Utf8 ==> cell_bytes(out@[k]@.cells) <= i32::MAX),
            key_columns(ds, kv, i as int) == Some(
                Ok::<Seq<ColumnView>, Seq<char>>(text::views(out@)),
            ),
        decreases keys.len() - i,
    {
        match dataset.variable_index(keys[i].var_name.as_str()) {
            None => {
                let e = name_error("Var not found: ", keys[i].var_name.as_str());
                proof {
                    lemma_key_stop(ds, kv, i + 1, keys@.len() as int);
                }
                return Some(Err(e));
            },
            Some(idx) => {
                if !is_covered(dataset, idx) {
                    proof {
                        lemma_key_stop(ds, kv, i + 1, keys@.len() as int);
                    }
                    return None;
                }
                proof {
                    rows::lemma_concatenated_len(ds, idx as int);
                }
                match concat_column_batches(dataset, idx) {
                    Ok(c) => {
                        if matches!(c.kind, ColumnKind::Utf8) && !bytes_fit(&c) {
                            proof {
                                lemma_key_stop(ds, kv, i + 1, keys@.len() as int);
                            }
                            return None;
                        }
                        out.push(c);
                    },
                    Err(e) => {
                        proof {
                            lemma_key_stop(ds, kv, i + 1, keys@.len() as int);
                        }
                        return Some(Err(e));
                    },
                }
            },
        }
        i = i + 1;
    }
    Some(Ok(out))
}

proof fn lemma_key_stop(ds: DatasetView, keys: Seq<SortKeyView>, n: int, m: int)
    requires
        n <= m,
        !(key_columns(ds, keys, n) matches Some(Ok(_))),
    ensures
        key_columns(ds, keys, m) == key_columns(ds, keys, n),
    decreases m - n,
{
    if n < m {
        lemma_key_stop(ds, keys, n, m - 1);
    }
}

/// The entries of a column as values to sort by.
fn make_slot(c: &Column, order: SortOrder) -> (r: SortSlot)
    requires
        c.kind@ is Float64 || c.kind@ is Utf8,
        c.kind@ is Utf8 ==> cell_bytes(c@.cells) <= i32::MAX,
    ensures
        r.count() == c.cells@.len(),
        r.bytes() <= i32::MAX,
        forall|i: int, j: int|
            0 <= i < c.cells@.len() && 0 <= j < c.cells@.len() ==> #[trigger] r.before(i, j)
                == before_by(c@, order, i, j),
{
    let ghost cv = c@.cells;
    let descending = matches!(order, SortOrder::Descending);
    if matches!(c.kind, ColumnKind::Float64) {
        let mut v: Vec<Option<i64>> = Vec::new();
        let mut i: usize = 0;
        while i < c.cells.len()
            invariant
                i <= c.cells.len(),
                cv == c@.cells,
                v@.len() == i,
                forall|k: int|
                    0 <= k < i ==> #[trigger] v@[k] == match cv[k] {
                        CellView::Number(n) => Some(n.total_rank() as i64),
                        _ => None,
                    },
                forall|k: int|
                    0 <= k < i && (#[trigger] cv[k]) is Number ==> i64::MIN
                        <= cv[k]->Number_0.total_rank() <= i64::MAX,
            decreases c.cells.len() - i,
        {
            let x = match &c.cells[i] {
                Cell::Number(n) => Some(n.total_key()),
                _ => None,
            };
            v.push(x);
            i = i + 1;
        }
        SortSlot {
            values: SortValues::Numbers(v),
            descending,
            nulls_first: !descending,
        }
    } else {
        let mut v: Vec<Option<String>> = Vec::new();
        let mut i: usize = 0;
        proof {
            assert(cv.take(0) =~= Seq::empty());
        }
        while i < c.cells.len()
            invariant
                i <= c.cells.len(),
                cv == c@.cells,
                v@.len() == i,
                text_bytes(v@) == cell_bytes(cv.take(i as int)),
                forall|k: int|
                    0 <= k < i ==> match cv[k] {
                        CellView::Text(t) => (#[trigger] v@[k]) matches Some(s) && s@ == t,
                        _ => v@[k] is None,
                    },
            decreases c.cells.len() - i,
        {
            let ghost before = v@;
            let x = match &c.cells[i] {
                Cell::Text(s) => Some(s.clone()),
                _ => None,
            };
            v.push(x);
            proof {
                assert(cv.take(i + 1).drop_last() =~= cv.take(i as int));
                assert(cv.take(i + 1).last() == cv[i as int]);
                assert(v@.drop_last() =~= before);
            }
            i = i + 1;
        }
        proof {
            assert(cv.take(cv.len() as int) =~= cv);
        }
        SortSlot { values: SortValues::Texts(v), descending, nulls_first: !descending }
    }
}

proof fn lemma_same_order(
    slots: Seq<SortSlot>,
    columns: Seq<ColumnView>,
    keys: Seq<SortKeyView>,
    k: int,
    n: nat,
    i: int,
    j: int,
)
    requires
        0 <= k,
        slots.len() == columns.len(),
        0 <= i < n,
        0 <= j < n,
        forall|m: int, x: int, y: int|
            0 <= m < slots.len() && 0 <= x < n && 0 <= y < n ==> #[trigger] slots[m].before(x, y)
                == before_by(columns[m], keys[m].order, x, y),
    ensures
        slots_before(slots, k, i, j) == row_before(columns, keys, k, i, j),
    decreases slots.len() - k,
{
    if k < slots.len() {
        assert(slots[k].before(i, j) == before_by(columns[k], keys[k].order, i, j));
        assert(slots[k].before(j, i) == before_by(columns[k], keys[k].order, j, i));
        lemma_same_order(slots, columns, keys, k + 1, n, i, j);
    }
}

/// Puts the entries of a column in another order.
fn reorder(c: &Column, order: &Vec<u32>) -> (r: Column)
    requires
        forall|a: int| 0 <= a < order@.len() ==> (#[trigger] order@[a]) < c.cells@.len(),
    ensures
        r@ == reordered(c@, order@),
{
    let mut cells: Vec<Cell> = Vec::new();
    let mut i: usize = 0;
    while i < order.len()
        invariant
            i <= order.len(),
            forall|a: int| 0 <= a < order@.len() ==> (#[trigger] order@[a]) < c.cells@.len(),
            text::views(cells@) =~= reordered(c@, order@).cells.take(i as int),
        decreases order.len() - i,
    {
        proof {
            assert(order@[i as int] < c.cells@.len());
        }
        cells.push(c.cells[order[i] as usize].clone());
        i = i + 1;
    }
    let r = Column { kind: c.kind.clone(), cells };
    proof {
        assert(r@ =~= reordered(c@, order@));
    }
    r
}

/// `c` is the column of a variable that the dataset has under this name.
spec fn is_column_of(ds: DatasetView, name: Seq<char>, c: ColumnView) -> bool {
    &&& ds.index_of(name) matches Some(idx)
    &&& batch::concatenated(rows::columns_at(ds, idx as int)) == Ok::<ColumnView, Seq<char>>(c)
}

/// The column of each key is the column of its variable.
proof fn lemma_key_columns(
    ds: DatasetView,
    keys: Seq<SortKeyView>,
    n: int,
    by: Seq<ColumnView>,
)
    requires
        0 <= n <= keys.len(),
        key_columns(ds, keys, n) == Some(Ok::<Seq<ColumnView>, Seq<char>>(by)),
    ensures
        by.len() == n,
        forall|k: int| 0 <= k < n ==> is_column_of(ds, keys[k].var_name, #[trigger] by[k]),
    decreases n,
{
    if n > 0 {
        let before = key_columns(ds, keys, n - 1)->0->Ok_0;
        lemma_key_columns(ds, keys, n - 1, before);
        assert forall|k: int| 0 <= k < n implies is_column_of(
            ds,
            keys[k].var_name,
            #[trigger] by[k],
        ) by {
            if k < n - 1 {
                assert(by[k] == before[k]);
            }
        }
    }
}

/// Where the columns make a batch the keys are of numbers and texts.
proof fn lemma_sortable(
    ds: DatasetView,
    keys: Seq<SortKeyView>,
    by: Seq<ColumnView>,
    all: Seq<ColumnView>,
)
    requires
        ds.wf(),
        key_columns(ds, keys, keys.len() as int) == Some(Ok::<Seq<ColumnView>, Seq<char>>(by)),
        rows::all_columns(ds, ds.variables.len() as int) == Some(Ok::<Seq<ColumnView>, Seq<char>>(all)),
        batch::batch_of(dataset::fields_for(ds.variables), all) is Ok,
    ensures
        by.len() == keys.len(),
        forall|k: int|
            0 <= k < by.len() ==> (#[trigger] by[k]).kind is Float64 || by[k].kind is Utf8,
{
    lemma_key_columns(ds, keys, keys.len() as int, by);
    rows::lemma_all_columns(ds, ds.variables.len() as int);
    let fields = dataset::fields_for(ds.variables);
    batch::lemma_kind_mismatch(fields, all, 0);
    assert forall|k: int| 0 <= k < by.len() implies (#[trigger] by[k]).kind is Float64
        || by[k].kind is Utf8 by {
        assert(is_column_of(ds, keys[k].var_name, by[k]));
        let idx = ds.index_of(keys[k].var_name)->0 as int;
        assert(by[k] == all[idx]);
        assert(all[idx].kind == fields[idx].kind);
    }
}

/// Columns in another order make a batch where they did before.
proof fn lemma_reordered_batch(vars: Seq<VariableView>, all: Seq<ColumnView>, order: Seq<u32>)
    requires
        batch::batch_of(dataset::fields_for(vars), all) is Ok,
    ensures
        rows::table_of(vars, all_reordered(all, order)) is Ok,
{
    let fields = dataset::fields_for(vars);
    let moved = all_reordered(all, order);
    batch::lemma_kind_mismatch(fields, all, 0);
    batch::lemma_kind_mismatch(fields, moved, 0);
    assert forall|i: int| 0 <= i < moved.len() implies (#[trigger] moved[i]).kind
        == fields[i].kind by {
        assert(all[i].kind == fields[i].kind);
    }
}

/// Puts the columns in the order of the keys.
fn sort_columns(by: &Vec<Column>, all: &Vec<Column>, keys: &[SortKey], Ghost(n): Ghost<nat>) -> (r:
    (Vec<Column>, Ghost<Seq<u32>>))
    requires
        by@.len() == keys@.len(),
        by@.len() > 0,
        n <= u32::MAX,
        forall|k: int|
            0 <= k < by@.len() ==> (#[trigger] by@[k])@.cells.len() == n && (by@[k]@.kind is Float64
                || by@[k]@.kind is Utf8) && (by@[k]@.kind is Utf8 ==> cell_bytes(by@[k]@.cells)
                <= i32::MAX),
        forall|k: int| 0 <= k < all@.len() ==> (#[trigger] all@[k])@.cells.len() == n,
    ensures
        sorts(text::views(by@), text::views(keys@), n, r.1@),
        text::views(r.0@) == all_reordered(text::views(all@), r.1@),
{
    let ghost bv = text::views(by@);
    let ghost kv = text::views(keys@);
    let mut slots: Vec<SortSlot> = Vec::new();
    let mut i: usize = 0;
    while i < by.len()
        invariant
            i <= by.len(),
            by@.len() == keys@.len(),
            bv == text::views(by@),
            kv == text::views(keys@),
            slots@.len() == i,
            forall|k: int|
                0 <= k < by@.len() ==> (#[trigger] by@[k])@.cells.len() == n && (
                by@[k]@.kind is Float64 || by@[k]@.kind is Utf8) && (by@[k]@.kind is Utf8
                    ==> cell_bytes(by@[k]@.cells) <= i32::MAX),
            forall|k: int|
                0 <= k < i ==> (#[trigger] slots@[k]).count() == n && slots@[k].bytes() <= i32::MAX,
            forall|m: int, x: int, y: int|
                0 <= m < i && 0 <= x < n && 0 <= y < n ==> #[trigger] slots@[m].before(x, y)
                    == before_by(bv[m], kv[m].order, x, y),
        decreases by.len() - i,
    {
        proof {
            assert(by@[i as int]@.cells.len() == n);
        }
        let slot = make_slot(&by[i], keys[i].order);
        slots.push(slot);
        i = i + 1;
    }
    let order = match sort_rows(&slots) {
        Ok(order) => order,
        Err(_) => Vec::new(),
    };
    proof {
        assert(slots@[0].count() == n);
        assert forall|a: int, b: int| 0 <= a < b < n implies !#[trigger] row_before(
            bv,
            kv,
            0,
            order@[b] as int,
            order@[a] as int,
        ) by {
            lemma_same_order(slots@, bv, kv, 0, n, order@[b] as int, order@[a] as int);
            assert(!slots_before(slots@, 0, order@[b] as int, order@[a] as int));
        }
    }
    let ghost av = text::views(all@);
    let mut out: Vec<Column> = Vec::new();
    let mut i: usize = 0;
    while i < all.len()
        invariant
            i <= all.len(),
            av == text::views(all@),
            permutes(order@, n),
            forall|k: int| 0 <= k < all@.len() ==> (#[trigger] all@[k])@.cells.len() == n,
            text::views(out@) =~= all_reordered(av, order@).take(i as int),
        decreases all.len() - i,
    {
        proof {
            assert(all@[i as int]@.cells.len() == n);
        }
        out.push(reorder(&all[i], &order));
        i = i + 1;
    }
    proof {
        assert(all_reordered(av, order@).take(av.len() as int) =~= all_reordered(av, order@));
    }
    (out, Ghost(order@))
}

/// What a sort gives.
pub open spec fn sort_gives(
    r: Result<Dataset, String>,
    ds: DatasetView,
    keys: Seq<SortKeyView>,
) -> bool {
    if ds.batches.len() == 0 {
        rows::gives(r, Ok(rows::nothing()))
    } else {
        match sort_input(ds, keys) {
            Some(Ok((by, all))) => r matches Ok(out) && is_sorted_form(
                ds,
                keys,
                by,
                all,
                out@,
            ) && out@.wf(),
            Some(Err(e)) => r matches Err(x) && x@ == e,
            None => false,
        }
    }
}

/// A sort that can be done: the outcome is defined, and the rows can be numbered
/// with 32 bits.
pub open spec fn can_sort(ds: DatasetView, keys: Seq<SortKeyView>) -> bool {
    ds.batches.len() == 0 || sort_input(ds, keys) is Some && ds.n_cases() <= u32::MAX
}

/// SORT CASES: puts the rows in the order of the keys.
pub fn sort_cases(dataset: &Dataset, keys: &[SortKey]) -> (r: Result<Dataset, String>)
    requires
        dataset@.wf(),
        can_sort(dataset@, text::views(keys@)),
    ensures
        sort_gives(r, dataset@, text::views(keys@)),
{
    if dataset.batches.len() == 0 {
        return Ok(Dataset::new());
    }
    let ghost ds = dataset@;
    let ghost kv = text::views(keys@);
    let by = match collect_keys(dataset, keys) {
        Some(Ok(by)) => by,
        Some(Err(e)) => {
            return Err(e);
        },
        None => {
            return Err(String::new());
        },
    };
    if keys.len() == 0 {
        return Err("Invalid argument error: Sort requires at least one column".to_owned());
    }
    let all = match collect_all(dataset) {
        Some(Ok(all)) => all,
        Some(Err(e)) => {
            return Err(e);
        },
        None => {
            return Err(String::new());
        },
    };
    let ghost bv = text::views(by@);
    let ghost av = text::views(all@);
    if let Err(e) = make_table(copy_variables(&dataset.variables), copy_columns(&all)) {
        return Err(e);
    }
    proof {
        lemma_sortable(ds, kv, bv, av);
        assert forall|k: int| 0 <= k < by@.len() implies (#[trigger] by@[k])@.cells.len()
            == ds.n_cases() && (by@[k]@.kind is Float64 || by@[k]@.kind is Utf8) && (
        by@[k]@.kind is Utf8 ==> cell_bytes(by@[k]@.cells) <= i32::MAX) by {
            assert(bv[k].kind is Float64 || bv[k].kind is Utf8);
        }
    }
    let (sorted, order) = sort_columns(&by, &all, keys, Ghost(ds.n_cases()));
    let out = make_table(copy_variables(&dataset.variables), sorted);
    proof {
        lemma_reordered_batch(ds.variables, av, order@);
        assert(sorts(bv, kv, ds.n_cases(), order@));
    }
    out
}

/// SORT CASES, where it can be done.
pub fn try_sort_cases(dataset: &Dataset, keys: &[SortKey]) -> (r: Option<
    Result<Dataset, String>,
>)
    requires
        dataset@.wf(),
    ensures
        match r {
            Some(x) => can_sort(dataset@, text::views(keys@)) && sort_gives(
                x,
                dataset@,
                text::views(keys@),
            ),
            None => !can_sort(dataset@, text::views(keys@)),
        },
{
    if dataset.batches.len() > 0 {
        if !few_cases(dataset) {
            return None;
        }
        match collect_keys(dataset, keys) {
            None => {
                return None;
            },
            Some(Ok(_)) => {
                if keys.len() > 0 && collect_all(dataset).is_none() {
                    return None;
                }
            },
            Some(Err(_)) => {},
        }
    }
    Some(sort_cases(dataset, keys))
}

/// Whether the rows can be numbered with 32 bits.
fn few_cases(dataset: &Dataset) -> (r: bool)
    ensures
        r == (dataset@.n_cases() <= u32::MAX),
{
    let ghost bv = dataset@.batches;
    let mut n: u64 = 0;
    let mut i: usize = 0;
    proof {
        assert(bv.take(0) =~= Seq::empty());
    }
    while i < dataset.batches.len()
        invariant
            i <= dataset.batches.len(),
            bv == dataset@.batches,
            n <= u32::MAX,
            n == dataset::rows_in(bv.take(i as int)),
        decreases dataset.batches.len() - i,
    {
        proof {
            dataset::lemma_rows_split(bv, i as int);
            dataset::lemma_rows_split(bv, i + 1);
        }
        let rows = dataset.batches[i].num_rows as u64;
        if rows > 0xFFFF_FFFF || n + rows > 0xFFFF_FFFF {
            return false;
        }
        n = n + rows;
        i = i + 1;
    }
    proof {
        assert(bv.take(bv.len() as int) =~= bv);
    }
    true
}

} // verus!
