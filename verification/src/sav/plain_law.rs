//! Data that is not compressed is read as it stands in the file.
use vstd::prelude::*;
use vstd::utf8::decode_utf8;

use crate::arith::NumOp;
use crate::batch;
use crate::batch::{BatchView, CellView};
use crate::dataset;
use crate::dataset::DatasetView;
use crate::number;
use crate::number::Number;
use crate::sav::bytes;
use crate::sav::bytes::SavError;
use crate::sav::reader;
use crate::sav::reader::{RecordView, RowView, SavHeader, StreamView};
use crate::sav::roundtrip;
use crate::sav::row_law;
use crate::sav::writer;
use crate::text;
use crate::text_law;
use crate::value::ValueView;
use crate::variable::VariableType;

verus! {

/// The blocks of a text from the `from`th on, each of eight bytes.
pub open spec fn raw_blocks(t: Seq<char>, w: u32, from: int) -> Seq<u8>
    decreases reader::blocks_of(w) - from,
{
    if from >= reader::blocks_of(w) {
        Seq::empty()
    } else {
        writer::block_bytes(t, w, from) + raw_blocks(t, w, from + 1)
    }
}

/// A cell as it stands in data that is not compressed: a number by its eight bytes,
/// a null one by those of a NaN, and a text in blocks of eight bytes.
pub open spec fn raw_cell(t: VariableType, cell: CellView) -> Seq<u8> {
    match t {
        VariableType::Numeric => bytes::le8(
            match cell {
                CellView::Number(n) => n,
                _ => number::quiet_nan(),
            },
        ),
        VariableType::String(w) => raw_blocks(row_law::cell_text(t, cell), w, 0),
    }
}

/// The first `n` cells of a row.
pub open spec fn raw_row(ds: DatasetView, b: int, r: int, n: int) -> Seq<u8>
    decreases n,
{
    if n <= 0 {
        Seq::empty()
    } else {
        raw_row(ds, b, r, n - 1) + raw_cell(
            ds.variables[n - 1].var_type,
            ds.batches[b].columns[n - 1].cells[r],
        )
    }
}

/// The first `n` rows of a batch.
pub open spec fn raw_batch(ds: DatasetView, b: int, n: int) -> Seq<u8>
    decreases n,
{
    if n <= 0 {
        Seq::empty()
    } else {
        raw_batch(ds, b, n - 1) + raw_row(ds, b, n - 1, ds.variables.len() as int)
    }
}

/// The first `n` batches.
pub open spec fn raw_cases(ds: DatasetView, n: int) -> Seq<u8>
    decreases n,
{
    if n <= 0 {
        Seq::empty()
    } else {
        raw_cases(ds, n - 1) + raw_batch(ds, n - 1, ds.batches[n - 1].num_rows as int)
    }
}

/// The value of a cell as it comes back: the same number, missing for a NaN or a
/// null, and a text without white space at its end.
pub open spec fn plain_value(t: VariableType, cell: CellView) -> ValueView {
    match t {
        VariableType::Numeric => match cell {
            CellView::Number(n) => if n.nan() {
                ValueView::SystemMissing
            } else {
                ValueView::Numeric(n)
            },
            _ => ValueView::SystemMissing,
        },
        VariableType::String(w) => ValueView::String(
            row_law::stored_text(row_law::cell_text(t, cell), w),
        ),
    }
}

proof fn lemma_continuations<F: Fn(NumOp) -> Number>(
    s: Seq<u8>,
    h: SavHeader,
    records: Seq<RecordView>,
    k: int,
    st: RowView,
    t: Seq<char>,
    w: u32,
    j: int,
    calc: F,
) -> (after: RowView)
    requires
        writer::divisible(t, w),
        h.compression != 1,
        0 <= k,
        1 <= j < reader::blocks_of(w),
        k + reader::blocks_of(w) - j <= records.len(),
        forall|i: int|
            k <= i < k + reader::blocks_of(w) - j ==> (#[trigger] records[i]).is_continuation,
        st.open == reader::blocks_of(w) - j,
        st.text == decode_utf8(row_law::whole(t, w).take(8 * j)),
        bytes::holds_at(s, st.stream.pos, raw_blocks(t, w, j)),
    ensures
        reader::row_at(s, h, records, k, st, calc) == reader::row_at(
            s,
            h,
            records,
            k + reader::blocks_of(w) - j,
            after,
            calc,
        ),
        after.row == st.row.push(ValueView::String(row_law::stored_text(t, w))),
        after.open == 0,
        after.stream.pos == st.stream.pos + raw_blocks(t, w, j).len(),
    decreases reader::blocks_of(w) - j,
{
    let n = reader::blocks_of(w);
    let block = writer::block_bytes(t, w, j);
    row_law::lemma_block_text(t, w, j);
    bytes::lemma_holds_split(s, st.stream.pos, block, raw_blocks(t, w, j + 1));
    assert(records[k].is_continuation);
    assert(s.subrange(st.stream.pos, st.stream.pos + 8) == block);
    let next = reader::row_step(s, h, records[k], st, calc)->0;
    let e = row_law::block_end(w, j);
    if j + 1 == n {
        assert(raw_blocks(t, w, j + 1) =~= Seq::empty());
        assert(row_law::whole(t, w).take(e) =~= row_law::whole(t, w)) by {
            row_law::lemma_whole(t, w);
        }
        let pad = text_law::blanks((8 * j + 8 - e) as nat);
        text_law::lemma_blanks((8 * j + 8 - e) as nat);
        text_law::law_trim_end_ignores_padding(decode_utf8(row_law::whole(t, w)), pad);
        next
    } else {
        assert(e == 8 * (j + 1));
        assert(text_law::blanks(0) =~= Seq::empty());
        assert(decode_utf8(row_law::whole(t, w).take(e)) + text_law::blanks(0) =~= decode_utf8(
            row_law::whole(t, w).take(e),
        ));
        lemma_continuations(s, h, records, k + 1, next, t, w, j + 1, calc)
    }
}

/// The value of a variable is read where it stands.
proof fn lemma_cell<F: Fn(NumOp) -> Number>(
    s: Seq<u8>,
    h: SavHeader,
    records: Seq<RecordView>,
    k: int,
    st: RowView,
    t: VariableType,
    cell: CellView,
    calc: F,
) -> (after: RowView)
    requires
        h.compression != 1,
        0 <= k,
        k + 1 + writer::continuations(t) <= records.len(),
        records[k].var_type == t,
        !records[k].is_continuation,
        forall|i: int|
            k < i < k + 1 + writer::continuations(t) ==> (#[trigger] records[i]).is_continuation,
        t matches VariableType::String(w) ==> w >= 1 && writer::divisible(
            row_law::cell_text(t, cell),
            w,
        ),
        bytes::holds_at(s, st.stream.pos, raw_cell(t, cell)),
        st.open == 0,
    ensures
        reader::row_at(s, h, records, k, st, calc) == reader::row_at(
            s,
            h,
            records,
            k + 1 + writer::continuations(t),
            after,
            calc,
        ),
        after.row == st.row.push(plain_value(t, cell)),
        after.open == 0,
        after.stream.pos == st.stream.pos + raw_cell(t, cell).len(),
{
    match t {
        VariableType::Numeric => {
            let n = match cell {
                CellView::Number(n) => n,
                _ => number::quiet_nan(),
            };
            bytes::law_double_read_back(s, st.stream.pos, n);
            assert(raw_cell(t, cell) == bytes::le8(n));
            assert(bytes::le8(n).len() == 8);
            assert(number::quiet_nan().nan());
            reader::row_step(s, h, records[k], st, calc)->0
        },
        VariableType::String(w) => {
            let txt = row_law::cell_text(t, cell);
            let n = reader::blocks_of(w);
            let block = writer::block_bytes(txt, w, 0);
            row_law::lemma_block_text(txt, w, 0);
            bytes::lemma_holds_split(s, st.stream.pos, block, raw_blocks(txt, w, 1));
            assert(s.subrange(st.stream.pos, st.stream.pos + 8) == block);
            let next = reader::row_step(s, h, records[k], st, calc)->0;
            let e = row_law::block_end(w, 0);
            assert(row_law::whole(txt, w).take(0) =~= Seq::empty());
            assert(decode_utf8(Seq::empty()) =~= Seq::<char>::empty());
            let block_text = text::lossy_text(block);
            assert(decode_utf8(row_law::whole(txt, w).take(0)) + block_text =~= block_text);
            if n > 1 {
                assert(writer::continuations(t) == n - 1);
                assert(text_law::blanks(0) =~= Seq::empty());
                assert(block_text =~= decode_utf8(row_law::whole(txt, w).take(8)));
                lemma_continuations(s, h, records, k + 1, next, txt, w, 1, calc)
            } else {
                assert(raw_blocks(txt, w, 1) =~= Seq::empty());
                assert(row_law::whole(txt, w).take(e) =~= row_law::whole(txt, w)) by {
                    row_law::lemma_whole(txt, w);
                }
                let pad = text_law::blanks((8 - e) as nat);
                text_law::lemma_blanks((8 - e) as nat);
                text_law::law_trim_end_ignores_padding(
                    decode_utf8(row_law::whole(txt, w)),
                    pad,
                );
                next
            }
        },
    }
}

/// The values of the first `n` variables in a row.
spec fn plain_row(ds: DatasetView, b: int, r: int, n: int) -> Seq<ValueView> {
    Seq::new(
        n as nat,
        |i: int| plain_value(ds.variables[i].var_type, ds.batches[b].columns[i].cells[r]),
    )
}

proof fn lemma_row<F: Fn(NumOp) -> Number>(
    s: Seq<u8>,
    h: SavHeader,
    records: Seq<RecordView>,
    ds: DatasetView,
    b: int,
    r: int,
    n: int,
    start: StreamView,
    calc: F,
) -> (after: RowView)
    requires
        h.compression != 1,
        roundtrip::holdable(ds),
        roundtrip::laid_out(records, ds.variables, ds.variables.len() as int),
        0 <= b < ds.batches.len(),
        0 <= r < ds.batches[b].num_rows,
        0 <= n <= ds.variables.len(),
        bytes::holds_at(s, start.pos, raw_row(ds, b, r, n)),
    ensures
        reader::row_at(s, h, records, 0, reader::row_from(start), calc) == reader::row_at(
            s,
            h,
            records,
            writer::record_count(ds.variables, n),
            after,
            calc,
        ),
        after.row == plain_row(ds, b, r, n),
        after.open == 0,
        after.stream.pos == start.pos + raw_row(ds, b, r, n).len(),
    decreases n,
{
    if n == 0 {
        assert(plain_row(ds, b, r, 0) =~= Seq::empty());
        reader::row_from(start)
    } else {
        let vars = ds.variables;
        let t = vars[n - 1].var_type;
        let cell = ds.batches[b].columns[n - 1].cells[r];
        let before = raw_row(ds, b, r, n - 1);
        bytes::lemma_holds_split(s, start.pos, before, raw_cell(t, cell));
        let st = lemma_row(s, h, records, ds, b, r, n - 1, start, calc);
        let k = writer::record_count(vars, n - 1);
        roundtrip::lemma_record_count(vars, n - 1, vars.len() as int);
        roundtrip::lemma_record_count(vars, n - 1, n);
        assert(roundtrip::variable_at(records, vars, n - 1));
        assert(writer::writable(ds, b, r, n - 1));
        assert(crate::sav::dictionary_law::storable_variable(vars[n - 1]));
        let after = lemma_cell(s, h, records, k, st, t, cell, calc);
        assert(plain_row(ds, b, r, n) =~= plain_row(ds, b, r, n - 1).push(plain_value(t, cell)));
        after
    }
}

/// The entries of a variable in a batch, as they come back.
pub open spec fn plain_batch(ds: DatasetView, i: int, b: int, n: int) -> Seq<CellView> {
    Seq::new(
        n as nat,
        |r: int|
            reader::cell_of(
                plain_value(ds.variables[i].var_type, ds.batches[b].columns[i].cells[r]),
            ),
    )
}

/// The entries of a variable in the first `n` batches, as they come back.
pub open spec fn plain_column(ds: DatasetView, i: int, n: int) -> Seq<CellView>
    decreases n,
{
    if n <= 0 {
        Seq::empty()
    } else {
        plain_column(ds, i, n - 1) + plain_batch(ds, i, n - 1, ds.batches[n - 1].num_rows as int)
    }
}

spec fn columns_upto(ds: DatasetView, b: int, r: int) -> Seq<Seq<CellView>> {
    Seq::new(ds.variables.len(), |i: int| plain_column(ds, i, b) + plain_batch(ds, i, b, r))
}

proof fn lemma_row_added(ds: DatasetView, b: int, r: int, row: Seq<ValueView>)
    requires
        r > 0,
        row == plain_row(ds, b, r - 1, ds.variables.len() as int),
    ensures
        reader::row_suits(roundtrip::found_variables(ds.variables), row),
        reader::with_row(columns_upto(ds, b, r - 1), row) == columns_upto(ds, b, r),
{
    let was = columns_upto(ds, b, r - 1);
    let now = columns_upto(ds, b, r);
    assert forall|i: int| 0 <= i < now.len() implies reader::with_row(was, row)[i] == now[i] by {
        assert(was[i].push(reader::cell_of(row[i])) =~= now[i]);
    }
    assert(reader::with_row(was, row) =~= now);
}

proof fn lemma_batch_added(ds: DatasetView, b: int)
    requires
        0 < b <= ds.batches.len(),
    ensures
        columns_upto(ds, b - 1, ds.batches[b - 1].num_rows as int) == columns_upto(ds, b, 0),
{
    let was = columns_upto(ds, b - 1, ds.batches[b - 1].num_rows as int);
    let now = columns_upto(ds, b, 0);
    assert forall|i: int| 0 <= i < now.len() implies was[i] == now[i] by {
        assert(plain_column(ds, i, b) + plain_batch(ds, i, b, 0) =~= plain_column(ds, i, b));
    }
    assert(was =~= now);
}

proof fn lemma_cases<F: Fn(NumOp) -> Number>(
    s: Seq<u8>,
    h: SavHeader,
    records: Seq<RecordView>,
    ds: DatasetView,
    b: int,
    r: int,
    count: int,
    start: StreamView,
    calc: F,
) -> (after: StreamView)
    requires
        h.compression != 1,
        roundtrip::holdable(ds),
        roundtrip::laid_out(records, ds.variables, ds.variables.len() as int),
        0 <= b <= ds.batches.len(),
        0 <= r,
        count == ds.n_cases() || count < 0,
        r > 0 ==> b < ds.batches.len() && r <= ds.batches[b].num_rows,
        bytes::holds_at(s, start.pos, raw_cases(ds, b) + raw_batch(ds, b, r)),
    ensures
        reader::cases_at(
            s,
            h,
            records,
            roundtrip::found_variables(ds.variables),
            start,
            reader::no_cells(ds.variables.len()),
            count,
            calc,
        ) == reader::cases_at(
            s,
            h,
            records,
            roundtrip::found_variables(ds.variables),
            after,
            columns_upto(ds, b, r),
            count - (dataset::rows_in(ds.batches.take(b)) + r),
            calc,
        ),
        after.pos == start.pos + (raw_cases(ds, b) + raw_batch(ds, b, r)).len(),
    decreases b, r,
{
    let n = ds.variables.len() as int;
    if r > 0 {
        let row = raw_row(ds, b, r - 1, n);
        let before = raw_cases(ds, b) + raw_batch(ds, b, r - 1);
        assert(raw_cases(ds, b) + raw_batch(ds, b, r) =~= before + row);
        bytes::lemma_holds_split(s, start.pos, before, row);
        let st = lemma_cases(s, h, records, ds, b, r - 1, count, start, calc);
        let left = count - (dataset::rows_in(ds.batches.take(b)) + (r - 1));
        assert(left != 0) by {
            dataset::lemma_rows_split(ds.batches, b);
            dataset::lemma_rows_split(ds.batches, b + 1);
        }
        let done = lemma_row(s, h, records, ds, b, r - 1, n, st, calc);
        assert(reader::row_at(s, h, records, 0, reader::row_from(st), calc) == Some(done));
        roundtrip::lemma_first_is_primary(records, ds.variables);
        lemma_row_added(ds, b, r, done.row);
        done.stream
    } else if b > 0 {
        let rows = ds.batches[b - 1].num_rows as int;
        assert(raw_cases(ds, b) + raw_batch(ds, b, 0) =~= raw_cases(ds, b - 1) + raw_batch(
            ds,
            b - 1,
            rows,
        ));
        let st = lemma_cases(s, h, records, ds, b - 1, rows, count, start, calc);
        dataset::lemma_rows_split(ds.batches, b - 1);
        lemma_batch_added(ds, b);
        st
    } else {
        let now = columns_upto(ds, 0, 0);
        assert(now =~= reader::no_cells(ds.variables.len())) by {
            assert forall|i: int| 0 <= i < n implies now[i] == Seq::<CellView>::empty() by {
                assert(now[i] =~= Seq::<CellView>::empty());
            }
        }
        assert(ds.batches.take(0) =~= Seq::empty());
        start
    }
}

proof fn lemma_column_length(ds: DatasetView, i: int, n: int)
    requires
        0 <= n <= ds.batches.len(),
    ensures
        plain_column(ds, i, n).len() == dataset::rows_in(ds.batches.take(n)),
    decreases n,
{
    if n > 0 {
        lemma_column_length(ds, i, n - 1);
        dataset::lemma_rows_split(ds.batches, n - 1);
    } else {
        assert(ds.batches.take(0) =~= Seq::empty());
    }
}

/// The columns of all variables, as they come back.
pub open spec fn plain_columns(ds: DatasetView) -> Seq<Seq<CellView>> {
    Seq::new(ds.variables.len(), |i: int| plain_column(ds, i, ds.batches.len() as int))
}

/// A file that is not compressed is read: behind its header stand the dictionary and
/// the cells, each by its eight bytes or in blocks of eight, and the columns hold
/// those cells. The header says how many cases there are, or by a negative number
/// that they go on to the end of the file.
pub proof fn law_plain_file<F: Fn(NumOp) -> Number>(
    s: Seq<u8>,
    h: SavHeader,
    ds: DatasetView,
    calc: F,
)
    requires
        roundtrip::holdable(ds),
        reader::header_at(s) == Ok::<_, SavError>(h),
        h.compression != 1,
        bytes::holds_at(s, 176, roundtrip::dictionary_bytes(ds.variables)),
        bytes::holds_at(
            s,
            176 + roundtrip::dictionary_bytes(ds.variables).len() as int,
            raw_cases(ds, ds.batches.len() as int),
        ),
        h.ncases == ds.n_cases() || (h.ncases < 0 && s.len() == 176 + roundtrip::dictionary_bytes(
            ds.variables,
        ).len() + raw_cases(ds, ds.batches.len() as int).len()),
    ensures
        reader::sav_dataset(s, calc) == Ok::<DatasetView, SavError>(
            dataset::dataset_of(
                roundtrip::found_variables(ds.variables),
                seq![
                    BatchView {
                        fields: dataset::fields_for(roundtrip::found_variables(ds.variables)),
                        columns: reader::columns_for(
                            roundtrip::found_variables(ds.variables),
                            plain_columns(ds),
                        ),
                        num_rows: ds.n_cases() as usize,
                    },
                ],
            ),
        ),
{
    let vars = roundtrip::found_variables(ds.variables);
    let d = roundtrip::stored_dictionary(ds.variables);
    let at = 176 + roundtrip::dictionary_bytes(ds.variables).len() as int;
    let nb = ds.batches.len() as int;
    roundtrip::lemma_dictionary_read(s, ds);
    roundtrip::lemma_dictionary_variables(ds);
    roundtrip::lemma_labelled_layout(ds.variables, ds.variables.len() as int);
    assert(raw_cases(ds, nb) + raw_batch(ds, nb, 0) =~= raw_cases(ds, nb));
    let count: int = if h.ncases >= 0 {
        h.ncases as int
    } else {
        -1
    };
    let end = lemma_cases(s, h, d.records, ds, nb, 0, count, reader::stream_from(at), calc);
    assert(ds.batches.take(nb) =~= ds.batches);
    if count < 0 {
        roundtrip::lemma_first_is_primary(d.records, ds.variables);
        assert(roundtrip::variable_at(d.records, ds.variables, 0));
        roundtrip::lemma_record_count(ds.variables, 0, ds.variables.len() as int);
        assert(reader::row_step(s, h, d.records[0], reader::row_from(end), calc) is None);
        assert(reader::row_at(s, h, d.records, 0, reader::row_from(end), calc) is None);
    }
    let cells = plain_columns(ds);
    assert(columns_upto(ds, nb, 0) =~= cells) by {
        assert forall|i: int| 0 <= i < cells.len() implies columns_upto(ds, nb, 0)[i]
            == cells[i] by {
            assert(plain_column(ds, i, nb) + plain_batch(ds, i, nb, 0) =~= plain_column(
                ds,
                i,
                nb,
            ));
        }
    }
    assert(reader::sav_dataset(s, calc) == reader::table_of(vars, cells));
    let columns = reader::columns_for(vars, cells);
    lemma_column_length(ds, 0, nb);
    assert forall|i: int| 0 <= i < columns.len() implies (#[trigger] columns[i]).cells.len()
        == cells[0].len() by {
        lemma_column_length(ds, i, nb);
    }
    assert(batch::same_lengths(columns, cells[0].len()));
}

/// A number in a file that is not compressed is read as that number, unless it is a
/// NaN, which is read as missing.
pub proof fn law_plain_number<F: Fn(NumOp) -> Number>(
    s: Seq<u8>,
    h: SavHeader,
    ds: DatasetView,
    b: int,
    r: int,
    i: int,
    calc: F,
)
    requires
        roundtrip::holdable(ds),
        reader::header_at(s) == Ok::<_, SavError>(h),
        h.compression != 1,
        bytes::holds_at(s, 176, roundtrip::dictionary_bytes(ds.variables)),
        bytes::holds_at(
            s,
            176 + roundtrip::dictionary_bytes(ds.variables).len() as int,
            raw_cases(ds, ds.batches.len() as int),
        ),
        h.ncases == ds.n_cases() || (h.ncases < 0 && s.len() == 176 + roundtrip::dictionary_bytes(
            ds.variables,
        ).len() + raw_cases(ds, ds.batches.len() as int).len()),
        0 <= b < ds.batches.len(),
        0 <= r < ds.batches[b].num_rows,
        0 <= i < ds.variables.len(),
    ensures
        reader::sav_dataset(s, calc) matches Ok(loaded) && {
            let at = dataset::rows_in(ds.batches.take(b)) + r;
            let found = loaded.batches[0].columns[i].cells[at];
            let cell = ds.batches[b].columns[i].cells[r];
            &&& loaded.batches[0].num_rows == ds.n_cases()
            &&& ds.variables[i].var_type is Numeric ==> {
                &&& cell matches CellView::Number(n) ==> (n.nan() ==> found is Null) && (!n.nan()
                    ==> found == CellView::Number(n))
                &&& cell is Null ==> found is Null
            }
            &&& ds.variables[i].var_type matches VariableType::String(w) ==> {
                &&& cell matches CellView::Text(t) ==> (text::byte_len(t) <= w ==> found
                    == CellView::Text(text::trimmed_end(t)))
                &&& cell is Null ==> found == CellView::Text(Seq::empty())
            }
        },
{
    law_plain_file(s, h, ds, calc);
    let nb = ds.batches.len() as int;
    lemma_cell_place(ds, i, b, r, nb);
    let t = ds.variables[i].var_type;
    let cell = ds.batches[b].columns[i].cells[r];
    match (t, cell) {
        (VariableType::String(w), CellView::Text(x)) => {
            if text::byte_len(x) <= w {
                crate::sav::file_law::law_fitting_text_returns(x, w);
            }
        },
        (VariableType::String(w), CellView::Null) => {
            crate::sav::file_law::law_fitting_text_returns(Seq::empty(), w);
            assert(text::trimmed_end(Seq::empty()) == Seq::<char>::empty());
        },
        _ => {},
    }
}

proof fn lemma_cell_place(ds: DatasetView, i: int, b: int, r: int, n: int)
    requires
        0 <= b < n <= ds.batches.len(),
        0 <= r < ds.batches[b].num_rows,
    ensures
        plain_column(ds, i, n)[dataset::rows_in(ds.batches.take(b)) + r] == reader::cell_of(
            plain_value(ds.variables[i].var_type, ds.batches[b].columns[i].cells[r]),
        ),
        dataset::rows_in(ds.batches.take(b)) + r < plain_column(ds, i, n).len(),
    decreases n,
{
    lemma_column_length(ds, i, n - 1);
    lemma_column_length(ds, i, n);
    dataset::lemma_rows_split(ds.batches, n - 1);
    if b < n - 1 {
        lemma_cell_place(ds, i, b, r, n - 1);
    }
}

/// Integers and doubles stand in a file with their lowest byte first.
pub proof fn law_lowest_byte_first(n: int, d: Number)
    requires
        i32::MIN <= n <= i32::MAX,
    ensures
        bytes::le4(n).len() == 4,
        bytes::le8(d).len() == 8,
        ({
            let b = bytes::le4(n);
            n == b[0] + 256 * b[1] + 0x1_0000 * b[2] + 0x100_0000 * (if b[3] < 128 {
                b[3] as int
            } else {
                b[3] - 256
            })
        }),
        ({
            let b = bytes::le8(d);
            d.bits == b[0] + 256 * b[1] + 0x1_0000 * b[2] + 0x100_0000 * b[3] + 0x1_0000_0000 * (b[4]
                + 256 * b[5] + 0x1_0000 * b[6] + 0x100_0000 * b[7])
        }),
{
    let b = bytes::le4(n);
    assert(b.subrange(0, 4) =~= b);
    bytes::law_integer_read_back(b, 0, n);
    let c = bytes::le8(d);
    assert(c.subrange(0, 8) =~= c);
    bytes::law_double_read_back(c, 0, d);
}

/// The fields of a header: behind the mark a layout code of two, then the
/// compression, the number of cases and the bias, each with its lowest byte first.
pub proof fn law_header_fields(s: Seq<u8>, h: SavHeader)
    requires
        reader::header_at(s) == Ok::<_, SavError>(h),
    ensures
        s.len() >= 176,
        s[64] == 2 && s[65] == 0 && s[66] == 0 && s[67] == 0,
        h.compression == s[72] + 256 * s[73] + 0x1_0000 * s[74] + 0x100_0000 * (if s[75] < 128 {
            s[75] as int
        } else {
            s[75] - 256
        }),
        h.ncases == s[80] + 256 * s[81] + 0x1_0000 * s[82] + 0x100_0000 * (if s[83] < 128 {
            s[83] as int
        } else {
            s[83] - 256
        }),
        h.bias.bits == s[84] + 256 * s[85] + 0x1_0000 * s[86] + 0x100_0000 * s[87] + 0x1_0000_0000 * (
        s[88] + 256 * s[89] + 0x1_0000 * s[90] + 0x100_0000 * s[91]),
{
    assert(bytes::i32_at(s, 64) == 2);
}

} // verus!
