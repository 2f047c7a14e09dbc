//! What a file gives back of each cell, and what is left of a file that is cut.
use vstd::prelude::*;
use vstd::utf8::{encode_utf8, encode_utf8_decode_utf8};

use crate::arith;
use crate::arith::NumOp;
use crate::batch;
use crate::batch::{BatchView, CellView, ColumnView};
use crate::dataset;
use crate::dataset::DatasetView;
use crate::number;
use crate::number::Number;
use crate::sav::bytes;
use crate::sav::bytes::SavError;
use crate::sav::data_law;
use crate::sav::dictionary_law;
use crate::sav::reader;
use crate::sav::reader::{RecordView, RowView, SavHeader, StreamView};
use crate::sav::roundtrip;
use crate::sav::row_law;
use crate::sav::writer;
use crate::text;
use crate::text_law;
use crate::variable::{VariableType, VariableView};

verus! {

/// A text that fits in its width comes back without the white space at its end.
pub proof fn law_fitting_text_returns(t: Seq<char>, width: u32)
    requires
        text::byte_len(t) <= width,
    ensures
        row_law::stored_text(t, width) == text::trimmed_end(t),
{
    let b = encode_utf8(t);
    let pad = (width - b.len()) as nat;
    text_law::lemma_blanks(pad);
    text_law::law_encode_concat(t, text_law::blanks(pad));
    assert(bytes::run_of(32, pad) =~= encode_utf8(text_law::blanks(pad)));
    assert(writer::fitted(b, width as int) =~= encode_utf8(t + text_law::blanks(pad)));
    encode_utf8_decode_utf8(t + text_law::blanks(pad));
    text_law::law_trim_end_ignores_padding(t, text_law::blanks(pad));
}

/// `found` is what comes back of a cell: null for a number that is null, the same
/// number where no command stands for it, and otherwise one that differs by less
/// than the tolerance, as subtraction gives the difference; a text that fits in its
/// width without the white space at its end, and the empty text for a null one.
pub open spec fn gives_back<F: Fn(NumOp) -> Number>(
    t: VariableType,
    cell: CellView,
    found: CellView,
    calc: F,
) -> bool {
    match (t, cell) {
        (VariableType::Numeric, CellView::Null) => found is Null,
        (VariableType::Numeric, CellView::Number(n)) => found matches CellView::Number(m) && (
        !writer::compressible(n, calc) ==> m == n) && (writer::compressible(n, calc)
            ==> arith::meaning(calc, NumOp::Sub(n, m)).absolute().below(
            Number { bits: writer::TOLERANCE_BITS },
        )),
        (VariableType::String(w), CellView::Text(x)) => found is Text && (text::byte_len(x) <= w
            ==> found == CellView::Text(text::trimmed_end(x))),
        (VariableType::String(_), CellView::Null) => found == CellView::Text(Seq::empty()),
        _ => true,
    }
}

/// A file gives back every case, and of each cell what it holds, whatever the names
/// of the variables.
pub proof fn law_cells_return<F: Fn(NumOp) -> Number>(
    ds: DatasetView,
    b: int,
    r: int,
    i: int,
    calc: F,
)
    requires
        roundtrip::holdable(ds),
        0 <= b < ds.batches.len(),
        0 <= r < ds.batches[b].num_rows,
        0 <= i < ds.variables.len(),
    ensures
        ({
            let at = dataset::rows_in(ds.batches.take(b)) + r;
            reader::sav_dataset(writer::sav_bytes(ds, calc), calc) matches Ok(loaded) && {
                &&& loaded.n_cases() == ds.n_cases()
                &&& loaded.batches.len() == 1
                &&& at < loaded.batches[0].num_rows
                &&& gives_back(
                    ds.variables[i].var_type,
                    ds.batches[b].columns[i].cells[r],
                    loaded.batches[0].columns[i].cells[at],
                    calc,
                )
            }
        }),
{
    roundtrip::law_found_back(ds, calc);
    let loaded = roundtrip::found_dataset(ds, calc);
    let nb = ds.batches.len() as int;
    let at = dataset::rows_in(ds.batches.take(b)) + r;
    assert(loaded.batches.drop_last() =~= Seq::empty());
    assert(dataset::rows_in(loaded.batches.drop_last()) == 0);
    dataset::lemma_rows_split(ds.batches, b);
    dataset::lemma_rows_split(ds.batches, b + 1);
    lemma_cell_place(ds, i, b, r, nb, calc);
    let t = ds.variables[i].var_type;
    let cell = ds.batches[b].columns[i].cells[r];
    assert(writer::writable(ds, b, r, i));
    match (t, cell) {
        (VariableType::Numeric, CellView::Number(n)) => {
            data_law::law_number_within_tolerance(n, calc);
        },
        (VariableType::String(w), CellView::Text(x)) => {
            if text::byte_len(x) <= w {
                law_fitting_text_returns(x, w);
            }
        },
        (VariableType::String(w), CellView::Null) => {
            law_fitting_text_returns(Seq::empty(), w);
            assert(text::trimmed_end(Seq::empty()) == Seq::<char>::empty());
        },
        _ => {},
    }
}

/// A file gives back the definition of every variable, whatever its name: its type,
/// measurement level and display format, and the labels and missing values as far
/// as a file holds them.
pub proof fn law_definitions_return<F: Fn(NumOp) -> Number>(ds: DatasetView, i: int, calc: F)
    requires
        roundtrip::holdable(ds),
        0 <= i < ds.variables.len(),
    ensures
        reader::sav_dataset(writer::sav_bytes(ds, calc), calc) matches Ok(loaded) && {
            let (was, now) = (ds.variables[i], loaded.variables[i]);
            &&& loaded.variables.len() == ds.variables.len()
            &&& now.measure == was.measure
            &&& now.var_type == was.var_type
            &&& now.print_width == was.print_width
            &&& now.print_decimals == was.print_decimals
            &&& now.label == dictionary_law::stored_label(was.label)
            &&& now.value_labels == dictionary_law::stored_labels(was.value_labels)
            &&& now.missing == dictionary_law::stored_missing(was.missing)
        },
{
    roundtrip::law_found_back(ds, calc);
}

/// Where the entry of a row stands in a column that comes back.
proof fn lemma_cell_place<F: Fn(NumOp) -> Number>(
    ds: DatasetView,
    i: int,
    b: int,
    r: int,
    n: int,
    calc: F,
)
    requires
        0 <= b < n <= ds.batches.len(),
        0 <= r < ds.batches[b].num_rows,
    ensures
        roundtrip::stored_column(ds, i, n, calc)[dataset::rows_in(ds.batches.take(b)) + r]
            == reader::cell_of(
            row_law::stored_value(
                ds.variables[i].var_type,
                ds.batches[b].columns[i].cells[r],
                calc,
            ),
        ),
        dataset::rows_in(ds.batches.take(b)) + r < roundtrip::stored_column(ds, i, n, calc).len(),
    decreases n,
{
    roundtrip::lemma_column_length(ds, i, n - 1, calc);
    roundtrip::lemma_column_length(ds, i, n, calc);
    dataset::lemma_rows_split(ds.batches, n - 1);
    if b < n - 1 {
        lemma_cell_place(ds, i, b, r, n - 1, calc);
    }
}

/// A value that is read from the start of data is read from the data.
proof fn lemma_value_of_cut<F: Fn(NumOp) -> Number>(
    s: Seq<u8>,
    m: int,
    st: StreamView,
    bias: Number,
    calc: F,
)
    requires
        0 <= m <= s.len(),
        0 <= st.pos,
    ensures
        reader::next_value(s.take(m), st, bias, calc) matches Some((v, after)) ==> {
            &&& reader::next_value(s, st, bias, calc) == Some((v, after))
            &&& 0 <= after.pos
        },
    decreases s.len() - st.pos, 8 - st.idx,
{
    let c = s.take(m);
    if let Some(f) = reader::refilled(c, st) {
        if st.idx >= 8 {
            assert(c.subrange(st.pos, st.pos + 8) =~= s.subrange(st.pos, st.pos + 8));
        }
        assert(reader::refilled(s, st) == Some(f));
        if f.commands[f.idx] == 0 {
            lemma_value_of_cut(s, m, StreamView { idx: f.idx + 1, ..f }, bias, calc);
        } else if f.pos + 8 <= m {
            assert(c.subrange(f.pos, f.pos + 8) =~= s.subrange(f.pos, f.pos + 8));
            assert(bytes::number_at(c, f.pos) == bytes::number_at(s, f.pos));
        }
    }
}

proof fn lemma_row_of_cut<F: Fn(NumOp) -> Number>(
    s: Seq<u8>,
    m: int,
    h: SavHeader,
    records: Seq<RecordView>,
    k: int,
    st: RowView,
    calc: F,
)
    requires
        h.compression == 1,
        0 <= m <= s.len(),
        0 <= st.stream.pos,
        0 <= k,
    ensures
        reader::row_at(s.take(m), h, records, k, st, calc) matches Some(done) ==> {
            &&& reader::row_at(s, h, records, k, st, calc) == Some(done)
            &&& 0 <= done.stream.pos
        },
    decreases records.len() - k,
{
    if k < records.len() {
        lemma_value_of_cut(s, m, st.stream, h.bias, calc);
        if let Some(next) = reader::row_step(s.take(m), h, records[k], st, calc) {
            lemma_row_of_cut(s, m, h, records, k + 1, next, calc);
        }
    }
}

/// Columns grow by one entry for each case at the most.
proof fn lemma_columns_grow<F: Fn(NumOp) -> Number>(
    s: Seq<u8>,
    h: SavHeader,
    records: Seq<RecordView>,
    vars: Seq<VariableView>,
    st: StreamView,
    columns: Seq<Seq<CellView>>,
    left: int,
    calc: F,
)
    requires
        0 <= left,
    ensures
        reader::cases_at(s, h, records, vars, st, columns, left, calc) matches Ok(full) ==> {
            &&& full.len() == columns.len()
            &&& forall|i: int|
                0 <= i < columns.len() ==> columns[i].len() <= (#[trigger] full[i]).len()
                    <= columns[i].len() + left && full[i].take(columns[i].len() as int)
                    == columns[i]
        },
    decreases left,
{
    if left > 0 && reader::has_primary(records, 0) {
        if let Some(done) = reader::row_at(s, h, records, 0, reader::row_from(st), calc) {
            if reader::row_suits(vars, done.row) {
                let next = reader::with_row(columns, done.row);
                reader::lemma_row_advances(s, h, records, 0, reader::row_from(st), calc);
                lemma_columns_grow(s, h, records, vars, done.stream, next, left - 1, calc);
                if let Ok(full) = reader::cases_at(
                    s,
                    h,
                    records,
                    vars,
                    st,
                    columns,
                    left,
                    calc,
                ) {
                    assert forall|i: int| 0 <= i < columns.len() implies columns[i].len() <= (
                    #[trigger] full[i]).len() <= columns[i].len() + left && full[i].take(
                        columns[i].len() as int,
                    ) == columns[i] by {
                        assert(full[i].take(next[i].len() as int) == next[i]);
                        assert(full[i].take(columns[i].len() as int) =~= next[i].take(
                            columns[i].len() as int,
                        ));
                        assert(next[i].take(columns[i].len() as int) =~= columns[i]);
                    }
                }
            }
        } else {
            assert forall|i: int| 0 <= i < columns.len() implies (#[trigger] columns[i]).take(
                columns[i].len() as int,
            ) == columns[i] by {
                assert(columns[i].take(columns[i].len() as int) =~= columns[i]);
            }
        }
    } else {
        assert forall|i: int| 0 <= i < columns.len() implies (#[trigger] columns[i]).take(
            columns[i].len() as int,
        ) == columns[i] by {
            assert(columns[i].take(columns[i].len() as int) =~= columns[i]);
        }
    }
}

/// The first `k` entries of each column.
pub open spec fn first_entries(columns: Seq<Seq<CellView>>, k: int) -> Seq<Seq<CellView>> {
    Seq::new(columns.len(), |i: int| columns[i].take(k))
}

/// Data that is cut gives the first of the cases.
proof fn lemma_cases_of_cut<F: Fn(NumOp) -> Number>(
    s: Seq<u8>,
    m: int,
    h: SavHeader,
    records: Seq<RecordView>,
    vars: Seq<VariableView>,
    st: StreamView,
    columns: Seq<Seq<CellView>>,
    read: int,
    left: int,
    full: Seq<Seq<CellView>>,
    calc: F,
) -> (k: int)
    requires
        h.compression == 1,
        0 <= m <= s.len(),
        0 <= st.pos,
        0 <= left,
        0 <= read,
        reader::cases_at(s, h, records, vars, st, columns, left, calc) == Ok::<_, SavError>(full),
        forall|i: int|
            0 <= i < columns.len() ==> (#[trigger] columns[i]).len() == read && full[i].len()
                == read + left,
    ensures
        read <= k <= read + left,
        reader::cases_at(s.take(m), h, records, vars, st, columns, left, calc) == Ok::<
            _,
            SavError,
        >(first_entries(full, k)),
    decreases left,
{
    lemma_columns_grow(s, h, records, vars, st, columns, left, calc);
    let c = s.take(m);
    let row = reader::row_at(c, h, records, 0, reader::row_from(st), calc);
    lemma_row_of_cut(s, m, h, records, 0, reader::row_from(st), calc);
    if left > 0 && reader::has_primary(records, 0) && row is Some {
        let done = row->0;
        let next = reader::with_row(columns, done.row);
        lemma_columns_grow(s, h, records, vars, done.stream, next, left - 1, calc);
        reader::lemma_row_advances(c, h, records, 0, reader::row_from(st), calc);
        reader::lemma_row_advances(s, h, records, 0, reader::row_from(st), calc);
        assert forall|i: int| 0 <= i < next.len() implies (#[trigger] next[i]).len() == read + 1
            && full[i].len() == read + 1 + (left - 1) by {
            assert(columns[i].len() == read);
            assert(full[i].len() <= next[i].len() + (left - 1));
        }
        lemma_cases_of_cut(
            s,
            m,
            h,
            records,
            vars,
            done.stream,
            next,
            read + 1,
            left - 1,
            full,
            calc,
        )
    } else {
        assert(reader::cases_at(c, h, records, vars, st, columns, left, calc) == Ok::<
            _,
            SavError,
        >(columns));
        assert(first_entries(full, read) =~= columns) by {
            assert forall|i: int| 0 <= i < columns.len() implies full[i].take(read)
                == #[trigger] columns[i] by {
                assert(full[i].take(columns[i].len() as int) == columns[i]);
            }
        }
        read
    }
}

/// The first `k` cases of a dataset of one batch.
pub open spec fn first_cases(ds: DatasetView, k: int) -> DatasetView {
    let b = ds.batches[0];
    DatasetView {
        batches: seq![
            BatchView {
                columns: Seq::new(
                    b.columns.len(),
                    |i: int| ColumnView { cells: b.columns[i].cells.take(k), ..b.columns[i] },
                ),
                num_rows: k as usize,
                ..b
            },
        ],
        ..ds
    }
}

/// The first entries of the columns make the first cases of the dataset.
proof fn lemma_cut_table<F: Fn(NumOp) -> Number>(ds: DatasetView, k: int, calc: F)
    requires
        ds.variables.len() > 0,
        0 <= k <= ds.n_cases(),
    ensures
        reader::table_of(
            roundtrip::found_variables(ds.variables),
            first_entries(roundtrip::stored_columns(ds, calc), k),
        ) == Ok::<DatasetView, SavError>(first_cases(roundtrip::found_dataset(ds, calc), k)),
{
    let vars = roundtrip::found_variables(ds.variables);
    let full = roundtrip::stored_columns(ds, calc);
    let cells = first_entries(full, k);
    let columns = reader::columns_for(vars, cells);
    let nb = ds.batches.len() as int;
    assert(ds.batches.take(nb) =~= ds.batches);
    assert forall|i: int| 0 <= i < columns.len() implies (#[trigger] columns[i]).cells.len()
        == k by {
        roundtrip::lemma_column_length(ds, i, nb, calc);
    }
    assert(columns[0].cells == cells[0]);
    assert(batch::same_lengths(columns, cells[0].len()));
    let part = first_cases(roundtrip::found_dataset(ds, calc), k);
    assert(part.batches[0].columns =~= columns);
    assert(part.batches =~= seq![
        BatchView {
            fields: dataset::fields_for(vars),
            columns,
            num_rows: cells[0].len() as usize,
        },
    ]);
}

/// The whole data gives every column all its entries.
proof fn lemma_whole_columns<F: Fn(NumOp) -> Number>(ds: DatasetView, calc: F)
    ensures
        forall|i: int|
            0 <= i < ds.variables.len() ==> (#[trigger] reader::no_cells(
                ds.variables.len(),
            )[i]).len() == 0 && roundtrip::stored_columns(ds, calc)[i].len() == ds.n_cases(),
{
    let nb = ds.batches.len() as int;
    assert(ds.batches.take(nb) =~= ds.batches);
    assert forall|i: int| 0 <= i < ds.variables.len() implies (#[trigger] reader::no_cells(
        ds.variables.len(),
    )[i]).len() == 0 && roundtrip::stored_columns(ds, calc)[i].len() == ds.n_cases() by {
        roundtrip::lemma_column_length(ds, i, nb, calc);
    }
}

/// A file that is cut off behind its dictionary is read, with all variables and the
/// first of the cases that the whole file gives, whatever the names of the variables.
pub proof fn law_cut_file_gives_first_cases<F: Fn(NumOp) -> Number>(
    ds: DatasetView,
    m: int,
    calc: F,
)
    requires
        roundtrip::holdable(ds),
        writer::prologue_bytes(ds.variables, ds.n_cases() as int).len() <= m
            <= writer::sav_bytes(ds, calc).len(),
    ensures
        exists|k: int|
            0 <= k <= ds.n_cases() && reader::sav_dataset(
                writer::sav_bytes(ds, calc).take(m),
                calc,
            ) == Ok::<DatasetView, SavError>(
                #[trigger] first_cases(roundtrip::found_dataset(ds, calc), k),
            ),
{
    let s = writer::sav_bytes(ds, calc);
    let head = writer::prologue_bytes(ds.variables, ds.n_cases() as int);
    let items = writer::case_items(ds, ds.batches.len() as int, calc);
    let data = writer::data_bytes(items);
    let at = head.len() as int;
    roundtrip::lemma_prologue_read(s, ds, data);
    let k = lemma_cut_cases(s, ds, at, m, calc);
    lemma_cut_read(s, ds, m, k, calc);
    lemma_cut_table(ds, k, calc);
}

/// The cases of a file that is cut.
proof fn lemma_cut_cases<F: Fn(NumOp) -> Number>(
    s: Seq<u8>,
    ds: DatasetView,
    at: int,
    m: int,
    calc: F,
) -> (k: int)
    requires
        roundtrip::holdable(ds),
        0 <= m <= s.len(),
        bytes::holds_at(
            s,
            at,
            writer::data_bytes(writer::case_items(ds, ds.batches.len() as int, calc)),
        ),
    ensures
        0 <= k <= ds.n_cases(),
        cut_cases(s.take(m), ds, at, k, calc),
{
    roundtrip::lemma_all_cases_read(s, ds, at, calc);
    lemma_whole_columns(ds, calc);
    let n = ds.variables.len();
    lemma_cases_of_cut(
        s,
        m,
        written_header(ds),
        roundtrip::stored_dictionary(ds.variables).records,
        roundtrip::found_variables(ds.variables),
        reader::stream_from(at),
        reader::no_cells(n),
        0,
        ds.n_cases() as int,
        roundtrip::stored_columns(ds, calc),
        calc,
    )
}

/// The header that is written.
spec fn written_header(ds: DatasetView) -> SavHeader {
    SavHeader { compression: 1, ncases: ds.n_cases() as i32, bias: number::nearest(100) }
}

/// The cases from `at` on are the first `k`.
spec fn cut_cases<F: Fn(NumOp) -> Number>(
    c: Seq<u8>,
    ds: DatasetView,
    at: int,
    k: int,
    calc: F,
) -> bool {
    reader::cases_at(
        c,
        written_header(ds),
        roundtrip::stored_dictionary(ds.variables).records,
        roundtrip::found_variables(ds.variables),
        reader::stream_from(at),
        reader::no_cells(ds.variables.len()),
        ds.n_cases() as int,
        calc,
    ) == Ok::<_, SavError>(first_entries(roundtrip::stored_columns(ds, calc), k))
}

proof fn lemma_cut_behind(head: Seq<u8>, data: Seq<u8>, m: int)
    requires
        head.len() <= m <= head.len() + data.len(),
    ensures
        (head + data).take(m) == head + data.take(m - head.len()),
{
    assert((head + data).take(m) =~= head + data.take(m - head.len()));
}

/// A file that is cut is read as its parts are.
proof fn lemma_cut_read<F: Fn(NumOp) -> Number>(
    s: Seq<u8>,
    ds: DatasetView,
    m: int,
    k: int,
    calc: F,
)
    requires
        roundtrip::holdable(ds),
        s == writer::sav_bytes(ds, calc),
        writer::prologue_bytes(ds.variables, ds.n_cases() as int).len() <= m <= s.len(),
        cut_cases(
            s.take(m),
            ds,
            writer::prologue_bytes(ds.variables, ds.n_cases() as int).len() as int,
            k,
            calc,
        ),
    ensures
        reader::sav_dataset(s.take(m), calc) == reader::table_of(
            roundtrip::found_variables(ds.variables),
            first_entries(roundtrip::stored_columns(ds, calc), k),
        ),
{
    let head = writer::prologue_bytes(ds.variables, ds.n_cases() as int);
    let data = writer::data_bytes(writer::case_items(ds, ds.batches.len() as int, calc));
    let at = head.len() as int;
    let c = s.take(m);
    lemma_cut_behind(head, data, m);
    roundtrip::lemma_prologue_read(c, ds, data.take(m - at));
    roundtrip::lemma_dictionary_variables(ds);
    roundtrip::lemma_read_by_parts(
        c,
        written_header(ds),
        roundtrip::stored_dictionary(ds.variables),
        at,
        roundtrip::found_variables(ds.variables),
        first_entries(roundtrip::stored_columns(ds, calc), k),
        calc,
    );
}

} // verus!
