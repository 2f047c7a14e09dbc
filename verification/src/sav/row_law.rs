//! A row is read back as it was written.
use vstd::prelude::*;
use vstd::utf8::{decode_utf8, encode_utf8, is_char_boundary, valid_utf8};

use crate::arith::NumOp;
use crate::batch::CellView;
use crate::dataset;
use crate::number;
use crate::number::Number;
use crate::sav::bytes;
use crate::sav::data_law;
use crate::sav::reader;
use crate::sav::reader::{RecordView, RowView, SavHeader};
use crate::sav::writer;
use crate::text;
use crate::text_law;
use crate::value::ValueView;
use crate::variable::VariableType;

verus! {

/// A text as it comes back: cut at its width, without white space at its end.
pub open spec fn stored_text(t: Seq<char>, width: u32) -> Seq<char> {
    text::trimmed_end(decode_utf8(writer::fitted(encode_utf8(t), width as int)))
}

/// The text of a cell; a null is the empty text.
pub open spec fn cell_text(t: VariableType, cell: CellView) -> Seq<char> {
    reader::text_or(dataset::raw_value(t, cell), Seq::empty())
}

/// A value as it comes back.
pub open spec fn stored_value<F: Fn(NumOp) -> Number>(
    t: VariableType,
    cell: CellView,
    calc: F,
) -> ValueView {
    match t {
        VariableType::Numeric => match dataset::raw_value(t, cell) {
            ValueView::Numeric(n) => ValueView::Numeric(data_law::stored_number(n, calc)),
            v => v,
        },
        VariableType::String(w) => ValueView::String(stored_text(cell_text(t, cell), w)),
    }
}

/// The text brought to its width, in bytes.
pub open spec fn whole(t: Seq<char>, w: u32) -> Seq<u8> {
    writer::fitted(encode_utf8(t), w as int)
}

/// The text brought to its width is text, and can be cut at every eighth byte.
pub proof fn lemma_whole(t: Seq<char>, w: u32)
    requires
        writer::divisible(t, w),
    ensures
        whole(t, w).len() == w,
        valid_utf8(whole(t, w)),
        forall|k: int|
            0 <= k && 8 * k < w ==> #[trigger] is_char_boundary(whole(t, w), 8 * k),
{
    let b = encode_utf8(t);
    let all = whole(t, w);
    vstd::utf8::encode_utf8_valid_utf8(t);
    if b.len() > w {
        vstd::utf8::valid_utf8_split(b, w as int);
        assert(all =~= b.subrange(0, w as int));
    } else if b.len() == w {
        assert(all =~= b);
    } else {
        let pad = (w - b.len()) as nat;
        text_law::lemma_blanks(pad);
        assert(bytes::run_of(32, pad) =~= Seq::new(pad, |i: int| 32u8));
        vstd::utf8::valid_utf8_concat(b, bytes::run_of(32, pad));
    }
    assert forall|k: int| 0 <= k && 8 * k < w implies #[trigger] is_char_boundary(all, 8 * k) by {
        vstd::utf8::is_char_boundary_iff_not_is_continuation_byte(all, 8 * k);
        if 8 * k < b.len() {
            assert(is_char_boundary(b, 8 * k));
            vstd::utf8::is_char_boundary_iff_not_is_continuation_byte(b, 8 * k);
            assert(all[8 * k] == b[8 * k]);
        } else {
            assert(all[8 * k] == 32u8);
            assert(!vstd::utf8::is_continuation_byte(32u8)) by {
                assert(32u8 & 0xC0u8 != 0x80u8) by (bit_vector);
            }
        }
    }
}

/// The end of the `b`th block within the width.
pub open spec fn block_end(w: u32, b: int) -> int {
    if 8 * b + 8 <= w {
        8 * b + 8
    } else {
        w as int
    }
}

/// What the blocks before the `b`th and the `b`th hold is the text up to its
/// end, and blanks behind the width.
pub proof fn lemma_block_text(t: Seq<char>, w: u32, b: int)
    requires
        writer::divisible(t, w),
        0 <= b < reader::blocks_of(w),
    ensures
        writer::block_bytes(t, w, b).len() == 8,
        decode_utf8(whole(t, w).take(8 * b)) + text::lossy_text(writer::block_bytes(t, w, b))
            == decode_utf8(whole(t, w).take(block_end(w, b))) + text_law::blanks(
            (8 * b + 8 - block_end(w, b)) as nat,
        ),
{
    lemma_whole(t, w);
    let all = whole(t, w);
    let e = block_end(w, b);
    let head = all.take(8 * b);
    let chunk = all.subrange(8 * b, e);
    let both = all.take(e);
    assert(is_char_boundary(all, 8 * b));
    vstd::utf8::valid_utf8_split(all, 8 * b);
    assert(head =~= all.subrange(0, 8 * b));
    let tail = all.subrange(8 * b, all.len() as int);
    assert(valid_utf8(tail));
    // The chunk is the start of the tail.
    if e < w {
        assert(is_char_boundary(all, 8 * (b + 1)));
        vstd::utf8::is_char_boundary_iff_not_is_continuation_byte(all, e);
        assert(tail[8] == all[e]);
        vstd::utf8::is_char_boundary_iff_not_is_continuation_byte(tail, 8);
        vstd::utf8::valid_utf8_split(tail, 8);
        assert(chunk =~= tail.subrange(0, 8));
    } else {
        assert(chunk =~= tail);
    }
    let pad = (8 - chunk.len()) as nat;
    text_law::lemma_blanks(pad);
    let block = writer::block_bytes(t, w, b);
    assert(bytes::run_of(32, pad) =~= Seq::new(pad, |i: int| 32u8));
    assert(block =~= chunk + bytes::run_of(32, pad));
    text_law::law_decode_concat(chunk, bytes::run_of(32, pad));
    text_law::law_decode_concat(head, chunk);
    assert(head + chunk =~= both);
    assert(decode_utf8(head) + (decode_utf8(chunk) + text_law::blanks(pad)) =~= decode_utf8(both)
        + text_law::blanks(pad));
}

/// The blocks of a long text behind its first.
proof fn lemma_continuations<F: Fn(NumOp) -> Number>(
    s: Seq<u8>,
    h: SavHeader,
    records: Seq<RecordView>,
    k: int,
    st: RowView,
    t: Seq<char>,
    w: u32,
    j: int,
    more: Seq<(u8, Seq<u8>)>,
    calc: F,
) -> (after: RowView)
    requires
        writer::divisible(t, w),
        h.compression == 1,
        0 <= k,
        1 <= j < reader::blocks_of(w),
        k + reader::blocks_of(w) - j <= records.len(),
        forall|i: int|
            k <= i < k + reader::blocks_of(w) - j ==> (#[trigger] records[i]).is_continuation,
        st.open == reader::blocks_of(w) - j,
        st.text == decode_utf8(whole(t, w).take(8 * j)),
        data_law::ready(
            s,
            st.stream,
            writer::text_items(t, w, reader::blocks_of(w)).skip(j) + more,
        ),
    ensures
        reader::row_at(s, h, records, k, st, calc) == reader::row_at(
            s,
            h,
            records,
            k + reader::blocks_of(w) - j,
            after,
            calc,
        ),
        after.row == st.row.push(ValueView::String(stored_text(t, w))),
        after.open == 0,
        data_law::ready(s, after.stream, more),
    decreases reader::blocks_of(w) - j,
{
    let n = reader::blocks_of(w);
    let items = writer::text_items(t, w, n).skip(j) + more;
    lemma_block_text(t, w, j);
    assert(items[0] == (254u8, writer::block_bytes(t, w, j)));
    let stream = data_law::lemma_next_item(s, st.stream, items, h.bias, calc);
    assert(items.skip(1) =~= writer::text_items(t, w, n).skip(j + 1) + more);
    assert(records[k].is_continuation);
    let next = reader::row_step(s, h, records[k], st, calc)->0;
    let e = block_end(w, j);
    if j + 1 == n {
        assert(writer::text_items(t, w, n).skip(j + 1) + more =~= more);
        assert(whole(t, w).take(e) =~= whole(t, w)) by {
            lemma_whole(t, w);
        }
        let pad = text_law::blanks((8 * j + 8 - e) as nat);
        text_law::lemma_blanks((8 * j + 8 - e) as nat);
        text_law::law_trim_end_ignores_padding(decode_utf8(whole(t, w)), pad);
        assert(next.row == st.row.push(ValueView::String(stored_text(t, w))));
        next
    } else {
        assert(e == 8 * (j + 1));
        assert(text_law::blanks(0) =~= Seq::empty());
        assert(decode_utf8(whole(t, w).take(e)) + text_law::blanks(0) =~= decode_utf8(
            whole(t, w).take(e),
        ));
        lemma_continuations(s, h, records, k + 1, next, t, w, j + 1, more, calc)
    }
}

/// The value of a variable is read back, and what was written behind it is next.
pub proof fn lemma_cell_read_back<F: Fn(NumOp) -> Number>(
    s: Seq<u8>,
    h: SavHeader,
    records: Seq<RecordView>,
    k: int,
    st: RowView,
    t: VariableType,
    cell: CellView,
    more: Seq<(u8, Seq<u8>)>,
    calc: F,
) -> (after: RowView)
    requires
        h.compression == 1,
        h.bias == number::nearest(100),
        0 <= k,
        k + 1 + writer::continuations(t) <= records.len(),
        records[k].var_type == t,
        !records[k].is_continuation,
        forall|i: int|
            k < i < k + 1 + writer::continuations(t) ==> (#[trigger] records[i]).is_continuation,
        t matches VariableType::String(w) ==> w >= 1 && writer::divisible(cell_text(t, cell), w),
        data_law::ready(s, st.stream, writer::cell_items(t, cell, calc) + more),
        st.open == 0,
    ensures
        reader::row_at(s, h, records, k, st, calc) == reader::row_at(
            s,
            h,
            records,
            k + 1 + writer::continuations(t),
            after,
            calc,
        ),
        after.row == st.row.push(stored_value(t, cell, calc)),
        after.open == 0,
        data_law::ready(s, after.stream, more),
{
    let items = writer::cell_items(t, cell, calc) + more;
    match t {
        VariableType::Numeric => {
            let raw = dataset::raw_value(t, cell);
            match raw {
                ValueView::Numeric(n) => {
                    data_law::lemma_number_item(n, calc);
                },
                _ => {},
            }
            assert(items[0] == writer::item_of(raw, calc));
            let stream = data_law::lemma_next_item(s, st.stream, items, h.bias, calc);
            assert(items.skip(1) =~= more);
            reader::row_step(s, h, records[k], st, calc)->0
        },
        VariableType::String(w) => {
            let txt = cell_text(t, cell);
            let n = reader::blocks_of(w);
            lemma_block_text(txt, w, 0);
            assert(items[0] == (254u8, writer::block_bytes(txt, w, 0)));
            let stream = data_law::lemma_next_item(s, st.stream, items, h.bias, calc);
            let next = reader::row_step(s, h, records[k], st, calc)->0;
            let e = block_end(w, 0);
            assert(whole(txt, w).take(0) =~= Seq::empty());
            assert(decode_utf8(Seq::empty()) =~= Seq::<char>::empty());
            let block_text = text::lossy_text(writer::block_bytes(txt, w, 0));
            assert(decode_utf8(whole(txt, w).take(0)) + block_text =~= block_text);
            if n > 1 {
                assert(writer::continuations(t) == n - 1);
                assert(items.skip(1) =~= writer::text_items(txt, w, n).skip(1) + more);
                assert(text_law::blanks(0) =~= Seq::empty());
                assert(block_text =~= decode_utf8(whole(txt, w).take(8)));
                lemma_continuations(s, h, records, k + 1, next, txt, w, 1, more, calc)
            } else {
                assert(items.skip(1) =~= more);
                assert(whole(txt, w).take(e) =~= whole(txt, w)) by {
                    lemma_whole(txt, w);
                }
                let pad = text_law::blanks((8 - e) as nat);
                text_law::lemma_blanks((8 - e) as nat);
                text_law::law_trim_end_ignores_padding(decode_utf8(whole(txt, w)), pad);
                next
            }
        },
    }
}

} // verus!
