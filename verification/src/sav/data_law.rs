//! Compressed data is read back as it was written.
use vstd::prelude::*;
use vstd::utf8::{encode_utf8, is_ascii_chars, is_ascii_chars_encode_utf8};

use crate::arith;
use crate::arith::NumOp;
use crate::number;
use crate::number::Number;
use crate::sav::bytes;
use crate::sav::reader;
use crate::sav::reader::StreamView;
use crate::sav::writer;
use crate::sav::writer::WriterView;
use crate::text;
use crate::text_law;
use crate::value::ValueView;

verus! {

/// The commands of items.
pub open spec fn codes_of(items: Seq<(u8, Seq<u8>)>) -> Seq<u8> {
    Seq::new(items.len(), |i: int| items[i].0)
}

/// The bytes that go with items.
pub open spec fn payloads(items: Seq<(u8, Seq<u8>)>) -> Seq<u8>
    decreases items.len(),
{
    if items.len() == 0 {
        Seq::empty()
    } else {
        items[0].1 + payloads(items.skip(1))
    }
}

proof fn lemma_payloads_push(items: Seq<(u8, Seq<u8>)>, item: (u8, Seq<u8>))
    ensures
        payloads(items.push(item)) == payloads(items) + item.1,
    decreases items.len(),
{
    let all = items.push(item);
    if items.len() == 0 {
        assert(all.skip(1) =~= Seq::empty());
        assert(payloads(all.skip(1)) == Seq::<u8>::empty());
        assert(payloads(all) =~= payloads(items) + item.1);
    } else {
        assert(all.skip(1) =~= items.skip(1).push(item));
        lemma_payloads_push(items.skip(1), item);
        assert(payloads(all) =~= payloads(items) + item.1);
    }
}

/// A writer before the first item.
pub open spec fn fresh() -> WriterView {
    WriterView { out: Seq::empty(), codes: Seq::empty(), payload: Seq::empty() }
}

/// Fewer than eight items stay in the block.
proof fn lemma_open_block(items: Seq<(u8, Seq<u8>)>)
    requires
        items.len() < 8,
    ensures
        fresh().with_all(items) == (WriterView {
            out: Seq::empty(),
            codes: codes_of(items),
            payload: payloads(items),
        }),
    decreases items.len(),
{
    if items.len() == 0 {
        assert(codes_of(items) =~= Seq::empty());
    } else {
        let before = items.drop_last();
        lemma_open_block(before);
        lemma_payloads_push(before, items.last());
        assert(before.push(items.last()) =~= items);
        assert(codes_of(items) =~= codes_of(before).push(items.last().0));
        let w = fresh().with_all(before);
        assert(w.codes.push(items.last().0).len() == items.len());
        assert(w.with(items.last()) == (WriterView {
            out: w.out,
            codes: w.codes.push(items.last().0),
            payload: w.payload + items.last().1,
        }));
    }
}

/// Data of eight items or more starts with a full block.
proof fn lemma_full_block(items: Seq<(u8, Seq<u8>)>)
    requires
        items.len() >= 8,
    ensures
        writer::data_bytes(items) == codes_of(items.take(8)) + payloads(items.take(8))
            + writer::data_bytes(items.skip(8)),
{
    let first = items.take(8);
    let rest = items.skip(8);
    assert(first + rest =~= items);
    writer::lemma_with_all(fresh(), first, rest);
    let seven = first.drop_last();
    lemma_open_block(seven);
    lemma_payloads_push(seven, first.last());
    assert(seven.push(first.last()) =~= first);
    assert(codes_of(first) =~= codes_of(seven).push(first.last().0));
    let w = fresh().with_all(first);
    assert(w =~= WriterView {
        out: codes_of(first) + payloads(first),
        codes: Seq::empty(),
        payload: Seq::empty(),
    }) by {
        assert(bytes::run_of(0, 0) =~= Seq::empty());
        assert(Seq::empty() + codes_of(first) + bytes::run_of(0, 0) + payloads(first) =~= codes_of(
            first,
        ) + payloads(first));
    }
    writer::lemma_out_grows(w, rest);
    assert(WriterView { out: Seq::empty(), ..w } == fresh());
    assert(w.with_all(rest).closed().out =~= w.out + fresh().with_all(rest).closed().out);
}

/// Data of fewer than eight items is one block that is not full.
proof fn lemma_last_block(items: Seq<(u8, Seq<u8>)>)
    requires
        0 < items.len() < 8,
    ensures
        writer::data_bytes(items) == codes_of(items).push(252u8) + bytes::run_of(
            0,
            (7 - items.len()) as nat,
        ) + payloads(items),
{
    lemma_open_block(items);
    assert(writer::data_bytes(items) =~= codes_of(items).push(252u8) + bytes::run_of(
        0,
        (7 - items.len()) as nat,
    ) + payloads(items));
}

/// An item that stands for a value.
pub open spec fn proper(item: (u8, Seq<u8>)) -> bool {
    ||| 1 <= item.0 <= 251 && item.1.len() == 0
    ||| item.0 == 253 && item.1.len() == 8
    ||| item.0 == 254 && item.1.len() == 8
    ||| item.0 == 255 && item.1.len() == 0
}

/// The value that an item stands for.
pub open spec fn item_value<F: Fn(NumOp) -> Number>(
    item: (u8, Seq<u8>),
    bias: Number,
    calc: F,
) -> ValueView {
    if item.0 == 253 {
        ValueView::Numeric(bytes::number_at(item.1, 0))
    } else if item.0 == 254 {
        ValueView::String(text::lossy_text(item.1))
    } else if item.0 == 255 {
        ValueView::SystemMissing
    } else {
        ValueView::Numeric(
            arith::meaning(calc, NumOp::Sub(number::nearest(item.0 as int), bias)),
        )
    }
}

/// The commands of the current block are those of the next items.
pub open spec fn commands_match(st: StreamView, rest: Seq<(u8, Seq<u8>)>) -> bool {
    st.commands.len() == 8 && forall|k: int|
        st.idx <= k < 8 && k - st.idx < rest.len() ==> #[trigger] st.commands[k] == rest[k
            - st.idx].0
}

/// `rest` is what is still to be read.
pub open spec fn ready(s: Seq<u8>, st: StreamView, rest: Seq<(u8, Seq<u8>)>) -> bool {
    if st.idx >= 8 {
        bytes::holds_at(s, st.pos, writer::data_bytes(rest))
    } else {
        &&& 0 <= st.idx
        &&& commands_match(st, rest)
        &&& if rest.len() >= 8 - st.idx {
            bytes::holds_at(
                s,
                st.pos,
                payloads(rest.take(8 - st.idx)) + writer::data_bytes(rest.skip(8 - st.idx)),
            )
        } else {
            bytes::holds_at(s, st.pos, payloads(rest))
        }
    }
}

/// Nothing stands behind `rest`: the data ends with it, or a command says so.
pub open spec fn ends_with(s: Seq<u8>, st: StreamView, rest: Seq<(u8, Seq<u8>)>) -> bool {
    if st.idx >= 8 {
        st.pos + writer::data_bytes(rest).len() == s.len()
    } else if rest.len() >= 8 - st.idx {
        st.pos + payloads(rest.take(8 - st.idx)).len() + writer::data_bytes(
            rest.skip(8 - st.idx),
        ).len() == s.len()
    } else {
        st.commands[st.idx + rest.len()] == 252
    }
}

/// The next block is read where it was written.
proof fn lemma_refill(s: Seq<u8>, st: StreamView, rest: Seq<(u8, Seq<u8>)>) -> (f: StreamView)
    requires
        ready(s, st, rest),
        rest.len() > 0,
    ensures
        reader::refilled(s, st) == Some(f),
        f.idx < 8,
        ready(s, f, rest),
        ends_with(s, st, rest) ==> ends_with(s, f, rest),
{
    if st.idx < 8 {
        st
    } else {
        let p = st.pos;
        let f = StreamView { pos: p + 8, commands: s.subrange(p, p + 8), idx: 0 };
        if rest.len() >= 8 {
            lemma_full_block(rest);
            let c = codes_of(rest.take(8));
            let d = payloads(rest.take(8)) + writer::data_bytes(rest.skip(8));
            assert(writer::data_bytes(rest) =~= c + d);
            bytes::lemma_holds_split(s, p, c, d);
            assert(f.commands == c);
        } else {
            lemma_last_block(rest);
            let c = codes_of(rest).push(252u8) + bytes::run_of(0, (7 - rest.len()) as nat);
            bytes::lemma_holds_split(s, p, c, payloads(rest));
            assert(f.commands == c);
            assert(c[rest.len() as int] == 252);
        }
        f
    }
}

/// An item that is next is read, and the following one is next.
pub proof fn lemma_next_item<F: Fn(NumOp) -> Number>(
    s: Seq<u8>,
    st: StreamView,
    rest: Seq<(u8, Seq<u8>)>,
    bias: Number,
    calc: F,
) -> (after: StreamView)
    requires
        ready(s, st, rest),
        rest.len() > 0,
        proper(rest[0]),
    ensures
        reader::next_value(s, st, bias, calc) == Some((item_value(rest[0], bias, calc), after)),
        ready(s, after, rest.skip(1)),
        ends_with(s, st, rest) ==> ends_with(s, after, rest.skip(1)),
{
    let f = lemma_refill(s, st, rest);
    let m = 8 - f.idx;
    let item = rest[0];
    let tail = rest.skip(1);
    let next = StreamView { idx: f.idx + 1, ..f };
    let after = if item.0 == 253 || item.0 == 254 {
        StreamView { pos: f.pos + 8, ..next }
    } else {
        next
    };
    assert(f.commands[f.idx] == item.0);
    assert(after.pos == f.pos + item.1.len());
    if rest.len() >= m {
        assert(rest.take(m)[0] == item);
        assert(rest.take(m).skip(1) =~= tail.take(m - 1));
        assert(rest.skip(m) =~= tail.skip(m - 1));
        let later = payloads(tail.take(m - 1)) + writer::data_bytes(tail.skip(m - 1));
        assert(payloads(rest.take(m)) + writer::data_bytes(rest.skip(m)) =~= item.1 + later);
        bytes::lemma_holds_split(s, f.pos, item.1, later);
        if m == 1 {
            assert(tail.take(0) =~= Seq::empty());
            assert(tail.skip(0) =~= tail);
            assert(later =~= writer::data_bytes(tail));
        }
    } else {
        bytes::lemma_holds_split(s, f.pos, item.1, payloads(tail));
    }
    if after.idx < 8 {
        assert forall|k: int| after.idx <= k < 8 && k - after.idx < tail.len() implies #[trigger]
        after.commands[k] == tail[k - after.idx].0 by {
            assert(f.commands[k] == rest[k - f.idx].0);
        }
    }
    if item.0 == 253 {
        let w = s.subrange(f.pos, f.pos + 8);
        assert(w == item.1);
        assert forall|k: int| 0 <= k < 8 implies s[f.pos + k] == item.1[k] by {
            assert(w[k] == s[f.pos + k]);
        }
        assert(bytes::number_at(s, f.pos) == bytes::number_at(item.1, 0));
    }
    after
}

/// The items of values.
pub open spec fn items_of<F: Fn(NumOp) -> Number>(values: Seq<ValueView>, calc: F) -> Seq<
    (u8, Seq<u8>),
> {
    Seq::new(values.len(), |i: int| writer::item_of(values[i], calc))
}

/// What the first `n` calls for the next value return, and the position behind them.
pub open spec fn next_values<F: Fn(NumOp) -> Number>(
    s: Seq<u8>,
    st: StreamView,
    n: nat,
    bias: Number,
    calc: F,
) -> Option<(Seq<ValueView>, StreamView)>
    decreases n,
{
    if n == 0 {
        Some((Seq::empty(), st))
    } else {
        match next_values(s, st, (n - 1) as nat, bias, calc) {
            None => None,
            Some((before, here)) => match reader::next_value(s, here, bias, calc) {
                None => None,
                Some((v, after)) => Some((before.push(v), after)),
            },
        }
    }
}

/// A number as it comes back: one that a command stands for is the command less 100.
pub open spec fn stored_number<F: Fn(NumOp) -> Number>(n: Number, calc: F) -> Number {
    if writer::compressible(n, calc) {
        arith::meaning(
            calc,
            NumOp::Sub(
                number::nearest(writer::number_code(n, calc).saturated(0, 255)),
                number::nearest(100),
            ),
        )
    } else {
        n
    }
}

/// A value as it comes back: a text as eight bytes, cut there or filled with blanks.
pub open spec fn returned<F: Fn(NumOp) -> Number>(v: ValueView, calc: F) -> ValueView {
    match v {
        ValueView::SystemMissing => ValueView::SystemMissing,
        ValueView::Numeric(n) => ValueView::Numeric(stored_number(n, calc)),
        ValueView::String(t) => ValueView::String(
            text::lossy_text(writer::fitted(encode_utf8(t), 8)),
        ),
    }
}

/// What was written for a number stands for the number as it comes back.
pub proof fn lemma_number_item<F: Fn(NumOp) -> Number>(n: Number, calc: F)
    ensures
        proper(writer::number_item(n, calc)),
        item_value(writer::number_item(n, calc), number::nearest(100), calc)
            == ValueView::Numeric(stored_number(n, calc)),
{
    if writer::compressible(n, calc) {
        number::lemma_small_range(writer::number_code(n, calc));
    } else {
        let b = bytes::le8(n);
        assert(b.subrange(0, 8) =~= b);
        bytes::law_double_read_back(b, 0, n);
    }
}

proof fn lemma_next_values<F: Fn(NumOp) -> Number>(
    s: Seq<u8>,
    st: StreamView,
    values: Seq<ValueView>,
    n: nat,
    calc: F,
) -> (after: StreamView)
    requires
        n <= values.len(),
        ready(s, st, items_of(values, calc)),
        ends_with(s, st, items_of(values, calc)),
    ensures
        next_values(s, st, n, number::nearest(100), calc) == Some(
            (Seq::new(n, |i: int| returned(values[i], calc)), after),
        ),
        ready(s, after, items_of(values, calc).skip(n as int)),
        ends_with(s, after, items_of(values, calc).skip(n as int)),
    decreases n,
{
    let items = items_of(values, calc);
    if n == 0 {
        assert(items.skip(0) =~= items);
        assert(Seq::new(0, |i: int| returned(values[i], calc)) =~= Seq::<ValueView>::empty());
        st
    } else {
        let here = lemma_next_values(s, st, values, (n - 1) as nat, calc);
        let rest = items.skip(n - 1);
        let v = values[n - 1];
        assert(rest[0] == writer::item_of(v, calc));
        if let ValueView::Numeric(x) = v {
            lemma_number_item(x, calc);
        }
        let after = lemma_next_item(s, here, rest, number::nearest(100), calc);
        assert(rest.skip(1) =~= items.skip(n as int));
        assert(Seq::new(n, |i: int| returned(values[i], calc)) =~= Seq::new(
            (n - 1) as nat,
            |i: int| returned(values[i], calc),
        ).push(returned(v, calc)));
        after
    }
}

/// Values that were written to compressed data are read back in order, each in the
/// form in which it comes back, and behind the last there is none.
pub proof fn law_values_read_back<F: Fn(NumOp) -> Number>(values: Seq<ValueView>, calc: F)
    ensures
        ({
            let s = fresh().with_all(items_of(values, calc)).closed().out;
            let bias = number::nearest(100);
            next_values(s, reader::stream_from(0), values.len(), bias, calc) matches Some(
                (found, after),
            ) && found == values.map_values(|v: ValueView| returned(v, calc))
                && reader::next_value(s, after, bias, calc) is None
        }),
{
    let items = items_of(values, calc);
    let s = writer::data_bytes(items);
    let start = reader::stream_from(0);
    let bias = number::nearest(100);
    assert(s.subrange(0, s.len() as int) =~= s);
    let after = lemma_next_values(s, start, values, values.len(), calc);
    assert(Seq::new(values.len(), |i: int| returned(values[i], calc)) =~= values.map_values(
        |v: ValueView| returned(v, calc),
    ));
    let rest = items.skip(values.len() as int);
    assert(rest =~= Seq::empty());
    assert(writer::data_bytes(rest) =~= Seq::empty());
    assert(reader::next_value(s, after, bias, calc) is None) by {
        if after.idx < 8 {
            assert(after.commands[after.idx] == 252);
        }
    }
}

/// A number comes back as it was unless a command stands for it; and then the one
/// that comes back differs from it by less than the tolerance, as subtraction gives
/// the difference.
pub proof fn law_number_within_tolerance<F: Fn(NumOp) -> Number>(n: Number, calc: F)
    ensures
        !writer::compressible(n, calc) ==> stored_number(n, calc) == n,
        writer::compressible(n, calc) ==> arith::meaning(
            calc,
            NumOp::Sub(n, stored_number(n, calc)),
        ).absolute().below(Number { bits: writer::TOLERANCE_BITS }),
{
    if writer::compressible(n, calc) {
        number::law_rounded_is_whole(
            arith::meaning(calc, NumOp::Add(n, number::nearest(100))),
        );
    }
}

/// An ASCII text comes back cut at eight characters, or filled with blanks to
/// eight.
pub proof fn law_short_text_returns<F: Fn(NumOp) -> Number>(t: Seq<char>, calc: F)
    requires
        is_ascii_chars(t),
    ensures
        returned(ValueView::String(t), calc) == ValueView::String(
            if t.len() >= 8 {
                t.take(8)
            } else {
                t + text_law::blanks((8 - t.len()) as nat)
            },
        ),
{
    is_ascii_chars_encode_utf8(t);
    let b = encode_utf8(t);
    if t.len() >= 8 {
        let u = t.take(8);
        assert(u + t.skip(8) =~= t);
        text_law::law_encode_concat(u, t.skip(8));
        assert(is_ascii_chars(u));
        is_ascii_chars_encode_utf8(u);
        assert(b.take(8) =~= encode_utf8(u));
        text_law::lemma_lossy_of_encoded(u);
    } else {
        let pad = (8 - t.len()) as nat;
        text_law::lemma_blanks(pad);
        text_law::law_encode_concat(t, text_law::blanks(pad));
        assert(bytes::run_of(32, pad) =~= encode_utf8(text_law::blanks(pad)));
        text_law::lemma_lossy_of_encoded(t + text_law::blanks(pad));
    }
}

} // verus!
