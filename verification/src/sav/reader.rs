//! Reading a .sav file.
use vstd::hash_map::StringHashMap;
use vstd::prelude::*;

use crate::arith;
use crate::arith::{perform, NumOp};
use crate::batch::{kind_for, Batch, BatchView, Cell, CellView, Column, ColumnView, Field};
use crate::batch;
use crate::dataset;
use crate::dataset::{Dataset, DatasetView};
use crate::number;
use crate::number::Number;
use crate::sav::bytes;
use crate::sav::bytes::{
    decode_at, read_f64, read_i32, read_string, ByteReader, SavError,
};
use crate::text;
use crate::text::{same_text, split, to_upper, trim, trim_end};
use crate::value::{MissingValues, MissingView, Value, ValueView};
use crate::variable;
use crate::variable::{
    copy_option, MeasureLevel, ValueLabels, Variable, VariableType, VariableView,
};

verus! {

broadcast use crate::text::lemma_views_push;

/// A variable record of the dictionary.
#[verifier::ext_equal]
pub struct RecordView {
    pub name: Seq<char>,
    pub var_type: VariableType,
    pub label: Option<Seq<char>>,
    pub value_labels: Seq<(i64, Seq<char>)>,
    pub missing: MissingView,
    pub print_width: u8,
    pub print_decimals: u8,
    pub is_continuation: bool,
}

/// What the dictionary holds so far.
#[verifier::ext_equal]
pub struct DictionaryView {
    pub records: Seq<RecordView>,
    /// From a short name in upper case to the long name.
    pub long_names: Map<Seq<char>, Seq<char>>,
    /// The codes of the variables' measurement levels.
    pub levels: Seq<u8>,
}

/// The subtype of the extension record that holds the measurement levels.
pub const LEVELS_SUBTYPE: i32 = 1001;

/// A dictionary before its first record.
pub open spec fn empty_dictionary() -> DictionaryView {
    DictionaryView { records: Seq::empty(), long_names: Map::empty(), levels: Seq::empty() }
}

/// The measurement level of the `i`th variable: a scale where none is given.
pub open spec fn level_of(levels: Seq<u8>, i: int) -> MeasureLevel {
    if 0 <= i < levels.len() && levels[i] == 1 {
        MeasureLevel::Nominal
    } else if 0 <= i < levels.len() && levels[i] == 2 {
        MeasureLevel::Ordinal
    } else {
        MeasureLevel::Scale
    }
}

/// What the header says of the cases.
#[derive(Debug, Clone, Copy, PartialEq, Eq, Structural)]
pub struct SavHeader {
    pub compression: i32,
    pub ncases: i32,
    pub bias: Number,
}

/// The first multiple of four from `n` on.
pub open spec fn padded4(n: int) -> int {
    (n + 3) / 4 * 4
}

/// The first multiple of eight from `n` on.
pub open spec fn padded8(n: int) -> int {
    (n + 7) / 8 * 8
}

/// The header of a file.
pub open spec fn header_at(s: Seq<u8>) -> Result<SavHeader, SavError> {
    if s.len() < 4 {
        Err(SavError::UnexpectedEof)
    } else if bytes::text_at(s, 0, 4) != "$FL2"@ && bytes::text_at(s, 0, 4) != "$FL3"@ {
        Err(SavError::InvalidHeader)
    } else if s.len() < 68 {
        Err(SavError::UnexpectedEof)
    } else if bytes::i32_at(s, 64) != 2 {
        Err(SavError::InvalidLayout(bytes::i32_at(s, 64)))
    } else if s.len() < 176 {
        Err(SavError::UnexpectedEof)
    } else {
        Ok(
            SavHeader {
                compression: bytes::i32_at(s, 72),
                ncases: bytes::i32_at(s, 80),
                bias: bytes::number_at(s, 84),
            },
        )
    }
}

/// The type that a type code stands for.
pub open spec fn type_of_code(code: i32) -> VariableType {
    if code == 0 {
        VariableType::Numeric
    } else if code > 0 {
        VariableType::String(code as u32)
    } else {
        VariableType::String(8)
    }
}

/// The label of a variable record, where it has one, and the position behind it.
pub open spec fn label_at(s: Seq<u8>, q: int, labelled: bool) -> Result<
    (Option<Seq<char>>, int),
    SavError,
> {
    if !labelled {
        Ok((None, q))
    } else if q + 4 > s.len() {
        Err(SavError::UnexpectedEof)
    } else {
        let len = bytes::i32_at(s, q) as int;
        if len < 0 {
            Err(SavError::Malformed)
        } else if q + 4 + padded4(len) > s.len() {
            Err(SavError::UnexpectedEof)
        } else {
            Ok((Some(bytes::text_at(s, q + 4, len)), q + 4 + padded4(len)))
        }
    }
}

/// `count` doubles from `q` on.
pub open spec fn numbers_at(s: Seq<u8>, q: int, count: int) -> Seq<Number> {
    Seq::new(count as nat, |i: int| bytes::number_at(s, q + 8 * i))
}

/// The missing values that a count of them and the values stand for: a positive
/// count gives discrete values, -2 a range, -3 a range and a discrete value.
pub open spec fn missing_of(n: int, vals: Seq<Number>) -> MissingView {
    if n > 0 {
        MissingView { discrete: vals, range: None }
    } else if n == -2 {
        MissingView { discrete: Seq::empty(), range: Some((vals[0], vals[1])) }
    } else if n == -3 {
        MissingView { discrete: seq![vals[2]], range: Some((vals[0], vals[1])) }
    } else {
        MissingView::none()
    }
}

/// The missing values of a variable record and the position behind them.
pub open spec fn missing_at(s: Seq<u8>, q: int, n: i32) -> Result<(MissingView, int), SavError> {
    let count = if n < 0 {
        -(n as int)
    } else {
        n as int
    };
    if n == i32::MIN {
        Err(SavError::Malformed)
    } else if q + 8 * count > s.len() {
        Err(SavError::UnexpectedEof)
    } else {
        Ok((missing_of(n as int, numbers_at(s, q, count)), q + 8 * count))
    }
}

/// The variable record from `p` on, behind its record type, and the position
/// behind it.
pub open spec fn record_at(s: Seq<u8>, p: int) -> Result<(RecordView, int), SavError> {
    if p + 28 > s.len() {
        Err(SavError::UnexpectedEof)
    } else {
        let code = bytes::i32_at(s, p);
        match label_at(s, p + 28, bytes::i32_at(s, p + 4) == 1) {
            Err(e) => Err(e),
            Ok((label, q)) => match missing_at(s, q, bytes::i32_at(s, p + 8)) {
                Err(e) => Err(e),
                Ok((missing, end)) => Ok(
                    (
                        RecordView {
                            name: bytes::text_at(s, p + 20, 8),
                            var_type: type_of_code(code),
                            label,
                            value_labels: Seq::empty(),
                            missing,
                            print_width: s[p + 13],
                            print_decimals: s[p + 12],
                            is_continuation: code == -1,
                        },
                        end,
                    ),
                ),
            },
        }
    }
}

/// `acc` and the next `count` value labels from `p` on, and the position behind
/// them.
pub open spec fn labels_at(
    s: Seq<u8>,
    p: int,
    count: nat,
    acc: Seq<(Number, Seq<char>)>,
) -> Result<(Seq<(Number, Seq<char>)>, int), SavError>
    decreases count,
{
    if count == 0 {
        Ok((acc, p))
    } else if p + 9 > s.len() {
        Err(SavError::UnexpectedEof)
    } else {
        let len = s[p + 8] as int;
        if p + 8 + padded8(len + 1) > s.len() {
            Err(SavError::UnexpectedEof)
        } else {
            labels_at(
                s,
                p + 8 + padded8(len + 1),
                (count - 1) as nat,
                acc.push((bytes::number_at(s, p), bytes::text_at(s, p + 9, len))),
            )
        }
    }
}

/// Labels with new ones put in, in order. A value loses its fraction.
pub open spec fn labels_and(
    labels: Seq<(i64, Seq<char>)>,
    new: Seq<(Number, Seq<char>)>,
) -> Seq<(i64, Seq<char>)>
    decreases new.len(),
{
    if new.len() == 0 {
        labels
    } else {
        variable::labels_with(
            labels_and(labels, new.drop_last()),
            new.last().0.saturated(i64::MIN as int, i64::MAX as int) as i64,
            new.last().1,
        )
    }
}

/// The records after new labels went to the one at `i`, where there is one.
pub open spec fn labelled(
    records: Seq<RecordView>,
    i: int,
    new: Seq<(Number, Seq<char>)>,
) -> Seq<RecordView> {
    if 0 <= i < records.len() {
        records.update(
            i,
            RecordView { value_labels: labels_and(records[i].value_labels, new), ..records[i] },
        )
    } else {
        records
    }
}

/// The records after labels went to each variable of a list of `count` positions
/// from `p` on, and the position behind the list. A negative count has no end.
pub open spec fn targets_at(
    s: Seq<u8>,
    p: int,
    count: int,
    records: Seq<RecordView>,
    new: Seq<(Number, Seq<char>)>,
) -> Result<(Seq<RecordView>, int), SavError>
    decreases s.len() - p,
{
    if count == 0 {
        Ok((records, p))
    } else if p + 4 > s.len() {
        Err(SavError::UnexpectedEof)
    } else if bytes::i32_at(s, p) == i32::MIN {
        Err(SavError::Malformed)
    } else {
        targets_at(s, p + 4, count - 1, labelled(records, bytes::i32_at(s, p) - 1, new), new)
    }
}

/// The records after the value labels from `p` on, and the position behind them.
pub open spec fn value_labels_at(s: Seq<u8>, p: int, records: Seq<RecordView>) -> Result<
    (Seq<RecordView>, int),
    SavError,
> {
    if p + 4 > s.len() {
        Err(SavError::UnexpectedEof)
    } else if bytes::i32_at(s, p) < 0 {
        Err(SavError::Malformed)
    } else {
        match labels_at(s, p + 4, bytes::i32_at(s, p) as nat, Seq::empty()) {
            Err(e) => Err(e),
            Ok((new, q)) => if q + 4 > s.len() {
                Err(SavError::UnexpectedEof)
            } else if bytes::i32_at(s, q) != 4 {
                Err(SavError::LabelsWithoutVariables)
            } else if q + 8 > s.len() {
                Err(SavError::UnexpectedEof)
            } else {
                targets_at(s, q + 8, bytes::i32_at(s, q + 4) as int, records, new)
            },
        }
    }
}

/// The long names after those of a list of `short=long` entries.
pub open spec fn names_and(
    names: Map<Seq<char>, Seq<char>>,
    entries: Seq<Seq<char>>,
) -> Map<Seq<char>, Seq<char>>
    decreases entries.len(),
{
    if entries.len() == 0 {
        names
    } else {
        let before = names_and(names, entries.drop_last());
        let parts = text::pieces(entries.last(), '=');
        if parts.len() == 2 {
            before.insert(text::uppercase(text::trimmed(parts[0])), text::trimmed(parts[1]))
        } else {
            before
        }
    }
}

/// The dictionary after an extension record from `p` on, and the position behind it.
pub open spec fn extension_at(s: Seq<u8>, p: int, d: DictionaryView) -> Result<
    (DictionaryView, int),
    SavError,
> {
    if p + 12 > s.len() {
        Err(SavError::UnexpectedEof)
    } else {
        let size = bytes::i32_at(s, p + 4) as int;
        let count = bytes::i32_at(s, p + 8) as int;
        let total = size * count;
        if (size < 0 || count < 0) && total != 0 {
            Err(SavError::Malformed)
        } else if p + 12 + total > s.len() {
            Err(SavError::UnexpectedEof)
        } else if bytes::i32_at(s, p) == 11 {
            let entries = text::pieces(bytes::text_at(s, p + 12, total), '\t');
            Ok(
                (
                    DictionaryView { long_names: names_and(d.long_names, entries), ..d },
                    p + 12 + total,
                ),
            )
        } else if bytes::i32_at(s, p) == LEVELS_SUBTYPE {
            Ok(
                (
                    DictionaryView { levels: s.subrange(p + 12, p + 12 + total), ..d },
                    p + 12 + total,
                ),
            )
        } else {
            Ok((d, p + 12 + total))
        }
    }
}

/// The dictionary after the record from `p` on, and the position behind it.
pub open spec fn dictionary_step(s: Seq<u8>, p: int, d: DictionaryView) -> Result<
    (DictionaryView, int),
    SavError,
> {
    let t = bytes::i32_at(s, p);
    if t == 2 {
        match record_at(s, p + 4) {
            Err(e) => Err(e),
            Ok((r, q)) => Ok((DictionaryView { records: d.records.push(r), ..d }, q)),
        }
    } else if t == 3 {
        match value_labels_at(s, p + 4, d.records) {
            Err(e) => Err(e),
            Ok((records, q)) => Ok((DictionaryView { records, ..d }, q)),
        }
    } else if t == 7 {
        extension_at(s, p + 4, d)
    } else {
        Err(SavError::UnsupportedRecord(t))
    }
}

/// The dictionary after all records from `p` on, and the position behind them.
pub open spec fn dictionary_at(s: Seq<u8>, p: int, d: DictionaryView) -> Result<
    (DictionaryView, int),
    SavError,
>
    decreases s.len() - p,
{
    if p < 0 || p + 4 > s.len() {
        Err(SavError::UnexpectedEof)
    } else if bytes::i32_at(s, p) == 999 {
        if p + 8 > s.len() {
            Err(SavError::UnexpectedEof)
        } else {
            Ok((d, p + 8))
        }
    } else {
        match dictionary_step(s, p, d) {
            Err(e) => Err(e),
            Ok((next, q)) => {
                proof {
                    lemma_step_advances(s, p, d);
                }
                dictionary_at(s, q, next)
            },
        }
    }
}

pub proof fn lemma_labels_advance(
    s: Seq<u8>,
    p: int,
    count: nat,
    acc: Seq<(Number, Seq<char>)>,
)
    requires
        p <= s.len(),
    ensures
        labels_at(s, p, count, acc) matches Ok((_, q)) ==> p <= q <= s.len(),
    decreases count,
{
    if count > 0 && p + 9 <= s.len() {
        let len = s[p + 8] as int;
        if p + 8 + padded8(len + 1) <= s.len() {
            lemma_labels_advance(
                s,
                p + 8 + padded8(len + 1),
                (count - 1) as nat,
                acc.push((bytes::number_at(s, p), bytes::text_at(s, p + 9, len))),
            );
        }
    }
}

pub proof fn lemma_targets_advance(
    s: Seq<u8>,
    p: int,
    count: int,
    records: Seq<RecordView>,
    new: Seq<(Number, Seq<char>)>,
)
    requires
        p <= s.len(),
    ensures
        targets_at(s, p, count, records, new) matches Ok((after, q)) ==> p <= q <= s.len()
            && after.len() == records.len(),
    decreases s.len() - p,
{
    if count != 0 && p + 4 <= s.len() {
        lemma_targets_advance(
            s,
            p + 4,
            count - 1,
            labelled(records, bytes::i32_at(s, p) - 1, new),
            new,
        );
    }
}

/// A record takes bytes, and none behind the end of the file.
pub proof fn lemma_step_advances(s: Seq<u8>, p: int, d: DictionaryView)
    requires
        0 <= p,
        p + 4 <= s.len(),
    ensures
        dictionary_step(s, p, d) matches Ok((_, q)) ==> p < q <= s.len(),
{
    let t = bytes::i32_at(s, p);
    if t == 2 {
    } else if t == 3 {
        if p + 8 <= s.len() && bytes::i32_at(s, p + 4) >= 0 {
            let count = bytes::i32_at(s, p + 4) as nat;
            lemma_labels_advance(s, p + 8, count, Seq::empty());
            match labels_at(s, p + 8, count, Seq::empty()) {
                Ok((new, q)) => {
                    if q + 8 <= s.len() {
                        lemma_targets_advance(
                            s,
                            q + 8,
                            bytes::i32_at(s, q + 4) as int,
                            d.records,
                            new,
                        );
                    }
                },
                Err(_) => {},
            }
        }
    } else if t == 7 && p + 16 <= s.len() {
        let size = bytes::i32_at(s, p + 8) as int;
        let count = bytes::i32_at(s, p + 12) as int;
        if size >= 0 && count >= 0 {
            assert(size * count >= 0) by (nonlinear_arith)
                requires
                    size >= 0,
                    count >= 0,
            ;
        }
    }
}

/// A record with its long name, where it has one.
pub open spec fn renamed(r: RecordView, names: Map<Seq<char>, Seq<char>>) -> RecordView {
    let key = text::uppercase(r.name);
    if names.contains_key(key) {
        RecordView { name: names[key], ..r }
    } else {
        r
    }
}

/// The variable that a record and a measurement level define.
pub open spec fn variable_of_record(r: RecordView, measure: MeasureLevel) -> VariableView {
    VariableView {
        name: r.name,
        var_type: r.var_type,
        measure,
        label: r.label,
        value_labels: r.value_labels,
        missing: r.missing,
        print_width: r.print_width,
        print_decimals: r.print_decimals,
    }
}

/// The variables that the records before the `n`th define, without the
/// continuations of long strings.
pub open spec fn variables_of(
    records: Seq<RecordView>,
    names: Map<Seq<char>, Seq<char>>,
    levels: Seq<u8>,
    n: int,
) -> Seq<VariableView>
    decreases n,
{
    if n <= 0 {
        Seq::empty()
    } else {
        let before = variables_of(records, names, levels, n - 1);
        let r = records[n - 1];
        if r.is_continuation {
            before
        } else {
            before.push(variable_of_record(renamed(r, names), level_of(levels, before.len() as int)))
        }
    }
}

/// A position in the case data: the next byte, the current eight commands and
/// the next of them.
#[verifier::ext_equal]
pub struct StreamView {
    pub pos: int,
    pub commands: Seq<u8>,
    pub idx: int,
}

/// The start of the case data.
pub open spec fn stream_from(p: int) -> StreamView {
    StreamView { pos: p, commands: bytes::run_of(0, 8), idx: 8 }
}

/// With the next eight commands where the current ones are used up.
pub open spec fn refilled(s: Seq<u8>, st: StreamView) -> Option<StreamView> {
    if st.idx < 8 {
        Some(st)
    } else if st.pos + 8 > s.len() {
        None
    } else {
        Some(
            StreamView { pos: st.pos + 8, commands: s.subrange(st.pos, st.pos + 8), idx: 0 },
        )
    }
}

/// The next value of compressed data, and the position behind it. A command 0 is
/// passed over, 252 ends the data, 253 and 254 are followed by a double and by
/// text, 255 is a missing value, and any other command is a number, less the bias.
pub open spec fn next_value<F: Fn(NumOp) -> Number>(
    s: Seq<u8>,
    st: StreamView,
    bias: Number,
    calc: F,
) -> Option<(ValueView, StreamView)>
    decreases s.len() - st.pos, 8 - st.idx,
{
    match refilled(s, st) {
        None => None,
        Some(f) => {
            let cmd = f.commands[f.idx];
            let next = StreamView { idx: f.idx + 1, ..f };
            let behind = StreamView { pos: f.pos + 8, ..next };
            if cmd == 0 {
                next_value(s, next, bias, calc)
            } else if cmd == 252 {
                None
            } else if cmd == 253 {
                if f.pos + 8 > s.len() {
                    None
                } else {
                    Some((ValueView::Numeric(bytes::number_at(s, f.pos)), behind))
                }
            } else if cmd == 254 {
                if f.pos + 8 > s.len() {
                    None
                } else {
                    Some(
                        (
                            ValueView::String(text::lossy_text(s.subrange(f.pos, f.pos + 8))),
                            behind,
                        ),
                    )
                }
            } else if cmd == 255 {
                Some((ValueView::SystemMissing, next))
            } else {
                Some(
                    (
                        ValueView::Numeric(
                            arith::meaning(calc, NumOp::Sub(number::nearest(cmd as int), bias)),
                        ),
                        next,
                    ),
                )
            }
        },
    }
}

/// The next value of uncompressed data.
pub open spec fn plain_value(s: Seq<u8>, st: StreamView, numeric: bool) -> Option<
    (ValueView, StreamView),
> {
    if st.pos + 8 > s.len() {
        None
    } else {
        let behind = StreamView { pos: st.pos + 8, ..st };
        let n = bytes::number_at(s, st.pos);
        if !numeric {
            Some((ValueView::String(text::lossy_text(s.subrange(st.pos, st.pos + 8))), behind))
        } else if n.nan() {
            Some((ValueView::SystemMissing, behind))
        } else {
            Some((ValueView::Numeric(n), behind))
        }
    }
}

/// The next value of the data.
pub open spec fn fetched<F: Fn(NumOp) -> Number>(
    s: Seq<u8>,
    st: StreamView,
    h: SavHeader,
    numeric: bool,
    calc: F,
) -> Option<(ValueView, StreamView)> {
    if h.compression == 1 {
        next_value(s, st, h.bias, calc)
    } else {
        plain_value(s, st, numeric)
    }
}

/// A row that is being read: the values so far, the text of a long string and
/// how many of its blocks are still to come.
#[verifier::ext_equal]
pub struct RowView {
    pub stream: StreamView,
    pub row: Seq<ValueView>,
    pub text: Seq<char>,
    pub open: int,
}

/// A row before its first value.
pub open spec fn row_from(st: StreamView) -> RowView {
    RowView { stream: st, row: Seq::empty(), text: Seq::empty(), open: 0 }
}

/// The text of a value, and none of another.
pub open spec fn text_or(v: ValueView, other: Seq<char>) -> Seq<char> {
    match v {
        ValueView::String(t) => t,
        _ => other,
    }
}

/// The number of blocks of eight bytes that a width takes.
pub open spec fn blocks_of(width: u32) -> int {
    (width as int + 7) / 8
}

/// A row after the value of a record.
pub open spec fn row_step<F: Fn(NumOp) -> Number>(
    s: Seq<u8>,
    h: SavHeader,
    r: RecordView,
    st: RowView,
    calc: F,
) -> Option<RowView> {
    if r.is_continuation && st.open <= 0 {
        Some(st)
    } else {
        let numeric = !r.is_continuation && r.var_type is Numeric;
        match fetched(s, st.stream, h, numeric, calc) {
            None => None,
            Some((v, stream)) => {
                let here = RowView { stream, ..st };
                if r.is_continuation {
                    let whole = st.text + text_or(v, Seq::empty());
                    if st.open == 1 {
                        Some(
                            RowView {
                                row: st.row.push(ValueView::String(text::trimmed_end(whole))),
                                text: Seq::empty(),
                                open: 0,
                                ..here
                            },
                        )
                    } else {
                        Some(RowView { text: whole, open: st.open - 1, ..here })
                    }
                } else {
                    match r.var_type {
                        VariableType::Numeric => Some(RowView { row: st.row.push(v), ..here }),
                        VariableType::String(width) => if blocks_of(width) > 1 {
                            Some(
                                RowView {
                                    text: text_or(v, st.text),
                                    open: blocks_of(width) - 1,
                                    ..here
                                },
                            )
                        } else {
                            let cell = match v {
                                ValueView::String(t) => ValueView::String(text::trimmed_end(t)),
                                _ => ValueView::SystemMissing,
                            };
                            Some(RowView { row: st.row.push(cell), ..here })
                        },
                    }
                }
            },
        }
    }
}

/// A row after the values of the records from the `k`th on.
pub open spec fn row_at<F: Fn(NumOp) -> Number>(
    s: Seq<u8>,
    h: SavHeader,
    records: Seq<RecordView>,
    k: int,
    st: RowView,
    calc: F,
) -> Option<RowView>
    decreases records.len() - k,
{
    if k < 0 || k >= records.len() {
        Some(st)
    } else {
        match row_step(s, h, records[k], st, calc) {
            None => None,
            Some(next) => row_at(s, h, records, k + 1, next, calc),
        }
    }
}

/// A value can stand in a column of a type.
pub open spec fn suits(t: VariableType, v: ValueView) -> bool {
    match (t, v) {
        (VariableType::Numeric, ValueView::String(_)) => false,
        (VariableType::String(_), ValueView::Numeric(_)) => false,
        _ => true,
    }
}

/// Every value of a row can stand in its column.
pub open spec fn row_suits(vars: Seq<VariableView>, row: Seq<ValueView>) -> bool {
    row.len() <= vars.len() && forall|i: int|
        0 <= i < row.len() ==> suits(vars[i].var_type, #[trigger] row[i])
}

/// A value as a column entry.
pub open spec fn cell_of(v: ValueView) -> CellView {
    match v {
        ValueView::Numeric(n) => CellView::Number(n),
        ValueView::String(t) => CellView::Text(t),
        ValueView::SystemMissing => CellView::Null,
    }
}

/// The columns after a row: the `i`th value goes to the `i`th column.
pub open spec fn with_row(columns: Seq<Seq<CellView>>, row: Seq<ValueView>) -> Seq<Seq<CellView>> {
    Seq::new(
        columns.len(),
        |i: int|
            if i < row.len() {
                columns[i].push(cell_of(row[i]))
            } else {
                columns[i]
            },
    )
}

/// How much of the data is left.
pub open spec fn left_of(s: Seq<u8>, st: StreamView) -> nat {
    let bytes = if st.pos <= s.len() {
        s.len() - st.pos
    } else {
        0
    };
    let commands = if st.idx <= 8 {
        8 - st.idx
    } else {
        0
    };
    (9 * bytes + commands) as nat
}

/// A variable of the dictionary from the `k`th record on.
pub open spec fn has_primary(records: Seq<RecordView>, k: int) -> bool {
    exists|i: int| k <= i < records.len() && !(#[trigger] records[i]).is_continuation
}

/// The columns after all cases: as many as are `left`, or up to the end of the
/// data where that is negative. The data may end before.
pub open spec fn cases_at<F: Fn(NumOp) -> Number>(
    s: Seq<u8>,
    h: SavHeader,
    records: Seq<RecordView>,
    vars: Seq<VariableView>,
    st: StreamView,
    columns: Seq<Seq<CellView>>,
    left: int,
    calc: F,
) -> Result<Seq<Seq<CellView>>, SavError>
    decreases left_of(s, st),
{
    if left == 0 {
        Ok(columns)
    } else if !has_primary(records, 0) {
        if left < 0 {
            Err(SavError::Malformed)
        } else {
            Ok(columns)
        }
    } else {
        match row_at(s, h, records, 0, row_from(st), calc) {
            None => Ok(columns),
            Some(done) => if !row_suits(vars, done.row) {
                Err(SavError::Malformed)
            } else {
                proof {
                    lemma_row_advances(s, h, records, 0, row_from(st), calc);
                }
                cases_at(
                    s,
                    h,
                    records,
                    vars,
                    done.stream,
                    with_row(columns, done.row),
                    left - 1,
                    calc,
                )
            },
        }
    }
}

pub proof fn lemma_value_advances<F: Fn(NumOp) -> Number>(
    s: Seq<u8>,
    st: StreamView,
    bias: Number,
    calc: F,
)
    ensures
        next_value(s, st, bias, calc) matches Some((_, after)) ==> left_of(s, after) < left_of(
            s,
            st,
        ),
    decreases s.len() - st.pos, 8 - st.idx,
{
    match refilled(s, st) {
        None => {},
        Some(f) => {
            if f.commands[f.idx] == 0 {
                lemma_value_advances(s, StreamView { idx: f.idx + 1, ..f }, bias, calc);
            }
        },
    }
}

/// A row with a variable takes some of the data.
pub proof fn lemma_row_advances<F: Fn(NumOp) -> Number>(
    s: Seq<u8>,
    h: SavHeader,
    records: Seq<RecordView>,
    k: int,
    st: RowView,
    calc: F,
)
    requires
        0 <= k,
    ensures
        row_at(s, h, records, k, st, calc) matches Some(done) ==> left_of(s, done.stream)
            <= left_of(s, st.stream) && (has_primary(records, k) ==> left_of(s, done.stream)
            < left_of(s, st.stream)),
    decreases records.len() - k,
{
    if k < records.len() {
        lemma_value_advances(s, st.stream, h.bias, calc);
        match row_step(s, h, records[k], st, calc) {
            None => {},
            Some(next) => {
                lemma_row_advances(s, h, records, k + 1, next, calc);
                if has_primary(records, k) && records[k].is_continuation {
                    assert(has_primary(records, k + 1));
                }
            },
        }
    }
}

/// The columns of the variables.
pub open spec fn columns_for(
    vars: Seq<VariableView>,
    cells: Seq<Seq<CellView>>,
) -> Seq<ColumnView> {
    Seq::new(
        vars.len(),
        |i: int| ColumnView { kind: batch::kind_of_type(vars[i].var_type), cells: cells[i] },
    )
}

/// The dataset of variables and their columns.
pub open spec fn table_of(vars: Seq<VariableView>, cells: Seq<Seq<CellView>>) -> Result<
    DatasetView,
    SavError,
> {
    if vars.len() == 0 {
        Err(SavError::NoColumns)
    } else if !batch::same_lengths(columns_for(vars, cells), cells[0].len()) {
        Err(SavError::UnevenColumns)
    } else {
        Ok(
            dataset::dataset_of(
                vars,
                seq![
                    BatchView {
                        fields: dataset::fields_for(vars),
                        columns: columns_for(vars, cells),
                        num_rows: cells[0].len() as usize,
                    },
                ],
            ),
        )
    }
}

/// `n` columns without entries.
pub open spec fn no_cells(n: nat) -> Seq<Seq<CellView>> {
    Seq::new(n, |i: int| Seq::empty())
}

/// The dataset that a file holds, or why it holds none.
pub open spec fn sav_dataset<F: Fn(NumOp) -> Number>(s: Seq<u8>, calc: F) -> Result<
    DatasetView,
    SavError,
> {
    match header_at(s) {
        Err(e) => Err(e),
        Ok(h) => match dictionary_at(s, 176, empty_dictionary()) {
            Err(e) => Err(e),
            Ok((d, p)) => {
                let vars = variables_of(
                    d.records,
                    d.long_names,
                    d.levels,
                    d.records.len() as int,
                );
                match cases_at(
                    s,
                    h,
                    d.records,
                    vars,
                    stream_from(p),
                    no_cells(vars.len()),
                    if h.ncases >= 0 {
                        h.ncases as int
                    } else {
                        -1
                    },
                    calc,
                ) {
                    Err(e) => Err(e),
                    Ok(cells) => table_of(vars, cells),
                }
            },
        },
    }
}

/// Flat internal representation of a variable record.
pub struct SavVarRecord {
    pub name: String,
    pub var_type: VariableType,
    pub label: Option<String>,
    pub value_labels: ValueLabels,
    pub missing: MissingValues,
    pub print_width: u8,
    pub print_decimals: u8,
    pub is_continuation: bool,
}

impl View for SavVarRecord {
    type V = RecordView;

    open spec fn view(&self) -> RecordView {
        RecordView {
            name: self.name@,
            var_type: self.var_type,
            label: variable::text_option(self.label),
            value_labels: self.value_labels@,
            missing: self.missing@,
            print_width: self.print_width,
            print_decimals: self.print_decimals,
            is_continuation: self.is_continuation,
        }
    }
}

/// Reads the label of a variable record.
fn read_label(reader: &mut ByteReader, labelled: bool) -> (r: Result<Option<String>, SavError>)
    requires
        old(reader).wf(),
    ensures
        final(reader).wf(),
        final(reader).data@ == old(reader).data@,
        match label_at(old(reader).data@, old(reader).pos as int, labelled) {
            Ok((label, q)) => r matches Ok(x) && variable::text_option(x) == label
                && final(reader).pos == q,
            Err(e) => r == Err::<Option<String>, SavError>(e),
        },
{
    if !labelled {
        return Ok(None);
    }
    let len = match read_i32(reader) {
        Ok(n) => n,
        Err(e) => return Err(e),
    };
    if len < 0 {
        return Err(SavError::Malformed);
    }
    let pad: usize = ((4 - len % 4) % 4) as usize;
    proof {
        assert(len + pad == padded4(len as int));
    }
    let label = match read_string(reader, len as usize) {
        Ok(t) => t,
        Err(e) => return Err(e),
    };
    match reader.skip(pad) {
        Ok(_) => {},
        Err(e) => return Err(e),
    }
    Ok(Some(label))
}

/// Reads the missing values of a variable record.
fn read_missing(reader: &mut ByteReader, n: i32) -> (r: Result<MissingValues, SavError>)
    requires
        old(reader).wf(),
    ensures
        final(reader).wf(),
        final(reader).data@ == old(reader).data@,
        match missing_at(old(reader).data@, old(reader).pos as int, n) {
            Ok((m, q)) => r matches Ok(x) && x@ == m && final(reader).pos == q,
            Err(e) => r == Err::<MissingValues, SavError>(e),
        },
{
    if n == i32::MIN {
        return Err(SavError::Malformed);
    }
    let count: i32 = if n < 0 {
        -n
    } else {
        n
    };
    let ghost s = reader.data@;
    let ghost p = reader.pos as int;
    let mut vals: Vec<Number> = Vec::new();
    let mut i: i32 = 0;
    while i < count
        invariant
            0 <= i <= count,
            n != i32::MIN,
            count == if n < 0 {
                -(n as int)
            } else {
                n as int
            },
            reader.wf(),
            reader.data@ == s,
            reader.pos == p + 8 * i,
            old(reader).data@ == s,
            old(reader).pos == p,
            vals@ =~= numbers_at(s, p, i as int),
        decreases count - i,
    {
        match read_f64(reader) {
            Ok(v) => {
                vals.push(v);
            },
            Err(e) => {
                return Err(e);
            },
        }
        i = i + 1;
    }
    if n > 0 {
        Ok(MissingValues { discrete: vals, range: None })
    } else if n == -2 {
        let m = MissingValues { discrete: Vec::new(), range: Some((vals[0], vals[1])) };
        proof {
            assert(m@ =~= missing_of(n as int, vals@));
        }
        Ok(m)
    } else if n == -3 {
        let mut discrete: Vec<Number> = Vec::new();
        discrete.push(vals[2]);
        let m = MissingValues { discrete, range: Some((vals[0], vals[1])) };
        proof {
            assert(m@ =~= missing_of(n as int, vals@));
        }
        Ok(m)
    } else {
        let m = MissingValues::default();
        Ok(m)
    }
}

/// Reads a variable record behind its record type.
fn read_record(reader: &mut ByteReader) -> (r: Result<SavVarRecord, SavError>)
    requires
        old(reader).wf(),
    ensures
        final(reader).wf(),
        final(reader).data@ == old(reader).data@,
        match record_at(old(reader).data@, old(reader).pos as int) {
            Ok((v, q)) => r matches Ok(x) && x@ == v && final(reader).pos == q,
            Err(e) => r == Err::<SavVarRecord, SavError>(e),
        },
{
    if !reader.can_take(28) {
        return Err(SavError::UnexpectedEof);
    }
    let start = reader.pos;
    let code = match read_i32(reader) {
        Ok(n) => n,
        Err(e) => return Err(e),
    };
    let labelled = match read_i32(reader) {
        Ok(n) => n == 1,
        Err(e) => return Err(e),
    };
    let n_missing = match read_i32(reader) {
        Ok(n) => n,
        Err(e) => return Err(e),
    };
    let print_decimals = reader.data[start + 12];
    let print_width = reader.data[start + 13];
    match reader.skip(8) {
        Ok(_) => {},
        Err(e) => return Err(e),
    }
    let name = match read_string(reader, 8) {
        Ok(t) => t,
        Err(e) => return Err(e),
    };
    let var_type = if code == 0 {
        VariableType::Numeric
    } else if code > 0 {
        VariableType::String(code as u32)
    } else {
        VariableType::String(8)
    };
    let label = match read_label(reader, labelled) {
        Ok(l) => l,
        Err(e) => return Err(e),
    };
    let missing = match read_missing(reader, n_missing) {
        Ok(m) => m,
        Err(e) => return Err(e),
    };
    Ok(
        SavVarRecord {
            name,
            var_type,
            label,
            value_labels: ValueLabels::new(),
            missing,
            print_width,
            print_decimals,
            is_continuation: code == -1,
        },
    )
}

/// Labels of a value label record.
pub open spec fn pairs_view(v: Seq<(Number, String)>) -> Seq<(Number, Seq<char>)> {
    Seq::new(v.len(), |i: int| (v[i].0, v[i].1@))
}

/// Reads the labels of a value label record.
fn read_labels(reader: &mut ByteReader, count: i32) -> (r: Result<Vec<(Number, String)>, SavError>)
    requires
        old(reader).wf(),
        count >= 0,
    ensures
        final(reader).wf(),
        final(reader).data@ == old(reader).data@,
        match labels_at(old(reader).data@, old(reader).pos as int, count as nat, Seq::empty()) {
            Ok((v, q)) => r matches Ok(x) && pairs_view(x@) == v && final(reader).pos == q,
            Err(e) => r matches Err(x) && x == e,
        },
{
    let mut labels: Vec<(Number, String)> = Vec::new();
    let ghost s = reader.data@;
    let ghost start = reader.pos as int;
    proof {
        assert(pairs_view(labels@) =~= Seq::empty());
    }
    let mut left: i32 = count;
    while left > 0
        invariant
            0 <= left,
            count >= 0,
            reader.wf(),
            reader.data@ == s,
            old(reader).data@ == s,
            old(reader).pos == start,
            labels_at(s, start, count as nat, Seq::empty()) == labels_at(
                s,
                reader.pos as int,
                left as nat,
                pairs_view(labels@),
            ),
        decreases left,
    {
        let ghost p = reader.pos as int;
        let ghost before = pairs_view(labels@);
        if !reader.can_take(9) {
            return Err(SavError::UnexpectedEof);
        }
        let value = match read_f64(reader) {
            Ok(n) => n,
            Err(e) => return Err(e),
        };
        let len: usize = reader.data[reader.pos] as usize;
        let pad: usize = 7 - len % 8;
        proof {
            assert(len + 1 + pad == padded8(len + 1));
        }
        match reader.skip(1) {
            Ok(_) => {},
            Err(e) => return Err(e),
        }
        let label = match read_string(reader, len) {
            Ok(t) => t,
            Err(e) => return Err(e),
        };
        match reader.skip(pad) {
            Ok(_) => {},
            Err(e) => return Err(e),
        }
        let ghost text = label@;
        labels.push((value, label));
        proof {
            assert(pairs_view(labels@) =~= before.push((value, text)));
        }
        left = left - 1;
    }
    Ok(labels)
}

/// Puts labels in.
fn add_labels(labels: &mut ValueLabels, new: &Vec<(Number, String)>)
    ensures
        final(labels)@ == labels_and(old(labels)@, pairs_view(new@)),
{
    let ghost pv = pairs_view(new@);
    let ghost before = labels@;
    let mut i: usize = 0;
    proof {
        assert(pv.take(0) =~= Seq::empty());
    }
    while i < new.len()
        invariant
            i <= new.len(),
            pv == pairs_view(new@),
            labels@ == labels_and(before, pv.take(i as int)),
        decreases new.len() - i,
    {
        labels.insert(new[i].0.to_i64(), new[i].1.clone());
        proof {
            assert(pv.take(i + 1).drop_last() =~= pv.take(i as int));
        }
        i = i + 1;
    }
    proof {
        assert(pv.take(pv.len() as int) =~= pv);
    }
}

/// Gives labels to the variables of a list.
fn read_targets(
    reader: &mut ByteReader,
    count: i32,
    records: &mut Vec<SavVarRecord>,
    new: &Vec<(Number, String)>,
) -> (r: Result<(), SavError>)
    requires
        old(reader).wf(),
    ensures
        final(reader).wf(),
        final(reader).data@ == old(reader).data@,
        match targets_at(
            old(reader).data@,
            old(reader).pos as int,
            count as int,
            text::views(old(records)@),
            pairs_view(new@),
        ) {
            Ok((v, q)) => r is Ok && text::views(final(records)@) == v && final(reader).pos == q,
            Err(e) => r == Err::<(), SavError>(e),
        },
{
    let ghost s = reader.data@;
    let ghost start = reader.pos as int;
    let ghost all = text::views(records@);
    let ghost nv = pairs_view(new@);
    let mut done: usize = 0;
    while count < 0 || done < count as usize
        invariant
            count >= 0 ==> done <= count,
            done <= reader.pos,
            reader.wf(),
            reader.data@ == s,
            old(reader).data@ == s,
            old(reader).pos == start,
            all == text::views(old(records)@),
            nv == pairs_view(new@),
            targets_at(s, start, count as int, all, nv) == targets_at(
                s,
                reader.pos as int,
                count - done,
                text::views(records@),
                nv,
            ),
        decreases reader.data@.len() - reader.pos,
    {
        let n = match read_i32(reader) {
            Ok(n) => n,
            Err(e) => return Err(e),
        };
        if n == i32::MIN {
            return Err(SavError::Malformed);
        }
        if n > 0 && ((n - 1) as usize) < records.len() {
            let i: usize = (n - 1) as usize;
            let ghost before = text::views(records@);
            let mut labels = records[i].value_labels.clone();
            add_labels(&mut labels, new);
            let rec = SavVarRecord {
                name: records[i].name.clone(),
                var_type: records[i].var_type,
                label: copy_option(&records[i].label),
                value_labels: labels,
                missing: records[i].missing.clone(),
                print_width: records[i].print_width,
                print_decimals: records[i].print_decimals,
                is_continuation: records[i].is_continuation,
            };
            records.set(i, rec);
            proof {
                assert(text::views(records@) =~= labelled(before, n - 1, nv));
            }
        }
        done = done + 1;
    }
    Ok(())
}

/// Reads a value label record behind its record type, with the record that follows.
fn read_value_labels(reader: &mut ByteReader, records: &mut Vec<SavVarRecord>) -> (r: Result<
    (),
    SavError,
>)
    requires
        old(reader).wf(),
    ensures
        final(reader).wf(),
        final(reader).data@ == old(reader).data@,
        match value_labels_at(
            old(reader).data@,
            old(reader).pos as int,
            text::views(old(records)@),
        ) {
            Ok((v, q)) => r is Ok && text::views(final(records)@) == v && final(reader).pos == q,
            Err(e) => r == Err::<(), SavError>(e),
        },
{
    let count = match read_i32(reader) {
        Ok(n) => n,
        Err(e) => return Err(e),
    };
    if count < 0 {
        return Err(SavError::Malformed);
    }
    let new = match read_labels(reader, count) {
        Ok(v) => v,
        Err(e) => return Err(e),
    };
    let follow = match read_i32(reader) {
        Ok(n) => n,
        Err(e) => return Err(e),
    };
    if follow != 4 {
        return Err(SavError::LabelsWithoutVariables);
    }
    let targets = match read_i32(reader) {
        Ok(n) => n,
        Err(e) => return Err(e),
    };
    read_targets(reader, targets, records, &new)
}

/// The contents of a map from names to names.
pub open spec fn name_map(m: Map<Seq<char>, String>) -> Map<Seq<char>, Seq<char>> {
    m.map_values(|s: String| s@)
}

/// Puts in the names of a list of entries.
fn add_names(names: &mut StringHashMap<String>, entries: &Vec<String>)
    ensures
        name_map(final(names)@) == names_and(name_map(old(names)@), text::views(entries@)),
{
    let ghost ev = text::views(entries@);
    let ghost before = name_map(names@);
    let mut i: usize = 0;
    proof {
        assert(ev.take(0) =~= Seq::empty());
    }
    while i < entries.len()
        invariant
            i <= entries.len(),
            ev == text::views(entries@),
            name_map(names@) == names_and(before, ev.take(i as int)),
        decreases entries.len() - i,
    {
        let parts = split(entries[i].as_str(), '=');
        proof {
            assert(ev.take(i + 1).drop_last() =~= ev.take(i as int));
            assert(text::views(parts@) == text::pieces(ev[i as int], '='));
        }
        if parts.len() == 2 {
            let short = trim(parts[0].as_str());
            let key = to_upper(short.as_str());
            let long = trim(parts[1].as_str());
            let ghost old_names = names@;
            let ghost k = key@;
            let ghost v = long;
            names.insert(key, long);
            proof {
                assert(name_map(names@) =~= name_map(old_names).insert(k, v@));
            }
        }
        i = i + 1;
    }
    proof {
        assert(ev.take(ev.len() as int) =~= ev);
    }
}

/// Reads an extension record behind its record type.
fn read_extension(
    reader: &mut ByteReader,
    names: &mut StringHashMap<String>,
    levels: &mut Vec<u8>,
    Ghost(records): Ghost<Seq<RecordView>>,
) -> (r: Result<(), SavError>)
    requires
        old(reader).wf(),
    ensures
        final(reader).wf(),
        final(reader).data@ == old(reader).data@,
        match extension_at(
            old(reader).data@,
            old(reader).pos as int,
            (DictionaryView {
                records,
                long_names: name_map(old(names)@),
                levels: old(levels)@,
            }),
        ) {
            Ok((d, q)) => r is Ok && d == (DictionaryView {
                records,
                long_names: name_map(final(names)@),
                levels: final(levels)@,
            }) && final(reader).pos == q,
            Err(e) => r == Err::<(), SavError>(e),
        },
{
    if !reader.can_take(12) {
        return Err(SavError::UnexpectedEof);
    }
    let subtype = match read_i32(reader) {
        Ok(n) => n,
        Err(e) => return Err(e),
    };
    let size = match read_i32(reader) {
        Ok(n) => n,
        Err(e) => return Err(e),
    };
    let count = match read_i32(reader) {
        Ok(n) => n,
        Err(e) => return Err(e),
    };
    proof {
        assert(-0x4000_0000_0000_0000 <= size * count <= 0x4000_0000_0000_0000) by (nonlinear_arith)
            requires
                -0x8000_0000 <= size <= 0x7fff_ffff,
                -0x8000_0000 <= count <= 0x7fff_ffff,
        ;
        if size >= 0 && count >= 0 {
            assert(size * count >= 0) by (nonlinear_arith)
                requires
                    size >= 0,
                    count >= 0,
            ;
        }
    }
    let total: i64 = (size as i64) * (count as i64);
    if (size < 0 || count < 0) && total != 0 {
        return Err(SavError::Malformed);
    }
    if total as u64 > (reader.data.len() - reader.pos) as u64 {
        return Err(SavError::UnexpectedEof);
    }
    let len: usize = total as usize;
    if subtype == 11 {
        let list = match read_string(reader, len) {
            Ok(t) => t,
            Err(e) => return Err(e),
        };
        let entries = split(list.as_str(), '\t');
        add_names(names, &entries);
        Ok(())
    } else if subtype == LEVELS_SUBTYPE {
        let mut found: Vec<u8> = Vec::new();
        let ghost s = reader.data@;
        let from = reader.pos;
        proof {
            assert(from + len <= reader.data.len());
        }
        let mut i: usize = 0;
        while i < len
            invariant
                i <= len,
                reader.wf(),
                reader.data@ == s,
                reader.pos == from,
                from + len <= s.len(),
                from + len <= usize::MAX,
                found@ =~= s.subrange(from as int, from + i),
            decreases len - i,
        {
            found.push(reader.data[from + i]);
            i = i + 1;
        }
        *levels = found;
        reader.skip(len)
    } else {
        reader.skip(len)
    }
}

/// Reads the dictionary.
fn read_dictionary(reader: &mut ByteReader) -> (r: Result<
    (Vec<SavVarRecord>, StringHashMap<String>, Vec<u8>),
    SavError,
>)
    requires
        old(reader).wf(),
    ensures
        final(reader).wf(),
        final(reader).data@ == old(reader).data@,
        match dictionary_at(old(reader).data@, old(reader).pos as int, empty_dictionary()) {
            Ok((d, q)) => r matches Ok((records, names, levels)) && text::views(records@)
                == d.records && name_map(names@) == d.long_names && levels@ == d.levels
                && final(reader).pos == q,
            Err(e) => r matches Err(x) && x == e,
        },
{
    let mut records: Vec<SavVarRecord> = Vec::new();
    let mut names: StringHashMap<String> = StringHashMap::new();
    let mut levels: Vec<u8> = Vec::new();
    let ghost s = reader.data@;
    let ghost start = reader.pos as int;
    let ghost empty = empty_dictionary();
    proof {
        assert(text::views(records@) =~= Seq::empty());
        assert(name_map(names@) =~= Map::empty());
    }
    loop
        invariant
            reader.wf(),
            reader.data@ == s,
            old(reader).data@ == s,
            old(reader).pos == start,
            empty == empty_dictionary(),
            dictionary_at(s, start, empty) == dictionary_at(
                s,
                reader.pos as int,
                (DictionaryView {
                    records: text::views(records@),
                    long_names: name_map(names@),
                    levels: levels@,
                }),
            ),
        decreases s.len() - reader.pos,
    {
        let ghost p = reader.pos as int;
        let ghost d = DictionaryView {
            records: text::views(records@),
            long_names: name_map(names@),
            levels: levels@,
        };
        let rec_type = match read_i32(reader) {
            Ok(n) => n,
            Err(e) => return Err(e),
        };
        if rec_type == 999 {
            match read_i32(reader) {
                Ok(_) => {},
                Err(e) => return Err(e),
            }
            return Ok((records, names, levels));
        }
        proof {
            lemma_step_advances(s, p, d);
        }
        if rec_type == 2 {
            match read_record(reader) {
                Ok(rec) => {
                    records.push(rec);
                },
                Err(e) => return Err(e),
            }
        } else if rec_type == 3 {
            match read_value_labels(reader, &mut records) {
                Ok(_) => {},
                Err(e) => return Err(e),
            }
        } else if rec_type == 7 {
            match read_extension(reader, &mut names, &mut levels, Ghost(d.records)) {
                Ok(_) => {},
                Err(e) => return Err(e),
            }
        } else {
            return Err(SavError::UnsupportedRecord(rec_type));
        }
    }
}

/// The measurement level of the `i`th variable.
fn level_from(levels: &Vec<u8>, i: usize) -> (r: MeasureLevel)
    ensures
        r == level_of(levels@, i as int),
{
    if i < levels.len() && levels[i] == 1 {
        MeasureLevel::Nominal
    } else if i < levels.len() && levels[i] == 2 {
        MeasureLevel::Ordinal
    } else {
        MeasureLevel::Scale
    }
}

/// The variables of the dictionary.
fn collect_variables(
    records: &Vec<SavVarRecord>,
    names: &StringHashMap<String>,
    levels: &Vec<u8>,
) -> (r: Vec<Variable>)
    ensures
        text::views(r@) == variables_of(
            text::views(records@),
            name_map(names@),
            levels@,
            records@.len() as int,
        ),
{
    let ghost rv = text::views(records@);
    let mut vars: Vec<Variable> = Vec::new();
    let mut i: usize = 0;
    proof {
        assert(text::views(vars@) =~= Seq::empty());
    }
    while i < records.len()
        invariant
            i <= records.len(),
            rv == text::views(records@),
            text::views(vars@) == variables_of(rv, name_map(names@), levels@, i as int),
        decreases records.len() - i,
    {
        let rec = &records[i];
        if !rec.is_continuation {
            let key = to_upper(rec.name.as_str());
            let name = match names.get(key.as_str()) {
                Some(long) => long.clone(),
                None => rec.name.clone(),
            };
            let var = Variable {
                name,
                var_type: rec.var_type,
                measure: level_from(levels, vars.len()),
                label: copy_option(&rec.label),
                value_labels: rec.value_labels.clone(),
                missing: rec.missing.clone(),
                print_width: rec.print_width,
                print_decimals: rec.print_decimals,
            };
            vars.push(var);
        }
        i = i + 1;
    }
    vars
}

/// Reads the header.
fn read_header(reader: &mut ByteReader) -> (r: Result<SavHeader, SavError>)
    requires
        old(reader).wf(),
        old(reader).pos == 0,
    ensures
        final(reader).wf(),
        final(reader).data@ == old(reader).data@,
        match header_at(old(reader).data@) {
            Ok(h) => r == Ok::<SavHeader, SavError>(h) && final(reader).pos == 176,
            Err(e) => r == Err::<SavHeader, SavError>(e),
        },
{
    let rec_type = match read_string(reader, 4) {
        Ok(t) => t,
        Err(e) => return Err(e),
    };
    if !same_text(rec_type.as_str(), "$FL2") && !same_text(rec_type.as_str(), "$FL3") {
        return Err(SavError::InvalidHeader);
    }
    match reader.skip(60) {
        Ok(_) => {},
        Err(e) => return Err(e),
    }
    let layout = match read_i32(reader) {
        Ok(n) => n,
        Err(e) => return Err(e),
    };
    if layout != 2 {
        return Err(SavError::InvalidLayout(layout));
    }
    match reader.skip(4) {
        Ok(_) => {},
        Err(e) => return Err(e),
    }
    let compression = match read_i32(reader) {
        Ok(n) => n,
        Err(e) => return Err(e),
    };
    match reader.skip(4) {
        Ok(_) => {},
        Err(e) => return Err(e),
    }
    let ncases = match read_i32(reader) {
        Ok(n) => n,
        Err(e) => return Err(e),
    };
    let bias = match read_f64(reader) {
        Ok(n) => n,
        Err(e) => return Err(e),
    };
    match reader.skip(84) {
        Ok(_) => {},
        Err(e) => return Err(e),
    }
    Ok(SavHeader { compression, ncases, bias })
}

/// The commands of compressed data: eight at a time.
pub struct CompressedReader {
    pub commands: [u8; 8],
    pub cmd_idx: usize,
}

impl CompressedReader {
    /// The position in the data, where the next byte is at `pos`.
    pub open spec fn at(&self, pos: usize) -> StreamView {
        StreamView { pos: pos as int, commands: self.commands@, idx: self.cmd_idx as int }
    }

    /// Before the first command.
    pub fn new() -> (r: Self)
        ensures
            forall|p: usize| #[trigger] r.at(p) == stream_from(p as int),
            r.cmd_idx == 8,
    {
        let r = CompressedReader { commands: [0; 8], cmd_idx: 8 };
        proof {
            assert(r.commands@ =~= bytes::run_of(0, 8));
        }
        r
    }

    /// Reads the next value.
    pub fn read_next_value<F: Fn(NumOp) -> Number>(
        &mut self,
        reader: &mut ByteReader,
        bias: Number,
        calc: &F,
    ) -> (r: Option<Value>)
        requires
            old(reader).wf(),
            arith::steady(*calc),
        ensures
            final(reader).wf(),
            final(reader).data@ == old(reader).data@,
            match next_value(old(reader).data@, old(self).at(old(reader).pos), bias, *calc) {
                Some((v, st)) => r matches Some(x) && x@ == v && final(self).at(final(reader).pos)
                    == st,
                None => r is None,
            },
    {
        let ghost s = reader.data@;
        let ghost start = self.at(reader.pos);
        loop
            invariant
                reader.wf(),
                reader.data@ == s,
                old(reader).data@ == s,
                start == old(self).at(old(reader).pos),
                arith::steady(*calc),
                next_value(s, start, bias, *calc) == next_value(s, self.at(reader.pos), bias, *calc),
            decreases s.len() - reader.pos, 8 - self.cmd_idx,
        {
            let ghost here = self.at(reader.pos);
            if self.cmd_idx >= 8 {
                if !reader.can_take(8) {
                    return None;
                }
                let p = reader.pos;
                self.commands = [
                    reader.data[p],
                    reader.data[p + 1],
                    reader.data[p + 2],
                    reader.data[p + 3],
                    reader.data[p + 4],
                    reader.data[p + 5],
                    reader.data[p + 6],
                    reader.data[p + 7],
                ];
                self.cmd_idx = 0;
                reader.pos = p + 8;
                proof {
                    assert(self.commands@ =~= s.subrange(p as int, p + 8));
                }
            }
            proof {
                assert(refilled(s, here) == Some(self.at(reader.pos)));
            }
            let cmd = self.commands[self.cmd_idx];
            self.cmd_idx = self.cmd_idx + 1;
            if cmd == 0 {
                continue ;
            }
            if cmd == 252 {
                return None;
            }
            if cmd == 253 {
                return match read_f64(reader) {
                    Ok(n) => Some(Value::Numeric(n)),
                    Err(_) => None,
                };
            }
            if cmd == 254 {
                if !reader.can_take(8) {
                    return None;
                }
                let t = decode_at(&reader.data, reader.pos, reader.pos + 8);
                reader.pos = reader.pos + 8;
                return Some(Value::String(t));
            }
            if cmd == 255 {
                return Some(Value::SystemMissing);
            }
            let n = perform(calc, NumOp::Sub(Number::from_usize(cmd as usize), bias));
            return Some(Value::Numeric(n));
        }
    }

    /// Reads the next value of the data.
    fn fetch<F: Fn(NumOp) -> Number>(
        &mut self,
        reader: &mut ByteReader,
        h: SavHeader,
        numeric: bool,
        calc: &F,
    ) -> (r: Option<Value>)
        requires
            old(reader).wf(),
            arith::steady(*calc),
        ensures
            final(reader).wf(),
            final(reader).data@ == old(reader).data@,
            match fetched(old(reader).data@, old(self).at(old(reader).pos), h, numeric, *calc) {
                Some((v, st)) => r matches Some(x) && x@ == v && final(self).at(final(reader).pos)
                    == st,
                None => r is None,
            },
    {
        if h.compression == 1 {
            return self.read_next_value(reader, h.bias, calc);
        }
        if !reader.can_take(8) {
            return None;
        }
        if !numeric {
            let t = decode_at(&reader.data, reader.pos, reader.pos + 8);
            reader.pos = reader.pos + 8;
            return Some(Value::String(t));
        }
        match read_f64(reader) {
            Ok(n) => if n.is_nan() {
                Some(Value::SystemMissing)
            } else {
                Some(Value::Numeric(n))
            },
            Err(_) => None,
        }
    }
}

/// Reads one row.
fn read_row<F: Fn(NumOp) -> Number>(
    stream: &mut CompressedReader,
    reader: &mut ByteReader,
    records: &Vec<SavVarRecord>,
    h: SavHeader,
    calc: &F,
) -> (r: Option<Vec<Value>>)
    requires
        old(reader).wf(),
        arith::steady(*calc),
    ensures
        final(reader).wf(),
        final(reader).data@ == old(reader).data@,
        match row_at(
            old(reader).data@,
            h,
            text::views(records@),
            0,
            row_from(old(stream).at(old(reader).pos)),
            *calc,
        ) {
            Some(done) => r matches Some(row) && text::views(row@) == done.row && final(stream).at(
                final(reader).pos,
            ) == done.stream,
            None => r is None,
        },
{
    let ghost s = reader.data@;
    let ghost rv = text::views(records@);
    let ghost start = row_from(stream.at(reader.pos));
    let mut row: Vec<Value> = Vec::new();
    let mut text = String::new();
    let mut open: usize = 0;
    let mut k: usize = 0;
    proof {
        assert(text::views(row@) =~= Seq::empty());
        assert(text@ =~= Seq::empty());
    }
    while k < records.len()
        invariant
            k <= records.len(),
            reader.wf(),
            reader.data@ == s,
            old(reader).data@ == s,
            rv == text::views(records@),
            start == row_from(old(stream).at(old(reader).pos)),
            arith::steady(*calc),
            row_at(s, h, rv, 0, start, *calc) == row_at(
                s,
                h,
                rv,
                k as int,
                (RowView {
                    stream: stream.at(reader.pos),
                    row: text::views(row@),
                    text: text@,
                    open: open as int,
                }),
                *calc,
            ),
        decreases records.len() - k,
    {
        let rec = &records[k];
        let ghost here = RowView {
            stream: stream.at(reader.pos),
            row: text::views(row@),
            text: text@,
            open: open as int,
        };
        if rec.is_continuation {
            if open > 0 {
                let v = match stream.fetch(reader, h, false, calc) {
                    Some(v) => v,
                    None => return None,
                };
                if let Value::String(t) = &v {
                    text.append(t.as_str());
                }
                proof {
                    assert(text@ =~= here.text + text_or(v@, Seq::empty()));
                }
                open = open - 1;
                if open == 0 {
                    row.push(Value::String(trim_end(text.as_str())));
                    text = String::new();
                    proof {
                        assert(text@ =~= Seq::empty());
                    }
                }
            }
        } else {
            let numeric = matches!(rec.var_type, VariableType::Numeric);
            let v = match stream.fetch(reader, h, numeric, calc) {
                Some(v) => v,
                None => return None,
            };
            match rec.var_type {
                VariableType::Numeric => {
                    row.push(v);
                },
                VariableType::String(width) => {
                    let blocks: usize = width as usize / 8 + (if width % 8 == 0 {
                        0
                    } else {
                        1
                    });
                    proof {
                        assert(blocks == blocks_of(width));
                    }
                    if blocks > 1 {
                        open = blocks - 1;
                        if let Value::String(t) = v {
                            text = t;
                        }
                    } else {
                        let cell = match v {
                            Value::String(t) => Value::String(trim_end(t.as_str())),
                            _ => Value::SystemMissing,
                        };
                        row.push(cell);
                    }
                },
            }
        }
        proof {
            assert(row_step(s, h, rv[k as int], here, *calc) == Some(
                RowView {
                    stream: stream.at(reader.pos),
                    row: text::views(row@),
                    text: text@,
                    open: open as int,
                },
            ));
        }
        k = k + 1;
    }
    Some(row)
}

/// The entries of several columns.
pub open spec fn cells_view(columns: Seq<Vec<Cell>>) -> Seq<Seq<CellView>> {
    Seq::new(columns.len(), |i: int| text::views(columns[i]@))
}

/// Puts a row behind the columns, where each value suits its column.
fn append_row(columns: &mut Vec<Vec<Cell>>, vars: &Vec<Variable>, row: Vec<Value>) -> (r: bool)
    requires
        old(columns)@.len() == vars@.len(),
    ensures
        final(columns)@.len() == vars@.len(),
        r == row_suits(text::views(vars@), text::views(row@)),
        r ==> cells_view(final(columns)@) == with_row(
            cells_view(old(columns)@),
            text::views(row@),
        ),
{
    let ghost vv = text::views(vars@);
    let ghost rv = text::views(row@);
    let ghost before = cells_view(columns@);
    if row.len() > vars.len() {
        return false;
    }
    let mut i: usize = 0;
    while i < row.len()
        invariant
            i <= row.len() <= vars.len(),
            vv == text::views(vars@),
            rv == text::views(row@),
            columns@.len() == vars@.len(),
            before.len() == vars@.len(),
            forall|k: int| 0 <= k < i ==> suits(vv[k].var_type, #[trigger] rv[k]),
            forall|k: int|
                0 <= k < columns@.len() ==> #[trigger] text::views(columns@[k]@) == if k < i {
                    before[k].push(cell_of(rv[k]))
                } else {
                    before[k]
                },
        decreases row.len() - i,
    {
        let cell = match &row[i] {
            Value::Numeric(n) => {
                if !matches!(vars[i].var_type, VariableType::Numeric) {
                    proof {
                        assert(!suits(vv[i as int].var_type, rv[i as int]));
                    }
                    return false;
                }
                Cell::Number(*n)
            },
            Value::String(t) => {
                if matches!(vars[i].var_type, VariableType::Numeric) {
                    proof {
                        assert(!suits(vv[i as int].var_type, rv[i as int]));
                    }
                    return false;
                }
                Cell::Text(t.clone())
            },
            Value::SystemMissing => Cell::Null,
        };
        let ghost cols = columns@;
        let mut col: Vec<Cell> = Vec::new();
        std::mem::swap(&mut col, &mut columns[i]);
        col.push(cell);
        std::mem::swap(&mut col, &mut columns[i]);
        proof {
            assert(text::views(columns@[i as int]@) == text::views(cols[i as int]@).push(
                cell_of(rv[i as int]),
            ));
            assert forall|k: int| 0 <= k < columns@.len() implies #[trigger] text::views(
                columns@[k]@,
            ) == if k < i + 1 {
                before[k].push(cell_of(rv[k]))
            } else {
                before[k]
            } by {
                if k != i {
                    assert(columns@[k] == cols[k]);
                    assert(text::views(cols[k]@) == text::views(columns@[k]@));
                }
            }
        }
        i = i + 1;
    }
    proof {
        assert(cells_view(columns@) =~= with_row(before, rv)) by {
            assert forall|k: int| 0 <= k < columns@.len() implies cells_view(columns@)[k]
                == with_row(before, rv)[k] by {
                assert(text::views(columns@[k]@) == cells_view(columns@)[k]);
            }
        }
    }
    true
}

/// Reads the cases.
fn read_cases<F: Fn(NumOp) -> Number>(
    reader: &mut ByteReader,
    records: &Vec<SavVarRecord>,
    vars: &Vec<Variable>,
    h: SavHeader,
    calc: &F,
) -> (r: Result<Vec<Vec<Cell>>, SavError>)
    requires
        old(reader).wf(),
        arith::steady(*calc),
    ensures
        match cases_at(
            old(reader).data@,
            h,
            text::views(records@),
            text::views(vars@),
            stream_from(old(reader).pos as int),
            no_cells(vars@.len()),
            if h.ncases >= 0 {
                h.ncases as int
            } else {
                -1
            },
            *calc,
        ) {
            Ok(cells) => r matches Ok(x) && cells_view(x@) == cells && x@.len() == vars@.len(),
            Err(e) => r matches Err(x) && x == e,
        },
{
    let ghost s = reader.data@;
    let ghost rv = text::views(records@);
    let ghost vv = text::views(vars@);
    let ghost start = reader.pos as int;
    let mut columns: Vec<Vec<Cell>> = Vec::new();
    let mut i: usize = 0;
    while i < vars.len()
        invariant
            i <= vars.len(),
            cells_view(columns@) =~= no_cells(i as nat),
        decreases vars.len() - i,
    {
        let empty: Vec<Cell> = Vec::new();
        proof {
            assert(text::views(empty@) =~= Seq::empty());
        }
        let ghost before = cells_view(columns@);
        columns.push(empty);
        proof {
            assert(cells_view(columns@) =~= before.push(Seq::empty()));
        }
        i = i + 1;
    }
    let mut primary = false;
    let mut i: usize = 0;
    while i < records.len()
        invariant
            i <= records.len(),
            rv == text::views(records@),
            primary == exists|j: int| 0 <= j < i && !(#[trigger] rv[j]).is_continuation,
        decreases records.len() - i,
    {
        if !records[i].is_continuation {
            primary = true;
        }
        proof {
            let now = exists|j: int| 0 <= j < i + 1 && !(#[trigger] rv[j]).is_continuation;
            if !rv[i as int].is_continuation {
                assert(now);
            }
        }
        i = i + 1;
    }
    let ghost all: int = if h.ncases >= 0 {
        h.ncases as int
    } else {
        -1
    };
    if h.ncases == 0 {
        return Ok(columns);
    }
    if !primary {
        return if h.ncases < 0 {
            Err(SavError::Malformed)
        } else {
            Ok(columns)
        };
    }
    let mut left: i64 = if h.ncases >= 0 {
        h.ncases as i64
    } else {
        -1
    };
    let mut stream = CompressedReader::new();
    let ghost outcome = cases_at(
        s,
        h,
        rv,
        vv,
        stream_from(start),
        no_cells(vars@.len()),
        all,
        *calc,
    );
    proof {
        assert(stream.at(reader.pos) == stream_from(start));
    }
    let ghost mut count: int = all;
    loop
        invariant_except_break
            outcome == cases_at(
                s,
                h,
                rv,
                vv,
                stream.at(reader.pos),
                cells_view(columns@),
                count,
                *calc,
            ),
        invariant
            reader.wf(),
            reader.data@ == s,
            rv == text::views(records@),
            vv == text::views(vars@),
            columns@.len() == vars@.len(),
            arith::steady(*calc),
            has_primary(rv, 0),
            left >= 0 ==> count == left,
            left < 0 ==> left == -1 && count < 0,
            all == if h.ncases >= 0 {
                h.ncases as int
            } else {
                -1
            },
            outcome == cases_at(
                old(reader).data@,
                h,
                text::views(records@),
                text::views(vars@),
                stream_from(old(reader).pos as int),
                no_cells(vars@.len()),
                all,
                *calc,
            ),
        ensures
            outcome == Ok::<Seq<Seq<CellView>>, SavError>(cells_view(columns@)),
            columns@.len() == vars@.len(),
        decreases left_of(s, stream.at(reader.pos)),
    {
        if left == 0 {
            break ;
        }
        proof {
            lemma_row_advances(s, h, rv, 0, row_from(stream.at(reader.pos)), *calc);
        }
        let row = match read_row(&mut stream, reader, records, h, calc) {
            Some(row) => row,
            None => {
                break ;
            },
        };
        if !append_row(&mut columns, vars, row) {
            return Err(SavError::Malformed);
        }
        if left > 0 {
            left = left - 1;
        }
        proof {
            count = count - 1;
        }
    }
    Ok(columns)
}

/// Reads an SPSS .sav file from its bytes. Numbers of compressed data are
/// stored with a bias, which `calc` takes off. An extension record of negative
/// size, a negative length or count and a value of another type than its
/// variable are refused as [`SavError::Malformed`].
pub fn read_sav<F: Fn(NumOp) -> Number>(data: Vec<u8>, calc: &F) -> (r: Result<Dataset, SavError>)
    requires
        arith::steady(*calc),
    ensures
        match sav_dataset(data@, *calc) {
            Ok(v) => r matches Ok(ds) && ds@ == v && ds@.wf(),
            Err(e) => r matches Err(x) && x == e,
        },
{
    let ghost whole = data@;
    let mut reader = ByteReader::new(data);
    let h = match read_header(&mut reader) {
        Ok(h) => h,
        Err(e) => return Err(e),
    };
    let (records, names, levels) = match read_dictionary(&mut reader) {
        Ok(d) => d,
        Err(e) => return Err(e),
    };
    let vars = collect_variables(&records, &names, &levels);
    let mut cells = match read_cases(&mut reader, &records, &vars, h, calc) {
        Ok(c) => c,
        Err(e) => return Err(e),
    };
    if vars.len() == 0 {
        return Err(SavError::NoColumns);
    }
    let ghost vv = text::views(vars@);
    let ghost cv = cells_view(cells@);
    let n = cells[0].len();
    let mut i: usize = 0;
    while i < vars.len()
        invariant
            i <= vars.len(),
            vv == text::views(vars@),
            cv == cells_view(cells@),
            cells@.len() == vars@.len(),
            0 < vars@.len(),
            n == cv[0].len(),
            whole == data@,
            sav_dataset(whole, *calc) == table_of(vv, cv),
            forall|k: int| 0 <= k < i ==> (#[trigger] columns_for(vv, cv)[k]).cells.len() == n,
        decreases vars.len() - i,
    {
        if cells[i].len() != n {
            proof {
                assert(columns_for(vv, cv)[i as int].cells.len() != n);
            }
            return Err(SavError::UnevenColumns);
        }
        i = i + 1;
    }
    let mut fields: Vec<Field> = Vec::new();
    let mut columns: Vec<Column> = Vec::new();
    let mut i: usize = 0;
    while i < vars.len()
        invariant
            i <= vars.len(),
            vv == text::views(vars@),
            cells@.len() == vars@.len(),
            cv.len() == vars@.len(),
            forall|k: int| i <= k < vars@.len() ==> #[trigger] text::views(cells@[k]@) == cv[k],
            text::views(fields@) =~= dataset::fields_for(vv).take(i as int),
            text::views(columns@) =~= columns_for(vv, cv).take(i as int),
        decreases vars.len() - i,
    {
        let mut col: Vec<Cell> = Vec::new();
        let ghost before = cells@;
        std::mem::swap(&mut col, &mut cells[i]);
        proof {
            assert(text::views(before[i as int]@) == cv[i as int]);
            assert forall|k: int| i + 1 <= k < vars@.len() implies #[trigger] text::views(
                cells@[k]@,
            ) == cv[k] by {
                assert(cells@[k] == before[k]);
                assert(text::views(before[k]@) == cv[k]);
            }
        }
        fields.push(Field { name: vars[i].name.clone(), kind: kind_for(vars[i].var_type) });
        columns.push(Column { kind: kind_for(vars[i].var_type), cells: col });
        i = i + 1;
    }
    let batch = Batch { fields, columns, num_rows: n };
    let mut batches: Vec<Batch> = Vec::new();
    batches.push(batch);
    proof {
        assert(dataset::fields_for(vv).take(vv.len() as int) =~= dataset::fields_for(vv));
        assert(columns_for(vv, cv).take(vv.len() as int) =~= columns_for(vv, cv));
        assert(text::views(batches@) =~= seq![batch@]);
    }
    Ok(Dataset::from_parts(vars, batches))
}

} // verus!
