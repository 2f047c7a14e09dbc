//! Writing a .sav file.
use vstd::prelude::*;
use vstd::utf8::encode_utf8;

use crate::arith;
use crate::arith::{perform, NumOp};
use crate::batch::{Cell, CellView};
use crate::dataset;
use crate::dataset::{Dataset, DatasetView};
use crate::number;
use crate::number::Number;
use crate::sav::bytes;
use crate::sav::bytes::{put_bytes, put_i32, put_number, put_run, put_size, put_u32};
use crate::sav::reader;
use crate::text;
use crate::text::{decimal_of_padded, join, join_two, to_upper};
use crate::transform::rows::is_legible_at;
use crate::value::{MissingValues, MissingView, Value, ValueView};
use crate::variable::{MeasureLevel, ValueLabels, Variable, VariableType, VariableView};

verus! {

broadcast use crate::text::lemma_views_push;

/// The largest difference between a number and the whole number that stands for
/// it in compressed data: the double 1e-9.
pub const TOLERANCE_BITS: u64 = 0x3E11_2E0B_E826_D695;

/// A name that a variable record can hold as it is: at most eight bytes of
/// ASCII letters, digits and underscores.
pub open spec fn plain_name(name: Seq<char>) -> bool {
    text::byte_len(name) <= 8 && forall|i: int|
        0 <= i < name.len() ==> text::ascii_alphanumeric(#[trigger] name[i]) || name[i] == '_'
}

/// The name of the record of the `i`th variable where its own name does not fit.
pub open spec fn generated_name(i: int) -> Seq<char> {
    "VAR"@ + text::decimal_padded((i + 1) as nat, 5)
}

/// The name of the record of the `i`th variable.
pub open spec fn short_name(name: Seq<char>, i: int) -> Seq<char> {
    if plain_name(name) {
        text::uppercase(name)
    } else {
        generated_name(i)
    }
}

/// The entries of the long names record for the first `n` variables.
pub open spec fn long_entries(vars: Seq<VariableView>, n: int) -> Seq<Seq<char>>
    decreases n,
{
    if n <= 0 {
        Seq::empty()
    } else {
        let before = long_entries(vars, n - 1);
        if plain_name(vars[n - 1].name) {
            before
        } else {
            before.push(generated_name(n - 1) + "="@ + vars[n - 1].name)
        }
    }
}

/// The number of continuation records of a variable.
pub open spec fn continuations(t: VariableType) -> int {
    match t {
        VariableType::Numeric => 0,
        VariableType::String(w) => if w > 8 {
            reader::blocks_of(w) - 1
        } else {
            0
        },
    }
}

/// The number of blocks of eight bytes that a variable takes in a case.
pub open spec fn case_blocks(t: VariableType) -> int {
    match t {
        VariableType::Numeric => 1,
        VariableType::String(w) => reader::blocks_of(w),
    }
}

/// The number of variable records of the first `n` variables.
pub open spec fn record_count(vars: Seq<VariableView>, n: int) -> int
    decreases n,
{
    if n <= 0 {
        0
    } else {
        record_count(vars, n - 1) + 1 + continuations(vars[n - 1].var_type)
    }
}

/// The number of blocks that the first `n` variables take in a case.
pub open spec fn block_count(vars: Seq<VariableView>, n: int) -> int
    decreases n,
{
    if n <= 0 {
        0
    } else {
        block_count(vars, n - 1) + case_blocks(vars[n - 1].var_type)
    }
}

/// The header: 176 bytes.
pub open spec fn header_bytes(records: int, cases: int) -> Seq<u8> {
    encode_utf8("$FL2"@) + encode_utf8("OxStat"@) + bytes::run_of(32, 54) + bytes::le4(2)
        + bytes::le4(records) + bytes::le4(1) + bytes::le4(0) + bytes::le4(cases) + bytes::le8(
        number::nearest(100),
    ) + encode_utf8("04 Jul 26"@) + encode_utf8("12:00:00"@) + bytes::run_of(32, 64)
        + bytes::run_of(0, 3)
}

/// The code of a type.
pub open spec fn type_code(t: VariableType) -> int {
    match t {
        VariableType::Numeric => 0,
        VariableType::String(w) => w as int,
    }
}

/// The number of missing values as a record holds it: negative where there is a range.
pub open spec fn missing_code(m: MissingView) -> int {
    if m.range is Some {
        if m.discrete.len() > 0 {
            -3
        } else {
            -2
        }
    } else if m.discrete.len() > 3 {
        3
    } else {
        m.discrete.len() as int
    }
}

/// The bytes of several doubles.
pub open spec fn number_bytes(v: Seq<Number>) -> Seq<u8>
    decreases v.len(),
{
    if v.len() == 0 {
        Seq::empty()
    } else {
        number_bytes(v.drop_last()) + bytes::le8(v.last())
    }
}

/// The bytes of the missing values.
pub open spec fn missing_bytes(m: MissingView) -> Seq<u8> {
    match m.range {
        Some((lo, hi)) => if m.discrete.len() > 0 {
            bytes::le8(lo) + bytes::le8(hi) + bytes::le8(m.discrete[0])
        } else {
            bytes::le8(lo) + bytes::le8(hi)
        },
        None => number_bytes(m.discrete),
    }
}

/// Bytes brought to a width: cut there, or filled with blanks.
pub open spec fn fitted(b: Seq<u8>, width: int) -> Seq<u8> {
    if b.len() >= width {
        b.take(width)
    } else {
        b + bytes::run_of(32, (width - b.len()) as nat)
    }
}

/// The bytes of a label: its length, the text, and zeros up to a multiple of four.
pub open spec fn label_bytes(label: Option<Seq<char>>) -> Seq<u8> {
    match label {
        None => Seq::empty(),
        Some(t) => {
            let b = encode_utf8(t);
            bytes::le4(b.len() as int) + b + bytes::run_of(
                0,
                (reader::padded4(b.len() as int) - b.len()) as nat,
            )
        },
    }
}

/// The print and write format of a variable.
pub open spec fn format_bytes(v: VariableView) -> Seq<u8> {
    let kind: u8 = if v.var_type is Numeric {
        5
    } else {
        1
    };
    seq![v.print_decimals, v.print_width, kind, 0u8]
}

/// The record of a continuation of a long string.
pub open spec fn continuation_bytes() -> Seq<u8> {
    bytes::le4(2) + bytes::le4(-1) + bytes::le4(0) + bytes::le4(0) + seq![0u8, 0, 1, 0] + seq![
        0u8,
        0,
        1,
        0,
    ] + bytes::run_of(32, 8)
}

/// `n` continuation records.
pub open spec fn continuation_run(n: int) -> Seq<u8>
    decreases n,
{
    if n <= 0 {
        Seq::empty()
    } else {
        continuation_run(n - 1) + continuation_bytes()
    }
}

/// The record of the `i`th variable without its continuations.
pub open spec fn record_bytes(v: VariableView, i: int) -> Seq<u8> {
    bytes::le4(2) + bytes::le4(type_code(v.var_type)) + bytes::le4(
        if v.label is Some {
            1
        } else {
            0
        },
    ) + bytes::le4(missing_code(v.missing)) + format_bytes(v) + format_bytes(v) + fitted(
        encode_utf8(short_name(v.name, i)),
        8,
    ) + label_bytes(v.label) + missing_bytes(v.missing)
}

/// The variable records of the first `n` variables.
pub open spec fn variable_bytes(vars: Seq<VariableView>, n: int) -> Seq<u8>
    decreases n,
{
    if n <= 0 {
        Seq::empty()
    } else {
        variable_bytes(vars, n - 1) + record_bytes(vars[n - 1], n - 1) + continuation_run(
            continuations(vars[n - 1].var_type),
        )
    }
}

/// The part of a value label that is written: at most 255 bytes.
pub open spec fn label_part(t: Seq<char>) -> Seq<u8> {
    let b = encode_utf8(t);
    if b.len() > 255 {
        b.take(255)
    } else {
        b
    }
}

/// The bytes of one value label.
pub open spec fn value_label_bytes(key: i64, t: Seq<char>) -> Seq<u8> {
    let b = label_part(t);
    bytes::le8(number::nearest(key as int)) + seq![b.len() as u8] + b + bytes::run_of(
        0,
        (reader::padded8(b.len() as int + 1) - (b.len() + 1)) as nat,
    )
}

/// The bytes of several value labels.
pub open spec fn value_labels_bytes(labels: Seq<(i64, Seq<char>)>) -> Seq<u8>
    decreases labels.len(),
{
    if labels.len() == 0 {
        Seq::empty()
    } else {
        value_labels_bytes(labels.drop_last()) + value_label_bytes(labels.last().0, labels.last().1)
    }
}

/// The value label records of a variable whose first block is the `at`th.
pub open spec fn label_record_bytes(v: VariableView, at: int) -> Seq<u8> {
    if v.value_labels.len() == 0 {
        Seq::empty()
    } else {
        bytes::le4(3) + bytes::le4(v.value_labels.len() as int) + value_labels_bytes(v.value_labels)
            + bytes::le4(4) + bytes::le4(1) + bytes::le4(at + 1)
    }
}

/// The value label records of the first `n` variables.
pub open spec fn label_records_bytes(vars: Seq<VariableView>, n: int) -> Seq<u8>
    decreases n,
{
    if n <= 0 {
        Seq::empty()
    } else {
        label_records_bytes(vars, n - 1) + label_record_bytes(
            vars[n - 1],
            block_count(vars, n - 1),
        )
    }
}

/// The long names record, where there are long names.
pub open spec fn names_bytes(entries: Seq<Seq<char>>) -> Seq<u8> {
    if entries.len() == 0 {
        Seq::empty()
    } else {
        let b = encode_utf8(text::joined(entries, "\t"@) + "\t"@);
        bytes::le4(7) + bytes::le4(11) + bytes::le4(1) + bytes::le4(b.len() as int) + b
    }
}

/// The code of a measurement level.
pub open spec fn level_code(m: MeasureLevel) -> u8 {
    match m {
        MeasureLevel::Nominal => 1,
        MeasureLevel::Ordinal => 2,
        MeasureLevel::Scale => 3,
    }
}

/// The codes of the measurement levels.
pub open spec fn level_codes(vars: Seq<VariableView>) -> Seq<u8> {
    Seq::new(vars.len(), |i: int| level_code(vars[i].measure))
}

/// The record of the measurement levels: a byte for each variable.
pub open spec fn levels_bytes(vars: Seq<VariableView>) -> Seq<u8> {
    bytes::le4(7) + bytes::le4(reader::LEVELS_SUBTYPE as int) + bytes::le4(1) + bytes::le4(
        vars.len() as int,
    ) + level_codes(vars)
}

/// Everything before the case data.
pub open spec fn prologue_bytes(vars: Seq<VariableView>, cases: int) -> Seq<u8> {
    let n = vars.len() as int;
    header_bytes(record_count(vars, n), cases) + variable_bytes(vars, n) + label_records_bytes(
        vars,
        n,
    ) + names_bytes(long_entries(vars, n)) + levels_bytes(vars) + bytes::le4(999) + bytes::le4(0)
}

/// A command of compressed data and the bytes that go with it.
pub open spec fn number_item<F: Fn(NumOp) -> Number>(n: Number, calc: F) -> (u8, Seq<u8>) {
    let code = number_code(n, calc);
    if compressible(n, calc) {
        (code.saturated(0, 255) as u8, Seq::empty())
    } else {
        (253u8, bytes::le8(n))
    }
}

/// The command that would stand for a number: 100 more than the number, rounded.
pub open spec fn number_code<F: Fn(NumOp) -> Number>(n: Number, calc: F) -> Number {
    arith::meaning(calc, NumOp::Add(n, number::nearest(100))).rounded()
}

/// A number that a command alone stands for: a whole number from -99 to 151.
pub open spec fn compressible<F: Fn(NumOp) -> Number>(n: Number, calc: F) -> bool {
    let code = number_code(n, calc);
    let back = arith::meaning(calc, NumOp::Sub(code, number::nearest(100)));
    &&& number::nearest(1).at_most(code)
    &&& code.at_most(number::nearest(251))
    &&& arith::meaning(calc, NumOp::Sub(n, back)).absolute().below(
        Number { bits: TOLERANCE_BITS },
    )
}

/// A value of compressed data.
pub open spec fn item_of<F: Fn(NumOp) -> Number>(v: ValueView, calc: F) -> (u8, Seq<u8>) {
    match v {
        ValueView::SystemMissing => (255u8, Seq::empty()),
        ValueView::Numeric(n) => number_item(n, calc),
        ValueView::String(t) => (254u8, fitted(encode_utf8(t), 8)),
    }
}

/// Compressed data that is being written: what is finished, and the commands and
/// bytes of the block that is not full yet.
#[verifier::ext_equal]
pub struct WriterView {
    pub out: Seq<u8>,
    pub codes: Seq<u8>,
    pub payload: Seq<u8>,
}

impl WriterView {
    /// The current block is finished: its commands, up to eight, and its bytes.
    pub open spec fn flushed(self) -> WriterView {
        if self.codes.len() == 0 {
            self
        } else {
            WriterView {
                out: self.out + self.codes + bytes::run_of(0, (8 - self.codes.len()) as nat)
                    + self.payload,
                codes: Seq::empty(),
                payload: Seq::empty(),
            }
        }
    }

    /// One more command, and the bytes that go with it.
    pub open spec fn with(self, item: (u8, Seq<u8>)) -> WriterView {
        let next = WriterView {
            out: self.out,
            codes: self.codes.push(item.0),
            payload: self.payload + item.1,
        };
        if next.codes.len() >= 8 {
            next.flushed()
        } else {
            next
        }
    }

    /// Several more commands.
    pub open spec fn with_all(self, items: Seq<(u8, Seq<u8>)>) -> WriterView
        decreases items.len(),
    {
        if items.len() == 0 {
            self
        } else {
            self.with_all(items.drop_last()).with(items.last())
        }
    }

    /// The end of the data: a block that is not full gets a command that says so.
    pub open spec fn closed(self) -> WriterView {
        if self.codes.len() == 0 {
            self
        } else {
            WriterView { codes: self.codes.push(252u8), ..self }.flushed()
        }
    }
}

/// The `b`th block of eight bytes of a text of a width.
pub open spec fn block_bytes(t: Seq<char>, width: u32, b: int) -> Seq<u8> {
    let all = fitted(encode_utf8(t), width as int);
    let end = if 8 * b + 8 <= width {
        8 * b + 8
    } else {
        width as int
    };
    fitted(all.subrange(8 * b, end), 8)
}

/// The items of the first `n` blocks of a text.
pub open spec fn text_items(t: Seq<char>, width: u32, n: int) -> Seq<(u8, Seq<u8>)> {
    Seq::new(n as nat, |b: int| (254u8, block_bytes(t, width, b)))
}

/// The items of a cell.
pub open spec fn cell_items<F: Fn(NumOp) -> Number>(
    t: VariableType,
    cell: CellView,
    calc: F,
) -> Seq<(u8, Seq<u8>)> {
    match t {
        VariableType::Numeric => seq![item_of(dataset::raw_value(t, cell), calc)],
        VariableType::String(w) => text_items(
            reader::text_or(dataset::raw_value(t, cell), Seq::empty()),
            w,
            reader::blocks_of(w),
        ),
    }
}

/// The items of the first `n` variables in a row.
pub open spec fn row_items<F: Fn(NumOp) -> Number>(
    ds: DatasetView,
    b: int,
    r: int,
    n: int,
    calc: F,
) -> Seq<(u8, Seq<u8>)>
    decreases n,
{
    if n <= 0 {
        Seq::empty()
    } else {
        row_items(ds, b, r, n - 1, calc) + cell_items(
            ds.variables[n - 1].var_type,
            ds.batches[b].columns[n - 1].cells[r],
            calc,
        )
    }
}

/// The items of the first `n` rows of a batch.
pub open spec fn batch_items<F: Fn(NumOp) -> Number>(
    ds: DatasetView,
    b: int,
    n: int,
    calc: F,
) -> Seq<(u8, Seq<u8>)>
    decreases n,
{
    if n <= 0 {
        Seq::empty()
    } else {
        batch_items(ds, b, n - 1, calc) + row_items(
            ds,
            b,
            n - 1,
            ds.variables.len() as int,
            calc,
        )
    }
}

/// The items of the first `n` batches.
pub open spec fn case_items<F: Fn(NumOp) -> Number>(ds: DatasetView, n: int, calc: F) -> Seq<
    (u8, Seq<u8>),
>
    decreases n,
{
    if n <= 0 {
        Seq::empty()
    } else {
        case_items(ds, n - 1, calc) + batch_items(
            ds,
            n - 1,
            ds.batches[n - 1].num_rows as int,
            calc,
        )
    }
}

/// The case data.
pub open spec fn data_bytes(items: Seq<(u8, Seq<u8>)>) -> Seq<u8> {
    let start = WriterView { out: Seq::empty(), codes: Seq::empty(), payload: Seq::empty() };
    start.with_all(items).closed().out
}

/// The bytes of a .sav file.
pub open spec fn sav_bytes<F: Fn(NumOp) -> Number>(ds: DatasetView, calc: F) -> Seq<u8> {
    prologue_bytes(ds.variables, ds.n_cases() as int) + data_bytes(
        case_items(ds, ds.batches.len() as int, calc),
    )
}

/// A text that can be cut at its width and at every eighth byte before, without
/// cutting a character.
pub open spec fn divisible(t: Seq<char>, width: u32) -> bool {
    let b = encode_utf8(t);
    &&& b.len() > width ==> vstd::utf8::is_char_boundary(b, width as int)
    &&& forall|k: int|
        0 <= k && 8 * k < width && 8 * k <= b.len() ==> #[trigger] vstd::utf8::is_char_boundary(
            b,
            8 * k,
        )
}

/// A cell that can be written: legible, and its text divisible.
pub open spec fn writable(ds: DatasetView, b: int, r: int, idx: int) -> bool {
    &&& ds.legible_at(b, r, idx)
    &&& (ds.variables[idx].var_type matches VariableType::String(w) ==> divisible(
        reader::text_or(
            dataset::raw_value(
                ds.variables[idx].var_type,
                ds.batches[b].columns[idx].cells[r],
            ),
            Seq::empty(),
        ),
        w,
    ))
}

/// Every cell of every variable can be written.
pub open spec fn all_writable(ds: DatasetView) -> bool {
    forall|b: int, r: int, idx: int|
        0 <= b < ds.batches.len() && 0 <= r < ds.batches[b].num_rows && 0 <= idx
            < ds.variables.len() ==> #[trigger] writable(ds, b, r, idx)
}

/// Appends bytes brought to a width.
fn put_fitted(out: &mut Vec<u8>, part: &[u8], width: usize)
    ensures
        final(out)@ == old(out)@ + fitted(part@, width as int),
{
    let ghost before = out@;
    let n: usize = if part.len() < width {
        part.len()
    } else {
        width
    };
    let mut i: usize = 0;
    while i < n
        invariant
            i <= n <= part@.len(),
            out@ =~= before + part@.take(i as int),
        decreases n - i,
    {
        out.push(part[i]);
        i = i + 1;
    }
    put_run(out, 32, width - n);
    proof {
        assert(out@ =~= before + fitted(part@, width as int));
    }
}

/// Whether a name can stand in a variable record as it is.
fn is_plain_name(name: &str) -> (r: bool)
    ensures
        r == plain_name(name@),
{
    if text::len_of(name) > 8 {
        return false;
    }
    let chars = text::chars_of(name);
    let mut i: usize = 0;
    while i < chars.len()
        invariant
            i <= chars.len(),
            chars@ == name@,
            forall|k: int|
                0 <= k < i ==> text::ascii_alphanumeric(#[trigger] name@[k]) || name@[k] == '_',
        decreases chars.len() - i,
    {
        let c = chars[i];
        if !(('a' <= c && c <= 'z') || ('A' <= c && c <= 'Z') || ('0' <= c && c <= '9') || c
            == '_') {
            proof {
                assert(!text::ascii_alphanumeric(name@[i as int]) && name@[i as int] != '_');
            }
            return false;
        }
        i = i + 1;
    }
    true
}

/// The name of the record of the `i`th variable where its own name does not fit.
fn make_name(i: usize) -> (r: String)
    requires
        i < usize::MAX,
    ensures
        r@ == generated_name(i as int),
{
    let digits = decimal_of_padded(i as u64 + 1, 5);
    join_two("VAR", digits.as_str())
}

/// The entries of the long names record.
fn collect_entries(vars: &Vec<Variable>) -> (r: Vec<String>)
    ensures
        text::views(r@) == long_entries(text::views(vars@), vars@.len() as int),
{
    let ghost vv = text::views(vars@);
    let mut entries: Vec<String> = Vec::new();
    let mut i: usize = 0;
    proof {
        assert(text::views(entries@) =~= Seq::empty());
    }
    while i < vars.len()
        invariant
            i <= vars.len(),
            vv == text::views(vars@),
            text::views(entries@) == long_entries(vv, i as int),
        decreases vars.len() - i,
    {
        if !is_plain_name(vars[i].name.as_str()) {
            let mut entry = make_name(i);
            entry.append("=");
            entry.append(vars[i].name.as_str());
            entries.push(entry);
        }
        i = i + 1;
    }
    entries
}

fn count_continuations(t: VariableType) -> (r: u32)
    ensures
        r == continuations(t),
{
    match t {
        VariableType::Numeric => 0,
        VariableType::String(w) => if w > 8 {
            (w - 1) / 8
        } else {
            0
        },
    }
}

fn count_blocks(t: VariableType) -> (r: u32)
    ensures
        r == case_blocks(t),
{
    match t {
        VariableType::Numeric => 1,
        VariableType::String(w) => w / 8 + (if w % 8 == 0 {
            0
        } else {
            1
        }),
    }
}

/// The low 32 bits of the number of variable records.
fn count_records(vars: &Vec<Variable>) -> (r: u32)
    ensures
        r == record_count(text::views(vars@), vars@.len() as int) % 0x1_0000_0000,
{
    let ghost vv = text::views(vars@);
    let mut n: u64 = 0;
    let mut i: usize = 0;
    while i < vars.len()
        invariant
            i <= vars.len(),
            vv == text::views(vars@),
            n < 0x1_0000_0000,
            n == record_count(vv, i as int) % 0x1_0000_0000,
        decreases vars.len() - i,
    {
        n = (n + 1 + count_continuations(vars[i].var_type) as u64) % 0x1_0000_0000;
        i = i + 1;
    }
    n as u32
}

/// Writes the header.
fn put_header(out: &mut Vec<u8>, records: u32, cases: usize)
    ensures
        final(out)@ == old(out)@ + header_bytes(records as int, cases as int),
{
    let ghost before = out@;
    put_bytes(out, "$FL2".as_bytes());
    put_bytes(out, "OxStat".as_bytes());
    put_run(out, 32, 54);
    put_i32(out, 2);
    put_u32(out, records);
    put_i32(out, 1);
    put_i32(out, 0);
    put_size(out, cases);
    put_number(out, Number::from_usize(100));
    put_bytes(out, "04 Jul 26".as_bytes());
    put_bytes(out, "12:00:00".as_bytes());
    put_run(out, 32, 64);
    put_run(out, 0, 3);
    proof {
        assert(out@ =~= before + header_bytes(records as int, cases as int));
    }
}

/// Writes a label.
fn put_label(out: &mut Vec<u8>, label: &Option<String>)
    ensures
        final(out)@ == old(out)@ + label_bytes(crate::variable::text_option(*label)),
{
    let ghost before = out@;
    match label {
        None => {
            proof {
                assert(out@ =~= before + Seq::empty());
            }
        },
        Some(t) => {
            let part = t.as_str().as_bytes();
            let n = part.len();
            put_size(out, n);
            put_bytes(out, part);
            let pad: usize = (4 - n % 4) % 4;
            proof {
                assert(n + pad == reader::padded4(n as int));
            }
            put_run(out, 0, pad);
            proof {
                let b = encode_utf8(t@);
                let size = bytes::le4(n as int);
                bytes::lemma_append(before, size, b);
                bytes::lemma_append(before, size + b, bytes::run_of(0, pad as nat));
            }
        },
    }
}

/// Writes the missing values.
fn put_missing(out: &mut Vec<u8>, m: &MissingValues)
    ensures
        final(out)@ == old(out)@ + missing_bytes(m@),
{
    let ghost before = out@;
    match m.range {
        Some((lo, hi)) => {
            put_number(out, lo);
            put_number(out, hi);
            if m.discrete.len() > 0 {
                put_number(out, m.discrete[0]);
            }
            proof {
                assert(out@ =~= before + missing_bytes(m@));
            }
        },
        None => {
            let mut i: usize = 0;
            proof {
                assert(m.discrete@.take(0) =~= Seq::empty());
                assert(out@ =~= before + Seq::empty());
            }
            while i < m.discrete.len()
                invariant
                    i <= m.discrete.len(),
                    out@ == before + number_bytes(m.discrete@.take(i as int)),
                decreases m.discrete.len() - i,
            {
                put_number(out, m.discrete[i]);
                proof {
                    let t = m.discrete@.take(i + 1);
                    assert(t.drop_last() =~= m.discrete@.take(i as int));
                    assert(out@ =~= before + number_bytes(t));
                }
                i = i + 1;
            }
            proof {
                assert(m.discrete@.take(m.discrete@.len() as int) =~= m.discrete@);
            }
        },
    }
}

fn put_format(out: &mut Vec<u8>, var: &Variable)
    ensures
        final(out)@ == old(out)@ + format_bytes(var@),
{
    let ghost before = out@;
    out.push(var.print_decimals);
    out.push(var.print_width);
    out.push(
        match var.var_type {
            VariableType::Numeric => 5,
            VariableType::String(_) => 1,
        },
    );
    out.push(0);
    proof {
        assert(out@ =~= before + format_bytes(var@));
    }
}

/// Writes the record of the `i`th variable.
fn put_record(out: &mut Vec<u8>, var: &Variable, i: usize)
    requires
        i < usize::MAX,
    ensures
        final(out)@ == old(out)@ + record_bytes(var@, i as int),
{
    let ghost before = out@;
    put_i32(out, 2);
    let ghost mut part = bytes::le4(2);
    let code: u32 = match var.var_type {
        VariableType::Numeric => 0,
        VariableType::String(w) => w,
    };
    put_u32(out, code);
    proof {
        bytes::lemma_append(before, part, bytes::le4(type_code(var@.var_type)));
        part = part + bytes::le4(type_code(var@.var_type));
    }
    put_i32(
        out,
        if var.label.is_some() {
            1
        } else {
            0
        },
    );
    proof {
        bytes::lemma_append(before, part, bytes::le4(
            if var@.label is Some {
                1
            } else {
                0
            },
        ));
        part = part + bytes::le4(
            if var@.label is Some {
                1
            } else {
                0
            },
        );
    }
    let n_missing: i32 = if var.missing.range.is_some() {
        if var.missing.discrete.len() > 0 {
            -3
        } else {
            -2
        }
    } else if var.missing.discrete.len() > 3 {
        3
    } else {
        var.missing.discrete.len() as i32
    };
    put_i32(out, n_missing);
    proof {
        bytes::lemma_append(before, part, bytes::le4(missing_code(var@.missing)));
        part = part + bytes::le4(missing_code(var@.missing));
    }
    put_format(out, var);
    proof {
        bytes::lemma_append(before, part, format_bytes(var@));
        part = part + format_bytes(var@);
    }
    put_format(out, var);
    proof {
        bytes::lemma_append(before, part, format_bytes(var@));
        part = part + format_bytes(var@);
    }
    let name = if is_plain_name(var.name.as_str()) {
        to_upper(var.name.as_str())
    } else {
        make_name(i)
    };
    put_fitted(out, name.as_str().as_bytes(), 8);
    proof {
        bytes::lemma_append(before, part, fitted(encode_utf8(short_name(var@.name, i as int)), 8));
        part = part + fitted(encode_utf8(short_name(var@.name, i as int)), 8);
    }
    put_label(out, &var.label);
    proof {
        bytes::lemma_append(before, part, label_bytes(var@.label));
        part = part + label_bytes(var@.label);
    }
    put_missing(out, &var.missing);
    proof {
        bytes::lemma_append(before, part, missing_bytes(var@.missing));
        part = part + missing_bytes(var@.missing);
    }
    proof {
        assert(part == record_bytes(var@, i as int));
    }
}

fn put_continuations(out: &mut Vec<u8>, n: u32)
    ensures
        final(out)@ == old(out)@ + continuation_run(n as int),
{
    let ghost before = out@;
    let mut i: u32 = 0;
    proof {
        assert(out@ =~= before + continuation_run(0));
    }
    while i < n
        invariant
            i <= n,
            out@ == before + continuation_run(i as int),
        decreases n - i,
    {
        let ghost here = out@;
        put_i32(out, 2);
        put_i32(out, -1);
        put_i32(out, 0);
        put_i32(out, 0);
        out.push(0);
        out.push(0);
        out.push(1);
        out.push(0);
        out.push(0);
        out.push(0);
        out.push(1);
        out.push(0);
        put_run(out, 32, 8);
        proof {
            assert(out@ =~= here + continuation_bytes());
            assert(out@ =~= before + continuation_run(i + 1));
        }
        i = i + 1;
    }
}

/// Writes the variable records.
fn put_variables(out: &mut Vec<u8>, vars: &Vec<Variable>)
    ensures
        final(out)@ == old(out)@ + variable_bytes(text::views(vars@), vars@.len() as int),
{
    let ghost before = out@;
    let ghost vv = text::views(vars@);
    let mut i: usize = 0;
    proof {
        assert(out@ =~= before + variable_bytes(vv, 0));
    }
    while i < vars.len()
        invariant
            i <= vars.len(),
            vv == text::views(vars@),
            out@ == before + variable_bytes(vv, i as int),
        decreases vars.len() - i,
    {
        put_record(out, &vars[i], i);
        put_continuations(out, count_continuations(vars[i].var_type));
        proof {
            assert(out@ =~= before + variable_bytes(vv, i + 1));
        }
        i = i + 1;
    }
}

/// Writes one value label.
fn put_value_label(out: &mut Vec<u8>, key: i64, label: &str)
    ensures
        final(out)@ == old(out)@ + value_label_bytes(key, label@),
{
    let ghost before = out@;
    put_number(out, Number::from_i64(key));
    let part = label.as_bytes();
    let n: usize = if part.len() > 255 {
        255
    } else {
        part.len()
    };
    out.push(n as u8);
    let ghost here = out@;
    put_fitted(out, part, n);
    let pad: usize = 7 - n % 8;
    put_run(out, 0, pad);
    proof {
        let b = label_part(label@);
        assert(fitted(part@, n as int) =~= b);
        assert(n + 1 + pad == reader::padded8(n + 1));
        let value = bytes::le8(number::nearest(key as int));
        let size = seq![n as u8];
        assert(here =~= before + (value + size));
        bytes::lemma_append(before, value + size, b);
        bytes::lemma_append(before, value + size + b, bytes::run_of(0, pad as nat));
    }
}

/// Writes the labels of a variable.
fn put_value_labels(out: &mut Vec<u8>, labels: &ValueLabels)
    ensures
        final(out)@ == old(out)@ + value_labels_bytes(labels@),
{
    let ghost before = out@;
    let ghost lv = labels@;
    let mut k: usize = 0;
    proof {
        assert(lv.take(0) =~= Seq::empty());
        assert(out@ =~= before + value_labels_bytes(lv.take(0)));
    }
    while k < labels.len()
        invariant
            k <= labels@.len(),
            lv == labels@,
            out@ == before + value_labels_bytes(lv.take(k as int)),
        decreases labels@.len() - k,
    {
        let (value, label) = labels.entry(k);
        put_value_label(out, value, label.as_str());
        proof {
            assert(lv.take(k + 1).drop_last() =~= lv.take(k as int));
            bytes::lemma_append(
                before,
                value_labels_bytes(lv.take(k as int)),
                value_label_bytes(lv[k as int].0, lv[k as int].1),
            );
        }
        k = k + 1;
    }
    proof {
        assert(lv.take(lv.len() as int) =~= lv);
    }
}

/// Writes the value label records of a variable. `next` holds the low 32 bits of
/// the position behind its first block.
fn put_label_record(out: &mut Vec<u8>, var: &Variable, next: u32, Ghost(at): Ghost<int>)
    requires
        next == (at + 1) % 0x1_0000_0000,
    ensures
        final(out)@ == old(out)@ + label_record_bytes(var@, at),
{
    let ghost here = out@;
    let labels = &var.value_labels;
    if labels.is_empty() {
        proof {
            assert(here + Seq::empty() =~= here);
        }
        return;
    }
    let ghost count = labels@.len() as int;
    put_i32(out, 3);
    put_size(out, labels.len());
    put_value_labels(out, labels);
    put_i32(out, 4);
    put_i32(out, 1);
    put_u32(out, next);
    proof {
        let a = bytes::le4(3);
        let b = a + bytes::le4(count);
        let c = b + value_labels_bytes(labels@);
        let d = c + bytes::le4(4);
        let e = d + bytes::le4(1);
        lemma_le4_low(at + 1);
        bytes::lemma_append(here, a, bytes::le4(count));
        bytes::lemma_append(here, b, value_labels_bytes(labels@));
        bytes::lemma_append(here, c, bytes::le4(4));
        bytes::lemma_append(here, d, bytes::le4(1));
        bytes::lemma_append(here, e, bytes::le4(at + 1));
    }
}

/// Writes the value label records.
fn put_label_records(out: &mut Vec<u8>, vars: &Vec<Variable>)
    ensures
        final(out)@ == old(out)@ + label_records_bytes(text::views(vars@), vars@.len() as int),
{
    let ghost before = out@;
    let ghost vv = text::views(vars@);
    let mut at: u64 = 0;
    let mut i: usize = 0;
    proof {
        assert(out@ =~= before + label_records_bytes(vv, 0));
    }
    while i < vars.len()
        invariant
            i <= vars.len(),
            vv == text::views(vars@),
            at < 0x1_0000_0000,
            at == block_count(vv, i as int) % 0x1_0000_0000,
            out@ == before + label_records_bytes(vv, i as int),
        decreases vars.len() - i,
    {
        let ghost c = block_count(vv, i as int);
        proof {
            lemma_low_sum(c, 1);
            lemma_low_sum(c, case_blocks(vv[i as int].var_type));
        }
        put_label_record(out, &vars[i], ((at + 1) % 0x1_0000_0000) as u32, Ghost(c));
        at = (at + count_blocks(vars[i].var_type) as u64) % 0x1_0000_0000;
        proof {
            bytes::lemma_append(
                before,
                label_records_bytes(vv, i as int),
                label_record_bytes(vv[i as int], c),
            );
        }
        i = i + 1;
    }
}

/// The low 32 bits of a sum come from those of its first part.
proof fn lemma_low_sum(n: int, k: int)
    ensures
        (n % 0x1_0000_0000 + k) % 0x1_0000_0000 == (n + k) % 0x1_0000_0000,
{
    vstd::arithmetic::div_mod::lemma_add_mod_noop_right(k, n, 0x1_0000_0000);
}

proof fn lemma_le4_low(n: int)
    ensures
        bytes::le4(n % 0x1_0000_0000) == bytes::le4(n),
{
    let u = n % 0x1_0000_0000;
    assert(u % 0x1_0000_0000 == u);
}

/// Writes the long names record.
fn put_names(out: &mut Vec<u8>, entries: &Vec<String>)
    ensures
        final(out)@ == old(out)@ + names_bytes(text::views(entries@)),
{
    let ghost before = out@;
    if entries.len() > 0 {
        put_i32(out, 7);
        put_i32(out, 11);
        put_i32(out, 1);
        let mut list = join(entries, "\t");
        list.append("\t");
        let part = list.as_str().as_bytes();
        put_size(out, part.len());
        put_bytes(out, part);
    }
    proof {
        assert(out@ =~= before + names_bytes(text::views(entries@)));
    }
}

/// Writes the record of the measurement levels.
fn put_levels(out: &mut Vec<u8>, vars: &Vec<Variable>)
    ensures
        final(out)@ == old(out)@ + levels_bytes(text::views(vars@)),
{
    let ghost before = out@;
    let ghost codes = level_codes(text::views(vars@));
    put_i32(out, 7);
    put_i32(out, reader::LEVELS_SUBTYPE);
    put_i32(out, 1);
    put_size(out, vars.len());
    let ghost head = out@;
    let mut i: usize = 0;
    while i < vars.len()
        invariant
            i <= vars@.len(),
            codes == level_codes(text::views(vars@)),
            out@ =~= head + codes.take(i as int),
        decreases vars@.len() - i,
    {
        out.push(
            match vars[i].measure {
                MeasureLevel::Nominal => 1,
                MeasureLevel::Ordinal => 2,
                MeasureLevel::Scale => 3,
            },
        );
        i = i + 1;
    }
    proof {
        assert(codes.take(codes.len() as int) =~= codes);
        assert(out@ =~= before + levels_bytes(text::views(vars@)));
    }
}

/// Compressed data: eight commands at a time, each block followed by the bytes
/// that go with its commands.
pub struct CompressedWriter {
    pub inner: Vec<u8>,
    pub commands: [u8; 8],
    pub data: Vec<u8>,
    pub cmd_idx: usize,
}

impl View for CompressedWriter {
    type V = WriterView;

    open spec fn view(&self) -> WriterView {
        WriterView {
            out: self.inner@,
            codes: self.commands@.take(self.cmd_idx as int),
            payload: self.data@,
        }
    }
}

impl CompressedWriter {
    /// The current block is not full.
    pub open spec fn wf(&self) -> bool {
        self.cmd_idx < 8
    }

    /// Starts behind what `inner` holds.
    pub fn new(inner: Vec<u8>) -> (r: Self)
        ensures
            r.wf(),
            r@ == (WriterView { out: inner@, codes: Seq::empty(), payload: Seq::empty() }),
    {
        let r = CompressedWriter { inner, commands: [0; 8], data: Vec::new(), cmd_idx: 0 };
        proof {
            assert(r@.codes =~= Seq::empty());
        }
        r
    }

    fn put_command(&mut self, code: u8)
        requires
            old(self).wf(),
        ensures
            final(self).inner == old(self).inner,
            final(self).data == old(self).data,
            final(self).cmd_idx == old(self).cmd_idx + 1,
            final(self)@.codes == old(self)@.codes.push(code),
    {
        let ghost before = self.commands@;
        self.commands[self.cmd_idx] = code;
        self.cmd_idx = self.cmd_idx + 1;
        proof {
            assert(self@.codes =~= old(self)@.codes.push(code));
        }
    }

    /// Writes a value.
    pub fn write_value<F: Fn(NumOp) -> Number>(&mut self, val: &Value, calc: &F)
        requires
            old(self).wf(),
            arith::steady(*calc),
        ensures
            final(self).wf(),
            final(self)@ == old(self)@.with(item_of(val@, *calc)),
    {
        let ghost before = self@;
        match val {
            Value::SystemMissing => {
                self.put_command(255);
                proof {
                    assert(before.payload + Seq::empty() =~= before.payload);
                }
            },
            Value::Numeric(n) => {
                let hundred = Number::from_usize(100);
                let code = perform(calc, NumOp::Add(*n, hundred)).round();
                let back = perform(calc, NumOp::Sub(code, hundred));
                let rest = perform(calc, NumOp::Sub(*n, back));
                let low = Number::from_usize(1);
                let high = Number::from_usize(251);
                let tolerance = Number::from_bits(TOLERANCE_BITS);
                if low.is_at_most(&code) && code.is_at_most(&high) && rest.abs().is_below(
                    &tolerance,
                ) {
                    let wide = code.to_u32();
                    let narrow: u8 = if wide > 255 {
                        255
                    } else {
                        wide as u8
                    };
                    proof {
                        assert(narrow == code.saturated(0, 255) as u8);
                    }
                    self.put_command(narrow);
                    proof {
                        assert(before.payload + Seq::empty() =~= before.payload);
                    }
                } else {
                    self.put_command(253);
                    put_number(&mut self.data, *n);
                }
            },
            Value::String(s) => {
                self.put_command(254);
                put_fitted(&mut self.data, s.as_str().as_bytes(), 8);
            },
        }
        if self.cmd_idx >= 8 {
            self.flush_block();
        }
    }

    /// Finishes the current block.
    pub fn flush_block(&mut self)
        requires
            old(self).cmd_idx <= 8,
        ensures
            final(self).wf(),
            final(self)@ == old(self)@.flushed(),
    {
        if self.cmd_idx == 0 {
            return ;
        }
        let ghost before = self@;
        let mut i: usize = 0;
        while i < self.cmd_idx
            invariant
                i <= self.cmd_idx <= 8,
                before.codes == self.commands@.take(self.cmd_idx as int),
                before.payload == self.data@,
                self.inner@ =~= before.out + before.codes.take(i as int),
            decreases self.cmd_idx - i,
        {
            self.inner.push(self.commands[i]);
            i = i + 1;
        }
        put_run(&mut self.inner, 0, 8 - self.cmd_idx);
        put_bytes(&mut self.inner, self.data.as_slice());
        self.commands = [0; 8];
        self.data = Vec::new();
        self.cmd_idx = 0;
        proof {
            assert(before.codes.take(before.codes.len() as int) =~= before.codes);
            assert(self@ =~= before.flushed());
        }
    }

    /// Ends the data.
    pub fn close(&mut self)
        requires
            old(self).wf(),
        ensures
            final(self).wf(),
            final(self)@ == old(self)@.closed(),
    {
        if self.cmd_idx > 0 {
            self.put_command(252);
            self.flush_block();
        }
    }
}

/// Items written one after the other are written as one sequence.
pub proof fn lemma_with_all(w: WriterView, a: Seq<(u8, Seq<u8>)>, b: Seq<(u8, Seq<u8>)>)
    ensures
        w.with_all(a + b) == w.with_all(a).with_all(b),
    decreases b.len(),
{
    if b.len() == 0 {
        assert(a + b =~= a);
    } else {
        assert((a + b).drop_last() =~= a + b.drop_last());
        lemma_with_all(w, a, b.drop_last());
    }
}

impl CompressedWriter {
    fn write_block(&mut self, all: &Vec<u8>, from: usize, to: usize)
        requires
            old(self).wf(),
            from <= to <= all@.len(),
        ensures
            final(self).wf(),
            final(self)@ == old(self)@.with(
                (254u8, fitted(all@.subrange(from as int, to as int), 8)),
            ),
    {
        self.put_command(254);
        let mut part: Vec<u8> = Vec::new();
        let mut i: usize = from;
        while i < to
            invariant
                from <= i <= to <= all@.len(),
                part@ =~= all@.subrange(from as int, i as int),
            decreases to - i,
        {
            part.push(all[i]);
            i = i + 1;
        }
        put_fitted(&mut self.data, part.as_slice(), 8);
        if self.cmd_idx >= 8 {
            self.flush_block();
        }
    }

    /// Writes a text of a width, eight bytes at a time.
    fn write_text(&mut self, t: &str, width: u32)
        requires
            old(self).wf(),
        ensures
            final(self).wf(),
            final(self)@ == old(self)@.with_all(text_items(t@, width, reader::blocks_of(width))),
    {
        let mut all: Vec<u8> = Vec::new();
        put_fitted(&mut all, t.as_bytes(), width as usize);
        let ghost start = self@;
        let n: u32 = count_blocks(VariableType::String(width));
        let mut b: u32 = 0;
        proof {
            assert(all@ =~= fitted(encode_utf8(t@), width as int));
            assert(text_items(t@, width, 0) =~= Seq::empty());
        }
        while b < n
            invariant
                b <= n,
                n == reader::blocks_of(width),
                all@ == fitted(encode_utf8(t@), width as int),
                all@.len() == width,
                self.wf(),
                self@ == start.with_all(text_items(t@, width, b as int)),
            decreases n - b,
        {
            let from: usize = 8 * (b as usize);
            let to: usize = if width as usize - from < 8 {
                width as usize
            } else {
                from + 8
            };
            self.write_block(&all, from, to);
            proof {
                let items = text_items(t@, width, b + 1);
                assert(items.drop_last() =~= text_items(t@, width, b as int));
                assert(items.last() == (254u8, block_bytes(t@, width, b as int)));
            }
            b = b + 1;
        }
    }

    /// Writes a cell of a variable.
    fn write_cell<F: Fn(NumOp) -> Number>(&mut self, t: VariableType, cell: &Cell, calc: &F)
        requires
            old(self).wf(),
            arith::steady(*calc),
        ensures
            final(self).wf(),
            final(self)@ == old(self)@.with_all(cell_items(t, cell@, *calc)),
    {
        let ghost start = self@;
        match t {
            VariableType::Numeric => {
                let v = dataset::read_raw(t, cell);
                self.write_value(&v, calc);
                proof {
                    let items = cell_items(t, cell@, *calc);
                    assert(items.drop_last() =~= Seq::empty());
                    assert(start.with_all(items) == start.with_all(items.drop_last()).with(
                        items.last(),
                    ));
                }
            },
            VariableType::String(w) => {
                match cell {
                    Cell::Text(s) => self.write_text(s.as_str(), w),
                    _ => {
                        let empty = String::new();
                        proof {
                            assert(empty@ =~= Seq::empty());
                        }
                        self.write_text(empty.as_str(), w)
                    },
                }
            },
        }
    }

    /// Writes a row.
    fn write_row<F: Fn(NumOp) -> Number>(&mut self, dataset: &Dataset, b: usize, r: usize, calc: &F)
        requires
            old(self).wf(),
            arith::steady(*calc),
            dataset@.wf(),
            b < dataset@.batches.len(),
            r < dataset@.batches[b as int].num_rows,
            all_writable(dataset@),
        ensures
            final(self).wf(),
            final(self)@ == old(self)@.with_all(
                row_items(
                    dataset@,
                    b as int,
                    r as int,
                    dataset@.variables.len() as int,
                    *calc,
                ),
            ),
    {
        let ghost start = self@;
        let ghost ds = dataset@;
        let mut i: usize = 0;
        while i < dataset.variables.len()
            invariant
                i <= dataset.variables.len(),
                self.wf(),
                arith::steady(*calc),
                ds == dataset@,
                ds.wf(),
                b < ds.batches.len(),
                r < ds.batches[b as int].num_rows,
                all_writable(ds),
                self@ == start.with_all(row_items(ds, b as int, r as int, i as int, *calc)),
            decreases dataset.variables.len() - i,
        {
            proof {
                assert(writable(ds, b as int, r as int, i as int));
                assert(ds.batches[b as int].columns[i as int].cells.len() == ds.batches[b as int].num_rows);
            }
            let column = &dataset.batches[b].columns[i];
            self.write_cell(dataset.variables[i].var_type, &column.cells[r], calc);
            proof {
                lemma_with_all(
                    start,
                    row_items(ds, b as int, r as int, i as int, *calc),
                    cell_items(
                        ds.variables[i as int].var_type,
                        ds.batches[b as int].columns[i as int].cells[r as int],
                        *calc,
                    ),
                );
            }
            i = i + 1;
        }
    }

    /// Writes all cases.
    fn write_cases<F: Fn(NumOp) -> Number>(&mut self, dataset: &Dataset, calc: &F)
        requires
            old(self).wf(),
            arith::steady(*calc),
            dataset@.wf(),
            all_writable(dataset@),
        ensures
            final(self).wf(),
            final(self)@ == old(self)@.with_all(
                case_items(dataset@, dataset@.batches.len() as int, *calc),
            ),
    {
        let ghost start = self@;
        let ghost ds = dataset@;
        let mut b: usize = 0;
        while b < dataset.batches.len()
            invariant
                b <= dataset.batches.len(),
                self.wf(),
                arith::steady(*calc),
                ds == dataset@,
                ds.wf(),
                all_writable(ds),
                self@ == start.with_all(case_items(ds, b as int, *calc)),
            decreases dataset.batches.len() - b,
        {
            let ghost here = self@;
            let n = dataset.batches[b].num_rows;
            let mut r: usize = 0;
            while r < n
                invariant
                    r <= n,
                    self.wf(),
                    arith::steady(*calc),
                    ds == dataset@,
                    ds.wf(),
                    all_writable(ds),
                    b < ds.batches.len(),
                    n == ds.batches[b as int].num_rows,
                    self@ == here.with_all(batch_items(ds, b as int, r as int, *calc)),
                decreases n - r,
            {
                self.write_row(dataset, b, r, calc);
                proof {
                    lemma_with_all(
                        here,
                        batch_items(ds, b as int, r as int, *calc),
                        row_items(ds, b as int, r as int, ds.variables.len() as int, *calc),
                    );
                }
                r = r + 1;
            }
            proof {
                lemma_with_all(
                    start,
                    case_items(ds, b as int, *calc),
                    batch_items(ds, b as int, n as int, *calc),
                );
            }
            b = b + 1;
        }
    }
}

/// What is written does not depend on what was written before the first block.
pub proof fn lemma_out_grows(w: WriterView, items: Seq<(u8, Seq<u8>)>)
    requires
        w.codes.len() < 8,
    ensures
        w.with_all(items).codes.len() < 8,
        ({
            let bare = WriterView { out: Seq::empty(), ..w };
            &&& w.with_all(items).out == w.out + bare.with_all(items).out
            &&& w.with_all(items).codes == bare.with_all(items).codes
            &&& w.with_all(items).payload == bare.with_all(items).payload
        }),
    decreases items.len(),
{
    let bare = WriterView { out: Seq::empty(), ..w };
    if items.len() == 0 {
        assert(w.out =~= w.out + bare.out);
    } else {
        lemma_out_grows(w, items.drop_last());
        let x = w.with_all(items.drop_last());
        let y = bare.with_all(items.drop_last());
        assert(x.with(items.last()).out =~= w.out + y.with(items.last()).out);
    }
}

/// Writes a dataset as an SPSS .sav file and gives its bytes. The values of a
/// variable are labelled in the order of its labels.
pub fn write_sav<F: Fn(NumOp) -> Number>(dataset: &Dataset, calc: &F) -> (r: Vec<u8>)
    requires
        arith::steady(*calc),
        dataset@.wf(),
        dataset@.n_cases() <= usize::MAX,
        all_writable(dataset@),
    ensures
        r@ == sav_bytes(dataset@, *calc),
{
    let ghost ds = dataset@;
    let ghost vv = ds.variables;
    let ghost n = vv.len() as int;
    let mut out: Vec<u8> = Vec::new();
    let cases = dataset.n_cases();
    put_header(&mut out, count_records(&dataset.variables), cases);
    put_variables(&mut out, &dataset.variables);
    put_label_records(&mut out, &dataset.variables);
    let entries = collect_entries(&dataset.variables);
    put_names(&mut out, &entries);
    put_levels(&mut out, &dataset.variables);
    put_i32(&mut out, 999);
    put_i32(&mut out, 0);
    proof {
        let count = record_count(vv, n);
        lemma_le4_low(count);
        assert(Seq::empty() + header_bytes(count, cases as int) =~= header_bytes(
            count,
            cases as int,
        ));
        assert(out@ == prologue_bytes(vv, cases as int));
    }
    let mut writer = CompressedWriter::new(out);
    writer.write_cases(dataset, calc);
    writer.close();
    proof {
        let start = WriterView {
            out: prologue_bytes(vv, cases as int),
            codes: Seq::empty(),
            payload: Seq::empty(),
        };
        let items = case_items(ds, ds.batches.len() as int, *calc);
        lemma_out_grows(start, items);
        let bare = WriterView { out: Seq::empty(), ..start };
        assert(bare == (WriterView {
            out: Seq::empty(),
            codes: Seq::empty(),
            payload: Seq::empty(),
        }));
        assert(start.with_all(items).closed().out =~= start.out + bare.with_all(
            items,
        ).closed().out);
    }
    writer.inner
}

/// Whether a text can be cut at its width and at every eighth byte before.
fn is_divisible(t: &str, width: u32) -> (r: bool)
    ensures
        r == divisible(t@, width),
{
    let ghost b = encode_utf8(t@);
    let n = text::len_of(t);
    let w: u64 = width as u64;
    if n as u64 > w && !t.is_char_boundary(width as usize) {
        return false;
    }
    let mut at: u64 = 0;
    let ghost mut k: int = 0;
    while at < w && at <= n as u64
        invariant
            at == 8 * k,
            0 <= k,
            w == width,
            n == b.len(),
            b == encode_utf8(t@),
            forall|j: int|
                0 <= j < k && 8 * j < width && 8 * j <= b.len()
                    ==> #[trigger] vstd::utf8::is_char_boundary(b, 8 * j),
        decreases w + 8 - at,
    {
        if !t.is_char_boundary(at as usize) {
            proof {
                assert(!vstd::utf8::is_char_boundary(b, 8 * k));
            }
            return false;
        }
        at = at + 8;
        proof {
            k = k + 1;
        }
    }
    true
}

/// Whether a cell can be written.
fn is_writable(dataset: &Dataset, b: usize, r: usize, idx: usize) -> (ok: bool)
    requires
        dataset@.wf(),
        b < dataset@.batches.len(),
        r < dataset@.batches[b as int].num_rows,
        idx < dataset@.variables.len(),
    ensures
        ok == writable(dataset@, b as int, r as int, idx as int),
{
    if !is_legible_at(dataset, (b, r), idx) {
        return false;
    }
    proof {
        assert(dataset@.batches[b as int].wf());
        assert(dataset@.batches[b as int].columns[idx as int].cells.len()
            == dataset@.batches[b as int].num_rows);
    }
    match dataset.variables[idx].var_type {
        VariableType::Numeric => true,
        VariableType::String(w) => match &dataset.batches[b].columns[idx].cells[r] {
            Cell::Text(t) => is_divisible(t.as_str(), w),
            _ => {
                let none = String::new();
                proof {
                    assert(none@ =~= Seq::empty());
                }
                is_divisible(none.as_str(), w)
            },
        },
    }
}

/// Whether every cell of every variable can be written.
fn are_all_writable(dataset: &Dataset) -> (ok: bool)
    requires
        dataset@.wf(),
    ensures
        ok == all_writable(dataset@),
{
    let ghost ds = dataset@;
    let mut b: usize = 0;
    while b < dataset.batches.len()
        invariant
            b <= dataset.batches@.len(),
            ds == dataset@,
            ds.wf(),
            forall|c: int, r: int, idx: int|
                0 <= c < b && 0 <= r < ds.batches[c].num_rows && 0 <= idx < ds.variables.len()
                    ==> #[trigger] writable(ds, c, r, idx),
        decreases dataset.batches@.len() - b,
    {
        let mut r: usize = 0;
        while r < dataset.batches[b].num_rows
            invariant
                b < ds.batches.len(),
                r <= ds.batches[b as int].num_rows,
                ds == dataset@,
                ds.wf(),
                forall|q: int, idx: int|
                    0 <= q < r && 0 <= idx < ds.variables.len() ==> #[trigger] writable(
                        ds,
                        b as int,
                        q,
                        idx,
                    ),
            decreases ds.batches[b as int].num_rows - r,
        {
            let mut idx: usize = 0;
            while idx < dataset.variables.len()
                invariant
                    b < ds.batches.len(),
                    r < ds.batches[b as int].num_rows,
                    idx <= ds.variables.len(),
                    ds == dataset@,
                    ds.wf(),
                    forall|i: int|
                        0 <= i < idx ==> #[trigger] writable(ds, b as int, r as int, i),
                decreases ds.variables.len() - idx,
            {
                if !is_writable(dataset, b, r, idx) {
                    proof {
                        assert(!writable(ds, b as int, r as int, idx as int));
                    }
                    return false;
                }
                idx = idx + 1;
            }
            r = r + 1;
        }
        b = b + 1;
    }
    true
}

/// Writes a dataset as an SPSS .sav file, where every cell can be written.
pub fn try_write_sav<F: Fn(NumOp) -> Number>(dataset: &Dataset, calc: &F) -> (r: Option<Vec<u8>>)
    requires
        arith::steady(*calc),
        dataset@.wf(),
        dataset@.n_cases() <= usize::MAX,
    ensures
        match r {
            Some(data) => all_writable(dataset@) && data@ == sav_bytes(dataset@, *calc),
            None => !all_writable(dataset@),
        },
{
    if !are_all_writable(dataset) {
        return None;
    }
    Some(write_sav(dataset, calc))
}

} // verus!
