//! The dictionary is read back as it was written.
use vstd::prelude::*;
use vstd::utf8::{encode_utf8, is_ascii_chars};

use crate::number;
use crate::number::Number;
use crate::sav::bytes;
use crate::sav::reader;
use crate::sav::reader::RecordView;
use crate::sav::writer;
use crate::text;
use crate::text_law;
use crate::value::MissingView;
use crate::variable::{VariableType, VariableView};

verus! {

/// The missing values as they come back: beside a range only the first discrete one.
pub open spec fn stored_missing(m: MissingView) -> MissingView {
    match m.range {
        Some(r) => MissingView {
            discrete: if m.discrete.len() > 0 {
                seq![m.discrete[0]]
            } else {
                Seq::empty()
            },
            range: Some(r),
        },
        None => m,
    }
}

/// A label as it comes back.
pub open spec fn stored_label(label: Option<Seq<char>>) -> Option<Seq<char>> {
    match label {
        Some(t) => Some(text::trimmed_end(t)),
        None => None,
    }
}

/// The value labels as they stand in a file.
pub open spec fn filed_labels(labels: Seq<(i64, Seq<char>)>) -> Seq<(Number, Seq<char>)> {
    Seq::new(
        labels.len(),
        |i: int|
            (
                number::nearest(labels[i].0 as int),
                text::trimmed_end(text::lossy_text(writer::label_part(labels[i].1))),
            ),
    )
}

/// The value labels as they come back.
pub open spec fn stored_labels(labels: Seq<(i64, Seq<char>)>) -> Seq<(i64, Seq<char>)> {
    reader::labels_and(Seq::empty(), filed_labels(labels))
}

/// A variable has a form that a file can hold, whatever its name: its lengths and
/// counts fit in 32 bits, a string is not empty, and there are at most three
/// discrete missing values.
pub open spec fn storable_variable(v: VariableView) -> bool {
    &&& (v.var_type matches VariableType::String(w) ==> 1 <= w <= i32::MAX)
    &&& (v.missing.range is None ==> v.missing.discrete.len() <= 3)
    &&& (v.label matches Some(t) ==> text::byte_len(t) <= i32::MAX)
    &&& v.value_labels.len() <= i32::MAX
}

/// A name of the `i`th variable that a file can hold: one that needs the long names
/// record holds neither of its separators, and one can be generated for it.
pub open spec fn storable_name(name: Seq<char>, i: int) -> bool {
    !writer::plain_name(name) ==> i < 99999 && text_law::lacks(name, '\t') && text_law::lacks(
        name,
        '=',
    )
}

/// The name in the record of the `i`th variable as it is read.
pub open spec fn filed_name(name: Seq<char>, i: int) -> Seq<char> {
    text::trimmed_end(
        text::lossy_text(writer::fitted(encode_utf8(writer::short_name(name, i)), 8)),
    )
}

/// The record of the `i`th variable as it is read, without value labels.
pub open spec fn bare_record(v: VariableView, i: int) -> RecordView {
    RecordView {
        name: filed_name(v.name, i),
        var_type: v.var_type,
        label: stored_label(v.label),
        value_labels: Seq::empty(),
        missing: stored_missing(v.missing),
        print_width: v.print_width,
        print_decimals: v.print_decimals,
        is_continuation: false,
    }
}

/// The record of a continuation as it is read.
pub open spec fn continuation_record() -> RecordView {
    RecordView {
        name: Seq::empty(),
        var_type: VariableType::String(8),
        label: None,
        value_labels: Seq::empty(),
        missing: MissingView::none(),
        print_width: 0,
        print_decimals: 0,
        is_continuation: true,
    }
}

/// Ten to a power.
spec fn ten_to(k: nat) -> nat
    decreases k,
{
    if k == 0 {
        1
    } else {
        10 * ten_to((k - 1) as nat)
    }
}

proof fn lemma_decimal(n: nat, k: nat)
    requires
        k >= 1,
        n < ten_to(k),
    ensures
        1 <= text::decimal(n).len() <= k,
    decreases n,
{
    if n >= 10 {
        reveal_with_fuel(ten_to, 2);
        lemma_decimal(n / 10, (k - 1) as nat);
    }
}

/// The generated names are eight ASCII characters in upper case.
pub proof fn lemma_generated_name(i: int)
    requires
        0 <= i < 99999,
    ensures
        writer::generated_name(i).len() == 8,
        is_ascii_chars(writer::generated_name(i)),
        text::uppercase(writer::generated_name(i)) == writer::generated_name(i),
        forall|k: int|
            0 <= k < 8 ==> text::ascii_alphanumeric(#[trigger] writer::generated_name(i)[k]),
{
    reveal_strlit("VAR");
    let n = (i + 1) as nat;
    reveal_with_fuel(ten_to, 6);
    lemma_decimal(n, 5);
    text_law::law_decimal_value(n);
    let d = text::decimal_padded(n, 5);
    assert(d.len() == 5);
    assert(text::all_digits(d)) by {
        let e = text::decimal(n);
        assert forall|k: int| 0 <= k < d.len() implies '0' <= #[trigger] d[k] && d[k] <= '9' by {
            if e.len() < 5 && k >= 5 - e.len() {
                assert(d[k] == e[k - (5 - e.len())]);
            }
        }
    }
    let g = writer::generated_name(i);
    assert forall|k: int| 0 <= k < 8 implies text::ascii_alphanumeric(#[trigger] g[k]) && '\0'
        <= g[k] <= '\u{7f}' && text::ascii_upper(g[k]) == g[k] by {
        if k >= 3 {
            assert(g[k] == d[k - 3]);
        }
    }
    assert(text::uppercase(g) =~= g);
}

/// Different positions have different generated names.
pub proof fn lemma_generated_distinct(i: int, j: int)
    requires
        0 <= i < 99999,
        0 <= j < 99999,
        writer::generated_name(i) == writer::generated_name(j),
    ensures
        i == j,
{
    let a = writer::generated_name(i);
    let b = writer::generated_name(j);
    reveal_strlit("VAR");
    assert(text::decimal_padded((i + 1) as nat, 5) =~= a.skip(3));
    assert(text::decimal_padded((j + 1) as nat, 5) =~= b.skip(3));
    lemma_padded_value((i + 1) as nat);
    lemma_padded_value((j + 1) as nat);
}

proof fn lemma_zeros_value(z: nat, s: Seq<char>)
    ensures
        text::digits_value(Seq::new(z, |i: int| '0') + s) == text::digits_value(s),
    decreases s.len(), z,
{
    let zeros = Seq::new(z, |i: int| '0');
    let all = zeros + s;
    if s.len() == 0 {
        assert(all =~= zeros);
        if z > 0 {
            let less = Seq::new((z - 1) as nat, |i: int| '0');
            assert(zeros.drop_last() =~= less);
            assert(less + s =~= less);
            lemma_zeros_value((z - 1) as nat, s);
        }
    } else {
        assert(all.drop_last() =~= zeros + s.drop_last());
        lemma_zeros_value(z, s.drop_last());
    }
}

proof fn lemma_padded_value(n: nat)
    ensures
        text::digits_value(text::decimal_padded(n, 5)) == n,
{
    text_law::law_decimal_value(n);
    let d = text::decimal(n);
    if d.len() < 5 {
        lemma_zeros_value((5 - d.len()) as nat, d);
    }
}

/// A plain name is ASCII, and so is its upper case.
pub proof fn lemma_plain_name(name: Seq<char>)
    requires
        writer::plain_name(name),
    ensures
        is_ascii_chars(name),
        name.len() <= 8,
        is_ascii_chars(text::uppercase(name)),
        text::uppercase(name).len() == name.len(),
        text::uppercase(text::uppercase(name)) == text::uppercase(name),
        name.len() > 0 ==> !text::white(text::uppercase(name).last()),
{
    assert forall|i: int| 0 <= i < name.len() implies '\0' <= #[trigger] name[i] <= '\u{7f}' by {
        assert(text::ascii_alphanumeric(name[i]) || name[i] == '_');
    }
    vstd::utf8::is_ascii_chars_encode_utf8(name);
    text_law::law_uppercase_twice(name);
    let u = text::uppercase(name);
    if name.len() > 0 {
        let c = name[name.len() - 1];
        assert(u.last() == text::ascii_upper(c));
        assert(text::ascii_alphanumeric(c) || c == '_');
    }
}

/// The name of a variable record is read back.
pub proof fn lemma_short_name_read_back(name: Seq<char>, i: int)
    requires
        0 <= i,
        !writer::plain_name(name) ==> i < 99999,
    ensures
        filed_name(name, i) == writer::short_name(name, i),
{
    let short = writer::short_name(name, i);
    if writer::plain_name(name) {
        lemma_plain_name(name);
    } else {
        lemma_generated_name(i);
        assert(text::ascii_alphanumeric(short[7]));
    }
    lemma_fitted_text(short, 8);
    text_law::lemma_trim_end_nothing(short);
}

/// ASCII text filled with blanks up to a width reads as the text, apart from
/// white space at its end.
proof fn lemma_fitted_text(t: Seq<char>, width: int)
    requires
        is_ascii_chars(t),
        t.len() <= width,
    ensures
        writer::fitted(encode_utf8(t), width).len() == width,
        text::trimmed_end(text::lossy_text(writer::fitted(encode_utf8(t), width)))
            == text::trimmed_end(t),
{
    let b = encode_utf8(t);
    vstd::utf8::is_ascii_chars_encode_utf8(t);
    vstd::utf8::encode_utf8_valid_utf8(t);
    vstd::utf8::encode_utf8_decode_utf8(t);
    let pad = (width - b.len()) as nat;
    let f = writer::fitted(b, width);
    text_law::lemma_blanks(pad);
    assert(bytes::run_of(32, pad) =~= Seq::new(pad, |i: int| 32u8));
    assert(f =~= b + bytes::run_of(32, pad));
    text_law::law_decode_concat(b, bytes::run_of(32, pad));
    text_law::law_trim_end_ignores_padding(t, text_law::blanks(pad));
}

/// A label is read back.
proof fn lemma_label_read_back(s: Seq<u8>, q: int, label: Option<Seq<char>>)
    requires
        label matches Some(t) ==> text::byte_len(t) <= i32::MAX,
        bytes::holds_at(s, q, writer::label_bytes(label)),
    ensures
        reader::label_at(s, q, label is Some) == Ok::<_, bytes::SavError>(
            (stored_label(label), q + writer::label_bytes(label).len()),
        ),
{
    match label {
        None => {},
        Some(t) => {
            let b = encode_utf8(t);
            let n = b.len() as int;
            let pad = bytes::run_of(0, (reader::padded4(n) - n) as nat);
            bytes::lemma_holds_split(s, q, bytes::le4(n) + b, pad);
            bytes::lemma_holds_split(s, q, bytes::le4(n), b);
            bytes::law_integer_read_back(s, q, n);
            text_law::lemma_lossy_of_encoded(t);
            assert(s.subrange(q + 4, q + 4 + n) == b);
        },
    }
}

proof fn lemma_numbers_read_back(s: Seq<u8>, q: int, v: Seq<Number>)
    requires
        bytes::holds_at(s, q, writer::number_bytes(v)),
    ensures
        writer::number_bytes(v).len() == 8 * v.len(),
        reader::numbers_at(s, q, v.len() as int) == v,
    decreases v.len(),
{
    if v.len() == 0 {
        assert(reader::numbers_at(s, q, 0) =~= v);
    } else {
        let before = v.drop_last();
        bytes::lemma_holds_split(s, q, writer::number_bytes(before), bytes::le8(v.last()));
        lemma_numbers_read_back(s, q, before);
        bytes::law_double_read_back(s, q + 8 * before.len(), v.last());
        let got = reader::numbers_at(s, q, v.len() as int);
        assert forall|i: int| 0 <= i < v.len() implies got[i] == v[i] by {
            if i < before.len() {
                assert(reader::numbers_at(s, q, before.len() as int)[i] == before[i]);
            }
        }
        assert(got =~= v);
    }
}

/// The missing values are read back.
proof fn lemma_missing_read_back(s: Seq<u8>, q: int, m: MissingView)
    requires
        m.range is None ==> m.discrete.len() <= 3,
        bytes::holds_at(s, q, writer::missing_bytes(m)),
    ensures
        reader::missing_at(s, q, writer::missing_code(m) as i32) == Ok::<_, bytes::SavError>(
            (stored_missing(m), q + writer::missing_bytes(m).len()),
        ),
{
    match m.range {
        Some((lo, hi)) => {
            if m.discrete.len() > 0 {
                let d = m.discrete[0];
                bytes::lemma_holds_split(s, q, bytes::le8(lo) + bytes::le8(hi), bytes::le8(d));
                bytes::lemma_holds_split(s, q, bytes::le8(lo), bytes::le8(hi));
                bytes::law_double_read_back(s, q, lo);
                bytes::law_double_read_back(s, q + 8, hi);
                bytes::law_double_read_back(s, q + 16, d);
                assert(reader::missing_of(-3, reader::numbers_at(s, q, 3)) =~= stored_missing(m));
            } else {
                bytes::lemma_holds_split(s, q, bytes::le8(lo), bytes::le8(hi));
                bytes::law_double_read_back(s, q, lo);
                bytes::law_double_read_back(s, q + 8, hi);
                assert(reader::missing_of(-2, reader::numbers_at(s, q, 2)) =~= stored_missing(m));
            }
        },
        None => {
            lemma_numbers_read_back(s, q, m.discrete);
            assert(reader::missing_of(
                m.discrete.len() as int,
                reader::numbers_at(s, q, m.discrete.len() as int),
            ) =~= stored_missing(m));
        },
    }
}

/// The fixed part of a variable record.
spec fn record_head(v: VariableView, i: int) -> Seq<u8> {
    bytes::le4(2) + bytes::le4(writer::type_code(v.var_type)) + bytes::le4(
        if v.label is Some {
            1
        } else {
            0
        },
    ) + bytes::le4(writer::missing_code(v.missing)) + writer::format_bytes(v)
        + writer::format_bytes(v) + writer::fitted(encode_utf8(writer::short_name(v.name, i)), 8)
}

/// The record of a variable is read back.
pub proof fn lemma_record_read_back(s: Seq<u8>, p: int, v: VariableView, i: int)
    requires
        0 <= i,
        storable_variable(v),
        bytes::holds_at(s, p, writer::record_bytes(v, i)),
    ensures
        p + 4 <= s.len(),
        bytes::i32_at(s, p) == 2,
        reader::record_at(s, p + 4) == Ok::<_, bytes::SavError>(
            (bare_record(v, i), p + writer::record_bytes(v, i).len()),
        ),
{
    let head = record_head(v, i);
    let label = writer::label_bytes(v.label);
    let missing = writer::missing_bytes(v.missing);
    bytes::lemma_holds_split(s, p, head + label, missing);
    bytes::lemma_holds_split(s, p, head, label);
    let flag: int = if v.label is Some {
        1
    } else {
        0
    };
    let code = writer::type_code(v.var_type);
    let count = writer::missing_code(v.missing);
    let fmt = writer::format_bytes(v);
    let name = writer::fitted(encode_utf8(writer::short_name(v.name, i)), 8);
    let a = bytes::le4(2);
    let b = a + bytes::le4(code);
    let c = b + bytes::le4(flag);
    let d = c + bytes::le4(count);
    let e = d + fmt;
    let f = e + fmt;
    assert(head == f + name);
    bytes::lemma_holds_split(s, p, f, name);
    bytes::lemma_holds_split(s, p, e, fmt);
    bytes::lemma_holds_split(s, p, d, fmt);
    bytes::lemma_holds_split(s, p, c, bytes::le4(count));
    bytes::lemma_holds_split(s, p, b, bytes::le4(flag));
    bytes::lemma_holds_split(s, p, a, bytes::le4(code));
    bytes::law_integer_read_back(s, p, 2);
    bytes::law_integer_read_back(s, p + 4, code);
    bytes::law_integer_read_back(s, p + 8, flag);
    bytes::law_integer_read_back(s, p + 12, count);
    let w = s.subrange(p + 16, p + 20);
    assert(w == fmt);
    assert(s[p + 16] == w[0] && s[p + 17] == w[1]);
    assert(s.subrange(p + 24, p + 32) == name);
    lemma_label_read_back(s, p + 32, v.label);
    lemma_missing_read_back(s, p + 32 + label.len(), v.missing);
    assert(reader::type_of_code(code as i32) == v.var_type);
}

/// A continuation record is read back.
pub proof fn lemma_continuation_read_back(s: Seq<u8>, p: int)
    requires
        bytes::holds_at(s, p, writer::continuation_bytes()),
    ensures
        writer::continuation_bytes().len() == 32,
        p + 4 <= s.len(),
        bytes::i32_at(s, p) == 2,
        reader::record_at(s, p + 4) == Ok::<_, bytes::SavError>((continuation_record(), p + 32)),
{
    let fmt = seq![0u8, 0, 1, 0];
    let a = bytes::le4(2);
    let b = a + bytes::le4(-1);
    let c = b + bytes::le4(0);
    let d = c + bytes::le4(0);
    let e = d + fmt;
    let f = e + fmt;
    let name = bytes::run_of(32, 8);
    bytes::lemma_holds_split(s, p, f, name);
    bytes::lemma_holds_split(s, p, e, fmt);
    bytes::lemma_holds_split(s, p, d, fmt);
    bytes::lemma_holds_split(s, p, c, bytes::le4(0));
    bytes::lemma_holds_split(s, p, b, bytes::le4(0));
    bytes::lemma_holds_split(s, p, a, bytes::le4(-1));
    bytes::law_integer_read_back(s, p, 2);
    bytes::law_integer_read_back(s, p + 4, -1);
    bytes::law_integer_read_back(s, p + 8, 0);
    bytes::law_integer_read_back(s, p + 12, 0);
    let w = s.subrange(p + 16, p + 20);
    assert(w == fmt);
    assert(s[p + 16] == w[0] && s[p + 17] == w[1]);
    assert(s.subrange(p + 24, p + 32) == name);
    let none = Seq::<char>::empty();
    assert(is_ascii_chars(none));
    lemma_fitted_text(none, 8);
    vstd::utf8::is_ascii_chars_encode_utf8(none);
    assert(writer::fitted(encode_utf8(none), 8) =~= name);
    text_law::lemma_trim_end_nothing(none);
    assert(reader::missing_of(0, reader::numbers_at(s, p + 32, 0)) =~= MissingView::none());
    assert(reader::record_at(s, p + 4)->Ok_0.0 =~= continuation_record());
}

} // verus!
