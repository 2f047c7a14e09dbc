//! What other programs find in a file that was written.
use vstd::prelude::*;
use vstd::utf8::encode_utf8;

use crate::arith::{meaning, NumOp};
use crate::arith_law::exact;
use crate::dataset::DatasetView;
use crate::number::{nearest, Number};
use crate::number_law;
use crate::number_law::small;
use crate::sav::bytes;
use crate::sav::writer;
use crate::variable::{VariableType, VariableView};

verus! {

/// A file starts with its mark and a header: the layout code 2, the number of variable
/// records, the compression 1, no weight, the number of cases, and the bias 100.
pub proof fn law_written_header<F: Fn(NumOp) -> Number>(ds: DatasetView, calc: F)
    requires
        ds.n_cases() <= i32::MAX,
        0 <= writer::record_count(ds.variables, ds.variables.len() as int) <= i32::MAX,
    ensures
        ({
            let s = writer::sav_bytes(ds, calc);
            &&& s.len() >= 176
            &&& s[0] == 0x24 && s[1] == 0x46 && s[2] == 0x4C && s[3] == 0x32
            &&& bytes::i32_at(s, 64) == 2
            &&& bytes::i32_at(s, 68) == writer::record_count(
                ds.variables,
                ds.variables.len() as int,
            )
            &&& bytes::i32_at(s, 72) == 1
            &&& bytes::i32_at(s, 76) == 0
            &&& bytes::i32_at(s, 80) == ds.n_cases()
            &&& bytes::number_at(s, 84) == nearest(100)
        }),
{
    let s = writer::sav_bytes(ds, calc);
    let n = ds.variables.len() as int;
    let records = writer::record_count(ds.variables, n);
    let cases = ds.n_cases() as int;
    lemma_starts(
        s,
        writer::header_bytes(records, cases),
        writer::variable_bytes(ds.variables, n),
        writer::label_records_bytes(ds.variables, n),
        writer::names_bytes(writer::long_entries(ds.variables, n)),
        writer::levels_bytes(ds.variables),
        writer::data_bytes(writer::case_items(ds, ds.batches.len() as int, calc)),
    );
    lemma_header_parts(s, records, cases);
}

/// The first of several parts stands at the start.
proof fn lemma_starts(
    s: Seq<u8>,
    a: Seq<u8>,
    b: Seq<u8>,
    c: Seq<u8>,
    d: Seq<u8>,
    e: Seq<u8>,
    f: Seq<u8>,
)
    requires
        s == a + b + c + d + e + bytes::le4(999) + bytes::le4(0) + f,
    ensures
        bytes::holds_at(s, 0, a),
{
    assert(s.subrange(0, a.len() as int) =~= a);
}

proof fn lemma_header_parts(s: Seq<u8>, records: int, cases: int)
    requires
        0 <= cases <= i32::MAX,
        0 <= records <= i32::MAX,
        bytes::holds_at(s, 0, writer::header_bytes(records, cases)),
    ensures
        s.len() >= 176,
        s[0] == 0x24 && s[1] == 0x46 && s[2] == 0x4C && s[3] == 0x32,
        bytes::i32_at(s, 64) == 2,
        bytes::i32_at(s, 68) == records,
        bytes::i32_at(s, 72) == 1,
        bytes::i32_at(s, 76) == 0,
        bytes::i32_at(s, 80) == cases,
        bytes::number_at(s, 84) == nearest(100),
{
    reveal_strlit("$FL2");
    reveal_strlit("OxStat");
    reveal_strlit("04 Jul 26");
    reveal_strlit("12:00:00");
    let magic = encode_utf8("$FL2"@);
    vstd::utf8::is_ascii_chars_encode_utf8("$FL2"@);
    vstd::utf8::is_ascii_chars_encode_utf8("OxStat"@);
    vstd::utf8::is_ascii_chars_encode_utf8("04 Jul 26"@);
    vstd::utf8::is_ascii_chars_encode_utf8("12:00:00"@);
    let bias = nearest(100);
    let a0 = magic + encode_utf8("OxStat"@);
    let a1 = a0 + bytes::run_of(32, 54);
    let a2 = a1 + bytes::le4(2);
    let a3 = a2 + bytes::le4(records);
    let a4 = a3 + bytes::le4(1);
    let a5 = a4 + bytes::le4(0);
    let a6 = a5 + bytes::le4(cases);
    let a7 = a6 + bytes::le8(bias);
    let a8 = a7 + encode_utf8("04 Jul 26"@);
    let a9 = a8 + encode_utf8("12:00:00"@);
    let a10 = a9 + bytes::run_of(32, 64);
    bytes::lemma_holds_split(s, 0, a10, bytes::run_of(0, 3));
    bytes::lemma_holds_split(s, 0, a9, bytes::run_of(32, 64));
    bytes::lemma_holds_split(s, 0, a8, encode_utf8("12:00:00"@));
    bytes::lemma_holds_split(s, 0, a7, encode_utf8("04 Jul 26"@));
    bytes::lemma_holds_split(s, 0, a6, bytes::le8(bias));
    bytes::lemma_holds_split(s, 0, a5, bytes::le4(cases));
    bytes::lemma_holds_split(s, 0, a4, bytes::le4(0));
    bytes::lemma_holds_split(s, 0, a3, bytes::le4(1));
    bytes::lemma_holds_split(s, 0, a2, bytes::le4(records));
    bytes::lemma_holds_split(s, 0, a1, bytes::le4(2));
    bytes::lemma_holds_split(s, 0, a0, bytes::run_of(32, 54));
    bytes::lemma_holds_split(s, 0, magic, encode_utf8("OxStat"@));
    bytes::law_integer_read_back(s, 64, 2);
    bytes::law_integer_read_back(s, 68, records);
    bytes::law_integer_read_back(s, 72, 1);
    bytes::law_integer_read_back(s, 76, 0);
    bytes::law_integer_read_back(s, 80, cases);
    bytes::law_double_read_back(s, 84, bias);
    assert(s.subrange(0, 4) == magic);
    assert(s.subrange(0, 4)[0] == s[0] && s.subrange(0, 4)[1] == s[1]);
    assert(s.subrange(0, 4)[2] == s[2] && s.subrange(0, 4)[3] == s[3]);
}

/// A variable record: the record type 2, the width of a text or 0, whether there is a
/// label, and twice the format, of decimals, width and kind.
pub proof fn law_written_record(s: Seq<u8>, p: int, v: VariableView, i: int)
    requires
        bytes::holds_at(s, p, writer::record_bytes(v, i)),
        v.var_type matches VariableType::String(w) ==> w <= i32::MAX,
    ensures
        bytes::i32_at(s, p) == 2,
        bytes::i32_at(s, p + 4) == match v.var_type {
            VariableType::Numeric => 0int,
            VariableType::String(w) => w as int,
        },
        bytes::i32_at(s, p + 8) == if v.label is Some {
            1int
        } else {
            0
        },
        s[p + 16] == v.print_decimals && s[p + 20] == v.print_decimals,
        s[p + 17] == v.print_width && s[p + 21] == v.print_width,
        s[p + 18] == s[p + 22],
        s[p + 18] == if v.var_type is Numeric {
            5int
        } else {
            1
        },
{
    let flag: int = if v.label is Some {
        1
    } else {
        0
    };
    let code = writer::type_code(v.var_type);
    let a1 = bytes::le4(2) + bytes::le4(code);
    let a2 = a1 + bytes::le4(flag);
    let a3 = a2 + bytes::le4(writer::missing_code(v.missing));
    let f = writer::format_bytes(v);
    let a4 = a3 + f;
    let a5 = a4 + f;
    let name = writer::fitted(encode_utf8(writer::short_name(v.name, i)), 8);
    let a6 = a5 + name;
    let a7 = a6 + writer::label_bytes(v.label);
    bytes::lemma_holds_split(s, p, a7, writer::missing_bytes(v.missing));
    bytes::lemma_holds_split(s, p, a6, writer::label_bytes(v.label));
    bytes::lemma_holds_split(s, p, a5, name);
    bytes::lemma_holds_split(s, p, a4, f);
    bytes::lemma_holds_split(s, p, a3, f);
    bytes::lemma_holds_split(s, p, a2, bytes::le4(writer::missing_code(v.missing)));
    bytes::lemma_holds_split(s, p, a1, bytes::le4(flag));
    bytes::lemma_holds_split(s, p, bytes::le4(2), bytes::le4(code));
    bytes::law_integer_read_back(s, p, 2);
    bytes::law_integer_read_back(s, p + 4, code);
    bytes::law_integer_read_back(s, p + 8, flag);
    let one = s.subrange(p + 16, p + 20);
    let two = s.subrange(p + 20, p + 24);
    assert(one == f && two == f);
    assert(one[0] == s[p + 16] && one[1] == s[p + 17] && one[2] == s[p + 18]);
    assert(two[0] == s[p + 20] && two[1] == s[p + 21] && two[2] == s[p + 22]);
}

/// An integer from -99 to 151 is written as a command alone, 100 more than it; any
/// other integer as a command and its eight bytes.
pub proof fn law_integer_written<F: Fn(NumOp) -> Number>(n: int, calc: F)
    requires
        exact(calc),
        small(n),
        small(n + 100),
    ensures
        if -99 <= n <= 151 {
            writer::number_item(nearest(n), calc) == ((n + 100) as u8, Seq::<u8>::empty())
        } else {
            writer::number_item(nearest(n), calc) == (253u8, bytes::le8(nearest(n)))
        },
{
    let code = nearest(n + 100);
    assert(meaning(calc, NumOp::Add(nearest(n), nearest(100))) == code);
    number_law::law_integers_are_whole(n + 100);
    assert(writer::number_code(nearest(n), calc) == code);
    number_law::law_integers_keep_their_order(1, n + 100);
    number_law::law_integers_keep_their_order(n + 100, 251);
    if -99 <= n <= 151 {
        assert(meaning(calc, NumOp::Sub(code, nearest(100))) == nearest(n));
        assert(meaning(calc, NumOp::Sub(nearest(n), nearest(n))) == nearest(0));
        number_law::law_integers_keep_their_sign(0);
        crate::number::law_small_integers_exact(0);
        crate::number::law_small_integers_exact(n + 100);
        assert(crate::number::nearest_bits(0) == 0);
        assert(nearest(0).absolute().below(Number { bits: writer::TOLERANCE_BITS }));
    }
}

} // verus!
