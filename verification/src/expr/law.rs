//! What holds of all expressions.
use vstd::prelude::*;
use vstd::utf8::*;

use crate::arith::NumOp;
use crate::expr::ast::{BinaryOp, UnaryOp};
use crate::expr::builtin;
use crate::expr::builtin::Builtin;
use crate::expr::date;
use crate::expr::eval;
use crate::expr::parse;
use crate::number;
use crate::number::Number;
use crate::text;
use crate::text_law;
use crate::value::ValueView;

verus! {

/// One of the three truth values: true, false and missing.
pub open spec fn is_truth(v: ValueView) -> bool {
    v is SystemMissing || v == builtin::truth(true) || v == builtin::truth(false)
}

/// Arithmetic and comparison with a missing value give a missing value.
pub proof fn law_missing_propagates<F: Fn(NumOp) -> Number>(
    op: BinaryOp,
    sign: UnaryOp,
    v: ValueView,
    calc: F,
)
    ensures
        eval::binary(op, ValueView::SystemMissing, v, calc) is SystemMissing,
        eval::binary(op, v, ValueView::SystemMissing, calc) is SystemMissing,
        eval::unary(sign, ValueView::SystemMissing) is SystemMissing,
{
}

/// Division by zero gives a missing value.
pub proof fn law_division_by_zero<F: Fn(NumOp) -> Number>(a: Number, b: Number, calc: F)
    requires
        b.equals(number::nearest(0)),
    ensures
        eval::binary(BinaryOp::Div, ValueView::Numeric(a), ValueView::Numeric(b), calc) is SystemMissing,
{
}

/// Zero and one are different numbers, and each equals itself.
pub proof fn lemma_truth_values()
    ensures
        number::nearest(0).equals(number::nearest(0)),
        number::nearest(1).equals(number::nearest(1)),
        !number::nearest(0).equals(number::nearest(1)),
        !number::nearest(1).equals(number::nearest(0)),
{
    number::law_small_integers_exact(0);
    number::law_small_integers_exact(1);
}

/// The tables of three-valued logic: what a known operand decides is decided, and
/// all else is missing.
pub proof fn law_kleene_tables(v: ValueView)
    requires
        is_truth(v),
    ensures
        eval::conjunction(builtin::truth(false), v) == builtin::truth(false),
        eval::conjunction(builtin::truth(true), v) == v,
        eval::disjunction(builtin::truth(true), v) == builtin::truth(true),
        eval::disjunction(builtin::truth(false), v) == v,
        eval::conjunction(ValueView::SystemMissing, v) == if v == builtin::truth(false) {
            v
        } else {
            ValueView::SystemMissing
        },
        eval::disjunction(ValueView::SystemMissing, v) == if v == builtin::truth(true) {
            v
        } else {
            ValueView::SystemMissing
        },
        eval::unary(UnaryOp::Not, builtin::truth(true)) == builtin::truth(false),
        eval::unary(UnaryOp::Not, builtin::truth(false)) == builtin::truth(true),
        eval::unary(UnaryOp::Not, ValueView::SystemMissing) == ValueView::SystemMissing,
{
    lemma_truth_values();
}

/// Conjunction and disjunction do not depend on the order of their operands,
/// unless one is a text.
pub proof fn law_logic_commutes(a: ValueView, b: ValueView)
    requires
        !(a is String),
        !(b is String),
    ensures
        eval::conjunction(a, b) == eval::conjunction(b, a),
        eval::disjunction(a, b) == eval::disjunction(b, a),
{
}

/// The negation of a conjunction is the disjunction of the negations, and the other
/// way round.
pub proof fn law_de_morgan(a: ValueView, b: ValueView)
    requires
        is_truth(a),
        is_truth(b),
    ensures
        eval::unary(UnaryOp::Not, eval::conjunction(a, b)) == eval::disjunction(
            eval::unary(UnaryOp::Not, a),
            eval::unary(UnaryOp::Not, b),
        ),
        eval::unary(UnaryOp::Not, eval::disjunction(a, b)) == eval::conjunction(
            eval::unary(UnaryOp::Not, a),
            eval::unary(UnaryOp::Not, b),
        ),
{
    lemma_truth_values();
}

/// An operand that decides gives the same without the other one: leaving the
/// second out changes nothing.
pub proof fn law_short_circuit(l: ValueView, r: ValueView)
    ensures
        eval::decided(BinaryOp::And, l) ==> eval::conjunction(l, r) == builtin::truth(false),
        eval::decided(BinaryOp::Or, l) ==> eval::disjunction(l, r) == builtin::truth(true),
{
}

proof fn lemma_trim_start_pad(pad: Seq<char>, s: Seq<char>)
    requires
        text_law::all_white(pad),
    ensures
        text::trimmed_start(pad + s) == text::trimmed_start(s),
    decreases pad.len(),
{
    if pad.len() == 0 {
        assert(pad + s =~= s);
    } else {
        assert((pad + s)[0] == pad[0]);
        assert((pad + s).skip(1) =~= pad.skip(1) + s);
        assert forall|i: int| 0 <= i < pad.skip(1).len() implies text::white(
            #[trigger] pad.skip(1)[i],
        ) by {
            assert(text::white(pad[i + 1]));
        }
        lemma_trim_start_pad(pad.skip(1), s);
    }
}

/// White space around an expression changes nothing.
pub proof fn law_parse_ignores_space<R: Fn(String) -> Number>(
    before: Seq<char>,
    s: Seq<char>,
    after: Seq<char>,
    read: R,
)
    requires
        text_law::all_white(before),
        text_law::all_white(after),
    ensures
        parse::parsed(before + s + after, read) == parse::parsed(s, read),
{
    assert(before + s + after =~= before + (s + after));
    lemma_trim_start_pad(before, s + after);
    text_law::law_trim_end_ignores_padding(s, after);
    text_law::law_trim_after_trim_end(s);
    text_law::law_trim_after_trim_end(s + after);
}

/// The date of seconds whose whole days are the number of a valid date is that
/// date, whatever the time of day; seconds before the first day have no date.
/// (The division that gives the whole days is the caller's.)
pub proof fn law_date_returns_from_seconds<F: Fn(NumOp) -> Number>(
    t: Number,
    day: int,
    month: int,
    year: int,
    calc: F,
)
    requires
        date::valid_date(day, month, year),
        year <= u32::MAX,
    ensures
        ({
            let q = builtin::whole_quotient(t, 86400, calc);
            !t.below(number::nearest(0)) && !q.nan() && q.saturated(0, u64::MAX as int)
                == date::day_number(day, month, year)
        }) ==> {
            &&& builtin::of_time(Builtin::XdateMday, t, calc) == Some(
                ValueView::Numeric(number::nearest(day)),
            )
            &&& builtin::of_time(Builtin::XdateMonth, t, calc) == Some(
                ValueView::Numeric(number::nearest(month)),
            )
            &&& builtin::of_time(Builtin::XdateYear, t, calc) == Some(
                ValueView::Numeric(number::nearest(year)),
            )
        },
        t.below(number::nearest(0)) ==> {
            &&& builtin::of_time(Builtin::XdateMday, t, calc) == Some(ValueView::SystemMissing)
            &&& builtin::of_time(Builtin::XdateMonth, t, calc) == Some(ValueView::SystemMissing)
            &&& builtin::of_time(Builtin::XdateYear, t, calc) == Some(ValueView::SystemMissing)
        },
{
    date::law_date_of_day_number(day, month, year);
    let n = date::day_number(day, month, year);
    if n >= 79 {
        assert(date::date_of(n).2 == date::year_from(1583, n - 79).0);
    }
}

/// The call of SUBSTR on a text, from a position on, of as many bytes as another
/// text has.
pub open spec fn part_like<F: Fn(NumOp) -> Number>(
    s: Seq<char>,
    from: int,
    like: Seq<char>,
    calc: F,
) -> Option<ValueView> {
    match eval::called(Builtin::Length, None, seq![ValueView::String(like)], calc) {
        Some(len) => eval::called(
            Builtin::Substr,
            None,
            seq![ValueView::String(s), ValueView::Numeric(number::nearest(from)), len],
            calc,
        ),
        None => None,
    }
}

proof fn lemma_counted(n: int)
    requires
        0 <= n < 2 * number::FRACTIONS,
        n <= isize::MAX,
    ensures
        number::nearest(n).saturated(isize::MIN as int, isize::MAX as int) == n,
        number::nearest(n).saturated(0, usize::MAX as int) == n,
{
    number::law_small_integers_exact(n);
}

/// Each position of an ASCII text is a place to cut.
pub proof fn lemma_ascii_slice(s: Seq<char>, from: int, to: int)
    requires
        is_ascii_chars(s),
        0 <= from <= to <= s.len(),
    ensures
        text::byte_len(s) == s.len(),
        builtin::text_slice(s, from, to) == Some(s.subrange(from, to)),
{
    let (a, m, z) = (s.take(from), s.subrange(from, to), s.skip(to));
    assert(a + m + z =~= s);
    text_law::law_encode_concat(a + m, z);
    text_law::law_encode_concat(a, m);
    let b = encode_utf8(s);
    is_ascii_chars_encode_utf8(s);
    assert(is_ascii_chars(a));
    assert(is_ascii_chars(m));
    is_ascii_chars_encode_utf8(a);
    is_ascii_chars_encode_utf8(m);
    assert(b.subrange(from, to) =~= encode_utf8(m));
    encode_utf8_decode_utf8(m);
    encode_utf8_valid_utf8(s);
    lemma_ascii_boundary(s, from);
    lemma_ascii_boundary(s, to);
}

proof fn lemma_ascii_boundary(s: Seq<char>, at: int)
    requires
        is_ascii_chars(s),
        0 <= at <= s.len(),
    ensures
        is_char_boundary(encode_utf8(s), at),
{
    let b = encode_utf8(s);
    encode_utf8_valid_utf8(s);
    is_ascii_chars_encode_utf8(s);
    if at < s.len() {
        assert(s[at] as u8 == b[at]);
        is_char_boundary_iff_not_is_continuation_byte(b, at);
    } else {
        is_char_boundary_start_end_of_seq(b);
    }
}

/// What SUBSTR gives at a position of an ASCII text.
proof fn lemma_part_like<F: Fn(NumOp) -> Number>(s: Seq<char>, j: int, n: Seq<char>, calc: F)
    requires
        is_ascii_chars(s),
        is_ascii_chars(n),
        s.len() < 2 * number::FRACTIONS,
        s.len() <= isize::MAX,
        n.len() < 2 * number::FRACTIONS,
        n.len() <= isize::MAX,
        1 <= j <= s.len(),
    ensures
        part_like(s, j, n, calc) == Some(
            ValueView::String(
                s.subrange(
                    j - 1,
                    if j - 1 + n.len() < s.len() {
                        j - 1 + n.len()
                    } else {
                        s.len() as int
                    },
                ),
            ),
        ),
{
    lemma_ascii_slice(n, 0, 0);
    lemma_counted(j);
    lemma_counted(n.len() as int);
    let end = if j - 1 + n.len() < s.len() {
        j - 1 + n.len()
    } else {
        s.len() as int
    };
    lemma_ascii_slice(s, j - 1, end);
}

/// INDEX gives where SUBSTR finds the text: 0 where it occurs nowhere, and
/// otherwise the first position, counted from 1, at which the part of its length
/// is the text.
pub proof fn law_index_finds_substr<F: Fn(NumOp) -> Number>(s: Seq<char>, n: Seq<char>, calc: F)
    requires
        is_ascii_chars(s),
        is_ascii_chars(n),
        n.len() > 0,
        s.len() < 2 * number::FRACTIONS,
        s.len() <= isize::MAX,
        n.len() < 2 * number::FRACTIONS,
        n.len() <= isize::MAX,
    ensures
        ({
            let found = eval::called(
                Builtin::Index,
                None,
                seq![ValueView::String(s), ValueView::String(n)],
                calc,
            );
            ||| found == Some(ValueView::Numeric(number::nearest(0))) && (forall|j: int|
                1 <= j <= s.len() ==> #[trigger] part_like(s, j, n, calc) != Some(
                    ValueView::String(n),
                )) && (forall|j: int| !#[trigger] text::stands_at(s, n, j))
            ||| exists|i: int|
                1 <= i <= s.len() && found == Some(ValueView::Numeric(number::nearest(i)))
                    && #[trigger] part_like(s, i, n, calc) == Some(ValueView::String(n))
                    && text::stands_at(s, n, i - 1) && forall|j: int|
                    1 <= j < i ==> #[trigger] part_like(s, j, n, calc) != Some(
                        ValueView::String(n),
                    )
        }),
{
    text::law_position_is_first(s, n, 0);
    let last = match text::position_from(s, n, 0) {
        Some(i) => i,
        None => s.len() as int,
    };
    assert forall|j: int| 1 <= j <= last && j <= s.len() implies #[trigger] part_like(
        s,
        j,
        n,
        calc,
    ) != Some(ValueView::String(n)) by {
        lemma_part_like(s, j, n, calc);
        assert(!text::stands_at(s, n, j - 1));
        if j - 1 + n.len() > s.len() {
            assert(s.subrange(j - 1, s.len() as int).len() < n.len());
        }
    }
    match text::position_from(s, n, 0) {
        Some(i) => {
            lemma_ascii_slice(s.take(i), 0, 0);
            lemma_part_like(s, i + 1, n, calc);
            assert(part_like(s, i + 1, n, calc) == Some(ValueView::String(n)));
        },
        None => {
            assert forall|j: int| !#[trigger] text::stands_at(s, n, j) by {}
        },
    }
}

} // verus!
