//! What the functions on texts give, by name.
use vstd::prelude::*;
use vstd::utf8::{encode_utf8, is_ascii_chars};

use crate::arith::NumOp;
use crate::dataset::DatasetView;
use crate::expr::builtin;
use crate::expr::function_law;
use crate::expr::function_law::{num, result};
use crate::expr::law;
use crate::number::{nearest, Number};
use crate::number_law::small;
use crate::text;
use crate::value::ValueView;

verus! {

/// A text as a value.
pub open spec fn words(t: Seq<char>) -> ValueView {
    ValueView::String(t)
}

proof fn lemma_concatenated(a: Seq<ValueView>, b: Seq<ValueView>)
    ensures
        builtin::concatenated(a) matches ValueView::String(x) ==> (builtin::concatenated(b) matches
            ValueView::String(y) ==> builtin::concatenated(a + b) == words(x + y)),
        !(builtin::concatenated(a) is String) || !(builtin::concatenated(b) is String)
            ==> builtin::concatenated(a + b) is SystemMissing,
    decreases b.len(),
{
    if b.len() == 0 {
        assert(a + b =~= a);
        if let ValueView::String(x) = builtin::concatenated(a) {
            assert(x + Seq::<char>::empty() =~= x);
        }
    } else {
        lemma_concatenated(a, b.drop_last());
        assert((a + b).drop_last() =~= a + b.drop_last());
        assert((a + b).last() == b.last());
        if let (
            ValueView::String(x),
            ValueView::String(y),
            ValueView::String(z),
        ) = (builtin::concatenated(a), builtin::concatenated(b.drop_last()), b.last()) {
            assert(x + y + z =~= x + (y + z));
        }
    }
}

/// CONCAT puts texts one behind the other, in their order; with a value that is no
/// text among them it is missing.
pub proof fn law_concat<F: Fn(NumOp) -> Number>(
    t: Seq<char>,
    v: ValueView,
    a: Seq<ValueView>,
    b: Seq<ValueView>,
    ds: DatasetView,
    calc: F,
)
    ensures
        result("CONCAT"@, Seq::empty(), ds, calc) == Some(words(Seq::empty())),
        result("CONCAT"@, seq![words(t)], ds, calc) == Some(words(t)),
        !(v is String) ==> result("CONCAT"@, seq![v], ds, calc) == Some(ValueView::SystemMissing),
        result("CONCAT"@, a, ds, calc) matches Some(ValueView::String(x)) ==> (result(
            "CONCAT"@,
            b,
            ds,
            calc,
        ) matches Some(ValueView::String(y)) ==> result("CONCAT"@, a + b, ds, calc) == Some(
            words(x + y),
        )),
        result("CONCAT"@, a, ds, calc) == Some(ValueView::SystemMissing) || result(
            "CONCAT"@,
            b,
            ds,
            calc,
        ) == Some(ValueView::SystemMissing) ==> result("CONCAT"@, a + b, ds, calc) == Some(
            ValueView::SystemMissing,
        ),
{
    function_law::lemma_textual_names();
    function_law::lemma_call("CONCAT"@, None, Seq::empty(), ds, 0, 0, calc);
    function_law::lemma_call("CONCAT"@, None, seq![words(t)], ds, 0, 0, calc);
    function_law::lemma_call("CONCAT"@, None, seq![v], ds, 0, 0, calc);
    function_law::lemma_call("CONCAT"@, None, a, ds, 0, 0, calc);
    function_law::lemma_call("CONCAT"@, None, b, ds, 0, 0, calc);
    function_law::lemma_call("CONCAT"@, None, a + b, ds, 0, 0, calc);
    lemma_concatenated(a, b);
    assert(seq![words(t)].drop_last() =~= Seq::empty());
    assert(seq![v].drop_last() =~= Seq::empty());
    reveal_with_fuel(builtin::concatenated, 2);
    assert(Seq::<char>::empty() + t =~= t);
}

/// UPPER and LOWER change the letters of an ASCII text one for one and leave the
/// rest as it is; LENGTH counts bytes, which in such a text are its characters.
pub proof fn law_case_and_length<F: Fn(NumOp) -> Number>(t: Seq<char>, ds: DatasetView, calc: F)
    ensures
        result("LENGTH"@, seq![words(t)], ds, calc) == Some(
            num(nearest(encode_utf8(t).len() as int)),
        ),
        is_ascii_chars(t) ==> {
            &&& result("LENGTH"@, seq![words(t)], ds, calc) == Some(num(nearest(t.len() as int)))
            &&& result("UPPER"@, seq![words(t)], ds, calc) matches Some(ValueView::String(u))
                && u.len() == t.len() && forall|i: int|
                0 <= i < t.len() ==> if 'a' <= t[i] && t[i] <= 'z' {
                    #[trigger] u[i] as u32 + 32 == t[i] as u32
                } else {
                    u[i] == t[i]
                }
            &&& result("LOWER"@, seq![words(t)], ds, calc) matches Some(ValueView::String(u))
                && u.len() == t.len() && forall|i: int|
                0 <= i < t.len() ==> if 'A' <= t[i] && t[i] <= 'Z' {
                    #[trigger] u[i] as u32 == t[i] as u32 + 32
                } else {
                    u[i] == t[i]
                }
        },
{
    function_law::lemma_textual_names();
    let a = seq![words(t)];
    assert(a[0] == words(t));
    function_law::lemma_call("LENGTH"@, None, a, ds, 0, 0, calc);
    function_law::lemma_call("UPPER"@, None, a, ds, 0, 0, calc);
    function_law::lemma_call("LOWER"@, None, a, ds, 0, 0, calc);
    if is_ascii_chars(t) {
        law::lemma_ascii_slice(t, 0, 0);
        assert(text::uppercase(t) == t.map_values(|c: char| text::ascii_upper(c)));
        assert(text::lowercase(t) == t.map_values(|c: char| text::ascii_lower(c)));
    }
}

/// SUBSTR takes the characters from a position on, counted from 1, of a length or
/// up to the end; outside the text there are none. (In an ASCII text: positions
/// count bytes.)
pub proof fn law_substr<F: Fn(NumOp) -> Number>(
    t: Seq<char>,
    p: int,
    n: int,
    ds: DatasetView,
    calc: F,
)
    requires
        is_ascii_chars(t),
        t.len() <= usize::MAX,
        small(p),
        small(n),
        isize::MIN <= p <= isize::MAX,
        n >= 0,
        p + n <= usize::MAX,
    ensures
        ({
            let from = result("SUBSTR"@, seq![words(t), num(nearest(p))], ds, calc);
            let part = result("SUBSTR"@, seq![words(t), num(nearest(p)), num(nearest(n))], ds, calc);
            if 1 <= p <= t.len() {
                &&& from == Some(words(t.skip(p - 1)))
                &&& part matches Some(ValueView::String(x)) && x.is_prefix_of(t.skip(p - 1))
                    && x.len() == (if n < t.len() - (p - 1) {
                    n
                } else {
                    t.len() - (p - 1)
                })
            } else {
                &&& from == Some(words(Seq::empty()))
                &&& part == Some(words(Seq::empty()))
            }
        }),
{
    function_law::lemma_textual_names();
    let two = seq![words(t), num(nearest(p))];
    let three = seq![words(t), num(nearest(p)), num(nearest(n))];
    function_law::lemma_call("SUBSTR"@, None, two, ds, 0, 0, calc);
    function_law::lemma_call("SUBSTR"@, None, three, ds, 0, 0, calc);
    crate::number::law_small_integers_exact(p);
    crate::number::law_small_integers_exact(n);
    law::lemma_ascii_slice(t, 0, 0);
    let len = t.len() as int;
    let end = if p - 1 + n < len {
        p - 1 + n
    } else {
        len
    };
    if 1 <= p <= len {
        law::lemma_ascii_slice(t, p - 1, len);
        law::lemma_ascii_slice(t, p - 1, end);
        assert(t.subrange(p - 1, len) =~= t.skip(p - 1));
        assert(t.subrange(p - 1, end) =~= t.skip(p - 1).take(end - (p - 1)));
    }
}

/// `pad` characters only.
pub open spec fn all_of(s: Seq<char>, pad: char) -> bool {
    forall|i: int| 0 <= i < s.len() ==> #[trigger] s[i] == pad
}

/// LPAD and RPAD fill a text up to a length, before it and behind it, with blanks or
/// the character that is given; a text that is as long already stays as it is.
pub proof fn law_pad<F: Fn(NumOp) -> Number>(
    t: Seq<char>,
    n: int,
    pad: char,
    ds: DatasetView,
    calc: F,
)
    requires
        is_ascii_chars(t),
        small(n),
        0 <= n <= isize::MAX,
    ensures
        ({
            let fill = seq![words(t), num(nearest(n)), words(seq![pad])];
            let blank = seq![words(t), num(nearest(n))];
            let before = |r: Option<ValueView>, c: char|
                r matches Some(ValueView::String(x)) && if n <= t.len() {
                    x == t
                } else {
                    x.len() == n && t == x.skip(n - t.len()) && all_of(x.take(n - t.len()), c)
                };
            let after = |r: Option<ValueView>, c: char|
                r matches Some(ValueView::String(x)) && if n <= t.len() {
                    x == t
                } else {
                    x.len() == n && t == x.take(t.len() as int) && all_of(
                        x.skip(t.len() as int),
                        c,
                    )
                };
            &&& before(result("LPAD"@, fill, ds, calc), pad)
            &&& before(result("LPAD"@, blank, ds, calc), ' ')
            &&& after(result("RPAD"@, fill, ds, calc), pad)
            &&& after(result("RPAD"@, blank, ds, calc), ' ')
        }),
{
    function_law::lemma_textual_names();
    let fill = seq![words(t), num(nearest(n)), words(seq![pad])];
    let blank = seq![words(t), num(nearest(n))];
    function_law::lemma_call("LPAD"@, None, fill, ds, 0, 0, calc);
    function_law::lemma_call("LPAD"@, None, blank, ds, 0, 0, calc);
    function_law::lemma_call("RPAD"@, None, fill, ds, 0, 0, calc);
    function_law::lemma_call("RPAD"@, None, blank, ds, 0, 0, calc);
    crate::number::law_small_integers_exact(n);
    law::lemma_ascii_slice(t, 0, 0);
    let len = t.len() as int;
    if n > len {
        lemma_filled(t, n, pad);
        lemma_filled(t, n, ' ');
    }
    assert(seq![pad][0] == pad && seq![' '][0] == ' ');
}

proof fn lemma_filled(t: Seq<char>, n: int, c: char)
    requires
        n > t.len(),
    ensures
        ({
            let x = builtin::repeated(c, (n - t.len()) as nat) + t;
            x.len() == n && t == x.skip(n - t.len()) && all_of(x.take(n - t.len()), c)
        }),
        ({
            let x = t + builtin::repeated(c, (n - t.len()) as nat);
            x.len() == n && t == x.take(t.len() as int) && all_of(x.skip(t.len() as int), c)
        }),
{
    let r = builtin::repeated(c, (n - t.len()) as nat);
    assert((r + t).skip(n - t.len()) =~= t);
    assert((r + t).take(n - t.len()) =~= r);
    assert((t + r).take(t.len() as int) =~= t);
    assert((t + r).skip(t.len() as int) =~= r);
}

proof fn lemma_drop_start(s: Seq<char>, p: spec_fn(char) -> bool)
    ensures
        ({
            let r = text::drop_start(s, p);
            &&& r.len() <= s.len()
            &&& r == s.skip(s.len() - r.len())
            &&& forall|i: int| 0 <= i < s.len() - r.len() ==> p(#[trigger] s[i])
            &&& r.len() > 0 ==> !p(r[0])
        }),
    decreases s.len(),
{
    let r = text::drop_start(s, p);
    if s.len() > 0 && p(s[0]) {
        lemma_drop_start(s.skip(1), p);
        assert(s.skip(1).skip(s.skip(1).len() - r.len()) =~= s.skip(s.len() - r.len()));
        assert forall|i: int| 0 <= i < s.len() - r.len() implies p(#[trigger] s[i]) by {
            if i > 0 {
                assert(s.skip(1)[i - 1] == s[i]);
            }
        }
    } else {
        assert(s.skip(0) =~= s);
    }
}

proof fn lemma_drop_end(s: Seq<char>, p: spec_fn(char) -> bool)
    ensures
        ({
            let r = text::drop_end(s, p);
            &&& r.len() <= s.len()
            &&& r == s.take(r.len() as int)
            &&& forall|i: int| r.len() <= i < s.len() ==> p(#[trigger] s[i])
            &&& r.len() > 0 ==> !p(r.last())
        }),
    decreases s.len(),
{
    let r = text::drop_end(s, p);
    if s.len() > 0 && p(s.last()) {
        lemma_drop_end(s.drop_last(), p);
        assert(s.drop_last().take(r.len() as int) =~= s.take(r.len() as int));
        assert forall|i: int| r.len() <= i < s.len() implies p(#[trigger] s[i]) by {
            if i < s.len() - 1 {
                assert(s.drop_last()[i] == s[i]);
            }
        }
    } else {
        assert(s.take(s.len() as int) =~= s);
    }
}

/// LTRIM cuts off what stands at the start and RTRIM what stands at the end: white
/// space, or the character that is given; and no more than that.
pub proof fn law_trim<F: Fn(NumOp) -> Number>(
    t: Seq<char>,
    c: char,
    ds: DatasetView,
    calc: F,
)
    ensures
        ({
            let start = |r: Option<ValueView>, p: spec_fn(char) -> bool|
                r matches Some(ValueView::String(x)) && x.len() <= t.len() && x == t.skip(
                    t.len() - x.len(),
                ) && (forall|i: int| 0 <= i < t.len() - x.len() ==> p(#[trigger] t[i])) && (x.len()
                    > 0 ==> !p(x[0]));
            let end = |r: Option<ValueView>, p: spec_fn(char) -> bool|
                r matches Some(ValueView::String(x)) && x.len() <= t.len() && x == t.take(
                    x.len() as int,
                ) && (forall|i: int| x.len() <= i < t.len() ==> p(#[trigger] t[i])) && (x.len() > 0
                    ==> !p(x.last()));
            &&& start(result("LTRIM"@, seq![words(t)], ds, calc), |k: char| text::white(k))
            &&& end(result("RTRIM"@, seq![words(t)], ds, calc), |k: char| text::white(k))
            &&& start(result("LTRIM"@, seq![words(t), words(seq![c])], ds, calc), |k: char| k == c)
            &&& end(result("RTRIM"@, seq![words(t), words(seq![c])], ds, calc), |k: char| k == c)
        }),
{
    function_law::lemma_textual_names();
    let one = seq![words(t)];
    let two = seq![words(t), words(seq![c])];
    function_law::lemma_call("LTRIM"@, None, one, ds, 0, 0, calc);
    function_law::lemma_call("RTRIM"@, None, one, ds, 0, 0, calc);
    function_law::lemma_call("LTRIM"@, None, two, ds, 0, 0, calc);
    function_law::lemma_call("RTRIM"@, None, two, ds, 0, 0, calc);
    lemma_drop_start(t, |k: char| text::white(k));
    lemma_drop_end(t, |k: char| text::white(k));
    lemma_drop_start(t, text::same_as(c));
    lemma_drop_end(t, text::same_as(c));
    assert(seq![c][0] == c);
}

/// INDEX gives the position, counted from 1, at which a text first stands in another
/// (in ASCII texts: positions count bytes), and 0 where it stands nowhere.
pub proof fn law_index<F: Fn(NumOp) -> Number>(
    t: Seq<char>,
    x: Seq<char>,
    ds: DatasetView,
    calc: F,
)
    requires
        is_ascii_chars(t),
        is_ascii_chars(x),
        x.len() > 0,
        small(t.len() as int),
        small(x.len() as int),
        t.len() <= isize::MAX,
        x.len() <= isize::MAX,
    ensures
        ({
            let found = result("INDEX"@, seq![words(t), words(x)], ds, calc);
            let there = |i: int| 0 <= i <= t.len() - x.len() && t.subrange(i, i + x.len()) == x;
            ||| found == Some(num(nearest(0))) && forall|i: int| !#[trigger] there(i)
            ||| exists|i: int|
                #[trigger] there(i) && found == Some(num(nearest(i + 1))) && forall|j: int|
                    j < i ==> !#[trigger] there(j)
        }),
{
    function_law::lemma_textual_names();
    let two = seq![words(t), words(x)];
    function_law::lemma_call("INDEX"@, None, two, ds, 0, 0, calc);
    let there = |i: int| 0 <= i <= t.len() - x.len() && t.subrange(i, i + x.len()) == x;
    text::law_position_is_first(t, x, 0);
    assert forall|i: int| #[trigger] there(i) == text::stands_at(t, x, i) by {}
    match text::position_from(t, x, 0) {
        Some(i) => {
            law::lemma_ascii_slice(t.take(i), 0, 0);
            assert(there(i));
        },
        None => {},
    }
}

/// The other names of functions on texts.
pub proof fn law_other_names<F: Fn(NumOp) -> Number>(
    args: Seq<ValueView>,
    ds: DatasetView,
    calc: F,
)
    ensures
        result("UPPERCASE"@, args, ds, calc) == result("UPPER"@, args, ds, calc),
        result("LOWERCASE"@, args, ds, calc) == result("LOWER"@, args, ds, calc),
        result("CHAR.LENGTH"@, args, ds, calc) == result("LENGTH"@, args, ds, calc),
        result("CHAR.SUBSTR"@, args, ds, calc) == result("SUBSTR"@, args, ds, calc),
        result("CHAR.INDEX"@, args, ds, calc) == result("INDEX"@, args, ds, calc),
{
    function_law::lemma_textual_names();
    function_law::lemma_call("UPPERCASE"@, None, args, ds, 0, 0, calc);
    function_law::lemma_call("UPPER"@, None, args, ds, 0, 0, calc);
    function_law::lemma_call("LOWERCASE"@, None, args, ds, 0, 0, calc);
    function_law::lemma_call("LOWER"@, None, args, ds, 0, 0, calc);
    function_law::lemma_call("CHAR.LENGTH"@, None, args, ds, 0, 0, calc);
    function_law::lemma_call("LENGTH"@, None, args, ds, 0, 0, calc);
    function_law::lemma_call("CHAR.SUBSTR"@, None, args, ds, 0, 0, calc);
    function_law::lemma_call("SUBSTR"@, None, args, ds, 0, 0, calc);
    function_law::lemma_call("CHAR.INDEX"@, None, args, ds, 0, 0, calc);
    function_law::lemma_call("INDEX"@, None, args, ds, 0, 0, calc);
}

} // verus!
