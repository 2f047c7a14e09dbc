//! Facts about text: trimming, splitting what was joined, and the bytes of
//! texts that follow one another.
use vstd::prelude::*;
use vstd::utf8::*;

use crate::text;

verus! {

/// Every character is white space.
pub open spec fn all_white(s: Seq<char>) -> bool {
    forall|i: int| 0 <= i < s.len() ==> text::white(#[trigger] s[i])
}

/// White space at the end does not matter to a text that is trimmed there.
pub proof fn law_trim_end_ignores_padding(s: Seq<char>, pad: Seq<char>)
    requires
        all_white(pad),
    ensures
        text::trimmed_end(s + pad) == text::trimmed_end(s),
    decreases pad.len(),
{
    if pad.len() == 0 {
        assert(s + pad =~= s);
    } else {
        assert((s + pad).drop_last() =~= s + pad.drop_last());
        assert((s + pad).last() == pad.last());
        assert forall|i: int| 0 <= i < pad.drop_last().len() implies text::white(
            #[trigger] pad.drop_last()[i],
        ) by {
            assert(pad.drop_last()[i] == pad[i]);
        }
        law_trim_end_ignores_padding(s, pad.drop_last());
    }
}

/// What is cut off at the end is white space, and what is left does not end in it.
pub proof fn law_trim_end_splits(s: Seq<char>)
    ensures
        text::trimmed_end(s).len() <= s.len(),
        text::trimmed_end(s) == s.take(text::trimmed_end(s).len() as int),
        all_white(s.skip(text::trimmed_end(s).len() as int)),
        text::trimmed_end(s).len() > 0 ==> !text::white(text::trimmed_end(s).last()),
    decreases s.len(),
{
    if s.len() > 0 && text::white(s.last()) {
        law_trim_end_splits(s.drop_last());
        let k = text::trimmed_end(s).len() as int;
        assert(s.drop_last().take(k) =~= s.take(k));
        assert forall|i: int| 0 <= i < s.skip(k).len() implies text::white(
            #[trigger] s.skip(k)[i],
        ) by {
            if i < s.skip(k).len() - 1 {
                assert(s.skip(k)[i] == s.drop_last().skip(k)[i]);
            }
        }
    } else {
        assert(s.take(s.len() as int) =~= s);
    }
}

/// A text that does not end in white space is not changed by trimming its end.
pub proof fn lemma_trim_end_nothing(s: Seq<char>)
    requires
        s.len() == 0 || !text::white(s.last()),
    ensures
        text::trimmed_end(s) == s,
{
}

/// A text that does not start with white space is not changed by trimming its start.
pub proof fn lemma_trim_start_nothing(s: Seq<char>)
    requires
        s.len() == 0 || !text::white(s[0]),
    ensures
        text::trimmed_start(s) == s,
{
}

proof fn lemma_trim_start_white(s: Seq<char>)
    requires
        all_white(s),
    ensures
        text::trimmed_start(s) == Seq::<char>::empty(),
    decreases s.len(),
{
    if s.len() > 0 {
        assert forall|i: int| 0 <= i < s.skip(1).len() implies text::white(
            #[trigger] s.skip(1)[i],
        ) by {
            assert(s.skip(1)[i] == s[i + 1]);
        }
        lemma_trim_start_white(s.skip(1));
    } else {
        assert(s =~= Seq::empty());
    }
}

proof fn lemma_trim_start_keeps_tail(s: Seq<char>, tail: Seq<char>)
    requires
        s.len() > 0,
        !text::white(s.last()),
    ensures
        text::trimmed_start(s + tail) == text::trimmed_start(s) + tail,
    decreases s.len(),
{
    assert((s + tail)[0] == s[0]);
    if text::white(s[0]) {
        assert((s + tail).skip(1) =~= s.skip(1) + tail);
        assert(s.skip(1).last() == s.last());
        lemma_trim_start_keeps_tail(s.skip(1), tail);
    }
}

/// Trimming a text whose end was trimmed before gives the same.
pub proof fn law_trim_after_trim_end(s: Seq<char>)
    ensures
        text::trimmed(text::trimmed_end(s)) == text::trimmed(s),
{
    law_trim_end_splits(s);
    let y = text::trimmed_end(s);
    let w = s.skip(y.len() as int);
    assert(y + w =~= s);
    if y.len() == 0 {
        assert(s =~= w);
        lemma_trim_start_white(s);
        assert(y =~= Seq::empty());
    } else {
        lemma_trim_start_keeps_tail(y, w);
        law_trim_end_ignores_padding(text::trimmed_start(y), w);
    }
}

/// A text does not hold a character.
pub open spec fn lacks(s: Seq<char>, c: char) -> bool {
    forall|i: int| 0 <= i < s.len() ==> #[trigger] s[i] != c
}

/// What follows without a separator belongs to the last piece.
pub proof fn lemma_pieces_extend(a: Seq<char>, b: Seq<char>, c: char)
    requires
        lacks(b, c),
    ensures
        text::pieces(a + b, c) == text::pieces(a, c).drop_last().push(
            text::pieces(a, c).last() + b,
        ),
    decreases b.len(),
{
    text::lemma_pieces_nonempty(a, c);
    let p = text::pieces(a, c);
    if b.len() == 0 {
        assert(a + b =~= a);
        assert(p.last() + b =~= p.last());
        assert(p.drop_last().push(p.last()) =~= p);
    } else {
        let d = b.drop_last();
        assert((a + b).drop_last() =~= a + d);
        assert((a + b).last() == b.last());
        assert forall|i: int| 0 <= i < d.len() implies #[trigger] d[i] != c by {
            assert(d[i] == b[i]);
        }
        lemma_pieces_extend(a, d, c);
        let q = text::pieces(a + d, c);
        assert(q.drop_last() =~= p.drop_last());
        assert(q.last() == p.last() + d);
        assert((p.last() + d).push(b.last()) =~= p.last() + b);
    }
}

/// A text without the separator is one piece.
pub proof fn lemma_pieces_single(s: Seq<char>, c: char)
    requires
        lacks(s, c),
    ensures
        text::pieces(s, c) == seq![s],
{
    lemma_pieces_extend(Seq::empty(), s, c);
    assert(Seq::empty() + s =~= s);
    assert(text::pieces(Seq::empty(), c) =~= seq![Seq::empty()]);
    assert(text::pieces(s, c) =~= seq![s]);
}

/// A text, a separator and a text without one are the pieces of the first and
/// one more.
pub proof fn lemma_pieces_join(a: Seq<char>, b: Seq<char>, c: char)
    requires
        lacks(b, c),
    ensures
        text::pieces(a + seq![c] + b, c) == text::pieces(a, c).push(b),
{
    let ac = a + seq![c];
    assert(ac.drop_last() =~= a);
    lemma_pieces_extend(ac, b, c);
    let p = text::pieces(ac, c);
    assert(p == text::pieces(a, c).push(Seq::empty()));
    assert(p.drop_last() =~= text::pieces(a, c));
    assert(Seq::empty() + b =~= b);
}

/// Texts that were joined by a separator that none of them holds are its pieces.
pub proof fn law_split_undoes_join(parts: Seq<Seq<char>>, c: char)
    requires
        parts.len() > 0,
        forall|i: int| 0 <= i < parts.len() ==> lacks(#[trigger] parts[i], c),
    ensures
        text::pieces(text::joined(parts, seq![c]), c) == parts,
    decreases parts.len(),
{
    if parts.len() == 1 {
        lemma_pieces_single(parts[0], c);
        assert(parts =~= seq![parts[0]]);
    } else {
        let before = parts.drop_last();
        assert forall|i: int| 0 <= i < before.len() implies lacks(#[trigger] before[i], c) by {
            assert(before[i] == parts[i]);
        }
        law_split_undoes_join(before, c);
        lemma_pieces_join(text::joined(before, seq![c]), parts.last(), c);
        assert(before.push(parts.last()) =~= parts);
    }
}

/// The bytes of two texts one after the other.
pub proof fn law_encode_concat(x: Seq<char>, y: Seq<char>)
    ensures
        encode_utf8(x + y) == encode_utf8(x) + encode_utf8(y),
    decreases x.len(),
{
    if x.len() == 0 {
        assert(x + y =~= y);
        assert(encode_utf8(x) + encode_utf8(y) =~= encode_utf8(y));
    } else {
        assert((x + y).drop_first() =~= x.drop_first() + y);
        assert((x + y)[0] == x[0]);
        law_encode_concat(x.drop_first(), y);
        assert(encode_utf8(x + y) =~= encode_utf8(x) + encode_utf8(y));
    }
}

/// The text of bytes one after the other.
pub proof fn law_decode_concat(a: Seq<u8>, b: Seq<u8>)
    requires
        valid_utf8(a),
        valid_utf8(b),
    ensures
        valid_utf8(a + b),
        decode_utf8(a + b) == decode_utf8(a) + decode_utf8(b),
{
    valid_utf8_concat(a, b);
    let x = decode_utf8(a);
    let y = decode_utf8(b);
    decode_utf8_encode_utf8(a);
    decode_utf8_encode_utf8(b);
    law_encode_concat(x, y);
    encode_utf8_decode_utf8(x + y);
}

/// Blanks.
pub open spec fn blanks(n: nat) -> Seq<char> {
    Seq::new(n, |i: int| ' ')
}

/// The bytes of blanks.
pub proof fn lemma_blanks(n: nat)
    ensures
        encode_utf8(blanks(n)) == Seq::new(n, |i: int| 32u8),
        valid_utf8(Seq::new(n, |i: int| 32u8)),
        decode_utf8(Seq::new(n, |i: int| 32u8)) == blanks(n),
        all_white(blanks(n)),
{
    let s = blanks(n);
    assert(is_ascii_chars(s));
    is_ascii_chars_encode_utf8(s);
    assert(encode_utf8(s) =~= Seq::new(n, |i: int| 32u8)) by {
        assert forall|i: int| 0 <= i < n implies encode_utf8(s)[i] == 32u8 by {
            assert(s[i] as u8 == encode_utf8(s)[i]);
        }
    }
    encode_utf8_valid_utf8(s);
    encode_utf8_decode_utf8(s);
}

/// The text that the bytes of a text encode is the text.
pub proof fn lemma_lossy_of_encoded(s: Seq<char>)
    ensures
        text::lossy_text(encode_utf8(s)) == s,
{
    encode_utf8_valid_utf8(s);
    encode_utf8_decode_utf8(s);
}

/// ASCII text in upper case stays as it is in upper case.
pub proof fn law_uppercase_twice(s: Seq<char>)
    requires
        is_ascii_chars(s),
    ensures
        is_ascii_chars(text::uppercase(s)),
        text::uppercase(text::uppercase(s)) == text::uppercase(s),
{
    let u = text::uppercase(s);
    assert forall|i: int| 0 <= i < u.len() implies '\0' <= #[trigger] u[i] <= '\u{7f}'
        && text::ascii_upper(u[i]) == u[i] by {
        assert(u[i] == text::ascii_upper(s[i]));
        assert('\0' <= s[i] <= '\u{7f}');
    }
    assert(text::uppercase(u) =~= u);
}

/// A numeral is made of digits, and stands for its number.
pub proof fn law_decimal_value(n: nat)
    ensures
        text::decimal(n).len() >= 1,
        text::all_digits(text::decimal(n)),
        text::digits_value(text::decimal(n)) == n,
    decreases n,
{
    let d = text::decimal(n);
    if n < 10 {
        assert(d.drop_last() =~= Seq::empty());
        assert(text::digits_value(d.drop_last()) == 0);
        assert(d.last() as u32 == 48 + n);
        assert(d[0] == text::digit_char(n));
    } else {
        law_decimal_value(n / 10);
        let e = text::decimal(n / 10);
        assert(d.drop_last() =~= e);
        assert(d.last() as u32 == 48 + n % 10);
        assert forall|i: int| 0 <= i < d.len() implies '0' <= #[trigger] d[i] && d[i] <= '9' by {
            if i < e.len() {
                assert(d[i] == e[i]);
            }
        }
    }
}

/// Different numbers have different numerals, also where something other than a
/// digit follows.
pub proof fn law_decimal_tells_numbers(a: nat, x: Seq<char>, b: nat, y: Seq<char>)
    requires
        text::decimal(a) + x == text::decimal(b) + y,
        x.len() > 0 && !('0' <= x[0] && x[0] <= '9'),
        y.len() > 0 && !('0' <= y[0] && y[0] <= '9'),
    ensures
        a == b,
        x == y,
{
    let s = text::decimal(a);
    let t = text::decimal(b);
    law_decimal_value(a);
    law_decimal_value(b);
    if s.len() < t.len() {
        assert((s + x)[s.len() as int] == x[0]);
        assert((t + y)[s.len() as int] == t[s.len() as int]);
    }
    if t.len() < s.len() {
        assert((t + y)[t.len() as int] == y[0]);
        assert((s + x)[t.len() as int] == s[t.len() as int]);
    }
    assert(s =~= (s + x).take(s.len() as int));
    assert(t =~= (t + y).take(t.len() as int));
    assert(x =~= (s + x).skip(s.len() as int));
    assert(y =~= (t + y).skip(t.len() as int));
}

/// The white space among ASCII characters: the blank, the tab, and what ends a line.
pub proof fn law_ascii_white(c: char)
    requires
        (c as u32) < 128,
    ensures
        text::white(c) <==> c == ' ' || c == '\t' || c == '\n' || c == '\r' || c == '\u{b}' || c
            == '\u{c}',
{
}

proof fn lemma_leading_zeros(zeros: Seq<char>, d: Seq<char>)
    requires
        forall|i: int| 0 <= i < zeros.len() ==> #[trigger] zeros[i] == '0',
    ensures
        text::digits_value(zeros + d) == text::digits_value(d),
    decreases zeros.len() + d.len(),
{
    let all = zeros + d;
    if d.len() > 0 {
        assert(all.drop_last() =~= zeros + d.drop_last());
        lemma_leading_zeros(zeros, d.drop_last());
    } else if zeros.len() > 0 {
        let fewer = zeros.drop_last();
        assert forall|i: int| 0 <= i < fewer.len() implies #[trigger] fewer[i] == '0' by {
            assert(zeros[i] == '0');
        }
        assert(all.drop_last() =~= fewer + d);
        assert(all.last() == zeros[zeros.len() - 1]);
        lemma_leading_zeros(fewer, d);
    } else {
        assert(all =~= d);
    }
}

/// A numeral that is filled up with zeros stands for its number, and has at least the
/// width.
pub proof fn law_padded_value(n: nat, width: nat)
    ensures
        text::all_digits(text::decimal_padded(n, width)),
        text::digits_value(text::decimal_padded(n, width)) == n,
        text::decimal_padded(n, width).len() >= width,
        text::decimal_padded(n, width).len() == width || text::decimal_padded(n, width)
            == text::decimal(n),
{
    law_decimal_value(n);
    let d = text::decimal(n);
    if d.len() < width {
        let zeros = Seq::new((width - d.len()) as nat, |i: int| '0');
        lemma_leading_zeros(zeros, d);
    }
}

} // verus!
