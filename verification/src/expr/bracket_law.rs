//! Brackets around an expression leave no trace, and one too many is refused.
use vstd::prelude::*;

use crate::expr::ast::{BinaryOp, ExprView};
use crate::expr::parse;
use crate::number::Number;
use crate::text;
use crate::text_law;

verus! {

/// A character of a name, or a blank.
spec fn plain(c: char) -> bool {
    text::alphanumeric(c) || c == '.' || c == '_' || c == '@' || c == '#' || c == '$' || c == ' '
        || c == '\t'
}

/// From `j` on there are names and blanks only, up to the bracket at `b`.
spec fn leads_to(s: Seq<char>, j: int, b: int) -> bool {
    &&& 0 <= j <= b < s.len()
    &&& s[b] == '('
    &&& forall|k: int| j <= k < b ==> plain(#[trigger] s[k])
}

/// The bracket at `b` opens neither an expression nor the arguments of a function.
spec fn unclosed<R: Fn(String) -> Number>(s: Seq<char>, b: int, read: R) -> bool {
    let a = parse::spaces(s, b + 1);
    &&& parse::bracketed_at(s, b, read) is Err
    &&& !parse::is_at(s, a, ')')
    &&& parse::args_at(s, a, Seq::empty(), read) matches Ok((_, j)) ==> !parse::is_at(s, j, ')')
}

/// A word of capital letters.
spec fn capitals(word: Seq<char>) -> bool {
    forall|k: int| 0 <= k < word.len() ==> 'A' <= #[trigger] word[k] && word[k] <= 'Z'
}

proof fn lemma_keywords()
    ensures
        capitals("EQ"@),
        capitals("NE"@),
        capitals("LT"@),
        capitals("LE"@),
        capitals("GT"@),
        capitals("GE"@),
        capitals("AND"@),
        capitals("OR"@),
        capitals("NOT"@),
        capitals("NAN"@),
        capitals("INF"@),
        capitals("INFINITY"@),
        "EQ"@.len() == 2 && "NE"@.len() == 2 && "LT"@.len() == 2 && "LE"@.len() == 2,
        "GT"@.len() == 2 && "GE"@.len() == 2 && "OR"@.len() == 2,
        "AND"@.len() == 3 && "NOT"@.len() == 3 && "NAN"@.len() == 3 && "INF"@.len() == 3,
        "INFINITY"@.len() == 8,
{
    reveal_strlit("EQ");
    reveal_strlit("NE");
    reveal_strlit("LT");
    reveal_strlit("LE");
    reveal_strlit("GT");
    reveal_strlit("GE");
    reveal_strlit("AND");
    reveal_strlit("OR");
    reveal_strlit("NOT");
    reveal_strlit("NAN");
    reveal_strlit("INF");
    reveal_strlit("INFINITY");
}

proof fn lemma_operands_bound<R: Fn(String) -> Number>(
    s: Seq<char>,
    i: int,
    level: nat,
    lhs: ExprView,
    read: R,
)
    ensures
        parse::operands_at(s, i, level, lhs, read) matches Ok((_, k)) ==> i <= k <= s.len(),
    decreases s.len() - i,
{
    if 0 <= i <= s.len() {
        parse::lemma_spaces(s, i);
        let k = parse::spaces(s, i);
        if let Some((op, p)) = parse::operator_at(s, k, level) {
            if i < p <= s.len() {
                if let Ok((rhs, j)) = parse::binary_at(s, p, (level - 1) as nat, read) {
                    if p < j <= s.len() {
                        lemma_operands_bound(
                            s,
                            j,
                            level,
                            ExprView::Binary(op, Box::new(lhs), Box::new(rhs)),
                            read,
                        );
                    }
                }
            }
        }
    }
}

proof fn lemma_binary_bound<R: Fn(String) -> Number>(s: Seq<char>, i: int, read: R)
    ensures
        parse::binary_at(s, i, 5, read) matches Ok((_, j)) ==> i < j <= s.len(),
{
    if 0 <= i <= s.len() {
        if let Ok((lhs, j)) = parse::binary_at(s, i, 4, read) {
            lemma_operands_bound(s, j, 5, lhs, read);
        }
    }
}

/// Where a function call fails behind its opening bracket, the bracket is not closed.
proof fn lemma_failed_call<R: Fn(String) -> Number>(s: Seq<char>, i: int, read: R)
    requires
        0 <= i <= s.len(),
        parse::name_starts(s, i),
        parse::is_at(s, parse::spaces(s, parse::name_end(s, i + 1)), '('),
        parse::call_at(s, i, read) is Err,
    ensures
        unclosed(s, parse::spaces(s, parse::name_end(s, i + 1)), read),
{
    let b = parse::spaces(s, parse::name_end(s, i + 1));
    let a = parse::spaces(s, b + 1);
    lemma_binary_bound(s, a, read);
    parse::lemma_spaces(s, b + 1);
}

proof fn lemma_spaces_within(s: Seq<char>, j: int, b: int)
    requires
        leads_to(s, j, b),
    ensures
        j <= parse::spaces(s, j) <= b,
    decreases b - j,
{
    if j < b && (s[j] == ' ' || s[j] == '\t') {
        lemma_spaces_within(s, j + 1, b);
    }
}

proof fn lemma_name_within(s: Seq<char>, j: int, b: int)
    requires
        leads_to(s, j, b),
    ensures
        j <= parse::name_end(s, j) <= b,
    decreases b - j,
{
    if j < b {
        lemma_name_within(s, j + 1, b);
    }
}

proof fn lemma_digits_within(s: Seq<char>, j: int, b: int)
    requires
        leads_to(s, j, b),
    ensures
        j <= parse::digits_end(s, j) <= b,
    decreases b - j,
{
    if j < b {
        lemma_digits_within(s, j + 1, b);
    }
}

proof fn lemma_word_within(s: Seq<char>, j: int, word: Seq<char>, b: int)
    requires
        leads_to(s, j, b),
        capitals(word),
        parse::word_at(s, j, word),
    ensures
        j + word.len() <= b,
{
    if j + word.len() > b {
        assert(text::ascii_upper(s[j + (b - j)]) == word[b - j]);
    }
}

proof fn lemma_past_within(s: Seq<char>, j: int, word: Seq<char>, b: int)
    requires
        leads_to(s, j, b),
        capitals(word),
    ensures
        leads_to(s, parse::past_word(s, j, word), b),
        j <= parse::past_word(s, j, word),
{
    if parse::word_at(s, j, word) {
        lemma_word_within(s, j, word, b);
    }
}

proof fn lemma_keyword_within(s: Seq<char>, j: int, word: Seq<char>, b: int)
    requires
        leads_to(s, j, b),
        capitals(word),
    ensures
        parse::keyword_at(s, j, word) ==> j + word.len() <= b,
{
    if parse::word_at(s, j, word) {
        lemma_word_within(s, j, word, b);
    }
}

proof fn lemma_operator_within(s: Seq<char>, k: int, level: nat, b: int)
    requires
        leads_to(s, k, b),
    ensures
        parse::operator_at(s, k, level) matches Some((_, p)) ==> k < p <= b,
{
    lemma_keywords();
    let p1 = parse::past_word(s, k, "EQ"@);
    let p2 = parse::past_word(s, p1, "NE"@);
    let p3 = parse::past_word(s, p2, "LT"@);
    let p4 = parse::past_word(s, p3, "LE"@);
    let p5 = parse::past_word(s, p4, "GT"@);
    lemma_past_within(s, k, "EQ"@, b);
    lemma_past_within(s, p1, "NE"@, b);
    lemma_past_within(s, p2, "LT"@, b);
    lemma_past_within(s, p3, "LE"@, b);
    lemma_past_within(s, p4, "GT"@, b);
    lemma_keyword_within(s, k, "EQ"@, b);
    lemma_keyword_within(s, p1, "NE"@, b);
    lemma_keyword_within(s, p2, "LT"@, b);
    lemma_keyword_within(s, p3, "LE"@, b);
    lemma_keyword_within(s, p4, "GT"@, b);
    lemma_keyword_within(s, p5, "GE"@, b);
    lemma_keyword_within(s, k, "AND"@, b);
    lemma_keyword_within(s, k, "OR"@, b);
    assert(k < b ==> plain(s[k]));
}

proof fn lemma_number_within(s: Seq<char>, k: int, b: int)
    requires
        leads_to(s, k, b),
    ensures
        parse::number_end(s, k) matches Ok(j) ==> k <= j <= b,
{
    lemma_keywords();
    assert(k < b ==> plain(s[k]));
    assert(parse::sign_end(s, k) == k);
    lemma_digits_within(s, k, b);
    let d = parse::digits_end(s, k);
    if d < b {
        lemma_digits_within(s, d + 1, b);
    }
    if k < b {
        lemma_digits_within(s, k + 1, b);
    }
    if let Some(m) = parse::mantissa_end(s, k) {
        assert(k <= m <= b);
        if m < b {
            assert(m + 1 < b ==> plain(s[m + 1]));
            assert(parse::sign_end(s, m + 1) == m + 1);
            lemma_digits_within(s, m + 1, b);
        }
    }
    if parse::word_at(s, k, "NAN"@) {
        lemma_word_within(s, k, "NAN"@, b);
    }
    if parse::word_at(s, k, "INFINITY"@) {
        lemma_word_within(s, k, "INFINITY"@, b);
    }
    if parse::word_at(s, k, "INF"@) {
        lemma_word_within(s, k, "INF"@, b);
    }
}

proof fn lemma_primary_within<R: Fn(String) -> Number>(s: Seq<char>, i: int, b: int, read: R)
    requires
        leads_to(s, i, b),
        unclosed(s, b, read),
    ensures
        parse::primary_at(s, i, read) matches Ok((_, j)) ==> i <= j <= b,
{
    lemma_spaces_within(s, i, b);
    let k = parse::spaces(s, i);
    assert(k < b ==> plain(s[k]));
    assert(parse::bracketed_at(s, k, read) is Err);
    assert(parse::call_at(s, k, read) is Err) by {
        if parse::name_starts(s, k) {
            assert(k < b);
            lemma_name_within(s, k + 1, b);
            let e = parse::name_end(s, k + 1);
            lemma_spaces_within(s, e, b);
            let kk = parse::spaces(s, e);
            assert(kk < b ==> plain(s[kk]));
        }
    }
    lemma_number_within(s, k, b);
    assert(parse::text_at(s, k) is Err);
    if k < b {
        lemma_name_within(s, k + 1, b);
    }
}

proof fn lemma_power_within<R: Fn(String) -> Number>(s: Seq<char>, i: int, b: int, read: R)
    requires
        leads_to(s, i, b),
        unclosed(s, b, read),
    ensures
        parse::power_at(s, i, read) matches Ok((_, j)) ==> i <= j <= b,
{
    lemma_primary_within(s, i, b, read);
    if let Ok((lhs, j)) = parse::primary_at(s, i, read) {
        lemma_spaces_within(s, j, b);
        let k = parse::spaces(s, j);
        assert(k < b ==> plain(s[k]));
    }
}

proof fn lemma_unary_within<R: Fn(String) -> Number>(s: Seq<char>, i: int, b: int, read: R)
    requires
        leads_to(s, i, b),
        unclosed(s, b, read),
    ensures
        parse::unary_at(s, i, read) matches Ok((_, j)) ==> i <= j <= b,
    decreases b - i,
{
    lemma_keywords();
    lemma_spaces_within(s, i, b);
    let k = parse::spaces(s, i);
    assert(k < b ==> plain(s[k]));
    if parse::keyword_at(s, k, "NOT"@) {
        lemma_keyword_within(s, k, "NOT"@, b);
        lemma_unary_within(s, k + 3, b, read);
    } else {
        lemma_power_within(s, k, b, read);
    }
}

proof fn lemma_binary_within<R: Fn(String) -> Number>(
    s: Seq<char>,
    i: int,
    level: nat,
    b: int,
    read: R,
)
    requires
        leads_to(s, i, b),
        unclosed(s, b, read),
    ensures
        parse::binary_at(s, i, level, read) matches Ok((_, j)) ==> i <= j <= b,
    decreases b - i, level, 1int,
{
    if level == 0 {
        lemma_unary_within(s, i, b, read);
    } else {
        lemma_binary_within(s, i, (level - 1) as nat, b, read);
        if let Ok((lhs, j)) = parse::binary_at(s, i, (level - 1) as nat, read) {
            lemma_operands_within(s, j, level, lhs, b, read);
        }
    }
}

proof fn lemma_operands_within<R: Fn(String) -> Number>(
    s: Seq<char>,
    i: int,
    level: nat,
    lhs: ExprView,
    b: int,
    read: R,
)
    requires
        level > 0,
        leads_to(s, i, b),
        unclosed(s, b, read),
    ensures
        parse::operands_at(s, i, level, lhs, read) matches Ok((_, j)) ==> i <= j <= b,
    decreases b - i, level, 0int,
{
    lemma_spaces_within(s, i, b);
    let k = parse::spaces(s, i);
    lemma_operator_within(s, k, level, b);
    if let Some((op, p)) = parse::operator_at(s, k, level) {
        lemma_binary_within(s, p, (level - 1) as nat, b, read);
        if let Ok((rhs, j)) = parse::binary_at(s, p, (level - 1) as nat, read) {
            if p < j {
                lemma_operands_within(
                    s,
                    j,
                    level,
                    ExprView::Binary(op, Box::new(lhs), Box::new(rhs)),
                    b,
                    read,
                );
            }
        }
    }
}

/// `t` is `s` behind `d` characters, with a closing bracket behind it.
spec fn encloses(t: Seq<char>, s: Seq<char>, d: int) -> bool {
    &&& 0 <= d
    &&& t.len() == d + s.len() + 1
    &&& forall|i: int| 0 <= i < s.len() ==> t[i + d] == #[trigger] s[i]
    &&& t[d + s.len()] == ')'
}

/// A result `d` characters further on.
spec fn moved<T>(r: Result<(T, int), bool>, d: int) -> Result<(T, int), bool> {
    match r {
        Ok((x, j)) => Ok((x, j + d)),
        Err(cut) => Err(cut),
    }
}

/// An operator `d` characters further on.
spec fn moved_operator(r: Option<(BinaryOp, int)>, d: int) -> Option<(BinaryOp, int)> {
    match r {
        Some((op, p)) => Some((op, p + d)),
        None => None,
    }
}

/// A result that does not reach the end: there is none, or it stops in front of a
/// bracket that is not closed.
spec fn stuck<T, R: Fn(String) -> Number>(
    s: Seq<char>,
    r: Result<(T, int), bool>,
    read: R,
) -> bool {
    match r {
        Ok((_, j)) => exists|b: int| #[trigger] leads_to(s, j, b) && unclosed(s, b, read),
        Err(_) => true,
    }
}

proof fn lemma_spaces_moved(t: Seq<char>, s: Seq<char>, d: int, i: int)
    requires
        encloses(t, s, d),
        0 <= i <= s.len(),
    ensures
        parse::spaces(t, i + d) == parse::spaces(s, i) + d,
        i <= parse::spaces(s, i) <= s.len(),
    decreases s.len() - i,
{
    if i < s.len() {
        assert(t[i + d] == s[i]);
        lemma_spaces_moved(t, s, d, i + 1);
    }
}

proof fn lemma_digits_moved(t: Seq<char>, s: Seq<char>, d: int, i: int)
    requires
        encloses(t, s, d),
        0 <= i <= s.len(),
    ensures
        parse::digits_end(t, i + d) == parse::digits_end(s, i) + d,
        i <= parse::digits_end(s, i) <= s.len(),
    decreases s.len() - i,
{
    if i < s.len() {
        assert(t[i + d] == s[i]);
        lemma_digits_moved(t, s, d, i + 1);
    }
}

proof fn lemma_name_moved(t: Seq<char>, s: Seq<char>, d: int, i: int)
    requires
        encloses(t, s, d),
        0 <= i <= s.len(),
    ensures
        parse::name_end(t, i + d) == parse::name_end(s, i) + d,
        i <= parse::name_end(s, i) <= s.len(),
    decreases s.len() - i,
{
    if i < s.len() {
        assert(t[i + d] == s[i]);
        lemma_name_moved(t, s, d, i + 1);
    }
}

proof fn lemma_quoted_moved(
    t: Seq<char>,
    s: Seq<char>,
    d: int,
    i: int,
    q: char,
    acc: Seq<char>,
)
    requires
        encloses(t, s, d),
        0 <= i <= s.len(),
        q != ')',
    ensures
        parse::quoted(t, i + d, q, acc) == match parse::quoted(s, i, q, acc) {
            Some((x, j)) => Some((x, j + d)),
            None => None,
        },
    decreases s.len() - i,
{
    if i < s.len() {
        assert(t[i + d] == s[i]);
        if s[i] == q {
            if i + 1 < s.len() {
                assert(t[i + 1 + d] == s[i + 1]);
                if s[i + 1] == q {
                    lemma_quoted_moved(t, s, d, i + 2, q, acc.push(q));
                }
            }
        } else {
            lemma_quoted_moved(t, s, d, i + 1, q, acc.push(s[i]));
        }
    } else {
        assert(parse::quoted(t, i + 1 + d, q, acc.push(t[i + d])) is None);
    }
}

proof fn lemma_char_moved(t: Seq<char>, s: Seq<char>, d: int, i: int)
    requires
        encloses(t, s, d),
        0 <= i <= s.len(),
    ensures
        forall|c: char| c != ')' ==> #[trigger] parse::is_at(t, i + d, c) == parse::is_at(s, i, c),
        i < s.len() ==> forall|c: char| #[trigger]
            parse::is_at(t, i + d, c) == parse::is_at(s, i, c),
{
    if i < s.len() {
        assert(t[i + d] == s[i]);
    }
}

proof fn lemma_word_moved(t: Seq<char>, s: Seq<char>, d: int, i: int, word: Seq<char>)
    requires
        encloses(t, s, d),
        0 <= i <= s.len(),
        capitals(word),
        word.len() > 0,
    ensures
        parse::word_at(t, i + d, word) == parse::word_at(s, i, word),
        parse::keyword_at(t, i + d, word) == parse::keyword_at(s, i, word),
        parse::past_word(t, i + d, word) == parse::past_word(s, i, word) + d,
        i <= parse::past_word(s, i, word) <= s.len(),
{
    if parse::word_at(s, i, word) {
        assert forall|k: int| 0 <= k < word.len() implies text::ascii_upper(
            #[trigger] t[i + d + k],
        ) == word[k] by {
            assert(text::ascii_upper(s[i + k]) == word[k]);
            assert(t[i + k + d] == s[i + k]);
        }
        if i + word.len() < s.len() {
            assert(t[i + word.len() + d] == s[i + word.len() as int]);
        }
    }
    if parse::word_at(t, i + d, word) {
        if i + word.len() > s.len() {
            let k = s.len() - i;
            assert(text::ascii_upper(t[i + d + k]) == word[k]);
        }
        assert forall|k: int| 0 <= k < word.len() implies text::ascii_upper(#[trigger] s[i + k])
            == word[k] by {
            assert(text::ascii_upper(t[i + d + k]) == word[k]);
            assert(t[i + k + d] == s[i + k]);
        }
    }
}

proof fn lemma_operator_moved(t: Seq<char>, s: Seq<char>, d: int, k: int, level: nat)
    requires
        encloses(t, s, d),
        0 <= k <= s.len(),
    ensures
        parse::operator_at(t, k + d, level) == moved_operator(parse::operator_at(s, k, level), d),
{
    lemma_keywords();
    lemma_char_moved(t, s, d, k);
    if k < s.len() {
        lemma_char_moved(t, s, d, k + 1);
        assert(k + 1 + d == k + d + 1);
    }
    let p1 = parse::past_word(s, k, "EQ"@);
    let p2 = parse::past_word(s, p1, "NE"@);
    let p3 = parse::past_word(s, p2, "LT"@);
    let p4 = parse::past_word(s, p3, "LE"@);
    let p5 = parse::past_word(s, p4, "GT"@);
    lemma_word_moved(t, s, d, k, "EQ"@);
    lemma_word_moved(t, s, d, p1, "NE"@);
    lemma_word_moved(t, s, d, p2, "LT"@);
    lemma_word_moved(t, s, d, p3, "LE"@);
    lemma_word_moved(t, s, d, p4, "GT"@);
    lemma_word_moved(t, s, d, p5, "GE"@);
    lemma_word_moved(t, s, d, k, "AND"@);
    lemma_word_moved(t, s, d, k, "OR"@);
    assert(parse::comparison_word(t, k + d) == moved_operator(parse::comparison_word(s, k), d));
}

proof fn lemma_number_moved(t: Seq<char>, s: Seq<char>, d: int, i: int)
    requires
        encloses(t, s, d),
        0 <= i <= s.len(),
    ensures
        parse::number_end(t, i + d) == match parse::number_end(s, i) {
            Ok(j) => Ok::<int, bool>(j + d),
            Err(cut) => Err(cut),
        },
        parse::number_end(s, i) matches Ok(j) ==> i <= j <= s.len(),
{
    lemma_keywords();
    lemma_char_moved(t, s, d, i);
    let g = parse::sign_end(s, i);
    assert(parse::sign_end(t, i + d) == g + d);
    lemma_char_moved(t, s, d, g);
    lemma_digits_moved(t, s, d, g);
    let e = parse::digits_end(s, g);
    lemma_char_moved(t, s, d, e);
    if e < s.len() {
        lemma_digits_moved(t, s, d, e + 1);
    }
    if g < s.len() {
        lemma_digits_moved(t, s, d, g + 1);
    }
    if let Some(m) = parse::mantissa_end(s, g) {
        lemma_char_moved(t, s, d, m);
        if m < s.len() {
            lemma_char_moved(t, s, d, m + 1);
            let x = parse::sign_end(s, m + 1);
            assert(parse::sign_end(t, m + 1 + d) == x + d);
            lemma_digits_moved(t, s, d, x);
        }
    }
    lemma_word_moved(t, s, d, i, "NAN"@);
    lemma_word_moved(t, s, d, g, "INFINITY"@);
    lemma_word_moved(t, s, d, g, "INF"@);
}

/// The forms that hold no expression.
proof fn lemma_simple_moved<R: Fn(String) -> Number>(
    t: Seq<char>,
    s: Seq<char>,
    d: int,
    i: int,
    read: R,
)
    requires
        encloses(t, s, d),
        0 <= i <= s.len(),
    ensures
        parse::literal_at(t, i + d, read) == moved(parse::literal_at(s, i, read), d),
        parse::text_at(t, i + d) == moved(parse::text_at(s, i), d),
        parse::variable_at(t, i + d) == moved(parse::variable_at(s, i), d),
        parse::name_starts(t, i + d) == parse::name_starts(s, i),
{
    lemma_number_moved(t, s, d, i);
    if let Ok(j) = parse::number_end(s, i) {
        assert(t.subrange(i + d, j + d) =~= s.subrange(i, j));
    }
    lemma_char_moved(t, s, d, i);
    if i < s.len() {
        assert(t[i + d] == s[i]);
        lemma_quoted_moved(t, s, d, i + 1, '\'', Seq::empty());
        lemma_quoted_moved(t, s, d, i + 1, '"', Seq::empty());
        lemma_name_moved(t, s, d, i + 1);
        let e = parse::name_end(s, i + 1);
        assert(t.subrange(i + d, e + d) =~= s.subrange(i, e));
    }
}

#[verifier::rlimit(80)]
#[verifier::spinoff_prover]
proof fn lemma_bracketed_moved<R: Fn(String) -> Number>(
    t: Seq<char>,
    s: Seq<char>,
    d: int,
    i: int,
    read: R,
)
    requires
        encloses(t, s, d),
        0 <= i <= s.len(),
    ensures
        ({
            let r = parse::bracketed_at(s, i, read);
            parse::bracketed_at(t, i + d, read) == moved(r, d) || (parse::is_at(s, i, '(')
                && r is Err)
        }),
    decreases s.len() - i, 7int,
{
    lemma_char_moved(t, s, d, i);
    if parse::is_at(s, i, '(') {
        lemma_spaces_moved(t, s, d, i + 1);
        let a = parse::spaces(s, i + 1);
        lemma_binary_moved(t, s, d, a, 5, read);
        lemma_binary_bound(s, a, read);
        let inner = parse::binary_at(s, a, 5, read);
        if let Ok((e, j)) = inner {
            lemma_spaces_moved(t, s, d, j);
            let k = parse::spaces(s, j);
            if stuck(s, inner, read) {
                let b = choose|b: int| #[trigger] leads_to(s, j, b) && unclosed(s, b, read);
                lemma_spaces_within(s, j, b);
                assert(k < b ==> plain(s[k]));
            } else {
                lemma_char_moved(t, s, d, k);
            }
        }
    }
}

proof fn lemma_args_moved<R: Fn(String) -> Number>(
    t: Seq<char>,
    s: Seq<char>,
    d: int,
    i: int,
    acc: Seq<ExprView>,
    read: R,
)
    requires
        encloses(t, s, d),
        0 <= i <= s.len(),
    ensures
        ({
            let r = parse::args_at(s, i, acc, read);
            parse::args_at(t, i + d, acc, read) == moved(r, d) || stuck(s, r, read)
        }),
        parse::args_at(s, i, acc, read) matches Ok((_, j)) ==> i < j <= s.len(),
    decreases s.len() - i, 30int,
{
    lemma_binary_moved(t, s, d, i, 5, read);
    lemma_binary_bound(s, i, read);
    let first = parse::binary_at(s, i, 5, read);
    if let Ok((e, j)) = first {
        lemma_spaces_moved(t, s, d, j);
        let k = parse::spaces(s, j);
        lemma_char_moved(t, s, d, k);
        if stuck(s, first, read) {
            let b = choose|b: int| #[trigger] leads_to(s, j, b) && unclosed(s, b, read);
            lemma_spaces_within(s, j, b);
            assert(k < b ==> plain(s[k]));
            assert(leads_to(s, k, b));
        } else if parse::is_at(s, k, ',') {
            lemma_spaces_moved(t, s, d, k + 1);
            lemma_args_moved(t, s, d, parse::spaces(s, k + 1), acc.push(e), read);
        }
    }
}

#[verifier::rlimit(80)]
#[verifier::spinoff_prover]
proof fn lemma_call_moved<R: Fn(String) -> Number>(
    t: Seq<char>,
    s: Seq<char>,
    d: int,
    i: int,
    read: R,
)
    requires
        encloses(t, s, d),
        0 <= i <= s.len(),
    ensures
        ({
            let r = parse::call_at(s, i, read);
            parse::call_at(t, i + d, read) == moved(r, d) || (r is Err && parse::name_starts(s, i)
                && parse::is_at(s, parse::spaces(s, parse::name_end(s, i + 1)), '('))
        }),
    decreases s.len() - i, 7int,
{
    lemma_simple_moved(t, s, d, i, read);
    if parse::name_starts(s, i) {
        lemma_name_moved(t, s, d, i + 1);
        let e = parse::name_end(s, i + 1);
        lemma_spaces_moved(t, s, d, e);
        let k = parse::spaces(s, e);
        lemma_char_moved(t, s, d, k);
        if parse::is_at(s, k, '(') {
            lemma_spaces_moved(t, s, d, k + 1);
            let a = parse::spaces(s, k + 1);
            assert(t.subrange(i + d, e + d) =~= s.subrange(i, e));
            lemma_char_moved(t, s, d, a);
            lemma_args_moved(t, s, d, a, Seq::empty(), read);
            let args = parse::args_at(s, a, Seq::empty(), read);
            if !parse::is_at(s, a, ')') {
                if let Ok((list, j)) = args {
                    lemma_char_moved(t, s, d, j);
                    if stuck(s, args, read) {
                        let b = choose|b: int|
                            #[trigger] leads_to(s, j, b) && unclosed(s, b, read);
                        assert(j < b ==> plain(s[j]));
                    }
                }
            }
        }
    }
}

#[verifier::rlimit(80)]
#[verifier::spinoff_prover]
proof fn lemma_primary_moved<R: Fn(String) -> Number>(
    t: Seq<char>,
    s: Seq<char>,
    d: int,
    i: int,
    read: R,
)
    requires
        encloses(t, s, d),
        0 <= i <= s.len(),
    ensures
        ({
            let r = parse::primary_at(s, i, read);
            parse::primary_at(t, i + d, read) == moved(r, d) || stuck(s, r, read)
        }),
    decreases s.len() - i, 8int,
{
    lemma_keywords();
    lemma_spaces_moved(t, s, d, i);
    let k = parse::spaces(s, i);
    lemma_simple_moved(t, s, d, k, read);
    lemma_bracketed_moved(t, s, d, k, read);
    lemma_call_moved(t, s, d, k, read);
    let bracketed = parse::bracketed_at(s, k, read);
    let call = parse::call_at(s, k, read);
    if parse::bracketed_at(t, k + d, read) != moved(bracketed, d) {
        assert(s[k] == '(');
        lemma_bracket_is_no_number(s, k);
        assert(parse::primary_at(s, i, read) is Err);
    } else if parse::call_at(t, k + d, read) != moved(call, d) {
        lemma_failed_call(s, k, read);
        let e = parse::name_end(s, k + 1);
        parse::lemma_name_end(s, k + 1);
        parse::lemma_spaces(s, e);
        let b = parse::spaces(s, e);
        lemma_call_head(s, k);
        lemma_number_within(s, k, b);
        lemma_name_within(s, k + 1, b);
        let r = parse::primary_at(s, i, read);
        if let Ok((x, j)) = r {
            assert(k <= j <= b);
            assert(leads_to(s, j, b));
        }
    }
}

proof fn lemma_bracket_is_no_number(s: Seq<char>, k: int)
    requires
        parse::is_at(s, k, '('),
    ensures
        parse::number_end(s, k) == Err::<int, bool>(false),
{
    lemma_keywords();
    if parse::word_at(s, k, "NAN"@) {
        assert(text::ascii_upper(s[k + 0]) == "NAN"@[0]);
    }
    if parse::word_at(s, k, "INFINITY"@) {
        assert(text::ascii_upper(s[k + 0]) == "INFINITY"@[0]);
    }
    if parse::word_at(s, k, "INF"@) {
        assert(text::ascii_upper(s[k + 0]) == "INF"@[0]);
    }
}

/// Between the name of a function and its bracket there are blanks only.
proof fn lemma_call_head(s: Seq<char>, i: int)
    requires
        parse::name_starts(s, i),
        parse::is_at(s, parse::spaces(s, parse::name_end(s, i + 1)), '('),
    ensures
        leads_to(s, i, parse::spaces(s, parse::name_end(s, i + 1))),
{
    let e = parse::name_end(s, i + 1);
    let b = parse::spaces(s, e);
    lemma_name_plain(s, i + 1);
    parse::lemma_name_end(s, i + 1);
    lemma_spaces_plain(s, e);
    parse::lemma_spaces(s, e);
    assert forall|k: int| i <= k < b implies plain(#[trigger] s[k]) by {
        if k > i && k < e {
            assert(plain(s[k]));
        }
    }
}

proof fn lemma_name_plain(s: Seq<char>, i: int)
    requires
        0 <= i <= s.len(),
    ensures
        forall|k: int| i <= k < parse::name_end(s, i) ==> plain(#[trigger] s[k]),
    decreases s.len() - i,
{
    if i < s.len() {
        lemma_name_plain(s, i + 1);
    }
}

proof fn lemma_spaces_plain(s: Seq<char>, i: int)
    requires
        0 <= i <= s.len(),
    ensures
        forall|k: int| i <= k < parse::spaces(s, i) ==> plain(#[trigger] s[k]),
    decreases s.len() - i,
{
    if i < s.len() {
        lemma_spaces_plain(s, i + 1);
    }
}

proof fn lemma_power_moved<R: Fn(String) -> Number>(
    t: Seq<char>,
    s: Seq<char>,
    d: int,
    i: int,
    read: R,
)
    requires
        encloses(t, s, d),
        0 <= i <= s.len(),
    ensures
        ({
            let r = parse::power_at(s, i, read);
            parse::power_at(t, i + d, read) == moved(r, d) || stuck(s, r, read)
        }),
    decreases s.len() - i, 9int,
{
    lemma_primary_moved(t, s, d, i, read);
    let first = parse::primary_at(s, i, read);
    if let Ok((lhs, j)) = first {
        if i < j <= s.len() {
            lemma_spaces_moved(t, s, d, j);
            let k = parse::spaces(s, j);
            lemma_char_moved(t, s, d, k);
            if stuck(s, first, read) {
                let b = choose|b: int| #[trigger] leads_to(s, j, b) && unclosed(s, b, read);
                lemma_spaces_within(s, j, b);
                assert(k < b ==> plain(s[k]));
                assert(leads_to(s, k, b));
            } else if parse::is_at(s, k, '*') {
                lemma_char_moved(t, s, d, k + 1);
                assert(k + 1 + d == k + d + 1);
                if parse::is_at(s, k + 1, '*') {
                    lemma_spaces_moved(t, s, d, k + 2);
                    assert(k + 2 + d == k + d + 2);
                    lemma_power_moved(t, s, d, parse::spaces(s, k + 2), read);
                }
            }
        }
    }
}

proof fn lemma_unary_moved<R: Fn(String) -> Number>(
    t: Seq<char>,
    s: Seq<char>,
    d: int,
    i: int,
    read: R,
)
    requires
        encloses(t, s, d),
        0 <= i <= s.len(),
    ensures
        ({
            let r = parse::unary_at(s, i, read);
            parse::unary_at(t, i + d, read) == moved(r, d) || stuck(s, r, read)
        }),
    decreases s.len() - i, 10int,
{
    lemma_keywords();
    lemma_spaces_moved(t, s, d, i);
    let k = parse::spaces(s, i);
    lemma_char_moved(t, s, d, k);
    lemma_word_moved(t, s, d, k, "NOT"@);
    if parse::is_at(s, k, '-') || parse::is_at(s, k, '+') || parse::is_at(s, k, '~')
        || parse::is_at(s, k, '!') {
        assert(k + 1 + d == k + d + 1);
        lemma_unary_moved(t, s, d, k + 1, read);
    } else if parse::keyword_at(s, k, "NOT"@) {
        assert(k + 3 + d == k + d + 3);
        lemma_unary_moved(t, s, d, k + 3, read);
    } else {
        lemma_power_moved(t, s, d, k, read);
    }
}

proof fn lemma_binary_moved<R: Fn(String) -> Number>(
    t: Seq<char>,
    s: Seq<char>,
    d: int,
    i: int,
    level: nat,
    read: R,
)
    requires
        encloses(t, s, d),
        0 <= i <= s.len(),
    ensures
        ({
            let r = parse::binary_at(s, i, level, read);
            parse::binary_at(t, i + d, level, read) == moved(r, d) || stuck(s, r, read)
        }),
    decreases s.len() - i, 20 + level,
{
    if level == 0 {
        lemma_unary_moved(t, s, d, i, read);
    } else {
        lemma_binary_moved(t, s, d, i, (level - 1) as nat, read);
        let first = parse::binary_at(s, i, (level - 1) as nat, read);
        if let Ok((lhs, j)) = first {
            if i < j <= s.len() {
                if stuck(s, first, read) {
                    let b = choose|b: int| #[trigger] leads_to(s, j, b) && unclosed(s, b, read);
                    lemma_operands_stuck(s, j, level, lhs, b, read);
                } else {
                    lemma_operands_moved(t, s, d, j, level, lhs, read);
                }
            }
        }
    }
}

proof fn lemma_operands_stuck<R: Fn(String) -> Number>(
    s: Seq<char>,
    i: int,
    level: nat,
    lhs: ExprView,
    b: int,
    read: R,
)
    requires
        level > 0,
        leads_to(s, i, b),
        unclosed(s, b, read),
    ensures
        stuck(s, parse::operands_at(s, i, level, lhs, read), read),
{
    lemma_operands_within(s, i, level, lhs, b, read);
    if let Ok((e, j)) = parse::operands_at(s, i, level, lhs, read) {
        assert(leads_to(s, j, b));
    }
}

proof fn lemma_operands_moved<R: Fn(String) -> Number>(
    t: Seq<char>,
    s: Seq<char>,
    d: int,
    i: int,
    level: nat,
    lhs: ExprView,
    read: R,
)
    requires
        level > 0,
        encloses(t, s, d),
        0 <= i <= s.len(),
    ensures
        ({
            let r = parse::operands_at(s, i, level, lhs, read);
            parse::operands_at(t, i + d, level, lhs, read) == moved(r, d) || stuck(s, r, read)
        }),
    decreases s.len() - i, 20 + level,
{
    lemma_spaces_moved(t, s, d, i);
    let k = parse::spaces(s, i);
    lemma_operator_moved(t, s, d, k, level);
    if let Some((op, p)) = parse::operator_at(s, k, level) {
        if i < p <= s.len() {
            lemma_binary_moved(t, s, d, p, (level - 1) as nat, read);
            let second = parse::binary_at(s, p, (level - 1) as nat, read);
            if let Ok((rhs, j)) = second {
                if p < j <= s.len() {
                    let both = ExprView::Binary(op, Box::new(lhs), Box::new(rhs));
                    if stuck(s, second, read) {
                        let b = choose|b: int|
                            #[trigger] leads_to(s, j, b) && unclosed(s, b, read);
                        lemma_operands_stuck(s, j, level, both, b, read);
                    } else {
                        lemma_operands_moved(t, s, d, j, level, both, read);
                    }
                }
            }
        }
    }
}

/// An expression that is followed by nothing but a closing bracket.
proof fn lemma_enclosed<R: Fn(String) -> Number>(
    t: Seq<char>,
    s: Seq<char>,
    d: int,
    e: ExprView,
    read: R,
)
    requires
        encloses(t, s, d),
        text::trimmed(s) == s,
        parse::parsed(s, read) == Ok::<ExprView, Seq<char>>(e),
    ensures
        s.len() > 0,
        parse::binary_at(t, d, 5, read) == Ok::<(ExprView, int), bool>((e, d + s.len())),
{
    lemma_binary_bound(s, 0, read);
    lemma_binary_moved(t, s, d, 0, 5, read);
    assert(0 + d == d);
}

/// Behind the end there is no operator.
proof fn lemma_end_of_operands<R: Fn(String) -> Number>(
    t: Seq<char>,
    level: nat,
    e: ExprView,
    read: R,
)
    ensures
        parse::operands_at(t, t.len() as int, level, e, read) == Ok::<(ExprView, int), bool>(
            (e, t.len() as int),
        ),
{
    lemma_keywords();
}

/// A text without white space at its ends starts and ends with something else.
proof fn lemma_trimmed_ends(s: Seq<char>)
    requires
        text::trimmed(s) == s,
        s.len() > 0,
    ensures
        !text::white(s[0]),
{
    let u = text::trimmed_start(s);
    lemma_shorter(s);
    if text::white(s[0]) {
        lemma_shorter(s.skip(1));
        text_law::law_trim_end_splits(u);
        assert(u.len() < s.len());
    }
}

proof fn lemma_shorter(s: Seq<char>)
    ensures
        text::trimmed_start(s).len() <= s.len(),
    decreases s.len(),
{
    if s.len() > 0 && text::white(s[0]) {
        lemma_shorter(s.skip(1));
    }
}

/// Brackets around an expression leave no trace in what it stands for.
pub proof fn law_brackets_leave_no_trace<R: Fn(String) -> Number>(s: Seq<char>, read: R)
    requires
        text::trimmed(s) == s,
        parse::parsed(s, read) is Ok,
    ensures
        parse::parsed(seq!['('] + s + seq![')'], read) == parse::parsed(s, read),
{
    let e = parse::parsed(s, read)->Ok_0;
    let t = seq!['('] + s + seq![')'];
    let n = t.len() as int;
    assert forall|i: int| 0 <= i < s.len() implies t[i + 1] == #[trigger] s[i] by {}
    assert(encloses(t, s, 1));
    lemma_enclosed(t, s, 1, e, read);
    lemma_trimmed_ends(s);
    assert(t[1] == s[0]);
    assert(parse::spaces(t, 1) == 1);
    assert(parse::spaces(t, n - 1) == n - 1);
    assert(parse::bracketed_at(t, 0, read) == Ok::<(ExprView, int), bool>((e, n)));
    assert(parse::primary_at(t, 0, read) == Ok::<(ExprView, int), bool>((e, n)));
    assert(parse::power_at(t, 0, read) == Ok::<(ExprView, int), bool>((e, n)));
    lemma_keywords();
    assert(!parse::keyword_at(t, 0, "NOT"@)) by {
        if parse::word_at(t, 0, "NOT"@) {
            assert(text::ascii_upper(t[0int + 0int]) == "NOT"@[0]);
        }
    }
    assert(parse::unary_at(t, 0, read) == Ok::<(ExprView, int), bool>((e, n)));
    lemma_levels(t, e, read, 5);
    lemma_trimmed_already(t);
}

proof fn lemma_levels<R: Fn(String) -> Number>(t: Seq<char>, e: ExprView, read: R, level: nat)
    requires
        t.len() > 0,
        parse::unary_at(t, 0, read) == Ok::<(ExprView, int), bool>((e, t.len() as int)),
    ensures
        parse::binary_at(t, 0, level, read) == Ok::<(ExprView, int), bool>((e, t.len() as int)),
    decreases level,
{
    if level > 0 {
        lemma_levels(t, e, read, (level - 1) as nat);
        lemma_end_of_operands(t, level, e, read);
    }
}

/// A text that neither starts nor ends with white space is as it is when trimmed.
proof fn lemma_trimmed_already(t: Seq<char>)
    requires
        t.len() > 0,
        !text::white(t[0]),
        !text::white(t.last()),
    ensures
        text::trimmed(t) == t,
{
    text_law::lemma_trim_start_nothing(t);
    text_law::lemma_trim_end_nothing(t);
}

/// A closing bracket too many is refused: the whole text must be used.
pub proof fn law_surplus_bracket_refused<R: Fn(String) -> Number>(s: Seq<char>, read: R)
    requires
        text::trimmed(s) == s,
        parse::parsed(s, read) is Ok,
    ensures
        parse::parsed(s.push(')'), read) is Err,
{
    let e = parse::parsed(s, read)->Ok_0;
    let t = s.push(')');
    assert(encloses(t, s, 0));
    lemma_enclosed(t, s, 0, e, read);
    lemma_trimmed_ends(s);
    assert(t[0] == s[0]);
    lemma_trimmed_already(t);
}

} // verus!
