//! Parsing of expressions.
use vstd::prelude::*;

use crate::arith;
use crate::arith::read_literal;
use crate::expr::ast::{BinaryOp, Expr, ExprView, UnaryOp};
use crate::number::Number;
use crate::text;
use crate::text::{
    chars_of, is_alphanumeric, join_two, same_text, split, string_from, to_upper, trim,
};
use crate::value::{Value, ValueView};

verus! {

broadcast use crate::text::lemma_views_push;

/// The position behind blanks and tabs.
pub open spec fn spaces(s: Seq<char>, i: int) -> int
    decreases s.len() - i,
{
    if 0 <= i < s.len() && (s[i] == ' ' || s[i] == '\t') {
        spaces(s, i + 1)
    } else {
        i
    }
}

pub proof fn lemma_spaces(s: Seq<char>, i: int)
    requires
        0 <= i <= s.len(),
    ensures
        i <= spaces(s, i) <= s.len(),
    decreases s.len() - i,
{
    if i < s.len() && (s[i] == ' ' || s[i] == '\t') {
        lemma_spaces(s, i + 1);
    }
}

/// The character `c` stands at `i`.
pub open spec fn is_at(s: Seq<char>, i: int, c: char) -> bool {
    0 <= i < s.len() && s[i] == c
}

/// The letters `word`, in upper case, stand at `i` in any case.
pub open spec fn word_at(s: Seq<char>, i: int, word: Seq<char>) -> bool {
    0 <= i && i + word.len() <= s.len() && forall|k: int|
        0 <= k < word.len() ==> text::ascii_upper(#[trigger] s[i + k]) == word[k]
}

/// A character that may continue a name, ASCII only.
pub open spec fn continues(c: char) -> bool {
    text::ascii_alphanumeric(c) || c == '.' || c == '_' || c == '@' || c == '#' || c == '$'
}

/// Nothing that continues a name stands at `i`.
pub open spec fn ends_at(s: Seq<char>, i: int) -> bool {
    i >= s.len() || !continues(s[i])
}

/// A keyword stands at `i`.
pub open spec fn keyword_at(s: Seq<char>, i: int, word: Seq<char>) -> bool {
    word_at(s, i, word) && ends_at(s, i + word.len())
}

/// The position after a keyword was looked for: behind its letters where they
/// are there, though more of a name follows.
pub open spec fn past_word(s: Seq<char>, i: int, word: Seq<char>) -> int {
    if word_at(s, i, word) {
        i + word.len()
    } else {
        i
    }
}

/// A comparison by keyword. Each is looked for where the search for the one
/// before stopped.
pub open spec fn comparison_word(s: Seq<char>, i: int) -> Option<(BinaryOp, int)> {
    let p1 = past_word(s, i, "EQ"@);
    let p2 = past_word(s, p1, "NE"@);
    let p3 = past_word(s, p2, "LT"@);
    let p4 = past_word(s, p3, "LE"@);
    let p5 = past_word(s, p4, "GT"@);
    if keyword_at(s, i, "EQ"@) {
        Some((BinaryOp::Eq, i + 2))
    } else if keyword_at(s, p1, "NE"@) {
        Some((BinaryOp::Ne, p1 + 2))
    } else if keyword_at(s, p2, "LT"@) {
        Some((BinaryOp::Lt, p2 + 2))
    } else if keyword_at(s, p3, "LE"@) {
        Some((BinaryOp::Le, p3 + 2))
    } else if keyword_at(s, p4, "GT"@) {
        Some((BinaryOp::Gt, p4 + 2))
    } else if keyword_at(s, p5, "GE"@) {
        Some((BinaryOp::Ge, p5 + 2))
    } else {
        None
    }
}

/// A comparison.
pub open spec fn comparison_at(s: Seq<char>, i: int) -> Option<(BinaryOp, int)> {
    if is_at(s, i, '<') && is_at(s, i + 1, '>') {
        Some((BinaryOp::Ne, i + 2))
    } else if is_at(s, i, '~') && is_at(s, i + 1, '=') {
        Some((BinaryOp::Ne, i + 2))
    } else if is_at(s, i, '!') && is_at(s, i + 1, '=') {
        Some((BinaryOp::Ne, i + 2))
    } else if is_at(s, i, '<') && is_at(s, i + 1, '=') {
        Some((BinaryOp::Le, i + 2))
    } else if is_at(s, i, '>') && is_at(s, i + 1, '=') {
        Some((BinaryOp::Ge, i + 2))
    } else if is_at(s, i, '<') {
        Some((BinaryOp::Lt, i + 1))
    } else if is_at(s, i, '>') {
        Some((BinaryOp::Gt, i + 1))
    } else if is_at(s, i, '=') {
        Some((BinaryOp::Eq, i + 1))
    } else {
        comparison_word(s, i)
    }
}

/// The binary operators by precedence: 1 binds tightest.
pub open spec fn operator_at(s: Seq<char>, i: int, level: nat) -> Option<(BinaryOp, int)> {
    if level == 1 {
        if is_at(s, i, '*') {
            Some((BinaryOp::Mul, i + 1))
        } else if is_at(s, i, '/') {
            Some((BinaryOp::Div, i + 1))
        } else {
            None
        }
    } else if level == 2 {
        if is_at(s, i, '+') {
            Some((BinaryOp::Add, i + 1))
        } else if is_at(s, i, '-') {
            Some((BinaryOp::Sub, i + 1))
        } else {
            None
        }
    } else if level == 3 {
        comparison_at(s, i)
    } else if level == 4 {
        if is_at(s, i, '&') {
            Some((BinaryOp::And, i + 1))
        } else if keyword_at(s, i, "AND"@) {
            Some((BinaryOp::And, i + 3))
        } else {
            None
        }
    } else {
        if is_at(s, i, '|') {
            Some((BinaryOp::Or, i + 1))
        } else if keyword_at(s, i, "OR"@) {
            Some((BinaryOp::Or, i + 2))
        } else {
            None
        }
    }
}

/// The position behind decimal digits.
pub open spec fn digits_end(s: Seq<char>, i: int) -> int
    decreases s.len() - i,
{
    if 0 <= i < s.len() && '0' <= s[i] && s[i] <= '9' {
        digits_end(s, i + 1)
    } else {
        i
    }
}

/// The position behind a sign, where there is one.
pub open spec fn sign_end(s: Seq<char>, i: int) -> int {
    if is_at(s, i, '+') || is_at(s, i, '-') {
        i + 1
    } else {
        i
    }
}

/// The position behind the digits and the point of a number.
pub open spec fn mantissa_end(s: Seq<char>, i: int) -> Option<int> {
    let d = digits_end(s, i);
    if d > i {
        if is_at(s, d, '.') {
            Some(digits_end(s, d + 1))
        } else {
            Some(d)
        }
    } else if is_at(s, i, '.') && digits_end(s, i + 1) > i + 1 {
        Some(digits_end(s, i + 1))
    } else {
        None
    }
}

/// The position behind a number. An exponent without digits ends the parse:
/// `Err(true)`.
pub open spec fn number_end(s: Seq<char>, i: int) -> Result<int, bool> {
    match mantissa_end(s, sign_end(s, i)) {
        Some(m) => if is_at(s, m, 'e') || is_at(s, m, 'E') {
            let x = sign_end(s, m + 1);
            if digits_end(s, x) > x {
                Ok(digits_end(s, x))
            } else {
                Err(true)
            }
        } else {
            Ok(m)
        },
        None => if word_at(s, i, "NAN"@) {
            Ok(i + 3)
        } else if word_at(s, sign_end(s, i), "INFINITY"@) {
            Ok(sign_end(s, i) + 8)
        } else if word_at(s, sign_end(s, i), "INF"@) {
            Ok(sign_end(s, i) + 3)
        } else {
            Err(false)
        },
    }
}

/// The position behind the rest of a name.
pub open spec fn name_end(s: Seq<char>, i: int) -> int
    decreases s.len() - i,
{
    if 0 <= i < s.len() && (text::alphanumeric(s[i]) || s[i] == '.' || s[i] == '_' || s[i] == '@'
        || s[i] == '#' || s[i] == '$') {
        name_end(s, i + 1)
    } else {
        i
    }
}

/// A name starts at `i`.
pub open spec fn name_starts(s: Seq<char>, i: int) -> bool {
    0 <= i < s.len() && (('a' <= s[i] && s[i] <= 'z') || ('A' <= s[i] && s[i] <= 'Z') || s[i] == '_'
        || s[i] == '$' || s[i] == '@' || s[i] == '#')
}

/// A text behind its opening quote `q`: a quote that is doubled stands for one.
pub open spec fn quoted(s: Seq<char>, i: int, q: char, acc: Seq<char>) -> Option<(Seq<char>, int)>
    decreases s.len() - i,
{
    if i < 0 || i >= s.len() {
        None
    } else if s[i] == q {
        if is_at(s, i + 1, q) {
            quoted(s, i + 2, q, acc.push(q))
        } else {
            Some((acc, i + 1))
        }
    } else {
        quoted(s, i + 1, q, acc.push(s[i]))
    }
}

/// The names that are operators.
pub open spec fn reserved(name: Seq<char>) -> bool {
    let u = text::uppercase(name);
    u == "AND"@ || u == "OR"@ || u == "NOT"@ || u == "EQ"@ || u == "NE"@ || u == "LT"@ || u == "LE"@
        || u == "GT"@ || u == "GE"@
}

/// Decimal digits only, and some.
pub open spec fn is_numeral(s: Seq<char>) -> bool {
    s.len() > 0 && text::all_digits(s)
}

/// A function name and the number of valid arguments behind its point.
pub open spec fn function_name(name: Seq<char>) -> (Seq<char>, Option<usize>) {
    let parts = text::pieces(name, '.');
    if parts.len() == 2 && is_numeral(parts[1]) && text::digits_value(parts[1]) <= usize::MAX {
        (text::uppercase(parts[0]), Some(text::digits_value(parts[1]) as usize))
    } else {
        (text::uppercase(name), None)
    }
}

/// An expression of binary operators up to a level, from `i` on, and the
/// position behind it and the blanks that follow. `Err(true)` ends the whole
/// parse; `Err(false)` lets another form be tried.
pub open spec fn binary_at<R: Fn(String) -> Number>(
    s: Seq<char>,
    i: int,
    level: nat,
    read: R,
) -> Result<(ExprView, int), bool>
    decreases s.len() - i, 20 + level,
{
    if i < 0 || i > s.len() {
        Err(false)
    } else if level == 0 {
        unary_at(s, i, read)
    } else {
        match binary_at(s, i, (level - 1) as nat, read) {
            Err(cut) => Err(cut),
            Ok((lhs, j)) => if i < j <= s.len() {
                operands_at(s, j, level, lhs, read)
            } else {
                Err(false)
            },
        }
    }
}

/// `lhs` and the operands that operators of a level add to it.
pub open spec fn operands_at<R: Fn(String) -> Number>(
    s: Seq<char>,
    i: int,
    level: nat,
    lhs: ExprView,
    read: R,
) -> Result<(ExprView, int), bool>
    decreases s.len() - i, 20 + level,
{
    if i < 0 || i > s.len() {
        Err(false)
    } else {
        let k = spaces(s, i);
        match operator_at(s, k, level) {
            None => Ok((lhs, k)),
            Some((op, p)) => if i < p <= s.len() {
                match binary_at(s, p, (level - 1) as nat, read) {
                    Err(cut) => Err(cut),
                    Ok((rhs, j)) => if p < j <= s.len() {
                        operands_at(
                            s,
                            j,
                            level,
                            ExprView::Binary(op, Box::new(lhs), Box::new(rhs)),
                            read,
                        )
                    } else {
                        Err(false)
                    },
                }
            } else {
                Err(false)
            },
        }
    }
}

/// An expression with the operators that stand before it.
pub open spec fn unary_at<R: Fn(String) -> Number>(s: Seq<char>, i: int, read: R) -> Result<
    (ExprView, int),
    bool,
>
    decreases s.len() - i, 10int,
{
    if i < 0 || i > s.len() {
        Err(false)
    } else {
        proof {
            lemma_spaces(s, i);
        }
        let k = spaces(s, i);
        if is_at(s, k, '-') {
            under(UnaryOp::Neg, unary_at(s, k + 1, read))
        } else if is_at(s, k, '+') {
            under(UnaryOp::Pos, unary_at(s, k + 1, read))
        } else if is_at(s, k, '~') || is_at(s, k, '!') {
            under(UnaryOp::Not, unary_at(s, k + 1, read))
        } else if keyword_at(s, k, "NOT"@) {
            proof {
                reveal_strlit("NOT");
            }
            under(UnaryOp::Not, unary_at(s, k + 3, read))
        } else {
            power_at(s, k, read)
        }
    }
}

/// The operand of an operator.
pub open spec fn under(op: UnaryOp, r: Result<(ExprView, int), bool>) -> Result<
    (ExprView, int),
    bool,
> {
    match r {
        Ok((e, j)) => Ok((ExprView::Unary(op, Box::new(e)), j)),
        Err(cut) => Err(cut),
    }
}

/// A power; the right operand is a power too.
pub open spec fn power_at<R: Fn(String) -> Number>(s: Seq<char>, i: int, read: R) -> Result<
    (ExprView, int),
    bool,
>
    decreases s.len() - i, 9int,
{
    if i < 0 || i > s.len() {
        Err(false)
    } else {
        match primary_at(s, i, read) {
            Err(cut) => Err(cut),
            Ok((lhs, j)) => if i < j <= s.len() {
                let k = spaces(s, j);
                if is_at(s, k, '*') && is_at(s, k + 1, '*') {
                    proof {
                        lemma_spaces(s, j);
                        lemma_spaces(s, k + 2);
                    }
                    match power_at(s, spaces(s, k + 2), read) {
                        Err(cut) => Err(cut),
                        Ok((rhs, end)) => Ok(
                            (ExprView::Binary(BinaryOp::Pow, Box::new(lhs), Box::new(rhs)), end),
                        ),
                    }
                } else {
                    Ok((lhs, k))
                }
            } else {
                Err(false)
            },
        }
    }
}

/// The first of two forms that applies.
pub open spec fn either(
    first: Result<(ExprView, int), bool>,
    second: Result<(ExprView, int), bool>,
) -> Result<(ExprView, int), bool> {
    match first {
        Err(false) => second,
        r => r,
    }
}

/// A primary expression: one in brackets, a function call, a number, a text or a
/// variable, whichever applies first.
pub open spec fn primary_at<R: Fn(String) -> Number>(s: Seq<char>, i: int, read: R) -> Result<
    (ExprView, int),
    bool,
>
    decreases s.len() - i, 8int,
{
    if i < 0 || i > s.len() {
        Err(false)
    } else {
        proof {
            lemma_spaces(s, i);
        }
        let k = spaces(s, i);
        either(
            either(either(bracketed_at(s, k, read), call_at(s, k, read)), literal_at(s, k, read)),
            either(text_at(s, k), variable_at(s, k)),
        )
    }
}

/// An expression in brackets.
pub open spec fn bracketed_at<R: Fn(String) -> Number>(s: Seq<char>, i: int, read: R) -> Result<
    (ExprView, int),
    bool,
>
    decreases s.len() - i, 7int,
{
    if i < 0 || i > s.len() || !is_at(s, i, '(') {
        Err(false)
    } else {
        proof {
            lemma_spaces(s, i + 1);
        }
        match binary_at(s, spaces(s, i + 1), 5, read) {
            Err(cut) => Err(cut),
            Ok((e, j)) => if is_at(s, spaces(s, j), ')') {
                Ok((e, spaces(s, j) + 1))
            } else {
                Err(false)
            },
        }
    }
}

/// A function call.
pub open spec fn call_at<R: Fn(String) -> Number>(s: Seq<char>, i: int, read: R) -> Result<
    (ExprView, int),
    bool,
>
    decreases s.len() - i, 7int,
{
    let e = name_end(s, i + 1);
    let k = spaces(s, e);
    let a = spaces(s, k + 1);
    if i < 0 || i > s.len() || !name_starts(s, i) || !is_at(s, k, '(') {
        Err(false)
    } else {
        proof {
            lemma_name_end(s, i + 1);
            lemma_spaces(s, e);
            lemma_spaces(s, k + 1);
        }
        let (name, min_valid) = function_name(s.subrange(i, e));
        if is_at(s, a, ')') {
            Ok((ExprView::FunctionCall { name, min_valid, args: Seq::empty() }, a + 1))
        } else {
            match args_at(s, a, Seq::empty(), read) {
                Err(cut) => Err(cut),
                Ok((args, j)) => if is_at(s, j, ')') {
                    Ok((ExprView::FunctionCall { name, min_valid, args }, j + 1))
                } else {
                    Err(false)
                },
            }
        }
    }
}

/// `acc` and the arguments from `i` on, and the position behind them.
pub open spec fn args_at<R: Fn(String) -> Number>(
    s: Seq<char>,
    i: int,
    acc: Seq<ExprView>,
    read: R,
) -> Result<(Seq<ExprView>, int), bool>
    decreases s.len() - i, 30int,
{
    if i < 0 || i > s.len() {
        Err(false)
    } else {
        match binary_at(s, i, 5, read) {
            Err(cut) => Err(cut),
            Ok((e, j)) => if i < j <= s.len() {
                let k = spaces(s, j);
                if is_at(s, k, ',') {
                    proof {
                        lemma_spaces(s, j);
                        lemma_spaces(s, k + 1);
                    }
                    args_at(s, spaces(s, k + 1), acc.push(e), read)
                } else {
                    Ok((acc.push(e), k))
                }
            } else {
                Err(false)
            },
        }
    }
}

pub proof fn lemma_name_end(s: Seq<char>, i: int)
    requires
        0 <= i <= s.len(),
    ensures
        i <= name_end(s, i) <= s.len(),
    decreases s.len() - i,
{
    if i < s.len() && (text::alphanumeric(s[i]) || s[i] == '.' || s[i] == '_' || s[i] == '@' || s[i]
        == '#' || s[i] == '$') {
        lemma_name_end(s, i + 1);
    }
}

/// A number.
pub open spec fn literal_at<R: Fn(String) -> Number>(s: Seq<char>, i: int, read: R) -> Result<
    (ExprView, int),
    bool,
> {
    match number_end(s, i) {
        Err(cut) => Err(cut),
        Ok(j) => Ok(
            (ExprView::Value(ValueView::Numeric(arith::literal(read, s.subrange(i, j)))), j),
        ),
    }
}

/// A text in quotes.
pub open spec fn text_at(s: Seq<char>, i: int) -> Result<(ExprView, int), bool> {
    let found = if is_at(s, i, '\'') {
        quoted(s, i + 1, '\'', Seq::empty())
    } else if is_at(s, i, '"') {
        quoted(s, i + 1, '"', Seq::empty())
    } else {
        None
    };
    match found {
        Some((t, j)) => Ok((ExprView::Value(ValueView::String(t)), j)),
        None => Err(false),
    }
}

/// A variable: a name that is no operator.
pub open spec fn variable_at(s: Seq<char>, i: int) -> Result<(ExprView, int), bool> {
    let e = name_end(s, i + 1);
    if name_starts(s, i) && !reserved(s.subrange(i, e)) {
        Ok((ExprView::Variable(s.subrange(i, e)), e))
    } else {
        Err(false)
    }
}

/// What a text stands for, or what is wrong with it.
pub open spec fn parsed<R: Fn(String) -> Number>(input: Seq<char>, read: R) -> Result<
    ExprView,
    Seq<char>,
> {
    let s = text::trimmed(input);
    match binary_at(s, 0, 5, read) {
        Err(true) => Err("Parsing error: Cut(ContextError { context: [], cause: None })"@),
        Err(false) => Err("Parsing error: Backtrack(ContextError { context: [], cause: None })"@),
        Ok((e, j)) => if j < s.len() {
            Err("Trailing characters: '"@ + s.skip(j) + "'"@)
        } else {
            Ok(e)
        },
    }
}

fn skip_spaces(s: &Vec<char>, i: usize) -> (r: usize)
    requires
        i <= s.len(),
    ensures
        r == spaces(s@, i as int),
        i <= r <= s.len(),
{
    let mut k: usize = i;
    while k < s.len() && (s[k] == ' ' || s[k] == '\t')
        invariant
            i <= k <= s.len(),
            spaces(s@, i as int) == spaces(s@, k as int),
        decreases s.len() - k,
    {
        k = k + 1;
    }
    k
}

fn has_char(s: &Vec<char>, i: usize, c: char) -> (r: bool)
    ensures
        r == is_at(s@, i as int, c),
{
    i < s.len() && s[i] == c
}

fn upper(c: char) -> (r: char)
    ensures
        r == text::ascii_upper(c),
{
    if 'a' <= c && c <= 'z' {
        let u: u8 = c as u8;
        (u - 32) as char
    } else {
        c
    }
}

/// Whether a word stands at `i`, in any case.
fn has_word(s: &Vec<char>, i: usize, word: &str) -> (r: bool)
    requires
        i <= s.len(),
    ensures
        r == word_at(s@, i as int, word@),
{
    let w = chars_of(word);
    if w.len() > s.len() - i {
        return false;
    }
    let mut k: usize = 0;
    while k < w.len()
        invariant
            k <= w.len(),
            w@ == word@,
            i + w.len() <= s.len(),
            forall|j: int|
                0 <= j < k ==> text::ascii_upper(#[trigger] s@[i + j]) == word@[j],
        decreases w.len() - k,
    {
        if upper(s[i + k]) != w[k] {
            proof {
                assert(text::ascii_upper(s@[i + k as int]) != word@[k as int]);
            }
            return false;
        }
        k = k + 1;
    }
    true
}

/// Whether a keyword stands at `i`.
fn has_keyword(s: &Vec<char>, i: usize, word: &str) -> (r: bool)
    requires
        i <= s.len(),
    ensures
        r == keyword_at(s@, i as int, word@),
{
    if !has_word(s, i, word) {
        return false;
    }
    let n = word.unicode_len();
    let e: usize = i + n;
    if e >= s.len() {
        return true;
    }
    let c = s[e];
    !(('a' <= c && c <= 'z') || ('A' <= c && c <= 'Z') || ('0' <= c && c <= '9') || c == '.' || c
        == '_' || c == '@' || c == '#' || c == '$')
}

fn skip_word(s: &Vec<char>, i: usize, word: &str) -> (r: usize)
    requires
        i <= s.len(),
    ensures
        r == past_word(s@, i as int, word@),
        i <= r <= s.len(),
{
    if has_word(s, i, word) {
        i + word.unicode_len()
    } else {
        i
    }
}

fn find_comparison_word(s: &Vec<char>, i: usize) -> (r: Option<(BinaryOp, usize)>)
    requires
        i <= s.len(),
    ensures
        match r {
            Some((op, p)) => comparison_word(s@, i as int) == Some((op, p as int)) && i < p
                <= s.len(),
            None => comparison_word(s@, i as int) is None,
        },
{
    proof {
        reveal_strlit("EQ");
        reveal_strlit("NE");
        reveal_strlit("LT");
        reveal_strlit("LE");
        reveal_strlit("GT");
        reveal_strlit("GE");
    }
    if has_keyword(s, i, "EQ") {
        return Some((BinaryOp::Eq, i + 2));
    }
    let p = skip_word(s, i, "EQ");
    if has_keyword(s, p, "NE") {
        return Some((BinaryOp::Ne, p + 2));
    }
    let p = skip_word(s, p, "NE");
    if has_keyword(s, p, "LT") {
        return Some((BinaryOp::Lt, p + 2));
    }
    let p = skip_word(s, p, "LT");
    if has_keyword(s, p, "LE") {
        return Some((BinaryOp::Le, p + 2));
    }
    let p = skip_word(s, p, "LE");
    if has_keyword(s, p, "GT") {
        return Some((BinaryOp::Gt, p + 2));
    }
    let p = skip_word(s, p, "GT");
    if has_keyword(s, p, "GE") {
        return Some((BinaryOp::Ge, p + 2));
    }
    None
}

fn find_comparison(s: &Vec<char>, i: usize) -> (r: Option<(BinaryOp, usize)>)
    requires
        i <= s.len(),
    ensures
        match r {
            Some((op, p)) => comparison_at(s@, i as int) == Some((op, p as int)) && i < p
                <= s.len(),
            None => comparison_at(s@, i as int) is None,
        },
{
    if i < s.len() {
        let next: usize = i + 1;
        let first = s[i];
        if first == '<' && has_char(s, next, '>') {
            return Some((BinaryOp::Ne, i + 2));
        }
        if first == '~' && has_char(s, next, '=') {
            return Some((BinaryOp::Ne, i + 2));
        }
        if first == '!' && has_char(s, next, '=') {
            return Some((BinaryOp::Ne, i + 2));
        }
        if first == '<' && has_char(s, next, '=') {
            return Some((BinaryOp::Le, i + 2));
        }
        if first == '>' && has_char(s, next, '=') {
            return Some((BinaryOp::Ge, i + 2));
        }
        if first == '<' {
            return Some((BinaryOp::Lt, next));
        }
        if first == '>' {
            return Some((BinaryOp::Gt, next));
        }
        if first == '=' {
            return Some((BinaryOp::Eq, next));
        }
    }
    find_comparison_word(s, i)
}

fn find_operator(s: &Vec<char>, i: usize, level: u8) -> (r: Option<(BinaryOp, usize)>)
    requires
        i <= s.len(),
    ensures
        match r {
            Some((op, p)) => operator_at(s@, i as int, level as nat) == Some((op, p as int)) && i
                < p <= s.len(),
            None => operator_at(s@, i as int, level as nat) is None,
        },
{
    proof {
        reveal_strlit("AND");
        reveal_strlit("OR");
    }
    if level == 1 {
        if has_char(s, i, '*') {
            Some((BinaryOp::Mul, i + 1))
        } else if has_char(s, i, '/') {
            Some((BinaryOp::Div, i + 1))
        } else {
            None
        }
    } else if level == 2 {
        if has_char(s, i, '+') {
            Some((BinaryOp::Add, i + 1))
        } else if has_char(s, i, '-') {
            Some((BinaryOp::Sub, i + 1))
        } else {
            None
        }
    } else if level == 3 {
        find_comparison(s, i)
    } else if level == 4 {
        if has_char(s, i, '&') {
            Some((BinaryOp::And, i + 1))
        } else if has_keyword(s, i, "AND") {
            Some((BinaryOp::And, i + 3))
        } else {
            None
        }
    } else {
        if has_char(s, i, '|') {
            Some((BinaryOp::Or, i + 1))
        } else if has_keyword(s, i, "OR") {
            Some((BinaryOp::Or, i + 2))
        } else {
            None
        }
    }
}

fn skip_digits(s: &Vec<char>, i: usize) -> (r: usize)
    requires
        i <= s.len(),
    ensures
        r == digits_end(s@, i as int),
        i <= r <= s.len(),
{
    let mut k: usize = i;
    while k < s.len() && '0' <= s[k] && s[k] <= '9'
        invariant
            i <= k <= s.len(),
            digits_end(s@, i as int) == digits_end(s@, k as int),
        decreases s.len() - k,
    {
        k = k + 1;
    }
    k
}

fn skip_sign(s: &Vec<char>, i: usize) -> (r: usize)
    requires
        i <= s.len(),
    ensures
        r == sign_end(s@, i as int),
        i <= r <= s.len(),
{
    if has_char(s, i, '+') || has_char(s, i, '-') {
        i + 1
    } else {
        i
    }
}

fn find_mantissa_end(s: &Vec<char>, i: usize) -> (r: Option<usize>)
    requires
        i <= s.len(),
    ensures
        match r {
            Some(p) => mantissa_end(s@, i as int) == Some(p as int) && i < p <= s.len(),
            None => mantissa_end(s@, i as int) is None,
        },
{
    let d = skip_digits(s, i);
    if d > i {
        if has_char(s, d, '.') {
            Some(skip_digits(s, d + 1))
        } else {
            Some(d)
        }
    } else if has_char(s, i, '.') {
        let e = skip_digits(s, i + 1);
        if e > i + 1 {
            Some(e)
        } else {
            None
        }
    } else {
        None
    }
}

fn find_number_end(s: &Vec<char>, i: usize) -> (r: Result<usize, bool>)
    requires
        i <= s.len(),
    ensures
        match r {
            Ok(p) => number_end(s@, i as int) == Ok::<int, bool>(p as int) && i < p <= s.len(),
            Err(cut) => number_end(s@, i as int) == Err::<int, bool>(cut),
        },
{
    proof {
        reveal_strlit("NAN");
        reveal_strlit("INFINITY");
        reveal_strlit("INF");
    }
    let start = skip_sign(s, i);
    match find_mantissa_end(s, start) {
        Some(m) => {
            if has_char(s, m, 'e') || has_char(s, m, 'E') {
                let x = skip_sign(s, m + 1);
                let e = skip_digits(s, x);
                if e > x {
                    Ok(e)
                } else {
                    Err(true)
                }
            } else {
                Ok(m)
            }
        },
        None => {
            if has_word(s, i, "NAN") {
                Ok(i + 3)
            } else if has_word(s, start, "INFINITY") {
                Ok(start + 8)
            } else if has_word(s, start, "INF") {
                Ok(start + 3)
            } else {
                Err(false)
            }
        },
    }
}

/// The position behind a name, where one starts at `i`.
fn find_name_end(s: &Vec<char>, i: usize) -> (r: Option<usize>)
    requires
        i <= s.len(),
    ensures
        match r {
            Some(e) => name_starts(s@, i as int) && e == name_end(s@, i + 1) && i < e <= s.len(),
            None => !name_starts(s@, i as int),
        },
{
    if i >= s.len() {
        return None;
    }
    let c = s[i];
    if !(('a' <= c && c <= 'z') || ('A' <= c && c <= 'Z') || c == '_' || c == '$' || c == '@' || c
        == '#') {
        return None;
    }
    let mut k: usize = i + 1;
    while k < s.len()
        invariant
            i < k <= s.len(),
            name_end(s@, i + 1) == name_end(s@, k as int),
        ensures
            i < k <= s.len(),
            k == name_end(s@, i + 1),
        decreases s.len() - k,
    {
        let c = s[k];
        if !(is_alphanumeric(c) || c == '.' || c == '_' || c == '@' || c == '#' || c == '$') {
            break ;
        }
        k = k + 1;
    }
    Some(k)
}

/// Reads a text behind its opening quote.
fn parse_quoted(s: &Vec<char>, i: usize, q: char) -> (r: Option<(String, usize)>)
    requires
        i <= s.len(),
    ensures
        match r {
            Some((t, j)) => quoted(s@, i as int, q, Seq::empty()) == Some((t@, j as int)) && i < j
                <= s.len(),
            None => quoted(s@, i as int, q, Seq::empty()) is None,
        },
{
    let mut t = String::new();
    let mut k: usize = i;
    proof {
        assert(t@ =~= Seq::empty());
    }
    while k < s.len()
        invariant
            i <= k <= s.len(),
            quoted(s@, i as int, q, Seq::empty()) == quoted(s@, k as int, q, t@),
        decreases s.len() - k,
    {
        if s[k] == q {
            if has_char(s, k + 1, q) {
                t.push(q);
                k = k + 2;
            } else {
                return Some((t, k + 1));
            }
        } else {
            t.push(s[k]);
            k = k + 1;
        }
    }
    None
}

/// Whether a name is an operator.
fn is_reserved(name: &str) -> (r: bool)
    ensures
        r == reserved(name@),
{
    let u = to_upper(name);
    let t = u.as_str();
    same_text(t, "AND") || same_text(t, "OR") || same_text(t, "NOT") || same_text(t, "EQ")
        || same_text(t, "NE") || same_text(t, "LT") || same_text(t, "LE") || same_text(t, "GT")
        || same_text(t, "GE")
}

/// The value of a numeral, where it is one and fits.
fn parse_numeral(t: &str) -> (r: Option<usize>)
    ensures
        match r {
            Some(n) => is_numeral(t@) && text::digits_value(t@) == n,
            None => !(is_numeral(t@) && text::digits_value(t@) <= usize::MAX),
        },
{
    let c = chars_of(t);
    if c.len() == 0 {
        return None;
    }
    let mut n: usize = 0;
    let mut i: usize = 0;
    proof {
        assert(c@.take(0) =~= Seq::empty());
    }
    while i < c.len()
        invariant
            i <= c.len(),
            c@ == t@,
            n == text::digits_value(c@.take(i as int)),
            forall|k: int| 0 <= k < i ==> '0' <= #[trigger] c@[k] && c@[k] <= '9',
        decreases c.len() - i,
    {
        let d = c[i];
        if !('0' <= d && d <= '9') {
            proof {
                assert(!('0' <= t@[i as int] && t@[i as int] <= '9'));
            }
            return None;
        }
        let digit: usize = (d as u32 - 48) as usize;
        proof {
            assert(c@.take(i + 1).drop_last() =~= c@.take(i as int));
            lemma_digits_grow(c@, i + 1);
        }
        if n > usize::MAX / 10 || 10 * n > usize::MAX - digit {
            return None;
        }
        n = 10 * n + digit;
        i = i + 1;
    }
    proof {
        assert(c@.take(c@.len() as int) =~= c@);
    }
    Some(n)
}

/// A longer numeral is not smaller.
proof fn lemma_digits_grow(s: Seq<char>, n: int)
    requires
        0 <= n <= s.len(),
    ensures
        is_numeral(s) ==> text::digits_value(s.take(n)) <= text::digits_value(s),
        is_numeral(s) ==> 0 <= text::digits_value(s.take(n)),
    decreases s.len(),
{
    if is_numeral(s) {
        if n == s.len() {
            assert(s.take(n) =~= s);
            if s.len() > 1 {
                lemma_digits_numeral(s);
                lemma_digits_grow(s.drop_last(), s.len() - 1);
                assert(s.drop_last().take(s.len() - 1) =~= s.drop_last());
            } else {
                assert(s.drop_last() =~= Seq::empty());
                assert('0' <= s[0]);
            }
        } else {
            if s.len() > 1 {
                lemma_digits_numeral(s);
                lemma_digits_grow(s.drop_last(), n);
                assert(s.drop_last().take(n) =~= s.take(n));
                assert('0' <= s.last());
            } else {
                assert(s.take(0) =~= Seq::empty());
                assert(s.drop_last() =~= Seq::empty());
                assert('0' <= s[0]);
            }
        }
    }
}

proof fn lemma_digits_numeral(s: Seq<char>)
    requires
        is_numeral(s),
        s.len() > 1,
    ensures
        is_numeral(s.drop_last()),
{
    assert forall|i: int| 0 <= i < s.drop_last().len() implies '0' <= #[trigger] s.drop_last()[i]
        && s.drop_last()[i] <= '9' by {
        assert(s.drop_last()[i] == s[i]);
    }
}

/// Splits a function name.
fn parse_function_name(name: &str) -> (r: (String, Option<usize>))
    ensures
        (r.0@, r.1) == function_name(name@),
{
    let parts = split(name, '.');
    proof {
        assert(text::views(parts@) == text::pieces(name@, '.'));
    }
    if parts.len() == 2 {
        if let Some(n) = parse_numeral(parts[1].as_str()) {
            return (to_upper(parts[0].as_str()), Some(n));
        }
    }
    (to_upper(name), None)
}

/// Parses binary operators up to a level.
fn parse_binary<R: Fn(String) -> Number>(
    s: &Vec<char>,
    i: usize,
    level: u8,
    read: &R,
) -> (r: Result<(Expr, usize), bool>)
    requires
        i <= s.len(),
        arith::steady_reader(*read),
    ensures
        match r {
            Ok((e, j)) => binary_at(s@, i as int, level as nat, *read) == Ok::<(ExprView, int), bool>((e@, j as int)) && i < j <= s.len(),
            Err(cut) => binary_at(s@, i as int, level as nat, *read) == Err::<(ExprView, int), bool>(cut),
        },
    decreases s.len() - i, 20 + level,
{
    if level == 0 {
        return parse_unary(s, i, read);
    }
    let (first, at) = match parse_binary(s, i, level - 1, read) {
        Ok(x) => x,
        Err(cut) => return Err(cut),
    };
    let mut lhs = first;
    let mut j: usize = at;
    loop
        invariant
            i < j <= s.len(),
            0 < level,
            arith::steady_reader(*read),
            binary_at(s@, i as int, level as nat, *read) == operands_at(
                s@,
                j as int,
                level as nat,
                lhs@,
                *read,
            ),
        decreases s.len() - j,
    {
        let k = skip_spaces(s, j);
        match find_operator(s, k, level) {
            None => {
                return Ok((lhs, k));
            },
            Some((op, p)) => {
                let (rhs, end) = match parse_binary(s, p, level - 1, read) {
                    Ok(x) => x,
                    Err(cut) => return Err(cut),
                };
                let ghost left = lhs@;
                let ghost right = rhs@;
                lhs = Expr::Binary(op, Box::new(lhs), Box::new(rhs));
                proof {
                    assert(lhs@ == ExprView::Binary(op, Box::new(left), Box::new(right)));
                }
                j = end;
            },
        }
    }
}

fn parse_unary<R: Fn(String) -> Number>(s: &Vec<char>, i: usize, read: &R) -> (r: Result<
    (Expr, usize),
    bool,
>)
    requires
        i <= s.len(),
        arith::steady_reader(*read),
    ensures
        match r {
            Ok((e, j)) => unary_at(s@, i as int, *read) == Ok::<(ExprView, int), bool>((e@, j as int)) && i < j <= s.len(),
            Err(cut) => unary_at(s@, i as int, *read) == Err::<(ExprView, int), bool>(cut),
        },
    decreases s.len() - i, 10int,
{
    let k = skip_spaces(s, i);
    proof {
        reveal_strlit("NOT");
    }
    let (op, p) = if has_char(s, k, '-') {
        (UnaryOp::Neg, k + 1)
    } else if has_char(s, k, '+') {
        (UnaryOp::Pos, k + 1)
    } else if has_char(s, k, '~') || has_char(s, k, '!') {
        (UnaryOp::Not, k + 1)
    } else if has_keyword(s, k, "NOT") {
        (UnaryOp::Not, k + 3)
    } else {
        return parse_exponentiation(s, k, read);
    };
    match parse_unary(s, p, read) {
        Ok((e, j)) => Ok((Expr::Unary(op, Box::new(e)), j)),
        Err(cut) => Err(cut),
    }
}

fn parse_exponentiation<R: Fn(String) -> Number>(s: &Vec<char>, i: usize, read: &R) -> (r: Result<
    (Expr, usize),
    bool,
>)
    requires
        i <= s.len(),
        arith::steady_reader(*read),
    ensures
        match r {
            Ok((e, j)) => power_at(s@, i as int, *read) == Ok::<(ExprView, int), bool>((e@, j as int)) && i < j <= s.len(),
            Err(cut) => power_at(s@, i as int, *read) == Err::<(ExprView, int), bool>(cut),
        },
    decreases s.len() - i, 9int,
{
    let (lhs, j) = match parse_primary(s, i, read) {
        Ok(x) => x,
        Err(cut) => return Err(cut),
    };
    let k = skip_spaces(s, j);
    if k < s.len() && has_char(s, k, '*') && has_char(s, k + 1, '*') {
        let p = skip_spaces(s, k + 2);
        match parse_exponentiation(s, p, read) {
            Ok((rhs, end)) => Ok(
                (Expr::Binary(BinaryOp::Pow, Box::new(lhs), Box::new(rhs)), end),
            ),
            Err(cut) => Err(cut),
        }
    } else {
        Ok((lhs, k))
    }
}

fn parse_primary<R: Fn(String) -> Number>(s: &Vec<char>, i: usize, read: &R) -> (r: Result<
    (Expr, usize),
    bool,
>)
    requires
        i <= s.len(),
        arith::steady_reader(*read),
    ensures
        match r {
            Ok((e, j)) => primary_at(s@, i as int, *read) == Ok::<(ExprView, int), bool>((e@, j as int)) && i < j <= s.len(),
            Err(cut) => primary_at(s@, i as int, *read) == Err::<(ExprView, int), bool>(cut),
        },
    decreases s.len() - i, 8int,
{
    let k = skip_spaces(s, i);
    match parse_parenthesized(s, k, read) {
        Err(false) => {},
        x => return x,
    }
    match parse_function_call(s, k, read) {
        Err(false) => {},
        x => return x,
    }
    match find_number_end(s, k) {
        Ok(j) => {
            let n = read_literal(read, string_from(s, k, j));
            return Ok((Expr::Value(Value::Numeric(n)), j));
        },
        Err(true) => {
            return Err(true);
        },
        Err(false) => {},
    }
    match parse_string(s, k) {
        Some((t, j)) => {
            return Ok((Expr::Value(Value::String(t)), j));
        },
        None => {},
    }
    match find_name_end(s, k) {
        Some(e) => {
            let name = string_from(s, k, e);
            if is_reserved(name.as_str()) {
                Err(false)
            } else {
                Ok((Expr::Variable(name), e))
            }
        },
        None => Err(false),
    }
}

fn parse_string(s: &Vec<char>, i: usize) -> (r: Option<(String, usize)>)
    requires
        i <= s.len(),
    ensures
        match r {
            Some((t, j)) => text_at(s@, i as int) == Ok::<(ExprView, int), bool>(
                (ExprView::Value(ValueView::String(t@)), j as int),
            ) && i < j <= s.len(),
            None => text_at(s@, i as int) == Err::<(ExprView, int), bool>(false),
        },
{
    if has_char(s, i, '\'') {
        parse_quoted(s, i + 1, '\'')
    } else if has_char(s, i, '"') {
        parse_quoted(s, i + 1, '"')
    } else {
        None
    }
}

fn parse_parenthesized<R: Fn(String) -> Number>(s: &Vec<char>, i: usize, read: &R) -> (r: Result<
    (Expr, usize),
    bool,
>)
    requires
        i <= s.len(),
        arith::steady_reader(*read),
    ensures
        match r {
            Ok((e, j)) => bracketed_at(s@, i as int, *read) == Ok::<(ExprView, int), bool>((e@, j as int)) && i < j <= s.len(),
            Err(cut) => bracketed_at(s@, i as int, *read) == Err::<(ExprView, int), bool>(cut),
        },
    decreases s.len() - i, 7int,
{
    if !has_char(s, i, '(') {
        return Err(false);
    }
    let p = skip_spaces(s, i + 1);
    let (e, j) = match parse_binary(s, p, 5, read) {
        Ok(x) => x,
        Err(cut) => return Err(cut),
    };
    let k = skip_spaces(s, j);
    if has_char(s, k, ')') {
        Ok((e, k + 1))
    } else {
        Err(false)
    }
}

fn parse_args<R: Fn(String) -> Number>(s: &Vec<char>, i: usize, read: &R) -> (r: Result<
    (Vec<Expr>, usize),
    bool,
>)
    requires
        i <= s.len(),
        arith::steady_reader(*read),
    ensures
        match r {
            Ok((args, j)) => args_at(s@, i as int, Seq::empty(), *read) == Ok::<
                (Seq<ExprView>, int),
                bool,
            >((text::views(args@), j as int)) && i < j <= s.len(),
            Err(cut) => args_at(s@, i as int, Seq::empty(), *read) == Err::<
                (Seq<ExprView>, int),
                bool,
            >(cut),
        },
    decreases s.len() - i, 30int,
{
    let mut args: Vec<Expr> = Vec::new();
    let mut p: usize = i;
    proof {
        assert(text::views(args@) =~= Seq::empty());
    }
    loop
        invariant
            i <= p <= s.len(),
            arith::steady_reader(*read),
            args_at(s@, i as int, Seq::empty(), *read) == args_at(
                s@,
                p as int,
                text::views(args@),
                *read,
            ),
        decreases s.len() - p,
    {
        let (e, j) = match parse_binary(s, p, 5, read) {
            Ok(x) => x,
            Err(cut) => return Err(cut),
        };
        args.push(e);
        let k = skip_spaces(s, j);
        if has_char(s, k, ',') {
            p = skip_spaces(s, k + 1);
        } else {
            return Ok((args, k));
        }
    }
}

fn parse_function_call<R: Fn(String) -> Number>(s: &Vec<char>, i: usize, read: &R) -> (r: Result<
    (Expr, usize),
    bool,
>)
    requires
        i <= s.len(),
        arith::steady_reader(*read),
    ensures
        match r {
            Ok((e, j)) => call_at(s@, i as int, *read) == Ok::<(ExprView, int), bool>((e@, j as int)) && i < j <= s.len(),
            Err(cut) => call_at(s@, i as int, *read) == Err::<(ExprView, int), bool>(cut),
        },
    decreases s.len() - i, 7int,
{
    let e = match find_name_end(s, i) {
        Some(e) => e,
        None => return Err(false),
    };
    let k = skip_spaces(s, e);
    if !has_char(s, k, '(') {
        return Err(false);
    }
    let a = skip_spaces(s, k + 1);
    let name = string_from(s, i, e);
    if has_char(s, a, ')') {
        let (base, min_valid) = parse_function_name(name.as_str());
        let args: Vec<Expr> = Vec::new();
        let call = Expr::FunctionCall { name: base, min_valid, args };
        proof {
            assert(call@->args =~= Seq::empty());
        }
        return Ok((call, a + 1));
    }
    let (args, j) = match parse_args(s, a, read) {
        Ok(x) => x,
        Err(cut) => return Err(cut),
    };
    if !has_char(s, j, ')') {
        return Err(false);
    }
    let (base, min_valid) = parse_function_name(name.as_str());
    let ghost av = text::views(args@);
    let call = Expr::FunctionCall { name: base, min_valid, args };
    proof {
        assert(call@->args =~= av);
    }
    Ok((call, j + 1))
}

/// Parses an expression. `read` gives the value of a number as it is written.
pub fn parse<R: Fn(String) -> Number>(input: &str, read: &R) -> (r: Result<Expr, String>)
    requires
        arith::steady_reader(*read),
    ensures
        match r {
            Ok(e) => parsed(input@, *read) == Ok::<ExprView, Seq<char>>(e@),
            Err(e) => parsed(input@, *read) == Err::<ExprView, Seq<char>>(e@),
        },
{
    let trimmed = trim(input);
    let s = chars_of(trimmed.as_str());
    match parse_binary(&s, 0, 5, read) {
        Err(true) => Err(
            "Parsing error: Cut(ContextError { context: [], cause: None })".to_owned(),
        ),
        Err(false) => Err(
            "Parsing error: Backtrack(ContextError { context: [], cause: None })".to_owned(),
        ),
        Ok((e, j)) => {
            if j < s.len() {
                let rest = string_from(&s, j, s.len());
                proof {
                    assert(rest@ =~= s@.skip(j as int));
                }
                let mut msg = join_two("Trailing characters: '", rest.as_str());
                msg.append("'");
                Err(msg)
            } else {
                Ok(e)
            }
        },
    }
}

} // verus!
