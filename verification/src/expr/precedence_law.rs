//! Which operator binds tighter: an expression that is written with brackets only
//! where precedence asks for them is read back as it was meant.
use vstd::prelude::*;
use vstd::utf8::is_ascii_chars;

use crate::arith;
use crate::expr::ast::{BinaryOp, ExprView, UnaryOp};
use crate::expr::parse;
use crate::number::Number;
use crate::text;
use crate::text_law;
use crate::value::ValueView;

verus! {

/// An expression to be written: each operator comes with the sign chosen for it.
pub enum Form {
    Name(Seq<char>),
    /// The digits before the point, and those behind it.
    Number(Seq<char>, Seq<char>),
    /// A text, and the quote to write it in.
    Text(Seq<char>, char),
    /// A function, the number of valid arguments that it asks for, and its arguments.
    Call(Seq<char>, Option<usize>, Seq<Form>),
    Unary(UnaryOp, Seq<char>, Box<Form>),
    Binary(BinaryOp, Seq<char>, Box<Form>, Box<Form>),
}

/// How loosely an operator binds: powers bind tightest, then the operators before
/// an operand, products, sums, comparisons, AND, and OR last.
pub open spec fn rank_of(op: BinaryOp) -> int {
    match op {
        BinaryOp::Pow => 1,
        BinaryOp::Mul | BinaryOp::Div => 3,
        BinaryOp::Add | BinaryOp::Sub => 4,
        BinaryOp::Eq | BinaryOp::Ne | BinaryOp::Lt | BinaryOp::Le | BinaryOp::Gt | BinaryOp::Ge => 5,
        BinaryOp::And => 6,
        BinaryOp::Or => 7,
    }
}

/// How loosely an expression holds together.
pub open spec fn rank(f: Form) -> int {
    match f {
        Form::Unary(_, _, _) => 2,
        Form::Binary(op, _, _, _) => rank_of(op),
        _ => 0,
    }
}

/// The letters of `word`, each in either case.
pub open spec fn letters(sign: Seq<char>, word: Seq<char>) -> bool {
    sign.len() == word.len() && forall|k: int|
        0 <= k < word.len() ==> text::ascii_upper(#[trigger] sign[k]) == word[k]
}

/// The signs of an operator between two operands.
pub open spec fn binary_sign(op: BinaryOp, sign: Seq<char>) -> bool {
    match op {
        BinaryOp::Pow => sign == seq!['*', '*'],
        BinaryOp::Mul => sign == seq!['*'],
        BinaryOp::Div => sign == seq!['/'],
        BinaryOp::Add => sign == seq!['+'],
        BinaryOp::Sub => sign == seq!['-'],
        BinaryOp::Eq => sign == seq!['='] || letters(sign, "EQ"@),
        BinaryOp::Ne => sign == seq!['<', '>'] || sign == seq!['~', '='] || sign == seq!['!', '=']
            || letters(sign, "NE"@),
        BinaryOp::Lt => sign == seq!['<'] || letters(sign, "LT"@),
        BinaryOp::Le => sign == seq!['<', '='] || letters(sign, "LE"@),
        BinaryOp::Gt => sign == seq!['>'] || letters(sign, "GT"@),
        BinaryOp::Ge => sign == seq!['>', '='] || letters(sign, "GE"@),
        BinaryOp::And => sign == seq!['&'] || letters(sign, "AND"@),
        BinaryOp::Or => sign == seq!['|'] || letters(sign, "OR"@),
    }
}

/// The signs of an operator before its operand.
pub open spec fn unary_sign(op: UnaryOp, sign: Seq<char>) -> bool {
    match op {
        UnaryOp::Neg => sign == seq!['-'],
        UnaryOp::Pos => sign == seq!['+'],
        UnaryOp::Not => sign == seq!['~'] || sign == seq!['!'] || letters(sign, "NOT"@),
    }
}

/// The word stands at the start of a name.
pub open spec fn begins(name: Seq<char>, word: Seq<char>) -> bool {
    name.len() >= word.len() && letters(name.take(word.len() as int), word)
}

/// An ASCII name that is no operator and does not begin like a number that is
/// written in letters.
pub open spec fn proper_name(name: Seq<char>) -> bool {
    &&& parse::name_starts(name, 0)
    &&& forall|k: int| 0 <= k < name.len() ==> parse::continues(#[trigger] name[k])
    &&& !letters(name, "AND"@) && !letters(name, "OR"@) && !letters(name, "NOT"@)
    &&& !letters(name, "EQ"@) && !letters(name, "NE"@) && !letters(name, "LT"@)
    &&& !letters(name, "LE"@) && !letters(name, "GT"@) && !letters(name, "GE"@)
    &&& !begins(name, "NAN"@) && !begins(name, "INF"@)
}

/// The name of a function, with a point and the number of valid arguments behind it
/// where one is asked for.
pub open spec fn call_name(name: Seq<char>, least: Option<usize>) -> Seq<char> {
    match least {
        Some(n) => name + seq!['.'] + text::decimal(n as nat),
        None => name,
    }
}

/// A form that can be written.
pub open spec fn proper(f: Form) -> bool
    decreases f,
{
    match f {
        Form::Name(name) => proper_name(name),
        Form::Number(whole, part) => whole.len() > 0 && text::all_digits(whole) && text::all_digits(
            part,
        ),
        Form::Text(_, q) => q == '\'' || q == '"',
        Form::Call(name, least, args) => proper_name(call_name(name, least)) && (text_law::lacks(
            name,
            '.',
        ) || (least is None && !text::all_digits(name.skip(name.len() - 1)))) && forall|k: int|
            0 <= k < args.len() ==> proper(#[trigger] args[k]),
        Form::Unary(op, sign, a) => unary_sign(op, sign) && proper(*a),
        Form::Binary(op, sign, a, b) => binary_sign(op, sign) && proper(*a) && proper(*b),
    }
}

/// The expression that a form stands for.
pub open spec fn meant<R: Fn(String) -> Number>(f: Form, read: R) -> ExprView
    decreases f,
{
    match f {
        Form::Name(name) => ExprView::Variable(name),
        Form::Number(whole, part) => ExprView::Value(
            ValueView::Numeric(arith::literal(read, numeral(whole, part))),
        ),
        Form::Text(t, _) => ExprView::Value(ValueView::String(t)),
        Form::Call(name, least, args) => ExprView::FunctionCall {
            name: text::uppercase(name),
            min_valid: least,
            args: Seq::new(
                args.len(),
                |k: int|
                    if 0 <= k < args.len() {
                        meant(args[k], read)
                    } else {
                        arbitrary()
                    },
            ),
        },
        Form::Unary(op, _, a) => ExprView::Unary(op, Box::new(meant(*a, read))),
        Form::Binary(op, _, a, b) => ExprView::Binary(
            op,
            Box::new(meant(*a, read)),
            Box::new(meant(*b, read)),
        ),
    }
}

/// The digits of a number, with a point where digits follow it.
pub open spec fn numeral(whole: Seq<char>, part: Seq<char>) -> Seq<char> {
    if part.len() == 0 {
        whole
    } else {
        whole + (seq!['.'] + part)
    }
}

/// A text with each quote `q` doubled.
pub open spec fn doubled(t: Seq<char>, q: char) -> Seq<char>
    decreases t.len(),
{
    if t.len() == 0 {
        Seq::empty()
    } else if t[0] == q {
        seq![q, q] + doubled(t.skip(1), q)
    } else {
        seq![t[0]] + doubled(t.skip(1), q)
    }
}

/// A form written where an expression of a rank may stand, in brackets where it
/// holds together less.
pub open spec fn written(f: Form, r: int) -> Seq<char>
    decreases f, 2int, 0int,
{
    if rank(f) > r {
        seq!['('] + (bare(f) + seq![')'])
    } else {
        bare(f)
    }
}

/// A form written without brackets around it. Operators group from the left,
/// powers from the right.
pub open spec fn bare(f: Form) -> Seq<char>
    decreases f, 1int, 0int,
{
    match f {
        Form::Name(name) => name,
        Form::Number(whole, part) => numeral(whole, part),
        Form::Text(t, q) => seq![q] + (doubled(t, q) + seq![q]),
        Form::Call(name, least, _) => call_name(name, least) + (seq!['('] + (arguments(f, 0) + seq![
            ')',
        ])),
        Form::Unary(_, sign, a) => sign + (gap(sign) + written(*a, 2)),
        Form::Binary(BinaryOp::Pow, sign, a, b) => written(*a, 0) + (seq![' '] + (sign + (seq![' ']
            + written(*b, 1)))),
        Form::Binary(op, sign, a, b) => written(*a, rank_of(op)) + (seq![' '] + (sign + (seq![' ']
            + written(*b, rank_of(op) - 1)))),
    }
}

/// What stands between a sign and its operand: a blank behind a word.
pub open spec fn gap(sign: Seq<char>) -> Seq<char> {
    if sign.len() > 1 {
        seq![' ']
    } else {
        Seq::empty()
    }
}

/// The arguments of a call from one on, with commas between them.
pub open spec fn arguments(f: Form, k: int) -> Seq<char>
    decreases
            f,
            0int,
            match f {
                Form::Call(_, _, args) => args.len() - k,
                _ => 0,
            },
{
    match f {
        Form::Call(_, _, args) => if 0 <= k < args.len() {
            written(args[k], 7) + (if k + 1 < args.len() {
                seq![',', ' '] + arguments(f, k + 1)
            } else {
                Seq::empty()
            })
        } else {
            Seq::empty()
        },
        _ => Seq::empty(),
    }
}

/// The text `t` stands in `s` at `i`.
pub open spec fn stands(s: Seq<char>, i: int, t: Seq<char>) -> bool {
    &&& 0 <= i
    &&& i + t.len() <= s.len()
    &&& forall|k: int| 0 <= k < t.len() ==> s[i + k] == #[trigger] t[k]
}

proof fn lemma_parts(s: Seq<char>, i: int, a: Seq<char>, b: Seq<char>)
    requires
        stands(s, i, a + b),
    ensures
        stands(s, i, a),
        stands(s, i + a.len(), b),
{
    let t = a + b;
    assert forall|k: int| 0 <= k < a.len() implies s[i + k] == #[trigger] a[k] by {
        assert(t[k] == a[k]);
    }
    assert forall|k: int| 0 <= k < b.len() implies s[i + a.len() + k] == #[trigger] b[k] by {
        assert(t[a.len() + k] == b[k]);
        assert(i + (a.len() + k) == i + a.len() + k);
    }
}

proof fn lemma_char(s: Seq<char>, i: int, c: char)
    requires
        stands(s, i, seq![c]),
    ensures
        parse::is_at(s, i, c),
{
    assert(seq![c][0] == c);
    assert(s[i + 0] == seq![c][0]);
}

proof fn lemma_two(s: Seq<char>, i: int, c: char, d: char)
    requires
        stands(s, i, seq![c, d]),
    ensures
        parse::is_at(s, i, c),
        parse::is_at(s, i + 1, d),
{
    let t = seq![c, d];
    assert(t[0] == c && t[1] == d);
    assert(s[i + 0] == t[0]);
}

/// A character of a name.
spec fn of_name(c: char) -> bool {
    text::alphanumeric(c) || c == '.' || c == '_' || c == '@' || c == '#' || c == '$'
}

/// An expression of rank `r` that ends at `j` does not go on there.
spec fn stops(s: Seq<char>, j: int, r: int) -> bool {
    let k = parse::spaces(s, j);
    &&& 0 <= j <= s.len()
    &&& j < s.len() ==> !of_name(s[j]) && s[j] != '\'' && s[j] != '"'
    &&& !parse::is_at(s, k, '(')
    &&& r >= 1 ==> !(parse::is_at(s, k, '*') && parse::is_at(s, k + 1, '*'))
    &&& forall|l: nat| 1 <= l <= r - 2 ==> #[trigger] parse::operator_at(s, k, l) is None
}

/// What is read at `i` where an expression of rank `r` may stand.
spec fn reads<R: Fn(String) -> Number>(s: Seq<char>, i: int, r: int, read: R) -> Result<
    (ExprView, int),
    bool,
> {
    if r <= 0 {
        parse::primary_at(s, i, read)
    } else if r == 1 {
        parse::power_at(s, i, read)
    } else {
        parse::binary_at(s, i, (r - 2) as nat, read)
    }
}

/// Where reading goes on behind an expression of rank `r` that ends at `j`.
spec fn behind(s: Seq<char>, j: int, r: int) -> int {
    if r <= 0 {
        j
    } else {
        parse::spaces(s, j)
    }
}

/// Neither a blank nor an operator stands at `i`.
spec fn opens(s: Seq<char>, i: int) -> bool {
    &&& 0 <= i < s.len()
    &&& s[i] != ' ' && s[i] != '\t'
    &&& s[i] != '-' && s[i] != '+' && s[i] != '~' && s[i] != '!'
    &&& !parse::keyword_at(s, i, "NOT"@)
}

proof fn lemma_words()
    ensures
        "EQ"@ == seq!['E', 'Q'],
        "NE"@ == seq!['N', 'E'],
        "LT"@ == seq!['L', 'T'],
        "LE"@ == seq!['L', 'E'],
        "GT"@ == seq!['G', 'T'],
        "GE"@ == seq!['G', 'E'],
        "AND"@ == seq!['A', 'N', 'D'],
        "OR"@ == seq!['O', 'R'],
        "NOT"@ == seq!['N', 'O', 'T'],
        "NAN"@ == seq!['N', 'A', 'N'],
        "INF"@ == seq!['I', 'N', 'F'],
        "INFINITY"@.take(3) == seq!['I', 'N', 'F'],
        "INFINITY"@.len() == 8,
{
    reveal_strlit("EQ");
    reveal_strlit("NE");
    reveal_strlit("LT");
    reveal_strlit("LE");
    reveal_strlit("GT");
    reveal_strlit("GE");
    reveal_strlit("AND");
    reveal_strlit("OR");
    reveal_strlit("NOT");
    reveal_strlit("NAN");
    reveal_strlit("INF");
    reveal_strlit("INFINITY");
    assert("EQ"@ =~= seq!['E', 'Q']);
    assert("NE"@ =~= seq!['N', 'E']);
    assert("LT"@ =~= seq!['L', 'T']);
    assert("LE"@ =~= seq!['L', 'E']);
    assert("GT"@ =~= seq!['G', 'T']);
    assert("GE"@ =~= seq!['G', 'E']);
    assert("AND"@ =~= seq!['A', 'N', 'D']);
    assert("OR"@ =~= seq!['O', 'R']);
    assert("NOT"@ =~= seq!['N', 'O', 'T']);
    assert("NAN"@ =~= seq!['N', 'A', 'N']);
    assert("INF"@ =~= seq!['I', 'N', 'F']);
    assert("INFINITY"@.take(3) =~= seq!['I', 'N', 'F']);
}

/// A word of two letters stands where its letters do.
proof fn lemma_word_of_two(s: Seq<char>, i: int, word: Seq<char>)
    requires
        word.len() == 2,
        0 <= i,
    ensures
        parse::word_at(s, i, word) == (i + 2 <= s.len() && text::ascii_upper(s[i]) == word[0]
            && text::ascii_upper(s[i + 1]) == word[1]),
{
    if parse::word_at(s, i, word) {
        assert(text::ascii_upper(s[i + 0]) == word[0]);
        assert(text::ascii_upper(s[i + 1]) == word[1]);
    }
}

proof fn lemma_word_of_three(s: Seq<char>, i: int, word: Seq<char>)
    requires
        word.len() == 3,
        0 <= i,
    ensures
        parse::word_at(s, i, word) == (i + 3 <= s.len() && text::ascii_upper(s[i]) == word[0]
            && text::ascii_upper(s[i + 1]) == word[1] && text::ascii_upper(s[i + 2]) == word[2]),
{
    if parse::word_at(s, i, word) {
        assert(text::ascii_upper(s[i + 0]) == word[0]);
        assert(text::ascii_upper(s[i + 1]) == word[1]);
        assert(text::ascii_upper(s[i + 2]) == word[2]);
    }
}

/// Which words stand at `k`, by their letters.
proof fn lemma_words_at(s: Seq<char>, k: int)
    requires
        0 <= k,
    ensures
        parse::word_at(s, k, "EQ"@) ==> text::ascii_upper(s[k]) == 'E' && k < s.len(),
        parse::word_at(s, k, "NE"@) ==> text::ascii_upper(s[k]) == 'N' && k < s.len(),
        parse::word_at(s, k, "LT"@) ==> text::ascii_upper(s[k]) == 'L' && text::ascii_upper(
            s[k + 1],
        ) == 'T' && k < s.len(),
        parse::word_at(s, k, "LE"@) ==> text::ascii_upper(s[k]) == 'L' && text::ascii_upper(
            s[k + 1],
        ) == 'E' && k < s.len(),
        parse::word_at(s, k, "GT"@) ==> text::ascii_upper(s[k]) == 'G' && text::ascii_upper(
            s[k + 1],
        ) == 'T' && k < s.len(),
        parse::word_at(s, k, "GE"@) ==> text::ascii_upper(s[k]) == 'G' && text::ascii_upper(
            s[k + 1],
        ) == 'E' && k < s.len(),
        parse::word_at(s, k, "AND"@) ==> text::ascii_upper(s[k]) == 'A' && k < s.len(),
        parse::word_at(s, k, "OR"@) ==> text::ascii_upper(s[k]) == 'O' && k < s.len(),
        parse::word_at(s, k, "NOT"@) ==> text::ascii_upper(s[k]) == 'N' && k < s.len(),
{
    lemma_words();
    lemma_word_of_two(s, k, "EQ"@);
    lemma_word_of_two(s, k, "NE"@);
    lemma_word_of_two(s, k, "LT"@);
    lemma_word_of_two(s, k, "LE"@);
    lemma_word_of_two(s, k, "GT"@);
    lemma_word_of_two(s, k, "GE"@);
    lemma_word_of_two(s, k, "OR"@);
    lemma_word_of_three(s, k, "AND"@);
    lemma_word_of_three(s, k, "NOT"@);
}

/// No operator stands at the end, at a closing bracket or at a comma.
proof fn lemma_closed(s: Seq<char>, j: int, r: int)
    requires
        0 <= j <= s.len(),
        j == s.len() || s[j] == ')' || s[j] == ',',
    ensures
        stops(s, j, r),
{
    lemma_words_at(s, j);
    assert(parse::spaces(s, j) == j);
}

/// The letters of a word, and a blank behind them, are that keyword.
proof fn lemma_keyword(s: Seq<char>, k: int, sign: Seq<char>, word: Seq<char>)
    requires
        stands(s, k, sign),
        letters(sign, word),
        parse::is_at(s, k + sign.len(), ' '),
    ensures
        parse::keyword_at(s, k, word),
{
    assert forall|n: int| 0 <= n < word.len() implies text::ascii_upper(#[trigger] s[k + n])
        == word[n] by {
        assert(s[k + n] == sign[n]);
    }
}

proof fn lemma_letters_of_two(s: Seq<char>, k: int, sign: Seq<char>, word: Seq<char>)
    requires
        stands(s, k, sign),
        letters(sign, word),
        word.len() >= 2,
    ensures
        text::ascii_upper(s[k]) == word[0],
        text::ascii_upper(s[k + 1]) == word[1],
{
    assert(s[k + 0] == sign[0]);
    assert(s[k + 1] == sign[1]);
}

/// An operator is read by its sign, and by none of the tighter levels.
proof fn lemma_operator(s: Seq<char>, k: int, op: BinaryOp, sign: Seq<char>)
    requires
        binary_sign(op, sign),
        op != BinaryOp::Pow,
        stands(s, k, sign),
        parse::is_at(s, k + sign.len(), ' '),
    ensures
        sign.len() > 0,
        parse::operator_at(s, k, (rank_of(op) - 2) as nat) == Some((op, k + sign.len())),
        forall|l: nat| 1 <= l < rank_of(op) - 2 ==> #[trigger] parse::operator_at(s, k, l) is None,
        !(parse::is_at(s, k, '*') && parse::is_at(s, k + 1, '*')),
        !parse::is_at(s, k, '('),
        !parse::is_at(s, k, ' '),
        !parse::is_at(s, k, '\t'),
{
    lemma_words();
    lemma_words_at(s, k);
    if sign.len() == 1 {
        assert(sign =~= seq![sign[0]]);
        lemma_char(s, k, sign[0]);
    } else if sign.len() == 2 && !letters(sign, "EQ"@) && !letters(sign, "NE"@) && !letters(
        sign,
        "LT"@,
    ) && !letters(sign, "LE"@) && !letters(sign, "GT"@) && !letters(sign, "GE"@) && !letters(
        sign,
        "OR"@,
    ) {
        assert(sign =~= seq![sign[0], sign[1]]);
        lemma_two(s, k, sign[0], sign[1]);
    } else {
        let word = match op {
            BinaryOp::Eq => "EQ"@,
            BinaryOp::Ne => "NE"@,
            BinaryOp::Lt => "LT"@,
            BinaryOp::Le => "LE"@,
            BinaryOp::Gt => "GT"@,
            BinaryOp::Ge => "GE"@,
            BinaryOp::And => "AND"@,
            _ => "OR"@,
        };
        assert(letters(sign, word));
        lemma_keyword(s, k, sign, word);
        lemma_letters_of_two(s, k, sign, word);
    }
}

/// An operand ends in front of an operator that binds less tightly.
proof fn lemma_before_operator(s: Seq<char>, j: int, op: BinaryOp, sign: Seq<char>)
    requires
        binary_sign(op, sign),
        parse::is_at(s, j, ' '),
        stands(s, j + 1, sign),
        parse::is_at(s, j + 1 + sign.len(), ' '),
    ensures
        stops(s, j, rank_of(op) - 1),
        parse::spaces(s, j) == j + 1,
{
    if op == BinaryOp::Pow {
        lemma_two(s, j + 1, '*', '*');
    } else {
        lemma_operator(s, j + 1, op, sign);
        assert(s[j + 1 + 0] == sign[0]);
    }
    assert(parse::spaces(s, j + 1) == j + 1);
}

proof fn lemma_spaces_once(s: Seq<char>, j: int)
    requires
        0 <= j <= s.len(),
    ensures
        j <= parse::spaces(s, j) <= s.len(),
        parse::spaces(s, parse::spaces(s, j)) == parse::spaces(s, j),
    decreases s.len() - j,
{
    if j < s.len() && (s[j] == ' ' || s[j] == '\t') {
        lemma_spaces_once(s, j + 1);
    }
}

/// What is read at a rank is read at each looser rank, where nothing follows.
proof fn lemma_lift<R: Fn(String) -> Number>(
    s: Seq<char>,
    i: int,
    j: int,
    e: ExprView,
    from: int,
    to: int,
    read: R,
)
    requires
        0 <= from <= to <= 7,
        0 <= i < j <= s.len(),
        reads(s, i, from, read) == Ok::<(ExprView, int), bool>((e, behind(s, j, from))),
        stops(s, j, to),
        from <= 1 ==> opens(s, i),
    ensures
        reads(s, i, to, read) == Ok::<(ExprView, int), bool>((e, behind(s, j, to))),
    decreases to - from,
{
    if from < to {
        let k = parse::spaces(s, j);
        lemma_spaces_once(s, j);
        if from == 0 {
            assert(parse::power_at(s, i, read) == Ok::<(ExprView, int), bool>((e, k)));
        } else if from == 1 {
            assert(parse::spaces(s, i) == i);
            assert(parse::unary_at(s, i, read) == Ok::<(ExprView, int), bool>((e, k)));
        } else {
            let l = (from - 1) as nat;
            assert(parse::operator_at(s, k, l) is None);
            assert(parse::operands_at(s, k, l, e, read) == Ok::<(ExprView, int), bool>((e, k)));
            assert(parse::binary_at(s, i, l, read) == Ok::<(ExprView, int), bool>((e, k)));
        }
        lemma_lift(s, i, j, e, from + 1, to, read);
    }
}

/// A blank before an operand is passed over.
proof fn lemma_blank_before<R: Fn(String) -> Number>(s: Seq<char>, p: int, level: nat, read: R)
    requires
        parse::is_at(s, p, ' '),
        parse::binary_at(s, p + 1, level, read) matches Ok((_, j)) && p + 1 < j,
    ensures
        parse::binary_at(s, p, level, read) == parse::binary_at(s, p + 1, level, read),
    decreases level,
{
    if level == 0 {
        assert(parse::spaces(s, p) == parse::spaces(s, p + 1));
        parse::lemma_spaces(s, p + 1);
        assert(parse::unary_at(s, p, read) == parse::unary_at(s, p + 1, read));
        assert(parse::binary_at(s, p, 0, read) == parse::unary_at(s, p, read));
        assert(parse::binary_at(s, p + 1, 0, read) == parse::unary_at(s, p + 1, read));
    } else {
        let below = (level - 1) as nat;
        assert(parse::binary_at(s, p + 1, below, read) is Ok);
        lemma_blank_before(s, p, below, read);
        let (lhs, j) = parse::binary_at(s, p, below, read)->Ok_0;
        assert(parse::binary_at(s, p, level, read) == parse::operands_at(s, j, level, lhs, read));
    }
}

proof fn lemma_name_stops(s: Seq<char>, i: int, j: int)
    requires
        0 <= i <= j <= s.len(),
        forall|k: int| i <= k < j ==> of_name(#[trigger] s[k]),
        j < s.len() ==> !of_name(s[j]),
    ensures
        parse::name_end(s, i) == j,
    decreases j - i,
{
    if i < j {
        lemma_name_stops(s, i + 1, j);
    }
}

spec fn capitals(word: Seq<char>) -> bool {
    forall|k: int| 0 <= k < word.len() ==> 'A' <= #[trigger] word[k] && word[k] <= 'Z'
}

/// A word that stands at a name is the start of the name, and the whole of it
/// where it is a keyword.
proof fn lemma_word_in_name(s: Seq<char>, i: int, name: Seq<char>, word: Seq<char>)
    requires
        stands(s, i, name),
        proper_name(name),
        stops(s, i + name.len(), 0),
        capitals(word),
    ensures
        parse::word_at(s, i, word) ==> begins(name, word),
        parse::keyword_at(s, i, word) ==> letters(name, word),
{
    let n = name.len() as int;
    if parse::word_at(s, i, word) {
        if word.len() > n {
            assert(text::ascii_upper(s[i + n]) == word[n]);
            assert(of_name(s[i + n]));
        }
        assert forall|k: int| 0 <= k < word.len() implies text::ascii_upper(#[trigger] name[k])
            == word[k] by {
            assert(s[i + k] == name[k]);
        }
        assert(letters(name.take(word.len() as int), word));
        if parse::keyword_at(s, i, word) && word.len() < n {
            assert(s[i + word.len()] == name[word.len() as int]);
        }
    }
}

proof fn lemma_not_reserved(name: Seq<char>)
    requires
        proper_name(name),
    ensures
        !parse::reserved(name),
{
    assert forall|k: int| 0 <= k < name.len() implies (#[trigger] name[k] as u32) < 128 by {
        assert(parse::continues(name[k]));
    }
    assert(is_ascii_chars(name));
    let u = text::uppercase(name);
    assert forall|word: Seq<char>| u == word implies #[trigger] letters(name, word) by {
        assert forall|k: int| 0 <= k < word.len() implies text::ascii_upper(#[trigger] name[k])
            == word[k] by {
            assert(u[k] == text::ascii_upper(name[k]));
        }
    }
    assert(!letters(name, "AND"@));
    assert(!letters(name, "OR"@));
    assert(!letters(name, "NOT"@));
    assert(!letters(name, "EQ"@));
}

/// What a name at `i` is not.
proof fn lemma_name_opens<R: Fn(String) -> Number>(s: Seq<char>, i: int, name: Seq<char>, read: R)
    requires
        stands(s, i, name),
        proper_name(name),
        stops(s, i + name.len(), 0) || parse::is_at(s, i + name.len(), '('),
    ensures
        name.len() > 0,
        parse::name_starts(s, i),
        parse::name_end(s, i + 1) == i + name.len(),
        s.subrange(i, i + name.len()) == name,
        parse::bracketed_at(s, i, read) == Err::<(ExprView, int), bool>(false),
        opens(s, i),
{
    let j = i + name.len();
    assert(s[i + 0] == name[0]);
    assert forall|k: int| i <= k < j implies of_name(#[trigger] s[k]) by {
        assert(s[i + (k - i)] == name[k - i]);
        assert(parse::continues(name[k - i]));
    }
    lemma_name_stops(s, i + 1, j);
    assert(s.subrange(i, j) =~= name);
    if parse::keyword_at(s, i, "NOT"@) {
        lemma_words();
        lemma_word_of_three(s, i, "NOT"@);
        assert(of_name(s[i]) && of_name(s[i + 1]) && of_name(s[i + 2]));
        assert(j >= i + 3);
        assert(j > i + 3 ==> s[i + 3] == name[3] && parse::continues(name[3]));
        assert(name.len() == 3);
        assert forall|k: int| 0 <= k < 3 implies text::ascii_upper(#[trigger] name[k])
            == "NOT"@[k] by {
            assert(s[i + k] == name[k]);
        }
        assert(letters(name, "NOT"@));
    }
}

proof fn lemma_name<R: Fn(String) -> Number>(s: Seq<char>, i: int, name: Seq<char>, read: R)
    requires
        stands(s, i, name),
        proper_name(name),
        stops(s, i + name.len(), 0),
    ensures
        opens(s, i),
        parse::primary_at(s, i, read) == Ok::<(ExprView, int), bool>(
            (ExprView::Variable(name), i + name.len()),
        ),
{
    let j = i + name.len();
    lemma_name_opens(s, i, name, read);
    assert(parse::spaces(s, i) == i);
    assert(parse::call_at(s, i, read) == Err::<(ExprView, int), bool>(false));
    lemma_words();
    lemma_word_in_name(s, i, name, "NAN"@);
    lemma_word_in_name(s, i, name, "INF"@);
    lemma_word_of_three(s, i, "INF"@);
    if parse::word_at(s, i, "INFINITY"@) {
        let w = "INFINITY"@;
        assert(w.take(3)[0] == w[0] && w.take(3)[1] == w[1] && w.take(3)[2] == w[2]);
        assert(text::ascii_upper(s[i + 0]) == w[0]);
        assert(text::ascii_upper(s[i + 1]) == w[1]);
        assert(text::ascii_upper(s[i + 2]) == w[2]);
    }
    assert(parse::literal_at(s, i, read) == Err::<(ExprView, int), bool>(false));
    assert(parse::text_at(s, i) == Err::<(ExprView, int), bool>(false));
    lemma_not_reserved(name);
}

proof fn lemma_digits_stop(s: Seq<char>, i: int, t: Seq<char>)
    requires
        stands(s, i, t),
        text::all_digits(t),
        i + t.len() < s.len() ==> !('0' <= s[i + t.len()] && s[i + t.len()] <= '9'),
    ensures
        parse::digits_end(s, i) == i + t.len(),
    decreases t.len(),
{
    if t.len() > 0 {
        let u = t.skip(1);
        assert(s[i + 0] == t[0]);
        assert forall|k: int| 0 <= k < u.len() implies s[i + 1 + k] == #[trigger] u[k] by {
            assert(s[i + (k + 1)] == t[k + 1]);
        }
        assert forall|k: int| 0 <= k < u.len() implies '0' <= #[trigger] u[k] && u[k] <= '9' by {
            assert(u[k] == t[k + 1]);
        }
        lemma_digits_stop(s, i + 1, u);
    }
}

proof fn lemma_number<R: Fn(String) -> Number>(
    s: Seq<char>,
    i: int,
    whole: Seq<char>,
    part: Seq<char>,
    read: R,
)
    requires
        stands(s, i, numeral(whole, part)),
        whole.len() > 0,
        text::all_digits(whole),
        text::all_digits(part),
        stops(s, i + numeral(whole, part).len(), 0),
    ensures
        opens(s, i),
        parse::primary_at(s, i, read) == Ok::<(ExprView, int), bool>(
            (
                ExprView::Value(ValueView::Numeric(arith::literal(read, numeral(whole, part)))),
                i + numeral(whole, part).len(),
            ),
        ),
{
    let t = numeral(whole, part);
    let j = i + t.len();
    let m = i + whole.len();
    if part.len() > 0 {
        lemma_parts(s, i, whole, seq!['.'] + part);
        lemma_parts(s, m, seq!['.'], part);
        lemma_char(s, m, '.');
        lemma_digits_stop(s, m + 1, part);
    }
    lemma_digits_stop(s, i, whole);
    assert(s[i + 0] == whole[0]);
    lemma_words_at(s, i);
    assert(parse::spaces(s, i) == i);
    assert(parse::number_end(s, i) == Ok::<int, bool>(j));
    assert(s.subrange(i, j) =~= t);
    assert(parse::bracketed_at(s, i, read) == Err::<(ExprView, int), bool>(false));
    assert(parse::call_at(s, i, read) == Err::<(ExprView, int), bool>(false));
}

proof fn lemma_quoted(s: Seq<char>, i: int, t: Seq<char>, q: char, acc: Seq<char>)
    requires
        stands(s, i, doubled(t, q) + seq![q]),
        !parse::is_at(s, i + doubled(t, q).len() + 1, q),
    ensures
        parse::quoted(s, i, q, acc) == Some((acc + t, i + doubled(t, q).len() + 1)),
    decreases t.len(),
{
    let d = doubled(t, q);
    lemma_parts(s, i, d, seq![q]);
    lemma_char(s, i + d.len(), q);
    if t.len() == 0 {
        assert(acc + t =~= acc);
    } else {
        let rest = doubled(t.skip(1), q);
        if t[0] == q {
            assert(d + seq![q] =~= seq![q, q] + (rest + seq![q]));
            lemma_parts(s, i, seq![q, q], rest + seq![q]);
            lemma_two(s, i, q, q);
            lemma_quoted(s, i + 2, t.skip(1), q, acc.push(q));
        } else {
            assert(d + seq![q] =~= seq![t[0]] + (rest + seq![q]));
            lemma_parts(s, i, seq![t[0]], rest + seq![q]);
            lemma_char(s, i, t[0]);
            lemma_quoted(s, i + 1, t.skip(1), q, acc.push(t[0]));
        }
        assert(acc.push(t[0]) + t.skip(1) =~= acc + t);
    }
}

proof fn lemma_text<R: Fn(String) -> Number>(s: Seq<char>, i: int, t: Seq<char>, q: char, read: R)
    requires
        q == '\'' || q == '"',
        stands(s, i, seq![q] + (doubled(t, q) + seq![q])),
        stops(s, i + doubled(t, q).len() + 2, 0),
    ensures
        opens(s, i),
        parse::primary_at(s, i, read) == Ok::<(ExprView, int), bool>(
            (ExprView::Value(ValueView::String(t)), i + doubled(t, q).len() + 2),
        ),
{
    lemma_parts(s, i, seq![q], doubled(t, q) + seq![q]);
    lemma_char(s, i, q);
    lemma_quoted(s, i + 1, t, q, Seq::empty());
    assert(Seq::<char>::empty() + t =~= t);
    lemma_words();
    lemma_words_at(s, i);
    lemma_word_of_three(s, i, "NAN"@);
    lemma_word_of_three(s, i, "INF"@);
    if parse::word_at(s, i, "INFINITY"@) {
        let w = "INFINITY"@;
        assert(w.take(3)[0] == w[0]);
        assert(text::ascii_upper(s[i + 0]) == w[0]);
    }
    assert(parse::spaces(s, i) == i);
    assert(parse::literal_at(s, i, read) == Err::<(ExprView, int), bool>(false));
}

/// Neither a blank nor a closing bracket stands at `i`.
spec fn starts(s: Seq<char>, i: int) -> bool {
    0 <= i < s.len() && s[i] != ' ' && s[i] != '\t' && s[i] != ')'
}

/// The arguments of a call, from one on.
spec fn meant_from<R: Fn(String) -> Number>(f: Form, k: int, read: R) -> Seq<ExprView> {
    match meant(f, read) {
        ExprView::FunctionCall { name, min_valid, args } => args.skip(k),
        _ => Seq::empty(),
    }
}

#[verifier::rlimit(40)]
proof fn lemma_arguments<R: Fn(String) -> Number>(
    s: Seq<char>,
    i: int,
    f: Form,
    k: int,
    acc: Seq<ExprView>,
    read: R,
)
    requires
        proper(f),
        f matches Form::Call(_, _, args) && 0 <= k < args.len(),
        stands(s, i, arguments(f, k)),
        parse::is_at(s, i + arguments(f, k).len(), ')'),
    ensures
        starts(s, i),
        parse::args_at(s, i, acc, read) == Ok::<(Seq<ExprView>, int), bool>(
            (acc + meant_from(f, k, read), i + arguments(f, k).len()),
        ),
    decreases
            f,
            0int,
            match f {
                Form::Call(_, _, args) => args.len() - k,
                _ => 0,
            },
{
    if let Form::Call(name, least, args) = f {
        let w = written(args[k], 7);
        let j = i + w.len();
        let e = meant(args[k], read);
        let all = meant(f, read)->FunctionCall_args;
        assert(all[k] == e);
        if k + 1 < args.len() {
            let rest = arguments(f, k + 1);
            assert(arguments(f, k) == w + (seq![',', ' '] + rest));
            lemma_parts(s, i, w, seq![',', ' '] + rest);
            lemma_parts(s, j, seq![',', ' '], rest);
            lemma_two(s, j, ',', ' ');
            lemma_closed(s, j, 7);
            lemma_read(s, i, args[k], 7, read);
            assert(parse::spaces(s, j) == j);
            lemma_arguments(s, j + 2, f, k + 1, acc.push(e), read);
            assert(parse::spaces(s, j + 2) == j + 2);
            assert(parse::spaces(s, j + 1) == j + 2);
            assert(acc.push(e) + all.skip(k + 1) =~= acc + all.skip(k));
        } else {
            assert(arguments(f, k) =~= w);
            lemma_closed(s, j, 7);
            lemma_read(s, i, args[k], 7, read);
            assert(parse::spaces(s, j) == j);
            assert(acc.push(e) =~= acc + all.skip(k));
        }
    }
}

/// A number behind a point asks for so many valid arguments; other names are taken
/// whole.
pub proof fn law_function_names(name: Seq<char>, least: Option<usize>)
    requires
        name.len() > 0,
        text_law::lacks(name, '.') || (least is None && !text::all_digits(
            name.skip(name.len() - 1),
        )),
    ensures
        parse::function_name(call_name(name, least)) == (text::uppercase(name), least),
{
    match least {
        Some(n) => {
            let d = text::decimal(n as nat);
            text_law::law_decimal_value(n as nat);
            assert forall|k: int| 0 <= k < d.len() implies #[trigger] d[k] != '.' by {}
            text_law::lemma_pieces_join(name, d, '.');
            text_law::lemma_pieces_single(name, '.');
        },
        None => {
            if text_law::lacks(name, '.') {
                text_law::lemma_pieces_single(name, '.');
            } else {
                let parts = text::pieces(name, '.');
                assert(name.skip(name.len() - 1) =~= seq![name.last()]);
                text::lemma_pieces_nonempty(name.drop_last(), '.');
                if name.last() != '.' {
                    assert(parts.last().last() == name.last());
                    let last = parts.last();
                    assert(last[last.len() - 1] == name.last());
                }
                assert(!parse::is_numeral(parts.last()));
            }
        },
    }
}

proof fn lemma_call_at<R: Fn(String) -> Number>(
    s: Seq<char>,
    i: int,
    stem: Seq<char>,
    least: Option<usize>,
    name: Seq<char>,
    all: Seq<ExprView>,
    end: int,
    read: R,
)
    requires
        parse::function_name(name) == (text::uppercase(stem), least),
        parse::name_starts(s, i),
        name.len() > 0,
        parse::name_end(s, i + 1) == i + name.len(),
        s.subrange(i, i + name.len()) == name,
        parse::is_at(s, i + name.len(), '('),
        parse::spaces(s, i + name.len() + 1) == i + name.len() + 1,
        parse::is_at(s, end, ')'),
        if parse::is_at(s, i + name.len() + 1, ')') {
            all.len() == 0 && end == i + name.len() + 1
        } else {
            parse::args_at(s, i + name.len() + 1, Seq::empty(), read) == Ok::<
                (Seq<ExprView>, int),
                bool,
            >((all, end))
        },
    ensures
        parse::call_at(s, i, read) == Ok::<(ExprView, int), bool>(
            (
                ExprView::FunctionCall { name: text::uppercase(stem), min_valid: least, args: all },
                end + 1,
            ),
        ),
{
    let e = i + name.len();
    assert(parse::spaces(s, e) == e);
    assert(all.len() == 0 ==> all =~= Seq::empty());
}

/// What stands where a call is written.
proof fn lemma_call_layout<R: Fn(String) -> Number>(s: Seq<char>, i: int, f: Form, read: R)
    requires
        proper(f),
        f is Call,
        stands(s, i, bare(f)),
    ensures
        ({
            let name = call_name(f->Call_0, f->Call_1);
            let e = i + name.len();
            let end = e + 1 + arguments(f, 0).len();
            &&& name.len() > 0
            &&& i + bare(f).len() == end + 1
            &&& parse::name_starts(s, i)
            &&& parse::name_end(s, i + 1) == e
            &&& s.subrange(i, e) == name
            &&& parse::is_at(s, e, '(')
            &&& stands(s, e + 1, arguments(f, 0))
            &&& parse::is_at(s, end, ')')
            &&& parse::bracketed_at(s, i, read) == Err::<(ExprView, int), bool>(false)
            &&& opens(s, i)
            &&& starts(s, i)
        }),
{
    let name = call_name(f->Call_0, f->Call_1);
    let inner = arguments(f, 0);
    let e = i + name.len();
    lemma_parts(s, i, name, seq!['('] + (inner + seq![')']));
    lemma_parts(s, e, seq!['('], inner + seq![')']);
    lemma_char(s, e, '(');
    lemma_parts(s, e + 1, inner, seq![')']);
    lemma_char(s, e + 1 + inner.len(), ')');
    lemma_name_opens(s, i, name, read);
}

proof fn lemma_primary_call<R: Fn(String) -> Number>(
    s: Seq<char>,
    i: int,
    e: ExprView,
    j: int,
    read: R,
)
    requires
        opens(s, i),
        parse::bracketed_at(s, i, read) == Err::<(ExprView, int), bool>(false),
        parse::call_at(s, i, read) == Ok::<(ExprView, int), bool>((e, j)),
    ensures
        parse::primary_at(s, i, read) == Ok::<(ExprView, int), bool>((e, j)),
{
    assert(parse::spaces(s, i) == i);
}

#[verifier::rlimit(40)]
proof fn lemma_called<R: Fn(String) -> Number>(s: Seq<char>, i: int, f: Form, read: R)
    requires
        proper(f),
        f is Call,
        stands(s, i, bare(f)),
    ensures
        bare(f).len() > 0,
        starts(s, i),
        opens(s, i),
        parse::primary_at(s, i, read) == Ok::<(ExprView, int), bool>(
            (meant(f, read), i + bare(f).len()),
        ),
    decreases f, 1int, 0int,
{
    lemma_call_layout(s, i, f, read);
    let name = call_name(f->Call_0, f->Call_1);
    let args = f->Call_2;
    let e = i + name.len();
    let end = e + 1 + arguments(f, 0).len();
    let all = meant(f, read)->FunctionCall_args;
    if args.len() > 0 {
        lemma_arguments(s, e + 1, f, 0, Seq::empty(), read);
        assert(Seq::empty() + meant_from(f, 0, read) =~= all);
    }
    assert(parse::spaces(s, e + 1) == e + 1);
    law_function_names(f->Call_0, f->Call_1);
    lemma_call_at(s, i, f->Call_0, f->Call_1, name, all, end, read);
    lemma_primary_call(s, i, meant(f, read), end + 1, read);
}

#[verifier::rlimit(40)]
proof fn lemma_unary<R: Fn(String) -> Number>(s: Seq<char>, i: int, f: Form, read: R)
    requires
        proper(f),
        f is Unary,
        stands(s, i, bare(f)),
        stops(s, i + bare(f).len(), 2),
    ensures
        bare(f).len() > 0,
        starts(s, i),
        parse::binary_at(s, i, 0, read) == Ok::<(ExprView, int), bool>(
            (meant(f, read), parse::spaces(s, i + bare(f).len())),
        ),
    decreases f, 1int, 0int,
{
    if let Form::Unary(op, sign, a) = f {
        let w = written(*a, 2);
        lemma_words();
        lemma_parts(s, i, sign, gap(sign) + w);
        lemma_parts(s, i + sign.len(), gap(sign), w);
        assert(s[i + 0] == sign[0]);
        if sign.len() == 1 {
            lemma_read(s, i + 1, *a, 2, read);
        } else {
            assert(letters(sign, "NOT"@));
            lemma_char(s, i + 3, ' ');
            lemma_keyword(s, i, sign, "NOT"@);
            lemma_letters_of_two(s, i, sign, "NOT"@);
            lemma_read(s, i + 4, *a, 2, read);
            parse::lemma_spaces(s, i + bare(f).len());
            lemma_blank_before(s, i + 3, 0, read);
            assert(parse::binary_at(s, i + 3, 0, read) == parse::unary_at(s, i + 3, read));
        }
        assert(parse::spaces(s, i) == i);
        assert(parse::binary_at(s, i, 0, read) == parse::unary_at(s, i, read));
    }
}

#[verifier::rlimit(40)]
proof fn lemma_power<R: Fn(String) -> Number>(s: Seq<char>, i: int, f: Form, read: R)
    requires
        proper(f),
        f matches Form::Binary(op, _, _, _) && op == BinaryOp::Pow,
        stands(s, i, bare(f)),
        stops(s, i + bare(f).len(), 1),
    ensures
        bare(f).len() > 0,
        starts(s, i),
        opens(s, i),
        parse::power_at(s, i, read) == Ok::<(ExprView, int), bool>(
            (meant(f, read), parse::spaces(s, i + bare(f).len())),
        ),
    decreases f, 1int, 0int,
{
    if let Form::Binary(op, sign, a, b) = f {
        let wa = written(*a, 0);
        let wb = written(*b, 1);
        let j = i + wa.len();
        lemma_parts(s, i, wa, seq![' '] + (sign + (seq![' '] + wb)));
        lemma_parts(s, j, seq![' '], sign + (seq![' '] + wb));
        lemma_char(s, j, ' ');
        lemma_parts(s, j + 1, sign, seq![' '] + wb);
        lemma_two(s, j + 1, '*', '*');
        lemma_parts(s, j + 3, seq![' '], wb);
        lemma_char(s, j + 3, ' ');
        lemma_before_operator(s, j, op, sign);
        lemma_read(s, i, *a, 0, read);
        lemma_read(s, j + 4, *b, 1, read);
        assert(parse::spaces(s, j + 4) == j + 4);
        assert(parse::spaces(s, j + 3) == j + 4);
    }
}

/// What an operator of a level and its operands contribute, before more operators
/// of that level are looked for.
#[verifier::rlimit(40)]
proof fn lemma_left_operator<R: Fn(String) -> Number>(s: Seq<char>, i: int, f: Form, read: R)
    requires
        proper(f),
        f matches Form::Binary(op, _, _, _) && op != BinaryOp::Pow,
        stands(s, i, bare(f)),
        stops(s, i + bare(f).len(), rank(f) - 1),
    ensures
        bare(f).len() > 0,
        starts(s, i),
        parse::binary_at(s, i, (rank(f) - 2) as nat, read) == parse::operands_at(
            s,
            parse::spaces(s, i + bare(f).len()),
            (rank(f) - 2) as nat,
            meant(f, read),
            read,
        ),
    decreases f, 1int, 0int,
{
    if let Form::Binary(op, sign, a, b) = f {
        let m = rank_of(op);
        let l = (m - 2) as nat;
        let wa = written(*a, m);
        let wb = written(*b, m - 1);
        let j = i + wa.len();
        let p = j + 1 + sign.len();
        lemma_parts(s, i, wa, seq![' '] + (sign + (seq![' '] + wb)));
        lemma_parts(s, j, seq![' '], sign + (seq![' '] + wb));
        lemma_char(s, j, ' ');
        lemma_parts(s, j + 1, sign, seq![' '] + wb);
        lemma_parts(s, p, seq![' '], wb);
        lemma_char(s, p, ' ');
        lemma_before_operator(s, j, op, sign);
        lemma_left(s, i, *a, m, read);
        lemma_spaces_once(s, j);
        lemma_operator(s, j + 1, op, sign);
        let end = i + bare(f).len();
        assert(end == p + 1 + wb.len());
        lemma_read(s, p + 1, *b, m - 1, read);
        parse::lemma_spaces(s, end);
        lemma_blank_before(s, p, (l - 1) as nat, read);
        assert(parse::binary_at(s, p, (l - 1) as nat, read) == Ok::<(ExprView, int), bool>(
            (meant(*b, read), parse::spaces(s, end)),
        ));
    }
}

/// The same of a left operand, which may be of the level itself.
proof fn lemma_left<R: Fn(String) -> Number>(s: Seq<char>, i: int, f: Form, m: int, read: R)
    requires
        3 <= m <= 7,
        proper(f),
        stands(s, i, written(f, m)),
        stops(s, i + written(f, m).len(), m - 1),
    ensures
        written(f, m).len() > 0,
        starts(s, i),
        parse::binary_at(s, i, (m - 2) as nat, read) == parse::operands_at(
            s,
            parse::spaces(s, i + written(f, m).len()),
            (m - 2) as nat,
            meant(f, read),
            read,
        ),
    decreases f, 4int, 0int,
{
    if rank(f) == m {
        lemma_left_operator(s, i, f, read);
    } else {
        assert(written(f, m) == written(f, m - 1));
        lemma_read(s, i, f, m - 1, read);
        parse::lemma_spaces(s, i + written(f, m).len());
    }
}

#[verifier::rlimit(40)]
proof fn lemma_bare<R: Fn(String) -> Number>(s: Seq<char>, i: int, f: Form, read: R)
    requires
        proper(f),
        stands(s, i, bare(f)),
        stops(s, i + bare(f).len(), rank(f)),
    ensures
        bare(f).len() > 0,
        starts(s, i),
        rank(f) <= 1 ==> opens(s, i),
        reads(s, i, rank(f), read) == Ok::<(ExprView, int), bool>(
            (meant(f, read), behind(s, i + bare(f).len(), rank(f))),
        ),
    decreases f, 2int, 0int,
{
    match f {
        Form::Name(name) => {
            lemma_name(s, i, name, read);
            assert(s[i + 0] == name[0]);
        },
        Form::Number(whole, part) => {
            lemma_number(s, i, whole, part, read);
            assert(s[i + 0] == numeral(whole, part)[0]);
        },
        Form::Text(t, q) => {
            lemma_text(s, i, t, q, read);
            assert(s[i + 0] == bare(f)[0]);
        },
        Form::Call(_, _, _) => {
            lemma_called(s, i, f, read);
        },
        Form::Unary(_, _, _) => {
            lemma_unary(s, i, f, read);
        },
        Form::Binary(op, _, _, _) => {
            if op == BinaryOp::Pow {
                lemma_power(s, i, f, read);
            } else {
                lemma_left_operator(s, i, f, read);
                let end = i + bare(f).len();
                lemma_spaces_once(s, end);
                let l = (rank(f) - 2) as nat;
                assert(parse::operator_at(s, parse::spaces(s, end), l) is None);
            }
        },
    }
}

/// A form is read where it is written.
#[verifier::rlimit(40)]
proof fn lemma_read<R: Fn(String) -> Number>(s: Seq<char>, i: int, f: Form, r: int, read: R)
    requires
        0 <= r <= 7,
        proper(f),
        stands(s, i, written(f, r)),
        stops(s, i + written(f, r).len(), r),
    ensures
        written(f, r).len() > 0,
        starts(s, i),
        r <= 1 ==> opens(s, i),
        reads(s, i, r, read) == Ok::<(ExprView, int), bool>(
            (meant(f, read), behind(s, i + written(f, r).len(), r)),
        ),
    decreases f, 3int, 0int,
{
    let e = meant(f, read);
    let j = i + written(f, r).len();
    let b = bare(f);
    if rank(f) <= r {
        lemma_bare(s, i, f, read);
        lemma_lift(s, i, j, e, rank(f), r, read);
    } else {
        lemma_parts(s, i, seq!['('], b + seq![')']);
        lemma_char(s, i, '(');
        lemma_parts(s, i + 1, b, seq![')']);
        lemma_char(s, j - 1, ')');
        lemma_closed(s, j - 1, 7);
        lemma_closed(s, j - 1, rank(f));
        lemma_bare(s, i + 1, f, read);
        lemma_lift(s, i + 1, j - 1, e, rank(f), 7, read);
        assert(parse::spaces(s, i + 1) == i + 1);
        assert(parse::spaces(s, j - 1) == j - 1);
        assert(parse::spaces(s, i) == i);
        lemma_words_at(s, i);
        assert(opens(s, i));
        assert(parse::bracketed_at(s, i, read) == Ok::<(ExprView, int), bool>((e, j)));
        assert(parse::primary_at(s, i, read) == Ok::<(ExprView, int), bool>((e, j)));
        lemma_lift(s, i, j, e, 0, r, read);
    }
}

/// A form neither starts nor ends with white space.
proof fn lemma_edges(f: Form, r: int)
    requires
        proper(f),
    ensures
        written(f, r).len() > 0,
        !text::white(written(f, r)[0]),
        !text::white(written(f, r).last()),
    decreases f, 1int,
{
    lemma_bare_edges(f);
    let b = bare(f);
    let w = seq!['('] + (b + seq![')']);
    assert(w[0] == '(' && w.last() == ')');
}

proof fn lemma_bare_edges(f: Form)
    requires
        proper(f),
    ensures
        bare(f).len() > 0,
        !text::white(bare(f)[0]),
        !text::white(bare(f).last()),
    decreases f, 0int,
{
    let w = bare(f);
    match f {
        Form::Name(name) => {
            assert(parse::continues(name[name.len() - 1]));
        },
        Form::Number(whole, part) => {
            assert('0' <= whole[0] && whole[whole.len() - 1] <= '9');
            if part.len() > 0 {
                assert(w[0] == whole[0]);
                assert(w.last() == part[part.len() - 1]);
            }
        },
        Form::Text(t, q) => {
            assert(w[0] == q && w.last() == q);
        },
        Form::Call(name, least, _) => {
            assert(w[0] == call_name(name, least)[0]);
            assert(w.last() == ')');
        },
        Form::Unary(op, sign, a) => {
            lemma_edges(*a, 2);
            lemma_words();
            let inner = written(*a, 2);
            assert(w[0] == sign[0]);
            assert(w.last() == inner[inner.len() - 1]);
            assert(letters(sign, "NOT"@) ==> text::ascii_upper(sign[0]) == 'N');
        },
        Form::Binary(op, sign, a, b) => {
            let (ra, rb) = if op == BinaryOp::Pow {
                (0int, 1int)
            } else {
                (rank_of(op), rank_of(op) - 1)
            };
            lemma_edges(*a, ra);
            lemma_edges(*b, rb);
            let wa = written(*a, ra);
            let wb = written(*b, rb);
            assert(w == wa + (seq![' '] + (sign + (seq![' '] + wb))));
            assert(w[0] == wa[0]);
            assert(w.last() == wb[wb.len() - 1]);
        },
    }
}

/// An expression that is written with brackets only where a looser operator stands
/// below a tighter one, or on the side from which its level does not group, is
/// parsed to what was meant.
pub proof fn law_written_is_read<R: Fn(String) -> Number>(f: Form, read: R)
    requires
        proper(f),
    ensures
        parse::parsed(written(f, 7), read) == Ok::<ExprView, Seq<char>>(meant(f, read)),
{
    let s = written(f, 7);
    lemma_edges(f, 7);
    text_law::lemma_trim_start_nothing(s);
    text_law::lemma_trim_end_nothing(s);
    lemma_closed(s, s.len() as int, 7);
    lemma_read(s, 0, f, 7, read);
}

/// Three names with two operators between them.
pub open spec fn chain(
    a: Seq<char>,
    first: Seq<char>,
    b: Seq<char>,
    second: Seq<char>,
    c: Seq<char>,
) -> Seq<char> {
    a + seq![' '] + first + seq![' '] + b + seq![' '] + second + seq![' '] + c
}

/// Two operators on variables.
pub open spec fn grouped_left(
    a: Seq<char>,
    first: BinaryOp,
    b: Seq<char>,
    second: BinaryOp,
    c: Seq<char>,
) -> ExprView {
    ExprView::Binary(
        second,
        Box::new(
            ExprView::Binary(
                first,
                Box::new(ExprView::Variable(a)),
                Box::new(ExprView::Variable(b)),
            ),
        ),
        Box::new(ExprView::Variable(c)),
    )
}

pub open spec fn grouped_right(
    a: Seq<char>,
    first: BinaryOp,
    b: Seq<char>,
    second: BinaryOp,
    c: Seq<char>,
) -> ExprView {
    ExprView::Binary(
        first,
        Box::new(ExprView::Variable(a)),
        Box::new(
            ExprView::Binary(
                second,
                Box::new(ExprView::Variable(b)),
                Box::new(ExprView::Variable(c)),
            ),
        ),
    )
}

/// Of two operators between three names the one that binds tighter takes the name
/// between them: `a OR b AND c` is `a OR (b AND c)`, and `a AND b OR c` is
/// `(a AND b) OR c`. Operators that bind alike group from the left, powers from the
/// right.
pub proof fn law_precedence<R: Fn(String) -> Number>(
    a: Seq<char>,
    first: (BinaryOp, Seq<char>),
    b: Seq<char>,
    second: (BinaryOp, Seq<char>),
    c: Seq<char>,
    read: R,
)
    requires
        proper_name(a) && proper_name(b) && proper_name(c),
        binary_sign(first.0, first.1),
        binary_sign(second.0, second.1),
    ensures
        parse::parsed(chain(a, first.1, b, second.1, c), read) == Ok::<ExprView, Seq<char>>(
            if rank_of(first.0) < rank_of(second.0) || (rank_of(first.0) == rank_of(second.0)
                && first.0 != BinaryOp::Pow) {
                grouped_left(a, first.0, b, second.0, c)
            } else {
                grouped_right(a, first.0, b, second.0, c)
            },
        ),
{
    if rank_of(first.0) < rank_of(second.0) || (rank_of(first.0) == rank_of(second.0) && first.0
        != BinaryOp::Pow) {
        lemma_chain_left(a, first, b, second, c, read);
    } else {
        lemma_chain_right(a, first, b, second, c, read);
    }
}

proof fn lemma_chain_left<R: Fn(String) -> Number>(
    a: Seq<char>,
    first: (BinaryOp, Seq<char>),
    b: Seq<char>,
    second: (BinaryOp, Seq<char>),
    c: Seq<char>,
    read: R,
)
    requires
        proper_name(a) && proper_name(b) && proper_name(c),
        binary_sign(first.0, first.1),
        binary_sign(second.0, second.1),
        rank_of(first.0) <= rank_of(second.0),
        second.0 != BinaryOp::Pow,
    ensures
        parse::parsed(chain(a, first.1, b, second.1, c), read) == Ok::<ExprView, Seq<char>>(
            grouped_left(a, first.0, b, second.0, c),
        ),
{
    let (x, y, z) = (Form::Name(a), Form::Name(b), Form::Name(c));
    let g = Form::Binary(first.0, first.1, Box::new(x), Box::new(y));
    let f = Form::Binary(second.0, second.1, Box::new(g), Box::new(z));
    lemma_pair(first.0, first.1, x, y);
    lemma_pair(second.0, second.1, g, z);
    lemma_single(a);
    lemma_single(b);
    lemma_single(c);
    let inner = a + (seq![' '] + (first.1 + (seq![' '] + b)));
    assert(written(g, rank_of(second.0)) == inner);
    assert(written(f, 7) == inner + (seq![' '] + (second.1 + (seq![' '] + c))));
    assert(inner + (seq![' '] + (second.1 + (seq![' '] + c))) =~= chain(
        a,
        first.1,
        b,
        second.1,
        c,
    ));
    law_written_is_read(f, read);
    assert(meant(x, read) == ExprView::Variable(a));
    assert(meant(y, read) == ExprView::Variable(b));
    assert(meant(z, read) == ExprView::Variable(c));
    assert(meant(g, read) == ExprView::Binary(
        first.0,
        Box::new(ExprView::Variable(a)),
        Box::new(ExprView::Variable(b)),
    ));
    assert(meant(f, read) == grouped_left(a, first.0, b, second.0, c));
}

proof fn lemma_chain_right<R: Fn(String) -> Number>(
    a: Seq<char>,
    first: (BinaryOp, Seq<char>),
    b: Seq<char>,
    second: (BinaryOp, Seq<char>),
    c: Seq<char>,
    read: R,
)
    requires
        proper_name(a) && proper_name(b) && proper_name(c),
        binary_sign(first.0, first.1),
        binary_sign(second.0, second.1),
        rank_of(first.0) > rank_of(second.0) || (first.0 == BinaryOp::Pow && second.0
            == BinaryOp::Pow),
    ensures
        parse::parsed(chain(a, first.1, b, second.1, c), read) == Ok::<ExprView, Seq<char>>(
            grouped_right(a, first.0, b, second.0, c),
        ),
{
    let (x, y, z) = (Form::Name(a), Form::Name(b), Form::Name(c));
    let g = Form::Binary(second.0, second.1, Box::new(y), Box::new(z));
    let f = Form::Binary(first.0, first.1, Box::new(x), Box::new(g));
    lemma_pair(second.0, second.1, y, z);
    lemma_pair(first.0, first.1, x, g);
    lemma_single(a);
    lemma_single(b);
    lemma_single(c);
    let inner = b + (seq![' '] + (second.1 + (seq![' '] + c)));
    assert(written(g, 7) == inner);
    assert(written(f, 7) == a + (seq![' '] + (first.1 + (seq![' '] + inner))));
    assert(a + (seq![' '] + (first.1 + (seq![' '] + inner))) =~= chain(
        a,
        first.1,
        b,
        second.1,
        c,
    ));
    law_written_is_read(f, read);
    assert(meant(x, read) == ExprView::Variable(a));
    assert(meant(y, read) == ExprView::Variable(b));
    assert(meant(z, read) == ExprView::Variable(c));
    assert(meant(g, read) == ExprView::Binary(
        second.0,
        Box::new(ExprView::Variable(b)),
        Box::new(ExprView::Variable(c)),
    ));
    assert(meant(f, read) == grouped_right(a, first.0, b, second.0, c));
}

/// A name is written as it is.
proof fn lemma_single(name: Seq<char>)
    ensures
        forall|r: int| r >= 0 ==> #[trigger] written(Form::Name(name), r) == name,
{
}

/// How an operator is written.
proof fn lemma_pair(op: BinaryOp, sign: Seq<char>, a: Form, b: Form)
    ensures
        ({
            let f = Form::Binary(op, sign, Box::new(a), Box::new(b));
            let (ra, rb) = if op == BinaryOp::Pow {
                (0int, 1int)
            } else {
                (rank_of(op), rank_of(op) - 1)
            };
            &&& bare(f) == written(a, ra) + (seq![' '] + (sign + (seq![' '] + written(b, rb))))
            &&& forall|r: int| r >= rank_of(op) ==> #[trigger] written(f, r) == bare(f)
            &&& proper(f) == (binary_sign(op, sign) && proper(a) && proper(b))
        }),
{
}

} // verus!
