//! What a reader finds in rendered output: its lines and their fields.
use vstd::prelude::*;

use crate::output;
use crate::output::{OutputView, TableView};
use crate::text;
use crate::text_law;
use crate::text_law::lacks;

verus! {

/// No text holds the character.
pub open spec fn all_lack(v: Seq<Seq<char>>, c: char) -> bool {
    forall|i: int| 0 <= i < v.len() ==> lacks(#[trigger] v[i], c)
}

/// A table whose texts hold no line ends and no tabs.
pub open spec fn plain_table(t: TableView) -> bool {
    &&& lacks(t.title, '\n')
    &&& all_lack(t.column_headers, '\n') && all_lack(t.column_headers, '\t')
    &&& forall|r: int|
        0 <= r < t.rows.len() ==> all_lack(#[trigger] t.rows[r], '\n') && all_lack(t.rows[r], '\t')
    &&& all_lack(t.footnotes, '\n')
}

/// A text ends a line: nothing stands behind its last line end.
spec fn ended(s: Seq<char>, lines: Seq<Seq<char>>) -> bool {
    text::pieces(s, '\n') == lines.push(Seq::empty())
}

proof fn lemma_start()
    ensures
        ended(Seq::empty(), Seq::empty()),
{
    assert(text::pieces(Seq::empty(), '\n') =~= Seq::<Seq<char>>::empty().push(Seq::empty()));
}

proof fn lemma_line(s: Seq<char>, lines: Seq<Seq<char>>, line: Seq<char>)
    requires
        ended(s, lines),
        lacks(line, '\n'),
    ensures
        ended(s + line + "\n"@, lines.push(line)),
{
    reveal_strlit("\n");
    text_law::lemma_pieces_extend(s, line, '\n');
    assert(Seq::empty() + line =~= line);
    assert(lines.push(Seq::empty()).drop_last() =~= lines);
    let t = s + line;
    assert(text::pieces(t, '\n') =~= lines.push(line));
    text_law::lemma_pieces_join(t, Seq::empty(), '\n');
    assert(t + seq!['\n'] + Seq::<char>::empty() =~= t + "\n"@);
}

proof fn lemma_joined_lacks(parts: Seq<Seq<char>>, sep: Seq<char>, c: char)
    requires
        all_lack(parts, c),
        lacks(sep, c),
    ensures
        lacks(text::joined(parts, sep), c),
    decreases parts.len(),
{
    if parts.len() > 1 {
        let before = parts.drop_last();
        assert forall|i: int| 0 <= i < before.len() implies lacks(#[trigger] before[i], c) by {
            assert(lacks(parts[i], c));
        }
        lemma_joined_lacks(before, sep, c);
        assert(lacks(parts[parts.len() - 1], c));
    } else if parts.len() == 1 {
        assert(lacks(parts[0], c));
    }
}

/// The rows of a table, each as a line.
spec fn row_texts(rows: Seq<Seq<Seq<char>>>, n: int) -> Seq<Seq<char>> {
    Seq::new(n as nat, |r: int| text::joined(rows[r], "\t"@))
}

spec fn note_texts(notes: Seq<Seq<char>>, n: int) -> Seq<Seq<char>> {
    Seq::new(n as nat, |i: int| "  * "@ + notes[i])
}

proof fn lemma_rows(s: Seq<char>, lines: Seq<Seq<char>>, t: TableView, n: int)
    requires
        ended(s, lines),
        plain_table(t),
        0 <= n <= t.rows.len(),
    ensures
        ended(s + output::row_lines(t.rows, n), lines + row_texts(t.rows, n)),
    decreases n,
{
    if n > 0 {
        lemma_rows(s, lines, t, n - 1);
        let row = t.rows[n - 1];
        assert(all_lack(row, '\n'));
        reveal_strlit("\t");
        lemma_joined_lacks(row, "\t"@, '\n');
        let line = text::joined(row, "\t"@);
        let before = s + output::row_lines(t.rows, n - 1);
        lemma_line(before, lines + row_texts(t.rows, n - 1), line);
        assert(before + line + "\n"@ =~= s + output::row_lines(t.rows, n));
        assert((lines + row_texts(t.rows, n - 1)).push(line) =~= lines + row_texts(t.rows, n));
    } else {
        assert(s + output::row_lines(t.rows, n) =~= s);
        assert(lines + row_texts(t.rows, n) =~= lines);
    }
}

proof fn lemma_notes(s: Seq<char>, lines: Seq<Seq<char>>, notes: Seq<Seq<char>>, n: int)
    requires
        ended(s, lines),
        all_lack(notes, '\n'),
        0 <= n <= notes.len(),
    ensures
        ended(s + output::note_lines(notes, n), lines + note_texts(notes, n)),
    decreases n,
{
    if n > 0 {
        lemma_notes(s, lines, notes, n - 1);
        reveal_strlit("  * ");
        assert(lacks(notes[n - 1], '\n'));
        let line = "  * "@ + notes[n - 1];
        let before = s + output::note_lines(notes, n - 1);
        lemma_line(before, lines + note_texts(notes, n - 1), line);
        assert(before + line + "\n"@ =~= s + output::note_lines(notes, n));
        assert((lines + note_texts(notes, n - 1)).push(line) =~= lines + note_texts(notes, n));
    } else {
        assert(s + output::note_lines(notes, n) =~= s);
        assert(lines + note_texts(notes, n) =~= lines);
    }
}

/// A line of `n` times one character.
pub open spec fn is_rule(line: Seq<char>, c: char, n: nat) -> bool {
    line.len() == n && forall|i: int| 0 <= i < n ==> #[trigger] line[i] == c
}

/// The lines of a rendered table: an empty one, the title, the headers, a rule as long
/// as they have bytes, a line for each row and a line for each footnote. The tabs of a
/// line part its fields.
pub proof fn law_table_lines(t: TableView)
    requires
        plain_table(t),
    ensures
        ({
            let lines = text::pieces(output::item_text(OutputView::Table(t)), '\n');
            let (r, n) = (t.rows.len() as int, t.footnotes.len() as int);
            &&& lines.len() == 4 + r + n + 1
            &&& lines[0].len() == 0 && lines[4 + r + n].len() == 0
            &&& lines[1] == t.title
            &&& t.column_headers.len() > 0 ==> text::pieces(lines[2], '\t') == t.column_headers
            &&& is_rule(lines[3], '-', text::byte_len(lines[2]))
            &&& forall|i: int|
                0 <= i < r && t.rows[i].len() > 0 ==> text::pieces(#[trigger] lines[4 + i], '\t')
                    == t.rows[i]
            &&& forall|i: int|
                0 <= i < n ==> #[trigger] lines[4 + r + i] == seq![' ', ' ', '*', ' ']
                    + t.footnotes[i]
        }),
{
    reveal_strlit("\n");
    reveal_strlit("\t");
    reveal_strlit("  * ");
    assert("\t"@ =~= seq!['\t']);
    assert("  * "@ =~= seq![' ', ' ', '*', ' ']);
    let header = text::joined(t.column_headers, "\t"@);
    let line = output::rule('-', text::byte_len(header));
    lemma_start();
    let none = Seq::<Seq<char>>::empty();
    let e = Seq::<char>::empty();
    lemma_line(e, none, e);
    let s1 = e + e + "\n"@;
    let l1 = none.push(e);
    lemma_line(s1, l1, t.title);
    let s2 = s1 + t.title + "\n"@;
    let l2 = l1.push(t.title);
    lemma_joined_lacks(t.column_headers, "\t"@, '\n');
    lemma_line(s2, l2, header);
    let s3 = s2 + header + "\n"@;
    let l3 = l2.push(header);
    lemma_line(s3, l3, line);
    let s4 = s3 + line + "\n"@;
    let l4 = l3.push(line);
    let (r, n) = (t.rows.len() as int, t.footnotes.len() as int);
    lemma_rows(s4, l4, t, r);
    let s5 = s4 + output::row_lines(t.rows, r);
    let l5 = l4 + row_texts(t.rows, r);
    lemma_notes(s5, l5, t.footnotes, n);
    let s6 = s5 + output::note_lines(t.footnotes, n);
    assert(output::item_text(OutputView::Table(t)) =~= s6);
    let lines = text::pieces(s6, '\n');
    if t.column_headers.len() > 0 {
        text_law::law_split_undoes_join(t.column_headers, '\t');
    }
    assert forall|i: int| 0 <= i < r && t.rows[i].len() > 0 implies text::pieces(
        #[trigger] lines[4 + i],
        '\t',
    ) == t.rows[i] by {
        assert(all_lack(t.rows[i], '\n') && all_lack(t.rows[i], '\t'));
        text_law::law_split_undoes_join(t.rows[i], '\t');
        assert(lines[4 + i] == text::joined(t.rows[i], "\t"@));
    }
}

/// The lines of a rendered title: an empty one, the title and a rule as long as it has
/// bytes. A note is a line of its own.
pub proof fn law_title_lines(t: Seq<char>)
    requires
        lacks(t, '\n'),
    ensures
        ({
            let lines = text::pieces(output::item_text(OutputView::Title(t)), '\n');
            &&& lines.len() == 4
            &&& lines[0].len() == 0 && lines[3].len() == 0
            &&& lines[1] == t
            &&& is_rule(lines[2], '=', text::byte_len(t))
        }),
        text::pieces(output::item_text(OutputView::Text(t)), '\n') == seq![t, Seq::empty()],
{
    reveal_strlit("\n");
    lemma_start();
    let none = Seq::<Seq<char>>::empty();
    let e = Seq::<char>::empty();
    let line = output::rule('=', text::byte_len(t));
    lemma_line(e, none, t);
    assert(e + t + "\n"@ =~= output::item_text(OutputView::Text(t)));
    assert(none.push(t).push(e) =~= seq![t, e]);
    lemma_line(e, none, e);
    let s1 = e + e + "\n"@;
    let l1 = none.push(e);
    lemma_line(s1, l1, t);
    let s2 = s1 + t + "\n"@;
    let l2 = l1.push(t);
    lemma_line(s2, l2, line);
    assert(s2 + line + "\n"@ =~= output::item_text(OutputView::Title(t)));
}

} // verus!
