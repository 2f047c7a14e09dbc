//! Structured output model and renderer.
use vstd::prelude::*;

use crate::text;
use crate::text::{join, len_of};

verus! {

broadcast use crate::text::lemma_views_push;

/// A single output element.
#[derive(Debug, Clone)]
pub enum OutputItem {
    /// Section heading.
    Title(String),
    /// A statistical table.
    Table(Table),
    /// Plain text note or warning.
    Text(String),
    /// Chart reference (rendered separately).
    Chart { chart_type: String, data: String },
}

/// A table with headers and rows.
#[derive(Debug, Clone)]
pub struct Table {
    pub title: String,
    pub column_headers: Vec<String>,
    pub rows: Vec<Vec<String>>,
    pub footnotes: Vec<String>,
}

/// What an [`OutputItem`] holds.
#[verifier::ext_equal]
pub enum OutputView {
    Title(Seq<char>),
    Table(TableView),
    Text(Seq<char>),
    Chart { chart_type: Seq<char>, data: Seq<char> },
}

/// What a [`Table`] holds.
#[verifier::ext_equal]
pub struct TableView {
    pub title: Seq<char>,
    pub column_headers: Seq<Seq<char>>,
    pub rows: Seq<Seq<Seq<char>>>,
    pub footnotes: Seq<Seq<char>>,
}

/// The texts of several rows.
pub open spec fn row_texts(rows: Seq<Vec<String>>) -> Seq<Seq<Seq<char>>> {
    Seq::new(rows.len(), |i: int| text::views(rows[i]@))
}

impl View for Table {
    type V = TableView;

    open spec fn view(&self) -> TableView {
        TableView {
            title: self.title@,
            column_headers: text::views(self.column_headers@),
            rows: row_texts(self.rows@),
            footnotes: text::views(self.footnotes@),
        }
    }
}

impl View for OutputItem {
    type V = OutputView;

    open spec fn view(&self) -> OutputView {
        match self {
            OutputItem::Title(t) => OutputView::Title(t@),
            OutputItem::Table(t) => OutputView::Table(t@),
            OutputItem::Text(t) => OutputView::Text(t@),
            OutputItem::Chart { chart_type, data } => OutputView::Chart {
                chart_type: chart_type@,
                data: data@,
            },
        }
    }
}

/// A line of one character.
pub open spec fn rule(c: char, n: nat) -> Seq<char> {
    Seq::new(n, |i: int| c)
}

/// The first `n` rows of a table as lines.
pub open spec fn row_lines(rows: Seq<Seq<Seq<char>>>, n: int) -> Seq<char>
    decreases n,
{
    if n <= 0 {
        Seq::empty()
    } else {
        row_lines(rows, n - 1) + text::joined(rows[n - 1], "\t"@) + "\n"@
    }
}

/// The first `n` footnotes as lines.
pub open spec fn note_lines(notes: Seq<Seq<char>>, n: int) -> Seq<char>
    decreases n,
{
    if n <= 0 {
        Seq::empty()
    } else {
        note_lines(notes, n - 1) + "  * "@ + notes[n - 1] + "\n"@
    }
}

/// A table as text: its title, the headers, a rule as long as they have bytes, the
/// rows and the footnotes.
pub open spec fn table_text(t: TableView) -> Seq<char> {
    let header = text::joined(t.column_headers, "\t"@);
    "\n"@ + t.title + "\n"@ + header + "\n"@ + rule('-', text::byte_len(header)) + "\n"@
        + row_lines(t.rows, t.rows.len() as int) + note_lines(t.footnotes, t.footnotes.len() as int)
}

/// An element as text. A title has a rule as long as it has bytes.
pub open spec fn item_text(item: OutputView) -> Seq<char> {
    match item {
        OutputView::Title(t) => "\n"@ + t + "\n"@ + rule('=', text::byte_len(t)) + "\n"@,
        OutputView::Table(t) => table_text(t),
        OutputView::Text(t) => t + "\n"@,
        OutputView::Chart { chart_type, data } => "[Chart: "@ + chart_type + "]\n"@,
    }
}

/// The first `n` elements as text, one after another.
pub open spec fn rendered(items: Seq<OutputView>, n: int) -> Seq<char>
    decreases n,
{
    if n <= 0 {
        Seq::empty()
    } else {
        rendered(items, n - 1) + item_text(items[n - 1])
    }
}

/// The text of elements that come after others comes after their text.
pub proof fn law_rendered_concat(a: Seq<OutputView>, b: Seq<OutputView>, n: int)
    requires
        0 <= n <= b.len(),
    ensures
        rendered(a + b, a.len() + n) == rendered(a, a.len() as int) + rendered(b, n),
    decreases n,
{
    if n == 0 {
        lemma_rendered_prefix(a, b, a.len() as int);
        assert(rendered(a, a.len() as int) + rendered(b, 0) =~= rendered(a, a.len() as int));
    } else {
        law_rendered_concat(a, b, n - 1);
        assert((a + b)[a.len() + n - 1] == b[n - 1]);
        assert(rendered(a, a.len() as int) + rendered(b, n) =~= (rendered(a, a.len() as int)
            + rendered(b, n - 1)) + item_text(b[n - 1]));
    }
}

proof fn lemma_rendered_prefix(a: Seq<OutputView>, b: Seq<OutputView>, n: int)
    requires
        0 <= n <= a.len(),
    ensures
        rendered(a + b, n) == rendered(a, n),
    decreases n,
{
    if n > 0 {
        lemma_rendered_prefix(a, b, n - 1);
        assert((a + b)[n - 1] == a[n - 1]);
    }
}

/// Appends a line of one character.
fn push_rule(out: &mut String, c: char, n: usize)
    ensures
        final(out)@ == old(out)@ + rule(c, n as nat),
{
    let ghost before = out@;
    let mut i: usize = 0;
    proof {
        assert(before + rule(c, 0) =~= before);
    }
    while i < n
        invariant
            i <= n,
            before == old(out)@,
            out@ == before + rule(c, i as nat),
        decreases n - i,
    {
        out.push(c);
        proof {
            assert(out@ =~= before + rule(c, (i + 1) as nat));
        }
        i = i + 1;
    }
}

/// Appends the rows of a table.
fn push_rows(out: &mut String, rows: &Vec<Vec<String>>)
    ensures
        final(out)@ == old(out)@ + row_lines(row_texts(rows@), rows@.len() as int),
{
    let ghost before = out@;
    let ghost rv = row_texts(rows@);
    let mut i: usize = 0;
    proof {
        assert(before + row_lines(rv, 0) =~= before);
    }
    while i < rows.len()
        invariant
            i <= rows@.len(),
            before == old(out)@,
            rv == row_texts(rows@),
            out@ == before + row_lines(rv, i as int),
        decreases rows@.len() - i,
    {
        let line = join(&rows[i], "\t");
        out.append(line.as_str());
        out.append("\n");
        proof {
            let done = row_lines(rv, i as int);
            assert(rv[i as int] == text::views(rows@[i as int]@));
            assert(((before + done) + line@) + "\n"@ =~= before + ((done + line@) + "\n"@));
        }
        i = i + 1;
    }
}

/// Appends the footnotes of a table.
fn push_notes(out: &mut String, notes: &Vec<String>)
    ensures
        final(out)@ == old(out)@ + note_lines(text::views(notes@), notes@.len() as int),
{
    let ghost before = out@;
    let ghost nv = text::views(notes@);
    let mut i: usize = 0;
    proof {
        assert(before + note_lines(nv, 0) =~= before);
    }
    while i < notes.len()
        invariant
            i <= notes@.len(),
            before == old(out)@,
            nv == text::views(notes@),
            out@ == before + note_lines(nv, i as int),
        decreases notes@.len() - i,
    {
        out.append("  * ");
        out.append(notes[i].as_str());
        out.append("\n");
        proof {
            let done = note_lines(nv, i as int);
            let note = nv[i as int];
            assert(((before + done) + "  * "@ + note) + "\n"@ =~= before + (((done + "  * "@) + note)
                + "\n"@));
        }
        i = i + 1;
    }
}

/// Appends a table.
fn push_table(out: &mut String, table: &Table)
    ensures
        final(out)@ == old(out)@ + table_text(table@),
{
    let ghost before = out@;
    let header = join(&table.column_headers, "\t");
    out.append("\n");
    out.append(table.title.as_str());
    out.append("\n");
    out.append(header.as_str());
    out.append("\n");
    push_rule(out, '-', len_of(header.as_str()));
    out.append("\n");
    push_rows(out, &table.rows);
    push_notes(out, &table.footnotes);
    proof {
        assert(out@ =~= before + table_text(table@));
    }
}

/// Render output items to plain text.
pub fn render_text(items: &[OutputItem]) -> (r: String)
    ensures
        r@ == rendered(text::views(items@), items@.len() as int),
{
    let ghost iv = text::views(items@);
    let mut out = String::new();
    let mut i: usize = 0;
    proof {
        assert(out@ =~= rendered(iv, 0));
    }
    while i < items.len()
        invariant
            i <= items@.len(),
            iv == text::views(items@),
            out@ == rendered(iv, i as int),
        decreases items@.len() - i,
    {
        let ghost before = out@;
        proof {
            assert(iv[i as int] == items@[i as int]@);
        }
        match &items[i] {
            OutputItem::Title(t) => {
                out.append("\n");
                out.append(t.as_str());
                out.append("\n");
                push_rule(&mut out, '=', len_of(t.as_str()));
                out.append("\n");
            },
            OutputItem::Table(t) => {
                push_table(&mut out, t);
            },
            OutputItem::Text(t) => {
                out.append(t.as_str());
                out.append("\n");
            },
            OutputItem::Chart { chart_type, data: _ } => {
                out.append("[Chart: ");
                out.append(chart_type.as_str());
                out.append("]\n");
            },
        }
        proof {
            assert(out@ =~= before + item_text(iv[i as int]));
        }
        i = i + 1;
    }
    out
}

} // verus!
