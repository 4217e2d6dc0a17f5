//! Writing a document out as plain text or as Markdown.

use vstd::prelude::*;
use crate::document::{Run, RunView, runs_view, Document, DocBlock, BlockView, TableBlock, TableView, CellView};
use crate::text::{trim_ws, str_trim, chars_of, string_from_chars, extend_chars};
use crate::grid::column_count_of;

verus! {

/// The texts of runs, one after another.
pub open spec fn concat_text(runs: Seq<RunView>) -> Seq<char>
    decreases runs.len(),
{
    if runs.len() == 0 {
        Seq::empty()
    } else {
        concat_text(runs.drop_last()) + runs.last().text
    }
}

/// Line feeds replaced by spaces.
pub open spec fn newlines_to_spaces(s: Seq<char>) -> Seq<char> {
    s.map_values(|c: char| if c == '\n' { ' ' } else { c })
}

/// The plain text of runs; line feeds become spaces unless kept.
pub open spec fn plain_text(runs: Seq<RunView>, keep_newlines: bool) -> Seq<char> {
    if keep_newlines {
        concat_text(runs)
    } else {
        newlines_to_spaces(concat_text(runs))
    }
}

/// A run in Markdown: text that is only white space stays as it is; other
/// text is wrapped in `_` when italic, then `**` when bold, then `<u>` and
/// `</u>` when underlined.
pub open spec fn run_markup(r: RunView, keep_newlines: bool) -> Seq<char> {
    let t = if keep_newlines { r.text } else { newlines_to_spaces(r.text) };
    if trim_ws(t).len() == 0 {
        t
    } else {
        let t1 = if r.italic { seq!['_'] + t + seq!['_'] } else { t };
        let t2 = if r.bold { seq!['*', '*'] + t1 + seq!['*', '*'] } else { t1 };
        if r.underline { seq!['<', 'u', '>'] + t2 + seq!['<', '/', 'u', '>'] } else { t2 }
    }
}

/// The Markdown of runs, one after another.
pub open spec fn markup_text(runs: Seq<RunView>, keep_newlines: bool) -> Seq<char>
    decreases runs.len(),
{
    if runs.len() == 0 {
        Seq::empty()
    } else {
        markup_text(runs.drop_last(), keep_newlines) + run_markup(runs.last(), keep_newlines)
    }
}

/// What one character becomes in a table cell: a line feed becomes
/// `<br>`, a bar is escaped.
pub open spec fn escaped_char(c: char) -> Seq<char> {
    if c == '\n' {
        seq!['<', 'b', 'r', '>']
    } else if c == '|' {
        seq!['\\', '|']
    } else {
        seq![c]
    }
}

/// Text made safe for a Markdown table cell.
pub open spec fn escape_cell(s: Seq<char>) -> Seq<char>
    decreases s.len(),
{
    if s.len() == 0 {
        Seq::empty()
    } else {
        escape_cell(s.drop_last()) + escaped_char(s.last())
    }
}

/// The parts with the separator between each two.
pub open spec fn join(parts: Seq<Seq<char>>, sep: Seq<char>) -> Seq<char>
    decreases parts.len(),
{
    if parts.len() == 0 {
        Seq::empty()
    } else if parts.len() == 1 {
        parts[0]
    } else {
        join(parts.drop_last(), sep) + sep + parts.last()
    }
}

/// `n` hash signs.
pub open spec fn hashes(n: nat) -> Seq<char> {
    Seq::new(n, |i: int| '#')
}

/// A block as plain text.  A paragraph is its text and a blank line; a
/// heading the same after as many `#` as its level (at least one); a page
/// break a rule of 40 dashes; a table one line per row with the cells'
/// text (line feeds as spaces) between ` | `, then a blank line.
pub open spec fn block_text(b: BlockView) -> Seq<char> {
    match b {
        BlockView::Paragraph(p) => plain_text(p, true) + seq!['\n', '\n'],
        BlockView::Heading(p, level) =>
            hashes(if level < 1 { 1nat } else { level as nat }) + seq![' '] + plain_text(p, true) + seq!['\n', '\n'],
        BlockView::PageBreak => Seq::new(40, |i: int| '-') + seq!['\n', '\n'],
        BlockView::Table(t) => rows_text(t.rows, t.rows.len()) + seq!['\n'],
    }
}

/// The text of the cells of a row.
pub open spec fn cells_text(cells: Seq<CellView>) -> Seq<Seq<char>> {
    cells.map_values(|c: CellView| plain_text(c.runs, false))
}

/// The first `n` rows of a table as plain text.
pub open spec fn rows_text(rows: Seq<Seq<CellView>>, n: nat) -> Seq<char>
    decreases n,
{
    if n == 0 {
        Seq::empty()
    } else {
        rows_text(rows, (n - 1) as nat) + join(cells_text(rows[n - 1]), seq![' ', '|', ' ']) + seq!['\n']
    }
}

/// A document as plain text: its blocks one after another.
pub open spec fn document_text(blocks: Seq<BlockView>) -> Seq<char>
    decreases blocks.len(),
{
    if blocks.len() == 0 {
        Seq::empty()
    } else {
        document_text(blocks.drop_last()) + block_text(blocks.last())
    }
}

/// The cells of a row padded with empty cells (or cut) to `count`.
pub open spec fn padded(cells: Seq<Seq<char>>, count: nat) -> Seq<Seq<char>> {
    Seq::new(count, |i: int| if i < cells.len() { cells[i] } else { Seq::<char>::empty() })
}

/// A Markdown table row.
pub open spec fn markdown_row(cells: Seq<Seq<char>>, count: nat) -> Seq<char> {
    seq!['|', ' '] + join(padded(cells, count), seq![' ', '|', ' ']) + seq![' ', '|', '\n']
}

/// The Markdown of the cells of a row, escaped.
pub open spec fn cells_markdown(cells: Seq<CellView>) -> Seq<Seq<char>> {
    cells.map_values(|c: CellView| escape_cell(markup_text(c.runs, false)))
}

/// The row that separates a Markdown table's header.
pub open spec fn separator_cells(count: nat) -> Seq<Seq<char>> {
    Seq::new(count, |i: int| seq!['-', '-', '-'])
}

/// The first `n` rows of a table in Markdown; the first row is followed by
/// the separator row.
pub open spec fn rows_markdown(rows: Seq<Seq<CellView>>, n: nat, count: nat) -> Seq<char>
    decreases n,
{
    if n == 0 {
        Seq::empty()
    } else {
        rows_markdown(rows, (n - 1) as nat, count) + markdown_row(cells_markdown(rows[n - 1]), count)
            + if n == 1 { markdown_row(separator_cells(count), count) } else { Seq::empty() }
    }
}

/// A table in Markdown: nothing for a table without columns.
pub open spec fn table_markdown(t: TableView) -> Seq<char> {
    let count = column_count_of(t);
    if count == 0 {
        Seq::empty()
    } else {
        rows_markdown(t.rows, t.rows.len(), count)
    }
}

/// A block in Markdown.  A heading gets as many `#` as its level, from 1
/// to 6; a page break is `---`; a table is followed by a blank line.
pub open spec fn block_markdown(b: BlockView) -> Seq<char> {
    match b {
        BlockView::Paragraph(p) => markup_text(p, true) + seq!['\n', '\n'],
        BlockView::Heading(p, level) =>
            hashes(if level < 1 { 1nat } else if level > 6 { 6nat } else { level as nat }) + seq![' ']
                + markup_text(p, true) + seq!['\n', '\n'],
        BlockView::PageBreak => seq!['-', '-', '-', '\n', '\n'],
        BlockView::Table(t) => table_markdown(t) + seq!['\n'],
    }
}

/// A document in Markdown: its blocks one after another.
pub open spec fn document_markdown(blocks: Seq<BlockView>) -> Seq<char>
    decreases blocks.len(),
{
    if blocks.len() == 0 {
        Seq::empty()
    } else {
        document_markdown(blocks.drop_last()) + block_markdown(blocks.last())
    }
}

/// Appends `n` copies of `c`.
fn push_n(out: &mut Vec<char>, c: char, n: usize)
    ensures
        final(out)@ == old(out)@ + Seq::new(n as nat, |i: int| c),
{
    let ghost start = out@;
    let mut k: usize = 0;
    while k < n
        invariant
            k <= n,
            out@ == start + Seq::new(k as nat, |i: int| c),
        decreases n - k,
    {
        out.push(c);
        k = k + 1;
        assert(out@ =~= start + Seq::new(k as nat, |i: int| c));
    }
}

/// Appends `t` with line feeds turned into spaces unless they are kept.
fn push_text(out: &mut Vec<char>, t: &[char], keep_newlines: bool)
    ensures
        final(out)@ == old(out)@ + (if keep_newlines { t@ } else { newlines_to_spaces(t@) }),
{
    let ghost start = out@;
    let ghost target = if keep_newlines { t@ } else { newlines_to_spaces(t@) };
    let mut i: usize = 0;
    while i < t.len()
        invariant
            i <= t.len(),
            target == (if keep_newlines { t@ } else { newlines_to_spaces(t@) }),
            out@ == start + target.take(i as int),
        decreases t.len() - i,
    {
        let c = t[i];
        let d = if !keep_newlines && c == '\n' { ' ' } else { c };
        out.push(d);
        i = i + 1;
        assert(out@ =~= start + target.take(i as int));
    }
    assert(target.take(i as int) =~= target);
}

/// The plain text of runs, line feeds kept or turned into spaces.
fn run_text(runs: &[Run], keep_newlines: bool) -> (s: Vec<char>)
    ensures
        s@ == plain_text(runs_view(runs@), keep_newlines),
{
    let ghost rv = runs_view(runs@);
    let mut out: Vec<char> = Vec::new();
    let mut i: usize = 0;
    assert(rv.take(0) =~= Seq::<RunView>::empty());
    while i < runs.len()
        invariant
            i <= runs.len(),
            rv == runs_view(runs@),
            out@ == plain_text(rv.take(i as int), keep_newlines),
        decreases runs.len() - i,
    {
        let t = chars_of(runs[i].text.as_str());
        let ghost before = out@;
        push_text(&mut out, t.as_slice(), keep_newlines);
        assert(rv.take(i + 1).drop_last() =~= rv.take(i as int));
        assert(rv[i as int].text == t@);
        assert(newlines_to_spaces(concat_text(rv.take(i as int)) + t@) =~=
            newlines_to_spaces(concat_text(rv.take(i as int))) + newlines_to_spaces(t@));
        i = i + 1;
    }
    assert(rv.take(i as int) =~= rv);
    out
}

fn run_markup_chars(run: &Run, keep_newlines: bool) -> (s: Vec<char>)
    ensures
        s@ == run_markup(run@, keep_newlines),
{
    let raw = chars_of(run.text.as_str());
    let mut t: Vec<char> = Vec::new();
    push_text(&mut t, raw.as_slice(), keep_newlines);
    assert(t@ =~= (if keep_newlines { run@.text } else { newlines_to_spaces(run@.text) }));
    let ts = string_from_chars(t.as_slice());
    let trimmed = chars_of(str_trim(ts.as_str()));
    if trimmed.len() == 0 {
        return t;
    }
    let mut t1: Vec<char> = Vec::new();
    if run.italic {
        t1.push('_');
        extend_chars(&mut t1, t.as_slice());
        t1.push('_');
    } else {
        extend_chars(&mut t1, t.as_slice());
    }
    let mut t2: Vec<char> = Vec::new();
    if run.bold {
        extend_chars(&mut t2, &['*', '*']);
        extend_chars(&mut t2, t1.as_slice());
        extend_chars(&mut t2, &['*', '*']);
    } else {
        extend_chars(&mut t2, t1.as_slice());
    }
    let mut t3: Vec<char> = Vec::new();
    if run.underline {
        extend_chars(&mut t3, &['<', 'u', '>']);
        extend_chars(&mut t3, t2.as_slice());
        extend_chars(&mut t3, &['<', '/', 'u', '>']);
    } else {
        extend_chars(&mut t3, t2.as_slice());
    }
    assert(t1@ =~= (if run.italic { seq!['_'] + t@ + seq!['_'] } else { t@ }));
    assert(t2@ =~= (if run.bold { seq!['*', '*'] + t1@ + seq!['*', '*'] } else { t1@ }));
    assert(t3@ =~= (if run.underline { seq!['<', 'u', '>'] + t2@ + seq!['<', '/', 'u', '>'] } else { t2@ }));
    t3
}

/// The Markdown of runs.
fn run_markdown(runs: &[Run], keep_newlines: bool) -> (s: Vec<char>)
    ensures
        s@ == markup_text(runs_view(runs@), keep_newlines),
{
    let ghost rv = runs_view(runs@);
    let mut out: Vec<char> = Vec::new();
    let mut i: usize = 0;
    assert(rv.take(0) =~= Seq::<RunView>::empty());
    while i < runs.len()
        invariant
            i <= runs.len(),
            rv == runs_view(runs@),
            out@ == markup_text(rv.take(i as int), keep_newlines),
        decreases runs.len() - i,
    {
        let m = run_markup_chars(&runs[i], keep_newlines);
        extend_chars(&mut out, m.as_slice());
        assert(rv.take(i + 1).drop_last() =~= rv.take(i as int));
        assert(rv[i as int] == runs@[i as int]@);
        i = i + 1;
    }
    assert(rv.take(i as int) =~= rv);
    out
}

/// Text made safe for a Markdown table cell: line feeds become `<br>` and
/// bars are escaped with a backslash.
pub fn escape_table_cell(text: &str) -> (r: String)
    ensures
        r@ == escape_cell(text@),
{
    let t = chars_of(text);
    let mut out: Vec<char> = Vec::new();
    let mut i: usize = 0;
    assert(t@.take(0) =~= Seq::<char>::empty());
    while i < t.len()
        invariant
            i <= t.len(),
            t@ == text@,
            out@ == escape_cell(t@.take(i as int)),
        decreases t.len() - i,
    {
        let c = t[i];
        if c == '\n' {
            extend_chars(&mut out, &['<', 'b', 'r', '>']);
        } else if c == '|' {
            extend_chars(&mut out, &['\\', '|']);
        } else {
            out.push(c);
        }
        assert(t@.take(i + 1).drop_last() =~= t@.take(i as int));
        i = i + 1;
        assert(out@ =~= escape_cell(t@.take(i as int)));
    }
    assert(t@.take(i as int) =~= t@);
    string_from_chars(out.as_slice())
}

/// Appends the parts with the separator between each two.
fn push_joined(out: &mut Vec<char>, parts: &Vec<Vec<char>>, sep: &[char])
    ensures
        final(out)@ == old(out)@ + join(parts@.map_values(|p: Vec<char>| p@), sep@),
{
    let ghost start = out@;
    let ghost pv = parts@.map_values(|p: Vec<char>| p@);
    let mut i: usize = 0;
    assert(pv.take(0) =~= Seq::<Seq<char>>::empty());
    while i < parts.len()
        invariant
            i <= parts.len(),
            pv == parts@.map_values(|p: Vec<char>| p@),
            out@ == start + join(pv.take(i as int), sep@),
        decreases parts.len() - i,
    {
        if i > 0 {
            extend_chars(out, sep);
        }
        extend_chars(out, parts[i].as_slice());
        assert(pv.take(i + 1).drop_last() =~= pv.take(i as int));
        assert(pv[i as int] == parts@[i as int]@);
        if i == 0 {
            assert(pv.take(1)[0] == pv[0]);
        }
        i = i + 1;
        assert(out@ =~= start + join(pv.take(i as int), sep@));
    }
    assert(pv.take(i as int) =~= pv);
}

/// Appends a Markdown table row of `count` cells.
fn push_markdown_row(out: &mut Vec<char>, cells: &Vec<Vec<char>>, count: usize)
    ensures
        final(out)@ == old(out)@ + markdown_row(cells@.map_values(|p: Vec<char>| p@), count as nat),
{
    let ghost cv = cells@.map_values(|p: Vec<char>| p@);
    let mut row: Vec<Vec<char>> = Vec::new();
    let mut i: usize = 0;
    while i < count
        invariant
            i <= count,
            cv == cells@.map_values(|p: Vec<char>| p@),
            row@.map_values(|p: Vec<char>| p@) == padded(cv, count as nat).take(i as int),
        decreases count - i,
    {
        let cell: Vec<char> = if i < cells.len() { cells[i].clone() } else { Vec::new() };
        proof {
            if (i as int) < cells@.len() {
                assert(cell@ == cells@[i as int]@);
            }
        }
        let ghost before = row@;
        let ghost cv_i = cell@;
        row.push(cell);
        assert(row@.map_values(|p: Vec<char>| p@) =~= before.map_values(|p: Vec<char>| p@).push(cv_i));
        assert(padded(cv, count as nat).take(i + 1) =~= padded(cv, count as nat).take(i as int).push(padded(cv, count as nat)[i as int]));
        assert(row@.map_values(|p: Vec<char>| p@) =~= padded(cv, count as nat).take(i + 1));
        i = i + 1;
    }
    assert(padded(cv, count as nat).take(i as int) =~= padded(cv, count as nat));
    let ghost start = out@;
    extend_chars(out, &['|', ' ']);
    push_joined(out, &row, &[' ', '|', ' ']);
    extend_chars(out, &[' ', '|', '\n']);
    assert(out@ =~= start + markdown_row(cv, count as nat));
}

fn table_column_count(table: &TableBlock) -> (r: usize)
    ensures
        r == column_count_of(table@),
{
    let ghost rows = table@.rows;
    let mut m: usize = 0;
    let mut i: usize = 0;
    assert(rows.take(0) =~= Seq::<Seq<CellView>>::empty());
    while i < table.rows.len()
        invariant
            i <= table.rows.len(),
            rows == table@.rows,
            m == crate::grid::max_cells(rows.take(i as int)),
        decreases table.rows.len() - i,
    {
        assert(rows.take(i + 1).drop_last() =~= rows.take(i as int));
        assert(rows[i as int] == table.rows@[i as int]@);
        if table.rows[i].cells.len() > m {
            m = table.rows[i].cells.len();
        }
        i = i + 1;
    }
    assert(rows.take(i as int) =~= rows);
    if table.column_widths.len() > m { table.column_widths.len() } else { m }
}

/// A table in Markdown: a header row from the first row, a separator row,
/// then the other rows, each padded to the table's columns; cells are
/// escaped.  A table without columns gives nothing.
pub fn table_to_markdown(table: &TableBlock) -> (r: String)
    ensures
        r@ == table_markdown(table@),
{
    let column_count = table_column_count(table);
    let ghost t = table@;
    if column_count == 0 {
        let r = String::new();
        return r;
    }
    let mut out: Vec<char> = Vec::new();
    let mut k: usize = 0;
    while k < table.rows.len()
        invariant
            k <= table.rows.len(),
            t == table@,
            column_count == column_count_of(t),
            out@ == rows_markdown(t.rows, k as nat, column_count as nat),
        decreases table.rows.len() - k,
    {
        let row = &table.rows[k];
        let mut cells: Vec<Vec<char>> = Vec::new();
        let mut j: usize = 0;
        let ghost target = cells_markdown(t.rows[k as int]);
        assert(t.rows[k as int] == row@);
        while j < row.cells.len()
            invariant
                j <= row.cells.len(),
                target == cells_markdown(row@),
                cells@.map_values(|p: Vec<char>| p@) == target.take(j as int),
            decreases row.cells.len() - j,
        {
            let m = run_markdown(row.cells[j].runs.as_slice(), false);
            let e = escape_table_cell(string_from_chars(m.as_slice()).as_str());
            let ec = chars_of(e.as_str());
            assert(row@[j as int] == row.cells@[j as int]@);
            let ghost before = cells@;
            let ghost x = ec@;
            cells.push(ec);
            assert(cells@.map_values(|p: Vec<char>| p@) =~= before.map_values(|p: Vec<char>| p@).push(x));
            assert(target.take(j + 1) =~= target.take(j as int).push(target[j as int]));
            assert(cells@.map_values(|p: Vec<char>| p@) =~= target.take(j + 1));
            j = j + 1;
        }
        assert(target.take(j as int) =~= target);
        let ghost before = out@;
        push_markdown_row(&mut out, &cells, column_count);
        if k == 0 {
            let mut sep: Vec<Vec<char>> = Vec::new();
            let mut s: usize = 0;
            while s < column_count
                invariant
                    s <= column_count,
                    sep@.map_values(|p: Vec<char>| p@) == separator_cells(column_count as nat).take(s as int),
                decreases column_count - s,
            {
                let dashes: Vec<char> = vec!['-', '-', '-'];
                let ghost before = sep@;
                let ghost x = dashes@;
                assert(x =~= seq!['-', '-', '-']);
                sep.push(dashes);
                assert(sep@.map_values(|p: Vec<char>| p@) =~= before.map_values(|p: Vec<char>| p@).push(x));
                assert(sep@.map_values(|p: Vec<char>| p@) =~= separator_cells(column_count as nat).take(s + 1));
                s = s + 1;
            }
            assert(separator_cells(column_count as nat).take(s as int) =~= separator_cells(column_count as nat));
            push_markdown_row(&mut out, &sep, column_count);
        }
        k = k + 1;
        assert(out@ =~= rows_markdown(t.rows, k as nat, column_count as nat));
    }
    string_from_chars(out.as_slice())
}

/// A document as plain text.
pub fn document_to_text(document: &Document) -> (r: String)
    ensures
        r@ == document_text(document@),
{
    let ghost blocks = document@;
    let mut out: Vec<char> = Vec::new();
    let mut i: usize = 0;
    assert(blocks.take(0) =~= Seq::<BlockView>::empty());
    while i < document.blocks.len()
        invariant
            i <= document.blocks.len(),
            blocks == document@,
            out@ == document_text(blocks.take(i as int)),
        decreases document.blocks.len() - i,
    {
        let ghost before = out@;
        assert(blocks[i as int] == document.blocks@[i as int]@);
        match &document.blocks[i] {
            DocBlock::Paragraph(paragraph) => {
                let t = run_text(paragraph.runs.as_slice(), true);
                extend_chars(&mut out, t.as_slice());
                extend_chars(&mut out, &['\n', '\n']);
            },
            DocBlock::Heading(heading, level) => {
                let n: usize = if *level < 1 { 1 } else { *level as usize };
                push_n(&mut out, '#', n);
                out.push(' ');
                let t = run_text(heading.runs.as_slice(), true);
                extend_chars(&mut out, t.as_slice());
                extend_chars(&mut out, &['\n', '\n']);
            },
            DocBlock::PageBreak => {
                push_n(&mut out, '-', 40);
                extend_chars(&mut out, &['\n', '\n']);
            },
            DocBlock::Table(table) => {
                let ghost rows = table@.rows;
                let mut k: usize = 0;
                while k < table.rows.len()
                    invariant
                        k <= table.rows.len(),
                        rows == table@.rows,
                        out@ == before + rows_text(rows, k as nat),
                    decreases table.rows.len() - k,
                {
                    let row = &table.rows[k];
                    let mut cells: Vec<Vec<char>> = Vec::new();
                    let mut j: usize = 0;
                    let ghost target = cells_text(rows[k as int]);
                    assert(rows[k as int] == row@);
                    while j < row.cells.len()
                        invariant
                            j <= row.cells.len(),
                            target == cells_text(row@),
                            cells@.map_values(|p: Vec<char>| p@) == target.take(j as int),
                        decreases row.cells.len() - j,
                    {
                        let c = run_text(row.cells[j].runs.as_slice(), false);
                        assert(row@[j as int] == row.cells@[j as int]@);
                        let ghost before = cells@;
                        let ghost x = c@;
                        cells.push(c);
                        assert(cells@.map_values(|p: Vec<char>| p@) =~= before.map_values(|p: Vec<char>| p@).push(x));
                        assert(target.take(j + 1) =~= target.take(j as int).push(target[j as int]));
                        assert(cells@.map_values(|p: Vec<char>| p@) =~= target.take(j + 1));
                        j = j + 1;
                    }
                    assert(target.take(j as int) =~= target);
                    push_joined(&mut out, &cells, &[' ', '|', ' ']);
                    out.push('\n');
                    k = k + 1;
                    assert(out@ =~= before + rows_text(rows, k as nat));
                }
                out.push('\n');
            },
        }
        assert(out@ =~= before + block_text(blocks[i as int]));
        assert(blocks.take(i + 1).drop_last() =~= blocks.take(i as int));
        i = i + 1;
    }
    assert(blocks.take(i as int) =~= blocks);
    string_from_chars(out.as_slice())
}

/// A document in Markdown.
pub fn document_to_markdown(document: &Document) -> (r: String)
    ensures
        r@ == document_markdown(document@),
{
    let ghost blocks = document@;
    let mut out: Vec<char> = Vec::new();
    let mut i: usize = 0;
    assert(blocks.take(0) =~= Seq::<BlockView>::empty());
    while i < document.blocks.len()
        invariant
            i <= document.blocks.len(),
            blocks == document@,
            out@ == document_markdown(blocks.take(i as int)),
        decreases document.blocks.len() - i,
    {
        let ghost before = out@;
        assert(blocks[i as int] == document.blocks@[i as int]@);
        match &document.blocks[i] {
            DocBlock::Paragraph(paragraph) => {
                let t = run_markdown(paragraph.runs.as_slice(), true);
                extend_chars(&mut out, t.as_slice());
                extend_chars(&mut out, &['\n', '\n']);
            },
            DocBlock::Heading(heading, level) => {
                let n: usize = if *level < 1 { 1 } else if *level > 6 { 6 } else { *level as usize };
                push_n(&mut out, '#', n);
                out.push(' ');
                let t = run_markdown(heading.runs.as_slice(), true);
                extend_chars(&mut out, t.as_slice());
                extend_chars(&mut out, &['\n', '\n']);
            },
            DocBlock::PageBreak => {
                extend_chars(&mut out, &['-', '-', '-', '\n', '\n']);
            },
            DocBlock::Table(table) => {
                let t = table_to_markdown(table);
                let tc = chars_of(t.as_str());
                extend_chars(&mut out, tc.as_slice());
                out.push('\n');
            },
        }
        assert(out@ =~= before + block_markdown(blocks[i as int]));
        assert(blocks.take(i + 1).drop_last() =~= blocks.take(i as int));
        i = i + 1;
    }
    assert(blocks.take(i as int) =~= blocks);
    string_from_chars(out.as_slice())
}

/// An escaped cell holds no line feed, and each of its bars is preceded
/// by a backslash.
pub proof fn law_escaped_cell_is_one_line(s: Seq<char>)
    ensures
        forall|i: int| 0 <= i < escape_cell(s).len() ==> #[trigger] escape_cell(s)[i] != '\n',
        forall|i: int| 0 <= i < escape_cell(s).len() && #[trigger] escape_cell(s)[i] == '|' ==> i > 0 && escape_cell(s)[i - 1] == '\\',
    decreases s.len(),
{
    if s.len() > 0 {
        law_escaped_cell_is_one_line(s.drop_last());
        let p = escape_cell(s.drop_last());
        let e = escaped_char(s.last());
        let t = escape_cell(s);
        assert(t == p + e);
        assert forall|i: int| 0 <= i < t.len() implies #[trigger] t[i] != '\n' by {
            if i < p.len() {
                assert(t[i] == p[i]);
            } else {
                assert(t[i] == e[i - p.len()]);
            }
        }
        assert forall|i: int| 0 <= i < t.len() && #[trigger] t[i] == '|' implies i > 0 && t[i - 1] == '\\' by {
            if i < p.len() {
                assert(t[i] == p[i]);
                assert(t[i - 1] == p[i - 1]);
            } else {
                assert(t[i] == e[i - p.len()]);
                if s.last() == '|' {
                    assert(i - p.len() == 1);
                    assert(t[i - 1] == e[0]);
                }
            }
        }
    } else {
        assert(escape_cell(s) =~= Seq::<char>::empty());
    }
}

/// The text of a document made of two parts is the text of the first
/// part followed by that of the second: blocks are written independently.
pub proof fn law_document_text_concatenates(a: Seq<BlockView>, b: Seq<BlockView>)
    ensures
        document_text(a + b) == document_text(a) + document_text(b),
    decreases b.len(),
{
    if b.len() == 0 {
        assert(a + b =~= a);
        assert(document_text(b) =~= Seq::<char>::empty());
        assert(document_text(a) + document_text(b) =~= document_text(a));
    } else {
        law_document_text_concatenates(a, b.drop_last());
        assert((a + b).drop_last() =~= a + b.drop_last());
        assert((a + b).last() == b.last());
        assert(document_text(a + b) =~= document_text(a) + document_text(b));
    }
}

/// Likewise for Markdown.
pub proof fn law_document_markdown_concatenates(a: Seq<BlockView>, b: Seq<BlockView>)
    ensures
        document_markdown(a + b) == document_markdown(a) + document_markdown(b),
    decreases b.len(),
{
    if b.len() == 0 {
        assert(a + b =~= a);
        assert(document_markdown(b) =~= Seq::<char>::empty());
        assert(document_markdown(a) + document_markdown(b) =~= document_markdown(a));
    } else {
        law_document_markdown_concatenates(a, b.drop_last());
        assert((a + b).drop_last() =~= a + b.drop_last());
        assert((a + b).last() == b.last());
        assert(document_markdown(a + b) =~= document_markdown(a) + document_markdown(b));
    }
}


/// The characters of all parts together.
pub open spec fn parts_len(parts: Seq<Seq<char>>) -> nat
    decreases parts.len(),
{
    if parts.len() == 0 {
        0
    } else {
        parts_len(parts.drop_last()) + parts.last().len()
    }
}

/// Joining puts the separator between every two neighbouring parts:
/// one more part adds the separator and then the part; two joined lists
/// join around one separator; and the joined text holds every part's
/// characters and one separator fewer than there are parts.
pub proof fn law_join_separates_every_part(parts: Seq<Seq<char>>, more: Seq<Seq<char>>, x: Seq<char>, sep: Seq<char>)
    ensures
        join(seq![x], sep) == x,
        join(Seq::<Seq<char>>::empty(), sep) == Seq::<char>::empty(),
        parts.len() > 0 ==> join(parts.push(x), sep) == join(parts, sep) + sep + x,
        parts.len() > 0 && more.len() > 0 ==> join(parts + more, sep) == join(parts, sep) + sep + join(more, sep),
        parts.len() > 0 ==> join(parts, sep).len() == parts_len(parts) + (parts.len() - 1) * sep.len(),
    decreases more.len(),
{
    assert(parts.push(x).drop_last() =~= parts);
    lemma_join_len(parts, sep);
    if parts.len() > 0 && more.len() > 0 {
        if more.len() == 1 {
            assert(parts + more =~= parts.push(more[0]));
            assert(parts.push(more[0]).drop_last() =~= parts);
        } else {
            let m0 = more.drop_last();
            law_join_separates_every_part(parts, m0, x, sep);
            assert(parts + more =~= (parts + m0).push(more.last()));
            assert((parts + m0).push(more.last()).drop_last() =~= parts + m0);
            assert(join(parts, sep) + sep + join(m0, sep) + sep + more.last()
                =~= join(parts, sep) + sep + (join(m0, sep) + sep + more.last()));
        }
    }
}

proof fn lemma_join_len(parts: Seq<Seq<char>>, sep: Seq<char>)
    ensures
        parts.len() > 0 ==> join(parts, sep).len() == parts_len(parts) + (parts.len() - 1) * sep.len(),
    decreases parts.len(),
{
    if parts.len() > 1 {
        let d = parts.drop_last();
        lemma_join_len(d, sep);
        assert(d.len() == parts.len() - 1);
        assert(join(parts, sep) == join(d, sep) + sep + parts.last());
        assert(join(parts, sep).len() == join(d, sep).len() + sep.len() + parts.last().len());
        assert(parts_len(parts) == parts_len(d) + parts.last().len());
        let n = parts.len() as int;
        let k = sep.len() as int;
        assert((n - 1) * k == (n - 2) * k + k) by (nonlinear_arith);
        assert(join(d, sep).len() == parts_len(d) + (d.len() - 1) * sep.len());
        assert(join(parts, sep).len() == parts_len(parts) + (parts.len() - 1) * sep.len());
    } else if parts.len() == 1 {
        assert(parts.drop_last().len() == 0);
        assert(parts.last() == parts[0]);
        assert(parts_len(parts.drop_last()) == 0);
        assert(join(parts, sep) == parts[0]);
        assert((parts.len() - 1) * sep.len() == 0);
        assert(join(parts, sep).len() == parts_len(parts) + (parts.len() - 1) * sep.len());
    }
}

} // verus!
