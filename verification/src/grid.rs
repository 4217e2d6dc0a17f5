//! Drawing tables: border lines, the lines of a row, and a whole table
//! centred in the width it has.

use vstd::prelude::*;
use crate::style::{Color, Style, Span, SpanView, Line, plain_style, style_with_fg, spans_view, lines_view};
use crate::table::{WrappedLine, wrapped_view, frags_width, fragments_view};
use crate::text::{string_from_chars, chars_of};
use crate::width::{str_width, str_display_width};
use crate::columns::{total_twips, sat_sub, sum_twips, sum_widths, resolved_widths, line_width_of, resolve_column_widths,
    table_line_width, law_fitted_widths_fit, lemma_width_le_sum};
use crate::document::{Run, RunView, TableBlock, TableRow, TableView, CellView, runs_view};
use crate::table::{wrap_runs, wrapped_lines, runs_chars};
use crate::config::Theme;

verus! {

/// `n` spaces.
pub open spec fn spaces(n: nat) -> Seq<char> {
    Seq::new(n, |i: int| ' ')
}

/// A horizontal rule `n` characters long.
pub open spec fn rule(n: nat) -> Seq<char> {
    Seq::new(n, |i: int| '─')
}

/// For each column a rule two wider than it, followed by the middle
/// junction, or the right corner after the last column.
pub open spec fn border_segments(widths: Seq<usize>, middle: char, right: char) -> Seq<char>
    decreases widths.len(),
{
    if widths.len() == 0 {
        Seq::empty()
    } else {
        rule(widths[0] as nat + 2) + seq![if widths.len() == 1 { right } else { middle }]
            + border_segments(widths.skip(1), middle, right)
    }
}

/// A border line: one span in the border colour holding the padding, the
/// left corner and the segments.
pub open spec fn border_line(widths: Seq<usize>, left: char, middle: char, right: char, padding: nat, color: Color) -> Seq<SpanView> {
    seq![SpanView {
        content: spaces(padding) + seq![left] + border_segments(widths, middle, right),
        style: style_with_fg(plain_style(), color),
    }]
}

/// Appends `n` copies of `c`.
fn push_repeated(out: &mut Vec<char>, c: char, n: usize)
    ensures
        final(out)@ == old(out)@ + Seq::new(n as nat, |i: int| c),
{
    let ghost start = out@;
    let mut k: usize = 0;
    while k < n
        invariant
            k <= n,
            out@ == start + Seq::new(k as nat, |i: int| c),
        decreases n - k,
    {
        out.push(c);
        k = k + 1;
        assert(out@ =~= start + Seq::new(k as nat, |i: int| c));
    }
}

/// `n` copies of a character as a string.
pub fn repeated_string(c: char, n: usize) -> (s: String)
    ensures
        s@ == Seq::new(n as nat, |i: int| c),
{
    let mut out: Vec<char> = Vec::new();
    push_repeated(&mut out, c, n);
    assert(out@ =~= Seq::new(n as nat, |i: int| c));
    string_from_chars(out.as_slice())
}

/// A table border: `left_padding` spaces, the left corner, then per
/// column a rule two wider than the column and a junction (`right` after
/// the last column), drawn in `color`.
pub fn centered_table_border(widths: &[usize], left: char, middle: char, right: char, left_padding: usize, color: Color) -> (l: Line)
    ensures
        l@ == border_line(widths@, left, middle, right, left_padding as nat, color),
{
    let ghost full = border_segments(widths@, middle, right);
    let mut out: Vec<char> = Vec::new();
    push_repeated(&mut out, ' ', left_padding);
    out.push(left);
    let ghost head = out@;
    assert(head =~= spaces(left_padding as nat) + seq![left]);
    let mut i: usize = 0;
    let ghost mut done: Seq<char> = Seq::empty();
    assert(widths@.skip(0) =~= widths@);
    assert(out@ =~= head + done);
    assert(done + border_segments(widths@.skip(0), middle, right) =~= full);
    while i < widths.len()
        invariant
            i <= widths.len(),
            full == border_segments(widths@, middle, right),
            out@ == head + done,
            done + border_segments(widths@.skip(i as int), middle, right) == full,
        decreases widths.len() - i,
    {
        let ghost before = out@;
        let ghost rest = widths@.skip(i as int);
        assert(rest.skip(1) =~= widths@.skip(i + 1));
        assert(rest[0] == widths[i as int]);
        push_repeated(&mut out, '─', widths[i]);
        push_repeated(&mut out, '─', 2);
        let j: char = if i + 1 == widths.len() { right } else { middle };
        out.push(j);
        let ghost piece = rule(widths[i as int] as nat + 2) + seq![j];
        assert(out@ =~= before + piece);
        assert(done + piece + border_segments(widths@.skip(i + 1), middle, right) =~= full);
        assert(out@ =~= head + (done + piece));
        proof { done = done + piece; }
        i = i + 1;
    }
    assert(widths@.skip(i as int) =~= Seq::<usize>::empty());
    let text = string_from_chars(out.as_slice());
    let style = Style::plain().fg(color);
    let l = Line::from_span(Span::styled(text, style));
    assert(l@ =~= border_line(widths@, left, middle, right, left_padding as nat, color));
    l
}

/// The lines of each cell of a row.
pub open spec fn cell_lines_view(s: Seq<Vec<WrappedLine>>) -> Seq<Seq<Seq<(Seq<char>, Style)>>> {
    s.map_values(|c: Vec<WrappedLine>| wrapped_view(c@))
}

/// The width of column `k`: 3 where none is given.
pub open spec fn width_at(widths: Seq<usize>, k: int) -> nat {
    if 0 <= k < widths.len() {
        widths[k] as nat
    } else {
        3
    }
}

/// Line `li` of the wrapped text of cell `k`, where there is one.
pub open spec fn cell_line_at(cells: Seq<Seq<Seq<(Seq<char>, Style)>>>, k: int, li: int) -> Option<Seq<(Seq<char>, Style)>> {
    if 0 <= k < cells.len() && 0 <= li < cells[k].len() {
        Some(cells[k][li])
    } else {
        None
    }
}

pub open spec fn fragment_span(f: (Seq<char>, Style)) -> SpanView {
    SpanView { content: f.0, style: f.1 }
}

/// The spans of one cell on one line of a row: a space, the cell's text
/// on that line, spaces up to the column's width and one more, and the
/// border.
pub open spec fn cell_spans(cells: Seq<Seq<Seq<(Seq<char>, Style)>>>, widths: Seq<usize>, k: int, li: int, border: Style) -> Seq<SpanView> {
    let line = cell_line_at(cells, k, li);
    let text_width: nat = match line {
        Some(l) => frags_width(l),
        None => 0,
    };
    let pad = sat_sub(width_at(widths, k), text_width);
    seq![SpanView { content: seq![' '], style: plain_style() }]
        + (match line {
            Some(l) => l.map_values(|f: (Seq<char>, Style)| fragment_span(f)),
            None => Seq::empty(),
        })
        + seq![SpanView { content: spaces(pad + 1), style: plain_style() }, SpanView { content: seq!['│'], style: border }]
}

/// The spans of the first `n` cells on one line of a row.
pub open spec fn columns_spans(cells: Seq<Seq<Seq<(Seq<char>, Style)>>>, widths: Seq<usize>, n: nat, li: int, border: Style) -> Seq<SpanView>
    decreases n,
{
    if n == 0 {
        Seq::empty()
    } else {
        columns_spans(cells, widths, (n - 1) as nat, li, border) + cell_spans(cells, widths, n - 1, li, border)
    }
}

/// Line `li` of a table row: the padding, the left border, then each of
/// the `count` columns.
pub open spec fn row_line(cells: Seq<Seq<Seq<(Seq<char>, Style)>>>, widths: Seq<usize>, count: nat, li: int, padding: nat, color: Color) -> Seq<SpanView> {
    let border = style_with_fg(plain_style(), color);
    seq![SpanView { content: spaces(padding), style: plain_style() }, SpanView { content: seq!['│'], style: border }]
        + columns_spans(cells, widths, count, li, border)
}

proof fn lemma_frags_width_bound(f: Seq<(Seq<char>, Style)>)
    ensures
        frags_width(f) <= f.len() * 0xFFFF_FFFF_FFFF_FFFFnat,
    decreases f.len(),
{
    if f.len() > 0 {
        lemma_frags_width_bound(f.drop_last());
    }
}

/// The columns a wrapped line takes.
fn fragments_width(line: &WrappedLine) -> (r: u128)
    ensures
        r == frags_width(fragments_view(line@)),
{
    let ghost fv = fragments_view(line@);
    proof { lemma_frags_width_bound(fv); }
    let mut acc: u128 = 0;
    let mut j: usize = 0;
    assert(fv.take(0) =~= Seq::<(Seq<char>, Style)>::empty());
    while j < line.len()
        invariant
            j <= line.len(),
            fv == fragments_view(line@),
            acc == frags_width(fv.take(j as int)),
            frags_width(fv) <= fv.len() * 0xFFFF_FFFF_FFFF_FFFFnat,
            frags_width(fv.take(j as int)) <= j * 0xFFFF_FFFF_FFFF_FFFFnat,
        decreases line.len() - j,
    {
        assert(fv.take(j + 1).drop_last() =~= fv.take(j as int));
        let w = str_display_width(line[j].0.as_str());
        acc = acc + w as u128;
        j = j + 1;
    }
    assert(fv.take(j as int) =~= fv);
    acc
}

fn vertical_bar() -> (s: String)
    ensures
        s@ == seq!['│'],
{
    proof { reveal_strlit("│"); }
    "│".to_owned()
}

fn spaces_string(n: usize, extra: bool) -> (s: String)
    ensures
        s@ == spaces(n as nat + if extra { 1nat } else { 0nat }),
{
    let mut out: Vec<char> = Vec::new();
    push_repeated(&mut out, ' ', n);
    if extra {
        out.push(' ');
    }
    assert(out@ =~= spaces(n as nat + if extra { 1nat } else { 0nat }));
    string_from_chars(out.as_slice())
}

fn push_cell_spans(spans: &mut Vec<Span>, wrapped_cells: &[Vec<WrappedLine>], widths: &[usize], column: usize, line_index: usize, border: Style)
    ensures
        spans_view(final(spans)@) == spans_view(old(spans)@)
            + cell_spans(cell_lines_view(wrapped_cells@), widths@, column as int, line_index as int, border),
{
    let ghost cells = cell_lines_view(wrapped_cells@);
    let ghost start = spans_view(spans@);
    let width: usize = if column < widths.len() { widths[column] } else { 3 };
    let has_line = column < wrapped_cells.len() && line_index < wrapped_cells[column].len();
    let text_width: u128 = if has_line { fragments_width(&wrapped_cells[column][line_index]) } else { 0 };
    proof {
        if has_line {
            assert(cells[column as int] == wrapped_view(wrapped_cells@[column as int]@));
            assert(cell_line_at(cells, column as int, line_index as int) == Some(fragments_view(wrapped_cells@[column as int]@[line_index as int]@)));
        }
    }
    let pad: usize = if text_width < width as u128 { width - text_width as usize } else { 0 };
    proof { reveal_strlit(" "); }
    let sp = " ".to_owned();
    assert(sp@ =~= seq![' ']);
    spans.push(Span::raw(sp));
    let ghost mid = spans_view(spans@);
    assert(mid =~= start + seq![SpanView { content: seq![' '], style: plain_style() }]);
    if has_line {
        let line = &wrapped_cells[column][line_index];
        let ghost fv = fragments_view(line@);
        let mut j: usize = 0;
        while j < line.len()
            invariant
                j <= line.len(),
                fv == fragments_view(line@),
                spans_view(spans@) == mid + fv.take(j as int).map_values(|f: (Seq<char>, Style)| fragment_span(f)),
            decreases line.len() - j,
        {
            let ghost before = spans@;
            spans.push(Span::styled(line[j].0.clone(), line[j].1));
            assert(spans_view(spans@) =~= spans_view(before).push(fragment_span(fv[j as int])));
            assert(fv.take(j + 1).map_values(|f: (Seq<char>, Style)| fragment_span(f)) =~=
                fv.take(j as int).map_values(|f: (Seq<char>, Style)| fragment_span(f)).push(fragment_span(fv[j as int])));
            j = j + 1;
        }
        assert(fv.take(j as int) =~= fv);
    }
    let ghost after_text = spans_view(spans@);
    spans.push(Span::raw(spaces_string(pad, true)));
    spans.push(Span::styled(vertical_bar(), border));
    let ghost tail = seq![SpanView { content: spaces(pad as nat + 1), style: plain_style() }, SpanView { content: seq!['│'], style: border }];
    assert(spans_view(spans@) =~= after_text + tail);
    assert(spans_view(spans@) =~= start + cell_spans(cells, widths@, column as int, line_index as int, border));
}

/// Line `line_index` of a table row whose cells are wrapped into
/// `wrapped_cells`: the left padding and border, then for each of the
/// `column_count` columns a space, the cell's text on that line, padding
/// to the column's width plus one space, and a border.
pub fn render_row_line(
    wrapped_cells: &[Vec<WrappedLine>],
    widths: &[usize],
    column_count: usize,
    line_index: usize,
    left_padding: usize,
    border_color: Color,
) -> (l: Line)
    ensures
        l@ == row_line(cell_lines_view(wrapped_cells@), widths@, column_count as nat, line_index as int, left_padding as nat, border_color),
{
    let ghost cells = cell_lines_view(wrapped_cells@);
    let border_style = Style::plain().fg(border_color);
    let mut spans: Vec<Span> = Vec::new();
    spans.push(Span::raw(spaces_string(left_padding, false)));
    spans.push(Span::styled(vertical_bar(), border_style));
    let ghost head = spans_view(spans@);
    assert(head =~= seq![SpanView { content: spaces(left_padding as nat), style: plain_style() }, SpanView { content: seq!['│'], style: border_style }]);
    let mut column: usize = 0;
    assert(spans_view(spans@) =~= head + columns_spans(cells, widths@, 0, line_index as int, border_style));
    while column < column_count
        invariant
            column <= column_count,
            cells == cell_lines_view(wrapped_cells@),
            spans_view(spans@) == head + columns_spans(cells, widths@, column as nat, line_index as int, border_style),
        decreases column_count - column,
    {
        push_cell_spans(&mut spans, wrapped_cells, widths, column, line_index, border_style);
        column = column + 1;
        assert(spans_view(spans@) =~= head + columns_spans(cells, widths@, column as nat, line_index as int, border_style));
    }
    Line::from_spans(spans)
}

/// The most cells any row has.
pub open spec fn max_cells(rows: Seq<Seq<CellView>>) -> nat
    decreases rows.len(),
{
    if rows.len() == 0 {
        0
    } else {
        let m = max_cells(rows.drop_last());
        if rows.last().len() > m { rows.last().len() } else { m }
    }
}

/// A table's columns: as many as the source gives widths for, or as the
/// widest row has cells, whichever is more.
pub open spec fn column_count_of(t: TableView) -> nat {
    let m = max_cells(t.rows);
    if t.column_widths.len() > m { t.column_widths.len() } else { m }
}

/// The wrapped lines of each cell of a row.
pub open spec fn wrapped_row(cells: Seq<CellView>, widths: Seq<usize>) -> Seq<Seq<Seq<(Seq<char>, Style)>>> {
    Seq::new(cells.len(), |i: int| wrapped_lines(cells[i].runs, width_at(widths, i)))
}

/// The most lines any cell has.
pub open spec fn max_lines(c: Seq<Seq<Seq<(Seq<char>, Style)>>>) -> nat
    decreases c.len(),
{
    if c.len() == 0 {
        0
    } else {
        let m = max_lines(c.drop_last());
        if c.last().len() > m { c.last().len() } else { m }
    }
}

/// The lines of a row: as many as its tallest cell has, one where it has
/// no cells.
pub open spec fn row_body(cells: Seq<CellView>, widths: Seq<usize>, count: nat, padding: nat, color: Color) -> Seq<Seq<SpanView>> {
    let wr = wrapped_row(cells, widths);
    let height = if wr.len() == 0 { 1 } else { max_lines(wr) };
    Seq::new(height, |li: int| row_line(wr, widths, count, li, padding, color))
}

/// The lines of the first `n` rows, with a separator after each row but
/// the last of the table.
pub open spec fn rows_lines(rows: Seq<Seq<CellView>>, n: nat, widths: Seq<usize>, count: nat, padding: nat, color: Color) -> Seq<Seq<SpanView>>
    decreases n,
{
    if n == 0 {
        Seq::empty()
    } else {
        rows_lines(rows, (n - 1) as nat, widths, count, padding, color)
            + row_body(rows[n - 1], widths, count, padding, color)
            + if n < rows.len() { seq![border_line(widths, '├', '┼', '┤', padding, color)] } else { Seq::empty() }
    }
}

/// A table drawn in `available` columns: nothing for a table without rows
/// or columns or without room (fewer than 4 columns, also after the
/// theme's padding on both sides); else a top border, the rows with
/// separators between them and a bottom border, centred in the space left
/// after the padding.
pub open spec fn table_lines(t: TableView, available: nat, theme: Theme) -> Seq<Seq<SpanView>> {
    let count = column_count_of(t);
    let usable = sat_sub(available, 2 * theme.table_padding as nat);
    if t.rows.len() == 0 || count == 0 || available < 4 || usable < 4 {
        Seq::empty()
    } else {
        let widths = resolved_widths(t.column_widths, count, usable);
        let padding = theme.table_padding as nat + sat_sub(usable, line_width_of(widths)) / 2;
        let color = theme.table_border;
        seq![border_line(widths, '┌', '┬', '┐', padding, color)]
            + rows_lines(t.rows, t.rows.len(), widths, count, padding, color)
            + seq![border_line(widths, '└', '┴', '┘', padding, color)]
    }
}

/// Sizes that keep a table's layout within the machine's integers: the
/// padding on both sides, the columns with their frame, the sum of the
/// source's widths as a `u32`, and the text of each cell.
pub open spec fn table_fits(t: TableView, available: nat, padding: usize) -> bool {
    let count = column_count_of(t);
    &&& 2 * padding <= usize::MAX
    &&& 5 * count + available + 2 <= usize::MAX
    &&& sum_twips(t.column_widths) <= u32::MAX
    &&& forall|r: int, c: int| 0 <= r < t.rows.len() && 0 <= c < t.rows[r].len() ==>
        3 * runs_chars(#[trigger] t.rows[r][c].runs) + 1 <= usize::MAX
}

/// What laying a table out needs of the machine's integers, on the path
/// that lays it out: a table without rows or columns, or without room
/// (fewer than 4 columns, also after the padding), is drawn as nothing
/// and needs nothing; otherwise the padding on both sides must fit, and
/// where room is left the sizes of `table_fits` must hold.
pub open spec fn table_layout_ok(t: TableView, available: nat, padding: usize) -> bool {
    let count = column_count_of(t);
    ||| t.rows.len() == 0
    ||| count == 0
    ||| available < 4
    ||| (2 * padding <= usize::MAX && (sat_sub(available, 2 * padding as nat) < 4 || table_fits(t, available, padding)))
}

fn column_count(table: &TableBlock) -> (r: usize)
    ensures
        r == column_count_of(table@),
{
    let ghost rows = table@.rows;
    let mut m: usize = 0;
    let mut i: usize = 0;
    assert(rows.take(0) =~= Seq::<Seq<CellView>>::empty());
    while i < table.rows.len()
        invariant
            i <= table.rows.len(),
            rows == table@.rows,
            m == max_cells(rows.take(i as int)),
        decreases table.rows.len() - i,
    {
        assert(rows.take(i + 1).drop_last() =~= rows.take(i as int));
        assert(rows[i as int] == table.rows@[i as int]@);
        if table.rows[i].cells.len() > m {
            m = table.rows[i].cells.len();
        }
        i = i + 1;
    }
    assert(rows.take(i as int) =~= rows);
    if table.column_widths.len() > m { table.column_widths.len() } else { m }
}

proof fn lemma_max_cells_at_least(rows: Seq<Seq<CellView>>, i: int)
    requires
        0 <= i < rows.len(),
    ensures
        rows[i].len() <= max_cells(rows),
    decreases rows.len(),
{
    if i < rows.len() - 1 {
        lemma_max_cells_at_least(rows.drop_last(), i);
    }
}

/// Appends the lines of one row.
fn push_row_lines(lines: &mut Vec<Line>, row: &TableRow, widths: &Vec<usize>, column_count: usize, left_padding: usize, color: Color)
    requires
        forall|i: int| 0 <= i < row@.len() ==>
            3 * runs_chars(#[trigger] row@[i].runs) + 1 <= usize::MAX,
    ensures
        lines_view(final(lines)@) == lines_view(old(lines)@)
            + row_body(row@, widths@, column_count as nat, left_padding as nat, color),
{
    let ghost wr = wrapped_row(row@, widths@);
    let mut wrapped_cells: Vec<Vec<WrappedLine>> = Vec::new();
    let mut height: usize = 0;
    let mut i: usize = 0;
    assert(wr.take(0) =~= Seq::<Seq<Seq<(Seq<char>, Style)>>>::empty());
    while i < row.cells.len()
        invariant
            i <= row.cells.len(),
            wr == wrapped_row(row@, widths@),
            forall|k: int| 0 <= k < row@.len() ==>
                3 * runs_chars(#[trigger] row@[k].runs) + 1 <= usize::MAX,
            cell_lines_view(wrapped_cells@) == wr.take(i as int),
            height == max_lines(wr.take(i as int)),
        decreases row.cells.len() - i,
    {
        let width: usize = if i < widths.len() { widths[i] } else { 3 };
        assert(row@[i as int] == row.cells@[i as int]@);
        assert(3 * runs_chars(row@[i as int].runs) + 1 <= usize::MAX);
        let cell_lines = wrap_runs(row.cells[i].runs.as_slice(), width);
        let ghost before = wrapped_cells@;
        let n = cell_lines.len();
        wrapped_cells.push(cell_lines);
        assert(cell_lines_view(wrapped_cells@) =~= cell_lines_view(before).push(wr[i as int]));
        assert(wr.take(i + 1) =~= wr.take(i as int).push(wr[i as int]));
        assert(wr.take(i + 1).drop_last() =~= wr.take(i as int));
        if n > height {
            height = n;
        }
        i = i + 1;
    }
    assert(wr.take(i as int) =~= wr);
    assert(cell_lines_view(wrapped_cells@) == wr);
    if row.cells.len() == 0 {
        height = 1;
    }
    let ghost start = lines_view(lines@);
    let mut li: usize = 0;
    while li < height
        invariant
            li <= height,
            wr == wrapped_row(row@, widths@),
            height == (if wr.len() == 0 { 1 } else { max_lines(wr) }),
            cell_lines_view(wrapped_cells@) == wr,
            lines_view(lines@) == start + row_body(row@, widths@, column_count as nat, left_padding as nat, color).take(li as int),
        decreases height - li,
    {
        let line = render_row_line(wrapped_cells.as_slice(), widths.as_slice(), column_count, li, left_padding, color);
        let ghost before = lines@;
        lines.push(line);
        let ghost body = row_body(row@, widths@, column_count as nat, left_padding as nat, color);
        assert(lines_view(lines@) =~= lines_view(before).push(line@));
        assert(body.take(li + 1) =~= body.take(li as int).push(body[li as int]));
        li = li + 1;
    }
    assert(row_body(row@, widths@, column_count as nat, left_padding as nat, color).take(li as int)
        =~= row_body(row@, widths@, column_count as nat, left_padding as nat, color));
}

/// Draws a table in `available_width` columns with the theme's padding
/// and border colour.
pub fn table_to_lines(table: &TableBlock, available_width: usize, theme: &Theme) -> (r: Vec<Line>)
    requires
        table_layout_ok(table@, available_width as nat, theme.table_padding),
    ensures
        lines_view(r@) == table_lines(table@, available_width as nat, *theme),
{
    let ghost t = table@;
    if table.rows.len() == 0 {
        let r: Vec<Line> = Vec::new();
        assert(lines_view(r@) =~= Seq::<Seq<SpanView>>::empty());
        return r;
    }
    let column_count = column_count(table);
    if column_count == 0 || available_width < 4 {
        let r: Vec<Line> = Vec::new();
        assert(lines_view(r@) =~= Seq::<Seq<SpanView>>::empty());
        return r;
    }
    let usable = available_width.saturating_sub(theme.table_padding * 2);
    if usable < 4 {
        let r: Vec<Line> = Vec::new();
        assert(lines_view(r@) =~= Seq::<Seq<SpanView>>::empty());
        return r;
    }
    let widths = resolve_column_widths(table, column_count, usable);
    let ghost w = widths@;
    proof {
        law_fitted_widths_fit(
            {
                let total = sum_twips(t.column_widths);
                let w0 = if total > 0 {
                    crate::columns::twips_widths(t.column_widths, column_count as nat, total, usable as nat)
                } else {
                    crate::columns::distributed_widths(column_count as nat, usable as nat)
                };
                if crate::columns::any_narrow(w0) { crate::columns::distributed_widths(column_count as nat, usable as nat) } else { w0 }
            },
            usable,
        );
        assert(sum_widths(w) <= usable + 3 * column_count);
        assert forall|i: int| 0 <= i < w.len() implies w[i] <= usable + 3 * column_count by {
            lemma_width_le_sum(w, i);
        }
    }
    let line_width = table_line_width(widths.as_slice());
    let left_padding = theme.table_padding + usable.saturating_sub(line_width) / 2;
    let color = theme.table_border;
    let mut lines: Vec<Line> = Vec::new();
    lines.push(centered_table_border(widths.as_slice(), '┌', '┬', '┐', left_padding, color));
    let ghost head = lines_view(lines@);
    let ghost rows = t.rows;
    let mut k: usize = 0;
    while k < table.rows.len()
        invariant
            k <= table.rows.len(),
            rows == table@.rows,
            t == table@,
            w == widths@,
            w.len() == column_count,
            column_count == column_count_of(t),
            usable + 3 * column_count + 2 <= usize::MAX,
            forall|i: int| 0 <= i < w.len() ==> w[i] <= usable + 3 * column_count,
            usable <= available_width,
            table_fits(t, available_width as nat, theme.table_padding),
            lines_view(lines@) == head + rows_lines(rows, k as nat, w, column_count as nat, left_padding as nat, color),
        decreases table.rows.len() - k,
    {
        assert(rows[k as int] == table.rows@[k as int]@);
        proof { lemma_max_cells_at_least(rows, k as int); }
        assert forall|i: int| 0 <= i < rows[k as int].len() implies
            3 * runs_chars(#[trigger] rows[k as int][i].runs) + 1 <= usize::MAX by {
            assert(3 * runs_chars(t.rows[k as int][i].runs) + 1 <= usize::MAX);
        }
        let ghost before = lines_view(lines@);
        push_row_lines(&mut lines, &table.rows[k], &widths, column_count, left_padding, color);
        let ghost body = row_body(rows[k as int], w, column_count as nat, left_padding as nat, color);
        let ghost sep: Seq<Seq<SpanView>> = if k + 1 < rows.len() {
            seq![border_line(w, '├', '┼', '┤', left_padding as nat, color)]
        } else {
            Seq::empty()
        };
        assert(lines_view(lines@) == before + body);
        if k + 1 < table.rows.len() {
            let b = centered_table_border(widths.as_slice(), '├', '┼', '┤', left_padding, color);
            let ghost mid = lines@;
            lines.push(b);
            assert(lines_view(lines@) =~= lines_view(mid).push(b@));
        }
        assert(lines_view(lines@) =~= before + body + sep);
        assert(rows_lines(rows, (k + 1) as nat, w, column_count as nat, left_padding as nat, color)
            == rows_lines(rows, k as nat, w, column_count as nat, left_padding as nat, color) + body + sep);
        k = k + 1;
        assert(lines_view(lines@) =~= head + rows_lines(rows, k as nat, w, column_count as nat, left_padding as nat, color));
    }
    let ghost before = lines@;
    let bottom = centered_table_border(widths.as_slice(), '└', '┴', '┘', left_padding, color);
    lines.push(bottom);
    assert(lines_view(lines@) =~= lines_view(before).push(bottom@));
    assert(k == rows.len());
    assert(lines_view(lines@) =~= table_lines(t, available_width as nat, *theme));
    lines
}

proof fn lemma_runs_chars_prefix(r: Seq<RunView>, j: int)
    requires
        0 <= j <= r.len(),
    ensures
        runs_chars(r.take(j)) <= runs_chars(r),
    decreases r.len() - j,
{
    if j < r.len() {
        lemma_runs_chars_prefix(r, j + 1);
        assert(r.take(j + 1).drop_last() =~= r.take(j));
    } else {
        assert(r.take(j) =~= r);
    }
}

/// Whether the text of runs is small enough: three columns per
/// character and `extra` more fit in a `usize`.
fn runs_fit(runs: &Vec<Run>, extra: u128) -> (r: bool)
    requires
        extra <= usize::MAX + 1,
    ensures
        r == (3 * runs_chars(runs_view(runs@)) + extra <= usize::MAX),
{
    let ghost rv = runs_view(runs@);
    let mut acc: u128 = 0;
    let mut i: usize = 0;
    assert(rv.take(0) =~= Seq::<RunView>::empty());
    while i < runs.len()
        invariant
            i <= runs.len(),
            rv == runs_view(runs@),
            extra <= usize::MAX + 1,
            acc == runs_chars(rv.take(i as int)),
            acc <= usize::MAX,
        decreases runs.len() - i,
    {
        assert(rv.take(i + 1).drop_last() =~= rv.take(i as int));
        let n = chars_of(runs[i].text.as_str()).len();
        assert(rv[i as int].text.len() == n);
        acc = acc + n as u128;
        i = i + 1;
        if acc > usize::MAX as u128 {
            proof { lemma_runs_chars_prefix(rv, i as int); }
            return false;
        }
    }
    assert(rv.take(i as int) =~= rv);
    3 * acc + extra <= usize::MAX as u128
}

/// Whether a table's layout in `available_width` columns with `padding`
/// fits the machine's integers.
pub fn check_table_fits(table: &TableBlock, available_width: usize, padding: usize) -> (r: bool)
    ensures
        r == table_layout_ok(table@, available_width as nat, padding),
{
    let ghost t = table@;
    if table.rows.len() == 0 {
        return true;
    }
    let count = column_count(table);
    if count == 0 || available_width < 4 {
        return true;
    }
    if padding > usize::MAX / 2 {
        return false;
    }
    if available_width.saturating_sub(padding * 2) < 4 {
        return true;
    }
    if 5 * (count as u128) + available_width as u128 + 2 > usize::MAX as u128 {
        return false;
    }
    let total = total_twips(table.column_widths.as_slice());
    if total > u32::MAX as u128 {
        return false;
    }
    let extra: u128 = 1;
    let mut r: usize = 0;
    while r < table.rows.len()
        invariant
            r <= table.rows.len(),
            t == table@,
            count == column_count_of(t),
            extra == 1,
            extra <= usize::MAX,
            t.rows.len() > 0,
            count > 0,
            available_width >= 4,
            2 * padding <= usize::MAX,
            sat_sub(available_width as nat, 2 * padding as nat) >= 4,
            forall|a: int, c: int| 0 <= a < r && 0 <= c < t.rows[a].len() ==>
                3 * runs_chars(#[trigger] t.rows[a][c].runs) + 1 <= usize::MAX,
        decreases table.rows.len() - r,
    {
        let row = &table.rows[r];
        assert(t.rows[r as int] == row@);
        let mut c: usize = 0;
        while c < row.cells.len()
            invariant
                r < table.rows.len(),
                c <= row.cells.len(),
                row == &table.rows@[r as int],
                t == table@,
                t.rows[r as int] == row@,
                count == column_count_of(t),
                extra == 1,
                extra <= usize::MAX,
                t.rows.len() > 0,
                count > 0,
                available_width >= 4,
                2 * padding <= usize::MAX,
                sat_sub(available_width as nat, 2 * padding as nat) >= 4,
            t.rows.len() > 0,
            count > 0,
            available_width >= 4,
            2 * padding <= usize::MAX,
            sat_sub(available_width as nat, 2 * padding as nat) >= 4,
                forall|a: int, k: int| 0 <= a < r && 0 <= k < t.rows[a].len() ==>
                    3 * runs_chars(#[trigger] t.rows[a][k].runs) + 1 <= usize::MAX,
                forall|k: int| 0 <= k < c ==>
                    3 * runs_chars(#[trigger] t.rows[r as int][k].runs) + 1 <= usize::MAX,
            decreases row.cells.len() - c,
        {
            assert(t.rows[r as int][c as int] == row.cells@[c as int]@);
            if !runs_fit(&row.cells[c].runs, extra) {
                assert(!(3 * runs_chars(t.rows[r as int][c as int].runs) + 1 <= usize::MAX));
                return false;
            }
            c = c + 1;
        }
        r = r + 1;
    }
    true
}

/// The lines a row takes: those of its tallest cell, one where it has no
/// cells.
pub open spec fn row_height(cells: Seq<CellView>, widths: Seq<usize>) -> nat {
    let wr = wrapped_row(cells, widths);
    if wr.len() == 0 { 1 } else { max_lines(wr) }
}

/// The lines the first `n` rows take, separators left out.
pub open spec fn heights_total(rows: Seq<Seq<CellView>>, n: nat, widths: Seq<usize>) -> nat
    decreases n,
{
    if n == 0 {
        0
    } else {
        heights_total(rows, (n - 1) as nat, widths) + row_height(rows[n - 1], widths)
    }
}

/// Where the separator after row `k` stands among a table's lines.
pub open spec fn separator_index(rows: Seq<Seq<CellView>>, k: int, widths: Seq<usize>) -> int {
    heights_total(rows, (k + 1) as nat, widths) + k + 1
}

proof fn lemma_rows_lines_len(rows: Seq<Seq<CellView>>, n: nat, widths: Seq<usize>, count: nat, padding: nat, color: Color)
    requires
        1 <= n <= rows.len(),
    ensures
        rows_lines(rows, n, widths, count, padding, color).len()
            == heights_total(rows, n, widths) + n - (if n == rows.len() { 1int } else { 0int }),
        n < rows.len() ==> rows_lines(rows, n, widths, count, padding, color).last()
            == border_line(widths, '├', '┼', '┤', padding, color),
    decreases n,
{
    assert(row_body(rows[n - 1], widths, count, padding, color).len() == row_height(rows[n - 1], widths));
    if n > 1 {
        lemma_rows_lines_len(rows, (n - 1) as nat, widths, count, padding, color);
    } else {
        assert(rows_lines(rows, 0, widths, count, padding, color) =~= Seq::<Seq<SpanView>>::empty());
    }
}

proof fn lemma_rows_lines_prefix(rows: Seq<Seq<CellView>>, n: nat, m: nat, widths: Seq<usize>, count: nat, padding: nat, color: Color, j: int)
    requires
        n <= m,
        0 <= j < rows_lines(rows, n, widths, count, padding, color).len(),
    ensures
        j < rows_lines(rows, m, widths, count, padding, color).len(),
        rows_lines(rows, m, widths, count, padding, color)[j] == rows_lines(rows, n, widths, count, padding, color)[j],
    decreases m,
{
    if m > n {
        lemma_rows_lines_prefix(rows, n, (m - 1) as nat, widths, count, padding, color, j);
    }
}

/// A table that is laid out has a top border, then each row's lines with a
/// separator after every row but the last, then a bottom border: as many
/// lines as its rows take, its rows, and one more.
pub proof fn law_table_line_count(t: TableView, available: nat, theme: Theme)
    requires
        t.rows.len() > 0,
        column_count_of(t) > 0,
        available >= 4,
        sat_sub(available, 2 * theme.table_padding as nat) >= 4,
    ensures
        ({
            let count = column_count_of(t);
            let usable = sat_sub(available, 2 * theme.table_padding as nat);
            let w = resolved_widths(t.column_widths, count, usable);
            let padding = theme.table_padding as nat + sat_sub(usable, line_width_of(w)) / 2;
            let color = theme.table_border;
            let ls = table_lines(t, available, theme);
            &&& ls.len() == t.rows.len() + 1 + heights_total(t.rows, t.rows.len(), w)
            &&& ls[0] == border_line(w, '┌', '┬', '┐', padding, color)
            &&& ls.last() == border_line(w, '└', '┴', '┘', padding, color)
            &&& forall|k: int| 0 <= k < t.rows.len() - 1 ==>
                ls[#[trigger] separator_index(t.rows, k, w)] == border_line(w, '├', '┼', '┤', padding, color)
        }),
{
    let count = column_count_of(t);
    let usable = sat_sub(available, 2 * theme.table_padding as nat);
    let w = resolved_widths(t.column_widths, count, usable);
    let padding = theme.table_padding as nat + sat_sub(usable, line_width_of(w)) / 2;
    let color = theme.table_border;
    let body = rows_lines(t.rows, t.rows.len(), w, count, padding, color);
    lemma_rows_lines_len(t.rows, t.rows.len(), w, count, padding, color);
    let ls = table_lines(t, available, theme);
    assert(ls == seq![border_line(w, '┌', '┬', '┐', padding, color)] + body + seq![border_line(w, '└', '┴', '┘', padding, color)]);
    assert forall|k: int| 0 <= k < t.rows.len() - 1 implies
        ls[#[trigger] separator_index(t.rows, k, w)] == border_line(w, '├', '┼', '┤', padding, color) by {
        let n = (k + 1) as nat;
        lemma_rows_lines_len(t.rows, n, w, count, padding, color);
        let part = rows_lines(t.rows, n, w, count, padding, color);
        let j = part.len() - 1;
        lemma_rows_lines_prefix(t.rows, n, t.rows.len(), w, count, padding, color, j);
        assert(j == heights_total(t.rows, n, w) + k);
        assert(ls[j + 1] == body[j]);
    }
}


proof fn lemma_max_lines_bounds(c: Seq<Seq<Seq<(Seq<char>, Style)>>>)
    ensures
        forall|i: int| 0 <= i < c.len() ==> (#[trigger] c[i]).len() <= max_lines(c),
        c.len() > 0 ==> exists|j: int| 0 <= j < c.len() && (#[trigger] c[j]).len() == max_lines(c),
    decreases c.len(),
{
    if c.len() > 0 {
        let p = c.drop_last();
        lemma_max_lines_bounds(p);
        assert forall|i: int| 0 <= i < c.len() implies (#[trigger] c[i]).len() <= max_lines(c) by {
            if i < p.len() {
                assert(c[i] == p[i]);
            }
        }
        if c.last().len() > max_lines(p) || p.len() == 0 {
            assert(c[c.len() - 1].len() == max_lines(c));
        } else {
            let j = choose|j: int| 0 <= j < p.len() && (#[trigger] p[j]).len() == max_lines(p);
            assert(c[j] == p[j]);
        }
    }
}

/// A row is as tall as its tallest cell: it takes at least as many lines
/// as the wrapped text of each of its cells, exactly as many as one of
/// them (one line where it has no cells), and its body has that many
/// lines.
pub proof fn law_row_as_tall_as_tallest_cell(cells: Seq<CellView>, widths: Seq<usize>, count: nat, padding: nat, color: Color)
    ensures
        forall|i: int| 0 <= i < cells.len() ==>
            #[trigger] wrapped_lines(cells[i].runs, width_at(widths, i)).len() <= row_height(cells, widths),
        cells.len() > 0 ==> exists|j: int| 0 <= j < cells.len()
            && #[trigger] wrapped_lines(cells[j].runs, width_at(widths, j)).len() == row_height(cells, widths),
        cells.len() == 0 ==> row_height(cells, widths) == 1,
        row_body(cells, widths, count, padding, color).len() == row_height(cells, widths),
{
    let wr = wrapped_row(cells, widths);
    lemma_max_lines_bounds(wr);
    assert forall|i: int| 0 <= i < cells.len() implies
        #[trigger] wrapped_lines(cells[i].runs, width_at(widths, i)).len() <= row_height(cells, widths) by {
        assert(wr[i] == wrapped_lines(cells[i].runs, width_at(widths, i)));
    }
    if cells.len() > 0 {
        let j = choose|j: int| 0 <= j < wr.len() && (#[trigger] wr[j]).len() == max_lines(wr);
        assert(wr[j] == wrapped_lines(cells[j].runs, width_at(widths, j)));
    }
}

} // verus!
