//! Rendering a document into styled lines for the terminal.

use vstd::prelude::*;
use crate::style::{
    Color, Modifiers, Style, Span, SpanView, Line, plain_style, style_with_fg, style_adding,
    style_removing, no_modifiers, spans_view, lines_view,
};
use crate::document::{Run, RunView, ParagraphBlock, runs_view, Document, DocBlock, BlockView, blocks_view};
use crate::grid::{rule, table_lines, table_layout_ok, table_to_lines, repeated_string, check_table_fits};
use crate::config::Theme;
use crate::text::{is_white_space, char_is_whitespace, chars_of, string_from_chars, starts_with, chars_start_with};

verus! {

/// Half-point size from which text counts as large (16pt).
pub const LARGE_TEXT_HALF_POINTS: u16 = 32;
/// Half-point size from which text counts as huge (28pt).
pub const HUGE_TEXT_HALF_POINTS: u16 = 56;

pub open spec fn is_large(r: RunView) -> bool {
    r.size matches Some(s) && s >= 32
}

pub open spec fn is_huge(r: RunView) -> bool {
    r.size matches Some(s) && s >= 56
}

pub open spec fn is_emphasized(r: RunView) -> bool {
    r.bold || is_large(r)
}

pub fn run_is_large(run: &Run) -> (r: bool)
    ensures
        r == is_large(run@),
{
    match run.size {
        Some(size) => size >= LARGE_TEXT_HALF_POINTS,
        None => false,
    }
}

pub fn run_is_huge(run: &Run) -> (r: bool)
    ensures
        r == is_huge(run@),
{
    match run.size {
        Some(size) => size >= HUGE_TEXT_HALF_POINTS,
        None => false,
    }
}

pub fn run_is_emphasized(run: &Run) -> (r: bool)
    ensures
        r == is_emphasized(run@),
{
    run.bold || run_is_large(run)
}

/// The style of a run: bold when bold or large, italic when italic,
/// underlined when underlined or huge, in its colour if it has one.
pub open spec fn style_of_run(r: RunView) -> Style {
    let s0 = plain_style();
    let s1 = if r.bold || is_large(r) { style_adding(s0, Modifiers { bold: true, ..no_modifiers() }) } else { s0 };
    let s2 = if r.italic { style_adding(s1, Modifiers { italic: true, ..no_modifiers() }) } else { s1 };
    let s3 = if r.underline || is_huge(r) { style_adding(s2, Modifiers { underlined: true, ..no_modifiers() }) } else { s2 };
    match r.color {
        Some(c) => style_with_fg(s3, c),
        None => s3,
    }
}

pub fn run_style(run: &Run) -> (s: Style)
    ensures
        s == style_of_run(run@),
{
    let mut style = Style::plain();
    if run.bold || run_is_large(run) {
        style = style.add_modifier(Modifiers::bold());
    }
    if run.italic {
        style = style.add_modifier(Modifiers::italic());
    }
    if run.underline || run_is_huge(run) {
        style = style.add_modifier(Modifiers::underlined());
    }
    if let Some(color) = run.color {
        style = style.fg(color);
    }
    style
}

/// The style of a heading of the given level.
pub open spec fn heading_style_of(level: u8, theme: Theme) -> Style {
    let base = style_with_fg(plain_style(), theme.heading);
    let m = if level == 1 {
        Modifiers { bold: true, underlined: true, ..no_modifiers() }
    } else if level == 2 || level == 4 {
        Modifiers { bold: true, ..no_modifiers() }
    } else if level == 3 {
        Modifiers { bold: true, italic: true, ..no_modifiers() }
    } else if level == 5 {
        Modifiers { italic: true, ..no_modifiers() }
    } else if level == 6 {
        Modifiers { dim: true, ..no_modifiers() }
    } else {
        Modifiers { bold: true, ..no_modifiers() }
    };
    style_adding(base, m)
}

pub fn heading_style(level: u8, theme: &Theme) -> (s: Style)
    ensures
        s == heading_style_of(level, *theme),
{
    let style = Style::plain().fg(theme.heading);
    if level == 1 {
        style.add_modifier(Modifiers::bold().union(Modifiers::underlined()))
    } else if level == 2 || level == 4 {
        style.add_modifier(Modifiers::bold())
    } else if level == 3 {
        style.add_modifier(Modifiers::bold().union(Modifiers::italic()))
    } else if level == 5 {
        style.add_modifier(Modifiers::italic())
    } else if level == 6 {
        style.add_modifier(Modifiers::dim())
    } else {
        style.add_modifier(Modifiers::bold())
    }
}

/// The characters `is_url` trims from both ends of a word.
pub open spec fn is_enclosing(c: char) -> bool {
    c == '(' || c == ')' || c == '[' || c == ']' || c == '{' || c == '}' || c == '<' || c == '>'
        || c == '"' || c == '\''
}

pub open spec fn trim_enclosing_start(s: Seq<char>) -> Seq<char>
    decreases s.len(),
{
    if s.len() > 0 && is_enclosing(s[0]) {
        trim_enclosing_start(s.drop_first())
    } else {
        s
    }
}

pub open spec fn trim_enclosing_end(s: Seq<char>) -> Seq<char>
    decreases s.len(),
{
    if s.len() > 0 && is_enclosing(s.last()) {
        trim_enclosing_end(s.drop_last())
    } else {
        s
    }
}

/// A word is a URL when, without enclosing brackets and quotes, it starts
/// with `http://`, `https://` or `www.`.
pub open spec fn is_url_text(word: Seq<char>) -> bool {
    let t = trim_enclosing_end(trim_enclosing_start(word));
    starts_with(t, "http://"@) || starts_with(t, "https://"@) || starts_with(t, "www."@)
}

fn is_enclosing_char(c: char) -> (r: bool)
    ensures
        r == is_enclosing(c),
{
    c == '(' || c == ')' || c == '[' || c == ']' || c == '{' || c == '}' || c == '<' || c == '>'
        || c == '"' || c == '\''
}

/// Whether a word (a run of non-space characters) is a URL.
pub fn is_url(word: &[char]) -> (r: bool)
    ensures
        r == is_url_text(word@),
{
    let mut start: usize = 0;
    assert(word@.skip(0) =~= word@);
    while start < word.len() && is_enclosing_char(word[start])
        invariant
            start <= word.len(),
            trim_enclosing_start(word@) == trim_enclosing_start(word@.skip(start as int)),
        decreases word.len() - start,
    {
        assert(word@.skip(start as int).drop_first() =~= word@.skip(start + 1));
        start = start + 1;
    }
    assert(trim_enclosing_start(word@) == word@.skip(start as int));
    let ghost t0 = word@.skip(start as int);
    let mut end: usize = word.len();
    assert(word@.subrange(start as int, end as int) =~= t0);
    while end > start && is_enclosing_char(word[end - 1])
        invariant
            start <= end <= word.len(),
            t0 == word@.skip(start as int),
            trim_enclosing_end(t0) == trim_enclosing_end(word@.subrange(start as int, end as int)),
        decreases end - start,
    {
        assert(word@.subrange(start as int, end as int).drop_last() =~= word@.subrange(start as int, end - 1));
        end = end - 1;
    }
    let mut t: Vec<char> = Vec::new();
    let mut i: usize = start;
    while i < end
        invariant
            start <= i <= end,
            end <= word.len(),
            t@ == word@.subrange(start as int, i as int),
        decreases end - i,
    {
        t.push(word[i]);
        i = i + 1;
        assert(t@ =~= word@.subrange(start as int, i as int));
    }
    let http = chars_of("http://");
    let https = chars_of("https://");
    let www = chars_of("www.");
    chars_start_with(t.as_slice(), http.as_slice()) || chars_start_with(t.as_slice(), https.as_slice())
        || chars_start_with(t.as_slice(), www.as_slice())
}

/// The index of the first white-space character of `s`, or its length.
pub open spec fn first_ws(s: Seq<char>) -> int
    decreases s.len(),
{
    if s.len() == 0 {
        0
    } else if is_white_space(s[0]) {
        0
    } else {
        1 + first_ws(s.drop_first())
    }
}

pub proof fn lemma_first_ws(s: Seq<char>)
    ensures
        0 <= first_ws(s) <= s.len(),
        forall|j: int| 0 <= j < first_ws(s) ==> !is_white_space(#[trigger] s[j]),
        first_ws(s) < s.len() ==> is_white_space(s[first_ws(s)]),
    decreases s.len(),
{
    if s.len() > 0 && !is_white_space(s[0]) {
        lemma_first_ws(s.drop_first());
        assert forall|j: int| 0 <= j < first_ws(s) implies !is_white_space(#[trigger] s[j]) by {
            if j > 0 {
                assert(s[j] == s.drop_first()[j - 1]);
            }
        }
    }
}

/// Some white-space separated word of `s` is a URL.
pub open spec fn has_url_word(s: Seq<char>) -> bool
    decreases s.len(),
{
    if s.len() == 0 {
        false
    } else {
        let k = first_ws(s);
        is_url_text(s.take(k)) || (0 <= k < s.len() && has_url_word(s.skip(k + 1)))
    }
}

/// Each character followed by a combining low line (U+0330).
pub open spec fn with_low_lines(w: Seq<char>) -> Seq<char>
    decreases w.len(),
{
    if w.len() == 0 {
        Seq::empty()
    } else {
        with_low_lines(w.drop_last()) + seq![w.last(), '\u{330}']
    }
}

/// The text with every URL word marked by combining low lines, the white
/// space between words kept as it is.
pub open spec fn underlined_urls(s: Seq<char>) -> Seq<char>
    decreases s.len(),
{
    if s.len() == 0 {
        Seq::empty()
    } else {
        let k = first_ws(s);
        let word = s.take(k);
        let marked = if is_url_text(word) { with_low_lines(word) } else { word };
        if 0 <= k < s.len() {
            marked + seq![s[k]] + underlined_urls(s.skip(k + 1))
        } else {
            marked
        }
    }
}

/// The end of the word that starts at `i` (the next white space, or the end).
fn word_end(s: &[char], i: usize) -> (k: usize)
    requires
        i <= s.len(),
    ensures
        i <= k <= s.len(),
        k - i == first_ws(s@.skip(i as int)),
{
    let mut k: usize = i;
    proof { lemma_first_ws(s@.skip(i as int)); }
    while k < s.len() && !char_is_whitespace(s[k])
        invariant
            i <= k <= s.len(),
            first_ws(s@.skip(i as int)) == (k - i) + first_ws(s@.skip(k as int)),
        decreases s.len() - k,
    {
        assert(s@.skip(k as int).drop_first() =~= s@.skip(k + 1));
        assert(s@.skip(k as int)[0] == s@[k as int]);
        k = k + 1;
    }
    if k < s.len() {
        assert(s@.skip(k as int)[0] == s@[k as int]);
    }
    k
}

fn sub_chars(s: &[char], from: usize, to: usize) -> (r: Vec<char>)
    requires
        from <= to <= s.len(),
    ensures
        r@ == s@.subrange(from as int, to as int),
{
    let mut r: Vec<char> = Vec::new();
    let mut i: usize = from;
    while i < to
        invariant
            from <= i <= to,
            to <= s.len(),
            r@ == s@.subrange(from as int, i as int),
        decreases to - i,
    {
        r.push(s[i]);
        i = i + 1;
        assert(r@ =~= s@.subrange(from as int, i as int));
    }
    r
}

/// Whether some white-space separated word of the text is a URL.
pub fn contains_url(text: &str) -> (r: bool)
    ensures
        r == has_url_word(text@),
{
    let s = chars_of(text);
    let mut i: usize = 0;
    assert(s@.skip(0) =~= s@);
    while i < s.len()
        invariant
            i <= s.len(),
            s@ == text@,
            has_url_word(text@) == has_url_word(s@.skip(i as int)),
        decreases s.len() - i,
    {
        let k = word_end(s.as_slice(), i);
        let word = sub_chars(s.as_slice(), i, k);
        assert(word@ =~= s@.skip(i as int).take(k - i));
        if is_url(word.as_slice()) {
            return true;
        }
        if k == s.len() {
            return false;
        }
        assert(s@.skip(i as int).skip(k - i + 1) =~= s@.skip(k + 1));
        i = k + 1;
    }
    false
}

/// The text with each URL word's characters followed by U+0330.
pub fn underline_urls(text: &str) -> (r: String)
    ensures
        r@ == underlined_urls(text@),
{
    let s = chars_of(text);
    let mut out: Vec<char> = Vec::new();
    let mut i: usize = 0;
    assert(s@.skip(0) =~= s@);
    while i < s.len()
        invariant
            i <= s.len(),
            s@ == text@,
            underlined_urls(text@) == out@ + underlined_urls(s@.skip(i as int)),
        decreases s.len() - i,
    {
        let ghost rest = s@.skip(i as int);
        let k = word_end(s.as_slice(), i);
        let word = sub_chars(s.as_slice(), i, k);
        assert(word@ =~= rest.take(k - i));
        let ghost before = out@;
        if is_url(word.as_slice()) {
            let mut j: usize = 0;
            while j < word.len()
                invariant
                    j <= word.len(),
                    out@ == before + with_low_lines(word@.take(j as int)),
                decreases word.len() - j,
            {
                assert(word@.take(j + 1).drop_last() =~= word@.take(j as int));
                out.push(word[j]);
                out.push('\u{330}');
                j = j + 1;
                assert(out@ =~= before + with_low_lines(word@.take(j as int)));
            }
            assert(word@.take(word.len() as int) =~= word@);
        } else {
            let mut j: usize = 0;
            while j < word.len()
                invariant
                    j <= word.len(),
                    out@ == before + word@.take(j as int),
                decreases word.len() - j,
            {
                out.push(word[j]);
                j = j + 1;
                assert(out@ =~= before + word@.take(j as int));
            }
            assert(word@.take(word.len() as int) =~= word@);
        }
        if k == s.len() {
            assert(s@.skip(k as int) =~= Seq::<char>::empty());
            assert(out@ + Seq::<char>::empty() =~= out@);
            i = k;
        } else {
            let ghost mid = out@;
            out.push(s[k]);
            assert(rest[k - i] == s@[k as int]);
            assert(rest.skip(k - i + 1) =~= s@.skip(k + 1));
            assert(out@ + underlined_urls(s@.skip(k + 1)) =~= mid + seq![s@[k as int]] + underlined_urls(s@.skip(k + 1)));
            i = k + 1;
        }
    }
    string_from_chars(out.as_slice())
}


pub open spec fn clamp_level(l: u8) -> u8 {
    if l < 1 {
        1
    } else if l > 6 {
        6
    } else {
        l
    }
}

/// The marker drawn before a heading of a (clamped) level.
pub open spec fn heading_prefix(level: u8) -> Seq<char> {
    if level == 1 {
        "◆ H1  "@
    } else if level == 2 {
        "▸ H2  "@
    } else if level == 3 {
        "• H3  "@
    } else if level == 4 {
        "  H4  "@
    } else if level == 5 {
        "    H5  "@
    } else {
        "      H6  "@
    }
}

pub open spec fn underlined_only() -> Modifiers {
    Modifiers { underlined: true, ..no_modifiers() }
}

/// The span of one run: headings use the heading style, emphasized runs
/// without a colour of their own the theme's bold colour; text with a URL
/// is drawn blue, not underlined, with its URLs marked.
pub open spec fn run_span(r: RunView, heading: Option<u8>, theme: Theme) -> SpanView {
    let base = style_of_run(r);
    let style = match heading {
        Some(l) => heading_style_of(clamp_level(l), theme),
        None => if is_emphasized(r) && r.color is None { style_with_fg(base, theme.bold) } else { base },
    };
    if has_url_word(r.text) {
        SpanView {
            content: underlined_urls(r.text),
            style: style_removing(style_with_fg(style, Color::Blue), underlined_only()),
        }
    } else {
        SpanView { content: r.text, style }
    }
}

/// The spans of a paragraph's line: a heading marker for headings, then
/// one span per run.
pub open spec fn paragraph_spans(runs: Seq<RunView>, heading: Option<u8>, theme: Theme) -> Seq<SpanView> {
    let prefix = match heading {
        Some(l) => seq![SpanView { content: heading_prefix(clamp_level(l)), style: heading_style_of(clamp_level(l), theme) }],
        None => Seq::empty(),
    };
    prefix + runs.map_values(|r: RunView| run_span(r, heading, theme))
}

fn heading_marker(level: u8) -> (s: String)
    ensures
        s@ == heading_prefix(level),
{
    let p: &str = if level == 1 {
        "◆ H1  "
    } else if level == 2 {
        "▸ H2  "
    } else if level == 3 {
        "• H3  "
    } else if level == 4 {
        "  H4  "
    } else if level == 5 {
        "    H5  "
    } else {
        "      H6  "
    };
    p.to_owned()
}

fn clamp_heading_level(l: u8) -> (r: u8)
    ensures
        r == clamp_level(l),
{
    if l < 1 {
        1
    } else if l > 6 {
        6
    } else {
        l
    }
}

fn run_to_span(run: &Run, heading_level: Option<u8>, theme: &Theme) -> (s: Span)
    ensures
        s@ == run_span(run@, heading_level, *theme),
{
    let mut style = run_style(run);
    if let Some(level) = heading_level {
        style = heading_style(clamp_heading_level(level), theme);
    } else if run_is_emphasized(run) && run.color.is_none() {
        style = style.fg(theme.bold);
    }
    if contains_url(run.text.as_str()) {
        Span::styled(underline_urls(run.text.as_str()), style.fg(Color::Blue).remove_modifier(Modifiers::underlined()))
    } else {
        Span::styled(run.text.clone(), style)
    }
}

/// A paragraph (or heading) as one line of spans.
pub fn paragraph_to_lines(paragraph: &ParagraphBlock, heading_level: Option<u8>, theme: &Theme) -> (r: Vec<Line>)
    ensures
        lines_view(r@) == seq![paragraph_spans(paragraph@, heading_level, *theme)],
{
    let mut spans: Vec<Span> = Vec::new();
    if let Some(level) = heading_level {
        let l = clamp_heading_level(level);
        spans.push(Span::styled(heading_marker(l), heading_style(l, theme)));
    }
    let ghost prefix = spans_view(spans@);
    let ghost runs = paragraph@;
    let mut i: usize = 0;
    while i < paragraph.runs.len()
        invariant
            i <= paragraph.runs.len(),
            runs == paragraph@,
            spans_view(spans@) == prefix + runs.take(i as int).map_values(|r: RunView| run_span(r, heading_level, *theme)),
        decreases paragraph.runs.len() - i,
    {
        let sp = run_to_span(&paragraph.runs[i], heading_level, theme);
        let ghost old_spans = spans@;
        spans.push(sp);
        assert(spans_view(spans@) =~= spans_view(old_spans).push(sp@));
        assert(runs[i as int] == paragraph.runs@[i as int]@);
        assert(runs.take(i + 1).map_values(|r: RunView| run_span(r, heading_level, *theme)) =~=
            runs.take(i as int).map_values(|r: RunView| run_span(r, heading_level, *theme)).push(run_span(runs[i as int], heading_level, *theme)));
        i = i + 1;
        assert(spans_view(spans@) =~= prefix + runs.take(i as int).map_values(|r: RunView| run_span(r, heading_level, *theme)));
    }
    assert(runs.take(i as int) =~= runs);
    assert(spans_view(spans@) =~= paragraph_spans(paragraph@, heading_level, *theme));
    let mut lines = Vec::new();
    lines.push(Line::from_spans(spans));
    assert(lines_view(lines@) =~= seq![paragraph_spans(paragraph@, heading_level, *theme)]);
    lines
}

/// The lines of one block: a paragraph or heading is one line followed by
/// an empty line; a page break is a rule 40 characters long; a table is
/// its lines followed by an empty line.
pub open spec fn block_lines(b: BlockView, available: nat, theme: Theme) -> Seq<Seq<SpanView>> {
    match b {
        BlockView::Paragraph(p) => seq![paragraph_spans(p, None, theme), Seq::empty()],
        BlockView::Heading(p, l) => seq![paragraph_spans(p, Some(l), theme), Seq::empty()],
        BlockView::PageBreak => seq![seq![SpanView { content: rule(40), style: plain_style() }]],
        BlockView::Table(t) => table_lines(t, available, theme).push(Seq::empty()),
    }
}

/// The lines of a document's blocks, one block after another.
pub open spec fn document_lines(blocks: Seq<BlockView>, available: nat, theme: Theme) -> Seq<Seq<SpanView>>
    decreases blocks.len(),
{
    if blocks.len() == 0 {
        Seq::empty()
    } else {
        document_lines(blocks.drop_last(), available, theme) + block_lines(blocks.last(), available, theme)
    }
}

/// Every table of the document fits the machine's integers when laid out
/// in `available` columns.
pub open spec fn document_fits(blocks: Seq<BlockView>, available: nat, theme: Theme) -> bool {
    forall|i: int| 0 <= i < blocks.len() ==> (#[trigger] blocks[i] matches BlockView::Table(t) ==> table_layout_ok(t, available, theme.table_padding))
}

fn push_all(lines: &mut Vec<Line>, more: Vec<Line>)
    ensures
        lines_view(final(lines)@) == lines_view(old(lines)@) + lines_view(more@),
{
    let ghost start = lines@;
    let mut more = more;
    let ghost mv = more@;
    lines.append(&mut more);
    assert(lines_view(lines@) =~= lines_view(start) + lines_view(mv));
}

/// Renders a document in `available_width` columns: its blocks in order,
/// tables laid out in that width.
pub fn document_to_lines(document: &Document, available_width: usize, theme: &Theme) -> (r: Vec<Line>)
    requires
        document_fits(document@, available_width as nat, *theme),
    ensures
        lines_view(r@) == document_lines(document@, available_width as nat, *theme),
{
    let ghost blocks = document@;
    let mut lines: Vec<Line> = Vec::new();
    let mut i: usize = 0;
    assert(blocks.take(0) =~= Seq::<BlockView>::empty());
    assert(lines_view(lines@) =~= Seq::<Seq<SpanView>>::empty());
    while i < document.blocks.len()
        invariant
            i <= document.blocks.len(),
            blocks == document@,
            document_fits(blocks, available_width as nat, *theme),
            lines_view(lines@) == document_lines(blocks.take(i as int), available_width as nat, *theme),
        decreases document.blocks.len() - i,
    {
        let ghost before = lines_view(lines@);
        assert(blocks[i as int] == document.blocks@[i as int]@);
        match &document.blocks[i] {
            DocBlock::Paragraph(paragraph) => {
                push_all(&mut lines, paragraph_to_lines(paragraph, None, theme));
                let ghost mid = lines@;
                let b = Line::blank();
                lines.push(b);
                assert(lines_view(lines@) =~= lines_view(mid).push(b@));
            },
            DocBlock::Heading(heading, level) => {
                push_all(&mut lines, paragraph_to_lines(heading, Some(*level), theme));
                let ghost mid = lines@;
                let b = Line::blank();
                lines.push(b);
                assert(lines_view(lines@) =~= lines_view(mid).push(b@));
            },
            DocBlock::PageBreak => {
                let ghost mid = lines@;
                let text = repeated_string('─', 40);
                assert(text@ =~= rule(40));
                let b = Line::from_span(Span::raw(text));
                lines.push(b);
                assert(lines_view(lines@) =~= lines_view(mid).push(b@));
            },
            DocBlock::Table(table) => {
                push_all(&mut lines, table_to_lines(table, available_width, theme));
                let ghost mid = lines@;
                let b = Line::blank();
                lines.push(b);
                assert(lines_view(lines@) =~= lines_view(mid).push(b@));
            },
        }
        assert(lines_view(lines@) =~= before + block_lines(blocks[i as int], available_width as nat, *theme));
        assert(blocks.take(i + 1).drop_last() =~= blocks.take(i as int));
        i = i + 1;
    }
    assert(blocks.take(i as int) =~= blocks);
    lines
}

/// The lines of a document made of two parts are those of the first part
/// followed by those of the second: blocks are rendered independently.
pub proof fn law_document_lines_concatenate(a: Seq<BlockView>, b: Seq<BlockView>, available: nat, theme: Theme)
    ensures
        document_lines(a + b, available, theme) == document_lines(a, available, theme) + document_lines(b, available, theme),
    decreases b.len(),
{
    if b.len() == 0 {
        assert(a + b =~= a);
        assert(document_lines(b, available, theme) =~= Seq::<Seq<SpanView>>::empty());
        assert(document_lines(a, available, theme) + document_lines(b, available, theme) =~= document_lines(a, available, theme));
    } else {
        law_document_lines_concatenate(a, b.drop_last(), available, theme);
        assert((a + b).drop_last() =~= a + b.drop_last());
        assert((a + b).last() == b.last());
        assert(document_lines(a + b, available, theme) =~= document_lines(a, available, theme) + document_lines(b, available, theme));
    }
}

/// Whether every table of the document fits the machine's integers when
/// laid out in `available_width` columns.
pub fn check_document_fits(document: &Document, available_width: usize, theme: &Theme) -> (r: bool)
    ensures
        r == document_fits(document@, available_width as nat, *theme),
{
    let ghost blocks = document@;
    let mut i: usize = 0;
    while i < document.blocks.len()
        invariant
            i <= document.blocks.len(),
            blocks == document@,
            forall|k: int| 0 <= k < i ==> (#[trigger] blocks[k] matches BlockView::Table(t) ==> table_layout_ok(t, available_width as nat, theme.table_padding)),
        decreases document.blocks.len() - i,
    {
        assert(blocks[i as int] == document.blocks@[i as int]@);
        if let DocBlock::Table(table) = &document.blocks[i] {
            if !check_table_fits(table, available_width, theme.table_padding) {
                return false;
            }
        }
        i = i + 1;
    }
    true
}

/// The lines a block takes: two for a paragraph or heading, one for a page
/// break, a table's lines and one more.
pub open spec fn block_line_count(b: BlockView, available: nat, theme: Theme) -> nat {
    match b {
        BlockView::Paragraph(_) => 2,
        BlockView::Heading(_, _) => 2,
        BlockView::PageBreak => 1,
        BlockView::Table(t) => table_lines(t, available, theme).len() + 1,
    }
}

/// The lines the blocks take together.
pub open spec fn lines_total(blocks: Seq<BlockView>, available: nat, theme: Theme) -> nat
    decreases blocks.len(),
{
    if blocks.len() == 0 {
        0
    } else {
        lines_total(blocks.drop_last(), available, theme) + block_line_count(blocks.last(), available, theme)
    }
}

/// A document's lines are its blocks' lines: two for a paragraph or a
/// heading, one for a page break, a table's lines and one more; every
/// block but a page break ends with an empty line.
pub proof fn law_document_line_count(blocks: Seq<BlockView>, available: nat, theme: Theme)
    ensures
        document_lines(blocks, available, theme).len() == lines_total(blocks, available, theme),
        forall|i: int| 0 <= i < blocks.len() ==> {
            let ls = #[trigger] block_lines(blocks[i], available, theme);
            &&& ls.len() == block_line_count(blocks[i], available, theme)
            &&& !(blocks[i] is PageBreak) ==> ls.last() == Seq::<SpanView>::empty()
        },
    decreases blocks.len(),
{
    if blocks.len() > 0 {
        law_document_line_count(blocks.drop_last(), available, theme);
        assert forall|i: int| 0 <= i < blocks.len() implies {
            let ls = #[trigger] block_lines(blocks[i], available, theme);
            &&& ls.len() == block_line_count(blocks[i], available, theme)
            &&& !(blocks[i] is PageBreak) ==> ls.last() == Seq::<SpanView>::empty()
        } by {
            match blocks[i] {
                BlockView::Table(t) => {
                    assert(table_lines(t, available, theme).push(Seq::empty()).len() == table_lines(t, available, theme).len() + 1);
                },
                _ => {},
            }
        }
    }
}

/// The text without its combining low lines (U+0330).
pub open spec fn without_low_lines(s: Seq<char>) -> Seq<char>
    decreases s.len(),
{
    if s.len() == 0 {
        Seq::empty()
    } else {
        without_low_lines(s.drop_last()) + if s.last() == '\u{330}' { Seq::empty() } else { seq![s.last()] }
    }
}

/// The text holds no combining low line.
pub open spec fn has_no_low_line(s: Seq<char>) -> bool {
    forall|i: int| 0 <= i < s.len() ==> #[trigger] s[i] != '\u{330}'
}

proof fn lemma_without_low_lines_add(a: Seq<char>, b: Seq<char>)
    ensures
        without_low_lines(a + b) == without_low_lines(a) + without_low_lines(b),
    decreases b.len(),
{
    if b.len() == 0 {
        assert(a + b =~= a);
        assert(without_low_lines(a) + without_low_lines(b) =~= without_low_lines(a));
    } else {
        lemma_without_low_lines_add(a, b.drop_last());
        assert((a + b).drop_last() =~= a + b.drop_last());
        assert((a + b).last() == b.last());
        assert(without_low_lines(a + b) =~= without_low_lines(a) + without_low_lines(b));
    }
}

proof fn lemma_with_low_lines(w: Seq<char>)
    requires
        has_no_low_line(w),
    ensures
        with_low_lines(w).len() == 2 * w.len(),
        without_low_lines(with_low_lines(w)) == w,
        without_low_lines(w) == w,
    decreases w.len(),
{
    if w.len() > 0 {
        let p = w.drop_last();
        assert forall|i: int| 0 <= i < p.len() implies #[trigger] p[i] != '\u{330}' by {
            assert(p[i] == w[i]);
        }
        lemma_with_low_lines(p);
        assert(w[w.len() - 1] == w.last());
        lemma_without_low_lines_add(with_low_lines(p), seq![w.last(), '\u{330}']);
        let pair = seq![w.last(), '\u{330}'];
        assert(pair.drop_last() =~= seq![w.last()]);
        assert(seq![w.last()].drop_last() =~= Seq::<char>::empty());
        assert(w[w.len() - 1] != '\u{330}');
        assert(seq![w.last()].last() == w.last());
        assert(without_low_lines(Seq::<char>::empty()) =~= Seq::<char>::empty());
        assert(without_low_lines(seq![w.last()]) =~= seq![w.last()]);
        assert(without_low_lines(pair) =~= seq![w.last()]);
        assert(p.push(w.last()) =~= w);
        assert(p + seq![w.last()] =~= w);
    } else {
        assert(without_low_lines(with_low_lines(w)) =~= w);
    }
}

proof fn lemma_url_word_nonempty(word: Seq<char>)
    ensures
        is_url_text(word) ==> word.len() > 0,
{
    reveal_strlit("http://");
    reveal_strlit("https://");
    reveal_strlit("www.");
    if word.len() == 0 {
        assert(trim_enclosing_start(word) =~= word);
        assert(trim_enclosing_end(word) =~= word);
    }
}

/// Marking URLs only adds combining low lines: taking them out again gives
/// back a text that had none.  Such a text comes back unchanged exactly
/// when none of its words is a URL.
pub proof fn law_underline_urls_round_trip(s: Seq<char>)
    requires
        has_no_low_line(s),
    ensures
        without_low_lines(underlined_urls(s)) == s,
        underlined_urls(s).len() >= s.len(),
        has_url_word(s) ==> underlined_urls(s).len() > s.len(),
        !has_url_word(s) ==> underlined_urls(s) == s,
        (underlined_urls(s) == s) == !has_url_word(s),
    decreases s.len(),
{
    if s.len() > 0 {
        let k = first_ws(s);
        lemma_first_ws(s);
        let word = s.take(k);
        assert forall|i: int| 0 <= i < word.len() implies #[trigger] word[i] != '\u{330}' by {
            assert(word[i] == s[i]);
        }
        lemma_with_low_lines(word);
        lemma_url_word_nonempty(word);
        let marked = if is_url_text(word) { with_low_lines(word) } else { word };
        assert(without_low_lines(marked) == word);
        if 0 <= k < s.len() {
            let rest = s.skip(k + 1);
            assert forall|i: int| 0 <= i < rest.len() implies #[trigger] rest[i] != '\u{330}' by {
                assert(rest[i] == s[i + k + 1]);
            }
            law_underline_urls_round_trip(rest);
            let c = seq![s[k]];
            assert(s[k] != '\u{330}');
            assert(c.last() == s[k]);
            assert(without_low_lines(Seq::<char>::empty()) =~= Seq::<char>::empty());
            assert(c.drop_last() =~= Seq::<char>::empty());
            assert(without_low_lines(c) =~= c);
            lemma_without_low_lines_add(marked + c, underlined_urls(rest));
            lemma_without_low_lines_add(marked, c);
            assert(word + c + rest =~= s);
            let u = underlined_urls(s);
            assert(u == marked + c + underlined_urls(rest));
            if has_url_word(s) {
                assert(u.len() > s.len());
            } else {
                assert(marked == word);
                assert(u =~= s);
            }
        } else {
            assert(word =~= s);
            if !has_url_word(s) {
                assert(underlined_urls(s) == word);
            }
        }
    } else {
        assert(without_low_lines(underlined_urls(s)) =~= s);
    }
}


/// Outside headings, a run without a URL is drawn as its own text: in its
/// own colour where it has one, in the theme's bold colour where it is
/// emphasized and has none, and with no colour otherwise; a run with a
/// URL word is drawn in blue.
pub proof fn law_run_colour(r: RunView, theme: Theme)
    ensures
        !has_url_word(r.text) ==> run_span(r, None, theme).content == r.text,
        r.color matches Some(c) ==> (!has_url_word(r.text) ==> run_span(r, None, theme).style.fg == Some(c)),
        r.color is None && is_emphasized(r) && !has_url_word(r.text)
            ==> run_span(r, None, theme).style.fg == Some(theme.bold),
        r.color is None && !is_emphasized(r) && !has_url_word(r.text)
            ==> run_span(r, None, theme).style.fg is None,
        has_url_word(r.text) ==> run_span(r, None, theme).style.fg == Some(Color::Blue),
{
}

} // verus!
