//! The DOCX reader: from the XML of `word/document.xml` to a document.

use vstd::prelude::*;
use vstd::utf8::{encode_utf8, is_char_boundary};
use vstd::string::StringSliceAdditionalSpecFns;
use crate::style::Color;
use crate::document::{
    Run, RunView, ParagraphBlock, TableBlock, TableView, TableRow, TableCell, CellView, DocBlock,
    BlockView, Document, plain_run_view, opt_run_view, opt_paragraph_view, opt_cell_view,
    opt_row_view, opt_table_view, blocks_view, lemma_runs_view_push, lemma_runs_view_add,
    lemma_cells_view_push, lemma_rows_view_push, lemma_blocks_view_push,
};
use crate::xml::{
    XmlTag, XmlTagView, XmlEvent, XmlEventView, XmlEventStream, XmlStreamView, tag_attribute,
    attribute, local_name, local_name_of, read_xml_events, xml_event_stream, opt_string_view,
};
use crate::text::{
    is_ascii_digit, parse_unsigned, parse_hex_u8, trim_ws, strip_one_hash,
    eq_ignore_ascii_case, lowercase_chars, to_lowercase, chars_of, string_from_chars,
    parse_u8, str_trim, strip_hash_prefix, chars_eq_ignore_ascii_case, parse_hex_byte,
    parse_u16, parse_u32, push_char, push_str, chars_are,
};

verus! {

/// The first index at or after `i` where `pat` occurs in `s`.
pub open spec fn find_from(s: Seq<char>, pat: Seq<char>, i: int) -> Option<int>
    decreases s.len() + 1 - i,
{
    if i < 0 || i + pat.len() > s.len() {
        None
    } else if s.subrange(i, i + pat.len()) == pat {
        Some(i)
    } else {
        find_from(s, pat, i + 1)
    }
}

/// The leading ASCII digits of `s`.
pub open spec fn digit_prefix(s: Seq<char>) -> Seq<char>
    decreases s.len(),
{
    if s.len() > 0 && is_ascii_digit(s[0]) {
        seq![s[0]] + digit_prefix(s.drop_first())
    } else {
        Seq::empty()
    }
}

/// The heading level that a lowercased paragraph style name announces:
/// 0 for titles; for "heading" the number after it, at least 1, or 1
/// when that number is missing or does not fit a byte; none otherwise.
pub open spec fn style_heading_level(lower: Seq<char>) -> Option<u8> {
    if find_from(lower, "title"@, 0) is Some {
        Some(0)
    } else {
        match find_from(lower, "heading"@, 0) {
            None => None,
            Some(p) => {
                let digits = digit_prefix(lower.skip(p + 7));
                match parse_unsigned(digits, 255) {
                    Some(v) => Some(if v < 1 { 1u8 } else { v as u8 }),
                    None => Some(1),
                }
            },
        }
    }
}

/// A match found by `find_from` lies inside `s`, at or after `i`.
pub proof fn lemma_find_from_in_bounds(s: Seq<char>, pat: Seq<char>, i: int)
    ensures
        find_from(s, pat, i) matches Some(p) ==> i <= p && p + pat.len() <= s.len(),
    decreases s.len() + 1 - i,
{
    if !(i < 0 || i + pat.len() > s.len()) && s.subrange(i, i + pat.len()) != pat {
        lemma_find_from_in_bounds(s, pat, i + 1);
    }
}

/// The first position of `pat` in `s`.
pub fn find_chars(s: &[char], pat: &[char]) -> (r: Option<usize>)
    ensures
        match find_from(s@, pat@, 0) {
            Some(p) => r == Some(p as usize),
            None => r is None,
        },
{
    let mut i: usize = 0;
    while i <= s.len() && pat.len() <= s.len() - i
        invariant
            i <= s.len() + 1,
            find_from(s@, pat@, 0) == find_from(s@, pat@, i as int),
        decreases s.len() + 1 - i,
    {
        let mut j: usize = 0;
        let mut same = true;
        while j < pat.len()
            invariant
                i + pat.len() <= s.len(),
                j <= pat.len(),
                same == (forall|k: int| 0 <= k < j ==> s@[i + k] == pat@[k]),
            decreases pat.len() - j,
        {
            if s[i + j] != pat[j] {
                same = false;
            }
            j = j + 1;
        }
        if same {
            assert(s@.subrange(i as int, i + pat.len()) =~= pat@);
            return Some(i);
        } else {
            proof {
                let k = choose|k: int| 0 <= k < pat.len() && s@[i + k] != pat@[k];
                assert(s@.subrange(i as int, i + pat.len())[k] != pat@[k]);
            }
        }
        i = i + 1;
    }
    None
}

/// The heading level announced by an already lowercased style name.
pub fn heading_level_from_lowercase(lower: &str) -> (r: Option<u8>)
    ensures
        r == style_heading_level(lower@),
{
    let s = chars_of(lower);
    let title = chars_of("title");
    if find_chars(s.as_slice(), title.as_slice()).is_some() {
        return Some(0);
    }
    let heading = chars_of("heading");
    proof {
        reveal_strlit("heading");
    }
    let pos = match find_chars(s.as_slice(), heading.as_slice()) {
        None => return None,
        Some(p) => p,
    };
    proof {
        lemma_find_from_in_bounds(s@, heading@, 0);
        assert(heading@.len() == 7);
    }
    let n = s.len();
    assert(pos + 7 <= n);
    let start = pos + 7;
    let ghost rest = s@.skip(start as int);
    let mut digits: Vec<char> = Vec::new();
    let mut j: usize = start;
    assert(s@.skip(start as int) == rest);
    while j < s.len() && is_digit_char(s[j])
        invariant
            start <= j <= s.len(),
            rest == s@.skip(start as int),
            digit_prefix(rest) == digits@ + digit_prefix(s@.skip(j as int)),
        decreases s.len() - j,
    {
        assert(s@.skip(j as int).drop_first() =~= s@.skip(j + 1));
        assert(s@.skip(j as int)[0] == s@[j as int]);
        digits.push(s[j]);
        assert(digits@ + digit_prefix(s@.skip(j + 1)) =~= digits@.drop_last() + (seq![s@[j as int]] + digit_prefix(s@.skip(j + 1))));
        j = j + 1;
    }
    assert(digit_prefix(s@.skip(j as int)) =~= Seq::<char>::empty());
    assert(digits@ + Seq::<char>::empty() =~= digits@);
    let text = string_from_chars(digits.as_slice());
    match parse_u8(text.as_str()) {
        Some(level) => Some(if level < 1 { 1 } else { level }),
        None => Some(1),
    }
}

fn is_digit_char(c: char) -> (r: bool)
    ensures
        r == is_ascii_digit(c),
{
    '0' <= c && c <= '9'
}

/// The heading level a paragraph style value announces, matched on its
/// Unicode lowercase.
pub fn heading_level_from_style(value: &str) -> (r: Option<u8>)
    ensures
        r == style_heading_level(lowercase_chars(value@)),
{
    let lower = to_lowercase(value);
    heading_level_from_lowercase(lower.as_str())
}

/// Byte `i` of `b` starts a character (or ends the bytes).
#[verifier::opaque]
pub open spec fn starts_char(b: Seq<u8>, i: int) -> bool {
    is_char_boundary(b, i)
}

/// A six-byte colour value is sliced at byte 2 and, once its first byte
/// pair has parsed, at byte 4: both must fall on character boundaries.
pub open spec fn hex_triplet_sliceable(b: Seq<u8>) -> bool {
    b.len() == 6 ==> (starts_char(b, 2) && (parse_hex_u8(b.subrange(0, 2)) is Some
        ==> starts_char(b.subrange(2, 6), 2)))
}

/// The colour written by six bytes as three hexadecimal byte pairs.
pub open spec fn hex_triplet(b: Seq<u8>) -> Option<Color> {
    if b.len() != 6 {
        None
    } else {
        match (
            parse_hex_u8(b.subrange(0, 2)),
            parse_hex_u8(b.subrange(2, 4)),
            parse_hex_u8(b.subrange(4, 6)),
        ) {
            (Some(r), Some(g), Some(bl)) => Some(Color::Rgb(r, g, bl)),
            _ => None,
        }
    }
}

/// The hexadecimal part of a DOCX colour value: trimmed, without one `#`.
pub open spec fn docx_color_hex(value: Seq<char>) -> Seq<char> {
    strip_one_hash(trim_ws(value))
}

/// Parsing the value does not slice inside a character.
pub open spec fn docx_color_sliceable(value: Seq<char>) -> bool {
    eq_ignore_ascii_case(trim_ws(value), "auto"@) || hex_triplet_sliceable(
        encode_utf8(docx_color_hex(value)),
    )
}

/// The colour a DOCX `w:color` value names: none for `auto` (any ASCII
/// case) and for anything but `RRGGBB` or `#RRGGBB`.
pub open spec fn docx_color(value: Seq<char>) -> Option<Color> {
    if eq_ignore_ascii_case(trim_ws(value), "auto"@) {
        None
    } else {
        hex_triplet(encode_utf8(docx_color_hex(value)))
    }
}

/// Parses a six-byte hexadecimal colour, or tells that slicing it would
/// cut a character (`None`).
pub fn hex_triplet_checked(hex: &str) -> (r: Option<Option<Color>>)
    ensures
        r is None <==> !hex_triplet_sliceable(hex.spec_bytes()),
        r matches Some(c) ==> c == hex_triplet(hex.spec_bytes()),
{
    reveal(starts_char);
    let ghost b = hex.spec_bytes();
    if hex.as_bytes().len() != 6 {
        return Some(None);
    }
    let cut1 = hex.is_char_boundary(2);
    if !cut1 {
        return None;
    }
    let (p1, rest) = hex.split_at(2);
    assert(p1.spec_bytes() =~= b.subrange(0, 2));
    let r = match parse_hex_byte(p1) {
        Some(v) => v,
        None => return Some(None),
    };
    let cut2 = rest.is_char_boundary(2);
    assert(rest.spec_bytes() =~= b.subrange(2, 6));
    if !cut2 {
        return None;
    }
    let (p2, p3) = rest.split_at(2);
    assert(p2.spec_bytes() =~= b.subrange(2, 4));
    assert(p3.spec_bytes() =~= b.subrange(4, 6));
    let g = match parse_hex_byte(p2) {
        Some(v) => v,
        None => return Some(None),
    };
    let bl = match parse_hex_byte(p3) {
        Some(v) => v,
        None => return Some(None),
    };
    Some(Some(Color::Rgb(r, g, bl)))
}

/// Parses a DOCX colour value, or tells that the value would make the
/// parse slice inside a character (`None`).
pub fn parse_docx_color_checked(value: &str) -> (r: Option<Option<Color>>)
    ensures
        r is None <==> !docx_color_sliceable(value@),
        r matches Some(c) ==> c == docx_color(value@),
{
    let t = str_trim(value);
    let tc = chars_of(t);
    let auto = chars_of("auto");
    if chars_eq_ignore_ascii_case(tc.as_slice(), auto.as_slice()) {
        return Some(None);
    }
    let hex = strip_hash_prefix(t);
    hex_triplet_checked(hex)
}

/// The colour of a DOCX `w:color` value: `None` for `auto` and for
/// values that are not six hexadecimal digits after an optional `#`.
pub fn parse_docx_color(value: &str) -> (r: Option<Color>)
    requires
        docx_color_sliceable(value@),
    ensures
        r == docx_color(value@),
{
    match parse_docx_color_checked(value) {
        Some(c) => c,
        None => None,
    }
}


/// The character and table properties that formatting tags change.
pub struct ParserState {
    pub current_run: Option<Run>,
    pub current_table: Option<TableBlock>,
    pub current_cell: Option<TableCell>,
    pub paragraph_heading_level: Option<u8>,
}

pub struct FormatModel {
    pub run: Option<RunView>,
    pub table: Option<TableView>,
    pub cell: Option<CellView>,
    pub heading: Option<u8>,
}

impl View for ParserState {
    type V = FormatModel;

    open spec fn view(&self) -> FormatModel {
        FormatModel {
            run: opt_run_view(self.current_run),
            table: opt_table_view(self.current_table),
            cell: opt_cell_view(self.current_cell),
            heading: self.paragraph_heading_level,
        }
    }
}

/// What a tag does to the formatting state.
pub enum FormatStep {
    Handled(FormatModel),
    NotFormatting,
    /// Reading the tag's colour would slice inside a character.
    Panics,
}

/// The numeric attribute `name` of a tag, if present and a `u32`.
pub open spec fn attribute_u32(tag: XmlTagView, name: Seq<char>) -> Option<u32> {
    match tag_attribute(tag, name) {
        Some(v) => match parse_unsigned(v, 4294967295) {
            Some(n) => Some(n as u32),
            None => None,
        },
        None => None,
    }
}

pub open spec fn with_run(m: FormatModel, run: Option<RunView>) -> FormatModel {
    FormatModel { run, ..m }
}

/// The effect of a formatting tag (by local name) on the state.
pub open spec fn formatting_step(name: Seq<char>, tag: XmlTagView, m: FormatModel) -> FormatStep {
    if name == "pStyle"@ {
        FormatStep::Handled(
            match tag_attribute(tag, "val"@) {
                Some(v) => match style_heading_level(lowercase_chars(v)) {
                    Some(l) => FormatModel { heading: Some(l), ..m },
                    None => m,
                },
                None => m,
            },
        )
    } else if name == "b"@ {
        FormatStep::Handled(with_run(m, match m.run { Some(r) => Some(RunView { bold: true, ..r }), None => None }))
    } else if name == "i"@ {
        FormatStep::Handled(with_run(m, match m.run { Some(r) => Some(RunView { italic: true, ..r }), None => None }))
    } else if name == "u"@ {
        FormatStep::Handled(with_run(m, match m.run { Some(r) => Some(RunView { underline: true, ..r }), None => None }))
    } else if name == "color"@ {
        match tag_attribute(tag, "val"@) {
            Some(v) => if docx_color_sliceable(v) {
                FormatStep::Handled(with_run(m, match m.run {
                    Some(r) => Some(RunView { color: docx_color(v), ..r }),
                    None => None,
                }))
            } else {
                FormatStep::Panics
            },
            None => FormatStep::Handled(m),
        }
    } else if name == "sz"@ {
        match tag_attribute(tag, "val"@) {
            Some(v) => match parse_unsigned(v, 65535) {
                Some(n) => FormatStep::Handled(with_run(m, match m.run {
                    Some(r) => Some(RunView { size: Some(n as u16), ..r }),
                    None => None,
                })),
                None => FormatStep::Handled(m),
            },
            None => FormatStep::Handled(m),
        }
    } else if name == "br"@ {
        FormatStep::Handled(with_run(m, match m.run {
            Some(r) => Some(RunView { text: r.text.push('\n'), ..r }),
            None => None,
        }))
    } else if name == "gridCol"@ {
        FormatStep::Handled(
            match (m.table, attribute_u32(tag, "w"@)) {
                (Some(t), Some(w)) => FormatModel {
                    table: Some(TableView { column_widths: t.column_widths.push(w), ..t }),
                    ..m
                },
                _ => m,
            },
        )
    } else if name == "tcW"@ {
        FormatStep::Handled(
            match (m.cell, attribute_u32(tag, "w"@)) {
                (Some(c), Some(w)) => FormatModel { cell: Some(CellView { width: Some(w), ..c }), ..m },
                _ => m,
            },
        )
    } else {
        FormatStep::NotFormatting
    }
}

fn set_run_bold(state: &mut ParserState)
    ensures
        final(state)@ == with_run(old(state)@, match old(state)@.run { Some(r) => Some(RunView { bold: true, ..r }), None => None }),
{
    if let Some(mut run) = state.current_run.take() {
        run.bold = true;
        state.current_run = Some(run);
    }
}

fn set_run_italic(state: &mut ParserState)
    ensures
        final(state)@ == with_run(old(state)@, match old(state)@.run { Some(r) => Some(RunView { italic: true, ..r }), None => None }),
{
    if let Some(mut run) = state.current_run.take() {
        run.italic = true;
        state.current_run = Some(run);
    }
}

fn set_run_underline(state: &mut ParserState)
    ensures
        final(state)@ == with_run(old(state)@, match old(state)@.run { Some(r) => Some(RunView { underline: true, ..r }), None => None }),
{
    if let Some(mut run) = state.current_run.take() {
        run.underline = true;
        state.current_run = Some(run);
    }
}

fn set_run_color(state: &mut ParserState, color: Option<Color>)
    ensures
        final(state)@ == with_run(old(state)@, match old(state)@.run { Some(r) => Some(RunView { color, ..r }), None => None }),
{
    if let Some(mut run) = state.current_run.take() {
        run.color = color;
        state.current_run = Some(run);
    }
}

fn set_run_size(state: &mut ParserState, size: u16)
    ensures
        final(state)@ == with_run(old(state)@, match old(state)@.run { Some(r) => Some(RunView { size: Some(size), ..r }), None => None }),
{
    if let Some(mut run) = state.current_run.take() {
        run.size = Some(size);
        state.current_run = Some(run);
    }
}

fn push_run_break(state: &mut ParserState)
    ensures
        final(state)@ == with_run(old(state)@, match old(state)@.run { Some(r) => Some(RunView { text: r.text.push('\n'), ..r }), None => None }),
{
    if let Some(mut run) = state.current_run.take() {
        push_char(&mut run.text, '\n');
        state.current_run = Some(run);
    }
}

fn attribute_as_u32(e: &XmlTag, name: &str) -> (r: Option<u32>)
    ensures
        r == attribute_u32(e@, name@),
{
    match attribute(e, name) {
        Some(v) => parse_u32(v.as_str()),
        None => None,
    }
}

/// Applies a formatting tag, or tells (`None`) that reading its colour
/// would slice inside a character; the state is then unchanged.
pub fn apply_formatting_tag_checked(name: &str, e: &XmlTag, state: &mut ParserState) -> (r: Option<bool>)
    ensures
        match formatting_step(name@, e@, old(state)@) {
            FormatStep::Handled(m) => r == Some(true) && final(state)@ == m,
            FormatStep::NotFormatting => r == Some(false) && final(state)@ == old(state)@,
            FormatStep::Panics => r is None && final(state)@ == old(state)@,
        },
{
    let nc = chars_of(name);
    if chars_are(nc.as_slice(), "pStyle") {
        if let Some(value) = attribute(e, "val") {
            if let Some(level) = heading_level_from_style(value.as_str()) {
                state.paragraph_heading_level = Some(level);
            }
        }
    } else if chars_are(nc.as_slice(), "b") {
        set_run_bold(state);
    } else if chars_are(nc.as_slice(), "i") {
        set_run_italic(state);
    } else if chars_are(nc.as_slice(), "u") {
        set_run_underline(state);
    } else if chars_are(nc.as_slice(), "color") {
        if let Some(value) = attribute(e, "val") {
            match parse_docx_color_checked(value.as_str()) {
                Some(color) => set_run_color(state, color),
                None => return None,
            }
        }
    } else if chars_are(nc.as_slice(), "sz") {
        if let Some(value) = attribute(e, "val") {
            if let Some(half_points) = parse_u16(value.as_str()) {
                set_run_size(state, half_points);
            }
        }
    } else if chars_are(nc.as_slice(), "br") {
        push_run_break(state);
    } else if chars_are(nc.as_slice(), "gridCol") {
        let width = attribute_as_u32(e, "w");
        if let Some(w) = width {
            if let Some(mut table) = state.current_table.take() {
                table.column_widths.push(w);
                state.current_table = Some(table);
            }
        }
    } else if chars_are(nc.as_slice(), "tcW") {
        let width = attribute_as_u32(e, "w");
        if let Some(w) = width {
            if let Some(mut cell) = state.current_cell.take() {
                cell.width = Some(w);
                state.current_cell = Some(cell);
            }
        }
    } else {
        return Some(false);
    }
    Some(true)
}

/// Applies a formatting tag (`pStyle`, `b`, `i`, `u`, `color`, `sz`,
/// `br`, `gridCol`, `tcW`) to the state; false for any other tag.
pub fn apply_formatting_tag(name: &str, e: &XmlTag, state: &mut ParserState) -> (r: bool)
    requires
        !(formatting_step(name@, e@, old(state)@) is Panics),
    ensures
        match formatting_step(name@, e@, old(state)@) {
            FormatStep::Handled(m) => r && final(state)@ == m,
            FormatStep::NotFormatting => !r && final(state)@ == old(state)@,
            FormatStep::Panics => false,
        },
{
    match apply_formatting_tag_checked(name, e, state) {
        Some(b) => b,
        None => false,
    }
}


/// The reader's whole state between two events.
pub struct DocxModel {
    pub blocks: Seq<BlockView>,
    pub paragraph: Option<Seq<RunView>>,
    pub row: Option<Seq<CellView>>,
    pub in_text: bool,
    pub fmt: FormatModel,
}

pub open spec fn docx_initial() -> DocxModel {
    DocxModel {
        blocks: Seq::empty(),
        paragraph: None,
        row: None,
        in_text: false,
        fmt: FormatModel { run: None, table: None, cell: None, heading: None },
    }
}

/// What a start tag that is not a formatting tag opens.
pub open spec fn start_element(name: Seq<char>, m: DocxModel) -> DocxModel {
    if name == "p"@ {
        DocxModel {
            paragraph: Some(Seq::empty()),
            fmt: FormatModel { heading: None, ..m.fmt },
            ..m
        }
    } else if name == "r"@ {
        DocxModel { fmt: FormatModel { run: Some(plain_run_view(Seq::empty())), ..m.fmt }, ..m }
    } else if name == "t"@ {
        DocxModel { in_text: true, ..m }
    } else if name == "tbl"@ {
        DocxModel {
            fmt: FormatModel {
                table: Some(TableView { rows: Seq::empty(), column_widths: Seq::empty() }),
                ..m.fmt
            },
            ..m
        }
    } else if name == "tr"@ {
        DocxModel { row: Some(Seq::empty()), ..m }
    } else if name == "tc"@ {
        DocxModel { fmt: FormatModel { cell: Some(CellView { runs: Seq::empty(), width: None }), ..m.fmt }, ..m }
    } else {
        m
    }
}

/// A finished paragraph inside a table cell joins the cell's runs,
/// after a line break run when the cell already holds text.
pub open spec fn cell_with_paragraph(c: CellView, p: Seq<RunView>) -> CellView {
    let runs = if c.runs.len() > 0 { c.runs.push(plain_run_view(seq!['\n'])) } else { c.runs };
    CellView { runs: runs + p, ..c }
}

/// What an end tag closes.
pub open spec fn end_element(name: Seq<char>, m: DocxModel) -> DocxModel {
    if name == "p"@ {
        match m.paragraph {
            Some(p) => match m.fmt.cell {
                Some(c) => DocxModel {
                    paragraph: None,
                    fmt: FormatModel { cell: Some(cell_with_paragraph(c, p)), ..m.fmt },
                    ..m
                },
                None => match m.fmt.heading {
                    Some(l) => DocxModel { paragraph: None, blocks: m.blocks.push(BlockView::Heading(p, l)), ..m },
                    None => DocxModel { paragraph: None, blocks: m.blocks.push(BlockView::Paragraph(p)), ..m },
                },
            },
            None => m,
        }
    } else if name == "r"@ {
        match m.fmt.run {
            Some(r) => DocxModel {
                paragraph: match m.paragraph { Some(p) => Some(p.push(r)), None => None },
                fmt: FormatModel { run: None, ..m.fmt },
                ..m
            },
            None => m,
        }
    } else if name == "t"@ {
        DocxModel { in_text: false, ..m }
    } else if name == "tc"@ {
        match m.fmt.cell {
            Some(c) => DocxModel {
                row: match m.row { Some(r) => Some(r.push(c)), None => None },
                fmt: FormatModel { cell: None, ..m.fmt },
                ..m
            },
            None => m,
        }
    } else if name == "tr"@ {
        match m.row {
            Some(r) => DocxModel {
                row: None,
                fmt: FormatModel {
                    table: match m.fmt.table {
                        Some(t) => Some(TableView { rows: t.rows.push(r), ..t }),
                        None => None,
                    },
                    ..m.fmt
                },
                ..m
            },
            None => m,
        }
    } else if name == "tbl"@ {
        match m.fmt.table {
            Some(t) => DocxModel {
                blocks: m.blocks.push(BlockView::Table(t)),
                fmt: FormatModel { table: None, ..m.fmt },
                ..m
            },
            None => m,
        }
    } else {
        m
    }
}

/// The state after an event, or how reading stops.
pub enum DocxStep {
    Continue(DocxModel),
    Failed(Seq<char>),
    Panics,
}

/// One event: formatting tags change the formatting state, other start
/// tags open elements, end tags close them, and text inside `w:t` joins
/// the current run (a decoding error there ends reading).
pub open spec fn docx_step(m: DocxModel, ev: XmlEventView) -> DocxStep {
    match ev {
        XmlEventView::Start(tag) => {
            let name = local_name_of(tag.name);
            match formatting_step(name, tag, m.fmt) {
                FormatStep::Panics => DocxStep::Panics,
                FormatStep::Handled(f) => DocxStep::Continue(DocxModel { fmt: f, ..m }),
                FormatStep::NotFormatting => DocxStep::Continue(start_element(name, m)),
            }
        },
        XmlEventView::Empty(tag) => {
            let name = local_name_of(tag.name);
            match formatting_step(name, tag, m.fmt) {
                FormatStep::Panics => DocxStep::Panics,
                FormatStep::Handled(f) => DocxStep::Continue(DocxModel { fmt: f, ..m }),
                FormatStep::NotFormatting => DocxStep::Continue(m),
            }
        },
        XmlEventView::End(raw) => DocxStep::Continue(end_element(local_name_of(raw), m)),
        XmlEventView::Text(r) => if m.in_text {
            match r {
                Ok(t) => DocxStep::Continue(DocxModel {
                    fmt: with_run(m.fmt, match m.fmt.run {
                        Some(run) => Some(RunView { text: run.text + t, ..run }),
                        None => None,
                    }),
                    ..m
                }),
                Err(e) => DocxStep::Failed(e),
            }
        } else {
            DocxStep::Continue(m)
        },
        XmlEventView::Other => DocxStep::Continue(m),
    }
}

/// The state after a sequence of events.
pub open spec fn docx_fold(events: Seq<XmlEventView>) -> DocxStep
    decreases events.len(),
{
    if events.len() == 0 {
        DocxStep::Continue(docx_initial())
    } else {
        match docx_fold(events.drop_last()) {
            DocxStep::Continue(m) => docx_step(m, events.last()),
            other => other,
        }
    }
}

/// Once reading has stopped, later events change nothing.
pub proof fn lemma_docx_fold_stopped(evs: Seq<XmlEventView>, i: int, j: int)
    requires
        0 <= i <= j <= evs.len(),
        !(docx_fold(evs.take(i)) is Continue),
    ensures
        docx_fold(evs.take(j)) == docx_fold(evs.take(i)),
    decreases j - i,
{
    if j > i {
        lemma_docx_fold_stopped(evs, i, j - 1);
        assert(evs.take(j).drop_last() =~= evs.take(j - 1));
    }
}

/// How reading a document's events ends.
pub enum DocxOutcome {
    Parsed(Seq<BlockView>),
    Failed(Seq<char>),
    Panics,
}

/// The blocks of the document, or the first error (a text decoding
/// error met inside `w:t`, else the reader's error).
pub open spec fn docx_outcome(stream: XmlStreamView) -> DocxOutcome {
    match docx_fold(stream.events) {
        DocxStep::Continue(m) => match stream.error {
            Some(e) => DocxOutcome::Failed(e),
            None => DocxOutcome::Parsed(m.blocks),
        },
        DocxStep::Failed(e) => DocxOutcome::Failed(e),
        DocxStep::Panics => DocxOutcome::Panics,
    }
}

/// The executable state of the reader.
pub struct DocxParser {
    pub blocks: Vec<DocBlock>,
    pub current_paragraph: Option<ParagraphBlock>,
    pub current_row: Option<TableRow>,
    pub in_text: bool,
    pub state: ParserState,
}

impl View for DocxParser {
    type V = DocxModel;

    open spec fn view(&self) -> DocxModel {
        DocxModel {
            blocks: blocks_view(self.blocks@),
            paragraph: opt_paragraph_view(self.current_paragraph),
            row: opt_row_view(self.current_row),
            in_text: self.in_text,
            fmt: self.state@,
        }
    }
}

fn newline_run() -> (r: Run)
    ensures
        r@ == plain_run_view(seq!['\n']),
{
    let mut r = Run::new_empty();
    push_char(&mut r.text, '\n');
    assert(r.text@ =~= seq!['\n']);
    r
}

impl DocxParser {
    pub fn new() -> (p: DocxParser)
        ensures
            p@ == docx_initial(),
    {
        let p = DocxParser {
            blocks: Vec::new(),
            current_paragraph: None,
            current_row: None,
            in_text: false,
            state: ParserState {
                current_run: None,
                current_table: None,
                current_cell: None,
                paragraph_heading_level: None,
            },
        };
        assert(p@.blocks =~= Seq::<BlockView>::empty());
        p
    }

    pub fn start_element(&mut self, name: &str)
        ensures
            final(self)@ == start_element(name@, old(self)@),
    {
        let nc = chars_of(name);
        if chars_are(nc.as_slice(), "p") {
            self.current_paragraph = Some(ParagraphBlock { runs: Vec::new() });
            self.state.paragraph_heading_level = None;
            assert(opt_paragraph_view(self.current_paragraph) == Some(Seq::<RunView>::empty()));
        } else if chars_are(nc.as_slice(), "r") {
            self.state.current_run = Some(Run::new_empty());
        } else if chars_are(nc.as_slice(), "t") {
            self.in_text = true;
        } else if chars_are(nc.as_slice(), "tbl") {
            let t = TableBlock { rows: Vec::new(), column_widths: Vec::new() };
            assert(t@.rows =~= Seq::<Seq<CellView>>::empty());
            assert(t@.column_widths =~= Seq::<u32>::empty());
            self.state.current_table = Some(t);
        } else if chars_are(nc.as_slice(), "tr") {
            self.current_row = Some(TableRow { cells: Vec::new() });
            assert(opt_row_view(self.current_row) == Some(Seq::<CellView>::empty()));
        } else if chars_are(nc.as_slice(), "tc") {
            let c = TableCell { runs: Vec::new(), width: None };
            assert(c@.runs =~= Seq::<RunView>::empty());
            self.state.current_cell = Some(c);
        }
    }

    fn end_paragraph(&mut self)
        ensures
            final(self)@ == end_element("p"@, old(self)@),
    {
        if let Some(paragraph) = self.current_paragraph.take() {
            if let Some(mut cell) = self.state.current_cell.take() {
                let ghost c0 = cell@;
                if cell.runs.len() > 0 {
                    let nl = newline_run();
                    proof { lemma_runs_view_push(cell.runs@, nl); }
                    cell.runs.push(nl);
                }
                let ghost before = cell.runs@;
                let mut runs = paragraph.runs;
                let ghost moved = runs@;
                cell.runs.append(&mut runs);
                proof { lemma_runs_view_add(before, moved); }
                assert(cell@ == cell_with_paragraph(c0, paragraph@));
                self.state.current_cell = Some(cell);
            } else {
                match self.state.paragraph_heading_level {
                    Some(level) => {
                        let b = DocBlock::Heading(paragraph, level);
                        proof { lemma_blocks_view_push(self.blocks@, b); }
                        self.blocks.push(b);
                    },
                    None => {
                        let b = DocBlock::Paragraph(paragraph);
                        proof { lemma_blocks_view_push(self.blocks@, b); }
                        self.blocks.push(b);
                    },
                }
            }
        }
    }

    fn end_run(&mut self)
        ensures
            final(self)@ == end_element("r"@, old(self)@),
    {
        proof {
            reveal_strlit("p");
            reveal_strlit("r");
            assert("r"@[0] != "p"@[0]);
        }
        if let Some(run) = self.state.current_run.take() {
            if let Some(mut paragraph) = self.current_paragraph.take() {
                proof { lemma_runs_view_push(paragraph.runs@, run); }
                paragraph.runs.push(run);
                self.current_paragraph = Some(paragraph);
            }
        }
    }

    fn end_cell(&mut self)
        ensures
            old(self)@.fmt.cell is Some ==> final(self)@ == (DocxModel {
                row: match old(self)@.row { Some(r) => Some(r.push(old(self)@.fmt.cell->0)), None => None },
                fmt: FormatModel { cell: None, ..old(self)@.fmt },
                ..old(self)@
            }),
            old(self)@.fmt.cell is None ==> final(self)@ == old(self)@,
    {
        if let Some(cell) = self.state.current_cell.take() {
            if let Some(mut row) = self.current_row.take() {
                proof { lemma_cells_view_push(row.cells@, cell); }
                row.cells.push(cell);
                self.current_row = Some(row);
            }
        }
    }

    fn end_row(&mut self)
        ensures
            old(self)@.row is Some ==> final(self)@ == (DocxModel {
                row: None,
                fmt: FormatModel {
                    table: match old(self)@.fmt.table {
                        Some(t) => Some(TableView { rows: t.rows.push(old(self)@.row->0), ..t }),
                        None => None,
                    },
                    ..old(self)@.fmt
                },
                ..old(self)@
            }),
            old(self)@.row is None ==> final(self)@ == old(self)@,
    {
        if let Some(row) = self.current_row.take() {
            if let Some(mut table) = self.state.current_table.take() {
                proof { lemma_rows_view_push(table.rows@, row); }
                table.rows.push(row);
                self.state.current_table = Some(table);
            }
        }
    }

    fn end_table(&mut self)
        ensures
            old(self)@.fmt.table is Some ==> final(self)@ == (DocxModel {
                blocks: old(self)@.blocks.push(BlockView::Table(old(self)@.fmt.table->0)),
                fmt: FormatModel { table: None, ..old(self)@.fmt },
                ..old(self)@
            }),
            old(self)@.fmt.table is None ==> final(self)@ == old(self)@,
    {
        if let Some(table) = self.state.current_table.take() {
            let b = DocBlock::Table(table);
            proof { lemma_blocks_view_push(self.blocks@, b); }
            self.blocks.push(b);
        }
    }

    pub fn end_element(&mut self, name: &str)
        ensures
            final(self)@ == end_element(name@, old(self)@),
    {
        let nc = chars_of(name);
        if chars_are(nc.as_slice(), "p") {
            self.end_paragraph();
        } else if chars_are(nc.as_slice(), "r") {
            self.end_run();
        } else if chars_are(nc.as_slice(), "t") {
            self.in_text = false;
        } else if chars_are(nc.as_slice(), "tc") {
            self.end_cell();
        } else if chars_are(nc.as_slice(), "tr") {
            self.end_row();
        } else if chars_are(nc.as_slice(), "tbl") {
            self.end_table();
        }
    }

    pub fn push_text(&mut self, text: &str)
        ensures
            final(self)@ == (DocxModel {
                fmt: with_run(old(self)@.fmt, match old(self)@.fmt.run {
                    Some(run) => Some(RunView { text: run.text + text@, ..run }),
                    None => None,
                }),
                ..old(self)@
            }),
    {
        if let Some(mut run) = self.state.current_run.take() {
            push_str(&mut run.text, text);
            self.state.current_run = Some(run);
        }
    }
}

/// How reading events ended: the document, an error, or the event at
/// which reading would have sliced a colour inside a character.
pub enum DocxRun {
    Parsed(Document),
    Failed(String),
    WouldPanic,
}

pub open spec fn docx_run_matches(r: DocxRun, o: DocxOutcome) -> bool {
    match (r, o) {
        (DocxRun::Parsed(d), DocxOutcome::Parsed(b)) => d@ == b,
        (DocxRun::Failed(e), DocxOutcome::Failed(m)) => e@ == m,
        (DocxRun::WouldPanic, DocxOutcome::Panics) => true,
        _ => false,
    }
}

/// Runs the reader over a stream of events.
pub fn run_docx_events(stream: &XmlEventStream) -> (r: DocxRun)
    ensures
        docx_run_matches(r, docx_outcome(stream@)),
{
    let ghost evs = stream@.events;
    let mut p = DocxParser::new();
    let mut i: usize = 0;
    assert(evs.take(0) =~= Seq::<XmlEventView>::empty());
    while i < stream.events.len()
        invariant
            i <= stream.events.len(),
            evs == stream@.events,
            evs.len() == stream.events@.len(),
            docx_fold(evs.take(i as int)) == DocxStep::Continue(p@),
        decreases stream.events.len() - i,
    {
        let ev = &stream.events[i];
        assert(evs.take(i + 1).drop_last() =~= evs.take(i as int));
        assert(evs.take(i + 1).last() == ev@);
        match ev {
            XmlEvent::Start(tag) => {
                let name = local_name(tag.name.as_slice());
                match apply_formatting_tag_checked(name.as_str(), tag, &mut p.state) {
                    None => {
                        proof { lemma_docx_fold_stopped(evs, i + 1, evs.len() as int); }
                        assert(evs.take(evs.len() as int) =~= evs);
                        return DocxRun::WouldPanic;
                    },
                    Some(true) => {},
                    Some(false) => p.start_element(name.as_str()),
                }
            },
            XmlEvent::Empty(tag) => {
                let name = local_name(tag.name.as_slice());
                match apply_formatting_tag_checked(name.as_str(), tag, &mut p.state) {
                    None => {
                        proof { lemma_docx_fold_stopped(evs, i + 1, evs.len() as int); }
                        assert(evs.take(evs.len() as int) =~= evs);
                        return DocxRun::WouldPanic;
                    },
                    Some(_) => {},
                }
            },
            XmlEvent::End(raw) => {
                let name = local_name(raw.as_slice());
                p.end_element(name.as_str());
            },
            XmlEvent::Text(r) => {
                if p.in_text {
                    match r {
                        Ok(t) => p.push_text(t.as_str()),
                        Err(e) => {
                            proof { lemma_docx_fold_stopped(evs, i + 1, evs.len() as int); }
                            assert(evs.take(evs.len() as int) =~= evs);
                            return DocxRun::Failed(e.clone());
                        },
                    }
                }
            },
            XmlEvent::Other => {},
        }
        i = i + 1;
    }
    assert(evs.take(i as int) =~= evs);
    match &stream.error {
        Some(e) => DocxRun::Failed(e.clone()),
        None => DocxRun::Parsed(Document { blocks: p.blocks }),
    }
}

/// The document that a stream of reader events describes, or the error
/// that ends reading: a text decoding error inside `w:t`, else the
/// reader's own error.
pub fn parse_document_events(stream: &XmlEventStream) -> (r: Result<Document, String>)
    requires
        !(docx_outcome(stream@) is Panics),
    ensures
        match docx_outcome(stream@) {
            DocxOutcome::Parsed(b) => r matches Ok(d) && d@ == b,
            DocxOutcome::Failed(m) => r matches Err(e) && e@ == m,
            DocxOutcome::Panics => false,
        },
{
    match run_docx_events(stream) {
        DocxRun::Parsed(d) => Ok(d),
        DocxRun::Failed(e) => Err(e),
        DocxRun::WouldPanic => Err(String::new()),
    }
}

/// Reads the XML of `word/document.xml` into a document.  `None` when
/// a `w:color` value would be sliced inside a character, where reading
/// cannot go on.
pub fn parse_document(xml: &str) -> (r: Option<Result<Document, String>>)
    ensures
        match docx_outcome(xml_event_stream(xml@)) {
            DocxOutcome::Parsed(b) => r matches Some(Ok(d)) && d@ == b,
            DocxOutcome::Failed(m) => r matches Some(Err(e)) && e@ == m,
            DocxOutcome::Panics => r is None,
        },
{
    let stream = read_xml_events(xml);
    match run_docx_events(&stream) {
        DocxRun::Parsed(d) => Some(Ok(d)),
        DocxRun::Failed(e) => Some(Err(e)),
        DocxRun::WouldPanic => None,
    }
}


/// Pieces of text, one after another.
pub open spec fn joined(xs: Seq<Seq<char>>) -> Seq<char>
    decreases xs.len(),
{
    if xs.len() == 0 {
        Seq::empty()
    } else {
        joined(xs.drop_last()) + xs.last()
    }
}

/// Character data events holding the pieces of text.
pub open spec fn text_events(xs: Seq<Seq<char>>) -> Seq<XmlEventView> {
    xs.map_values(|x: Seq<char>| XmlEventView::Text(Ok(x)))
}

proof fn lemma_docx_fold_push(evs: Seq<XmlEventView>, e: XmlEventView)
    ensures
        docx_fold(evs.push(e)) == match docx_fold(evs) {
            DocxStep::Continue(m) => docx_step(m, e),
            other => other,
        },
{
    assert(evs.push(e).drop_last() =~= evs);
}

/// Character data inside a run's `w:t` element joins the run in order:
/// after pieces of text, the run's text is what it was followed by the
/// pieces, one after another, and nothing else of the reader's state has
/// changed.
pub proof fn law_docx_text_joins_run(prefix: Seq<XmlEventView>, m: DocxModel, r: RunView, xs: Seq<Seq<char>>)
    requires
        docx_fold(prefix) == DocxStep::Continue(m),
        m.in_text,
        m.fmt.run == Some(r),
    ensures
        docx_fold(prefix + text_events(xs)) == DocxStep::Continue(
            DocxModel { fmt: with_run(m.fmt, Some(RunView { text: r.text + joined(xs), ..r })), ..m },
        ),
    decreases xs.len(),
{
    if xs.len() == 0 {
        assert(prefix + text_events(xs) =~= prefix);
        assert(r.text + joined(xs) =~= r.text);
        assert(with_run(m.fmt, Some(RunView { text: r.text, ..r })) == m.fmt);
    } else {
        let p = xs.drop_last();
        law_docx_text_joins_run(prefix, m, r, p);
        assert(text_events(xs) =~= text_events(p).push(XmlEventView::Text(Ok(xs.last()))));
        assert(prefix + text_events(xs) =~= (prefix + text_events(p)).push(XmlEventView::Text(Ok(xs.last()))));
        lemma_docx_fold_push(prefix + text_events(p), XmlEventView::Text(Ok(xs.last())));
        assert(r.text + joined(p) + xs.last() =~= r.text + joined(xs));
    }
}

proof fn lemma_element_names(tag: XmlTagView, f: FormatModel)
    ensures
        "p"@ != "r"@,
        "p"@ != "t"@,
        "r"@ != "t"@,
        formatting_step("p"@, tag, f) == FormatStep::NotFormatting,
        formatting_step("r"@, tag, f) == FormatStep::NotFormatting,
        formatting_step("t"@, tag, f) == FormatStep::NotFormatting,
{
    reveal_strlit("p");
    reveal_strlit("r");
    reveal_strlit("t");
    reveal_strlit("pStyle");
    reveal_strlit("b");
    reveal_strlit("i");
    reveal_strlit("u");
    reveal_strlit("color");
    reveal_strlit("sz");
    reveal_strlit("br");
    reveal_strlit("gridCol");
    reveal_strlit("tcW");
    assert("p"@.len() == 1 && "r"@.len() == 1 && "t"@.len() == 1);
    assert("pStyle"@.len() == 6 && "color"@.len() == 5 && "sz"@.len() == 2);
    assert("br"@.len() == 2 && "gridCol"@.len() == 7 && "tcW"@.len() == 3);
    assert("p"@[0] != "r"@[0]);
    assert("p"@[0] != "t"@[0]);
    assert("r"@[0] != "t"@[0]);
    assert("p"@[0] != "b"@[0] && "p"@[0] != "i"@[0] && "p"@[0] != "u"@[0]);
    assert("r"@[0] != "b"@[0] && "r"@[0] != "i"@[0] && "r"@[0] != "u"@[0]);
    assert("t"@[0] != "b"@[0] && "t"@[0] != "i"@[0] && "t"@[0] != "u"@[0]);
}

proof fn lemma_element_names_tables()
    ensures
        "p"@ != "tc"@ && "p"@ != "tr"@ && "p"@ != "tbl"@,
        "r"@ != "tc"@ && "r"@ != "tr"@ && "r"@ != "tbl"@,
        "t"@ != "tc"@ && "t"@ != "tr"@ && "t"@ != "tbl"@,
{
    reveal_strlit("p");
    reveal_strlit("r");
    reveal_strlit("t");
    reveal_strlit("tbl");
    reveal_strlit("tr");
    reveal_strlit("tc");
    assert("p"@.len() == 1 && "r"@.len() == 1 && "t"@.len() == 1);
    assert("tbl"@.len() == 3 && "tr"@.len() == 2 && "tc"@.len() == 2);
}

/// A paragraph of one run with one `w:t` element, read outside any table
/// cell, adds one paragraph block whose single run holds that text with
/// no formatting.
pub proof fn law_docx_paragraph_of_one_run(
    prefix: Seq<XmlEventView>,
    m: DocxModel,
    p: XmlTagView,
    r: XmlTagView,
    t: XmlTagView,
    t_end: Seq<u8>,
    r_end: Seq<u8>,
    p_end: Seq<u8>,
    x: Seq<char>,
)
    requires
        docx_fold(prefix) == DocxStep::Continue(m),
        m.fmt.cell is None,
        local_name_of(p.name) == "p"@,
        local_name_of(r.name) == "r"@,
        local_name_of(t.name) == "t"@,
        local_name_of(t_end) == "t"@,
        local_name_of(r_end) == "r"@,
        local_name_of(p_end) == "p"@,
    ensures
        docx_fold(prefix + seq![
            XmlEventView::Start(p),
            XmlEventView::Start(r),
            XmlEventView::Start(t),
            XmlEventView::Text(Ok(x)),
            XmlEventView::End(t_end),
            XmlEventView::End(r_end),
            XmlEventView::End(p_end),
        ]) matches DocxStep::Continue(m2) && m2.blocks == m.blocks.push(BlockView::Paragraph(seq![plain_run_view(x)])),
{
    lemma_element_names(p, m.fmt);
    lemma_element_names(r, start_element("p"@, m).fmt);
    lemma_element_names(t, start_element("r"@, start_element("p"@, m)).fmt);
    lemma_element_names_tables();
    let e0 = prefix;
    let e1 = e0.push(XmlEventView::Start(p));
    let e2 = e1.push(XmlEventView::Start(r));
    let e3 = e2.push(XmlEventView::Start(t));
    let e4 = e3.push(XmlEventView::Text(Ok(x)));
    let e5 = e4.push(XmlEventView::End(t_end));
    let e6 = e5.push(XmlEventView::End(r_end));
    let e7 = e6.push(XmlEventView::End(p_end));
    assert(formatting_step("p"@, p, m.fmt) == FormatStep::NotFormatting);
    lemma_docx_fold_push(e0, XmlEventView::Start(p));
    let m1 = start_element("p"@, m);
    assert(docx_fold(e1) == DocxStep::Continue(m1));
    assert(m1.paragraph == Some(Seq::<RunView>::empty()) && m1.fmt.heading is None && m1.fmt.cell is None);
    assert(formatting_step("r"@, r, m1.fmt) == FormatStep::NotFormatting);
    lemma_docx_fold_push(e1, XmlEventView::Start(r));
    let m2 = start_element("r"@, m1);
    assert(docx_fold(e2) == DocxStep::Continue(m2));
    assert(m2.fmt.run == Some(plain_run_view(Seq::empty())));
    assert(formatting_step("t"@, t, m2.fmt) == FormatStep::NotFormatting);
    lemma_docx_fold_push(e2, XmlEventView::Start(t));
    let m3 = start_element("t"@, m2);
    assert(docx_fold(e3) == DocxStep::Continue(m3));
    assert(m3.in_text);
    lemma_docx_fold_push(e3, XmlEventView::Text(Ok(x)));
    let m4 = DocxModel { fmt: with_run(m3.fmt, Some(RunView { text: Seq::<char>::empty() + x, ..plain_run_view(Seq::empty()) })), ..m3 };
    assert(docx_fold(e4) == DocxStep::Continue(m4));
    assert(m4.fmt.run == Some(plain_run_view(x)));
    lemma_docx_fold_push(e4, XmlEventView::End(t_end));
    let m5 = end_element("t"@, m4);
    assert(docx_fold(e5) == DocxStep::Continue(m5));
    lemma_docx_fold_push(e5, XmlEventView::End(r_end));
    let m6 = end_element("r"@, m5);
    assert(docx_fold(e6) == DocxStep::Continue(m6));
    assert(m6.paragraph == Some(Seq::<RunView>::empty().push(plain_run_view(x))));
    lemma_docx_fold_push(e6, XmlEventView::End(p_end));
    let m7 = end_element("p"@, m6);
    assert(docx_fold(e7) == DocxStep::Continue(m7));
    assert(Seq::<char>::empty() + x =~= x);
    assert(Seq::<RunView>::empty().push(plain_run_view(x)) =~= seq![plain_run_view(x)]);
    assert(e7 =~= prefix + seq![
        XmlEventView::Start(p),
        XmlEventView::Start(r),
        XmlEventView::Start(t),
        XmlEventView::Text(Ok(x)),
        XmlEventView::End(t_end),
        XmlEventView::End(r_end),
        XmlEventView::End(p_end),
    ]);
}


/// Closing a run appends the finished run to the open paragraph: its
/// earlier runs are kept in order and the run comes last; no run is open
/// afterwards and the blocks are unchanged.
pub proof fn law_docx_run_joins_paragraph(prefix: Seq<XmlEventView>, m: DocxModel, p: Seq<RunView>, r: RunView, r_end: Seq<u8>)
    requires
        docx_fold(prefix) == DocxStep::Continue(m),
        m.paragraph == Some(p),
        m.fmt.run == Some(r),
        local_name_of(r_end) == "r"@,
    ensures
        docx_fold(prefix.push(XmlEventView::End(r_end))) matches DocxStep::Continue(m2)
            && m2.paragraph matches Some(q)
            && q.len() == p.len() + 1
            && q.take(p.len() as int) == p
            && q[p.len() as int] == r
            && m2.fmt.run is None
            && m2.blocks == m.blocks,
{
    lemma_docx_fold_push(prefix, XmlEventView::End(r_end));
    lemma_element_names_tables();
    reveal_strlit("p");
    reveal_strlit("r");
    assert("p"@.len() == 1 && "r"@.len() == 1);
    assert("p"@[0] != "r"@[0]);
    let q = p.push(r);
    assert(q.take(p.len() as int) =~= p);
}

/// A paragraph of two runs, each with one `w:t` element, read outside any
/// table cell, adds one paragraph block holding exactly those two runs in
/// order, with no formatting.
pub proof fn law_docx_paragraph_of_two_runs(
    prefix: Seq<XmlEventView>,
    m: DocxModel,
    p: XmlTagView,
    r: XmlTagView,
    t: XmlTagView,
    t_end: Seq<u8>,
    r_end: Seq<u8>,
    p_end: Seq<u8>,
    x: Seq<char>,
    y: Seq<char>,
)
    requires
        docx_fold(prefix) == DocxStep::Continue(m),
        m.fmt.cell is None,
        local_name_of(p.name) == "p"@,
        local_name_of(r.name) == "r"@,
        local_name_of(t.name) == "t"@,
        local_name_of(t_end) == "t"@,
        local_name_of(r_end) == "r"@,
        local_name_of(p_end) == "p"@,
    ensures
        docx_fold(prefix + seq![
            XmlEventView::Start(p),
            XmlEventView::Start(r),
            XmlEventView::Start(t),
            XmlEventView::Text(Ok(x)),
            XmlEventView::End(t_end),
            XmlEventView::End(r_end),
            XmlEventView::Start(r),
            XmlEventView::Start(t),
            XmlEventView::Text(Ok(y)),
            XmlEventView::End(t_end),
            XmlEventView::End(r_end),
            XmlEventView::End(p_end),
        ]) matches DocxStep::Continue(m2)
            && m2.blocks == m.blocks.push(BlockView::Paragraph(seq![plain_run_view(x), plain_run_view(y)])),
{
    lemma_element_names(p, m.fmt);
    lemma_element_names_tables();
    let e0 = prefix;
    let e1 = e0.push(XmlEventView::Start(p));
    let e2 = e1.push(XmlEventView::Start(r));
    let e3 = e2.push(XmlEventView::Start(t));
    let e4 = e3.push(XmlEventView::Text(Ok(x)));
    let e5 = e4.push(XmlEventView::End(t_end));
    let e6 = e5.push(XmlEventView::End(r_end));
    let e7 = e6.push(XmlEventView::Start(r));
    let e8 = e7.push(XmlEventView::Start(t));
    let e9 = e8.push(XmlEventView::Text(Ok(y)));
    let e10 = e9.push(XmlEventView::End(t_end));
    let e11 = e10.push(XmlEventView::End(r_end));
    let e12 = e11.push(XmlEventView::End(p_end));
    lemma_docx_fold_push(e0, XmlEventView::Start(p));
    let m1 = start_element("p"@, m);
    assert(docx_fold(e1) == DocxStep::Continue(m1));
    lemma_element_names(r, m1.fmt);
    lemma_docx_fold_push(e1, XmlEventView::Start(r));
    let m2 = start_element("r"@, m1);
    assert(docx_fold(e2) == DocxStep::Continue(m2));
    lemma_element_names(t, m2.fmt);
    lemma_docx_fold_push(e2, XmlEventView::Start(t));
    let m3 = start_element("t"@, m2);
    assert(docx_fold(e3) == DocxStep::Continue(m3));
    lemma_docx_fold_push(e3, XmlEventView::Text(Ok(x)));
    let m4 = DocxModel { fmt: with_run(m3.fmt, Some(RunView { text: Seq::<char>::empty() + x, ..plain_run_view(Seq::empty()) })), ..m3 };
    assert(docx_fold(e4) == DocxStep::Continue(m4));
    assert(Seq::<char>::empty() + x =~= x);
    assert(m4.fmt.run == Some(plain_run_view(x)));
    lemma_docx_fold_push(e4, XmlEventView::End(t_end));
    let m5 = end_element("t"@, m4);
    assert(docx_fold(e5) == DocxStep::Continue(m5));
    lemma_docx_fold_push(e5, XmlEventView::End(r_end));
    let m6 = end_element("r"@, m5);
    assert(docx_fold(e6) == DocxStep::Continue(m6));
    assert(m6.paragraph == Some(Seq::<RunView>::empty().push(plain_run_view(x))));
    lemma_element_names(r, m6.fmt);
    lemma_docx_fold_push(e6, XmlEventView::Start(r));
    let m7 = start_element("r"@, m6);
    assert(docx_fold(e7) == DocxStep::Continue(m7));
    lemma_element_names(t, m7.fmt);
    lemma_docx_fold_push(e7, XmlEventView::Start(t));
    let m8 = start_element("t"@, m7);
    assert(docx_fold(e8) == DocxStep::Continue(m8));
    lemma_docx_fold_push(e8, XmlEventView::Text(Ok(y)));
    let m9 = DocxModel { fmt: with_run(m8.fmt, Some(RunView { text: Seq::<char>::empty() + y, ..plain_run_view(Seq::empty()) })), ..m8 };
    assert(docx_fold(e9) == DocxStep::Continue(m9));
    assert(Seq::<char>::empty() + y =~= y);
    assert(m9.fmt.run == Some(plain_run_view(y)));
    lemma_docx_fold_push(e9, XmlEventView::End(t_end));
    let m10 = end_element("t"@, m9);
    assert(docx_fold(e10) == DocxStep::Continue(m10));
    lemma_docx_fold_push(e10, XmlEventView::End(r_end));
    let m11 = end_element("r"@, m10);
    assert(docx_fold(e11) == DocxStep::Continue(m11));
    assert(Seq::<RunView>::empty().push(plain_run_view(x)).push(plain_run_view(y)) =~= seq![plain_run_view(x), plain_run_view(y)]);
    assert(m11.paragraph == Some(seq![plain_run_view(x), plain_run_view(y)]));
    lemma_docx_fold_push(e11, XmlEventView::End(p_end));
    let m12 = end_element("p"@, m11);
    assert(docx_fold(e12) == DocxStep::Continue(m12));
    assert(e12 =~= prefix + seq![
        XmlEventView::Start(p),
        XmlEventView::Start(r),
        XmlEventView::Start(t),
        XmlEventView::Text(Ok(x)),
        XmlEventView::End(t_end),
        XmlEventView::End(r_end),
        XmlEventView::Start(r),
        XmlEventView::Start(t),
        XmlEventView::Text(Ok(y)),
        XmlEventView::End(t_end),
        XmlEventView::End(r_end),
        XmlEventView::End(p_end),
    ]);
}

} // verus!
