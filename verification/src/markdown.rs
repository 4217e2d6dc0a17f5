//! The Markdown reader: from `pulldown_cmark` events to a document.

use vstd::prelude::*;
use crate::document::{
    Run, RunView, ParagraphBlock, TableBlock, TableView, TableRow, TableCell, CellView, DocBlock,
    BlockView, Document, plain_run_view, opt_paragraph_view, opt_cell_view, opt_row_view,
    opt_table_view, blocks_view, lemma_runs_view_push, lemma_cells_view_push,
    lemma_rows_view_push, lemma_blocks_view_push,
};
use crate::text::{decimal_chars, decimal_string_chars, string_from_chars, push_str, push_char};
use pulldown_cmark::{Event as MdParserEvent, Options, Parser, Tag, TagEnd};

verus! {

/// The tags the Markdown reader distinguishes.  A heading carries its
/// level (1 to 6); a list its start number when it is ordered (only on
/// start tags).
#[derive(Clone, Copy, Debug, PartialEq, Eq, Structural)]
pub enum MdTag {
    Heading(u8),
    Paragraph,
    BlockQuote,
    Strong,
    Emphasis,
    Strikethrough,
    List(Option<u64>),
    Item,
    CodeBlock,
    Table,
    TableHead,
    TableRow,
    TableCell,
    Other,
}

/// The parser events the Markdown reader distinguishes.
#[derive(Debug)]
pub enum MdEvent {
    Start(MdTag),
    End(MdTag),
    Text(String),
    Code(String),
    SoftBreak,
    HardBreak,
    Rule,
    Other,
}

pub enum MdEventView {
    Start(MdTag),
    End(MdTag),
    Text(Seq<char>),
    Code(Seq<char>),
    SoftBreak,
    HardBreak,
    Rule,
    Other,
}

impl View for MdEvent {
    type V = MdEventView;

    open spec fn view(&self) -> MdEventView {
        match self {
            MdEvent::Start(t) => MdEventView::Start(*t),
            MdEvent::End(t) => MdEventView::End(*t),
            MdEvent::Text(s) => MdEventView::Text(s@),
            MdEvent::Code(s) => MdEventView::Code(s@),
            MdEvent::SoftBreak => MdEventView::SoftBreak,
            MdEvent::HardBreak => MdEventView::HardBreak,
            MdEvent::Rule => MdEventView::Rule,
            MdEvent::Other => MdEventView::Other,
        }
    }
}

pub open spec fn md_events_view(s: Seq<MdEvent>) -> Seq<MdEventView> {
    s.map_values(|e: MdEvent| e@)
}

/// The events `pulldown_cmark` produces for a text with tables,
/// strikethrough and task lists enabled: a function of the text alone.
pub uninterp spec fn md_event_stream(md: Seq<char>) -> Seq<MdEventView>;

/// `pulldown_cmark`'s tag-end type, carried to its conversion.
#[verifier::external_type_specification]
#[verifier::external_body]
pub struct ExTagEnd(TagEnd);

/// Converts a `pulldown_cmark` tag end, with the list start of the
/// matching start tag, into the reader's tag; links, images and the
/// rest become `Other`.
#[verifier::external_body]
fn md_tag_from(t: TagEnd, list_start: Option<u64>) -> MdTag {
    match t {
        TagEnd::Heading(level) => MdTag::Heading(level as u8),
        TagEnd::Paragraph => MdTag::Paragraph, TagEnd::BlockQuote(_) => MdTag::BlockQuote,
        TagEnd::Strong => MdTag::Strong, TagEnd::Emphasis => MdTag::Emphasis,
        TagEnd::Strikethrough => MdTag::Strikethrough, TagEnd::List(_) => MdTag::List(list_start),
        TagEnd::Item => MdTag::Item, TagEnd::CodeBlock => MdTag::CodeBlock,
        TagEnd::Table => MdTag::Table, TagEnd::TableHead => MdTag::TableHead,
        TagEnd::TableRow => MdTag::TableRow, TagEnd::TableCell => MdTag::TableCell,
        _ => MdTag::Other,
    }
}

/// Every heading tag among the events has a level from 1 to 6.
pub open spec fn heading_levels_in_range(evs: Seq<MdEventView>) -> bool {
    forall|i: int| 0 <= i < evs.len() ==> match #[trigger] evs[i] {
        MdEventView::Start(MdTag::Heading(l)) => 1 <= l <= 6,
        MdEventView::End(MdTag::Heading(l)) => 1 <= l <= 6,
        _ => true,
    }
}

/// Runs `pulldown_cmark::Parser::new_ext` with tables, strikethrough and
/// task lists over the text and converts its events; the events are
/// left to the name.  Heading levels are those of `HeadingLevel`, whose
/// variants `H1` to `H6` are numbered 1 to 6.
#[verifier::external_body]
pub(crate) fn markdown_events(md: &str) -> (r: Vec<MdEvent>)
    ensures
        md_events_view(r@) == md_event_stream(md@),
        heading_levels_in_range(md_events_view(r@)),
{
    let options = Options::ENABLE_TABLES | Options::ENABLE_STRIKETHROUGH | Options::ENABLE_TASKLISTS;
    Parser::new_ext(md, options).map(|event| match event {
        MdParserEvent::Start(tag) => {
            let start = if let Tag::List(n) = &tag { *n } else { None };
            MdEvent::Start(md_tag_from(tag.to_end(), start))
        },
        MdParserEvent::End(tag) => MdEvent::End(md_tag_from(tag, None)),
        MdParserEvent::Text(t) => MdEvent::Text(t.to_string()),
        MdParserEvent::Code(t) => MdEvent::Code(t.to_string()),
        MdParserEvent::SoftBreak => MdEvent::SoftBreak,
        MdParserEvent::HardBreak => MdEvent::HardBreak,
        MdParserEvent::Rule => MdEvent::Rule,
        _ => MdEvent::Other,
    }).collect()
}

/// Emphasis in effect.
#[derive(Clone, Copy, Debug, PartialEq, Eq, Structural)]
pub struct RunStyle {
    pub bold: bool,
    pub italic: bool,
}

/// An open list: its start number if ordered, and how many lists were
/// open around it.
#[derive(Clone, Copy, Debug, PartialEq, Eq, Structural)]
pub struct ListFrame {
    pub ordered_next: Option<u64>,
    pub depth: usize,
}

/// The Markdown reader's state between two events.
pub struct MdModel {
    pub blocks: Seq<BlockView>,
    pub paragraph: Option<Seq<RunView>>,
    pub owners: Seq<bool>,
    pub heading: Option<u8>,
    pub quote_depth: usize,
    pub table: Option<TableView>,
    pub row: Option<Seq<CellView>>,
    pub cell: Option<CellView>,
    pub column_count: usize,
    pub styles: Seq<RunStyle>,
    pub lists: Seq<ListFrame>,
}

pub open spec fn md_initial() -> MdModel {
    MdModel {
        blocks: Seq::empty(),
        paragraph: None,
        owners: Seq::empty(),
        heading: None,
        quote_depth: 0,
        table: None,
        row: None,
        cell: None,
        column_count: 0,
        styles: Seq::empty(),
        lists: Seq::empty(),
    }
}

/// The emphasis in effect: the innermost, or none.
pub open spec fn md_style(m: MdModel) -> RunStyle {
    if m.styles.len() > 0 {
        m.styles.last()
    } else {
        RunStyle { bold: false, italic: false }
    }
}

/// Opens an empty paragraph when none is open.
pub open spec fn md_ensure_paragraph(m: MdModel) -> MdModel {
    if m.paragraph is None {
        MdModel { paragraph: Some(Seq::empty()), ..m }
    } else {
        m
    }
}

/// A run goes to the open table cell, else to the open paragraph.
pub open spec fn md_push_run(m: MdModel, r: RunView) -> MdModel {
    match m.cell {
        Some(c) => MdModel { cell: Some(CellView { runs: c.runs.push(r), ..c }), ..m },
        None => match m.paragraph {
            Some(p) => MdModel { paragraph: Some(p.push(r)), ..m },
            None => m,
        },
    }
}

/// Non-empty text becomes a run with the emphasis in effect.
pub open spec fn md_push_text(m: MdModel, t: Seq<char>) -> MdModel {
    if t.len() == 0 {
        m
    } else {
        let m1 = md_ensure_paragraph(m);
        let st = md_style(m1);
        md_push_run(m1, RunView { text: t, bold: st.bold, italic: st.italic, ..plain_run_view(t) })
    }
}

/// A hard break becomes a plain run holding a line break.
pub open spec fn md_push_break(m: MdModel) -> MdModel {
    md_push_run(md_ensure_paragraph(m), plain_run_view(seq!['\n']))
}

/// Closes the open paragraph; a non-empty one becomes a block.
pub open spec fn md_flush(m: MdModel, level: Option<u8>) -> MdModel {
    match m.paragraph {
        Some(p) => if p.len() == 0 {
            MdModel { paragraph: None, ..m }
        } else {
            match level {
                Some(l) => MdModel { paragraph: None, blocks: m.blocks.push(BlockView::Heading(p, l)), ..m },
                None => MdModel { paragraph: None, blocks: m.blocks.push(BlockView::Paragraph(p)), ..m },
            }
        },
        None => m,
    }
}

/// `s` repeated `n` times.
pub open spec fn repeat_chars(s: Seq<char>, n: nat) -> Seq<char>
    decreases n,
{
    if n == 0 {
        Seq::empty()
    } else {
        repeat_chars(s, (n - 1) as nat) + s
    }
}

/// The marker written before a list item: two spaces per enclosing list,
/// then the list's start number and `. `, or `- ` for unordered lists.
pub open spec fn list_prefix_of(lists: Seq<ListFrame>) -> Seq<char> {
    if lists.len() == 0 {
        Seq::empty()
    } else {
        let indent = repeat_chars(seq![' ', ' '], (lists.len() - 1) as nat);
        match lists.last().ordered_next {
            Some(n) => indent + decimal_chars(n as nat) + seq!['.', ' '],
            None => indent + seq!['-', ' '],
        }
    }
}

/// What a start tag does.
pub open spec fn md_start(m: MdModel, tag: MdTag) -> MdModel {
    match tag {
        MdTag::Heading(level) => MdModel { heading: Some(level), ..md_ensure_paragraph(m) },
        MdTag::Paragraph => {
            let m1 = md_ensure_paragraph(m);
            MdModel { owners: m.owners.push(m.paragraph is None), ..m1 }
        },
        MdTag::BlockQuote => {
            let depth = (m.quote_depth + 1) as usize;
            let m1 = MdModel { quote_depth: depth, ..md_ensure_paragraph(m) };
            if m.paragraph is None {
                md_push_text(m1, repeat_chars(seq!['>', ' '], depth as nat))
            } else {
                m1
            }
        },
        MdTag::Strong => MdModel { styles: m.styles.push(RunStyle { bold: true, ..md_style(m) }), ..m },
        MdTag::Emphasis => MdModel { styles: m.styles.push(RunStyle { italic: true, ..md_style(m) }), ..m },
        MdTag::Strikethrough => MdModel { styles: m.styles.push(md_style(m)), ..m },
        MdTag::List(start) => MdModel {
            lists: m.lists.push(ListFrame { ordered_next: start, depth: m.lists.len() as usize }),
            ..m
        },
        MdTag::Item => {
            let m1 = md_ensure_paragraph(m);
            md_push_text(m1, list_prefix_of(m1.lists))
        },
        MdTag::CodeBlock => md_ensure_paragraph(m),
        MdTag::Table => MdModel {
            table: Some(TableView { rows: Seq::empty(), column_widths: Seq::empty() }),
            column_count: 0,
            ..m
        },
        MdTag::TableHead => MdModel { row: Some(Seq::empty()), ..m },
        MdTag::TableRow => MdModel { row: Some(Seq::empty()), ..m },
        MdTag::TableCell => MdModel { cell: Some(CellView { runs: Seq::empty(), width: None }), ..m },
        MdTag::Other => m,
    }
}

/// Finishing a table row: the widest row sets the column count, and the
/// row joins the open table.
pub open spec fn md_end_row(m: MdModel) -> MdModel {
    match m.row {
        Some(r) => MdModel {
            row: None,
            column_count: if m.column_count >= r.len() { m.column_count } else { r.len() as usize },
            table: match m.table {
                Some(t) => Some(TableView { rows: t.rows.push(r), ..t }),
                None => None,
            },
            ..m
        },
        None => m,
    }
}

/// A sequence of `n` zeros.
pub open spec fn zeros(n: nat) -> Seq<u32> {
    Seq::new(n, |i: int| 0u32)
}

/// What an end tag does.
pub open spec fn md_end(m: MdModel, tag: MdTag) -> MdModel {
    match tag {
        MdTag::Heading(_) => md_flush(MdModel { heading: None, ..m }, m.heading),
        MdTag::Paragraph => {
            let owned = if m.owners.len() > 0 { m.owners.last() } else { true };
            let m1 = MdModel { owners: if m.owners.len() > 0 { m.owners.drop_last() } else { m.owners }, ..m };
            if owned { md_flush(m1, None) } else { m1 }
        },
        MdTag::BlockQuote => {
            let depth = if m.quote_depth > 0 { (m.quote_depth - 1) as usize } else { 0usize };
            let m1 = MdModel { quote_depth: depth, ..m };
            if depth == 0 { md_flush(m1, None) } else { m1 }
        },
        MdTag::Strong | MdTag::Emphasis | MdTag::Strikethrough => MdModel {
            styles: if m.styles.len() > 0 { m.styles.drop_last() } else { m.styles },
            ..m
        },
        MdTag::List(_) => MdModel {
            lists: if m.lists.len() > 0 { m.lists.drop_last() } else { m.lists },
            ..m
        },
        MdTag::Item => md_flush(m, None),
        MdTag::CodeBlock => md_flush(m, None),
        MdTag::Table => match m.table {
            Some(t) => MdModel {
                table: None,
                blocks: m.blocks.push(BlockView::Table(TableView { column_widths: zeros(m.column_count as nat), ..t })),
                ..m
            },
            None => m,
        },
        MdTag::TableHead => md_end_row(m),
        MdTag::TableRow => md_end_row(m),
        MdTag::TableCell => match m.cell {
            Some(c) => MdModel {
                cell: None,
                row: match m.row { Some(r) => Some(r.push(c)), None => None },
                ..m
            },
            None => m,
        },
        MdTag::Other => m,
    }
}

/// What one event does: tags open and close structure, text and code
/// become runs, a soft break a space, a hard break a line break, and a
/// thematic break a paragraph of `---`.
pub open spec fn md_step(m: MdModel, ev: MdEventView) -> MdModel {
    match ev {
        MdEventView::Start(t) => md_start(m, t),
        MdEventView::End(t) => md_end(m, t),
        MdEventView::Text(s) => md_push_text(m, s),
        MdEventView::Code(s) => md_push_text(m, s),
        MdEventView::SoftBreak => md_push_text(m, seq![' ']),
        MdEventView::HardBreak => md_push_break(m),
        MdEventView::Rule => MdModel {
            blocks: m.blocks.push(BlockView::Paragraph(seq![plain_run_view(seq!['-', '-', '-'])])),
            ..m
        },
        MdEventView::Other => m,
    }
}

pub open spec fn md_fold(evs: Seq<MdEventView>) -> MdModel
    decreases evs.len(),
{
    if evs.len() == 0 {
        md_initial()
    } else {
        md_step(md_fold(evs.drop_last()), evs.last())
    }
}

/// The blocks of a Markdown document with these events: what the events
/// build, with a paragraph still open at the end flushed as well.
pub open spec fn markdown_blocks(evs: Seq<MdEventView>) -> Seq<BlockView> {
    let m = md_fold(evs);
    md_flush(MdModel { heading: None, ..m }, m.heading).blocks
}


/// The executable state of the Markdown reader.
pub struct ParserState {
    pub blocks: Vec<DocBlock>,
    pub current_paragraph: Option<ParagraphBlock>,
    /// For each open paragraph tag, whether it opened the current paragraph.
    pub paragraph_owner_stack: Vec<bool>,
    pub heading_level: Option<u8>,
    pub blockquote_depth: usize,
    pub current_table: Option<TableBlock>,
    pub current_row: Option<TableRow>,
    pub current_cell: Option<TableCell>,
    pub table_column_count: usize,
    pub style_stack: Vec<RunStyle>,
    pub list_stack: Vec<ListFrame>,
}

impl View for ParserState {
    type V = MdModel;

    open spec fn view(&self) -> MdModel {
        MdModel {
            blocks: blocks_view(self.blocks@),
            paragraph: opt_paragraph_view(self.current_paragraph),
            owners: self.paragraph_owner_stack@,
            heading: self.heading_level,
            quote_depth: self.blockquote_depth,
            table: opt_table_view(self.current_table),
            row: opt_row_view(self.current_row),
            cell: opt_cell_view(self.current_cell),
            column_count: self.table_column_count,
            styles: self.style_stack@,
            lists: self.list_stack@,
        }
    }
}

fn text_run(text: &str, style: RunStyle) -> (r: Run)
    ensures
        r@ == (RunView { text: text@, bold: style.bold, italic: style.italic, ..plain_run_view(text@) }),
{
    let mut run = Run::new_empty();
    push_str(&mut run.text, text);
    run.bold = style.bold;
    run.italic = style.italic;
    run
}

/// The characters of `s` repeated `n` times.
pub fn repeat_str(s: &str, n: usize) -> (r: String)
    ensures
        r@ == repeat_chars(s@, n as nat),
{
    let mut out = String::new();
    let mut i: usize = 0;
    while i < n
        invariant
            i <= n,
            out@ == repeat_chars(s@, i as nat),
        decreases n - i,
    {
        push_str(&mut out, s);
        i = i + 1;
    }
    out
}

impl ParserState {
    pub fn new() -> (p: ParserState)
        ensures
            p@ == md_initial(),
    {
        let p = ParserState {
            blocks: Vec::new(),
            current_paragraph: None,
            paragraph_owner_stack: Vec::new(),
            heading_level: None,
            blockquote_depth: 0,
            current_table: None,
            current_row: None,
            current_cell: None,
            table_column_count: 0,
            style_stack: Vec::new(),
            list_stack: Vec::new(),
        };
        assert(p@.blocks =~= Seq::<BlockView>::empty());
        p
    }

    /// The emphasis in effect.
    pub fn style(&self) -> (r: RunStyle)
        ensures
            r == md_style(self@),
    {
        let n = self.style_stack.len();
        if n > 0 {
            self.style_stack[n - 1]
        } else {
            RunStyle { bold: false, italic: false }
        }
    }

    /// Opens a paragraph if none is open; tells whether it did.
    pub fn ensure_paragraph(&mut self) -> (created: bool)
        ensures
            final(self)@ == md_ensure_paragraph(old(self)@),
            created == (old(self)@.paragraph is None),
    {
        if self.current_paragraph.is_none() {
            let p = ParagraphBlock { runs: Vec::new() };
            assert(p@ =~= Seq::<RunView>::empty());
            self.current_paragraph = Some(p);
            true
        } else {
            false
        }
    }

    pub fn push_run(&mut self, run: Run)
        ensures
            final(self)@ == md_push_run(old(self)@, run@),
    {
        if let Some(mut cell) = self.current_cell.take() {
            proof { lemma_runs_view_push(cell.runs@, run); }
            cell.runs.push(run);
            self.current_cell = Some(cell);
        } else if let Some(mut paragraph) = self.current_paragraph.take() {
            proof { lemma_runs_view_push(paragraph.runs@, run); }
            paragraph.runs.push(run);
            self.current_paragraph = Some(paragraph);
        }
    }

    pub fn push_text(&mut self, text: &str)
        ensures
            final(self)@ == md_push_text(old(self)@, text@),
    {
        if text.is_empty() {
            return;
        }
        self.ensure_paragraph();
        let style = self.style();
        let run = text_run(text, style);
        self.push_run(run);
    }

    pub fn push_break(&mut self)
        ensures
            final(self)@ == md_push_break(old(self)@),
    {
        self.ensure_paragraph();
        let mut run = Run::new_empty();
        push_char(&mut run.text, '\n');
        assert(run.text@ =~= seq!['\n']);
        self.push_run(run);
    }

    pub fn flush_paragraph_as(&mut self, heading_level: Option<u8>)
        ensures
            final(self)@ == md_flush(old(self)@, heading_level),
    {
        if let Some(paragraph) = self.current_paragraph.take() {
            if paragraph.runs.len() == 0 {
                return;
            }
            let b = match heading_level {
                Some(level) => DocBlock::Heading(paragraph, level),
                None => DocBlock::Paragraph(paragraph),
            };
            proof { lemma_blocks_view_push(self.blocks@, b); }
            self.blocks.push(b);
        }
    }

    /// The marker for a new list item.
    pub fn list_prefix(&self) -> (r: String)
        ensures
            r@ == list_prefix_of(self@.lists),
    {
        let n = self.list_stack.len();
        if n == 0 {
            return String::new();
        }
        let mut out = repeat_str("  ", n - 1);
        proof { reveal_strlit("  "); assert("  "@ =~= seq![' ', ' ']); }
        match self.list_stack[n - 1].ordered_next {
            Some(number) => {
                let digits = decimal_string_chars(number);
                let d = string_from_chars(digits.as_slice());
                push_str(&mut out, d.as_str());
                push_char(&mut out, '.');
                push_char(&mut out, ' ');
                assert(out@ =~= list_prefix_of(self@.lists));
            },
            None => {
                push_char(&mut out, '-');
                push_char(&mut out, ' ');
                assert(out@ =~= list_prefix_of(self@.lists));
            },
        }
        out
    }

    fn end_row(&mut self)
        ensures
            final(self)@ == md_end_row(old(self)@),
    {
        if let Some(row) = self.current_row.take() {
            if self.table_column_count < row.cells.len() {
                self.table_column_count = row.cells.len();
            }
            if let Some(mut table) = self.current_table.take() {
                proof { lemma_rows_view_push(table.rows@, row); }
                table.rows.push(row);
                self.current_table = Some(table);
            }
        }
    }

    /// Handles a start tag.
    pub fn handle_start(&mut self, tag: MdTag)
        requires
            old(self).blockquote_depth < usize::MAX,
        ensures
            final(self)@ == md_start(old(self)@, tag),
    {
        match tag {
            MdTag::Heading(level) => {
                self.ensure_paragraph();
                self.heading_level = Some(level);
            },
            MdTag::Paragraph => {
                let created = self.ensure_paragraph();
                self.paragraph_owner_stack.push(created);
            },
            MdTag::BlockQuote => {
                self.blockquote_depth = self.blockquote_depth + 1;
                let created = self.ensure_paragraph();
                if created {
                    let quote = repeat_str("> ", self.blockquote_depth);
                    proof { reveal_strlit("> "); assert("> "@ =~= seq!['>', ' ']); }
                    self.push_text(quote.as_str());
                }
            },
            MdTag::Strong => {
                let st = self.style();
                self.style_stack.push(RunStyle { bold: true, ..st });
            },
            MdTag::Emphasis => {
                let st = self.style();
                self.style_stack.push(RunStyle { italic: true, ..st });
            },
            MdTag::Strikethrough => {
                let st = self.style();
                self.style_stack.push(st);
            },
            MdTag::List(start) => {
                let depth = self.list_stack.len();
                self.list_stack.push(ListFrame { ordered_next: start, depth });
            },
            MdTag::Item => {
                self.ensure_paragraph();
                let prefix = self.list_prefix();
                self.push_text(prefix.as_str());
            },
            MdTag::CodeBlock => {
                self.ensure_paragraph();
            },
            MdTag::Table => {
                let t = TableBlock { rows: Vec::new(), column_widths: Vec::new() };
                assert(t@.rows =~= Seq::<Seq<CellView>>::empty());
                assert(t@.column_widths =~= Seq::<u32>::empty());
                self.current_table = Some(t);
                self.table_column_count = 0;
            },
            MdTag::TableHead | MdTag::TableRow => {
                let r = TableRow { cells: Vec::new() };
                assert(r@ =~= Seq::<CellView>::empty());
                self.current_row = Some(r);
            },
            MdTag::TableCell => {
                let c = TableCell { runs: Vec::new(), width: None };
                assert(c@.runs =~= Seq::<RunView>::empty());
                self.current_cell = Some(c);
            },
            MdTag::Other => {},
        }
    }

    /// Handles an end tag.
    pub fn handle_end(&mut self, tag: MdTag)
        ensures
            final(self)@ == md_end(old(self)@, tag),
    {
        match tag {
            MdTag::Heading(_) => {
                let level = self.heading_level.take();
                self.flush_paragraph_as(level);
            },
            MdTag::Paragraph => {
                let owned = match self.paragraph_owner_stack.pop() {
                    Some(b) => b,
                    None => true,
                };
                if owned {
                    self.flush_paragraph_as(None);
                }
            },
            MdTag::BlockQuote => {
                if self.blockquote_depth > 0 {
                    self.blockquote_depth = self.blockquote_depth - 1;
                }
                if self.blockquote_depth == 0 {
                    self.flush_paragraph_as(None);
                }
            },
            MdTag::Strong | MdTag::Emphasis | MdTag::Strikethrough => {
                self.style_stack.pop();
            },
            MdTag::List(_) => {
                self.list_stack.pop();
            },
            MdTag::Item | MdTag::CodeBlock => {
                self.flush_paragraph_as(None);
            },
            MdTag::Table => {
                if let Some(mut table) = self.current_table.take() {
                    let mut widths: Vec<u32> = Vec::new();
                    let mut i: usize = 0;
                    while i < self.table_column_count
                        invariant
                            i <= self.table_column_count,
                            widths@ =~= zeros(i as nat),
                        decreases self.table_column_count - i,
                    {
                        widths.push(0);
                        i = i + 1;
                    }
                    table.column_widths = widths;
                    let b = DocBlock::Table(table);
                    proof { lemma_blocks_view_push(self.blocks@, b); }
                    self.blocks.push(b);
                }
            },
            MdTag::TableHead | MdTag::TableRow => {
                self.end_row();
            },
            MdTag::TableCell => {
                if let Some(cell) = self.current_cell.take() {
                    if let Some(mut row) = self.current_row.take() {
                        proof { lemma_cells_view_push(row.cells@, cell); }
                        row.cells.push(cell);
                        self.current_row = Some(row);
                    }
                }
            },
            MdTag::Other => {},
        }
    }
}

/// The nesting of block quotes grows by at most one per event.
proof fn lemma_md_step_depth(m: MdModel, ev: MdEventView)
    requires
        m.quote_depth < usize::MAX,
    ensures
        md_step(m, ev).quote_depth <= m.quote_depth + 1,
{
}

/// The document that a sequence of Markdown events describes.
pub fn parse_markdown_events(events: &Vec<MdEvent>) -> (d: Document)
    ensures
        d@ == markdown_blocks(md_events_view(events@)),
{
    let ghost evs = md_events_view(events@);
    let mut state = ParserState::new();
    let mut i: usize = 0;
    assert(evs.take(0) =~= Seq::<MdEventView>::empty());
    while i < events.len()
        invariant
            i <= events.len(),
            evs == md_events_view(events@),
            md_fold(evs.take(i as int)) == state@,
            state.blockquote_depth <= i,
        decreases events.len() - i,
    {
        assert(evs.take(i + 1).drop_last() =~= evs.take(i as int));
        assert(evs.take(i + 1).last() == events@[i as int]@);
        proof { lemma_md_step_depth(state@, events@[i as int]@); }
        match &events[i] {
            MdEvent::Start(tag) => state.handle_start(*tag),
            MdEvent::End(tag) => state.handle_end(*tag),
            MdEvent::Text(text) => state.push_text(text.as_str()),
            MdEvent::Code(text) => state.push_text(text.as_str()),
            MdEvent::SoftBreak => {
                state.push_text(" ");
                proof { reveal_strlit(" "); assert(" "@ =~= seq![' ']); }
            },
            MdEvent::HardBreak => state.push_break(),
            MdEvent::Rule => {
                let mut run = Run::new_empty();
                push_str(&mut run.text, "---");
                proof { reveal_strlit("---"); }
                assert(run.text@ =~= seq!['-', '-', '-']);
                let mut runs = Vec::new();
                runs.push(run);
                let p = ParagraphBlock { runs };
                assert(p@ =~= seq![plain_run_view(seq!['-', '-', '-'])]);
                let b = DocBlock::Paragraph(p);
                proof { lemma_blocks_view_push(state.blocks@, b); }
                state.blocks.push(b);
            },
            MdEvent::Other => {},
        }
        i = i + 1;
    }
    assert(evs.take(i as int) =~= evs);
    let leftover = state.heading_level.take();
    state.flush_paragraph_as(leftover);
    Document { blocks: state.blocks }
}

/// Reads a Markdown text into a document; reading always succeeds.
pub fn parse_markdown(md: &str) -> (r: Result<Document, String>)
    ensures
        r matches Ok(d) && d@ == markdown_blocks(md_event_stream(md@)),
        r matches Ok(d) && markdown_blocks_ok(d@),
{
    let events = markdown_events(md);
    proof { law_markdown_blocks(md_events_view(events@)); }
    Ok(parse_markdown_events(&events))
}

/// Emphasis composes: inside strong emphasis, emphasis gives text that is
/// both bold and italic.  Closing an emphasis, strong emphasis,
/// strikethrough or list tag right after opening it restores the reader's
/// state.
pub proof fn law_nested_emphasis_composes(m: MdModel, start: Option<u64>)
    ensures
        md_style(md_start(md_start(m, MdTag::Strong), MdTag::Emphasis)) == (RunStyle { bold: true, italic: true }),
        md_style(md_start(md_start(m, MdTag::Emphasis), MdTag::Strong)) == (RunStyle { bold: true, italic: true }),
        md_end(md_start(m, MdTag::Strong), MdTag::Strong) == m,
        md_end(md_start(m, MdTag::Emphasis), MdTag::Emphasis) == m,
        md_end(md_start(m, MdTag::Strikethrough), MdTag::Strikethrough) == m,
        md_end(md_start(m, MdTag::List(start)), MdTag::List(start)) == m,
{
    assert(m.styles.push(RunStyle { bold: true, ..md_style(m) }).drop_last() =~= m.styles);
    assert(m.styles.push(RunStyle { italic: true, ..md_style(m) }).drop_last() =~= m.styles);
    assert(m.styles.push(md_style(m)).drop_last() =~= m.styles);
    assert(m.lists.push(ListFrame { ordered_next: start, depth: m.lists.len() as usize }).drop_last() =~= m.lists);
}

/// A run the Markdown reader makes: no underline, colour or size.
pub open spec fn markdown_run(r: RunView) -> bool {
    !r.underline && r.color is None && r.size is None
}

pub open spec fn markdown_runs(rs: Seq<RunView>) -> bool {
    forall|k: int| 0 <= k < rs.len() ==> markdown_run(#[trigger] rs[k])
}

pub open spec fn markdown_cells(cells: Seq<CellView>) -> bool {
    forall|c: int| 0 <= c < cells.len() ==> markdown_runs(#[trigger] cells[c].runs)
}

pub open spec fn markdown_table(t: TableView) -> bool {
    forall|r: int| 0 <= r < t.rows.len() ==> markdown_cells(#[trigger] t.rows[r])
}

/// A block the Markdown reader makes: paragraphs and headings have runs,
/// headings a level from 1 to 6, runs no underline, colour or size, and
/// there are no page breaks.
pub open spec fn markdown_block(b: BlockView) -> bool {
    match b {
        BlockView::Paragraph(p) => p.len() > 0 && markdown_runs(p),
        BlockView::Heading(p, l) => p.len() > 0 && 1 <= l <= 6 && markdown_runs(p),
        BlockView::Table(t) => markdown_table(t),
        BlockView::PageBreak => false,
    }
}

pub open spec fn markdown_blocks_ok(bs: Seq<BlockView>) -> bool {
    forall|i: int| 0 <= i < bs.len() ==> markdown_block(#[trigger] bs[i])
}

/// What the reader's state holds between events.
pub open spec fn md_model_ok(m: MdModel) -> bool {
    &&& markdown_blocks_ok(m.blocks)
    &&& m.paragraph matches Some(p) ==> markdown_runs(p)
    &&& m.heading matches Some(l) ==> 1 <= l <= 6
    &&& m.table matches Some(t) ==> markdown_table(t)
    &&& m.row matches Some(r) ==> markdown_cells(r)
    &&& m.cell matches Some(c) ==> markdown_runs(c.runs)
}

proof fn lemma_push_run_ok(m: MdModel, r: RunView)
    requires
        md_model_ok(m),
        markdown_run(r),
    ensures
        md_model_ok(md_push_run(m, r)),
{
    match m.cell {
        Some(c) => {
            assert(markdown_runs(c.runs.push(r)));
        },
        None => match m.paragraph {
            Some(p) => {
                assert(markdown_runs(p.push(r)));
            },
            None => {},
        },
    }
}

proof fn lemma_push_text_ok(m: MdModel, t: Seq<char>)
    requires
        md_model_ok(m),
    ensures
        md_model_ok(md_push_text(m, t)),
{
    if t.len() > 0 {
        let m1 = md_ensure_paragraph(m);
        assert(md_model_ok(m1));
        let st = md_style(m1);
        lemma_push_run_ok(m1, RunView { text: t, bold: st.bold, italic: st.italic, ..plain_run_view(t) });
    }
}

proof fn lemma_flush_ok(m: MdModel, level: Option<u8>)
    requires
        md_model_ok(m),
        level matches Some(l) ==> 1 <= l <= 6,
    ensures
        md_model_ok(md_flush(m, level)),
{
    match m.paragraph {
        Some(p) => if p.len() > 0 {
            let b = match level {
                Some(l) => BlockView::Heading(p, l),
                None => BlockView::Paragraph(p),
            };
            assert(markdown_block(b));
            assert(markdown_blocks_ok(m.blocks.push(b)));
        },
        None => {},
    }
}

proof fn lemma_md_step_ok(m: MdModel, ev: MdEventView)
    requires
        md_model_ok(m),
        match ev {
            MdEventView::Start(MdTag::Heading(l)) => 1 <= l <= 6,
            _ => true,
        },
    ensures
        md_model_ok(md_step(m, ev)),
{
    match ev {
        MdEventView::Start(t) => match t {
            MdTag::BlockQuote => {
                let depth = (m.quote_depth + 1) as usize;
                let m1 = MdModel { quote_depth: depth, ..md_ensure_paragraph(m) };
                lemma_push_text_ok(m1, repeat_chars(seq!['>', ' '], depth as nat));
            },
            MdTag::Item => {
                let m1 = md_ensure_paragraph(m);
                lemma_push_text_ok(m1, list_prefix_of(m1.lists));
            },
            MdTag::Table => {
                assert(markdown_table(TableView { rows: Seq::empty(), column_widths: Seq::empty() }));
            },
            MdTag::TableHead => {
                assert(markdown_cells(Seq::<CellView>::empty()));
            },
            MdTag::TableRow => {
                assert(markdown_cells(Seq::<CellView>::empty()));
            },
            MdTag::TableCell => {
                assert(markdown_runs(Seq::<RunView>::empty()));
            },
            _ => {},
        },
        MdEventView::End(t) => match t {
            MdTag::Heading(_) => {
                lemma_flush_ok(MdModel { heading: None, ..m }, m.heading);
            },
            MdTag::Paragraph => {
                let m1 = MdModel { owners: if m.owners.len() > 0 { m.owners.drop_last() } else { m.owners }, ..m };
                lemma_flush_ok(m1, None);
            },
            MdTag::BlockQuote => {
                let depth = if m.quote_depth > 0 { (m.quote_depth - 1) as usize } else { 0usize };
                lemma_flush_ok(MdModel { quote_depth: depth, ..m }, None);
            },
            MdTag::Item => {
                lemma_flush_ok(m, None);
            },
            MdTag::CodeBlock => {
                lemma_flush_ok(m, None);
            },
            MdTag::Table => match m.table {
                Some(tb) => {
                    let b = BlockView::Table(TableView { column_widths: zeros(m.column_count as nat), ..tb });
                    assert(markdown_block(b));
                    assert(markdown_blocks_ok(m.blocks.push(b)));
                },
                None => {},
            },
            MdTag::TableHead | MdTag::TableRow => match m.row {
                Some(r) => match m.table {
                    Some(tb) => {
                        assert(markdown_table(TableView { rows: tb.rows.push(r), ..tb }));
                    },
                    None => {},
                },
                None => {},
            },
            MdTag::TableCell => match m.cell {
                Some(c) => match m.row {
                    Some(r) => {
                        assert(markdown_cells(r.push(c)));
                    },
                    None => {},
                },
                None => {},
            },
            _ => {},
        },
        MdEventView::Text(x) => lemma_push_text_ok(m, x),
        MdEventView::Code(x) => lemma_push_text_ok(m, x),
        MdEventView::SoftBreak => lemma_push_text_ok(m, seq![' ']),
        MdEventView::HardBreak => {
            let m1 = md_ensure_paragraph(m);
            lemma_push_run_ok(m1, plain_run_view(seq!['\n']));
        },
        MdEventView::Rule => {
            let b = BlockView::Paragraph(seq![plain_run_view(seq!['-', '-', '-'])]);
            assert(markdown_runs(seq![plain_run_view(seq!['-', '-', '-'])]));
            assert(markdown_block(b));
            assert(markdown_blocks_ok(m.blocks.push(b)));
        },
        MdEventView::Other => {},
    }
}

proof fn lemma_md_fold_ok(evs: Seq<MdEventView>)
    requires
        heading_levels_in_range(evs),
    ensures
        md_model_ok(md_fold(evs)),
    decreases evs.len(),
{
    if evs.len() > 0 {
        assert forall|i: int| 0 <= i < evs.drop_last().len() implies match #[trigger] evs.drop_last()[i] {
            MdEventView::Start(MdTag::Heading(l)) => 1 <= l <= 6,
            MdEventView::End(MdTag::Heading(l)) => 1 <= l <= 6,
            _ => true,
        } by {
            assert(evs.drop_last()[i] == evs[i]);
        }
        lemma_md_fold_ok(evs.drop_last());
        assert(evs[evs.len() - 1] == evs.last());
        lemma_md_step_ok(md_fold(evs.drop_last()), evs.last());
    } else {
        assert(markdown_blocks_ok(Seq::<BlockView>::empty()));
    }
}

/// What the Markdown reader builds from events whose headings have levels
/// 1 to 6: paragraphs and headings are never empty, heading levels stay 1
/// to 6, no page break appears, and no run is underlined, coloured or
/// sized.
pub proof fn law_markdown_blocks(evs: Seq<MdEventView>)
    requires
        heading_levels_in_range(evs),
    ensures
        markdown_blocks_ok(markdown_blocks(evs)),
{
    lemma_md_fold_ok(evs);
    let m = md_fold(evs);
    lemma_flush_ok(MdModel { heading: None, ..m }, m.heading);
}


/// The runs being filled: the open table cell's, else the open
/// paragraph's.
pub open spec fn open_runs(m: MdModel) -> Seq<RunView> {
    match m.cell {
        Some(c) => c.runs,
        None => match m.paragraph {
            Some(p) => p,
            None => Seq::empty(),
        },
    }
}

/// Inline code is read as text: a code span changes the reader's state
/// exactly as text with the same characters does.  Non-empty text of
/// either kind becomes one more run of the cell or paragraph being filled
/// (a paragraph is opened where none is), holding exactly those
/// characters in the emphasis in effect; the earlier runs and the blocks
/// stay as they were.
pub proof fn law_markdown_code_reads_as_text(m: MdModel, s: Seq<char>)
    ensures
        md_step(m, MdEventView::Code(s)) == md_step(m, MdEventView::Text(s)),
        s.len() > 0 ==> open_runs(md_step(m, MdEventView::Code(s))) == open_runs(m).push(RunView {
            text: s,
            bold: md_style(m).bold,
            italic: md_style(m).italic,
            underline: false,
            color: None,
            size: None,
        }),
        s.len() > 0 ==> open_runs(md_step(m, MdEventView::Text(s))) == open_runs(m).push(RunView {
            text: s,
            bold: md_style(m).bold,
            italic: md_style(m).italic,
            underline: false,
            color: None,
            size: None,
        }),
        md_step(m, MdEventView::Code(s)).blocks == m.blocks,
        s.len() == 0 ==> md_step(m, MdEventView::Code(s)) == m,
{
    if m.cell is None && m.paragraph is None {
        assert(Seq::<RunView>::empty().push(RunView {
            text: s,
            bold: md_style(m).bold,
            italic: md_style(m).italic,
            underline: false,
            color: None,
            size: None,
        }) =~= seq![RunView {
            text: s,
            bold: md_style(m).bold,
            italic: md_style(m).italic,
            underline: false,
            color: None,
            size: None,
        }]);
    }
}

} // verus!
