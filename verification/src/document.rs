//! The document model that both readers produce and every writer reads.

use vstd::prelude::*;
use crate::style::Color;

verus! {

/// A run of text sharing one set of character properties.
#[derive(Debug)]
pub struct Run {
    pub text: String,
    pub bold: bool,
    pub italic: bool,
    pub underline: bool,
    pub color: Option<Color>,
    /// Font size in half points.
    pub size: Option<u16>,
}

pub struct RunView {
    pub text: Seq<char>,
    pub bold: bool,
    pub italic: bool,
    pub underline: bool,
    pub color: Option<Color>,
    pub size: Option<u16>,
}

impl View for Run {
    type V = RunView;

    open spec fn view(&self) -> RunView {
        RunView {
            text: self.text@,
            bold: self.bold,
            italic: self.italic,
            underline: self.underline,
            color: self.color,
            size: self.size,
        }
    }
}

pub open spec fn runs_view(s: Seq<Run>) -> Seq<RunView> {
    s.map_values(|r: Run| r@)
}

/// A run with the given text and no formatting.
pub open spec fn plain_run_view(text: Seq<char>) -> RunView {
    RunView { text, bold: false, italic: false, underline: false, color: None, size: None }
}

impl Run {
    /// An empty run with no formatting.
    pub fn new_empty() -> (r: Run)
        ensures
            r@ == plain_run_view(Seq::empty()),
    {
        Run { text: String::new(), bold: false, italic: false, underline: false, color: None, size: None }
    }
}

#[derive(Debug)]
pub struct ParagraphBlock {
    pub runs: Vec<Run>,
}

impl View for ParagraphBlock {
    type V = Seq<RunView>;

    open spec fn view(&self) -> Seq<RunView> {
        runs_view(self.runs@)
    }
}

#[derive(Debug)]
pub struct TableCell {
    pub runs: Vec<Run>,
    pub width: Option<u32>,
}

pub struct CellView {
    pub runs: Seq<RunView>,
    pub width: Option<u32>,
}

impl View for TableCell {
    type V = CellView;

    open spec fn view(&self) -> CellView {
        CellView { runs: runs_view(self.runs@), width: self.width }
    }
}

pub open spec fn cells_view(s: Seq<TableCell>) -> Seq<CellView> {
    s.map_values(|c: TableCell| c@)
}

#[derive(Debug)]
pub struct TableRow {
    pub cells: Vec<TableCell>,
}

impl View for TableRow {
    type V = Seq<CellView>;

    open spec fn view(&self) -> Seq<CellView> {
        cells_view(self.cells@)
    }
}

pub open spec fn rows_view(s: Seq<TableRow>) -> Seq<Seq<CellView>> {
    s.map_values(|r: TableRow| r@)
}

#[derive(Debug)]
pub struct TableBlock {
    pub rows: Vec<TableRow>,
    /// Column widths as the source gives them (twentieths of a point).
    pub column_widths: Vec<u32>,
}

pub struct TableView {
    pub rows: Seq<Seq<CellView>>,
    pub column_widths: Seq<u32>,
}

impl View for TableBlock {
    type V = TableView;

    open spec fn view(&self) -> TableView {
        TableView { rows: rows_view(self.rows@), column_widths: self.column_widths@ }
    }
}

#[derive(Debug)]
pub enum DocBlock {
    Paragraph(ParagraphBlock),
    Heading(ParagraphBlock, u8),
    Table(TableBlock),
    PageBreak,
}

pub enum BlockView {
    Paragraph(Seq<RunView>),
    Heading(Seq<RunView>, u8),
    Table(TableView),
    PageBreak,
}

impl View for DocBlock {
    type V = BlockView;

    open spec fn view(&self) -> BlockView {
        match self {
            DocBlock::Paragraph(p) => BlockView::Paragraph(p@),
            DocBlock::Heading(p, l) => BlockView::Heading(p@, *l),
            DocBlock::Table(t) => BlockView::Table(t@),
            DocBlock::PageBreak => BlockView::PageBreak,
        }
    }
}

pub open spec fn blocks_view(s: Seq<DocBlock>) -> Seq<BlockView> {
    s.map_values(|b: DocBlock| b@)
}

#[derive(Debug)]
pub struct Document {
    pub blocks: Vec<DocBlock>,
}

impl View for Document {
    type V = Seq<BlockView>;

    open spec fn view(&self) -> Seq<BlockView> {
        blocks_view(self.blocks@)
    }
}

pub open spec fn opt_run_view(o: Option<Run>) -> Option<RunView> {
    match o {
        Some(r) => Some(r@),
        None => None,
    }
}

pub open spec fn opt_paragraph_view(o: Option<ParagraphBlock>) -> Option<Seq<RunView>> {
    match o {
        Some(p) => Some(p@),
        None => None,
    }
}

pub open spec fn opt_cell_view(o: Option<TableCell>) -> Option<CellView> {
    match o {
        Some(c) => Some(c@),
        None => None,
    }
}

pub open spec fn opt_row_view(o: Option<TableRow>) -> Option<Seq<CellView>> {
    match o {
        Some(r) => Some(r@),
        None => None,
    }
}

pub open spec fn opt_table_view(o: Option<TableBlock>) -> Option<TableView> {
    match o {
        Some(t) => Some(t@),
        None => None,
    }
}

pub proof fn lemma_runs_view_push(s: Seq<Run>, r: Run)
    ensures
        runs_view(s.push(r)) == runs_view(s).push(r@),
{
    assert(runs_view(s.push(r)) =~= runs_view(s).push(r@));
}

pub proof fn lemma_runs_view_add(s: Seq<Run>, t: Seq<Run>)
    ensures
        runs_view(s + t) == runs_view(s) + runs_view(t),
{
    assert(runs_view(s + t) =~= runs_view(s) + runs_view(t));
}

pub proof fn lemma_cells_view_push(s: Seq<TableCell>, c: TableCell)
    ensures
        cells_view(s.push(c)) == cells_view(s).push(c@),
{
    assert(cells_view(s.push(c)) =~= cells_view(s).push(c@));
}

pub proof fn lemma_rows_view_push(s: Seq<TableRow>, r: TableRow)
    ensures
        rows_view(s.push(r)) == rows_view(s).push(r@),
{
    assert(rows_view(s.push(r)) =~= rows_view(s).push(r@));
}

pub proof fn lemma_blocks_view_push(s: Seq<DocBlock>, b: DocBlock)
    ensures
        blocks_view(s.push(b)) == blocks_view(s).push(b@),
{
    assert(blocks_view(s.push(b)) =~= blocks_view(s).push(b@));
}

} // verus!
