use viewu::document::{DocBlock, Document, ParagraphBlock, Run, TableBlock, TableCell, TableRow};
use viewu::dump::{document_to_markdown, document_to_text, escape_table_cell, table_to_markdown};

fn text_run(text: &str) -> Run {
    Run { text: text.to_string(), bold: false, italic: false, underline: false, color: None, size: None }
}

fn paragraph(runs: Vec<Run>) -> ParagraphBlock {
    ParagraphBlock { runs }
}

fn text_cell(text: &str) -> TableCell {
    TableCell { runs: vec![text_run(text)], width: None }
}

#[test]
fn text_of_paragraphs_and_headings() {
    let doc = Document {
        blocks: vec![
            DocBlock::Heading(paragraph(vec![text_run("Title")]), 2),
            DocBlock::Paragraph(paragraph(vec![text_run("Hello "), text_run("world")])),
            DocBlock::Heading(paragraph(vec![text_run("Zero")]), 0),
        ],
    };
    assert_eq!(document_to_text(&doc), "## Title\n\nHello world\n\n# Zero\n\n");
}

#[test]
fn text_keeps_line_feeds_in_paragraphs() {
    let doc = Document { blocks: vec![DocBlock::Paragraph(paragraph(vec![text_run("a\nb")]))] };
    assert_eq!(document_to_text(&doc), "a\nb\n\n");
}

#[test]
fn text_of_page_break() {
    let doc = Document { blocks: vec![DocBlock::PageBreak] };
    assert_eq!(document_to_text(&doc), format!("{}\n\n", "-".repeat(40)));
}

#[test]
fn text_of_table_joins_cells() {
    let table = TableBlock {
        rows: vec![
            TableRow { cells: vec![text_cell("a"), text_cell("b\nc")] },
            TableRow { cells: vec![text_cell("d")] },
        ],
        column_widths: vec![],
    };
    let doc = Document { blocks: vec![DocBlock::Table(table)] };
    assert_eq!(document_to_text(&doc), "a | b c\nd\n\n");
}

#[test]
fn markdown_marks_runs() {
    let mut bold = text_run("b");
    bold.bold = true;
    let mut both = text_run("x");
    both.bold = true;
    both.italic = true;
    let mut under = text_run("u");
    under.underline = true;
    let mut blank = text_run("  ");
    blank.bold = true;
    let doc = Document { blocks: vec![DocBlock::Paragraph(paragraph(vec![bold, both, under, blank]))] };
    assert_eq!(document_to_markdown(&doc), "**b****_x_**<u>u</u>  \n\n");
}

#[test]
fn markdown_heading_levels_are_clamped() {
    let doc = Document {
        blocks: vec![
            DocBlock::Heading(paragraph(vec![text_run("Deep")]), 9),
            DocBlock::Heading(paragraph(vec![text_run("Top")]), 0),
            DocBlock::PageBreak,
        ],
    };
    assert_eq!(document_to_markdown(&doc), "###### Deep\n\n# Top\n\n---\n\n");
}

#[test]
fn markdown_table_has_header_separator_and_padding() {
    let table = TableBlock {
        rows: vec![
            TableRow { cells: vec![text_cell("a"), text_cell("b")] },
            TableRow { cells: vec![text_cell("c|d")] },
        ],
        column_widths: vec![],
    };
    assert_eq!(table_to_markdown(&table), "| a | b |\n| --- | --- |\n| c\\|d |  |\n");
    let doc = Document { blocks: vec![DocBlock::Table(table)] };
    assert_eq!(document_to_markdown(&doc), "| a | b |\n| --- | --- |\n| c\\|d |  |\n\n");
}

#[test]
fn markdown_table_without_columns_is_empty() {
    let table = TableBlock { rows: vec![TableRow { cells: vec![] }], column_widths: vec![] };
    assert_eq!(table_to_markdown(&table), "");
}

#[test]
fn markdown_table_cells_turn_line_feeds_into_spaces() {
    let table = TableBlock { rows: vec![TableRow { cells: vec![text_cell("x\ny")] }], column_widths: vec![7] };
    assert_eq!(table_to_markdown(&table), "| x y |\n| --- |\n");
}

#[test]
fn escape_table_cell_escapes_bars_and_line_feeds() {
    assert_eq!(escape_table_cell("a|b\nc"), "a\\|b<br>c");
    assert_eq!(escape_table_cell("plain"), "plain");
    assert!(!escape_table_cell("1\n2\n3").contains('\n'));
}

#[test]
fn text_of_two_documents_concatenates() {
    let a = vec![DocBlock::Paragraph(paragraph(vec![text_run("one")]))];
    let b = vec![DocBlock::PageBreak];
    let joined = Document {
        blocks: vec![DocBlock::Paragraph(paragraph(vec![text_run("one")])), DocBlock::PageBreak],
    };
    let left = document_to_text(&Document { blocks: a });
    let right = document_to_text(&Document { blocks: b });
    assert_eq!(document_to_text(&joined), format!("{left}{right}"));
}

#[test]
fn markdown_of_two_documents_concatenates() {
    let joined = Document {
        blocks: vec![DocBlock::PageBreak, DocBlock::Heading(paragraph(vec![text_run("h")]), 3)],
    };
    let left = document_to_markdown(&Document { blocks: vec![DocBlock::PageBreak] });
    let right = document_to_markdown(&Document { blocks: vec![DocBlock::Heading(paragraph(vec![text_run("h")]), 3)] });
    assert_eq!(document_to_markdown(&joined), format!("{left}{right}"));
}
