use std::io::Write;
use viewu::docx::{heading_level_from_style, parse_document, parse_docx_color};
use viewu::document::{DocBlock, Document};
use viewu::markdown::parse_markdown;
use viewu::style::Color;
use viewu::xml::{attribute, local_name, XmlAttribute, XmlTag};

fn texts(runs: &[viewu::document::Run]) -> Vec<String> {
    runs.iter().map(|r| r.text.clone()).collect()
}

fn docx(xml: &str) -> Document {
    match parse_document(xml) {
        Some(Ok(d)) => d,
        Some(Err(e)) => panic!("parse failed: {e}"),
        None => panic!("unexpected slicing input"),
    }
}

#[test]
fn local_name_drops_prefix() {
    assert_eq!(local_name(b"w:p"), "p");
    assert_eq!(local_name(b"a:b:c"), "c");
    assert_eq!(local_name(b"plain"), "plain");
    assert_eq!(local_name(b"w:"), "");
    assert_eq!(local_name(b"x:\xff"), "\u{fffd}");
}

#[test]
fn attribute_matches_local_key() {
    let tag = XmlTag {
        name: b"w:pStyle".to_vec(),
        attributes: vec![
            Some(XmlAttribute { key: b"w:other".to_vec(), value: b"1".to_vec() }),
            None,
            Some(XmlAttribute { key: b"w:val".to_vec(), value: b"Heading1".to_vec() }),
            Some(XmlAttribute { key: b"val".to_vec(), value: b"second".to_vec() }),
        ],
    };
    assert_eq!(attribute(&tag, "val"), Some("Heading1".to_string()));
    assert_eq!(attribute(&tag, "missing"), None);
}

#[test]
fn heading_levels_from_styles() {
    assert_eq!(heading_level_from_style("Heading2"), Some(2));
    assert_eq!(heading_level_from_style("HEADING 3"), Some(1));
    assert_eq!(heading_level_from_style("heading0"), Some(1));
    assert_eq!(heading_level_from_style("heading300"), Some(1));
    assert_eq!(heading_level_from_style("Title"), Some(0));
    assert_eq!(heading_level_from_style("SubTitle"), Some(0));
    assert_eq!(heading_level_from_style("Normal"), None);
}

#[test]
fn docx_colours() {
    assert_eq!(parse_docx_color("FF0000"), Some(Color::Rgb(255, 0, 0)));
    assert_eq!(parse_docx_color(" #00ff80 "), Some(Color::Rgb(0, 255, 128)));
    assert_eq!(parse_docx_color("AUTO"), None);
    assert_eq!(parse_docx_color("##FF0000"), None);
    assert_eq!(parse_docx_color("12345"), None);
    assert_eq!(parse_docx_color("GG0000"), None);
}

#[test]
fn docx_paragraphs_and_headings() {
    let xml = [
        r#"<w:document xmlns:w="urn:w"><w:body>"#,
        r#"<w:p><w:pPr><w:pStyle w:val="Heading2"/></w:pPr><w:r><w:rPr><w:b/></w:rPr><w:t>Hi</w:t></w:r></w:p>"#,
        r#"<w:p><w:r><w:rPr><w:i/><w:u w:val="single"/><w:color w:val="FF0000"/><w:sz w:val="40"/></w:rPr><w:t>Red</w:t><w:br/></w:r></w:p>"#,
        r#"</w:body></w:document>"#,
    ]
    .concat();
    let xml = xml.as_str();
    let doc = docx(xml);
    assert_eq!(doc.blocks.len(), 2);
    match &doc.blocks[0] {
        DocBlock::Heading(p, level) => {
            assert_eq!(*level, 2);
            assert_eq!(texts(&p.runs), vec!["Hi".to_string()]);
            assert!(p.runs[0].bold);
            assert!(!p.runs[0].italic);
        }
        other => panic!("expected a heading, got {other:?}"),
    }
    match &doc.blocks[1] {
        DocBlock::Paragraph(p) => {
            let r = &p.runs[0];
            assert_eq!(r.text, "Red\n");
            assert!(r.italic && r.underline && !r.bold);
            assert_eq!(r.color, Some(Color::Rgb(255, 0, 0)));
            assert_eq!(r.size, Some(40));
        }
        other => panic!("expected a paragraph, got {other:?}"),
    }
}

#[test]
fn docx_tables() {
    let xml = [
        r#"<w:document xmlns:w="urn:w"><w:body><w:tbl>"#,
        r#"<w:tblGrid><w:gridCol w:w="2000"/><w:gridCol w:w="3000"/></w:tblGrid>"#,
        r#"<w:tr><w:tc><w:tcPr><w:tcW w:w="2000"/></w:tcPr><w:p><w:r><w:t>A</w:t></w:r></w:p><w:p><w:r><w:t>B</w:t></w:r></w:p></w:tc>"#,
        r#"<w:tc><w:p><w:r><w:t>C</w:t></w:r></w:p></w:tc></w:tr>"#,
        r#"</w:tbl></w:body></w:document>"#,
    ]
    .concat();
    let xml = xml.as_str();
    let doc = docx(xml);
    assert_eq!(doc.blocks.len(), 1);
    match &doc.blocks[0] {
        DocBlock::Table(t) => {
            assert_eq!(t.column_widths, vec![2000, 3000]);
            assert_eq!(t.rows.len(), 1);
            let cells = &t.rows[0].cells;
            assert_eq!(cells.len(), 2);
            assert_eq!(texts(&cells[0].runs), vec!["A".to_string(), "\n".to_string(), "B".to_string()]);
            assert_eq!(cells[0].width, Some(2000));
            assert_eq!(texts(&cells[1].runs), vec!["C".to_string()]);
            assert_eq!(cells[1].width, None);
        }
        other => panic!("expected a table, got {other:?}"),
    }
}

#[test]
fn docx_text_outside_runs_is_dropped() {
    let doc = docx(r#"<w:document xmlns:w="urn:w"><w:body><w:p><w:t>lost</w:t></w:p></w:body></w:document>"#);
    match &doc.blocks[0] {
        DocBlock::Paragraph(p) => assert!(p.runs.is_empty()),
        other => panic!("expected a paragraph, got {other:?}"),
    }
}

#[test]
fn docx_malformed_xml_is_an_error() {
    match parse_document("<w:p></w:r>") {
        Some(Err(_)) => {}
        other => panic!("expected an error, got {other:?}"),
    }
}

#[test]
fn markdown_headings_and_emphasis() {
    let doc = parse_markdown("# Title\n\nHello **bold** world\n").unwrap();
    assert_eq!(doc.blocks.len(), 2);
    match &doc.blocks[0] {
        DocBlock::Heading(p, level) => {
            assert_eq!(*level, 1);
            assert_eq!(texts(&p.runs), vec!["Title".to_string()]);
        }
        other => panic!("expected a heading, got {other:?}"),
    }
    match &doc.blocks[1] {
        DocBlock::Paragraph(p) => {
            assert_eq!(texts(&p.runs), vec!["Hello ".to_string(), "bold".to_string(), " world".to_string()]);
            assert!(p.runs[1].bold && !p.runs[0].bold && !p.runs[2].bold);
        }
        other => panic!("expected a paragraph, got {other:?}"),
    }
}

#[test]
fn markdown_lists_get_prefixes() {
    let doc = parse_markdown("- a\n- b\n\n1. x\n").unwrap();
    let all: Vec<Vec<String>> = doc
        .blocks
        .iter()
        .map(|b| match b {
            DocBlock::Paragraph(p) => texts(&p.runs),
            other => panic!("expected paragraphs, got {other:?}"),
        })
        .collect();
    assert_eq!(
        all,
        vec![
            vec!["- ".to_string(), "a".to_string()],
            vec!["- ".to_string(), "b".to_string()],
            vec!["1. ".to_string(), "x".to_string()],
        ]
    );
}

#[test]
fn markdown_tables_and_rules() {
    let doc = parse_markdown("| a | b |\n|---|---|\n| c | d |\n\n---\n").unwrap();
    assert_eq!(doc.blocks.len(), 2);
    match &doc.blocks[0] {
        DocBlock::Table(t) => {
            assert_eq!(t.column_widths, vec![0, 0]);
            assert_eq!(t.rows.len(), 2);
            assert_eq!(texts(&t.rows[1].cells[1].runs), vec!["d".to_string()]);
        }
        other => panic!("expected a table, got {other:?}"),
    }
    match &doc.blocks[1] {
        DocBlock::Paragraph(p) => assert_eq!(texts(&p.runs), vec!["---".to_string()]),
        other => panic!("expected the rule, got {other:?}"),
    }
}

#[test]
fn markdown_hard_break_and_soft_break() {
    let doc = parse_markdown("a  \nb\nc").unwrap();
    match &doc.blocks[0] {
        DocBlock::Paragraph(p) => assert_eq!(texts(&p.runs).concat(), "a\nb c"),
        other => panic!("expected a paragraph, got {other:?}"),
    }
}

#[test]
fn markdown_never_fails() {
    assert!(parse_markdown("").unwrap().blocks.is_empty());
    assert!(parse_markdown("**unclosed").is_ok());
}

fn zip_with(name: &str, contents: &str) -> Vec<u8> {
    let mut writer = zip::ZipWriter::new(std::io::Cursor::new(Vec::new()));
    writer.start_file(name, zip::write::SimpleFileOptions::default()).unwrap();
    writer.write_all(contents.as_bytes()).unwrap();
    writer.finish().unwrap().into_inner()
}

#[test]
fn docx_archive_is_read() {
    let bytes = zip_with(
        "word/document.xml",
        r#"<w:document xmlns:w="urn:w"><w:body><w:p><w:r><w:t>Zipped</w:t></w:r></w:p></w:body></w:document>"#,
    );
    match viewu::archive::read_docx(&bytes) {
        Some(Ok(doc)) => match &doc.blocks[0] {
            DocBlock::Paragraph(p) => assert_eq!(texts(&p.runs), vec!["Zipped".to_string()]),
            other => panic!("expected a paragraph, got {other:?}"),
        },
        other => panic!("unexpected result {other:?}"),
    }
}

#[test]
fn docx_archive_without_document_member() {
    let bytes = zip_with("word/styles.xml", "<w:styles/>");
    match viewu::archive::read_docx(&bytes) {
        Some(Err(e)) => assert_eq!(e, "DOCX does not contain word/document.xml"),
        other => panic!("unexpected result {other:?}"),
    }
}

#[test]
fn docx_archive_that_is_not_a_zip() {
    match viewu::archive::read_docx(b"not a zip file at all") {
        Some(Err(e)) => assert!(!e.is_empty()),
        other => panic!("unexpected result {other:?}"),
    }
}

#[test]
fn markdown_nested_emphasis_composes() {
    let doc = parse_markdown("**a _b_ c** d").unwrap();
    match &doc.blocks[0] {
        DocBlock::Paragraph(p) => {
            assert_eq!(texts(&p.runs), vec!["a ".to_string(), "b".to_string(), " c".to_string(), " d".to_string()]);
            assert!(p.runs[0].bold && !p.runs[0].italic);
            assert!(p.runs[1].bold && p.runs[1].italic);
            assert!(p.runs[2].bold && !p.runs[2].italic);
            assert!(!p.runs[3].bold && !p.runs[3].italic);
        }
        other => panic!("expected a paragraph, got {other:?}"),
    }
}

#[test]
fn local_name_is_stable() {
    let once = local_name(b"w:tbl:grid");
    assert_eq!(once, "grid");
    assert_eq!(local_name(once.as_bytes()), once);
}

fn paragraph_texts(doc: &Document) -> Vec<Vec<String>> {
    doc.blocks
        .iter()
        .map(|b| match b {
            DocBlock::Paragraph(p) => texts(&p.runs),
            other => panic!("expected paragraphs, got {other:?}"),
        })
        .collect()
}

#[test]
fn markdown_block_quotes_are_marked() {
    let doc = parse_markdown("> quote\n").unwrap();
    assert_eq!(paragraph_texts(&doc), vec![vec!["> ".to_string(), "quote".to_string()]]);
}

#[test]
fn markdown_code_blocks_become_paragraphs() {
    let doc = parse_markdown("```\ncode\n```\n").unwrap();
    assert_eq!(paragraph_texts(&doc), vec![vec!["code\n".to_string()]]);
}

#[test]
fn markdown_nested_lists_are_indented() {
    let doc = parse_markdown("- a\n  - b\n").unwrap();
    assert_eq!(
        paragraph_texts(&doc),
        vec![vec!["- ".to_string(), "a".to_string(), "  - ".to_string(), "b".to_string()]]
    );
}

#[test]
fn markdown_blocks_are_never_empty_or_styled_beyond_emphasis() {
    let doc = parse_markdown("#\n\n\n\n> \n\n###### six\n\n| x |\n|---|\n| y |\n").unwrap();
    for b in &doc.blocks {
        match b {
            DocBlock::Paragraph(p) => assert!(!p.runs.is_empty()),
            DocBlock::Heading(p, l) => {
                assert!(!p.runs.is_empty());
                assert!((1..=6).contains(l));
            }
            DocBlock::Table(_) => {}
            DocBlock::PageBreak => panic!("no page breaks from markdown"),
        }
    }
    assert!(doc.blocks.iter().any(|b| matches!(b, DocBlock::Heading(_, 6))));
}

#[test]
fn docx_color_pairs_take_a_plus_sign() {
    assert_eq!(parse_docx_color("+F+f0a"), Some(Color::Rgb(15, 15, 10)));
    assert_eq!(parse_docx_color("++0000"), None);
    assert_eq!(parse_docx_color("#0a0B0c"), Some(Color::Rgb(10, 11, 12)));
}

#[test]
fn docx_text_pieces_join_their_run_in_order() {
    let xml = [
        r#"<w:document xmlns:w="urn:w"><w:body>"#,
        r#"<w:p><w:r><w:t>Hello</w:t><w:t xml:space="preserve"> wide</w:t><w:t> world</w:t></w:r></w:p>"#,
        r#"<w:p><w:r><w:t>one</w:t></w:r></w:p>"#,
        r#"</w:body></w:document>"#,
    ]
    .concat();
    let doc = docx(xml.as_str());
    assert_eq!(doc.blocks.len(), 2);
    match &doc.blocks[0] {
        DocBlock::Paragraph(p) => assert_eq!(texts(&p.runs), vec!["Hello wide world".to_string()]),
        other => panic!("expected a paragraph, got {other:?}"),
    }
    match &doc.blocks[1] {
        DocBlock::Paragraph(p) => {
            assert_eq!(p.runs.len(), 1);
            assert_eq!(p.runs[0].text, "one");
            assert!(!p.runs[0].bold && !p.runs[0].italic && !p.runs[0].underline);
        }
        other => panic!("expected a paragraph, got {other:?}"),
    }
}
