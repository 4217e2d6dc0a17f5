use viewu::config::fallback_theme;
use viewu::document::{DocBlock, Document, ParagraphBlock, Run};
use viewu::render::{
    contains_url, document_to_lines, heading_style, is_url, paragraph_to_lines, run_is_emphasized, run_is_huge,
    run_is_large, run_style, underline_urls,
};
use viewu::style::{Color, Line, Modifiers, Style};

fn plain_run(text: &str) -> Run {
    Run { text: text.to_string(), bold: false, italic: false, underline: false, color: None, size: None }
}

fn rendered_text(line: &Line) -> String {
    line.spans.iter().map(|s| s.content.as_str()).collect()
}

fn chars(s: &str) -> Vec<char> {
    s.chars().collect()
}

#[test]
fn run_sizes() {
    let mut r = plain_run("x");
    r.size = Some(31);
    assert!(!run_is_large(&r));
    r.size = Some(32);
    assert!(run_is_large(&r));
    assert!(!run_is_huge(&r));
    assert!(run_is_emphasized(&r));
    r.size = Some(56);
    assert!(run_is_huge(&r));
    r.size = None;
    assert!(!run_is_emphasized(&r));
}

#[test]
fn run_style_combines_properties() {
    let mut r = plain_run("x");
    r.italic = true;
    r.size = Some(60);
    r.color = Some(Color::Rgb(1, 2, 3));
    let expected = Style::plain()
        .add_modifier(Modifiers::bold())
        .add_modifier(Modifiers::italic())
        .add_modifier(Modifiers::underlined())
        .fg(Color::Rgb(1, 2, 3));
    assert_eq!(run_style(&r), expected);
    assert_eq!(run_style(&plain_run("y")), Style::plain());
}

#[test]
fn heading_styles_by_level() {
    let theme = fallback_theme();
    let base = Style::plain().fg(theme.heading);
    assert_eq!(heading_style(1, &theme), base.add_modifier(Modifiers::bold().union(Modifiers::underlined())));
    assert_eq!(heading_style(3, &theme), base.add_modifier(Modifiers::bold().union(Modifiers::italic())));
    assert_eq!(heading_style(4, &theme), base.add_modifier(Modifiers::bold()));
    assert_eq!(heading_style(5, &theme), base.add_modifier(Modifiers::italic()));
    assert_eq!(heading_style(6, &theme), base.add_modifier(Modifiers::dim()));
    assert_eq!(heading_style(9, &theme), base.add_modifier(Modifiers::bold()));
}

#[test]
fn urls_are_recognised() {
    assert!(is_url(&chars("https://example.org")));
    assert!(is_url(&chars("(www.example.org)")));
    assert!(is_url(&chars("<http://a>")));
    assert!(!is_url(&chars("ftp://a")));
    assert!(contains_url("see https://x.org now"));
    assert!(contains_url("tab\twww.a.b"));
    assert!(!contains_url("no links here"));
}

#[test]
fn urls_are_marked_with_low_lines() {
    assert_eq!(underline_urls("go www.a.b now"), "go w\u{330}w\u{330}w\u{330}.\u{330}a\u{330}.\u{330}b\u{330} now");
    assert_eq!(underline_urls("plain text"), "plain text");
}

#[test]
fn heading_paragraph_has_prefix() {
    let theme = fallback_theme();
    let p = ParagraphBlock { runs: vec![plain_run("Intro")] };
    let lines = paragraph_to_lines(&p, Some(1), &theme);
    assert_eq!(lines.len(), 1);
    assert_eq!(lines[0].spans.len(), 2);
    assert_eq!(lines[0].spans[0].content, "◆ H1  ");
    assert_eq!(rendered_text(&lines[0]), "◆ H1  Intro");
    assert_eq!(lines[0].spans[1].style, heading_style(1, &theme));
    let deep = paragraph_to_lines(&p, Some(8), &theme);
    assert_eq!(deep[0].spans[0].content, "      H6  ");
}

#[test]
fn bold_run_takes_theme_bold_colour() {
    let theme = fallback_theme();
    let mut r = plain_run("strong");
    r.bold = true;
    let lines = paragraph_to_lines(&ParagraphBlock { runs: vec![r] }, None, &theme);
    assert_eq!(lines[0].spans[0].style, Style::plain().add_modifier(Modifiers::bold()).fg(theme.bold));
}

#[test]
fn run_with_url_is_blue_and_not_underlined() {
    let theme = fallback_theme();
    let mut r = plain_run("https://a");
    r.underline = true;
    let lines = paragraph_to_lines(&ParagraphBlock { runs: vec![r] }, None, &theme);
    let span = &lines[0].spans[0];
    assert_eq!(span.style.fg, Some(Color::Blue));
    assert!(!span.style.add_modifier.underlined);
    assert!(span.style.sub_modifier.underlined);
    assert_eq!(span.content.chars().count(), 18);
}

#[test]
fn document_lines_per_block() {
    let theme = fallback_theme();
    let doc = Document {
        blocks: vec![
            DocBlock::Paragraph(ParagraphBlock { runs: vec![plain_run("a")] }),
            DocBlock::PageBreak,
            DocBlock::Heading(ParagraphBlock { runs: vec![plain_run("h")] }, 2),
        ],
    };
    let lines = document_to_lines(&doc, 80, &theme);
    assert_eq!(lines.len(), 5);
    assert_eq!(rendered_text(&lines[0]), "a");
    assert!(lines[1].spans.is_empty());
    assert_eq!(rendered_text(&lines[2]), "─".repeat(40));
    assert_eq!(rendered_text(&lines[3]), "▸ H2  h");
    assert!(lines[4].spans.is_empty());
}

#[test]
fn document_lines_of_two_documents_concatenate() {
    let theme = fallback_theme();
    let first = Document { blocks: vec![DocBlock::PageBreak] };
    let second = Document { blocks: vec![DocBlock::Paragraph(ParagraphBlock { runs: vec![plain_run("x")] })] };
    let joined = Document {
        blocks: vec![DocBlock::PageBreak, DocBlock::Paragraph(ParagraphBlock { runs: vec![plain_run("x")] })],
    };
    let texts = |d: &Document| -> Vec<String> { document_to_lines(d, 40, &theme).iter().map(rendered_text).collect() };
    let mut expected = texts(&first);
    expected.extend(texts(&second));
    assert_eq!(texts(&joined), expected);
}

#[test]
fn underlining_only_adds_low_lines() {
    let text = "see www.a and (https://b.c) too";
    let marked = underline_urls(text);
    assert_eq!(marked.replace('\u{330}', ""), text);
    assert_ne!(marked, text);
    assert_eq!(underline_urls("see www"), "see www");
}

#[test]
fn line_count_per_block() {
    let theme = fallback_theme();
    let doc = Document {
        blocks: vec![
            DocBlock::PageBreak,
            DocBlock::Paragraph(ParagraphBlock { runs: vec![plain_run("a")] }),
            DocBlock::Heading(ParagraphBlock { runs: vec![plain_run("h")] }, 1),
        ],
    };
    let lines = document_to_lines(&doc, 40, &theme);
    assert_eq!(lines.len(), 1 + 2 + 2);
    assert!(lines[2].spans.is_empty() && lines[4].spans.is_empty());
}
