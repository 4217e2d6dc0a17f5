use unicode_width::UnicodeWidthStr;
use viewu::columns::{distribute_width, fit_column_widths, resolve_column_widths, table_line_width};
use viewu::config::fallback_theme;
use viewu::document::{Run, TableBlock, TableCell, TableRow};
use viewu::grid::{centered_table_border, render_row_line, table_to_lines};
use viewu::render::run_style;
use viewu::style::{Color, Line, Modifiers, Style};
use viewu::table::{split_at_width, tokenize_runs, wrap_runs, Token};

fn run(text: &str) -> Run {
    Run { text: text.to_string(), bold: false, italic: false, underline: false, color: None, size: None }
}

fn line_text(line: &Line) -> String {
    line.spans.iter().map(|s| s.content.as_str()).collect()
}

fn cell(text: &str) -> TableCell {
    TableCell { runs: vec![run(text)], width: None }
}

#[test]
fn distribute_width_splits_evenly() {
    assert_eq!(distribute_width(3, 30), vec![7, 7, 7]);
}

#[test]
fn distribute_width_gives_remainder_to_first_columns() {
    assert_eq!(distribute_width(4, 30), vec![5, 5, 4, 4]);
    let total: usize = distribute_width(4, 30).iter().sum();
    assert_eq!(total, 30 - 4 * 3);
}

#[test]
fn distribute_width_never_below_three() {
    assert_eq!(distribute_width(5, 10), vec![3, 3, 3, 3, 3]);
    assert_eq!(distribute_width(0, 10), Vec::<usize>::new());
}

#[test]
fn table_line_width_counts_frame() {
    assert_eq!(table_line_width(&[5, 5, 4, 4]), 27);
    assert_eq!(table_line_width(&[]), 0);
}

#[test]
fn fit_column_widths_keeps_fitting_widths() {
    assert_eq!(fit_column_widths(vec![10, 10, 10], 40), vec![10, 10, 10]);
}

#[test]
fn fit_column_widths_scales_down() {
    assert_eq!(fit_column_widths(vec![20, 20, 20], 30), vec![7, 7, 7]);
}

#[test]
fn fit_column_widths_cuts_from_first_wide_column() {
    let fitted = fit_column_widths(vec![10, 2, 40], 20);
    assert_eq!(fitted, vec![3, 3, 5]);
    assert!(fitted.iter().sum::<usize>() <= 20 - 3 * 3);
}

#[test]
fn fit_column_widths_stops_at_three() {
    assert_eq!(fit_column_widths(vec![10, 10], 5), vec![3, 3]);
}

#[test]
fn resolve_column_widths_follows_source_widths() {
    let table = TableBlock { rows: vec![], column_widths: vec![1000, 3000] };
    assert_eq!(resolve_column_widths(&table, 2, 46), vec![10, 30]);
}

#[test]
fn resolve_column_widths_fits_rounded_widths() {
    let table = TableBlock { rows: vec![], column_widths: vec![1, 3] };
    assert_eq!(resolve_column_widths(&table, 2, 16), vec![3, 7]);
    assert_eq!(resolve_column_widths(&table, 2, 17), vec![3, 8]);
}

#[test]
fn resolve_column_widths_spreads_without_source_widths() {
    let table = TableBlock { rows: vec![], column_widths: vec![0, 0] };
    assert_eq!(resolve_column_widths(&table, 2, 22), vec![8, 8]);
}

#[test]
fn border_has_rules_and_junctions() {
    let line = centered_table_border(&[2, 1], '┌', '┬', '┐', 2, Color::Blue);
    assert_eq!(line.spans.len(), 1);
    assert_eq!(line_text(&line), "  ┌────┬───┐");
    assert_eq!(line.spans[0].style, Style::plain().fg(Color::Blue));
}

#[test]
fn row_line_pads_cells() {
    let style = Style::plain();
    let cells = vec![vec![vec![("ab".to_string(), style)]], vec![]];
    let line = render_row_line(&cells, &[4, 3], 2, 0, 1, Color::Blue);
    assert_eq!(line_text(&line), " │ ab   │     │");
    assert_eq!(line.spans.len(), 9);
}

#[test]
fn table_is_centred_with_borders() {
    let table = TableBlock {
        rows: vec![TableRow { cells: vec![cell("a"), cell("b")] }],
        column_widths: vec![],
    };
    let theme = fallback_theme();
    let lines = table_to_lines(&table, 30, &theme);
    assert_eq!(lines.len(), 3);
    assert_eq!(line_text(&lines[0]), "    ┌──────────┬──────────┐");
    assert_eq!(line_text(&lines[1]), "    │ a        │ b        │");
    assert_eq!(line_text(&lines[2]), "    └──────────┴──────────┘");
}

#[test]
fn table_rows_are_separated() {
    let table = TableBlock {
        rows: vec![TableRow { cells: vec![cell("a")] }, TableRow { cells: vec![cell("b")] }],
        column_widths: vec![],
    };
    let theme = fallback_theme();
    let lines = table_to_lines(&table, 20, &theme);
    let texts: Vec<String> = lines.iter().map(line_text).collect();
    assert_eq!(texts.len(), 5);
    assert!(texts[2].trim_start().starts_with('├'));
}

#[test]
fn table_without_room_draws_nothing() {
    let table = TableBlock { rows: vec![TableRow { cells: vec![cell("a")] }], column_widths: vec![] };
    let theme = fallback_theme();
    assert!(table_to_lines(&table, 3, &theme).is_empty());
    assert!(table_to_lines(&table, 11, &theme).is_empty());
    let empty = TableBlock { rows: vec![], column_widths: vec![100] };
    assert!(table_to_lines(&empty, 80, &theme).is_empty());
}

#[test]
fn tokenize_splits_words_and_breaks() {
    let tokens = tokenize_runs(&[run("ab c\td\ne")]);
    assert_eq!(tokens.len(), 5);
    match &tokens[0] {
        Token::Word(f) => assert_eq!(f[0].0, "ab"),
        Token::Break => panic!("expected a word"),
    }
    match &tokens[2] {
        Token::Word(f) => assert_eq!(f[0].0, "d"),
        Token::Break => panic!("expected a word"),
    }
    assert!(matches!(tokens[3], Token::Break));
}

#[test]
fn tokenize_keeps_run_styles_inside_a_word() {
    let mut bold = run("cd");
    bold.bold = true;
    let tokens = tokenize_runs(&[run("ab"), bold]);
    assert_eq!(tokens.len(), 1);
    match &tokens[0] {
        Token::Word(f) => {
            assert_eq!(f.len(), 2);
            assert_eq!(f[1].0, "cd");
            assert_eq!(f[1].1, Style::plain().add_modifier(Modifiers::bold()));
        }
        Token::Break => panic!("expected a word"),
    }
}

#[test]
fn split_at_width_counts_columns() {
    let s: Vec<char> = "abcdef".chars().collect();
    assert_eq!(split_at_width(&s, 4), 4);
    let wide: Vec<char> = "日本語".chars().collect();
    assert_eq!(split_at_width(&wide, 4), 2);
    assert_eq!(split_at_width(&wide, 1), 1);
}

#[test]
fn wrap_runs_breaks_between_words() {
    let lines = wrap_runs(&[run("aa bb cc")], 5);
    let texts: Vec<String> = lines.iter().map(|l| l.iter().map(|f| f.0.as_str()).collect()).collect();
    assert_eq!(texts, vec!["aa bb".to_string(), "cc".to_string()]);
}

#[test]
fn wrap_runs_cuts_long_words() {
    let lines = wrap_runs(&[run("abcdefg")], 3);
    let texts: Vec<String> = lines.iter().map(|l| l.iter().map(|f| f.0.as_str()).collect()).collect();
    assert_eq!(texts, vec!["abc".to_string(), "def".to_string(), "g".to_string()]);
}

#[test]
fn wrap_runs_always_gives_a_line() {
    assert_eq!(wrap_runs(&[], 10).len(), 1);
    assert_eq!(wrap_runs(&[run("abc")], 0).len(), 1);
    assert!(wrap_runs(&[run("   ")], 4)[0].is_empty());
}

#[test]
fn wrap_runs_counts_wide_characters() {
    let lines = wrap_runs(&[run("日本語")], 4);
    let texts: Vec<String> = lines.iter().map(|l| l.iter().map(|f| f.0.as_str()).collect()).collect();
    assert_eq!(texts, vec!["日本".to_string(), "語".to_string()]);
}

#[test]
fn table_without_rows_needs_no_room() {
    let table = TableBlock { rows: vec![], column_widths: vec![u32::MAX, u32::MAX] };
    let theme = fallback_theme();
    assert!(viewu::grid::check_table_fits(&table, 80, theme.table_padding));
    assert!(table_to_lines(&table, 80, &theme).is_empty());
}

#[test]
fn fitted_widths_stay_between_three_and_input() {
    let input = vec![9, 4, 30];
    let fitted = fit_column_widths(input.clone(), 24);
    for (f, w) in fitted.iter().zip(input.iter()) {
        assert!(3 <= *f && *f <= *w);
    }
    assert!(fitted.iter().sum::<usize>() <= 24 - 9);
}

#[test]
fn wrapped_lines_keep_line_feeds() {
    let lines = wrap_runs(&[run("a\n\nb\n")], 10);
    assert!(lines.len() >= 3);
    assert!(lines.iter().all(|l| l.iter().all(|f| !f.0.is_empty() && !f.0.contains('\n'))));
}

#[test]
fn split_keeps_all_characters() {
    let s: Vec<char> = "ab日c".chars().collect();
    let k = split_at_width(&s, 3);
    assert_eq!(k, 2);
    assert_eq!(split_at_width(&s, 0), 1);
    let wide: Vec<char> = "日".chars().collect();
    assert_eq!(split_at_width(&wide, 1), 1);
}

#[test]
fn tokens_are_words_and_breaks() {
    let mut b = run("c d");
    b.bold = true;
    let tokens = tokenize_runs(&[run(" ab"), b, run("\n\ne ")]);
    let shape: Vec<String> = tokens
        .iter()
        .map(|t| match t {
            Token::Word(f) => f.iter().map(|x| x.0.as_str()).collect::<String>(),
            Token::Break => "\n".to_string(),
        })
        .collect();
    assert_eq!(shape, vec!["abc", "d", "\n", "\n", "e"]);
}

#[test]
fn wrapped_fragments_give_back_the_text() {
    let mut b = run(" ghij");
    b.bold = true;
    let lines = wrap_runs(&[run("ab cd\nef"), b], 3);
    let text: String = lines
        .iter()
        .flat_map(|l| l.iter())
        .filter(|f| !(f.0 == " " && f.1 == Style::plain()))
        .map(|f| f.0.as_str())
        .collect();
    assert_eq!(text, "abcdefghij");
}

#[test]
fn narrow_text_lines_fit_the_width() {
    let lines = wrap_runs(&[run("the quick\tbrown fox jumps\nover lazydogs and more")], 5);
    assert!(lines.len() >= 6);
    for l in &lines {
        let chars: usize = l.iter().map(|f| f.0.chars().count()).sum();
        assert!(chars <= 5, "{:?}", l);
    }
}

#[test]
fn wrapped_fragments_keep_run_styles() {
    let mut b = run("bold wor");
    b.bold = true;
    let plain = run("plain text ");
    let (ps, bs) = (run_style(&plain), run_style(&b));
    let lines = wrap_runs(&[plain, b, run("ds")], 7);
    let tagged: Vec<(char, Style)> = lines
        .iter()
        .flat_map(|l| l.iter())
        .filter(|f| !(f.0 == " " && f.1 == Style::plain()))
        .flat_map(|f| f.0.chars().map(move |c| (c, f.1)))
        .collect();
    let mut expected: Vec<(char, Style)> = "plaintext".chars().map(|c| (c, ps)).collect();
    expected.extend("boldwor".chars().map(|c| (c, bs)));
    expected.extend("ds".chars().map(|c| (c, ps)));
    assert_eq!(tagged, expected);
}

#[test]
fn simple_width_lines_fit_the_width() {
    let lines = wrap_runs(&[run("café déjà vu\u{e9}\u{301}té naïveté")], 4);
    assert!(lines.len() >= 5);
    for l in &lines {
        let w: usize = l.iter().map(|f| UnicodeWidthStr::width(f.0.as_str())).sum();
        assert!(w <= 4, "{:?}", l);
    }
}
