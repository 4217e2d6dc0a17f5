use std::path::PathBuf;
use viewu::config::{fallback_theme, Theme, ThemeLoadOutcome};
use viewu::document::Document;
use viewu::formats::{dump_format, read_format, InputFormat, OutputFormat};
use viewu::viewer::{Action, App, Key, ThemeMenu};

fn app() -> App {
    let outcome = ThemeLoadOutcome { theme: fallback_theme(), status: String::new() };
    App::new(Document { blocks: vec![] }, PathBuf::from("/themes"), "doc.md".to_string(), outcome)
}

fn names(list: &[&str]) -> Vec<String> {
    list.iter().map(|s| s.to_string()).collect()
}

fn theme_called(name: &str) -> Theme {
    let mut t = fallback_theme();
    t.name = name.to_string();
    t
}

#[test]
fn new_app_starts_at_top() {
    let a = app();
    assert_eq!(a.scroll, 0);
    assert_eq!(a.status, Some(String::new()));
    assert!(a.menu.is_none());
    assert_eq!(a.src_file, "doc.md");
    assert_eq!(a.themes_dir, PathBuf::from("/themes"));
}

#[test]
fn scrolling_saturates() {
    let mut a = app();
    a.scroll_up();
    assert_eq!(a.scroll, 0);
    a.scroll_down();
    a.scroll_down();
    assert_eq!(a.scroll, 2);
    a.scroll_up();
    assert_eq!(a.scroll, 1);
    a.scroll = u16::MAX;
    a.scroll_down();
    assert_eq!(a.scroll, u16::MAX);
    a.page_down();
    assert_eq!(a.scroll, u16::MAX);
    a.scroll = 5;
    a.page_up();
    assert_eq!(a.scroll, 0);
    a.page_down();
    assert_eq!(a.scroll, 10);
}

#[test]
fn scroll_down_then_up_returns() {
    let mut a = app();
    a.scroll = 41;
    a.scroll_down();
    a.scroll_up();
    assert_eq!(a.scroll, 41);
}

#[test]
fn menu_opens_on_current_theme() {
    let mut a = app();
    a.open_theme_menu(Ok(names(&["dark", "paper", "solar"])), "/themes");
    let m = a.menu.as_ref().unwrap();
    assert_eq!(m.selected, 1);
    assert_eq!(m.names.len(), 3);
}

#[test]
fn menu_opens_on_first_when_theme_missing() {
    let mut a = app();
    a.theme = theme_called("other");
    a.open_theme_menu(Ok(names(&["dark", "solar"])), "/themes");
    assert_eq!(a.menu.as_ref().unwrap().selected, 0);
}

#[test]
fn empty_or_failed_listing_sets_status() {
    let mut a = app();
    a.open_theme_menu(Ok(vec![]), "/themes");
    assert!(a.menu.is_none());
    assert_eq!(a.status, Some("No themes found in /themes".to_string()));
    a.open_theme_menu(Err("denied".to_string()), "/themes");
    assert_eq!(a.status, Some("Failed to list themes: denied".to_string()));
}

#[test]
fn menu_moves_wrap_around() {
    let mut a = app();
    a.menu = Some(ThemeMenu { names: names(&["a", "b", "c"]), selected: 0 });
    a.menu_move(-1);
    assert_eq!(a.menu.as_ref().unwrap().selected, 2);
    a.menu_move(1);
    assert_eq!(a.menu.as_ref().unwrap().selected, 0);
    a.menu_move(7);
    assert_eq!(a.menu.as_ref().unwrap().selected, 1);
    a.menu_move(-7);
    assert_eq!(a.menu.as_ref().unwrap().selected, 0);
}

#[test]
fn menu_move_without_menu_does_nothing() {
    let mut a = app();
    a.menu_move(1);
    assert!(a.menu.is_none());
}

#[test]
fn applying_takes_the_selected_name() {
    let mut a = app();
    a.menu = Some(ThemeMenu { names: names(&["a", "b", "c"]), selected: 1 });
    assert_eq!(a.apply_selected_theme(), Some("b".to_string()));
    assert!(a.menu.is_none());
    assert_eq!(a.apply_selected_theme(), None);
}

#[test]
fn loaded_theme_is_used_and_announced() {
    let mut a = app();
    assert!(a.theme_loaded("solar", Ok(theme_called("solar"))));
    assert_eq!(a.theme.name, "solar");
    assert_eq!(a.status, Some("Loaded theme 'solar'".to_string()));
    a.preference_not_saved("solar", "read-only");
    assert_eq!(a.status, Some("Loaded 'solar' but failed to save preference: read-only".to_string()));
}

#[test]
fn failed_theme_is_reported() {
    let mut a = app();
    assert!(!a.theme_loaded("solar", Err("broken".to_string())));
    assert_eq!(a.theme.name, "paper");
    assert_eq!(a.status, Some("Failed to load 'solar': broken".to_string()));
}

#[test]
fn keys_without_menu() {
    let mut a = app();
    assert_eq!(a.handle_key(Key::Char('j')), Action::Continue);
    assert_eq!(a.handle_key(Key::Down), Action::Continue);
    assert_eq!(a.scroll, 2);
    assert_eq!(a.handle_key(Key::Char('k')), Action::Continue);
    assert_eq!(a.scroll, 1);
    assert_eq!(a.handle_key(Key::PageDown), Action::Continue);
    assert_eq!(a.scroll, 11);
    assert_eq!(a.handle_key(Key::PageUp), Action::Continue);
    assert_eq!(a.scroll, 1);
    assert_eq!(a.handle_key(Key::Char('t')), Action::OpenThemeMenu);
    assert_eq!(a.handle_key(Key::Enter), Action::Continue);
    assert_eq!(a.handle_key(Key::Char('q')), Action::Quit);
    assert_eq!(a.handle_key(Key::Esc), Action::Quit);
    assert_eq!(a.scroll, 1);
}

#[test]
fn keys_with_menu() {
    let mut a = app();
    a.menu = Some(ThemeMenu { names: names(&["a", "b"]), selected: 0 });
    assert_eq!(a.handle_key(Key::Char('j')), Action::Continue);
    assert_eq!(a.menu.as_ref().unwrap().selected, 1);
    assert_eq!(a.handle_key(Key::Down), Action::Continue);
    assert_eq!(a.menu.as_ref().unwrap().selected, 0);
    assert_eq!(a.handle_key(Key::Up), Action::Continue);
    assert_eq!(a.menu.as_ref().unwrap().selected, 1);
    assert_eq!(a.handle_key(Key::PageDown), Action::Continue);
    assert_eq!(a.scroll, 0);
    assert_eq!(a.handle_key(Key::Enter), Action::ApplySelectedTheme);
    assert!(a.menu.is_some());
    assert_eq!(a.handle_key(Key::Char('q')), Action::Continue);
    assert!(a.menu.is_none());
}

#[test]
fn input_formats_from_extensions() {
    assert_eq!(InputFormat::from_extension(Some("docx")), InputFormat::Docx);
    assert_eq!(InputFormat::from_extension(Some("MD")), InputFormat::Markdown);
    assert_eq!(InputFormat::from_extension(Some("Markdown")), InputFormat::Markdown);
    assert_eq!(InputFormat::from_extension(Some("pdf")), InputFormat::Docx);
    assert_eq!(InputFormat::from_extension(None), InputFormat::Docx);
    assert_eq!(read_format(Some(InputFormat::Markdown), Some("docx")), InputFormat::Markdown);
    assert_eq!(read_format(None, Some("md")), InputFormat::Markdown);
}

#[test]
fn output_formats_from_extensions() {
    assert_eq!(OutputFormat::Text.extension(), "txt");
    assert_eq!(OutputFormat::Markdown.extension(), "md");
    assert_eq!(OutputFormat::from_output_extension(Some("mD")), OutputFormat::Markdown);
    assert_eq!(OutputFormat::from_output_extension(Some("txt")), OutputFormat::Text);
    assert_eq!(OutputFormat::from_output_extension(None), OutputFormat::Text);
    assert_eq!(dump_format(None, Some("markdown")), OutputFormat::Markdown);
    assert_eq!(dump_format(Some(OutputFormat::Text), Some("md")), OutputFormat::Text);
}
