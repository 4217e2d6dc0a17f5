use viewu::config::fallback_theme;
use viewu::screen::{
    footer_status_width, header_style, header_text, menu_popup_size, shown_status, theme_menu_lines, FOOTER_HINT,
};
use viewu::style::{Modifiers, Style};
use viewu::viewer::ThemeMenu;

#[test]
fn header_names_theme() {
    let theme = fallback_theme();
    assert_eq!(header_text(&theme), " ViewU paper");
    assert_eq!(
        header_style(&theme),
        Style::plain().fg(theme.heading).bg(theme.background).add_modifier(Modifiers::bold())
    );
}

#[test]
fn footer_hint_lists_keys() {
    assert!(FOOTER_HINT.contains("t Theme"));
}

#[test]
fn status_width_is_bounded() {
    assert_eq!(footer_status_width("Loaded", 80), 8);
    assert_eq!(footer_status_width("Loaded", 5), 5);
    assert_eq!(footer_status_width("日本", 80), 6);
}

#[test]
fn empty_status_is_not_shown() {
    assert_eq!(shown_status(&Some(String::new())), None);
    assert_eq!(shown_status(&None), None);
    assert_eq!(shown_status(&Some("x".to_string())), Some("x".to_string()));
}

#[test]
fn menu_size_follows_names_and_screen() {
    let names: Vec<String> = vec!["paper".to_string(), "a-rather-long-theme-name".to_string()];
    assert_eq!(menu_popup_size(&names, 80, 24), (32, 4));
    assert_eq!(menu_popup_size(&names, 20, 4), (24, 3));
    assert_eq!(menu_popup_size(&vec![], 80, 24), (24, 3));
    let wide: Vec<String> = vec!["日本語".to_string()];
    assert_eq!(menu_popup_size(&wide, 80, 24), (24, 3));
}

#[test]
fn menu_lines_mark_current_and_selected() {
    let theme = fallback_theme();
    let menu = ThemeMenu { names: vec!["dark".to_string(), "paper".to_string()], selected: 0 };
    let lines = theme_menu_lines(&menu, &theme);
    assert_eq!(lines.len(), 2);
    assert_eq!(lines[0].spans[0].content, "  dark");
    assert_eq!(lines[1].spans[0].content, "→ paper");
    assert_eq!(
        lines[0].spans[0].style,
        Style::plain().fg(theme.background).bg(theme.heading).add_modifier(Modifiers::bold())
    );
    assert_eq!(lines[1].spans[0].style, Style::plain().fg(theme.foreground).bg(theme.background));
}
