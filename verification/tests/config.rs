use viewu::config::{
    after_default_load, after_first_load, fallback_theme, last_theme_name_from_contents, parse_hex_color,
    setup_failed_outcome, startup_theme_name, theme_config_to_theme, theme_file_name, theme_names, ColorError,
    StartupStep, Theme, ThemeConfig, DEFAULT_THEME_NAME,
};
use viewu::style::Color;

fn config(background: &str) -> ThemeConfig {
    ThemeConfig {
        name: "night".to_string(),
        background: background.to_string(),
        foreground: "#FFFFFF".to_string(),
        heading: "#101010".to_string(),
        bold: "#202020".to_string(),
        table_border: "#303030".to_string(),
        table_header: "#404040".to_string(),
        table_padding: 2,
    }
}

fn theme_named(name: &str) -> Theme {
    let mut t = fallback_theme();
    t.name = name.to_string();
    t.table_padding = 7;
    t
}

#[test]
fn fallback_is_paper() {
    let t = fallback_theme();
    assert_eq!(t.name, DEFAULT_THEME_NAME);
    assert_eq!(t.background, Color::Rgb(0xF4, 0xF1, 0xEA));
    assert_eq!(t.table_border, Color::Rgb(0x77, 0x73, 0x6B));
    assert_eq!(t.table_padding, 4);
}

#[test]
fn hex_colours_parse() {
    assert_eq!(parse_hex_color("#1A2b3C").unwrap(), Color::Rgb(0x1A, 0x2B, 0x3C));
    assert_eq!(parse_hex_color("  ##00ff00 ").unwrap(), Color::Rgb(0, 255, 0));
    assert_eq!(parse_hex_color("+1+2+3").unwrap(), Color::Rgb(1, 2, 3));
}

#[test]
fn hex_colour_of_wrong_length() {
    match parse_hex_color(" #12345 ") {
        Err(e) => {
            assert!(matches!(e, ColorError::WrongLength(ref v) if v == "12345"));
            assert_eq!(e.message(), "invalid color '12345': expected #RRGGBB");
        }
        Ok(c) => panic!("unexpected colour {c:?}"),
    }
}

#[test]
fn hex_colour_with_bad_digit() {
    match parse_hex_color("#12345G") {
        Err(e) => {
            assert!(matches!(e, ColorError::InvalidDigit));
            assert_eq!(e.message(), "invalid digit found in string");
        }
        Ok(c) => panic!("unexpected colour {c:?}"),
    }
}

#[test]
fn config_becomes_theme() {
    let t = theme_config_to_theme(config("#000000")).unwrap();
    assert_eq!(t.name, "night");
    assert_eq!(t.background, Color::Rgb(0, 0, 0));
    assert_eq!(t.foreground, Color::Rgb(255, 255, 255));
    assert_eq!(t.table_header, Color::Rgb(0x40, 0x40, 0x40));
    assert_eq!(t.table_padding, 2);
}

#[test]
fn config_with_bad_colour_fails_on_first() {
    let mut c = config("#00000");
    c.heading = "zz".to_string();
    match theme_config_to_theme(c) {
        Err(e) => assert_eq!(e.message(), "invalid color '00000': expected #RRGGBB"),
        Ok(_) => panic!("expected an error"),
    }
}

#[test]
fn remembered_theme_is_trimmed() {
    assert_eq!(last_theme_name_from_contents("  night\n"), Some("night".to_string()));
    assert_eq!(last_theme_name_from_contents(" \n\t"), None);
    assert_eq!(last_theme_name_from_contents(""), None);
}

#[test]
fn startup_name_defaults_to_paper() {
    assert_eq!(startup_theme_name(None), "paper");
    assert_eq!(startup_theme_name(Some("night".to_string())), "night");
}

#[test]
fn theme_files_are_toml() {
    assert_eq!(theme_file_name("night"), "night.toml");
}

#[test]
fn setup_failure_uses_built_in_theme() {
    let o = setup_failed_outcome("denied");
    assert_eq!(o.status, "Failed to set up themes directory (denied); using built-in paper theme");
    assert_eq!(o.theme.name, "paper");
}

#[test]
fn first_load_success_is_final() {
    match after_first_load("night", Ok(theme_named("night"))) {
        StartupStep::Done(o) => {
            assert_eq!(o.theme.name, "night");
            assert_eq!(o.status, "");
        }
        StartupStep::TryDefault(_) => panic!("expected done"),
    }
}

#[test]
fn default_theme_failure_falls_back() {
    match after_first_load("paper", Err("missing".to_string())) {
        StartupStep::Done(o) => {
            assert_eq!(o.theme.table_padding, 4);
            assert_eq!(o.status, "Failed to load default theme 'paper' (missing); using built-in defaults");
        }
        StartupStep::TryDefault(_) => panic!("expected done"),
    }
}

#[test]
fn other_theme_failure_tries_default() {
    match after_first_load("night", Err("bad".to_string())) {
        StartupStep::TryDefault(e) => assert_eq!(e, "bad"),
        StartupStep::Done(_) => panic!("expected a second try"),
    }
    let o = after_default_load("night", "bad", Ok(theme_named("paper")));
    assert_eq!(o.status, "Failed to load theme 'night' (bad); loaded 'paper' instead");
    assert_eq!(o.theme.table_padding, 7);
    let o = after_default_load("night", "bad", Err("worse".to_string()));
    assert_eq!(o.status, "Failed to load 'night' and 'paper' (bad); using built-in defaults");
    assert_eq!(o.theme.table_padding, 4);
}

#[test]
fn theme_names_are_filtered_and_sorted() {
    let entries = vec![
        (Some("toml".to_string()), Some("zeta".to_string())),
        (Some("txt".to_string()), Some("notes".to_string())),
        (None, Some("README".to_string())),
        (Some("toml".to_string()), Some("Alpha".to_string())),
        (Some("TOML".to_string()), Some("upper".to_string())),
        (Some("toml".to_string()), Some("alpha".to_string())),
        (Some("toml".to_string()), None),
        (Some("toml".to_string()), Some("alp".to_string())),
    ];
    assert_eq!(theme_names(entries), vec!["Alpha", "alp", "alpha", "zeta"]);
}

#[test]
fn theme_names_of_nothing() {
    assert!(theme_names(vec![]).is_empty());
}

#[test]
fn remembered_theme_saved_again_is_kept() {
    let first = last_theme_name_from_contents("\t solar dark \n").unwrap();
    assert_eq!(first, "solar dark");
    assert_eq!(last_theme_name_from_contents(&first), Some(first.clone()));
}
