//! What the screen shows around the document: the header, the footer's
//! key hints and status, and the theme menu's lines and size.

use vstd::prelude::*;
use crate::style::{Modifiers, Style, Span, SpanView, Line, plain_style, style_with_fg, style_with_bg, style_adding,
    no_modifiers, lines_view};
use crate::config::Theme;
use crate::viewer::{ThemeMenu, names_view};
use crate::text::{push_str, chars_of, chars_equal};
use crate::width::{str_width, str_display_width};

verus! {

/// The key hints shown in the footer.
pub const FOOTER_HINT: &'static str = " ↑/k Up   ↓/j Down   PgUp/PgDn Scroll   t Theme   q/Esc Quit ";

/// The title shown in the menu's frame.
pub const MENU_TITLE: &'static str = " (↑/↓ · Enter · Esc) ";

/// The header's text: the viewer's name and the theme's.
pub fn header_text(theme: &Theme) -> (s: String)
    ensures
        s@ == " ViewU "@ + theme.name@,
{
    let mut s = " ViewU ".to_owned();
    push_str(&mut s, theme.name.as_str());
    s
}

pub open spec fn bold_only() -> Modifiers {
    Modifiers { bold: true, ..no_modifiers() }
}

/// The header's style: the heading colour on the background, bold.
pub fn header_style(theme: &Theme) -> (s: Style)
    ensures
        s == style_adding(style_with_bg(style_with_fg(plain_style(), theme.heading), theme.background), bold_only()),
{
    Style::plain().fg(theme.heading).bg(theme.background).add_modifier(Modifiers::bold())
}

/// The status to show, where there is a non-empty one.
pub fn shown_status(status: &Option<String>) -> (r: Option<String>)
    ensures
        match status {
            Some(s) => if s@.len() > 0 { r matches Some(t) && t@ == s@ } else { r is None },
            None => r is None,
        },
{
    match status {
        Some(s) => {
            let c = chars_of(s.as_str());
            if c.len() > 0 { Some(s.clone()) } else { None }
        },
        None => None,
    }
}

/// The columns the footer gives the status: its width and a column on
/// each side, at most the footer's width.
pub open spec fn status_columns(status: Seq<char>, area_width: u16) -> u16 {
    let w = (str_width(status) % 65536) + 2;
    if w < area_width { w as u16 } else { area_width }
}

/// The columns the footer gives the status.
pub fn footer_status_width(status: &str, area_width: u16) -> (r: u16)
    requires
        (str_width(status@) % 65536) + 2 <= u16::MAX,
    ensures
        r == status_columns(status@, area_width),
{
    let w = str_display_width(status);
    let w16: u16 = (w % 65536) as u16;
    let total = w16 + 2;
    if total < area_width { total } else { area_width }
}

/// The columns the footer gives the status, or `None` where the status is
/// so wide that the count overflows 16 bits (there the sum panics).
pub fn footer_status_width_checked(status: &str, area_width: u16) -> (r: Option<u16>)
    ensures
        match r {
            Some(w) => (str_width(status@) % 65536) + 2 <= u16::MAX && w == status_columns(status@, area_width),
            None => (str_width(status@) % 65536) + 2 > u16::MAX,
        },
{
    let w = str_display_width(status);
    if w % 65536 + 2 > 65535 {
        None
    } else {
        Some(footer_status_width(status, area_width))
    }
}

/// The widest theme name, counted as the menu counts it (in columns,
/// truncated to 16 bits), or 10 where there is none.
pub open spec fn longest_name(names: Seq<Seq<char>>) -> nat
    decreases names.len(),
{
    if names.len() == 0 {
        10
    } else if names.len() == 1 {
        str_width(names[0]) as nat
    } else {
        let m = longest_name(names.drop_last());
        let w = str_width(names.last()) as nat;
        if w > m { w } else { m }
    }
}

/// `v` held between `lo` and `hi`.
pub open spec fn clamped(v: int, lo: int, hi: int) -> int {
    if v < lo {
        lo
    } else if v > hi {
        hi
    } else {
        v
    }
}

/// The menu's width: the widest name and 8 columns, between 24 and the
/// screen's width less 4 (but at least 24).
pub open spec fn menu_width(names: Seq<Seq<char>>, area_width: u16) -> int {
    let max_width: int = if area_width >= 28 { area_width - 4 } else { 24 };
    clamped(((longest_name(names) % 65536) + 8) as int, 24, max_width)
}

/// The menu's height: a line per name and the frame, between 3 and the
/// screen's height less 2 (but at least 3).
pub open spec fn menu_height(count: nat, area_height: u16) -> int {
    let max_height: int = if area_height >= 5 { area_height - 2 } else { 3 };
    clamped(((count % 65536) + 2) as int, 3, max_height)
}

/// The size of the theme menu's window on a screen of the given size.
pub fn menu_popup_size(names: &Vec<String>, area_width: u16, area_height: u16) -> (r: (u16, u16))
    requires
        (longest_name(names_view(names@)) % 65536) + 8 <= u16::MAX,
        (names@.len() % 65536) + 2 <= u16::MAX,
    ensures
        r.0 == menu_width(names_view(names@), area_width),
        r.1 == menu_height(names@.len(), area_height),
{
    let longest = longest_name_width(names);
    let longest16: u16 = (longest % 65536) as u16;
    let max_width: u16 = if area_width >= 28 { area_width - 4 } else { 24 };
    let w = longest16 + 8;
    let width = if w < 24 { 24 } else if w > max_width { max_width } else { w };
    let count16: u16 = (names.len() % 65536) as u16;
    let max_height: u16 = if area_height >= 5 { area_height - 2 } else { 3 };
    let h = count16 + 2;
    let height = if h < 3 { 3 } else if h > max_height { max_height } else { h };
    (width, height)
}

fn longest_name_width(names: &Vec<String>) -> (r: usize)
    ensures
        r == longest_name(names_view(names@)),
{
    let ghost nv = names_view(names@);
    let mut longest: usize = 10;
    let mut i: usize = 0;
    while i < names.len()
        invariant
            i <= names.len(),
            nv == names_view(names@),
            longest == longest_name(nv.take(i as int)),
        decreases names.len() - i,
    {
        assert(nv.take(i + 1).drop_last() =~= nv.take(i as int));
        assert(nv[i as int] == names@[i as int]@);
        let w = str_display_width(names[i].as_str());
        if i == 0 || w > longest {
            longest = w;
        }
        proof {
            if i == 0 {
                assert(nv.take(1)[0] == nv[0]);
            }
        }
        i = i + 1;
    }
    assert(nv.take(i as int) =~= nv);
    longest
}

/// The size of the theme menu's window, or `None` where a count overflows
/// 16 bits (there the sums panic).
pub fn menu_popup_size_checked(names: &Vec<String>, area_width: u16, area_height: u16) -> (r: Option<(u16, u16)>)
    ensures
        match r {
            Some(size) => (longest_name(names_view(names@)) % 65536) + 8 <= u16::MAX
                && (names@.len() % 65536) + 2 <= u16::MAX
                && size.0 == menu_width(names_view(names@), area_width)
                && size.1 == menu_height(names@.len(), area_height),
            None => (longest_name(names_view(names@)) % 65536) + 8 > u16::MAX
                || (names@.len() % 65536) + 2 > u16::MAX,
        },
{
    let longest = longest_name_width(names);
    if longest % 65536 + 8 > 65535 || names.len() % 65536 + 2 > 65535 {
        None
    } else {
        Some(menu_popup_size(names, area_width, area_height))
    }
}

/// The style of a menu entry: the selected one in the background colour
/// on the heading colour, bold; the others in the text colours.
pub open spec fn menu_entry_style(selected: bool, theme: Theme) -> Style {
    if selected {
        style_adding(style_with_bg(style_with_fg(plain_style(), theme.background), theme.heading), bold_only())
    } else {
        style_with_bg(style_with_fg(plain_style(), theme.foreground), theme.background)
    }
}

/// The menu's lines: one per theme, the current theme marked with an
/// arrow.
pub open spec fn menu_lines(names: Seq<Seq<char>>, selected: int, theme: Theme) -> Seq<Seq<SpanView>> {
    Seq::new(names.len(), |i: int| seq![SpanView {
        content: (if names[i] == theme.name@ { "→ "@ } else { "  "@ }) + names[i],
        style: menu_entry_style(i == selected, theme),
    }])
}

/// The lines of the theme menu.
pub fn theme_menu_lines(menu: &ThemeMenu, theme: &Theme) -> (r: Vec<Line>)
    ensures
        lines_view(r@) == menu_lines(names_view(menu.names@), menu.selected as int, *theme),
{
    let ghost nv = names_view(menu.names@);
    let ghost target = menu_lines(nv, menu.selected as int, *theme);
    let current = chars_of(theme.name.as_str());
    let mut lines: Vec<Line> = Vec::new();
    let mut i: usize = 0;
    while i < menu.names.len()
        invariant
            i <= menu.names.len(),
            nv == names_view(menu.names@),
            target == menu_lines(nv, menu.selected as int, *theme),
            current@ == theme.name@,
            lines_view(lines@) == target.take(i as int),
        decreases menu.names.len() - i,
    {
        let name = chars_of(menu.names[i].as_str());
        assert(name@ == nv[i as int]);
        let is_current = chars_equal(name.as_slice(), current.as_slice());
        let mut text = if is_current { "→ ".to_owned() } else { "  ".to_owned() };
        push_str(&mut text, menu.names[i].as_str());
        let style = if i == menu.selected {
            Style::plain().fg(theme.background).bg(theme.heading).add_modifier(Modifiers::bold())
        } else {
            Style::plain().fg(theme.foreground).bg(theme.background)
        };
        let line = Line::from_span(Span::styled(text, style));
        let ghost before = lines@;
        lines.push(line);
        assert(lines_view(lines@) =~= lines_view(before).push(line@));
        assert(target.take(i + 1) =~= target.take(i as int).push(target[i as int]));
        i = i + 1;
    }
    assert(target.take(i as int) =~= target);
    lines
}

} // verus!
