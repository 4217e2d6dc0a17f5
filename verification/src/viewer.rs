//! The viewer's state: the document, scrolling, the theme, the theme menu
//! and the status line, and what each key does to them.

use vstd::prelude::*;
use vstd::arithmetic::div_mod::{lemma_add_mod_noop, lemma_small_mod, lemma_mod_bound};
use std::path::PathBuf;
use crate::document::Document;
use crate::config::{Theme, ThemeLoadOutcome};
use crate::text::{push_str, chars_of, chars_equal};

verus! {

#[verifier::external_type_specification]
#[verifier::external_body]
pub struct ExPathBuf(std::path::PathBuf);

/// The theme menu: the themes found and the one selected.
#[derive(Debug)]
pub struct ThemeMenu {
    pub names: Vec<String>,
    pub selected: usize,
}

/// A menu lists at least one theme and selects one of them.
pub open spec fn menu_ok(menu: Option<ThemeMenu>) -> bool {
    match menu {
        Some(m) => 0 < m.names@.len() <= isize::MAX && m.selected < m.names@.len(),
        None => true,
    }
}

/// The state of the viewer.
pub struct App {
    pub document: Document,
    pub scroll: u16,
    pub theme: Theme,
    pub themes_dir: PathBuf,
    pub status: Option<String>,
    pub menu: Option<ThemeMenu>,
    pub src_file: String,
}

/// `s + delta`, held between 0 and `u16::MAX`.
pub open spec fn scrolled(s: u16, delta: int) -> u16 {
    if s + delta < 0 {
        0
    } else if s + delta > u16::MAX {
        u16::MAX
    } else {
        (s + delta) as u16
    }
}

/// The selection moved by `delta`, wrapping around `len` entries.
pub open spec fn moved(selected: int, delta: int, len: int) -> int {
    (selected + delta) % len
}

/// The index of the first name equal to `name`, or 0 where none is.
pub open spec fn position_of(names: Seq<Seq<char>>, name: Seq<char>) -> int {
    if exists|i: int| 0 <= i < names.len() && names[i] == name {
        choose|i: int| 0 <= i < names.len() && names[i] == name && forall|j: int| 0 <= j < i ==> names[j] != name
    } else {
        0
    }
}

pub open spec fn names_view(s: Seq<String>) -> Seq<Seq<char>> {
    s.map_values(|n: String| n@)
}

/// The document, the themes directory and the file name are kept.
pub open spec fn same_content(a: App, b: App) -> bool {
    &&& a.document == b.document
    &&& a.themes_dir == b.themes_dir
    &&& a.src_file == b.src_file
}

/// A key as the viewer tells keys apart.
#[derive(Debug, Clone, Copy)]
pub enum Key {
    Up,
    Down,
    PageUp,
    PageDown,
    Enter,
    Esc,
    Char(char),
    Other,
}

/// What the surrounding loop has to do after a key.
#[derive(Debug, Clone, Copy, PartialEq, Eq)]
pub enum Action {
    /// Nothing more; draw and wait for the next key.
    Continue,
    /// Leave the viewer.
    Quit,
    /// List the themes and hand the list to `open_theme_menu`.
    OpenThemeMenu,
    /// Call `apply_selected_theme`, load the theme it names and hand the
    /// result to `theme_loaded`.
    ApplySelectedTheme,
}

/// The key moves down (arrow or `j`).
pub open spec fn is_down(k: Key) -> bool {
    k is Down || k == Key::Char('j')
}

/// The key moves up (arrow or `k`).
pub open spec fn is_up(k: Key) -> bool {
    k is Up || k == Key::Char('k')
}

/// The key leaves (`q` or escape).
pub open spec fn is_quit(k: Key) -> bool {
    k is Esc || k == Key::Char('q')
}

fn key_is_down(k: Key) -> (r: bool)
    ensures
        r == is_down(k),
{
    match k {
        Key::Down => true,
        Key::Char(c) => c == 'j',
        _ => false,
    }
}

fn key_is_up(k: Key) -> (r: bool)
    ensures
        r == is_up(k),
{
    match k {
        Key::Up => true,
        Key::Char(c) => c == 'k',
        _ => false,
    }
}

fn key_is_quit(k: Key) -> (r: bool)
    ensures
        r == is_quit(k),
{
    match k {
        Key::Esc => true,
        Key::Char(c) => c == 'q',
        _ => false,
    }
}

impl App {
    /// The viewer for a document, with the theme and status that start-up
    /// settled on, scrolled to the top and without a menu.
    pub fn new(document: Document, themes_dir: PathBuf, src_file: String, outcome: ThemeLoadOutcome) -> (a: App)
        ensures
            a.document == document,
            a.scroll == 0,
            a.theme == outcome.theme,
            a.themes_dir == themes_dir,
            a.status == Some(outcome.status),
            a.menu is None,
            a.src_file == src_file,
    {
        App {
            document,
            scroll: 0,
            theme: outcome.theme,
            themes_dir,
            status: Some(outcome.status),
            menu: None,
            src_file,
        }
    }

    /// Whether the menu, where one is open, lists themes and selects one
    /// of them.
    pub fn menu_is_valid(&self) -> (r: bool)
        ensures
            r == menu_ok(self.menu),
    {
        match &self.menu {
            Some(m) => m.names.len() > 0 && m.names.len() <= isize::MAX as usize && m.selected < m.names.len(),
            None => true,
        }
    }

    /// Scrolls one line down, stopping at the largest offset.
    pub fn scroll_down(&mut self)
        ensures
            same_content(*final(self), *old(self)),
            final(self).scroll == scrolled(old(self).scroll, 1),
            final(self).menu == old(self).menu,
            final(self).status == old(self).status,
            final(self).theme == old(self).theme,
    {
        self.scroll = self.scroll.saturating_add(1);
    }

    /// Scrolls one line up, stopping at the top.
    pub fn scroll_up(&mut self)
        ensures
            same_content(*final(self), *old(self)),
            final(self).scroll == scrolled(old(self).scroll, -1),
            final(self).menu == old(self).menu,
            final(self).status == old(self).status,
            final(self).theme == old(self).theme,
    {
        self.scroll = self.scroll.saturating_sub(1);
    }

    /// Scrolls a page (ten lines) down.
    pub fn page_down(&mut self)
        ensures
            same_content(*final(self), *old(self)),
            final(self).scroll == scrolled(old(self).scroll, 10),
            final(self).menu == old(self).menu,
            final(self).status == old(self).status,
            final(self).theme == old(self).theme,
    {
        self.scroll = self.scroll.saturating_add(10);
    }

    /// Scrolls a page (ten lines) up.
    pub fn page_up(&mut self)
        ensures
            same_content(*final(self), *old(self)),
            final(self).scroll == scrolled(old(self).scroll, -10),
            final(self).menu == old(self).menu,
            final(self).status == old(self).status,
            final(self).theme == old(self).theme,
    {
        self.scroll = self.scroll.saturating_sub(10);
    }

    /// Opens the theme menu on the themes found (`Ok`), selecting the
    /// current theme where it is among them; where none was found, or the
    /// listing failed, says so in the status line instead.
    pub fn open_theme_menu(&mut self, listing: Result<Vec<String>, String>, dir_display: &str)
        requires
            listing matches Ok(names) ==> names@.len() <= isize::MAX,
            menu_ok(old(self).menu),
        ensures
            same_content(*final(self), *old(self)),
            menu_ok(final(self).menu),
            final(self).scroll == old(self).scroll,
            final(self).theme == old(self).theme,
            match listing {
                Ok(names) => if names@.len() > 0 {
                    &&& final(self).menu matches Some(m)
                    &&& m.names == names
                    &&& m.selected == position_of(names_view(names@), old(self).theme.name@)
                    &&& final(self).status == old(self).status
                } else {
                    &&& final(self).menu == old(self).menu
                    &&& final(self).status matches Some(s)
                    &&& s@ == "No themes found in "@ + dir_display@
                },
                Err(e) => {
                    &&& final(self).menu == old(self).menu
                    &&& final(self).status matches Some(s)
                    &&& s@ == "Failed to list themes: "@ + e@
                },
            },
    {
        match listing {
            Ok(names) => {
                if names.len() > 0 {
                    let ghost nv = names_view(names@);
                    let current = chars_of(self.theme.name.as_str());
                    let mut selected: usize = 0;
                    let mut found = false;
                    let mut i: usize = 0;
                    while i < names.len()
                        invariant
                            i <= names.len(),
                            nv == names_view(names@),
                            current@ == self.theme.name@,
                            !found ==> selected == 0 && forall|j: int| 0 <= j < i ==> nv[j] != current@,
                            found ==> selected < i && nv[selected as int] == current@
                                && forall|j: int| 0 <= j < selected ==> nv[j] != current@,
                        decreases names.len() - i,
                    {
                        if !found {
                            let n = chars_of(names[i].as_str());
                            if chars_equal(n.as_slice(), current.as_slice()) {
                                selected = i;
                                found = true;
                            }
                        }
                        i = i + 1;
                    }
                    proof {
                        if found {
                            assert(exists|k: int| 0 <= k < nv.len() && nv[k] == current@);
                            let c = choose|k: int| 0 <= k < nv.len() && nv[k] == current@ && forall|j: int| 0 <= j < k ==> nv[j] != current@;
                            assert(0 <= selected < nv.len() && nv[selected as int] == current@ && forall|j: int| 0 <= j < selected ==> nv[j] != current@);
                            if c < selected {
                                assert(nv[c] != current@);
                            } else if c > selected {
                                assert(nv[selected as int] != current@);
                            }
                        } else {
                            assert(!exists|k: int| 0 <= k < nv.len() && nv[k] == current@);
                        }
                    }
                    assert(selected < names@.len());
                    self.menu = Some(ThemeMenu { names, selected });
                } else {
                    let mut s = "No themes found in ".to_owned();
                    push_str(&mut s, dir_display);
                    self.status = Some(s);
                }
            },
            Err(e) => {
                let mut s = "Failed to list themes: ".to_owned();
                push_str(&mut s, e.as_str());
                self.status = Some(s);
            },
        }
    }

    /// Closes the theme menu.
    pub fn close_theme_menu(&mut self)
        ensures
            same_content(*final(self), *old(self)),
            final(self).menu is None,
            final(self).scroll == old(self).scroll,
            final(self).status == old(self).status,
            final(self).theme == old(self).theme,
    {
        self.menu = None;
    }

    /// Moves the menu's selection by `delta`, wrapping around at both ends.
    pub fn menu_move(&mut self, delta: isize)
        requires
            menu_ok(old(self).menu),
            old(self).menu matches Some(m) ==> isize::MIN <= m.selected + delta <= isize::MAX,
        ensures
            same_content(*final(self), *old(self)),
            menu_ok(final(self).menu),
            match old(self).menu {
                Some(m) => {
                    &&& final(self).menu matches Some(n)
                    &&& n.names == m.names
                    &&& n.selected == moved(m.selected as int, delta as int, m.names@.len() as int)
                },
                None => final(self).menu is None,
            },
            final(self).scroll == old(self).scroll,
            final(self).status == old(self).status,
            final(self).theme == old(self).theme,
    {
        match self.menu.take() {
            Some(menu) => {
                let len = menu.names.len() as isize;
                let next = (menu.selected as isize + delta).checked_rem_euclid(len);
                let next = match next {
                    Some(n) => n,
                    None => 0,
                };
                self.menu = Some(ThemeMenu { names: menu.names, selected: next as usize });
            },
            None => {},
        }
    }

    /// Closes the menu and gives the name of the theme it had selected.
    pub fn apply_selected_theme(&mut self) -> (name: Option<String>)
        requires
            menu_ok(old(self).menu),
        ensures
            same_content(*final(self), *old(self)),
            final(self).menu is None,
            final(self).scroll == old(self).scroll,
            final(self).status == old(self).status,
            final(self).theme == old(self).theme,
            match old(self).menu {
                Some(m) => name == Some(m.names@[m.selected as int]),
                None => name is None,
            },
    {
        match self.menu.take() {
            Some(mut menu) => {
                let name = menu.names.swap_remove(menu.selected);
                Some(name)
            },
            None => None,
        }
    }

    /// Takes the result of loading theme `name`: a loaded theme is used
    /// and announced (the caller then saves it as the remembered theme,
    /// which the result `true` asks for); a failure is reported.
    pub fn theme_loaded(&mut self, name: &str, loaded: Result<Theme, String>) -> (save: bool)
        ensures
            same_content(*final(self), *old(self)),
            save == loaded is Ok,
            final(self).menu == old(self).menu,
            final(self).scroll == old(self).scroll,
            match loaded {
                Ok(t) => {
                    &&& final(self).theme == t
                    &&& final(self).status matches Some(s)
                    &&& s@ == "Loaded theme '"@ + name@ + "'"@
                },
                Err(e) => {
                    &&& final(self).theme == old(self).theme
                    &&& final(self).status matches Some(s)
                    &&& s@ == "Failed to load '"@ + name@ + "': "@ + e@
                },
            },
    {
        match loaded {
            Ok(theme) => {
                self.theme = theme;
                let mut s = "Loaded theme '".to_owned();
                push_str(&mut s, name);
                push_str(&mut s, "'");
                self.status = Some(s);
                true
            },
            Err(e) => {
                let mut s = "Failed to load '".to_owned();
                push_str(&mut s, name);
                push_str(&mut s, "': ");
                push_str(&mut s, e.as_str());
                self.status = Some(s);
                false
            },
        }
    }

    /// Reports that theme `name` was loaded but could not be remembered.
    pub fn preference_not_saved(&mut self, name: &str, error: &str)
        ensures
            same_content(*final(self), *old(self)),
            final(self).menu == old(self).menu,
            final(self).scroll == old(self).scroll,
            final(self).theme == old(self).theme,
            final(self).status matches Some(s) ==> s@ == "Loaded '"@ + name@ + "' but failed to save preference: "@ + error@,
            final(self).status is Some,
    {
        let mut s = "Loaded '".to_owned();
        push_str(&mut s, name);
        push_str(&mut s, "' but failed to save preference: ");
        push_str(&mut s, error);
        self.status = Some(s);
    }

    /// What a key does.  With the menu open: down and up move the
    /// selection, enter applies it, `q` and escape close the menu.  Without
    /// it: `q` and escape leave, down and up scroll a line, page keys ten
    /// lines, `t` opens the theme menu.  Other keys do nothing.
    pub fn handle_key(&mut self, key: Key) -> (action: Action)
        requires
            menu_ok(old(self).menu),
        ensures
            same_content(*final(self), *old(self)),
            menu_ok(final(self).menu),
            final(self).theme == old(self).theme,
            final(self).status == old(self).status,
            match old(self).menu {
                Some(m) => {
                    &&& final(self).scroll == old(self).scroll
                    &&& if is_down(key) {
                        &&& action == Action::Continue
                        &&& final(self).menu matches Some(n)
                        &&& n.names == m.names
                        &&& n.selected == moved(m.selected as int, 1, m.names@.len() as int)
                    } else if is_up(key) {
                        &&& action == Action::Continue
                        &&& final(self).menu matches Some(n)
                        &&& n.names == m.names
                        &&& n.selected == moved(m.selected as int, -1, m.names@.len() as int)
                    } else if key is Enter {
                        action == Action::ApplySelectedTheme && final(self).menu == old(self).menu
                    } else if is_quit(key) {
                        action == Action::Continue && final(self).menu is None
                    } else {
                        action == Action::Continue && final(self).menu == old(self).menu
                    }
                },
                None => {
                    &&& final(self).menu is None
                    &&& if is_quit(key) {
                        action == Action::Quit && final(self).scroll == old(self).scroll
                    } else if is_down(key) {
                        action == Action::Continue && final(self).scroll == scrolled(old(self).scroll, 1)
                    } else if is_up(key) {
                        action == Action::Continue && final(self).scroll == scrolled(old(self).scroll, -1)
                    } else if key is PageDown {
                        action == Action::Continue && final(self).scroll == scrolled(old(self).scroll, 10)
                    } else if key is PageUp {
                        action == Action::Continue && final(self).scroll == scrolled(old(self).scroll, -10)
                    } else if key == Key::Char('t') {
                        action == Action::OpenThemeMenu && final(self).scroll == old(self).scroll
                    } else {
                        action == Action::Continue && final(self).scroll == old(self).scroll
                    }
                },
            },
    {
        if self.menu.is_some() {
            if key_is_down(key) {
                self.menu_move(1);
                Action::Continue
            } else if key_is_up(key) {
                self.menu_move(-1);
                Action::Continue
            } else if let Key::Enter = key {
                Action::ApplySelectedTheme
            } else if key_is_quit(key) {
                self.close_theme_menu();
                Action::Continue
            } else {
                Action::Continue
            }
        } else {
            if key_is_quit(key) {
                Action::Quit
            } else if key_is_down(key) {
                self.scroll_down();
                Action::Continue
            } else if key_is_up(key) {
                self.scroll_up();
                Action::Continue
            } else if let Key::PageDown = key {
                self.page_down();
                Action::Continue
            } else if let Key::PageUp = key {
                self.page_up();
                Action::Continue
            } else if let Key::Char('t') = key {
                Action::OpenThemeMenu
            } else {
                Action::Continue
            }
        }
    }
}

/// Scrolling down a line and then up a line comes back to where it
/// started, except at the largest offset; likewise up then down, except at
/// the top.
pub proof fn law_scroll_round_trip(s: u16)
    ensures
        s < u16::MAX ==> scrolled(scrolled(s, 1), -1) == s,
        s > 0 ==> scrolled(scrolled(s, -1), 1) == s,
{
}

/// Moving the menu's selection keeps it among the entries, and moving it
/// back by the same amount restores it.
pub proof fn law_menu_move_round_trip(selected: int, delta: int, len: int)
    requires
        0 <= selected < len,
    ensures
        0 <= moved(selected, delta, len) < len,
        moved(moved(selected, delta, len), -delta, len) == selected,
{
    lemma_mod_bound(selected + delta, len);
    lemma_add_mod_noop(selected + delta, -delta, len);
    lemma_add_mod_noop(moved(selected, delta, len), -delta, len);
    assert(((selected + delta) % len) % len == (selected + delta) % len) by {
        lemma_small_mod(((selected + delta) % len) as nat, len as nat);
    }
    lemma_small_mod(selected as nat, len as nat);
}

} // verus!
