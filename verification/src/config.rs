//! Themes: their colours, the built-in fallback, reading a theme's
//! configuration, and the choices made when themes are loaded.

use vstd::prelude::*;
use vstd::utf8::encode_utf8;
use crate::style::Color;
use crate::text::{lemma_trim_ws_idempotent, trim_ws, strip_all_hashes, str_trim, trim_hashes_start, push_str, chars_of, string_from_chars};
use crate::docx::{hex_triplet, hex_triplet_sliceable, hex_triplet_checked};

verus! {

/// A colour theme for the viewer.
#[derive(Debug)]
pub struct Theme {
    pub name: String,
    pub background: Color,
    pub foreground: Color,
    pub heading: Color,
    pub bold: Color,
    pub table_border: Color,
    pub table_header: Color,
    pub table_padding: usize,
}

/// The name of the built-in theme.
pub open spec fn default_theme_name() -> Seq<char> {
    seq!['p', 'a', 'p', 'e', 'r']
}

/// The built-in "paper" theme.
pub open spec fn is_fallback_theme(t: Theme) -> bool {
    &&& t.name@ == default_theme_name()
    &&& t.background == Color::Rgb(0xF4, 0xF1, 0xEA)
    &&& t.foreground == Color::Rgb(0x24, 0x24, 0x24)
    &&& t.heading == Color::Rgb(0x20, 0x20, 0x20)
    &&& t.bold == Color::Rgb(0x20, 0x20, 0x20)
    &&& t.table_border == Color::Rgb(0x77, 0x73, 0x6B)
    &&& t.table_header == Color::Rgb(0xE6, 0xE0, 0xD4)
    &&& t.table_padding == 4
}

/// The built-in "paper" theme, used when no theme file can be loaded.
pub fn fallback_theme() -> (t: Theme)
    ensures
        is_fallback_theme(t),
{
    let name = crate::text::string_from_chars(&['p', 'a', 'p', 'e', 'r']);
    proof {
        assert(name@ =~= default_theme_name());
    }
    Theme {
        name,
        background: Color::Rgb(0xF4, 0xF1, 0xEA),
        foreground: Color::Rgb(0x24, 0x24, 0x24),
        heading: Color::Rgb(0x20, 0x20, 0x20),
        bold: Color::Rgb(0x20, 0x20, 0x20),
        table_border: Color::Rgb(0x77, 0x73, 0x6B),
        table_header: Color::Rgb(0xE6, 0xE0, 0xD4),
        table_padding: 4,
    }
}

/// A theme as its configuration file writes it: colours as `#RRGGBB`.
#[derive(Debug)]
pub struct ThemeConfig {
    pub name: String,
    pub background: String,
    pub foreground: String,
    pub heading: String,
    pub bold: String,
    pub table_border: String,
    pub table_header: String,
    pub table_padding: usize,
}

/// Why a colour value was refused.
#[derive(Debug)]
pub enum ColorError {
    /// Not six bytes once trimmed and stripped of leading `#`; holds what
    /// was left.
    WrongLength(String),
    /// A byte pair is not a hexadecimal number.
    InvalidDigit,
}

pub enum ColorErrorView {
    WrongLength(Seq<char>),
    InvalidDigit,
}

impl View for ColorError {
    type V = ColorErrorView;

    open spec fn view(&self) -> ColorErrorView {
        match self {
            ColorError::WrongLength(v) => ColorErrorView::WrongLength(v@),
            ColorError::InvalidDigit => ColorErrorView::InvalidDigit,
        }
    }
}

/// The message shown for a refused colour.
pub open spec fn color_error_message(e: ColorErrorView) -> Seq<char> {
    match e {
        ColorErrorView::WrongLength(v) => "invalid color '"@ + v + "': expected #RRGGBB"@,
        ColorErrorView::InvalidDigit => "invalid digit found in string"@,
    }
}

impl ColorError {
    /// The message shown for this error.
    pub fn message(&self) -> (s: String)
        ensures
            s@ == color_error_message(self@),
    {
        match self {
            ColorError::WrongLength(v) => {
                let mut s = "invalid color '".to_owned();
                push_str(&mut s, v.as_str());
                push_str(&mut s, "': expected #RRGGBB");
                s
            },
            ColorError::InvalidDigit => "invalid digit found in string".to_owned(),
        }
    }
}

/// The hexadecimal part of a colour value: trimmed, without its leading
/// `#` characters.
pub open spec fn color_hex(value: Seq<char>) -> Seq<char> {
    strip_all_hashes(trim_ws(value))
}

/// Parsing the value does not slice inside a character.
pub open spec fn hex_color_sliceable(value: Seq<char>) -> bool {
    hex_triplet_sliceable(encode_utf8(color_hex(value)))
}

/// The colour a `#RRGGBB` value names: a wrong length (in bytes) or a
/// pair that is not hexadecimal is refused.
pub open spec fn hex_color(value: Seq<char>) -> Result<Color, ColorErrorView> {
    let h = color_hex(value);
    let b = encode_utf8(h);
    if b.len() != 6 {
        Err(ColorErrorView::WrongLength(h))
    } else {
        match hex_triplet(b) {
            Some(c) => Ok(c),
            None => Err(ColorErrorView::InvalidDigit),
        }
    }
}

/// Parses a `#RRGGBB` colour (surrounding white space and any number of
/// leading `#` allowed).
pub fn parse_hex_color(value: &str) -> (r: Result<Color, ColorError>)
    requires
        hex_color_sliceable(value@),
    ensures
        match r {
            Ok(c) => hex_color(value@) == Ok::<Color, ColorErrorView>(c),
            Err(e) => hex_color(value@) == Err::<Color, ColorErrorView>(e@),
        },
{
    match parse_hex_color_checked(value) {
        Some(r) => r,
        None => Err(ColorError::InvalidDigit),
    }
}

/// Parsing the configuration's colours in field order does not slice
/// inside a character: each colour that is reached is sliceable, and
/// parsing stops at the first error.
pub open spec fn config_sliceable(c: ThemeConfig) -> bool {
    hex_color_sliceable(c.background@) && (hex_color(c.background@) is Ok ==>
    hex_color_sliceable(c.foreground@) && (hex_color(c.foreground@) is Ok ==>
    hex_color_sliceable(c.heading@) && (hex_color(c.heading@) is Ok ==>
    hex_color_sliceable(c.bold@) && (hex_color(c.bold@) is Ok ==>
    hex_color_sliceable(c.table_border@) && (hex_color(c.table_border@) is Ok ==>
    hex_color_sliceable(c.table_header@))))))
}

/// Parses a colour, or tells that parsing it would slice inside a
/// character (`None`).
pub fn parse_hex_color_checked(value: &str) -> (r: Option<Result<Color, ColorError>>)
    ensures
        r is None <==> !hex_color_sliceable(value@),
        r matches Some(res) ==> match res {
            Ok(c) => hex_color(value@) == Ok::<Color, ColorErrorView>(c),
            Err(e) => hex_color(value@) == Err::<Color, ColorErrorView>(e@),
        },
{
    let t = str_trim(value);
    let h = trim_hashes_start(t);
    if h.as_bytes().len() != 6 {
        return Some(Err(ColorError::WrongLength(h.to_owned())));
    }
    match hex_triplet_checked(h) {
        Some(Some(c)) => Some(Ok(c)),
        Some(None) => Some(Err(ColorError::InvalidDigit)),
        None => None,
    }
}

/// The theme a configuration describes, or the error of its first colour
/// (in field order) that does not parse.
pub open spec fn config_theme(c: ThemeConfig) -> Result<Theme, ColorErrorView> {
    match (hex_color(c.background@), hex_color(c.foreground@), hex_color(c.heading@), hex_color(c.bold@),
        hex_color(c.table_border@), hex_color(c.table_header@)) {
        (Err(e), _, _, _, _, _) => Err(e),
        (Ok(_), Err(e), _, _, _, _) => Err(e),
        (Ok(_), Ok(_), Err(e), _, _, _) => Err(e),
        (Ok(_), Ok(_), Ok(_), Err(e), _, _) => Err(e),
        (Ok(_), Ok(_), Ok(_), Ok(_), Err(e), _) => Err(e),
        (Ok(_), Ok(_), Ok(_), Ok(_), Ok(_), Err(e)) => Err(e),
        (Ok(background), Ok(foreground), Ok(heading), Ok(bold), Ok(table_border), Ok(table_header)) => Ok(Theme {
            name: c.name,
            background,
            foreground,
            heading,
            bold,
            table_border,
            table_header,
            table_padding: c.table_padding,
        }),
    }
}

/// The theme a configuration describes.
pub fn theme_config_to_theme(config: ThemeConfig) -> (r: Result<Theme, ColorError>)
    requires
        config_sliceable(config),
    ensures
        match (r, config_theme(config)) {
            (Ok(t), Ok(u)) => t.name@ == u.name@ && t.background == u.background && t.foreground == u.foreground
                && t.heading == u.heading && t.bold == u.bold && t.table_border == u.table_border
                && t.table_header == u.table_header && t.table_padding == u.table_padding,
            (Err(e), Err(f)) => e@ == f,
            _ => false,
        },
{
    match theme_config_to_theme_checked(config) {
        Some(r) => r,
        None => Err(ColorError::InvalidDigit),
    }
}

/// The theme a configuration describes, or `None` where parsing its
/// colours in field order would slice inside a character.
pub fn theme_config_to_theme_checked(config: ThemeConfig) -> (r: Option<Result<Theme, ColorError>>)
    ensures
        r is None <==> !config_sliceable(config),
        r matches Some(res) ==> match (res, config_theme(config)) {
            (Ok(t), Ok(u)) => t.name@ == u.name@ && t.background == u.background && t.foreground == u.foreground
                && t.heading == u.heading && t.bold == u.bold && t.table_border == u.table_border
                && t.table_header == u.table_header && t.table_padding == u.table_padding,
            (Err(e), Err(f)) => e@ == f,
            _ => false,
        },
{
    let background = match parse_hex_color_checked(config.background.as_str()) {
        Some(Ok(c)) => c,
        Some(Err(e)) => return Some(Err(e)),
        None => return None,
    };
    let foreground = match parse_hex_color_checked(config.foreground.as_str()) {
        Some(Ok(c)) => c,
        Some(Err(e)) => return Some(Err(e)),
        None => return None,
    };
    let heading = match parse_hex_color_checked(config.heading.as_str()) {
        Some(Ok(c)) => c,
        Some(Err(e)) => return Some(Err(e)),
        None => return None,
    };
    let bold = match parse_hex_color_checked(config.bold.as_str()) {
        Some(Ok(c)) => c,
        Some(Err(e)) => return Some(Err(e)),
        None => return None,
    };
    let table_border = match parse_hex_color_checked(config.table_border.as_str()) {
        Some(Ok(c)) => c,
        Some(Err(e)) => return Some(Err(e)),
        None => return None,
    };
    let table_header = match parse_hex_color_checked(config.table_header.as_str()) {
        Some(Ok(c)) => c,
        Some(Err(e)) => return Some(Err(e)),
        None => return None,
    };
    Some(Ok(Theme {
        name: config.name,
        background,
        foreground,
        heading,
        bold,
        table_border,
        table_header,
        table_padding: config.table_padding,
    }))
}

/// The name of the theme used when none has been chosen.
pub const DEFAULT_THEME_NAME: &'static str = "paper";

/// The theme remembered in the state file's contents: the trimmed
/// contents, or none where that is empty.
pub open spec fn remembered_theme(contents: Seq<char>) -> Option<Seq<char>> {
    if trim_ws(contents).len() == 0 {
        None
    } else {
        Some(trim_ws(contents))
    }
}

/// A remembered name, written back as the state file's whole contents, is
/// remembered unchanged: saving the theme that was loaded keeps it.
pub proof fn law_remembered_theme_is_stable(contents: Seq<char>)
    ensures
        remembered_theme(contents) matches Some(n) ==> remembered_theme(n) == Some(n),
{
    lemma_trim_ws_idempotent(contents);
}

/// The theme name the state file's contents remember, if any.
pub fn last_theme_name_from_contents(contents: &str) -> (r: Option<String>)
    ensures
        match r {
            Some(n) => remembered_theme(contents@) == Some(n@),
            None => remembered_theme(contents@) is None,
        },
{
    let name = str_trim(contents);
    let chars = chars_of(name);
    if chars.len() == 0 {
        None
    } else {
        Some(name.to_owned())
    }
}

/// The theme to try at start-up: the remembered one, else the default.
pub fn startup_theme_name(last: Option<String>) -> (r: String)
    ensures
        r@ == match last {
            Some(n) => n@,
            None => default_theme_name(),
        },
{
    match last {
        Some(n) => n,
        None => {
            proof { reveal_strlit("paper"); }
            DEFAULT_THEME_NAME.to_owned()
        },
    }
}

/// The theme chosen at start-up, and the status line that explains it
/// (empty where all went well).
#[derive(Debug)]
pub struct ThemeLoadOutcome {
    pub theme: Theme,
    pub status: String,
}

/// The outcome where the themes directory could not be set up.
pub fn setup_failed_outcome(error: &str) -> (r: ThemeLoadOutcome)
    ensures
        is_fallback_theme(r.theme),
        r.status@ == "Failed to set up themes directory ("@ + error@ + "); using built-in paper theme"@,
{
    let mut status = "Failed to set up themes directory (".to_owned();
    push_str(&mut status, error);
    push_str(&mut status, "); using built-in paper theme");
    ThemeLoadOutcome { theme: fallback_theme(), status }
}

/// What start-up does after trying the first theme.
#[derive(Debug)]
pub enum StartupStep {
    /// The theme and status are settled.
    Done(ThemeLoadOutcome),
    /// The first theme failed with this error; the default theme is tried
    /// next.
    TryDefault(String),
}

/// Decides after trying `name_to_try`: a loaded theme is used with an
/// empty status; a failed default theme gives the built-in one; any other
/// failure asks for the default theme to be tried.
pub fn after_first_load(name_to_try: &str, loaded: Result<Theme, String>) -> (r: StartupStep)
    ensures
        loaded is Ok ==> r is Done && r->Done_0.theme == loaded->Ok_0 && r->Done_0.status@ == Seq::<char>::empty(),
        loaded is Err && name_to_try@ == default_theme_name() ==> r is Done && is_fallback_theme(r->Done_0.theme)
            && r->Done_0.status@ == "Failed to load default theme 'paper' ("@ + loaded->Err_0@ + "); using built-in defaults"@,
        loaded is Err && name_to_try@ != default_theme_name() ==> r is TryDefault && r->TryDefault_0@ == loaded->Err_0@,
{
    match loaded {
        Ok(theme) => {
            let empty: [char; 0] = [];
            let status = string_from_chars(&empty);
            assert(status@ =~= Seq::<char>::empty());
            StartupStep::Done(ThemeLoadOutcome { theme, status })
        },
        Err(e) => {
            let name = chars_of(name_to_try);
            let default = chars_of(DEFAULT_THEME_NAME);
            proof { reveal_strlit("paper"); }
            assert(default@ =~= default_theme_name());
            if crate::text::chars_equal(name.as_slice(), default.as_slice()) {
                let mut status = "Failed to load default theme 'paper' (".to_owned();
                push_str(&mut status, e.as_str());
                push_str(&mut status, "); using built-in defaults");
                StartupStep::Done(ThemeLoadOutcome { theme: fallback_theme(), status })
            } else {
                StartupStep::TryDefault(e)
            }
        },
    }
}

/// Decides after trying the default theme once `name_to_try` failed with
/// `first_error`.
pub fn after_default_load(name_to_try: &str, first_error: &str, loaded: Result<Theme, String>) -> (r: ThemeLoadOutcome)
    ensures
        match loaded {
            Ok(t) => r.theme == t
                && r.status@ == "Failed to load theme '"@ + name_to_try@ + "' ("@ + first_error@ + "); loaded 'paper' instead"@,
            Err(_) => is_fallback_theme(r.theme)
                && r.status@ == "Failed to load '"@ + name_to_try@ + "' and 'paper' ("@ + first_error@ + "); using built-in defaults"@,
        },
{
    match loaded {
        Ok(theme) => {
            let mut status = "Failed to load theme '".to_owned();
            push_str(&mut status, name_to_try);
            push_str(&mut status, "' (");
            push_str(&mut status, first_error);
            push_str(&mut status, "); loaded 'paper' instead");
            ThemeLoadOutcome { theme, status }
        },
        Err(_) => {
            let mut status = "Failed to load '".to_owned();
            push_str(&mut status, name_to_try);
            push_str(&mut status, "' and 'paper' (");
            push_str(&mut status, first_error);
            push_str(&mut status, "); using built-in defaults");
            ThemeLoadOutcome { theme: fallback_theme(), status }
        },
    }
}

/// The file name of a theme: its name and `.toml`.
pub fn theme_file_name(name: &str) -> (r: String)
    ensures
        r@ == name@ + ".toml"@,
{
    let mut r = name.to_owned();
    push_str(&mut r, ".toml");
    r
}

/// Texts in the order of their characters' code points, a prefix first
/// (the order in which Rust sorts strings).
pub open spec fn text_le(a: Seq<char>, b: Seq<char>) -> bool
    decreases a.len(),
{
    if a.len() == 0 {
        true
    } else if b.len() == 0 {
        false
    } else if a[0] != b[0] {
        a[0] < b[0]
    } else {
        text_le(a.drop_first(), b.drop_first())
    }
}

/// Of two texts one comes first.
pub proof fn lemma_text_le_total(a: Seq<char>, b: Seq<char>)
    ensures
        text_le(a, b) || text_le(b, a),
    decreases a.len(),
{
    if a.len() > 0 && b.len() > 0 {
        if a[0] == b[0] {
            lemma_text_le_total(a.drop_first(), b.drop_first());
        } else {

        }
    }
}

/// The order of texts is transitive.
pub proof fn lemma_text_le_trans(a: Seq<char>, b: Seq<char>, c: Seq<char>)
    requires
        text_le(a, b),
        text_le(b, c),
    ensures
        text_le(a, c),
    decreases a.len(),
{
    if a.len() > 0 && b.len() > 0 && c.len() > 0 && a[0] == b[0] && b[0] == c[0] {
        lemma_text_le_trans(a.drop_first(), b.drop_first(), c.drop_first());
    }
}

/// Texts in order.
pub open spec fn sorted_texts(s: Seq<Seq<char>>) -> bool {
    forall|i: int, j: int| 0 <= i < j < s.len() ==> text_le(#[trigger] s[i], #[trigger] s[j])
}

/// A directory entry as the theme list sees it: the extension and the
/// stem of its file name, where they are valid text.
pub type EntryName = (Option<String>, Option<String>);

pub open spec fn opt_text(o: Option<String>) -> Option<Seq<char>> {
    match o {
        Some(s) => Some(s@),
        None => None,
    }
}

pub open spec fn entry_names_view(s: Seq<EntryName>) -> Seq<(Option<Seq<char>>, Option<Seq<char>>)> {
    s.map_values(|e: EntryName| (opt_text(e.0), opt_text(e.1)))
}

/// The stems of the entries whose extension is `toml`, in order.
pub open spec fn toml_stems(entries: Seq<(Option<Seq<char>>, Option<Seq<char>>)>) -> Seq<Seq<char>>
    decreases entries.len(),
{
    if entries.len() == 0 {
        Seq::empty()
    } else {
        let rest = toml_stems(entries.drop_last());
        let e = entries.last();
        if e.0 == Some("toml"@) && e.1 is Some {
            rest.push(e.1->0)
        } else {
            rest
        }
    }
}

pub open spec fn texts_view(s: Seq<Vec<char>>) -> Seq<Seq<char>> {
    s.map_values(|v: Vec<char>| v@)
}

pub open spec fn strings_view(s: Seq<String>) -> Seq<Seq<char>> {
    s.map_values(|v: String| v@)
}

fn chars_le(a: &Vec<char>, b: &Vec<char>) -> (r: bool)
    ensures
        r == text_le(a@, b@),
{
    let mut i: usize = 0;
    assert(a@.skip(0) =~= a@);
    assert(b@.skip(0) =~= b@);
    while i < a.len() && i < b.len()
        invariant
            i <= a.len(),
            i <= b.len(),
            text_le(a@, b@) == text_le(a@.skip(i as int), b@.skip(i as int)),
        decreases a.len() - i,
    {
        assert(a@.skip(i as int)[0] == a@[i as int]);
        assert(b@.skip(i as int)[0] == b@[i as int]);
        if a[i] != b[i] {
            return a[i] < b[i];
        }
        assert(a@.skip(i as int).drop_first() =~= a@.skip(i + 1));
        assert(b@.skip(i as int).drop_first() =~= b@.skip(i + 1));
        i = i + 1;
    }
    i == a.len()
}

proof fn lemma_insert_sorted(s: Seq<Seq<char>>, p: int, x: Seq<char>)
    requires
        sorted_texts(s),
        0 <= p <= s.len(),
        forall|q: int| 0 <= q < p ==> text_le(#[trigger] s[q], x),
        p < s.len() ==> !text_le(s[p], x),
    ensures
        sorted_texts(s.insert(p, x)),
{
    let t = s.insert(p, x);
    if p < s.len() {
        lemma_text_le_total(s[p], x);
    }
    assert forall|i: int, j: int| 0 <= i < j < t.len() implies text_le(#[trigger] t[i], #[trigger] t[j]) by {
        if j < p {
            assert(t[i] == s[i] && t[j] == s[j]);
        } else if j == p {
            assert(t[i] == s[i]);
        } else if i == p {
            assert(t[j] == s[j - 1]);
            if j - 1 > p {
                assert(text_le(s[p], s[j - 1]));
                lemma_text_le_trans(x, s[p], s[j - 1]);
            }
        } else if i < p {
            assert(t[i] == s[i] && t[j] == s[j - 1]);
            if i < j - 1 {
                assert(text_le(s[i], s[j - 1]));
            }
        } else {
            assert(t[i] == s[i - 1] && t[j] == s[j - 1]);
        }
    }
}

/// The names of the themes among a directory's entries: the stems of the
/// files with the extension `toml`, sorted.
pub fn theme_names(entries: Vec<EntryName>) -> (r: Vec<String>)
    ensures
        sorted_texts(strings_view(r@)),
        strings_view(r@).to_multiset() == toml_stems(entry_names_view(entries@)).to_multiset(),
{
    let ghost ev = entry_names_view(entries@);
    let mut stems: Vec<Vec<char>> = Vec::new();
    let mut i: usize = 0;
    let toml = chars_of("toml");
    proof { reveal_strlit("toml"); }
    assert(ev.take(0) =~= Seq::<(Option<Seq<char>>, Option<Seq<char>>)>::empty());
    while i < entries.len()
        invariant
            i <= entries.len(),
            ev == entry_names_view(entries@),
            toml@ == "toml"@,
            texts_view(stems@) == toml_stems(ev.take(i as int)),
        decreases entries.len() - i,
    {
        assert(ev.take(i + 1).drop_last() =~= ev.take(i as int));
        assert(ev[i as int] == (opt_text(entries@[i as int].0), opt_text(entries@[i as int].1)));
        let is_toml = match &entries[i].0 {
            Some(ext) => {
                let e = chars_of(ext.as_str());
                crate::text::chars_equal(e.as_slice(), toml.as_slice())
            },
            None => false,
        };
        if is_toml {
            match &entries[i].1 {
                Some(stem) => {
                    let ghost before = stems@;
                    let c = chars_of(stem.as_str());
                    let ghost cv = c@;
                    stems.push(c);
                    assert(texts_view(stems@) =~= texts_view(before).push(cv));
                },
                None => {},
            }
        }
        i = i + 1;
    }
    assert(ev.take(i as int) =~= ev);
    let ghost all = texts_view(stems@);
    let mut out: Vec<Vec<char>> = Vec::new();
    let mut k: usize = 0;
    assert(all.take(0) =~= Seq::<Seq<char>>::empty());
    assert(texts_view(out@) =~= all.take(0));
    while k < stems.len()
        invariant
            k <= stems.len(),
            all == texts_view(stems@),
            sorted_texts(texts_view(out@)),
            texts_view(out@).to_multiset() == all.take(k as int).to_multiset(),
        decreases stems.len() - k,
    {
        let x = stems[k].clone();
        assert(x@ == all[k as int]);
        let mut p: usize = 0;
        loop
            invariant
                p <= out.len(),
                forall|q: int| 0 <= q < p ==> text_le(#[trigger] texts_view(out@)[q], x@),
            ensures
                p <= out.len(),
                forall|q: int| 0 <= q < p ==> text_le(#[trigger] texts_view(out@)[q], x@),
                p < out.len() ==> !text_le(texts_view(out@)[p as int], x@),
            decreases out.len() - p,
        {
            if p >= out.len() {
                break;
            }
            let le = chars_le(&out[p], &x);
            if !le {
                break;
            }
            p = p + 1;
        }
        let ghost before = texts_view(out@);
        proof { lemma_insert_sorted(before, p as int, x@); }
        let ghost xv = x@;
        out.insert(p, x);
        assert(texts_view(out@) =~= before.insert(p as int, xv));
        proof { vstd::seq_lib::to_multiset_insert(before, p as int, xv); }
        assert(all.take(k + 1) =~= all.take(k as int).push(all[k as int]));
        proof { vstd::seq_lib::to_multiset_build(all.take(k as int), all[k as int]); }
        k = k + 1;
    }
    assert(all.take(k as int) =~= all);
    let mut r: Vec<String> = Vec::new();
    let mut j: usize = 0;
    while j < out.len()
        invariant
            j <= out.len(),
            strings_view(r@) == texts_view(out@).take(j as int),
        decreases out.len() - j,
    {
        let ghost before = strings_view(r@);
        let s = string_from_chars(out[j].as_slice());
        let ghost sv = s@;
        assert(sv == texts_view(out@)[j as int]);
        r.push(s);
        assert(strings_view(r@) =~= before.push(sv));
        assert(texts_view(out@).take(j + 1) =~= texts_view(out@).take(j as int).push(texts_view(out@)[j as int]));
        assert(strings_view(r@) =~= texts_view(out@).take(j + 1));
        j = j + 1;
    }
    assert(texts_view(out@).take(j as int) =~= texts_view(out@));
    r
}

} // verus!
