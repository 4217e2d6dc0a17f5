//! Colours, text styles, spans and lines: the plain values that the
//! renderers produce and the terminal front end draws.

use vstd::prelude::*;

verus! {

/// A terminal colour.
#[derive(Clone, Copy, Debug, PartialEq, Eq, Structural)]
pub enum Color {
    Blue,
    Rgb(u8, u8, u8),
}

/// A set of text modifiers.
#[derive(Clone, Copy, Debug, PartialEq, Eq, Structural)]
pub struct Modifiers {
    pub bold: bool,
    pub italic: bool,
    pub underlined: bool,
    pub dim: bool,
}

/// The union of two modifier sets.
pub open spec fn modifiers_union(a: Modifiers, b: Modifiers) -> Modifiers {
    Modifiers {
        bold: a.bold || b.bold,
        italic: a.italic || b.italic,
        underlined: a.underlined || b.underlined,
        dim: a.dim || b.dim,
    }
}

/// The modifiers of `a` that are not in `b`.
pub open spec fn modifiers_difference(a: Modifiers, b: Modifiers) -> Modifiers {
    Modifiers {
        bold: a.bold && !b.bold,
        italic: a.italic && !b.italic,
        underlined: a.underlined && !b.underlined,
        dim: a.dim && !b.dim,
    }
}

pub open spec fn no_modifiers() -> Modifiers {
    Modifiers { bold: false, italic: false, underlined: false, dim: false }
}

impl Modifiers {
    pub fn empty() -> (m: Modifiers)
        ensures
            m == no_modifiers(),
    {
        Modifiers { bold: false, italic: false, underlined: false, dim: false }
    }

    pub fn bold() -> (m: Modifiers)
        ensures
            m == (Modifiers { bold: true, ..no_modifiers() }),
    {
        Modifiers { bold: true, italic: false, underlined: false, dim: false }
    }

    pub fn italic() -> (m: Modifiers)
        ensures
            m == (Modifiers { italic: true, ..no_modifiers() }),
    {
        Modifiers { bold: false, italic: true, underlined: false, dim: false }
    }

    pub fn underlined() -> (m: Modifiers)
        ensures
            m == (Modifiers { underlined: true, ..no_modifiers() }),
    {
        Modifiers { bold: false, italic: false, underlined: true, dim: false }
    }

    pub fn dim() -> (m: Modifiers)
        ensures
            m == (Modifiers { dim: true, ..no_modifiers() }),
    {
        Modifiers { bold: false, italic: false, underlined: false, dim: true }
    }

    pub fn union(self, other: Modifiers) -> (m: Modifiers)
        ensures
            m == modifiers_union(self, other),
    {
        Modifiers {
            bold: self.bold || other.bold,
            italic: self.italic || other.italic,
            underlined: self.underlined || other.underlined,
            dim: self.dim || other.dim,
        }
    }

    pub fn difference(self, other: Modifiers) -> (m: Modifiers)
        ensures
            m == modifiers_difference(self, other),
    {
        Modifiers {
            bold: self.bold && !other.bold,
            italic: self.italic && !other.italic,
            underlined: self.underlined && !other.underlined,
            dim: self.dim && !other.dim,
        }
    }
}

/// A text style: optional foreground and background colours, the
/// modifiers to switch on and the modifiers to switch off.
#[derive(Clone, Copy, Debug, PartialEq, Eq, Structural)]
pub struct Style {
    pub fg: Option<Color>,
    pub bg: Option<Color>,
    pub add_modifier: Modifiers,
    pub sub_modifier: Modifiers,
}

/// The style with no colours and no modifiers.
pub open spec fn plain_style() -> Style {
    Style { fg: None, bg: None, add_modifier: no_modifiers(), sub_modifier: no_modifiers() }
}

pub open spec fn style_with_fg(s: Style, c: Color) -> Style {
    Style { fg: Some(c), ..s }
}

pub open spec fn style_with_bg(s: Style, c: Color) -> Style {
    Style { bg: Some(c), ..s }
}

/// Switching modifiers on also takes them out of the set switched off.
pub open spec fn style_adding(s: Style, m: Modifiers) -> Style {
    Style {
        add_modifier: modifiers_union(s.add_modifier, m),
        sub_modifier: modifiers_difference(s.sub_modifier, m),
        ..s
    }
}

/// Switching modifiers off also takes them out of the set switched on.
pub open spec fn style_removing(s: Style, m: Modifiers) -> Style {
    Style {
        add_modifier: modifiers_difference(s.add_modifier, m),
        sub_modifier: modifiers_union(s.sub_modifier, m),
        ..s
    }
}

impl Style {
    pub fn plain() -> (s: Style)
        ensures
            s == plain_style(),
    {
        Style { fg: None, bg: None, add_modifier: Modifiers::empty(), sub_modifier: Modifiers::empty() }
    }

    pub fn fg(self, c: Color) -> (s: Style)
        ensures
            s == style_with_fg(self, c),
    {
        Style { fg: Some(c), ..self }
    }

    pub fn bg(self, c: Color) -> (s: Style)
        ensures
            s == style_with_bg(self, c),
    {
        Style { bg: Some(c), ..self }
    }

    pub fn add_modifier(self, m: Modifiers) -> (s: Style)
        ensures
            s == style_adding(self, m),
    {
        Style {
            add_modifier: self.add_modifier.union(m),
            sub_modifier: self.sub_modifier.difference(m),
            ..self
        }
    }

    pub fn remove_modifier(self, m: Modifiers) -> (s: Style)
        ensures
            s == style_removing(self, m),
    {
        Style {
            add_modifier: self.add_modifier.difference(m),
            sub_modifier: self.sub_modifier.union(m),
            ..self
        }
    }
}

/// A piece of text drawn in one style.
#[derive(Debug)]
pub struct Span {
    pub content: String,
    pub style: Style,
}

/// The value of a span: its characters and its style.
pub struct SpanView {
    pub content: Seq<char>,
    pub style: Style,
}

impl View for Span {
    type V = SpanView;

    open spec fn view(&self) -> SpanView {
        SpanView { content: self.content@, style: self.style }
    }
}

/// The values of a sequence of spans.
pub open spec fn spans_view(s: Seq<Span>) -> Seq<SpanView> {
    s.map_values(|x: Span| x@)
}

impl Span {
    /// A span in the plain style.
    pub fn raw(content: String) -> (s: Span)
        ensures
            s@ == (SpanView { content: content@, style: plain_style() }),
    {
        Span { content, style: Style::plain() }
    }

    pub fn styled(content: String, style: Style) -> (s: Span)
        ensures
            s@ == (SpanView { content: content@, style }),
    {
        Span { content, style }
    }
}

/// One line of rendered output.
#[derive(Debug)]
pub struct Line {
    pub spans: Vec<Span>,
}

impl View for Line {
    type V = Seq<SpanView>;

    open spec fn view(&self) -> Seq<SpanView> {
        spans_view(self.spans@)
    }
}

/// The values of a sequence of lines.
pub open spec fn lines_view(s: Seq<Line>) -> Seq<Seq<SpanView>> {
    s.map_values(|x: Line| x@)
}

impl Line {
    /// The empty line (no spans).
    pub fn blank() -> (l: Line)
        ensures
            l@ == Seq::<SpanView>::empty(),
    {
        let l = Line { spans: Vec::new() };
        assert(l@ =~= Seq::<SpanView>::empty());
        l
    }

    pub fn from_spans(spans: Vec<Span>) -> (l: Line)
        ensures
            l@ == spans_view(spans@),
    {
        Line { spans }
    }

    pub fn from_span(span: Span) -> (l: Line)
        ensures
            l@ == seq![span@],
    {
        let mut spans = Vec::new();
        spans.push(span);
        let l = Line { spans };
        assert(l@ =~= seq![span@]);
        l
    }
}

} // verus!
