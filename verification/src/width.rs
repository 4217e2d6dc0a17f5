//! Display widths of characters and strings in terminal columns, as
//! `unicode_width` computes them.

use vstd::prelude::*;
use unicode_width::{UnicodeWidthChar, UnicodeWidthStr};

verus! {

/// The column width `unicode_width` gives a character (`None` for
/// control characters).
pub uninterp spec fn char_width(c: char) -> Option<usize>;

/// `UnicodeWidthChar::width`: control characters (below U+0020 and
/// U+007F to U+009F) have no width, printable ASCII has width 1, and no
/// character is wider than 3 columns (U+17D8 is the only one of width 3);
/// the table lookup for the rest is left to the name.
#[verifier::external_body]
pub(crate) fn char_display_width(c: char) -> (r: Option<usize>)
    ensures
        r == char_width(c),
        ((c as u32) < 0x20 || (0x7f <= (c as u32) && (c as u32) < 0xa0)) <==> r is None,
        (0x20 <= (c as u32) && (c as u32) < 0x7f) ==> r == Some(1usize),
        r matches Some(w) ==> w <= 3,
{
    UnicodeWidthChar::width(c)
}

/// The column width of a character as the wrapper counts it: 0 for
/// control characters.
pub open spec fn char_columns(c: char) -> nat {
    match char_width(c) {
        Some(w) => w as nat,
        None => 0,
    }
}

/// The columns of a text, counted character by character.
pub open spec fn columns_of(s: Seq<char>) -> nat
    decreases s.len(),
{
    if s.len() == 0 {
        0
    } else {
        columns_of(s.drop_last()) + char_columns(s.last())
    }
}

/// A character `unicode_width` counts the same alone and inside a string:
/// printable ASCII, or a character above U+00A0 of at most one column
/// that neither starts nor joins a ligature, emoji or joining sequence
/// (Hebrew lamed, the Arabic alef group, Khmer letters, Buginese ya,
/// Tifinagh consonants, Lisu tone letters, the variation selectors, Old
/// Turkic orkhon i, regional indicators).
pub open spec fn simple_width_char(c: char) -> bool {
    &&& (char_width(c) == Some(0usize) || char_width(c) == Some(1usize))
    &&& ((0x20 <= (c as u32) && (c as u32) < 0x7f) || (c as u32) > 0xa0)
    &&& !(c == '\u{5dc}' || ('\u{622}' <= c && c <= '\u{882}') || ('\u{1780}' <= c && c <= '\u{17af}')
        || c == '\u{1a10}' || ('\u{2d31}' <= c && c <= '\u{2d6f}') || ('\u{a4fc}' <= c && c <= '\u{a4fd}')
        || c == '\u{fe0e}' || c == '\u{fe0f}' || c == '\u{10c03}' || ('\u{1f1e6}' <= c && c <= '\u{1f1ff}'))
}

pub open spec fn simple_width_text(s: Seq<char>) -> bool {
    forall|i: int| 0 <= i < s.len() ==> simple_width_char(#[trigger] s[i])
}

/// The column width `unicode_width` gives a string.
pub uninterp spec fn str_width(s: Seq<char>) -> usize;

/// Characters below U+0080 other than carriage return.
pub open spec fn plain_ascii(s: Seq<char>) -> bool {
    forall|i: int| 0 <= i < s.len() ==> (#[trigger] s[i] as u32) < 0x80 && s[i] != '\r'
}

/// `UnicodeWidthStr::width`: every character adds at most 3 columns and
/// the ligature and emoji-sequence adjustments only take back columns
/// already counted, so a string is at most three columns per character;
/// ASCII without carriage returns has one column per character (control
/// characters count 1 inside strings); a string of characters that start
/// no sequence is as wide as its characters' widths added up, since the
/// right-to-left fold then stays in its default state.  The rest is left
/// to the name.
#[verifier::external_body]
pub(crate) fn str_display_width(s: &str) -> (r: usize)
    ensures
        r == str_width(s@),
        r <= 3 * s@.len(),
        plain_ascii(s@) ==> r == s@.len(),
        simple_width_text(s@) ==> r == columns_of(s@),
{
    UnicodeWidthStr::width(s)
}

} // verus!
